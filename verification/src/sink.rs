//! Sinks: where bytes are handed over, piece by piece.

use vstd::prelude::*;

verus! {

/// Whether a function can have answered that it took the bytes.
pub open spec fn accepts<F: FnMut(&[u8]) -> Result<(), ()>>(f: F, bytes: Seq<u8>) -> bool {
    exists|b: &[u8], x: Result<(), ()>|
        b@ == bytes && x is Ok && #[trigger] call_ensures(f, (b,), x)
}

/// Whether a function can have answered that it refuses the bytes.
pub open spec fn refuses<F: FnMut(&[u8]) -> Result<(), ()>>(f: F, bytes: Seq<u8>) -> bool {
    exists|b: &[u8], x: Result<(), ()>|
        b@ == bytes && x is Err && #[trigger] call_ensures(f, (b,), x)
}

/// A function that is offered pieces of bytes and takes or refuses each, together
/// with the record of what it was offered and what it took. The function is only
/// called through [`Sink::take`], which keeps the record.
pub struct Sink<F> {
    f: F,
    offered: Ghost<Seq<Seq<u8>>>,
    taken: Ghost<Seq<Seq<u8>>>,
}

impl<F: FnMut(&[u8]) -> Result<(), ()>> Sink<F> {
    /// The function.
    pub closed spec fn function(self) -> F {
        self.f
    }

    /// The pieces that the function was called with, in order.
    pub closed spec fn offered(self) -> Seq<Seq<u8>> {
        self.offered@
    }

    /// Those of the pieces that the function took, in order.
    pub closed spec fn taken(self) -> Seq<Seq<u8>> {
        self.taken@
    }

    /// Whether the function can be called with any bytes.
    pub open spec fn ready(self) -> bool {
        forall|b: &[u8]| call_requires(self.function(), (b,))
    }

    /// A sink of the function. Nothing has been offered to it.
    pub fn new(f: F) -> (sink: Sink<F>)
        requires
            forall|b: &[u8]| call_requires(f, (b,)),
        ensures
            sink.ready(),
            sink.function() == f,
            sink.offered() == Seq::<Seq<u8>>::empty(),
            sink.taken() == Seq::<Seq<u8>>::empty(),
    {
        Sink { f, offered: Ghost(Seq::empty()), taken: Ghost(Seq::empty()) }
    }

    /// Calls the function once, with the given bytes.
    pub fn take(&mut self, bytes: &[u8]) -> (r: Result<(), ()>)
        requires
            old(self).ready(),
        ensures
            final(self).function() == old(self).function(),
            final(self).offered() == old(self).offered().push(bytes@),
            final(self).taken() == (if r is Ok {
                old(self).taken().push(bytes@)
            } else {
                old(self).taken()
            }),
            r is Ok ==> accepts(old(self).function(), bytes@),
            r is Err ==> refuses(old(self).function(), bytes@),
    {
        assert(call_requires(self.function(), (bytes,)));
        let r: Result<(), ()> = (self.f)(bytes);
        assert(call_ensures(old(self).f, (bytes,), r));
        self.offered = Ghost(self.offered@.push(bytes@));
        if r.is_ok() {
            self.taken = Ghost(self.taken@.push(bytes@));
        }
        r
    }
}

/// Whether a function can have taken each of the pieces.
pub open spec fn accepts_each<F: FnMut(&[u8]) -> Result<(), ()>>(
    f: F,
    pieces: Seq<Seq<u8>>,
) -> bool {
    forall|i: int| 0 <= i < pieces.len() ==> accepts(f, #[trigger] pieces[i])
}

/// Whether a sink, between two moments, was offered the pieces, in order and
/// nothing else, and took them all.
pub open spec fn took_all<F: FnMut(&[u8]) -> Result<(), ()>>(
    before: Sink<F>,
    after: Sink<F>,
    pieces: Seq<Seq<u8>>,
) -> bool {
    &&& after.offered() == before.offered() + pieces
    &&& after.taken() == before.taken() + pieces
    &&& accepts_each(before.function(), pieces)
}

/// A sink that nothing was offered to took all of nothing.
pub proof fn lemma_took_nothing<F: FnMut(&[u8]) -> Result<(), ()>>(sink: Sink<F>)
    ensures
        took_all(sink, sink, Seq::<Seq<u8>>::empty()),
{
    assert(sink.offered() + Seq::<Seq<u8>>::empty() =~= sink.offered());
    assert(sink.taken() + Seq::<Seq<u8>>::empty() =~= sink.taken());
}

/// A sink that refuses everything does not take pieces, where there are any.
pub proof fn lemma_refusing<F: FnMut(&[u8]) -> Result<(), ()>>(
    before: Sink<F>,
    after: Sink<F>,
    pieces: Seq<Seq<u8>>,
)
    requires
        forall|piece: Seq<u8>| !#[trigger] accepts(before.function(), piece),
        pieces.len() > 0,
    ensures
        !took_all(before, after, pieces),
{
    if took_all(before, after, pieces) {
        assert(accepts(before.function(), pieces[0]));
    }
}

/// Whether a sink, between two moments, was offered the pieces up to the one at
/// `k`, in order and nothing else, and took them all but that last one.
pub open spec fn refused_at<F: FnMut(&[u8]) -> Result<(), ()>>(
    before: Sink<F>,
    after: Sink<F>,
    pieces: Seq<Seq<u8>>,
    k: int,
) -> bool {
    &&& 0 <= k < pieces.len()
    &&& after.offered() == before.offered() + pieces.take(k + 1)
    &&& after.taken() == before.taken() + pieces.take(k)
    &&& accepts_each(before.function(), pieces.take(k))
    &&& refuses(before.function(), pieces[k])
}

/// Whether a sink, between two moments, took the first of the pieces and then
/// refused one, and was offered nothing else.
pub open spec fn refused_one<F: FnMut(&[u8]) -> Result<(), ()>>(
    before: Sink<F>,
    after: Sink<F>,
    pieces: Seq<Seq<u8>>,
) -> bool {
    exists|k: int| refused_at(before, after, pieces, k)
}

} // verus!
