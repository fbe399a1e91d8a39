//! Handing chunks over: what a sink is offered, what it takes, and what is reported.

use vstd::prelude::*;
use vstd::slice::*;
use vstd::string::*;
use vstd::utf8::*;

use crate::constants::TRAILER_MAGIC;
use crate::context::{ContextView, DecryptContext};
use crate::crypto;
use crate::decrypt;
use crate::decrypt::{decrypt_streaming, decrypt_streaming_raw, read_trailer};
use crate::envelope::EnvelopeView;
use crate::handshake::build_decrypt_context;
use crate::keys::PublicBundle;
use crate::laws::decryption::{
    framed, lemma_frame_nonce, lemma_joined, lemma_stream_text, open_to, stream_text, whole_text,
};
use crate::laws::formats::{flat, frame_nonce, trailer, trailer_magic};
use crate::laws::signatures::{expects, header_signed, lemma_told, told};
use crate::laws::{
    lemma_numbers, lemma_payload_aad, lemma_signed_text, number, payload_aad, signed_text,
};
use crate::message::binary_from_armor;
use crate::sink;
use crate::sink::Sink;
use crate::streaming;
use crate::streaming::{signature_trailer, write_signature_trailer};
use crate::transcript;
use crate::util;

verus! {

// ----------------------------------------------------------------------
// Sinks
// ----------------------------------------------------------------------

/// Whether a function refuses nothing.
pub open spec fn tolerant<F: FnMut(&[u8]) -> Result<(), ()>>(f: F) -> bool {
    forall|b: &[u8], x: Result<(), ()>| #[trigger] call_ensures(f, (b,), x) ==> x is Ok
}

/// A sink keeps count of what its function is offered and of what it takes: what the
/// function says to have taken.
pub proof fn law_take<F: FnMut(&[u8]) -> Result<(), ()>>(
    s: &mut Sink<F>,
    bytes: &[u8],
    r: Result<(), ()>,
)
    requires
        call_ensures(Sink::<F>::take, (s, bytes), r),
    ensures
        final(s).function() == old(s).function(),
        final(s).offered() == old(s).offered().push(bytes@),
        r is Ok ==> final(s).taken() == old(s).taken().push(bytes@),
        r is Err ==> final(s).taken() == old(s).taken(),
        tolerant(old(s).function()) ==> r is Ok,
        r is Ok ==> exists|b: &[u8], x: Result<(), ()>|
            b@ == bytes@ && x is Ok && #[trigger] call_ensures(old(s).function(), (b,), x),
        r is Err ==> exists|b: &[u8], x: Result<(), ()>|
            b@ == bytes@ && x is Err && #[trigger] call_ensures(old(s).function(), (b,), x),
{
}

/// A new sink has been offered nothing.
pub proof fn law_new_sink<F: FnMut(&[u8]) -> Result<(), ()>>(f: F, s: Sink<F>)
    requires
        call_ensures(Sink::<F>::new, (f,), s),
    ensures
        s.function() == f,
        s.offered().len() == 0,
        s.taken().len() == 0,
{
}

/// Whether a sink, between two moments, was offered the pieces and nothing else, and
/// took them all, or all but the last.
pub open spec fn grew<F: FnMut(&[u8]) -> Result<(), ()>>(
    before: Sink<F>,
    after: Sink<F>,
    pieces: Seq<Seq<u8>>,
    all: bool,
) -> bool {
    &&& after.function() == before.function()
    &&& after.offered() == before.offered() + pieces
    &&& after.taken() == before.taken() + (if all {
        pieces
    } else {
        pieces.drop_last()
    })
    &&& !all ==> pieces.len() > 0 && !tolerant(before.function())
}

/// A sink that took all the pieces.
proof fn lemma_took_all<F: FnMut(&[u8]) -> Result<(), ()>>(
    before: Sink<F>,
    after: Sink<F>,
    pieces: Seq<Seq<u8>>,
)
    requires
        sink::took_all(before, after, pieces),
        after.function() == before.function(),
    ensures
        grew(before, after, pieces, true),
{
}

/// A sink that refused one of the pieces.
proof fn lemma_refused<F: FnMut(&[u8]) -> Result<(), ()>>(
    before: Sink<F>,
    after: Sink<F>,
    pieces: Seq<Seq<u8>>,
) -> (k: int)
    requires
        sink::refused_one(before, after, pieces),
        after.function() == before.function(),
    ensures
        0 <= k < pieces.len(),
        grew(before, after, pieces.take(k + 1), false),
{
    let k = choose|k: int| sink::refused_at(before, after, pieces, k);
    assert(pieces.take(k + 1).drop_last() =~= pieces.take(k));
    k
}

// ----------------------------------------------------------------------
// Trailers
// ----------------------------------------------------------------------

/// A trailer is read exactly when it is one, and nothing follows it.
proof fn lemma_trailer(s: Seq<u8>, sig: Seq<u8>)
    ensures
        streaming::trailer_signature(s) == Some(sig) <==> s == trailer(sig) && sig.len()
            <= 0xFFFF_FFFF,
{
    assert(TRAILER_MAGIC@ =~= trailer_magic());
    if streaming::trailer_signature(s) == Some(sig) {
        let four = s.subrange(32, 36);
        util::lemma_be32(sig.len() as int, four);
        lemma_numbers(sig.len() as int);
        assert(s =~= s.take(32) + four + s.skip(36));
        assert(s =~= trailer(sig));
    }
    if s == trailer(sig) && sig.len() <= 0xFFFF_FFFF {
        util::lemma_be32(sig.len() as int, seq![]);
        lemma_numbers(sig.len() as int);
        assert(s.take(32) =~= trailer_magic());
        assert(s.subrange(32, 36) =~= number(sig.len() as int, 4));
        assert(s.skip(36) =~= sig);
    }
}

/// A trailer is read exactly when it is one.
pub proof fn law_read_trailer(s: &[u8], r: Result<&[u8], ()>)
    requires
        call_ensures(read_trailer, (s,), r),
    ensures
        r matches Ok(sig) ==> s@ == trailer(sig@),
        r is Err ==> forall|sig: Seq<u8>| sig.len() <= 0xFFFF_FFFF ==> #[trigger] trailer(sig) != s@,
{
    if r is Ok {
        lemma_trailer(s@, (r->Ok_0)@);
    } else {
        assert forall|sig: Seq<u8>| sig.len() <= 0xFFFF_FFFF implies #[trigger] trailer(sig)
            != s@ by {
            lemma_trailer(s@, sig);
        }
    }
}

/// A trailer is written behind the end marker.
pub proof fn law_signature_trailer(sig: &[u8], r: Result<Vec<u8>, ()>)
    requires
        call_ensures(signature_trailer, (sig,), r),
    ensures
        r is Ok <==> sig@.len() <= 0xFFFF_FFFF,
        r matches Ok(t) ==> t@ == number(0xFFFF_FFFF, 4) + trailer(sig@),
{
    lemma_marked_trailer(sig@);
}

/// The end marker and a trailer.
proof fn lemma_marked_trailer(sig: Seq<u8>)
    ensures
        streaming::trailer_bytes(sig) == number(0xFFFF_FFFF, 4) + trailer(sig),
{
    lemma_numbers(0xFFFF_FFFF);
    lemma_numbers(sig.len() as int);
    assert(TRAILER_MAGIC@ =~= trailer_magic());
    assert(streaming::trailer_bytes(sig) =~= number(0xFFFF_FFFF, 4) + trailer(sig));
}

/// A trailer that is written to a sink that refuses nothing is written whole; and
/// success means that it was.
pub proof fn law_write_trailer<W: FnMut(&[u8]) -> Result<(), ()>>(
    s: &mut Sink<W>,
    sig: &[u8],
    r: Result<(), ()>,
)
    requires
        call_ensures(write_signature_trailer::<W>, (s, sig), r),
    ensures
        tolerant(old(s).function()) ==> (r is Ok <==> sig@.len() <= 0xFFFF_FFFF),
        r is Ok ==> {
            let n = old(s).taken().len() as int;
            &&& n <= final(s).taken().len()
            &&& final(s).taken().take(n) == old(s).taken()
            &&& flat(final(s).taken().skip(n)) == number(0xFFFF_FFFF, 4) + trailer(sig@)
        },
        sig@.len() > 0xFFFF_FFFF ==> r is Err && final(s).offered() == old(s).offered(),
{
    let n = old(s).taken().len() as int;
    lemma_marked_trailer(sig@);
    if r is Ok {
        let parts = streaming::trailer_parts(sig@);
        assert(final(s).taken().take(n) =~= old(s).taken());
        lemma_joined(final(s).taken().skip(n));
    }
}

// ----------------------------------------------------------------------
// Chunks
// ----------------------------------------------------------------------

/// Whether a chunked payload is complete, and what is told of its signature is the
/// status: where there is a trailer, that of the signature in it, over the digest of
/// the frames.
pub open spec fn delivers(
    v: EnvelopeView,
    rc: Seq<u8>,
    cek: Seq<u8>,
    q: Option<Result<PublicBundle, ()>>,
    bodies: Seq<Seq<u8>>,
    chunks: Seq<Seq<u8>>,
    sig: Option<Seq<u8>>,
    status: i32,
) -> bool {
    &&& stream_text(v, rc, cek, bodies, chunks, after_marker(sig))
    &&& sig is Some == v.has_trailer
    &&& sig matches Some(s) ==> s.len() <= 0xFFFF_FFFF
    &&& told(
        sig,
        q,
        signed_text(
            v.enc_ecdh,
            v.nonce,
            v.recipients_blob,
            rc,
            true,
            crypto::sha256(framed(cek, rc, 0, bodies)),
        ),
    ) == Some(status)
}

/// What follows the end marker.
pub open spec fn after_marker(sig: Option<Seq<u8>>) -> Seq<u8> {
    match sig {
        Some(s) => trailer(s),
        None => seq![],
    }
}

/// Whether a whole payload opens, and what is told of its signature is the status.
pub open spec fn delivers_whole(
    v: EnvelopeView,
    rc: Seq<u8>,
    cek: Seq<u8>,
    q: Option<Result<PublicBundle, ()>>,
    pt: Seq<u8>,
    status: i32,
) -> bool {
    &&& whole_text(v, cek) == Some(pt)
    &&& told(v.signature, q, header_signed(v, rc)) == Some(status)
}

/// A chunked payload, chunk by chunk.
pub proof fn lemma_delivers(
    ctx: ContextView,
    expected: Option<&str>,
    q: Option<Result<PublicBundle, ()>>,
)
    requires
        ctx.parsed.stream,
        expects(expected, q),
    ensures
        decrypt::opened_chunks(ctx, transcript::text_view(expected)) matches Some((chunks, status))
            ==> exists|bodies: Seq<Seq<u8>>, sig: Option<Seq<u8>>| #[trigger]
            delivers(ctx.parsed, ctx.rc, ctx.cek, q, bodies, chunks, sig, status),
        decrypt::opened_chunks(ctx, transcript::text_view(expected)) is None ==> forall|
            bodies: Seq<Seq<u8>>,
            chunks: Seq<Seq<u8>>,
            sig: Option<Seq<u8>>,
            status: i32,
        |
            !#[trigger] delivers(ctx.parsed, ctx.rc, ctx.cek, q, bodies, chunks, sig, status),
{
    let v = ctx.parsed;
    let ev = transcript::text_view(expected);
    lemma_stream_text(ctx);
    match decrypt::opened_chunks(ctx, ev) {
        Some((chunks, status)) => {
            let (cs, n) = decrypt::stream_content(ctx)->0;
            let more = v.ct_and_tag.skip(n + 4);
            let frames = v.ct_and_tag.take(n);
            let bodies = choose|bodies: Seq<Seq<u8>>|
                {
                    &&& #[trigger] framed(ctx.cek, ctx.rc, 0, bodies) == frames
                    &&& stream_text(v, ctx.rc, ctx.cek, bodies, chunks, more)
                };
            let sig = if v.has_trailer {
                streaming::trailer_signature(more)
            } else {
                None
            };
            lemma_signed_text(v.enc_ecdh, v.nonce, v.recipients_blob, ctx.rc, frames);
            lemma_told(
                sig,
                expected,
                q,
                transcript::signed_stream(
                    v.enc_ecdh,
                    v.nonce,
                    v.recipients_blob,
                    ctx.rc,
                    frames,
                ),
            );
            if v.has_trailer {
                lemma_trailer(more, sig->0);
            } else {
                assert(more =~= after_marker(sig));
            }
            assert(delivers(v, ctx.rc, ctx.cek, q, bodies, chunks, sig, status));
        },
        None => {
            assert forall|
                bodies: Seq<Seq<u8>>,
                chunks: Seq<Seq<u8>>,
                sig: Option<Seq<u8>>,
                status: i32,
            |
                !#[trigger] delivers(v, ctx.rc, ctx.cek, q, bodies, chunks, sig, status) by {
                if delivers(v, ctx.rc, ctx.cek, q, bodies, chunks, sig, status) {
                    assert(stream_text(v, ctx.rc, ctx.cek, bodies, chunks, after_marker(sig)));
                    let frames = framed(ctx.cek, ctx.rc, 0, bodies);
                    lemma_signed_text(v.enc_ecdh, v.nonce, v.recipients_blob, ctx.rc, frames);
                    lemma_told(
                        sig,
                        expected,
                        q,
                        transcript::signed_stream(
                            v.enc_ecdh,
                            v.nonce,
                            v.recipients_blob,
                            ctx.rc,
                            frames,
                        ),
                    );
                    if sig is Some {
                        lemma_trailer(after_marker(sig), sig->0);
                    }
                }
            }
        },
    }
}

/// A whole payload, as one chunk.
pub proof fn lemma_delivers_whole(
    ctx: ContextView,
    expected: Option<&str>,
    q: Option<Result<PublicBundle, ()>>,
)
    requires
        !ctx.parsed.stream,
        expects(expected, q),
    ensures
        decrypt::opened_chunks(ctx, transcript::text_view(expected)) matches Some((chunks, status))
            ==> chunks.len() == 1 && delivers_whole(
            ctx.parsed,
            ctx.rc,
            ctx.cek,
            q,
            chunks[0],
            status,
        ),
        decrypt::opened_chunks(ctx, transcript::text_view(expected)) is None ==> forall|
            pt: Seq<u8>,
            status: i32,
        |
            !#[trigger] delivers_whole(ctx.parsed, ctx.rc, ctx.cek, q, pt, status),
{
    let v = ctx.parsed;
    lemma_payload_aad(v.enc_ecdh, v.nonce, v.recipients_blob, false);
    lemma_signed_text(v.enc_ecdh, v.nonce, v.recipients_blob, ctx.rc, v.ct_and_tag);
    lemma_told(v.signature, expected, q, transcript::header_transcript(ctx));
}

/// Whether the pieces are chunks that are authenticated one by one: the payload begins
/// with frames that open to them, or is whole and opens to the one piece.
pub open spec fn genuine(v: EnvelopeView, rc: Seq<u8>, cek: Seq<u8>, pieces: Seq<Seq<u8>>) -> bool {
    if v.stream {
        exists|bodies: Seq<Seq<u8>>, more: Seq<u8>|
            #[trigger] (framed(cek, rc, 0, bodies) + more) == v.ct_and_tag && open_to(
                cek,
                rc,
                payload_aad(v.enc_ecdh, v.nonce, v.recipients_blob, true),
                0,
                bodies,
                pieces,
            )
    } else {
        pieces.len() == 0 || (pieces.len() == 1 && whole_text(v, cek) == Some(pieces[0]))
    }
}

/// The frames at the beginning of a payload that open in their place.
proof fn lemma_opening_frames(
    cek: Seq<u8>,
    rc: Seq<u8>,
    aad: Seq<u8>,
    index: int,
    s: Seq<u8>,
    n: int,
) -> (bodies: Seq<Seq<u8>>)
    requires
        0 <= index <= 0xFFFF_FFFF,
        0 <= n <= streaming::authentic_chunks(cek, rc, aad, index, s).len(),
    ensures
        framed(cek, rc, index, bodies).len() <= s.len(),
        framed(cek, rc, index, bodies) == s.take(framed(cek, rc, index, bodies).len() as int),
        open_to(
            cek,
            rc,
            aad,
            index,
            bodies,
            streaming::authentic_chunks(cek, rc, aad, index, s).take(n),
        ),
    decreases s.len(),
{
    let all = streaming::authentic_chunks(cek, rc, aad, index, s);
    if n == 0 {
        let bodies: Seq<Seq<u8>> = seq![];
        assert(framed(cek, rc, index, bodies) =~= s.take(0));
        bodies
    } else {
        let (chunk, len) = streaming::first_frame(cek, rc, aad, index, s)->0;
        let m = util::be32_value(s.take(4));
        let body = s.subrange(28, 28 + m);
        let rest = s.skip(len);
        let after = streaming::authentic_chunks(cek, rc, aad, index + 1, rest);
        assert(all == seq![chunk] + after);
        util::lemma_be32(m, s.take(4));
        lemma_numbers(m);
        lemma_frame_nonce(cek, rc, index);
        let more = lemma_opening_frames(cek, rc, aad, index + 1, rest, n - 1);
        let bodies = seq![body] + more;
        assert(bodies.skip(1) =~= more);
        let nonce = frame_nonce(cek, rc, index);
        assert(nonce =~= s.subrange(4, 28));
        let f = framed(cek, rc, index + 1, more);
        assert(framed(cek, rc, index, bodies) =~= s.take(len + f.len())) by {
            assert(s.take(len + f.len()) =~= s.take(4) + s.subrange(4, 28) + body + rest.take(
                f.len() as int,
            ));
        }
        let pieces = all.take(n);
        assert forall|i: int| 0 <= i < bodies.len() implies {
            &&& 16 <= (#[trigger] bodies[i]).len() < 0xFFFF_FFFF
            &&& frame_nonce(cek, rc, index + i).len() == 24
            &&& crypto::xchacha_open(cek, frame_nonce(cek, rc, index + i), aad, bodies[i]) == Some(
                pieces[i],
            )
        } by {
            if i > 0 {
                assert(bodies[i] == more[i - 1]);
                assert(pieces[i] == after.take(n - 1)[i - 1]);
                assert(index + i == index + 1 + (i - 1));
            }
        }
        bodies
    }
}

/// Whether the pieces are all the chunks that are authenticated one by one: whatever
/// frames the payload begins with that open in their place, their chunks are among the
/// pieces.
pub open spec fn nothing_left(
    v: EnvelopeView,
    rc: Seq<u8>,
    cek: Seq<u8>,
    pieces: Seq<Seq<u8>>,
) -> bool {
    if v.stream {
        forall|bodies: Seq<Seq<u8>>, chunks: Seq<Seq<u8>>, more: Seq<u8>|
            v.ct_and_tag == #[trigger] (framed(cek, rc, 0, bodies) + more) && #[trigger] open_to(
                cek,
                rc,
                payload_aad(v.enc_ecdh, v.nonce, v.recipients_blob, true),
                0,
                bodies,
                chunks,
            ) ==> chunks.len() <= pieces.len() && chunks == pieces.take(chunks.len() as int)
    } else {
        whole_text(v, cek) is Some ==> pieces.len() == 1
    }
}

/// Frames that open in their place are opened.
proof fn lemma_all_opening(
    cek: Seq<u8>,
    rc: Seq<u8>,
    aad: Seq<u8>,
    index: int,
    s: Seq<u8>,
    bodies: Seq<Seq<u8>>,
    chunks: Seq<Seq<u8>>,
    more: Seq<u8>,
)
    requires
        0 <= index,
        s == framed(cek, rc, index, bodies) + more,
        open_to(cek, rc, aad, index, bodies, chunks),
    ensures
        chunks.len() <= streaming::authentic_chunks(cek, rc, aad, index, s).len(),
        chunks == streaming::authentic_chunks(cek, rc, aad, index, s).take(chunks.len() as int),
    decreases bodies.len(),
{
    let all = streaming::authentic_chunks(cek, rc, aad, index, s);
    if bodies.len() == 0 {
        assert(chunks =~= all.take(0));
    } else {
        let body = bodies[0];
        let nonce = frame_nonce(cek, rc, index);
        assert(frame_nonce(cek, rc, index + 0).len() == 24);
        let rest = framed(cek, rc, index + 1, bodies.skip(1)) + more;
        let len = number(body.len() as int, 4);
        lemma_numbers(body.len() as int);
        util::lemma_be32(body.len() as int, seq![]);
        assert(len.len() == 4);
        assert(s =~= len + nonce + body + rest);
        assert(s.take(4) =~= len);
        lemma_frame_nonce(cek, rc, index);
        assert(s.subrange(4, 28) =~= nonce);
        assert(s.subrange(28, 28 + body.len() as int) =~= body);
        assert(s.skip(28 + body.len() as int) =~= rest);
        let bs = bodies.skip(1);
        let cs = chunks.skip(1);
        assert(open_to(cek, rc, aad, index + 1, bs, cs)) by {
            assert forall|i: int| 0 <= i < bs.len() implies {
                &&& 16 <= (#[trigger] bs[i]).len() < 0xFFFF_FFFF
                &&& frame_nonce(cek, rc, index + 1 + i).len() == 24
                &&& crypto::xchacha_open(cek, frame_nonce(cek, rc, index + 1 + i), aad, bs[i])
                    == Some(cs[i])
            } by {
                assert(bs[i] == bodies[i + 1]);
                assert(cs[i] == chunks[i + 1]);
                assert(index + 1 + i == index + (i + 1));
            }
        }
        lemma_all_opening(cek, rc, aad, index + 1, rest, bs, cs, more);
        assert(crypto::xchacha_open(cek, frame_nonce(cek, rc, index + 0), aad, body) == Some(
            chunks[0],
        ));
        assert(streaming::first_frame(cek, rc, aad, index, s) == Some(
            (chunks[0], 28 + body.len() as int),
        ));
        let after = streaming::authentic_chunks(cek, rc, aad, index + 1, rest);
        assert(all == seq![chunks[0]] + after);
        assert(chunks =~= all.take(chunks.len() as int)) by {
            assert forall|i: int| 0 <= i < chunks.len() implies chunks[i] == all.take(
                chunks.len() as int,
            )[i] by {
                if i > 0 {
                    assert(chunks[i] == cs[i - 1]);
                    assert(cs[i - 1] == after.take(cs.len() as int)[i - 1]);
                }
            }
        }
    }
}

/// The authenticated chunks of a context are all there are.
proof fn lemma_nothing_left(ctx: ContextView)
    ensures
        nothing_left(ctx.parsed, ctx.rc, ctx.cek, decrypt::authentic(ctx)),
{
    let v = ctx.parsed;
    let pieces = decrypt::authentic(ctx);
    lemma_payload_aad(v.enc_ecdh, v.nonce, v.recipients_blob, v.stream);
    if v.stream {
        let aad = payload_aad(v.enc_ecdh, v.nonce, v.recipients_blob, true);
        assert forall|bodies: Seq<Seq<u8>>, chunks: Seq<Seq<u8>>, more: Seq<u8>|
            v.ct_and_tag == #[trigger] (framed(ctx.cek, ctx.rc, 0, bodies) + more) && #[trigger]
                open_to(ctx.cek, ctx.rc, aad, 0, bodies, chunks) implies chunks.len()
            <= pieces.len() && chunks == pieces.take(chunks.len() as int) by {
            lemma_all_opening(ctx.cek, ctx.rc, aad, 0, v.ct_and_tag, bodies, chunks, more);
        }
    }
}

/// The first of the authenticated chunks of a context are authenticated one by one.
proof fn lemma_genuine(ctx: ContextView, n: int)
    requires
        0 <= n <= decrypt::authentic(ctx).len(),
    ensures
        genuine(ctx.parsed, ctx.rc, ctx.cek, decrypt::authentic(ctx).take(n)),
{
    let v = ctx.parsed;
    let pieces = decrypt::authentic(ctx).take(n);
    lemma_payload_aad(v.enc_ecdh, v.nonce, v.recipients_blob, v.stream);
    if v.stream {
        let aad = payload_aad(v.enc_ecdh, v.nonce, v.recipients_blob, true);
        let bodies = lemma_opening_frames(ctx.cek, ctx.rc, aad, 0, v.ct_and_tag, n);
        let f = framed(ctx.cek, ctx.rc, 0, bodies);
        let more = v.ct_and_tag.skip(f.len() as int);
        assert(f + more =~= v.ct_and_tag);
        assert(genuine(v, ctx.rc, ctx.cek, pieces));
    }
}

/// What a decryption chunk by chunk does, by the content key that the envelope gives.
pub open spec fn handed<F: FnMut(&[u8]) -> Result<(), ()>>(
    v: EnvelopeView,
    rc: Seq<u8>,
    cek: Seq<u8>,
    q: Option<Result<PublicBundle, ()>>,
    r: Result<i32, ()>,
    before: Sink<F>,
    after: Sink<F>,
    pieces: Seq<Seq<u8>>,
    all: bool,
) -> bool {
    &&& grew(before, after, pieces, all)
    &&& genuine(v, rc, cek, pieces)
    &&& all ==> nothing_left(v, rc, cek, pieces)
    &&& match r {
        Ok(status) => {
            &&& all
            &&& v.stream ==> exists|bodies: Seq<Seq<u8>>, sig: Option<Seq<u8>>| #[trigger]
                delivers(v, rc, cek, q, bodies, pieces, sig, status)
            &&& !v.stream ==> pieces.len() == 1 && delivers_whole(v, rc, cek, q, pieces[0], status)
        },
        Err(_) => all ==> {
            &&& v.stream ==> forall|
                bodies: Seq<Seq<u8>>,
                chunks: Seq<Seq<u8>>,
                sig: Option<Seq<u8>>,
                status: i32,
            |
                !#[trigger] delivers(v, rc, cek, q, bodies, chunks, sig, status)
            &&& !v.stream ==> forall|pt: Seq<u8>, status: i32|
                !#[trigger] delivers_whole(v, rc, cek, q, pt, status)
        },
    }
}

/// What is handed over is what is said.
proof fn lemma_handed<F: FnMut(&[u8]) -> Result<(), ()>>(
    ctx: ContextView,
    expected: Option<&str>,
    q: Option<Result<PublicBundle, ()>>,
    r: Result<i32, ()>,
    before: Sink<F>,
    after: Sink<F>,
)
    requires
        expects(expected, q),
        after.function() == before.function(),
        decrypt::handed_over(
            r,
            decrypt::opened_chunks(ctx, transcript::text_view(expected)),
            decrypt::authentic(ctx),
            before,
            after,
        ),
    ensures
        exists|pieces: Seq<Seq<u8>>, all: bool| #[trigger]
            handed(ctx.parsed, ctx.rc, ctx.cek, q, r, before, after, pieces, all),
{
    let v = ctx.parsed;
    let ev = transcript::text_view(expected);
    let good = decrypt::authentic(ctx);
    decrypt::lemma_opened_authentic(ctx, ev);
    if v.stream {
        lemma_delivers(ctx, expected, q);
    } else {
        lemma_delivers_whole(ctx, expected, q);
    }
    assert(good.take(good.len() as int) =~= good);
    lemma_genuine(ctx, good.len() as int);
    lemma_nothing_left(ctx);
    match r {
        Ok(status) => {
            lemma_took_all(before, after, good);
            assert(handed(v, ctx.rc, ctx.cek, q, r, before, after, good, true));
        },
        Err(_) => {
            if decrypt::opened_chunks(ctx, ev) is None && sink::took_all(before, after, good) {
                lemma_took_all(before, after, good);
                assert(handed(v, ctx.rc, ctx.cek, q, r, before, after, good, true));
            } else {
                let k = lemma_refused(before, after, good);
                lemma_genuine(ctx, k + 1);
                assert(handed(
                    v,
                    ctx.rc,
                    ctx.cek,
                    q,
                    r,
                    before,
                    after,
                    good.take(k + 1),
                    false,
                ));
            }
        },
    }
}

/// An envelope is decrypted chunk by chunk: with the content key that it gives the
/// secret, each authenticated chunk is offered to the sink, once and in order, until
/// the sink refuses one or there are no more; and success means that the payload is
/// complete, that the sink took all of it, and that the status is what is to be told
/// of the signature. Without a content key nothing is offered.
pub proof fn law_chunk_by_chunk<F: FnMut(&[u8]) -> Result<(), ()>>(
    bytes: &[u8],
    arm: &str,
    pass: &str,
    expected: Option<&str>,
    q: Option<Result<PublicBundle, ()>>,
    ctx: Result<DecryptContext, ()>,
    s: &mut Sink<F>,
    r: Result<i32, ()>,
)
    requires
        expects(expected, q),
        call_ensures(build_decrypt_context, (bytes, arm, pass), ctx),
        call_ensures(decrypt_streaming_raw::<F>, (bytes, arm, pass, expected, s), r),
    ensures
        ctx is Err ==> r is Err && final(s).offered() == old(s).offered() && final(s).taken()
            == old(s).taken(),
        ctx matches Ok(c) ==> exists|pieces: Seq<Seq<u8>>, all: bool| #[trigger]
            handed(c@.parsed, c@.rc, c@.cek, q, r, *old(s), *final(s), pieces, all),
{
    match ctx {
        Ok(c) => {
            lemma_handed(c@, expected, q, r, *old(s), *final(s));
        },
        Err(_) => {
            let none: Seq<Seq<u8>> = seq![];
            assert(old(s).offered() + none =~= old(s).offered());
            assert(old(s).taken() + none =~= old(s).taken());
        },
    }
}

/// From a sink that refuses nothing, an error means that there is nothing complete to
/// decrypt.
pub proof fn law_nothing_withheld<F: FnMut(&[u8]) -> Result<(), ()>>(
    bytes: &[u8],
    arm: &str,
    pass: &str,
    expected: Option<&str>,
    q: Option<Result<PublicBundle, ()>>,
    c: DecryptContext,
    s: &mut Sink<F>,
    r: Result<i32, ()>,
    bodies: Seq<Seq<u8>>,
    chunks: Seq<Seq<u8>>,
    sig: Option<Seq<u8>>,
    status: i32,
)
    requires
        expects(expected, q),
        call_ensures(build_decrypt_context, (bytes, arm, pass), Ok::<DecryptContext, ()>(c)),
        call_ensures(decrypt_streaming_raw::<F>, (bytes, arm, pass, expected, s), r),
        tolerant(old(s).function()),
        c@.parsed.stream,
        delivers(c@.parsed, c@.rc, c@.cek, q, bodies, chunks, sig, status),
    ensures
        r is Ok,
{
    law_chunk_by_chunk(bytes, arm, pass, expected, q, Ok(c), s, r);
}

/// Armor is decrypted chunk by chunk as the envelope that it stands for. Nothing is
/// offered where there is none.
pub proof fn law_armor_chunk_by_chunk<F: FnMut(&[u8]) -> Result<(), ()>>(
    bytes: &[u8],
    text: &str,
    bin: Result<Vec<u8>, ()>,
    b: &[u8],
    arm: &str,
    pass: &str,
    expected: Option<&str>,
    q: Option<Result<PublicBundle, ()>>,
    ctx: Result<DecryptContext, ()>,
    s: &mut Sink<F>,
    r: Result<i32, ()>,
)
    requires
        expects(expected, q),
        valid_utf8(bytes@) ==> text@ == decode_utf8(bytes@),
        call_ensures(binary_from_armor, (text,), bin),
        bin is Ok ==> (bin->Ok_0)@ == b@,
        call_ensures(build_decrypt_context, (b, arm, pass), ctx),
        call_ensures(decrypt_streaming::<F>, (bytes, arm, pass, expected, s), r),
    ensures
        !valid_utf8(bytes@) || bin is Err || ctx is Err ==> r is Err && final(s).offered()
            == old(s).offered() && final(s).taken() == old(s).taken(),
        valid_utf8(bytes@) && bin is Ok && ctx is Ok ==> {
            let c = (ctx->Ok_0)@;
            exists|pieces: Seq<Seq<u8>>, all: bool| #[trigger]
                handed(c.parsed, c.rc, c.cek, q, r, *old(s), *final(s), pieces, all)
        },
{
    let none: Seq<Seq<u8>> = seq![];
    assert(old(s).offered() + none =~= old(s).offered());
    assert(old(s).taken() + none =~= old(s).taken());
    if valid_utf8(bytes@) && bin is Ok && ctx is Ok {
        lemma_handed((ctx->Ok_0)@, expected, q, r, *old(s), *final(s));
    }
}

} // verus!
