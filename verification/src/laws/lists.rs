//! Lists of public keys: which blocks a text holds, and what is read from them.

use vstd::prelude::*;
use vstd::slice::*;
use vstd::string::*;

use crate::armor;
use crate::armor::{parse_public, parse_public_list};
use crate::block;
use crate::encrypt::{encrypt, encrypt_binary};
use crate::handshake;
use crate::handshake::distinct_recipients;
use crate::keys::{PublicBundle, PublicView};
use crate::laws::encryption::law_whole_accepted;
use crate::laws::formats::{lemma_no_later, no_later};
use crate::laws::texts::fit_for_use;
use crate::laws::{lemma_public_text, public_text};
use crate::text;
use crate::text::find_text_from;

verus! {

/// Whether a pattern stands in a text at a place.
pub open spec fn stands_at(s: Seq<char>, pattern: Seq<char>, i: int) -> bool {
    0 <= i && i + pattern.len() <= s.len() && s.subrange(i, i + pattern.len()) == pattern
}

/// What the block of a public key begins with.
pub open spec fn begin_marker() -> Seq<char> {
    "-----BEGIN VELUM PUBLIC KEY-----"@
}

/// What the block of a public key ends with.
pub open spec fn end_marker() -> Seq<char> {
    "-----END VELUM PUBLIC KEY-----"@
}

/// Whether a block stands in a text: a begin marker, and an end marker behind it.
pub open spec fn has_block(s: Seq<char>) -> bool {
    exists|i: int, j: int|
        i <= j && #[trigger] stands_at(s, begin_marker(), i) && #[trigger] stands_at(
            s,
            end_marker(),
            j,
        )
}

/// Whether the first block of a text stands there: no begin marker stands before it,
/// and no end marker within it.
pub open spec fn first_block(s: Seq<char>, start: int, stop: int) -> bool {
    &&& stands_at(s, begin_marker(), start)
    &&& forall|k: int| 0 <= k < start ==> !#[trigger] stands_at(s, begin_marker(), k)
    &&& start <= stop - end_marker().len()
    &&& stands_at(s, end_marker(), stop - end_marker().len())
    &&& forall|k: int|
        start <= k < stop - end_marker().len() ==> !#[trigger] stands_at(s, end_marker(), k)
}

/// Where nothing is found, the pattern stands nowhere.
proof fn lemma_not_found(s: Seq<char>, pattern: Seq<char>)
    ensures
        text::find_text(s, pattern) is None ==> forall|i: int| !#[trigger]
            stands_at(s, pattern, i),
        text::find_text(s, pattern) matches Some(i) ==> stands_at(s, pattern, i) && forall|k: int|
            0 <= k < i ==> !#[trigger] stands_at(s, pattern, k),
    decreases s.len(),
{
    if !text::occurs_at(s, pattern, 0) && s.len() > 0 {
        let t = s.skip(1);
        lemma_not_found(t, pattern);
        assert forall|i: int| 1 <= i && #[trigger] stands_at(s, pattern, i) implies stands_at(
            t,
            pattern,
            i - 1,
        ) by {
            assert(t.subrange(i - 1, i - 1 + pattern.len()) =~= s.subrange(i, i + pattern.len()));
        }
        match text::find_text(t, pattern) {
            Some(i) => {
                assert(t.subrange(i, i + pattern.len()) =~= s.subrange(
                    i + 1,
                    i + 1 + pattern.len(),
                ));
                assert forall|k: int| 0 <= k < i + 1 implies !#[trigger] stands_at(
                    s,
                    pattern,
                    k,
                ) by {
                    if stands_at(s, pattern, k) && k > 0 {
                        assert(stands_at(t, pattern, k - 1));
                    }
                }
            },
            None => {
                assert forall|i: int| !#[trigger] stands_at(s, pattern, i) by {
                    if stands_at(s, pattern, i) && i > 0 {
                        assert(stands_at(t, pattern, i - 1));
                    }
                }
            },
        }
    } else if s.len() == 0 && !text::occurs_at(s, pattern, 0) {
        assert forall|i: int| !#[trigger] stands_at(s, pattern, i) by {
            if stands_at(s, pattern, i) {
                assert(i == 0);
            }
        }
    }
}

/// Where a pattern first stands, from a place on.
pub proof fn law_find_text(chars: &Vec<char>, from: usize, pattern: &Vec<char>, r: Option<usize>)
    requires
        from <= chars@.len(),
        call_ensures(find_text_from, (chars, from, pattern), r),
    ensures
        r matches Some(i) ==> from <= i && stands_at(chars@, pattern@, i as int) && forall|k: int|
            from <= k < i ==> !#[trigger] stands_at(chars@, pattern@, k),
        r is None ==> forall|k: int| from <= k ==> !#[trigger] stands_at(chars@, pattern@, k),
{
    let t = chars@.skip(from as int);
    lemma_not_found(t, pattern@);
    assert forall|k: int| from <= k && #[trigger] stands_at(chars@, pattern@, k) implies stands_at(
        t,
        pattern@,
        k - from,
    ) by {
        assert(t.subrange(k - from, k - from + pattern@.len()) =~= chars@.subrange(
            k,
            k + pattern@.len(),
        ));
    }
    if r is Some {
        let i = r->0 as int;
        assert(t.subrange(i - from, i - from + pattern@.len()) =~= chars@.subrange(
            i,
            i + pattern@.len(),
        ));
        assert forall|k: int| from <= k < i implies !#[trigger] stands_at(chars@, pattern@, k) by {
            if stands_at(chars@, pattern@, k) {
                assert(stands_at(t, pattern@, k - from));
            }
        }
    } else {
        assert forall|k: int| from <= k implies !#[trigger] stands_at(chars@, pattern@, k) by {
            if stands_at(chars@, pattern@, k) {
                assert(stands_at(t, pattern@, k - from));
            }
        }
    }
}

/// A text without a block holds no keys.
proof fn lemma_no_block(s: Seq<char>)
    requires
        !has_block(s),
    ensures
        armor::public_blocks(s) == Some(Seq::<PublicView>::empty()),
{
    lemma_not_found(s, begin_marker());
    match text::find_text(s, begin_marker()) {
        Some(i) => {
            let t = s.skip(i);
            lemma_not_found(t, end_marker());
            match text::find_text(t, end_marker()) {
                Some(j) => {
                    assert(t.subrange(j, j + end_marker().len()) =~= s.subrange(
                        i + j,
                        i + j + end_marker().len(),
                    ));
                    assert(stands_at(s, end_marker(), i + j));
                },
                None => {},
            }
        },
        None => {},
    }
}

/// The first block of a text, and what follows it.
proof fn lemma_first_block(s: Seq<char>, start: int, stop: int)
    requires
        first_block(s, start, stop),
    ensures
        armor::public_blocks(s) == match (
            armor::public_of(s.subrange(start, stop)),
            armor::public_blocks(s.skip(stop)),
        ) {
            (Some(p), Some(rest)) => Some(seq![p] + rest),
            _ => None,
        },
{
    let begin = begin_marker();
    let end = end_marker();
    let n = stop - end.len();
    assert forall|k: int| 0 <= k < start implies !#[trigger] text::occurs_at(s, begin, k) by {
        assert(!stands_at(s, begin, k));
    }
    assert(text::occurs_at(s, begin, start));
    text::lemma_find_text_is(s, begin, start);
    let t = s.skip(start);
    assert(t.subrange(n - start, n - start + end.len()) =~= s.subrange(n, n + end.len()));
    assert forall|k: int| 0 <= k < n - start implies !#[trigger] text::occurs_at(t, end, k) by {
        assert(!stands_at(s, end, start + k));
        if text::occurs_at(t, end, k) {
            assert(t.subrange(k, k + end.len()) =~= s.subrange(start + k, start + k + end.len()));
        }
    }
    text::lemma_find_text_is(t, end, n - start);
    armor::lemma_block_end(s);
}

/// A list of keys begins with the keys of the first block of the text, and goes on
/// with what the rest of the text holds; one block that holds no keys spoils it.
pub proof fn law_list(
    s: &str,
    start: int,
    stop: int,
    first: &str,
    rest: &str,
    p: Result<PublicBundle, ()>,
    q: Result<Vec<PublicBundle>, ()>,
    r: Result<Vec<PublicBundle>, ()>,
)
    requires
        first_block(s@, start, stop),
        first@ == s@.subrange(start, stop),
        rest@ == s@.skip(stop),
        call_ensures(parse_public, (first,), p),
        call_ensures(parse_public_list, (rest,), q),
        call_ensures(parse_public_list, (s,), r),
    ensures
        p is Err ==> r is Err,
        p is Ok && !has_block(rest@) ==> (r matches Ok(l) && keys_in(l@) == seq![(p->Ok_0)@]),
        p is Ok && has_block(rest@) ==> r is Ok == q is Ok,
        p is Ok && has_block(rest@) && r is Ok ==> keys_in((r->Ok_0)@) == seq![(p->Ok_0)@]
            + keys_in((q->Ok_0)@),
{
    lemma_first_block(s@, start, stop);
    if r is Ok {
        assert(armor::public_views(r->Ok_0@) =~= keys_in(r->Ok_0@));
    }
    if q is Ok {
        assert(armor::public_views(q->Ok_0@) =~= keys_in(q->Ok_0@));
    }
    if p is Ok {
        let none = Seq::<PublicView>::empty();
        assert(seq![(p->Ok_0)@] + none =~= seq![(p->Ok_0)@]);
        if !has_block(rest@) {
            lemma_no_block(rest@);
        } else {
            lemma_some_block(rest@);
        }
    }
}

/// A text with a block holds keys, or a block that spoils them.
proof fn lemma_some_block(s: Seq<char>)
    requires
        has_block(s),
    ensures
        armor::public_blocks(s) matches Some(l) ==> l.len() > 0,
{
    let (i, j) = choose|i: int, j: int|
        i <= j && #[trigger] stands_at(s, begin_marker(), i) && #[trigger] stands_at(
            s,
            end_marker(),
            j,
        );
    lemma_not_found(s, begin_marker());
    match text::find_text(s, begin_marker()) {
        Some(k) => {
            if k > i {
                assert(!stands_at(s, begin_marker(), i));
            }
            let t = s.skip(k);
            lemma_not_found(t, end_marker());
            assert(t.subrange(j - k, j - k + end_marker().len()) =~= s.subrange(
                j,
                j + end_marker().len(),
            ));
            assert(stands_at(t, end_marker(), j - k));
        },
        None => {},
    }
}

/// A text without a block is no list of keys.
pub proof fn law_no_list(s: &str, r: Result<Vec<PublicBundle>, ()>)
    requires
        !has_block(s@),
        call_ensures(parse_public_list, (s,), r),
    ensures
        r is Err,
{
    lemma_no_block(s@);
}

/// What the bundles hold.
pub open spec fn keys_in(l: Seq<PublicBundle>) -> Seq<PublicView> {
    l.map_values(|p: PublicBundle| p@)
}

// ----------------------------------------------------------------------
// Texts of many keys
// ----------------------------------------------------------------------

/// Public keys in armor, one after the other, with text before each and behind the
/// last.
pub open spec fn written(vs: Seq<PublicView>, gaps: Seq<Seq<char>>) -> Seq<char>
    decreases vs.len(),
{
    if vs.len() == 0 {
        gaps[0]
    } else {
        gaps[0] + public_text(vs[0].ecdh_pk, vs[0].pq_pk, vs[0].sig_pk_pq, vs[0].sig_pk_ed)
            + written(vs.skip(1), gaps.skip(1))
    }
}

/// Whether text stands for nothing in a list: it has no dashes.
pub open spec fn no_dashes(s: Seq<char>) -> bool {
    forall|i: int| 0 <= i < s.len() ==> #[trigger] s[i] != '-'
}

/// Keys in armor are read back, however many they are.
proof fn lemma_written(vs: Seq<PublicView>, gaps: Seq<Seq<char>>)
    requires
        gaps.len() == vs.len() + 1,
        forall|i: int| 0 <= i < vs.len() ==> fit_for_use(#[trigger] vs[i]),
        forall|i: int| 0 <= i < gaps.len() ==> no_dashes(#[trigger] gaps[i]),
    ensures
        armor::public_blocks(written(vs, gaps)) == Some(vs),
    decreases vs.len(),
{
    assert(no_dashes(gaps[0]));
    assert(block::lacks(gaps[0], '-'));
    if vs.len() == 0 {
        reveal_strlit("-----BEGIN VELUM PUBLIC KEY-----");
        text::lemma_find_text_none(gaps[0], begin_marker());
        assert(vs =~= Seq::<PublicView>::empty());
    } else {
        let v = vs[0];
        let rest = vs.skip(1);
        assert forall|i: int| 0 <= i < rest.len() implies fit_for_use(#[trigger] rest[i]) by {
            assert(rest[i] == vs[i + 1]);
        }
        assert forall|i: int| 0 <= i < gaps.skip(1).len() implies no_dashes(
            #[trigger] gaps.skip(1)[i],
        ) by {
            assert(gaps.skip(1)[i] == gaps[i + 1]);
        }
        lemma_written(rest, gaps.skip(1));
        assert(fit_for_use(v));
        lemma_public_text(v.ecdh_pk, v.pq_pk, v.sig_pk_pq, v.sig_pk_ed);
        armor::lemma_public_block_first(gaps[0], v, written(rest, gaps.skip(1)));
        assert(seq![v] + rest =~= vs);
    }
}

/// A text of valid keys in armor is read as those keys, in their order, however many
/// they are and whatever stands between them that has no dashes.
pub proof fn law_list_read_back(
    vs: Seq<PublicView>,
    gaps: Seq<Seq<char>>,
    s: &str,
    r: Result<Vec<PublicBundle>, ()>,
)
    requires
        vs.len() > 0,
        gaps.len() == vs.len() + 1,
        forall|i: int| 0 <= i < vs.len() ==> fit_for_use(#[trigger] vs[i]),
        forall|i: int| 0 <= i < gaps.len() ==> no_dashes(#[trigger] gaps[i]),
        s@ == written(vs, gaps),
        call_ensures(parse_public_list, (s,), r),
    ensures
        r matches Ok(l) && keys_in(l@) == vs,
{
    lemma_written(vs, gaps);
    if r is Ok {
        assert(armor::public_views(r->Ok_0@) =~= keys_in(r->Ok_0@));
    }
}

/// A message without a signer is encrypted whole for every list of valid keys in
/// armor, however many they are, as long as a header of that many entries can be
/// counted.
pub proof fn law_many_recipients(
    vs: Seq<PublicView>,
    gaps: Seq<Seq<char>>,
    bytes: &[u8],
    s: &str,
    list: Result<Vec<PublicBundle>, ()>,
    x: Result<Vec<u8>, ()>,
    y: Result<Vec<u8>, ()>,
)
    requires
        vs.len() > 0,
        gaps.len() == vs.len() + 1,
        forall|i: int| 0 <= i < vs.len() ==> fit_for_use(#[trigger] vs[i]),
        forall|i: int| 0 <= i < gaps.len() ==> no_dashes(#[trigger] gaps[i]),
        s@ == written(vs, gaps),
        96 + 1184 * vs.len() <= 0xFFFF_FFFF,
        bytes@.len() <= 0x3F_FFFF_FF80,
        call_ensures(parse_public_list, (s,), list),
        call_ensures(encrypt, (bytes, s, None::<(&str, &str)>), x),
        call_ensures(encrypt_binary, (bytes, s, None::<(&str, &str)>), y),
    ensures
        x is Ok,
        y is Ok,
{
    law_list_read_back(vs, gaps, s, list);
    let l = list->Ok_0@;
    let a = l.map_values(|p: PublicBundle| p.ecdh_pk@ + p.pq_pk@);
    assert(keys_in(l).len() == l.len());
    a.lemma_cardinality_of_set();
    law_whole_accepted(bytes, s, None, list, None, x);
    law_whole_accepted(bytes, s, None, list, None, y);
}

/// Whether the keys are among those of a list.
pub open spec fn among(l: Seq<PublicBundle>, v: PublicView) -> bool {
    exists|k: int| 0 <= k < l.len() && (#[trigger] l[k])@ == v
}

/// Whether a recipient with this X25519 key and ML-KEM-768 key is in a list.
pub open spec fn addressed(l: Seq<PublicBundle>, key: Seq<u8>) -> bool {
    exists|k: int| 0 <= k < l.len() && address(#[trigger] l[k]) == key
}

/// What recipients are told apart by.
pub open spec fn address(p: PublicBundle) -> Seq<u8> {
    p.ecdh_pk@ + p.pq_pk@
}

/// The recipients of a list are its different keys, sorted, each once.
pub proof fn law_distinct_recipients(list: Vec<PublicBundle>, r: Vec<PublicBundle>)
    requires
        call_ensures(distinct_recipients, (list,), r),
    ensures
        forall|i: int, j: int|
            0 <= i < j < r@.len() ==> address(#[trigger] r@[i]) != address(#[trigger] r@[j])
                && no_later(address(r@[i]), address(r@[j])),
        forall|i: int| 0 <= i < r@.len() ==> among(list@, (#[trigger] r@[i])@),
        forall|k: int| 0 <= k < list@.len() ==> addressed(r@, address(#[trigger] list@[k])),
{
    let a = armor::public_views(list@);
    let b = armor::public_views(r@);
    assert forall|i: int, j: int| 0 <= i < j < r@.len() implies address(#[trigger] r@[i])
        != address(#[trigger] r@[j]) && no_later(address(r@[i]), address(r@[j])) by {
        assert(handshake::comes_before(b[i], b[j]));
        lemma_no_later(handshake::sort_key(b[i]), handshake::sort_key(b[j]));
    }
    assert forall|i: int| 0 <= i < r@.len() implies among(list@, (#[trigger] r@[i])@) by {
        assert(a.contains(b[i]));
        let k = choose|k: int| 0 <= k < a.len() && a[k] == b[i];
        assert(list@[k]@ == r@[i]@);
    }
    assert forall|k: int| 0 <= k < list@.len() implies addressed(
        r@,
        address(#[trigger] list@[k]),
    ) by {
        assert(handshake::lists(b, a[k]));
        let i = choose|i: int|
            0 <= i < b.len() && handshake::sort_key(#[trigger] b[i]) == handshake::sort_key(a[k]);
        assert(r@[i]@ == b[i]);
        assert(address(r@[i]) == address(list@[k]));
    }
}

} // verus!
