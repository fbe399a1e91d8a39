//! Lexicographic order of byte strings, and sorting by it.

use vstd::multiset::*;
use vstd::prelude::*;
use vstd::relations::*;
use vstd::seq_lib::*;

verus! {

/// Whether `a` comes no later than `b` in lexicographic order.
pub open spec fn lex_le(a: Seq<u8>, b: Seq<u8>) -> bool
    decreases a.len(),
{
    if a.len() == 0 {
        true
    } else if b.len() == 0 {
        false
    } else if a[0] == b[0] {
        lex_le(a.skip(1), b.skip(1))
    } else {
        a[0] < b[0]
    }
}

/// The lexicographic order as a relation.
pub open spec fn by_bytes() -> spec_fn(Seq<u8>, Seq<u8>) -> bool {
    |a: Seq<u8>, b: Seq<u8>| lex_le(a, b)
}

/// What the arrays hold.
pub open spec fn id_views(v: Seq<[u8; 32]>) -> Seq<Seq<u8>> {
    v.map_values(|a: [u8; 32]| a@)
}

proof fn lemma_lex_reflexive(a: Seq<u8>)
    ensures
        lex_le(a, a),
    decreases a.len(),
{
    if a.len() > 0 {
        lemma_lex_reflexive(a.skip(1));
    }
}

proof fn lemma_lex_antisymmetric(a: Seq<u8>, b: Seq<u8>)
    requires
        lex_le(a, b),
        lex_le(b, a),
    ensures
        a == b,
    decreases a.len(),
{
    if a.len() > 0 && b.len() > 0 {
        lemma_lex_antisymmetric(a.skip(1), b.skip(1));
        assert(a =~= seq![a[0]] + a.skip(1));
        assert(b =~= seq![b[0]] + b.skip(1));
    } else {
        assert(a =~= b);
    }
}

proof fn lemma_lex_transitive(a: Seq<u8>, b: Seq<u8>, c: Seq<u8>)
    requires
        lex_le(a, b),
        lex_le(b, c),
    ensures
        lex_le(a, c),
    decreases a.len(),
{
    if a.len() > 0 && b.len() > 0 && c.len() > 0 {
        if a[0] == b[0] && b[0] == c[0] {
            lemma_lex_transitive(a.skip(1), b.skip(1), c.skip(1));
        }
    }
}

proof fn lemma_lex_total(a: Seq<u8>, b: Seq<u8>)
    ensures
        lex_le(a, b) || lex_le(b, a),
    decreases a.len(),
{
    if a.len() > 0 && b.len() > 0 {
        lemma_lex_total(a.skip(1), b.skip(1));
    }
}

/// The lexicographic order is a total order.
pub proof fn lemma_lex_order()
    ensures
        total_ordering(by_bytes()),
{
    let r = by_bytes();
    assert forall|x: Seq<u8>| #[trigger] r(x, x) by {
        lemma_lex_reflexive(x);
    }
    assert forall|x: Seq<u8>, y: Seq<u8>| #[trigger] r(x, y) && #[trigger] r(y, x) implies x
        == y by {
        lemma_lex_antisymmetric(x, y);
    }
    assert forall|x: Seq<u8>, y: Seq<u8>, z: Seq<u8>| #[trigger]
        r(x, y) && #[trigger] r(y, z) implies r(x, z) by {
        lemma_lex_transitive(x, y, z);
    }
    assert forall|x: Seq<u8>, y: Seq<u8>| #[trigger] r(x, y) || #[trigger] r(y, x) by {
        lemma_lex_total(x, y);
    }
}

/// Whether one byte string comes no later than another.
pub fn bytes_le(a: &[u8], b: &[u8]) -> (r: bool)
    ensures
        r == lex_le(a@, b@),
{
    let mut i: usize = 0;
    proof {
        assert(a@.skip(0) =~= a@);
        assert(b@.skip(0) =~= b@);
    }
    while i < a.len() && i < b.len() && a[i] == b[i]
        invariant
            i <= a@.len(),
            i <= b@.len(),
            lex_le(a@, b@) == lex_le(a@.skip(i as int), b@.skip(i as int)),
        decreases a@.len() - i,
    {
        assert(a@.skip(i as int).skip(1) =~= a@.skip(i + 1));
        assert(b@.skip(i as int).skip(1) =~= b@.skip(i + 1));
        i = i + 1;
    }
    if i == a.len() {
        true
    } else if i == b.len() {
        false
    } else {
        a[i] < b[i]
    }
}

/// Merges two sorted lists of identifiers.
fn merge_ids(left: &Vec<[u8; 32]>, right: &Vec<[u8; 32]>) -> (out: Vec<[u8; 32]>)
    requires
        sorted_by(id_views(left@), by_bytes()),
        sorted_by(id_views(right@), by_bytes()),
    ensures
        sorted_by(id_views(out@), by_bytes()),
        id_views(out@).to_multiset() == id_views(left@).to_multiset().add(
            id_views(right@).to_multiset(),
        ),
{
    let ghost l = id_views(left@);
    let ghost r = id_views(right@);
    let mut out: Vec<[u8; 32]> = Vec::new();
    let mut i: usize = 0;
    let mut j: usize = 0;
    proof {
        assert(id_views(out@) =~= Seq::<Seq<u8>>::empty());
        assert(l.take(0) =~= Seq::<Seq<u8>>::empty());
        assert(r.take(0) =~= Seq::<Seq<u8>>::empty());
        assert(id_views(out@).to_multiset() =~= l.take(0).to_multiset().add(
            r.take(0).to_multiset(),
        )) by {
            broadcast use {group_multiset_axioms, group_to_multiset_ensures};

        }
    }
    while i < left.len() || j < right.len()
        invariant
            i <= left@.len(),
            j <= right@.len(),
            l == id_views(left@),
            r == id_views(right@),
            sorted_by(l, by_bytes()),
            sorted_by(r, by_bytes()),
            sorted_by(id_views(out@), by_bytes()),
            id_views(out@).to_multiset() == l.take(i as int).to_multiset().add(
                r.take(j as int).to_multiset(),
            ),
            forall|k: int, p: int|
                0 <= k < out@.len() && i <= p < l.len() ==> lex_le(
                    #[trigger] id_views(out@)[k],
                    #[trigger] l[p],
                ),
            forall|k: int, p: int|
                0 <= k < out@.len() && j <= p < r.len() ==> lex_le(
                    #[trigger] id_views(out@)[k],
                    #[trigger] r[p],
                ),
        decreases left@.len() - i + right@.len() - j,
    {
        let take_left: bool = if i == left.len() {
            false
        } else if j == right.len() {
            true
        } else {
            bytes_le(left[i].as_slice(), right[j].as_slice())
        };
        let next: [u8; 32] = if take_left {
            left[i]
        } else {
            right[j]
        };
        let ghost before = id_views(out@);
        let ghost i0 = i as int;
        let ghost j0 = j as int;
        out.push(next);
        proof {
            let after = id_views(out@);
            assert(after =~= before.push(next@));
            lemma_lex_order();
            let leq = by_bytes();
            assert(after.to_multiset() =~= before.to_multiset().insert(next@)) by {
                broadcast use to_multiset_build;

            }
            if take_left {
                assert(l[i0] == next@);
                assert(l.take(i0 + 1) =~= l.take(i0).push(next@));
                assert(l.take(i0 + 1).to_multiset() =~= l.take(i0).to_multiset().insert(next@)) by {
                    broadcast use to_multiset_build;

                }
                assert forall|p: int| i0 + 1 <= p < l.len() implies lex_le(next@, #[trigger] l[p]) by {
                    assert(leq(l[i0], l[p]));
                }
                if j0 < r.len() {
                    assert(leq(next@, r[j0]) || leq(r[j0], next@));
                    assert forall|p: int| j0 <= p < r.len() implies lex_le(
                        next@,
                        #[trigger] r[p],
                    ) by {
                        if p > j0 {
                            assert(leq(r[j0], r[p]));
                            lemma_lex_transitive(next@, r[j0], r[p]);
                        }
                    }
                }
            } else {
                assert(r[j0] == next@);
                assert(r.take(j0 + 1) =~= r.take(j0).push(next@));
                assert(r.take(j0 + 1).to_multiset() =~= r.take(j0).to_multiset().insert(next@)) by {
                    broadcast use to_multiset_build;

                }
                assert forall|p: int| j0 + 1 <= p < r.len() implies lex_le(next@, #[trigger] r[p]) by {
                    assert(leq(r[j0], r[p]));
                }
                if i0 < l.len() {
                    assert(leq(next@, l[i0]) || leq(l[i0], next@));
                    assert forall|p: int| i0 <= p < l.len() implies lex_le(
                        next@,
                        #[trigger] l[p],
                    ) by {
                        if p > i0 {
                            assert(leq(l[i0], l[p]));
                            lemma_lex_transitive(next@, l[i0], l[p]);
                        }
                    }
                }
            }
            assert(sorted_by(after, leq)) by {
                assert forall|a: int, b: int| 0 <= a < b < after.len() implies #[trigger] leq(
                    after[a],
                    after[b],
                ) by {
                    if b < before.len() {
                        assert(leq(before[a], before[b]));
                    } else if take_left {
                        assert(lex_le(before[a], l[i0]));
                    } else {
                        assert(lex_le(before[a], r[j0]));
                    }
                }
            }
        }
        if take_left {
            i = i + 1;
        } else {
            j = j + 1;
        }
        proof {
            broadcast use group_multiset_axioms;

            assert(id_views(out@).to_multiset() =~= l.take(i as int).to_multiset().add(
                r.take(j as int).to_multiset(),
            ));
        }
    }
    proof {
        assert(l.take(l.len() as int) =~= l);
        assert(r.take(r.len() as int) =~= r);
    }
    out
}

/// Sorts the identifiers from `from` to `to`.
fn sort_id_range(ids: &[[u8; 32]], from: usize, to: usize) -> (out: Vec<[u8; 32]>)
    requires
        from <= to <= ids@.len(),
    ensures
        sorted_by(id_views(out@), by_bytes()),
        id_views(out@).to_multiset() == id_views(
            ids@.subrange(from as int, to as int),
        ).to_multiset(),
    decreases to - from,
{
    let mut out: Vec<[u8; 32]> = Vec::new();
    if to - from == 0 {
        assert(id_views(out@) =~= id_views(ids@.subrange(from as int, to as int)));
        return out;
    }
    if to - from == 1 {
        out.push(ids[from]);
        assert(id_views(out@) =~= id_views(ids@.subrange(from as int, to as int)));
        return out;
    }
    let mid: usize = from + (to - from) / 2;
    let left: Vec<[u8; 32]> = sort_id_range(ids, from, mid);
    let right: Vec<[u8; 32]> = sort_id_range(ids, mid, to);
    proof {
        let a = id_views(ids@.subrange(from as int, mid as int));
        let b = id_views(ids@.subrange(mid as int, to as int));
        assert(id_views(ids@.subrange(from as int, to as int)) =~= a + b);
        lemma_multiset_commutative(a, b);
    }
    merge_ids(&left, &right)
}

/// `ids` in lexicographic order.
pub open spec fn sorted_ids(ids: Seq<Seq<u8>>) -> Seq<Seq<u8>> {
    ids.sort_by(by_bytes())
}

/// What sorting keeps and establishes.
pub proof fn lemma_sorted_ids(ids: Seq<Seq<u8>>)
    ensures
        sorted_by(sorted_ids(ids), by_bytes()),
        sorted_ids(ids).to_multiset() == ids.to_multiset(),
{
    lemma_lex_order();
    ids.lemma_sort_by_ensures(by_bytes());
}

/// Lists of the same identifiers sort to the same list, whatever their order.
pub proof fn lemma_sort_order_independent(a: Seq<Seq<u8>>, b: Seq<Seq<u8>>)
    requires
        a.to_multiset() == b.to_multiset(),
    ensures
        sorted_ids(a) == sorted_ids(b),
{
    lemma_sorted_ids(a);
    lemma_sorted_ids(b);
    lemma_lex_order();
    lemma_sorted_unique(sorted_ids(a), sorted_ids(b), by_bytes());
}

/// Sorts identifiers lexicographically.
pub fn sort_ids(ids: &[[u8; 32]]) -> (out: Vec<[u8; 32]>)
    ensures
        id_views(out@) == sorted_ids(id_views(ids@)),
{
    let out: Vec<[u8; 32]> = sort_id_range(ids, 0, ids.len());
    proof {
        assert(ids@.subrange(0, ids@.len() as int) =~= ids@);
        lemma_sorted_ids(id_views(ids@));
        lemma_lex_order();
        lemma_sorted_unique(id_views(out@), sorted_ids(id_views(ids@)), by_bytes());
    }
    out
}

/// A sorted list repeats nothing exactly when no two neighbours are equal.
proof fn lemma_neighbours(s: Seq<Seq<u8>>)
    requires
        sorted_by(s, by_bytes()),
        forall|i: int| 0 <= i < s.len() - 1 ==> #[trigger] s[i] != s[i + 1],
    ensures
        s.no_duplicates(),
{
    let leq = by_bytes();
    assert forall|a: int, b: int| 0 <= a < b < s.len() implies s[a] != s[b] by {
        assert(leq(s[a], s[a + 1]));
        assert(s[a] != s[a + 1]);
        if a + 1 < b {
            assert(leq(s[a + 1], s[b]));
            if s[a] == s[b] {
                lemma_lex_antisymmetric(s[a], s[a + 1]);
            }
        }
    }
}

/// Whether no identifier occurs twice.
pub fn ids_distinct(ids: &[[u8; 32]]) -> (r: bool)
    ensures
        r == id_views(ids@).no_duplicates(),
{
    let sorted: Vec<[u8; 32]> = sort_ids(ids);
    let ghost s = id_views(sorted@);
    let ghost o = id_views(ids@);
    proof {
        lemma_sorted_ids(o);
    }
    let mut i: usize = 1;
    while i < sorted.len()
        invariant
            1 <= i,
            s == id_views(sorted@),
            o == id_views(ids@),
            s.to_multiset() == o.to_multiset(),
            sorted_by(s, by_bytes()),
            forall|k: int| 0 <= k < i - 1 && k < s.len() - 1 ==> #[trigger] s[k] != s[k + 1],
        decreases sorted@.len() - i,
    {
        if crate::crypto::ct_eq(sorted[i - 1].as_slice(), sorted[i].as_slice()) {
            proof {
                assert(s[i - 1] == s[i as int]);
                if o.no_duplicates() {
                    o.lemma_multiset_has_no_duplicates();
                    s.lemma_multiset_has_no_duplicates_conv();
                }
            }
            return false;
        }
        assert(s[i - 1] != s[i as int]);
        i = i + 1;
    }
    proof {
        lemma_neighbours(s);
        s.lemma_multiset_has_no_duplicates();
        o.lemma_multiset_has_no_duplicates_conv();
    }
    true
}

} // verus!
