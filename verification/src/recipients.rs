//! The recipient list of a message: per-recipient entries, their identifiers and
//! index hints, the recipients commitment, and the binary recipients blob.

use pqcrypto_mlkem::mlkem768;
use vstd::prelude::*;
use vstd::slice::*;
use vstd::string::*;

use crate::constants::{RECIPIENTS_COMMIT_LABEL, TAG_LEN};
use crate::crypto;
use crate::crypto::{ct_eq, hasher_finalize, hasher_new, hasher_update, Hasher, KEM_CT_LEN};
use crate::order;
use crate::order::sort_ids;
use crate::util;
use crate::util::{array_32, be_bytes_64, be_value_64};

verus! {

/// One entry of the recipient list: the content key, wrapped for one recipient.
#[derive(Clone)]
pub struct RecipientEntry {
    /// ML-KEM-768 ciphertext, the capsule of the post-quantum half of the KEM.
    pub enc_pq: Vec<u8>,
    /// The wrapped content key: ciphertext and tag.
    pub wrap: Vec<u8>,
    /// SHA-256 of the capsule.
    pub entry_id: [u8; 32],
    /// Hint by which a recipient finds the entry without trial decryption.
    pub index_hint: u64,
}

/// What an entry holds.
#[verifier::ext_equal]
pub struct EntryView {
    pub enc_pq: Seq<u8>,
    pub wrap: Seq<u8>,
    pub entry_id: Seq<u8>,
    pub index_hint: u64,
}

impl View for RecipientEntry {
    type V = EntryView;

    open spec fn view(&self) -> EntryView {
        EntryView {
            enc_pq: self.enc_pq@,
            wrap: self.wrap@,
            entry_id: self.entry_id@,
            index_hint: self.index_hint,
        }
    }
}

/// What the entries hold.
pub open spec fn entry_views(entries: Seq<RecipientEntry>) -> Seq<EntryView> {
    entries.map_values(|e: RecipientEntry| e@)
}

/// Length of a valid entry in the recipients blob.
pub const ENTRY_LEN: usize = 1184;

/// An entry in the recipients blob: four fields, each behind its length.
pub open spec fn entry_bytes(e: EntryView) -> Seq<u8> {
    util::be16(e.enc_pq.len() as int) + e.enc_pq + util::be16(e.wrap.len() as int) + e.wrap
        + util::be16(32) + e.entry_id + util::be16(8) + util::be64(e.index_hint as int)
}

/// The recipients blob of a list of entries.
pub open spec fn entries_bytes(es: Seq<EntryView>) -> Seq<u8>
    decreases es.len(),
{
    if es.len() == 0 {
        seq![]
    } else {
        entries_bytes(es.drop_last()) + entry_bytes(es.last())
    }
}

/// Whether an entry has the right sizes and carries the identifier of its
/// capsule.
pub open spec fn valid_entry(e: EntryView) -> bool {
    &&& e.enc_pq.len() == KEM_CT_LEN
    &&& e.wrap.len() == 32 + TAG_LEN
    &&& e.entry_id.len() == 32
    &&& e.entry_id == crypto::sha256(e.enc_pq)
}

/// Whether `blob` is the encoding of the valid entries `es`, at least one.
pub open spec fn encodes(blob: Seq<u8>, es: Seq<EntryView>) -> bool {
    &&& es.len() > 0
    &&& forall|i: int| 0 <= i < es.len() ==> valid_entry(#[trigger] es[i])
    &&& blob == entries_bytes(es)
}

/// The entries that a recipients blob holds, if it holds any.
pub open spec fn decoded(blob: Seq<u8>) -> Option<Seq<EntryView>> {
    if exists|es: Seq<EntryView>| encodes(blob, es) {
        Some(choose|es: Seq<EntryView>| encodes(blob, es))
    } else {
        None
    }
}

/// The identifiers of entries, in their order.
pub open spec fn ids_of(es: Seq<EntryView>) -> Seq<Seq<u8>> {
    es.map_values(|e: EntryView| crypto::sha256(e.enc_pq))
}

/// Byte strings, one after the other.
pub open spec fn concat(parts: Seq<Seq<u8>>) -> Seq<u8>
    decreases parts.len(),
{
    if parts.len() == 0 {
        seq![]
    } else {
        concat(parts.drop_last()) + parts.last()
    }
}

/// The commitment to a set of recipients: a digest of the sorted identifiers.
pub open spec fn commitment(ids: Seq<Seq<u8>>) -> Seq<u8> {
    crypto::sha256(RECIPIENTS_COMMIT_LABEL.spec_bytes() + concat(order::sorted_ids(ids)))
}

/// The index hint: the first eight bytes of a digest that only the recipient and
/// the sender can compute.
pub open spec fn index_hint(
    entry_id: Seq<u8>,
    enc_ecdh: Seq<u8>,
    rc: Seq<u8>,
    ss_ecdh: Seq<u8>,
) -> int {
    util::be64_value(crypto::sha256(entry_id + enc_ecdh + rc + ss_ecdh).take(8))
}

// ----------------------------------------------------------------------
// Laws
// ----------------------------------------------------------------------

/// Where the parts of a valid entry stand in its bytes.
proof fn lemma_entry_layout(e: EntryView)
    requires
        valid_entry(e),
    ensures
        entry_bytes(e).len() == ENTRY_LEN,
        entry_bytes(e).subrange(0, 2) == util::be16(KEM_CT_LEN as int),
        entry_bytes(e).subrange(2, 1090) == e.enc_pq,
        entry_bytes(e).subrange(1090, 1092) == util::be16(48),
        entry_bytes(e).subrange(1092, 1140) == e.wrap,
        entry_bytes(e).subrange(1140, 1142) == util::be16(32),
        entry_bytes(e).subrange(1142, 1174) == e.entry_id,
        entry_bytes(e).subrange(1174, 1176) == util::be16(8),
        entry_bytes(e).subrange(1176, 1184) == util::be64(e.index_hint as int),
{
    let b = entry_bytes(e);
    assert(b.subrange(0, 2) =~= util::be16(KEM_CT_LEN as int));
    assert(b.subrange(2, 1090) =~= e.enc_pq);
    assert(b.subrange(1090, 1092) =~= util::be16(48));
    assert(b.subrange(1092, 1140) =~= e.wrap);
    assert(b.subrange(1140, 1142) =~= util::be16(32));
    assert(b.subrange(1142, 1174) =~= e.entry_id);
    assert(b.subrange(1174, 1176) =~= util::be16(8));
    assert(b.subrange(1176, 1184) =~= util::be64(e.index_hint as int));
}

/// A valid entry is determined by its bytes.
proof fn lemma_entry_injective(a: EntryView, b: EntryView)
    requires
        valid_entry(a),
        valid_entry(b),
        entry_bytes(a) == entry_bytes(b),
    ensures
        a == b,
{
    lemma_entry_layout(a);
    lemma_entry_layout(b);
    util::lemma_be64(a.index_hint as int, seq![]);
    util::lemma_be64(b.index_hint as int, seq![]);
    assert(a =~= b);
}

/// Where the entries stand in a recipients blob.
proof fn lemma_entry_at(es: Seq<EntryView>, k: int)
    requires
        forall|i: int| 0 <= i < es.len() ==> valid_entry(#[trigger] es[i]),
        0 <= k <= es.len(),
    ensures
        entries_bytes(es).len() == ENTRY_LEN * es.len(),
        entries_bytes(es).take(ENTRY_LEN * k) == entries_bytes(es.take(k)),
        k < es.len() ==> entries_bytes(es).subrange(ENTRY_LEN * k, ENTRY_LEN * (k + 1))
            == entry_bytes(es[k]),
    decreases es.len(),
{
    if es.len() > 0 {
        let init = es.drop_last();
        let head = entries_bytes(init);
        lemma_entry_layout(es.last());
        assert forall|i: int| 0 <= i < init.len() implies valid_entry(#[trigger] init[i]) by {
            assert(init[i] == es[i]);
        }
        if k < es.len() {
            lemma_entry_at(init, k);
            assert(es.take(k) =~= init.take(k));
            assert(entries_bytes(es).take(ENTRY_LEN * k) =~= head.take(ENTRY_LEN * k));
            if k < es.len() - 1 {
                assert(entries_bytes(es).subrange(ENTRY_LEN * k, ENTRY_LEN * (k + 1))
                    =~= head.subrange(ENTRY_LEN * k, ENTRY_LEN * (k + 1)));
            } else {
                assert(entries_bytes(es).subrange(ENTRY_LEN * k, ENTRY_LEN * (k + 1))
                    =~= entry_bytes(es[k]));
            }
        } else {
            lemma_entry_at(init, init.len() as int);
            assert(es.take(k) =~= es);
            assert(entries_bytes(es).take(ENTRY_LEN * k) =~= entries_bytes(es));
        }
    } else {
        assert(es.take(k) =~= es);
        assert(entries_bytes(es).take(ENTRY_LEN * k) =~= entries_bytes(es));
    }
}

/// The length of a recipients blob.
pub proof fn lemma_blob_len(es: Seq<EntryView>)
    requires
        forall|i: int| 0 <= i < es.len() ==> valid_entry(#[trigger] es[i]),
    ensures
        entries_bytes(es).len() == ENTRY_LEN * es.len(),
{
    lemma_entry_at(es, 0);
}

/// A recipients blob encodes at most one list of valid entries.
pub proof fn lemma_entries_injective(a: Seq<EntryView>, b: Seq<EntryView>)
    requires
        forall|i: int| 0 <= i < a.len() ==> valid_entry(#[trigger] a[i]),
        forall|i: int| 0 <= i < b.len() ==> valid_entry(#[trigger] b[i]),
        entries_bytes(a) == entries_bytes(b),
    ensures
        a == b,
{
    lemma_entry_at(a, 0);
    lemma_entry_at(b, 0);
    assert forall|i: int| 0 <= i < a.len() implies a[i] == b[i] by {
        lemma_entry_at(a, i);
        lemma_entry_at(b, i);
        lemma_entry_injective(a[i], b[i]);
    }
    assert(a =~= b);
}

/// A list of valid entries is read back from its blob.
pub proof fn lemma_recipients_roundtrip(es: Seq<EntryView>)
    requires
        es.len() > 0,
        forall|i: int| 0 <= i < es.len() ==> valid_entry(#[trigger] es[i]),
    ensures
        decoded(entries_bytes(es)) == Some(es),
{
    let blob = entries_bytes(es);
    assert(encodes(blob, es));
    let found = choose|f: Seq<EntryView>| encodes(blob, f);
    lemma_entries_injective(es, found);
}

/// The commitment depends on which identifiers there are, not on their order.
pub proof fn lemma_commitment_order_independent(a: Seq<Seq<u8>>, b: Seq<Seq<u8>>)
    requires
        a.to_multiset() == b.to_multiset(),
    ensures
        commitment(a) == commitment(b),
{
    order::lemma_sort_order_independent(a, b);
}

// ----------------------------------------------------------------------
// Identifiers, hints and the commitment
// ----------------------------------------------------------------------

/// The identifier of an entry: SHA-256 of its capsule.
pub fn compute_entry_id(enc_pq: &[u8]) -> (id: [u8; 32])
    ensures
        id@ == crypto::sha256(enc_pq@),
{
    let mut h: Hasher = hasher_new();
    hasher_update(&mut h, enc_pq);
    assert(Seq::<u8>::empty() + enc_pq@ =~= enc_pq@);
    hasher_finalize(h)
}

/// The index hint of an entry. `ss_ecdh` is the only secret input.
pub fn compute_index_hint(
    entry_id: &[u8; 32],
    enc_ecdh: &[u8; 32],
    rc: &[u8; 32],
    ss_ecdh: &[u8; 32],
) -> (hint: u64)
    ensures
        hint == index_hint(entry_id@, enc_ecdh@, rc@, ss_ecdh@),
{
    let mut h: Hasher = hasher_new();
    hasher_update(&mut h, entry_id.as_slice());
    hasher_update(&mut h, enc_ecdh.as_slice());
    hasher_update(&mut h, rc.as_slice());
    hasher_update(&mut h, ss_ecdh.as_slice());
    assert(crypto::hashed(h) =~= entry_id@ + enc_ecdh@ + rc@ + ss_ecdh@);
    let out: [u8; 32] = hasher_finalize(h);
    be_value_64(out.as_slice())
}

/// The recipients commitment: SHA-256 of a label and the sorted identifiers.
pub fn recipients_commitment(entry_ids: &[[u8; 32]]) -> (rc: [u8; 32])
    ensures
        rc@ == commitment(order::id_views(entry_ids@)),
{
    let sorted: Vec<[u8; 32]> = sort_ids(entry_ids);
    let ghost s = order::id_views(sorted@);
    let ghost label = RECIPIENTS_COMMIT_LABEL.spec_bytes();
    let mut h: Hasher = hasher_new();
    hasher_update(&mut h, RECIPIENTS_COMMIT_LABEL.as_bytes());
    let mut i: usize = 0;
    proof {
        assert(s.take(0) =~= Seq::<Seq<u8>>::empty());
        assert(crypto::hashed(h) =~= label + concat(s.take(0)));
    }
    while i < sorted.len()
        invariant
            i <= sorted@.len(),
            s == order::id_views(sorted@),
            label == RECIPIENTS_COMMIT_LABEL.spec_bytes(),
            crypto::hashed(h) == label + concat(s.take(i as int)),
        decreases sorted@.len() - i,
    {
        hasher_update(&mut h, sorted[i].as_slice());
        proof {
            let next = s.take(i + 1);
            assert(next.drop_last() =~= s.take(i as int));
            assert(next.last() == sorted@[i as int]@);
            assert(crypto::hashed(h) =~= label + concat(next));
        }
        i = i + 1;
    }
    assert(s.take(s.len() as int) =~= s);
    hasher_finalize(h)
}

// ----------------------------------------------------------------------
// The recipients blob
// ----------------------------------------------------------------------

/// Appends a length as two big-endian bytes.
fn push_be16(out: &mut Vec<u8>, n: usize)
    requires
        n <= 0xFFFF,
    ensures
        final(out)@ == old(out)@ + util::be16(n as int),
{
    let ghost before = out@;
    out.push((n / 0x100) as u8);
    out.push((n % 0x100) as u8);
    assert(out@ =~= before + util::be16(n as int));
}

/// Serializes a list of entries. Fails exactly when the list is empty or a field
/// is longer than its 16-bit length can say.
pub fn encode_recipients(entries: &[RecipientEntry]) -> (blob: Result<Vec<u8>, ()>)
    ensures
        blob is Ok <==> entries@.len() > 0 && forall|i: int|
            0 <= i < entries@.len() ==> (#[trigger] entries@[i]).enc_pq@.len() <= 0xFFFF
                && entries@[i].wrap@.len() <= 0xFFFF,
        blob matches Ok(b) ==> b@ == entries_bytes(entry_views(entries@)),
{
    if entries.len() == 0 {
        return Err(());
    }
    let ghost views = entry_views(entries@);
    let mut out: Vec<u8> = Vec::new();
    let mut i: usize = 0;
    assert(views.take(0) =~= Seq::<EntryView>::empty());
    while i < entries.len()
        invariant
            i <= entries@.len(),
            views == entry_views(entries@),
            out@ == entries_bytes(views.take(i as int)),
            forall|k: int|
                0 <= k < i ==> (#[trigger] entries@[k]).enc_pq@.len() <= 0xFFFF
                    && entries@[k].wrap@.len() <= 0xFFFF,
        decreases entries@.len() - i,
    {
        let e: &RecipientEntry = &entries[i];
        let ghost before = out@;
        if e.enc_pq.len() > 0xFFFF {
            assert(entries@[i as int].enc_pq@.len() > 0xFFFF);
            return Err(());
        }
        push_be16(&mut out, e.enc_pq.len());
        out.extend_from_slice(e.enc_pq.as_slice());
        if e.wrap.len() > 0xFFFF {
            assert(entries@[i as int].wrap@.len() > 0xFFFF);
            return Err(());
        }
        push_be16(&mut out, e.wrap.len());
        out.extend_from_slice(e.wrap.as_slice());
        push_be16(&mut out, 32);
        out.extend_from_slice(e.entry_id.as_slice());
        push_be16(&mut out, 8);
        let hint: [u8; 8] = be_bytes_64(e.index_hint);
        out.extend_from_slice(hint.as_slice());
        proof {
            let next = views.take(i + 1);
            assert(next.drop_last() =~= views.take(i as int));
            assert(next.last() == e@);
            assert(out@ =~= before + entry_bytes(e@));
        }
        i = i + 1;
    }
    assert(views.take(views.len() as int) =~= views);
    Ok(out)
}

/// Whether the two bytes at `at` are the length `n`.
fn is_be16(buf: &[u8], at: usize, n: usize) -> (r: bool)
    requires
        at + 2 <= buf@.len(),
        n <= 0xFFFF,
    ensures
        r == (buf@.subrange(at as int, at + 2) == util::be16(n as int)),
{
    let r: bool = buf[at] == (n / 0x100) as u8 && buf[at + 1] == (n % 0x100) as u8;
    proof {
        let s = buf@.subrange(at as int, at + 2);
        assert(s[0] == buf@[at as int] && s[1] == buf@[at + 1]);
        if r {
            assert(s =~= util::be16(n as int));
        }
    }
    r
}

/// Reads one entry.
fn decode_entry(buf: &[u8]) -> (entry: Result<RecipientEntry, ()>)
    requires
        buf@.len() == ENTRY_LEN,
    ensures
        entry matches Ok(e) ==> valid_entry(e@) && entry_bytes(e@) == buf@,
        entry is Err ==> forall|v: EntryView| valid_entry(v) ==> #[trigger] entry_bytes(v) != buf@,
{
    let ghost s = buf@;
    let lpq: usize = mlkem768::ciphertext_bytes();
    if !is_be16(buf, 0, lpq) || !is_be16(buf, 1090, 32 + TAG_LEN) || !is_be16(buf, 1140, 32)
        || !is_be16(buf, 1174, 8) {
        proof {
            assert forall|v: EntryView| valid_entry(v) implies #[trigger] entry_bytes(v) != s by {
                lemma_entry_layout(v);
            }
        }
        return Err(());
    }
    let enc_pq: Vec<u8> = slice_to_vec(slice_subrange(buf, 2, 1090));
    let wrap: Vec<u8> = slice_to_vec(slice_subrange(buf, 1092, 1140));
    let entry_id: [u8; 32] = array_32(slice_subrange(buf, 1142, 1174));
    let index_hint: u64 = be_value_64(slice_subrange(buf, 1176, 1184));
    proof {
        assert(s.subrange(1176, 1184).take(8) =~= s.subrange(1176, 1184));
        util::lemma_be64(index_hint as int, s.subrange(1176, 1184));
    }
    let expected: [u8; 32] = compute_entry_id(enc_pq.as_slice());
    if !ct_eq(expected.as_slice(), entry_id.as_slice()) {
        proof {
            assert forall|v: EntryView| valid_entry(v) implies #[trigger] entry_bytes(v) != s by {
                lemma_entry_layout(v);
            }
        }
        return Err(());
    }
    let e: RecipientEntry = RecipientEntry { enc_pq, wrap, entry_id, index_hint };
    assert(entry_bytes(e@) =~= s);
    Ok(e)
}

/// Reads a recipients blob. Fails exactly when the blob is not the encoding of
/// at least one valid entry.
pub fn decode_recipients(blob: &[u8]) -> (entries: Result<Vec<RecipientEntry>, ()>)
    ensures
        entries is Ok <==> decoded(blob@) is Some,
        entries matches Ok(es) ==> decoded(blob@) == Some(entry_views(es@)) && encodes(
            blob@,
            entry_views(es@),
        ),
{
    let mut out: Vec<RecipientEntry> = Vec::new();
    let mut i: usize = 0;
    assert(entry_views(out@) =~= Seq::<EntryView>::empty());
    assert(blob@.take(0) =~= entries_bytes(entry_views(out@)));
    while i < blob.len()
        invariant
            i <= blob@.len(),
            i == ENTRY_LEN * out@.len(),
            blob@.take(i as int) == entries_bytes(entry_views(out@)),
            forall|k: int| 0 <= k < out@.len() ==> valid_entry(#[trigger] entry_views(out@)[k]),
        decreases blob@.len() - i,
    {
        let ghost k = out@.len() as int;
        if blob.len() - i < ENTRY_LEN {
            proof {
                lemma_no_decoding(blob@, k);
            }
            return Err(());
        }
        let part: &[u8] = slice_subrange(blob, i, i + ENTRY_LEN);
        match decode_entry(part) {
            Ok(e) => {
                let ghost before = entry_views(out@);
                out.push(e);
                proof {
                    let after = entry_views(out@);
                    assert(after =~= before.push(e@));
                    assert(after.drop_last() =~= before);
                    assert(blob@.take(i + ENTRY_LEN) =~= blob@.take(i as int) + part@);
                }
            },
            Err(_) => {
                proof {
                    lemma_no_decoding(blob@, k);
                }
                return Err(());
            },
        }
        i = i + ENTRY_LEN;
    }
    let ghost views = entry_views(out@);
    proof {
        assert(blob@.take(blob@.len() as int) =~= blob@);
    }
    if out.len() == 0 {
        proof {
            if exists|es: Seq<EntryView>| encodes(blob@, es) {
                let es = choose|es: Seq<EntryView>| encodes(blob@, es);
                lemma_entry_at(es, 0);
            }
        }
        return Err(());
    }
    proof {
        lemma_recipients_roundtrip(views);
    }
    Ok(out)
}

/// A blob whose bytes from entry `k` on begin with no valid entry has no
/// decoding.
proof fn lemma_no_decoding(blob: Seq<u8>, k: int)
    requires
        0 <= k,
        ENTRY_LEN * k < blob.len(),
        ENTRY_LEN * (k + 1) <= blob.len() ==> forall|v: EntryView|
            valid_entry(v) ==> #[trigger] entry_bytes(v) != blob.subrange(
                ENTRY_LEN * k,
                ENTRY_LEN * (k + 1),
            ),
    ensures
        decoded(blob) is None,
{
    if exists|es: Seq<EntryView>| encodes(blob, es) {
        let es = choose|es: Seq<EntryView>| encodes(blob, es);
        lemma_entry_at(es, 0);
        lemma_entry_at(es, k);
        assert(entry_bytes(es[k]) == blob.subrange(ENTRY_LEN * k, ENTRY_LEN * (k + 1)));
    }
}

} // verus!
