//! The binary formats: recipients blobs, envelopes, frames and trailers, byte by byte.

use vstd::prelude::*;
use vstd::relations::*;
use vstd::slice::*;
use vstd::string::*;

use crate::crypto;
use crate::envelope;
use crate::envelope::{
    encode_envelope_binary, parse_envelope_binary, parse_preamble, EnvelopeView, ParsedBinary,
    Preamble,
};
use crate::laws::{lemma_numbers, number};
use crate::order;
use crate::order::{bytes_le, ids_distinct, sort_ids};
use crate::recipients;
use crate::recipients::{
    compute_entry_id, compute_index_hint, decode_recipients, encode_recipients,
    recipients_commitment, EntryView, RecipientEntry,
};
use crate::util;
use crate::util::{be_bytes, be_bytes_64, be_u32, be_value, be_value_64};

verus! {

// ----------------------------------------------------------------------
// Recipients
// ----------------------------------------------------------------------

/// An entry: capsule, wrapped key, identifier and hint, each behind its length in two
/// bytes.
pub open spec fn entry(enc_pq: Seq<u8>, wrap: Seq<u8>, id: Seq<u8>, hint: int) -> Seq<u8> {
    number(enc_pq.len() as int, 2) + enc_pq + number(wrap.len() as int, 2) + wrap + number(32, 2)
        + id + number(8, 2) + number(hint, 8)
}

/// Entries, one after the other.
pub open spec fn entries(es: Seq<EntryView>) -> Seq<u8>
    decreases es.len(),
{
    if es.len() == 0 {
        seq![]
    } else {
        entries(es.drop_last()) + entry(
            es.last().enc_pq,
            es.last().wrap,
            es.last().entry_id,
            es.last().index_hint as int,
        )
    }
}

/// Whether a blob holds entries: there is at least one, each has an ML-KEM-768
/// ciphertext, a key of 32 bytes with its tag, and the digest of the ciphertext.
pub open spec fn holds_entries(blob: Seq<u8>, es: Seq<EntryView>) -> bool {
    &&& es.len() > 0
    &&& blob == entries(es)
    &&& forall|i: int|
        0 <= i < es.len() ==> {
            &&& (#[trigger] es[i]).enc_pq.len() == 1088
            &&& es[i].wrap.len() == 32 + 16
            &&& es[i].entry_id == crypto::sha256(es[i].enc_pq)
            &&& es[i].entry_id.len() == 32
        }
}

/// The entries are laid out as written.
pub proof fn lemma_entries(es: Seq<EntryView>)
    ensures
        recipients::entries_bytes(es) == entries(es),
    decreases es.len(),
{
    if es.len() > 0 {
        let e = es.last();
        lemma_entries(es.drop_last());
        lemma_numbers(e.enc_pq.len() as int);
        lemma_numbers(e.wrap.len() as int);
        lemma_numbers(32);
        lemma_numbers(8);
        lemma_numbers(e.index_hint as int);
        assert(recipients::entry_bytes(e) == entry(
            e.enc_pq,
            e.wrap,
            e.entry_id,
            e.index_hint as int,
        ));
    }
}

/// A blob holds entries exactly when it is their encoding.
pub proof fn lemma_holds_entries(blob: Seq<u8>, es: Seq<EntryView>)
    ensures
        recipients::encodes(blob, es) <==> holds_entries(blob, es),
{
    lemma_entries(es);
    if holds_entries(blob, es) {
        assert forall|i: int| 0 <= i < es.len() implies recipients::valid_entry(
            #[trigger] es[i],
        ) by {}
    }
    if recipients::encodes(blob, es) {
        assert forall|i: int| 0 <= i < es.len() implies {
            &&& (#[trigger] es[i]).enc_pq.len() == 1088
            &&& es[i].wrap.len() == 32 + 16
            &&& es[i].entry_id == crypto::sha256(es[i].enc_pq)
            &&& es[i].entry_id.len() == 32
        } by {
            assert(recipients::valid_entry(es[i]));
        }
    }
}

/// A blob decodes exactly when it holds entries, and to the entries that it holds.
pub proof fn lemma_decoded(blob: Seq<u8>)
    ensures
        recipients::decoded(blob) is Some <==> exists|es: Seq<EntryView>| holds_entries(blob, es),
        recipients::decoded(blob) matches Some(es) ==> holds_entries(blob, es),
{
    if recipients::decoded(blob) is Some {
        let es = choose|es: Seq<EntryView>| recipients::encodes(blob, es);
        lemma_holds_entries(blob, es);
    }
    if exists|es: Seq<EntryView>| holds_entries(blob, es) {
        let es = choose|es: Seq<EntryView>| holds_entries(blob, es);
        lemma_holds_entries(blob, es);
    }
}

/// Entries are written one after the other, wherever their fields are not too long for
/// their lengths, and there is at least one.
pub proof fn law_encode_recipients(list: &[RecipientEntry], r: Result<Vec<u8>, ()>)
    requires
        call_ensures(encode_recipients, (list,), r),
    ensures
        r is Ok <==> list@.len() > 0 && forall|i: int|
            0 <= i < list@.len() ==> (#[trigger] list@[i]).enc_pq@.len() <= 0xFFFF
                && list@[i].wrap@.len() <= 0xFFFF,
        r matches Ok(b) ==> b@ == entries(list@.map_values(|e: RecipientEntry| e@)),
{
    lemma_entries(recipients::entry_views(list@));
}

/// A blob is read exactly when it holds entries, and gives them.
pub proof fn law_decode_recipients(blob: &[u8], r: Result<Vec<RecipientEntry>, ()>)
    requires
        call_ensures(decode_recipients, (blob,), r),
    ensures
        r is Ok <==> exists|es: Seq<EntryView>| holds_entries(blob@, es),
        r matches Ok(v) ==> holds_entries(blob@, v@.map_values(|e: RecipientEntry| e@)),
{
    lemma_decoded(blob@);
    if r is Ok {
        lemma_holds_entries(blob@, recipients::entry_views(r->Ok_0@));
    }
}

/// Whether one byte string comes no later than another: they are the same up to some
/// place, where the first ends or has the smaller byte.
pub open spec fn no_later(a: Seq<u8>, b: Seq<u8>) -> bool {
    exists|k: int|
        0 <= k <= a.len() && k <= b.len() && #[trigger] a.take(k) == b.take(k) && (k == a.len() || (
        k < b.len() && a[k] < b[k]))
}

/// The order of byte strings.
pub proof fn lemma_no_later(a: Seq<u8>, b: Seq<u8>)
    ensures
        order::lex_le(a, b) == no_later(a, b),
    decreases a.len(),
{
    if a.len() == 0 {
        assert(a.take(0) =~= b.take(0));
    } else if b.len() == 0 {
    } else if a[0] == b[0] {
        let c = a.skip(1);
        let d = b.skip(1);
        lemma_no_later(c, d);
        if no_later(c, d) {
            let k = choose|k: int|
                0 <= k <= c.len() && k <= d.len() && #[trigger] c.take(k) == d.take(k) && (k
                    == c.len() || (k < d.len() && c[k] < d[k]));
            assert(a.take(k + 1) =~= seq![a[0]] + c.take(k));
            assert(b.take(k + 1) =~= seq![b[0]] + d.take(k));
        }
        if no_later(a, b) {
            let k = choose|k: int|
                0 <= k <= a.len() && k <= b.len() && #[trigger] a.take(k) == b.take(k) && (k
                    == a.len() || (k < b.len() && a[k] < b[k]));
            assert(c.take(k - 1) =~= a.take(k).skip(1));
            assert(d.take(k - 1) =~= b.take(k).skip(1));
        }
    } else {
        if a[0] < b[0] {
            assert(a.take(0) =~= b.take(0));
        }
        if no_later(a, b) {
            let k = choose|k: int|
                0 <= k <= a.len() && k <= b.len() && #[trigger] a.take(k) == b.take(k) && (k
                    == a.len() || (k < b.len() && a[k] < b[k]));
            if k > 0 {
                assert(a.take(k)[0] == a[0] && b.take(k)[0] == b[0]);
            }
        }
    }
}

/// Byte strings compare byte by byte.
pub proof fn law_bytes_le(a: &[u8], b: &[u8], r: bool)
    requires
        call_ensures(bytes_le, (a, b), r),
    ensures
        r == no_later(a@, b@),
{
    lemma_no_later(a@, b@);
}

/// Sorting keeps the identifiers and puts them into order.
pub proof fn law_sort(ids: &[[u8; 32]], out: Vec<[u8; 32]>)
    requires
        call_ensures(sort_ids, (ids,), out),
    ensures
        out@.map_values(|a: [u8; 32]| a@).to_multiset() == ids@.map_values(
            |a: [u8; 32]| a@,
        ).to_multiset(),
        forall|i: int, j: int|
            0 <= i < j < out@.len() ==> no_later(#[trigger] out@[i]@, #[trigger] out@[j]@),
{
    let v = order::id_views(ids@);
    order::lemma_sorted_ids(v);
    let o = order::id_views(out@);
    assert forall|i: int, j: int| 0 <= i < j < out@.len() implies no_later(
        #[trigger] out@[i]@,
        #[trigger] out@[j]@,
    ) by {
        lemma_no_later(out@[i]@, out@[j]@);
        let leq = order::by_bytes();
        assert(leq(o[i], o[j]));
    }
}

/// Identifiers are distinct exactly when no two are the same.
pub proof fn law_ids_distinct(ids: &[[u8; 32]], r: bool)
    requires
        call_ensures(ids_distinct, (ids,), r),
    ensures
        r == forall|i: int, j: int|
            0 <= i < j < ids@.len() ==> (#[trigger] ids@[i])@ != (#[trigger] ids@[j])@,
{
    let v = order::id_views(ids@);
    if r {
        assert forall|i: int, j: int| 0 <= i < j < ids@.len() implies (#[trigger] ids@[i])@ != (
        #[trigger] ids@[j])@ by {
            assert(v[i] != v[j]);
        }
    } else {
        if forall|i: int, j: int|
            0 <= i < j < ids@.len() ==> (#[trigger] ids@[i])@ != (#[trigger] ids@[j])@ {
            assert forall|i: int, j: int|
                0 <= i < v.len() && 0 <= j < v.len() && i != j implies v[i] != v[j] by {
                assert(v[i] == ids@[i]@ && v[j] == ids@[j]@);
            }
        }
    }
}

/// Byte strings, one after the other.
pub open spec fn flat(parts: Seq<Seq<u8>>) -> Seq<u8>
    decreases parts.len(),
{
    if parts.len() == 0 {
        seq![]
    } else {
        flat(parts.drop_last()) + parts.last()
    }
}

/// The two ways to put byte strings one after the other.
pub proof fn lemma_flat(parts: Seq<Seq<u8>>)
    ensures
        recipients::concat(parts) == flat(parts),
    decreases parts.len(),
{
    if parts.len() > 0 {
        lemma_flat(parts.drop_last());
    }
}

/// The commitment is the digest of a label and the sorted identifiers.
pub proof fn law_commitment(ids: &[[u8; 32]], sorted: Vec<[u8; 32]>, rc: [u8; 32])
    requires
        call_ensures(sort_ids, (ids,), sorted),
        call_ensures(recipients_commitment, (ids,), rc),
    ensures
        rc@ == crypto::sha256(
            "VELUM-v1 recipients".spec_bytes() + flat(sorted@.map_values(|a: [u8; 32]| a@)),
        ),
{
    lemma_flat(order::id_views(sorted@));
}

/// The commitment does not depend on the order of the recipients.
pub proof fn law_commitment_of_a_set(
    a: &[[u8; 32]],
    b: &[[u8; 32]],
    x: [u8; 32],
    y: [u8; 32],
)
    requires
        a@.map_values(|i: [u8; 32]| i@).to_multiset() == b@.map_values(
            |i: [u8; 32]| i@,
        ).to_multiset(),
        call_ensures(recipients_commitment, (a,), x),
        call_ensures(recipients_commitment, (b,), y),
    ensures
        x@ == y@,
{
    order::lemma_sort_order_independent(order::id_views(a@), order::id_views(b@));
}

/// The identifier of an entry is the digest of its capsule.
pub proof fn law_entry_id(enc_pq: &[u8], id: [u8; 32])
    requires
        call_ensures(compute_entry_id, (enc_pq,), id),
    ensures
        id@ == crypto::sha256(enc_pq@),
{
}

/// The hint is the first eight bytes of a digest of identifier, ephemeral key,
/// commitment and shared secret.
pub proof fn law_hint(
    id: &[u8; 32],
    enc_ecdh: &[u8; 32],
    rc: &[u8; 32],
    ss: &[u8; 32],
    hint: u64,
)
    requires
        call_ensures(compute_index_hint, (id, enc_ecdh, rc, ss), hint),
        crypto::sha256(id@ + enc_ecdh@ + rc@ + ss@).len() == 32,
    ensures
        number(hint as int, 8) == crypto::sha256(id@ + enc_ecdh@ + rc@ + ss@).take(8),
{
    let d = crypto::sha256(id@ + enc_ecdh@ + rc@ + ss@).take(8);
    util::lemma_be64(hint as int, d);
    lemma_numbers(hint as int);
}

// ----------------------------------------------------------------------
// Numbers
// ----------------------------------------------------------------------

/// Numbers are written with the most significant byte first.
pub proof fn law_numbers(a: u32, b: u64, c: usize, x: [u8; 4], y: [u8; 8], z: [u8; 4])
    requires
        call_ensures(be_bytes, (a,), x),
        call_ensures(be_bytes_64, (b,), y),
    ensures
        x@ == number(a as int, 4),
        y@ == number(b as int, 8),
        call_requires(be_u32, (c,)) && call_ensures(be_u32, (c,), z) ==> z@ == number(c as int, 4),
{
    lemma_numbers(a as int);
    lemma_numbers(b as int);
    lemma_numbers(c as int);
}

/// Numbers are read as they are written.
pub proof fn law_read_numbers(buf: &[u8], a: u32, b: u64)
    ensures
        buf@.len() == 4 && call_ensures(be_value, (buf,), a) ==> buf@ == number(a as int, 4),
        buf@.len() == 8 && call_ensures(be_value_64, (buf,), b) ==> buf@ == number(b as int, 8),
{
    if buf@.len() == 4 {
        util::lemma_be32(a as int, buf@);
        lemma_numbers(a as int);
        assert(buf@.take(4) =~= buf@);
    }
    if buf@.len() == 8 {
        util::lemma_be64(b as int, buf@);
        lemma_numbers(b as int);
        assert(buf@.take(8) =~= buf@);
    }
}

// ----------------------------------------------------------------------
// Envelopes
// ----------------------------------------------------------------------

/// The bytes of an envelope: `VLM1`, version 1, flags, two zeros, the length of the
/// header; then ephemeral key, nonce, commitment, recipients and signature, the last
/// two behind their lengths; then the payload.
pub open spec fn envelope_of(
    enc_ecdh: Seq<u8>,
    nonce: Seq<u8>,
    rc: Seq<u8>,
    blob: Seq<u8>,
    sig: Seq<u8>,
    flags: u8,
    payload: Seq<u8>,
) -> Seq<u8> {
    head_of(flags, 96 + blob.len() as int + sig.len()) + enc_ecdh + nonce + rc + number(
        blob.len() as int,
        4,
    ) + blob + number(sig.len() as int, 4) + sig + payload
}

/// The twelve bytes that an envelope begins with.
pub open spec fn head_of(flags: u8, header_len: int) -> Seq<u8> {
    seq![0x56u8, 0x4C, 0x4D, 0x31, 1, flags, 0, 0] + number(header_len, 4)
}

/// The flags: one for a chunked payload, two for a trailer.
pub open spec fn flag_byte(stream: bool, trailer: bool) -> u8 {
    if stream && trailer {
        3
    } else if trailer {
        2
    } else if stream {
        1
    } else {
        0
    }
}

/// The bytes of a signature, or none.
pub open spec fn sig_bytes(sig: Option<Seq<u8>>) -> Seq<u8> {
    match sig {
        Some(s) => s,
        None => seq![],
    }
}

/// Whether an envelope can be sent: the fields have their sizes, the recipients blob
/// holds entries, a signature is neither empty nor longer than both its halves, the
/// payload has room for a tag, and the header can be counted in 32 bits.
pub open spec fn sendable(v: EnvelopeView) -> bool {
    &&& v.enc_ecdh.len() == 32
    &&& v.nonce.len() == 24
    &&& v.rc.len() == 32
    &&& exists|es: Seq<EntryView>| holds_entries(v.recipients_blob, es)
    &&& v.signature matches Some(s) ==> 0 < s.len() <= 3309 + 64
    &&& v.ct_and_tag.len() >= 16
    &&& 96 + v.recipients_blob.len() + sig_bytes(v.signature).len() <= 0xFFFF_FFFF
}

/// The bytes of an envelope, by what it holds.
pub open spec fn wire(v: EnvelopeView) -> Seq<u8> {
    envelope_of(
        v.enc_ecdh,
        v.nonce,
        v.rc,
        v.recipients_blob,
        sig_bytes(v.signature),
        flag_byte(v.stream, v.has_trailer),
        v.ct_and_tag,
    )
}

/// Preambles are laid out as written.
proof fn lemma_head(flags: u8, n: int)
    ensures
        envelope::preamble_bytes(flags, n) == head_of(flags, n),
{
    lemma_numbers(n);
    assert(envelope::preamble_bytes(flags, n) =~= head_of(flags, n));
}

/// Envelopes are laid out as written.
pub proof fn lemma_wire(
    enc_ecdh: Seq<u8>,
    nonce: Seq<u8>,
    rc: Seq<u8>,
    blob: Seq<u8>,
    sig: Option<Seq<u8>>,
    flags: u8,
    payload: Seq<u8>,
)
    requires
        enc_ecdh.len() == 32,
        nonce.len() == 24,
        rc.len() == 32,
    ensures
        envelope::envelope_with_flags(enc_ecdh, nonce, blob, payload, sig, flags, rc)
            == envelope_of(enc_ecdh, nonce, rc, blob, sig_bytes(sig), flags, payload),
{
    lemma_head(flags, 96 + blob.len() as int + sig_bytes(sig).len());
    lemma_numbers(blob.len() as int);
    lemma_numbers(sig_bytes(sig).len() as int);
    assert(envelope::envelope_with_flags(enc_ecdh, nonce, blob, payload, sig, flags, rc)
        =~= envelope_of(enc_ecdh, nonce, rc, blob, sig_bytes(sig), flags, payload));
}

/// An envelope can be sent exactly when it is valid, and its bytes are as written.
pub proof fn lemma_sendable(v: EnvelopeView)
    ensures
        envelope::valid_envelope(v) <==> sendable(v),
        sendable(v) ==> envelope::envelope_bytes(v) == wire(v),
{
    lemma_decoded(v.recipients_blob);
    if sendable(v) {
        lemma_wire(
            v.enc_ecdh,
            v.nonce,
            v.rc,
            v.recipients_blob,
            v.signature,
            flag_byte(v.stream, v.has_trailer),
            v.ct_and_tag,
        );
    }
}

/// An envelope is written byte by byte as said.
pub proof fn law_encode_envelope(
    enc_ecdh: [u8; 32],
    nonce: [u8; 24],
    blob: Vec<u8>,
    payload: Vec<u8>,
    sig: Option<Vec<u8>>,
    flags: u8,
    rc: [u8; 32],
    out: Vec<u8>,
)
    requires
        call_ensures(encode_envelope_binary, (enc_ecdh, nonce, blob, payload, sig, flags, rc), out),
    ensures
        out@ == envelope_of(
            enc_ecdh@,
            nonce@,
            rc@,
            blob@,
            match sig {
                Some(s) => s@,
                None => seq![],
            },
            flags,
            payload@,
        ),
{
    lemma_wire(enc_ecdh@, nonce@, rc@, blob@, envelope::opt_view(sig), flags, payload@);
}

/// Bytes are read as an envelope exactly when they are the bytes of one that can be
/// sent, and give what it holds.
pub proof fn law_parse_envelope(bytes: &[u8], r: Result<ParsedBinary, ()>)
    requires
        call_ensures(parse_envelope_binary, (bytes,), r),
    ensures
        r is Ok <==> exists|v: EnvelopeView| sendable(v) && bytes@ == #[trigger] wire(v),
        r matches Ok(p) ==> sendable(p@) && bytes@ == wire(p@),
{
    if r is Ok {
        lemma_sendable(r->Ok_0@);
    }
    if exists|v: EnvelopeView| sendable(v) && bytes@ == #[trigger] wire(v) {
        let v = choose|v: EnvelopeView| sendable(v) && bytes@ == #[trigger] wire(v);
        lemma_sendable(v);
        assert(envelope::is_envelope(bytes@, v));
    }
}

/// An envelope that can be sent is read back from its bytes, whatever it holds.
pub proof fn law_envelope_read_back(bytes: &[u8], v: EnvelopeView, r: Result<ParsedBinary, ()>)
    requires
        sendable(v),
        bytes@ == wire(v),
        call_ensures(parse_envelope_binary, (bytes,), r),
    ensures
        r matches Ok(p) && p@ == v,
{
    lemma_sendable(v);
    envelope::lemma_envelope_roundtrip(v);
}

/// Twelve bytes are read as a preamble exactly when they are one with a header.
pub proof fn law_preamble(bytes: &[u8], r: Result<Preamble, ()>)
    requires
        call_ensures(parse_preamble, (bytes,), r),
    ensures
        r matches Ok(p) ==> p.header_len > 0 && bytes@ == head_of(
            flag_byte(p.stream is Yes, p.has_trailer),
            p.header_len as int,
        ),
        r is Err ==> forall|stream: bool, trailer: bool, n: int|
            0 < n <= 0xFFFF_FFFF ==> #[trigger] head_of(flag_byte(stream, trailer), n) != bytes@,
{
    if r is Ok {
        lemma_head(
            flag_byte((r->Ok_0).stream is Yes, (r->Ok_0).has_trailer),
            (r->Ok_0).header_len as int,
        );
    } else {
        assert forall|stream: bool, trailer: bool, n: int| 0 < n <= 0xFFFF_FFFF implies
            #[trigger] head_of(flag_byte(stream, trailer), n) != bytes@ by {
            lemma_head(flag_byte(stream, trailer), n);
            assert(envelope::preamble_bytes(envelope::flags_of(stream, trailer), n) != bytes@);
        }
    }
}

// ----------------------------------------------------------------------
// Frames and trailers
// ----------------------------------------------------------------------

/// The nonce of a frame, from the content key, the commitment and the frame's place.
pub open spec fn frame_nonce(cek: Seq<u8>, rc: Seq<u8>, index: int) -> Seq<u8> {
    crypto::hkdf_sha256(
        rc,
        cek,
        "VELUM-v1 STREAM NONCE".spec_bytes() + number(index, 4),
        24,
    )
}

/// A trailer: its 32 magic bytes, the length of the signature, the signature.
pub open spec fn trailer(sig: Seq<u8>) -> Seq<u8> {
    trailer_magic() + number(sig.len() as int, 4) + sig
}

/// `VLM1-SIGTRAILER-STREAM-v1`, padded with zeros to 32 bytes.
pub open spec fn trailer_magic() -> Seq<u8> {
    seq![
        0x56u8, 0x4C, 0x4D, 0x31, 0x2D, 0x53, 0x49, 0x47, 0x54, 0x52, 0x41, 0x49, 0x4C, 0x45, 0x52,
        0x2D, 0x53, 0x54, 0x52, 0x45, 0x41, 0x4D, 0x2D, 0x76, 0x31, 0, 0, 0, 0, 0, 0, 0,
    ]
}

} // verus!
