//! The binary VLM1 envelope.
//!
//! ```text
//! preamble (12 bytes): magic "VLM1", version 0x01, flags, two zero bytes,
//!                      u32 header length
//! header:              enc_ecdh (32), nonce (24), rc (32),
//!                      u32 length and recipients blob,
//!                      u32 length and signature (length 0: none)
//! payload:             ciphertext and tag, or frames and trailer
//! ```
//!
//! All numbers are big-endian. The payload is carried along unread.

use pqcrypto_mldsa::mldsa65;
use vstd::prelude::*;
use vstd::slice::*;

use crate::constants::{
    ED_SIG_LEN, MSG_FLAG_SIGTRAILER, MSG_FLAG_STREAM, MSG_MAGIC, MSG_NONCE_LEN, MSG_VERSION,
    PREAMBLE_LEN, TAG_LEN,
};
use crate::crypto::{ct_eq, wipe_vec, DSA_SIG_LEN};
use crate::recipients;
use crate::recipients::decode_recipients;
use crate::util;
use crate::util::{array_24, array_32, be_bytes, be_value};

verus! {

/// Whether the payload is chunked.
#[derive(Clone, Copy, Debug, PartialEq, Eq, Structural)]
pub enum StreamFlag {
    /// One AEAD over the whole payload.
    No,
    /// Independently encrypted chunks.
    Yes,
}

/// A parsed envelope. Its payload is not interpreted.
#[derive(Clone, Debug)]
pub struct ParsedBinary {
    /// Ephemeral X25519 public key.
    pub enc_ecdh: [u8; 32],
    /// Main content nonce.
    pub nonce: [u8; MSG_NONCE_LEN],
    /// Serialized recipient list.
    pub recipients_blob: Vec<u8>,
    /// Ciphertext and tag, or frames and trailer.
    pub ct_and_tag: Vec<u8>,
    /// Hybrid signature of the header, if there is one.
    pub signature: Option<Vec<u8>>,
    /// Whether the payload is chunked.
    pub stream: StreamFlag,
    /// Recipients commitment as stored in the header.
    pub rc: [u8; 32],
    /// Whether a signature trailer follows the frames.
    pub has_trailer: bool,
}

/// What an envelope holds.
#[verifier::ext_equal]
pub struct EnvelopeView {
    pub enc_ecdh: Seq<u8>,
    pub nonce: Seq<u8>,
    pub recipients_blob: Seq<u8>,
    pub ct_and_tag: Seq<u8>,
    pub signature: Option<Seq<u8>>,
    pub stream: bool,
    pub rc: Seq<u8>,
    pub has_trailer: bool,
}

/// What an optional byte string holds.
pub open spec fn opt_view(v: Option<Vec<u8>>) -> Option<Seq<u8>> {
    match v {
        Some(x) => Some(x@),
        None => None,
    }
}

impl View for ParsedBinary {
    type V = EnvelopeView;

    open spec fn view(&self) -> EnvelopeView {
        EnvelopeView {
            enc_ecdh: self.enc_ecdh@,
            nonce: self.nonce@,
            recipients_blob: self.recipients_blob@,
            ct_and_tag: self.ct_and_tag@,
            signature: opt_view(self.signature),
            stream: self.stream is Yes,
            rc: self.rc@,
            has_trailer: self.has_trailer,
        }
    }
}

/// The signature field: empty where there is no signature.
pub open spec fn signature_field(signature: Option<Seq<u8>>) -> Seq<u8> {
    match signature {
        Some(s) => s,
        None => seq![],
    }
}

/// The bytes of a header.
pub open spec fn header_bytes(
    enc_ecdh: Seq<u8>,
    nonce: Seq<u8>,
    recipients_blob: Seq<u8>,
    signature: Option<Seq<u8>>,
    rc: Seq<u8>,
) -> Seq<u8> {
    let sig = signature_field(signature);
    enc_ecdh + nonce + rc + util::be32(recipients_blob.len() as int) + recipients_blob + util::be32(
        sig.len() as int,
    ) + sig
}

/// The bytes of a preamble.
pub open spec fn preamble_bytes(flags: u8, header_len: int) -> Seq<u8> {
    MSG_MAGIC@ + seq![MSG_VERSION, flags, 0u8, 0u8] + util::be32(header_len)
}

/// The bytes of an envelope with the given flag byte.
pub open spec fn envelope_with_flags(
    enc_ecdh: Seq<u8>,
    nonce: Seq<u8>,
    recipients_blob: Seq<u8>,
    ct_and_tag: Seq<u8>,
    signature: Option<Seq<u8>>,
    flags: u8,
    rc: Seq<u8>,
) -> Seq<u8> {
    let header = header_bytes(enc_ecdh, nonce, recipients_blob, signature, rc);
    preamble_bytes(flags, header.len() as int) + header + ct_and_tag
}

/// The flag byte of an envelope.
pub open spec fn flags_of(stream: bool, has_trailer: bool) -> u8 {
    ((if stream {
        MSG_FLAG_STREAM as int
    } else {
        0
    }) + (if has_trailer {
        MSG_FLAG_SIGTRAILER as int
    } else {
        0
    })) as u8
}

/// The bytes of an envelope.
pub open spec fn envelope_bytes(v: EnvelopeView) -> Seq<u8> {
    envelope_with_flags(
        v.enc_ecdh,
        v.nonce,
        v.recipients_blob,
        v.ct_and_tag,
        v.signature,
        flags_of(v.stream, v.has_trailer),
        v.rc,
    )
}

/// Length of a header: fixed fields, recipients blob and signature.
pub open spec fn header_len(recipients_blob: Seq<u8>, signature: Option<Seq<u8>>) -> nat {
    96 + recipients_blob.len() + signature_field(signature).len()
}

/// Whether an envelope meets the protocol: sizes, a well-formed recipient list,
/// a signature that is no longer than a hybrid signature (and not empty where
/// there is one), room for a tag, and a header length that fits 32 bits.
pub open spec fn valid_envelope(v: EnvelopeView) -> bool {
    &&& v.enc_ecdh.len() == 32
    &&& v.nonce.len() == MSG_NONCE_LEN
    &&& v.rc.len() == 32
    &&& recipients::decoded(v.recipients_blob) is Some
    &&& v.signature matches Some(s) ==> 0 < s.len() <= DSA_SIG_LEN + ED_SIG_LEN
    &&& v.ct_and_tag.len() >= TAG_LEN
    &&& header_len(v.recipients_blob, v.signature) <= u32::MAX
}

/// Whether `bytes` is the encoding of the valid envelope `v`.
pub open spec fn is_envelope(bytes: Seq<u8>, v: EnvelopeView) -> bool {
    valid_envelope(v) && bytes == envelope_bytes(v)
}

/// The envelope that `bytes` encodes, if it encodes one.
pub open spec fn parsed(bytes: Seq<u8>) -> Option<EnvelopeView> {
    if exists|v: EnvelopeView| is_envelope(bytes, v) {
        Some(choose|v: EnvelopeView| is_envelope(bytes, v))
    } else {
        None
    }
}

// ----------------------------------------------------------------------
// Laws
// ----------------------------------------------------------------------

/// Where the parts of a header stand.
proof fn lemma_header_layout(v: EnvelopeView)
    requires
        valid_envelope(v),
    ensures
        ({
            let h = header_bytes(v.enc_ecdh, v.nonce, v.recipients_blob, v.signature, v.rc);
            let n = v.recipients_blob.len() as int;
            let sig = signature_field(v.signature);
            &&& h.len() == header_len(v.recipients_blob, v.signature)
            &&& h.subrange(0, 32) == v.enc_ecdh
            &&& h.subrange(32, 56) == v.nonce
            &&& h.subrange(56, 88) == v.rc
            &&& h.subrange(88, 92) == util::be32(n)
            &&& h.subrange(92, 92 + n) == v.recipients_blob
            &&& h.subrange(92 + n, 96 + n) == util::be32(sig.len() as int)
            &&& h.subrange(96 + n, h.len() as int) == sig
        }),
{
    let h = header_bytes(v.enc_ecdh, v.nonce, v.recipients_blob, v.signature, v.rc);
    let n = v.recipients_blob.len() as int;
    let sig = signature_field(v.signature);
    assert(h.subrange(0, 32) =~= v.enc_ecdh);
    assert(h.subrange(32, 56) =~= v.nonce);
    assert(h.subrange(56, 88) =~= v.rc);
    assert(h.subrange(88, 92) =~= util::be32(n));
    assert(h.subrange(92, 92 + n) =~= v.recipients_blob);
    assert(h.subrange(92 + n, 96 + n) =~= util::be32(sig.len() as int));
    assert(h.subrange(96 + n, h.len() as int) =~= sig);
}

/// Where the parts of an envelope stand.
proof fn lemma_envelope_layout(v: EnvelopeView)
    requires
        valid_envelope(v),
    ensures
        ({
            let b = envelope_bytes(v);
            let h = header_bytes(v.enc_ecdh, v.nonce, v.recipients_blob, v.signature, v.rc);
            &&& b.len() == PREAMBLE_LEN + h.len() + v.ct_and_tag.len()
            &&& b.subrange(0, 4) == MSG_MAGIC@
            &&& b[4] == MSG_VERSION
            &&& b[5] == flags_of(v.stream, v.has_trailer)
            &&& b[6] == 0
            &&& b[7] == 0
            &&& b.subrange(8, 12) == util::be32(h.len() as int)
            &&& b.subrange(12, 12 + h.len() as int) == h
            &&& b.skip(12 + h.len() as int) == v.ct_and_tag
        }),
{
    let b = envelope_bytes(v);
    let h = header_bytes(v.enc_ecdh, v.nonce, v.recipients_blob, v.signature, v.rc);
    assert(b.subrange(0, 4) =~= MSG_MAGIC@);
    assert(b.subrange(8, 12) =~= util::be32(h.len() as int));
    assert(b.subrange(12, 12 + h.len() as int) =~= h);
    assert(b.skip(12 + h.len() as int) =~= v.ct_and_tag);
}

/// Bytes encode at most one valid envelope.
pub proof fn lemma_envelope_injective(a: EnvelopeView, b: EnvelopeView)
    requires
        valid_envelope(a),
        valid_envelope(b),
        envelope_bytes(a) == envelope_bytes(b),
    ensures
        a == b,
{
    lemma_envelope_layout(a);
    lemma_envelope_layout(b);
    lemma_header_layout(a);
    lemma_header_layout(b);
    let ha = header_bytes(a.enc_ecdh, a.nonce, a.recipients_blob, a.signature, a.rc);
    let hb = header_bytes(b.enc_ecdh, b.nonce, b.recipients_blob, b.signature, b.rc);
    util::lemma_be32(ha.len() as int, seq![]);
    util::lemma_be32(hb.len() as int, seq![]);
    util::lemma_be32(a.recipients_blob.len() as int, seq![]);
    util::lemma_be32(b.recipients_blob.len() as int, seq![]);
    util::lemma_be32(signature_field(a.signature).len() as int, seq![]);
    util::lemma_be32(signature_field(b.signature).len() as int, seq![]);
    assert(ha == hb);
    assert(signature_field(a.signature) == signature_field(b.signature));
    assert(a.signature =~= b.signature);
    assert(a =~= b);
}

/// A valid envelope is read back from its bytes.
pub proof fn lemma_envelope_roundtrip(v: EnvelopeView)
    requires
        valid_envelope(v),
    ensures
        parsed(envelope_bytes(v)) == Some(v),
{
    let bytes = envelope_bytes(v);
    assert(is_envelope(bytes, v));
    let w = choose|w: EnvelopeView| is_envelope(bytes, w);
    lemma_envelope_injective(v, w);
}

// ----------------------------------------------------------------------
// Encoding and parsing
// ----------------------------------------------------------------------

/// Serializes an envelope; the flag byte is the caller's. What the caller hands
/// over is wiped before the function returns.
///
/// A header whose length does not fit 32 bits is left out: no envelope can carry
/// it.
pub fn encode_envelope_binary(
    enc_ecdh: [u8; 32],
    nonce: [u8; MSG_NONCE_LEN],
    recipients_blob: Vec<u8>,
    ct_and_tag: Vec<u8>,
    signature: Option<Vec<u8>>,
    flags: u8,
    rc: [u8; 32],
) -> (bytes: Vec<u8>)
    requires
        header_len(recipients_blob@, opt_view(signature)) <= u32::MAX,
    ensures
        bytes@ == envelope_with_flags(
            enc_ecdh@,
            nonce@,
            recipients_blob@,
            ct_and_tag@,
            opt_view(signature),
            flags,
            rc@,
        ),
{
    let mut recipients_blob: Vec<u8> = recipients_blob;
    let mut ct_and_tag: Vec<u8> = ct_and_tag;
    let ghost sig_view = opt_view(signature);
    let ghost blob_view = recipients_blob@;
    let ghost header = header_bytes(enc_ecdh@, nonce@, blob_view, sig_view, rc@);
    let mut sig: Vec<u8> = match signature {
        Some(s) => s,
        None => Vec::new(),
    };
    assert(sig@ =~= signature_field(sig_view));
    let header_len: usize = 96 + recipients_blob.len() + sig.len();

    let mut out: Vec<u8> = Vec::new();
    out.extend_from_slice(MSG_MAGIC.as_slice());
    out.push(MSG_VERSION);
    out.push(flags);
    out.push(0);
    out.push(0);
    out.extend_from_slice(be_bytes(header_len as u32).as_slice());
    assert(out@ =~= preamble_bytes(flags, header.len() as int));
    out.extend_from_slice(enc_ecdh.as_slice());
    out.extend_from_slice(nonce.as_slice());
    out.extend_from_slice(rc.as_slice());
    out.extend_from_slice(be_bytes(recipients_blob.len() as u32).as_slice());
    out.extend_from_slice(recipients_blob.as_slice());
    out.extend_from_slice(be_bytes(sig.len() as u32).as_slice());
    out.extend_from_slice(sig.as_slice());
    assert(out@ =~= preamble_bytes(flags, header.len() as int) + header);
    out.extend_from_slice(ct_and_tag.as_slice());

    wipe_vec(&mut recipients_blob);
    wipe_vec(&mut ct_and_tag);
    wipe_vec(&mut sig);
    out
}

/// Reads the header of an envelope; `stream`, `has_trailer` and the payload are
/// those that the rest of the envelope gives.
fn parse_header(header: &[u8], stream: StreamFlag, has_trailer: bool, ct_and_tag: Vec<u8>) -> (p:
    Result<ParsedBinary, ()>)
    requires
        ct_and_tag@.len() >= TAG_LEN,
        header@.len() <= u32::MAX,
    ensures
        p matches Ok(e) ==> {
            &&& valid_envelope(e@)
            &&& header@ == header_bytes(
                e@.enc_ecdh,
                e@.nonce,
                e@.recipients_blob,
                e@.signature,
                e@.rc,
            )
            &&& e@.ct_and_tag == ct_and_tag@
            &&& e@.stream == (stream is Yes)
            &&& e@.has_trailer == has_trailer
        },
        p is Err ==> forall|v: EnvelopeView|
            valid_envelope(v) ==> #[trigger] header_bytes(
                v.enc_ecdh,
                v.nonce,
                v.recipients_blob,
                v.signature,
                v.rc,
            ) != header@,
{
    let n: usize = header.len();
    let ghost h = header@;
    proof {
        lemma_header_shape(h);
    }
    if n < 96 {
        return Err(());
    }
    let recip_len: usize = be_value(slice_subrange(header, 88, 92)) as usize;
    assert(h.subrange(88, 92).take(4) =~= h.subrange(88, 92));
    assert(recip_len == be32_at(h, 88));
    if recip_len > n - 96 {
        return Err(());
    }
    let blob_end: usize = 92 + recip_len;
    let sig_len: usize = be_value(slice_subrange(header, blob_end, blob_end + 4)) as usize;
    assert(h.subrange(blob_end as int, blob_end + 4).take(4) =~= h.subrange(
        blob_end as int,
        blob_end + 4,
    ));
    assert(sig_len == be32_at(h, blob_end as int));
    let max_sig_len: usize = mldsa65::signature_bytes() + ED_SIG_LEN;
    if sig_len > max_sig_len {
        return Err(());
    }
    if sig_len != n - blob_end - 4 {
        return Err(());
    }
    let recipients_blob: Vec<u8> = slice_to_vec(slice_subrange(header, 92, blob_end));
    if decode_recipients(recipients_blob.as_slice()).is_err() {
        return Err(());
    }
    assert(header_shape(h));
    let signature: Option<Vec<u8>> = if sig_len == 0 {
        None
    } else {
        Some(slice_to_vec(slice_subrange(header, blob_end + 4, n)))
    };
    let p: ParsedBinary = ParsedBinary {
        enc_ecdh: array_32(slice_subrange(header, 0, 32)),
        nonce: array_24(slice_subrange(header, 32, 56)),
        recipients_blob,
        ct_and_tag,
        signature,
        stream,
        rc: array_32(slice_subrange(header, 56, 88)),
        has_trailer,
    };
    proof {
        assert(signature_field(p@.signature) =~= h.subrange(blob_end + 4, n as int));
        lemma_header_parts(h, p@.signature);
    }
    Ok(p)
}

/// The number that the four bytes of `s` at `i` stand for.
spec fn be32_at(s: Seq<u8>, i: int) -> int {
    util::be32_value(s.subrange(i, i + 4))
}

/// Whether `h` has the shape of a header: its length fields add up, the recipient
/// list is well-formed, and the signature is not too long.
spec fn header_shape(h: Seq<u8>) -> bool {
    let n = be32_at(h, 88);
    let m = be32_at(h, 92 + n);
    &&& h.len() >= 96
    &&& 96 + n <= h.len()
    &&& m <= DSA_SIG_LEN + ED_SIG_LEN
    &&& h.len() == 96 + n + m
    &&& recipients::decoded(h.subrange(92, 92 + n)) is Some
}

/// Whether `h` is the header of the valid envelope `v`.
spec fn is_header(h: Seq<u8>, v: EnvelopeView) -> bool {
    valid_envelope(v) && header_bytes(
        v.enc_ecdh,
        v.nonce,
        v.recipients_blob,
        v.signature,
        v.rc,
    ) == h
}

/// The header of a valid envelope has the shape of a header.
proof fn lemma_header_has_shape(h: Seq<u8>, v: EnvelopeView)
    requires
        is_header(h, v),
    ensures
        header_shape(h),
{
    let n = v.recipients_blob.len() as int;
    let sig = signature_field(v.signature);
    lemma_header_layout(v);
    util::lemma_be32(n, seq![]);
    util::lemma_be32(sig.len() as int, seq![]);
    assert(be32_at(h, 88) == n);
    assert(be32_at(h, 92 + n) == sig.len());
}

/// What has not the shape of a header is no header.
proof fn lemma_header_shape(h: Seq<u8>)
    ensures
        !header_shape(h) ==> forall|v: EnvelopeView|
            valid_envelope(v) ==> #[trigger] header_bytes(
                v.enc_ecdh,
                v.nonce,
                v.recipients_blob,
                v.signature,
                v.rc,
            ) != h,
{
    assert forall|v: EnvelopeView|
        valid_envelope(v) && #[trigger] header_bytes(
            v.enc_ecdh,
            v.nonce,
            v.recipients_blob,
            v.signature,
            v.rc,
        ) == h implies header_shape(h) by {
        assert(is_header(h, v));
        lemma_header_has_shape(h, v);
    }
}

/// What has the shape of a header is the header of its parts.
proof fn lemma_header_parts(h: Seq<u8>, signature: Option<Seq<u8>>)
    requires
        header_shape(h),
        signature_field(signature) == h.subrange(96 + be32_at(h, 88), h.len() as int),
    ensures
        header_bytes(
            h.subrange(0, 32),
            h.subrange(32, 56),
            h.subrange(92, 92 + be32_at(h, 88)),
            signature,
            h.subrange(56, 88),
        ) == h,
{
    let n = be32_at(h, 88);
    let m = be32_at(h, 92 + n);
    util::lemma_be32(n, h.subrange(88, 92));
    util::lemma_be32(m, h.subrange(92 + n, 96 + n));
    assert(h.subrange(0, 32) + h.subrange(32, 56) + h.subrange(56, 88) + h.subrange(88, 92)
        + h.subrange(92, 92 + n) + h.subrange(92 + n, 96 + n) + h.subrange(
        96 + n,
        h.len() as int,
    ) =~= h);
}

/// What a preamble says.
#[derive(Clone, Copy, Debug)]
pub struct Preamble {
    /// Whether the payload is chunked.
    pub stream: StreamFlag,
    /// Whether a signature trailer follows the frames.
    pub has_trailer: bool,
    /// Length of the header.
    pub header_len: u32,
}

/// Reads a preamble. Fails exactly when the bytes are not the preamble of an
/// envelope with a non-empty header: wrong length, magic or version, a reserved
/// bit or byte that is not zero, or a header length of zero.
pub fn parse_preamble(bytes: &[u8]) -> (p: Result<Preamble, ()>)
    ensures
        p matches Ok(q) ==> bytes@ == preamble_bytes(
            flags_of(q.stream is Yes, q.has_trailer),
            q.header_len as int,
        ) && q.header_len > 0,
        p is Err ==> forall|stream: bool, trailer: bool, n: int|
            0 < n <= u32::MAX ==> #[trigger] preamble_bytes(flags_of(stream, trailer), n) != bytes@,
{
    let ghost b = bytes@;
    proof {
        assert forall|stream: bool, trailer: bool, n: int|
            0 < n <= u32::MAX && #[trigger] preamble_bytes(flags_of(stream, trailer), n)
                == b implies {
            &&& b.len() == PREAMBLE_LEN
            &&& b.subrange(0, 4) == MSG_MAGIC@
            &&& b[4] == MSG_VERSION
            &&& b[5] <= 3
            &&& b[6] == 0
            &&& b[7] == 0
            &&& be32_at(b, 8) == n
        } by {
            assert(b.subrange(0, 4) =~= MSG_MAGIC@);
            assert(b.subrange(8, 12) =~= util::be32(n));
            util::lemma_be32(n, seq![]);
        }
    }
    if bytes.len() != PREAMBLE_LEN {
        return Err(());
    }
    if !ct_eq(slice_subrange(bytes, 0, 4), MSG_MAGIC.as_slice()) || bytes[4] != MSG_VERSION {
        return Err(());
    }
    let flags: u8 = bytes[5];
    if flags > MSG_FLAG_STREAM + MSG_FLAG_SIGTRAILER || bytes[6] != 0 || bytes[7] != 0 {
        return Err(());
    }
    let header_len: u32 = be_value(slice_subrange(bytes, 8, 12));
    assert(b.subrange(8, 12).take(4) =~= b.subrange(8, 12));
    if header_len == 0 {
        return Err(());
    }
    let stream: StreamFlag = if flags % 2 == 1 {
        StreamFlag::Yes
    } else {
        StreamFlag::No
    };
    let has_trailer: bool = flags >= MSG_FLAG_SIGTRAILER;
    proof {
        util::lemma_be32(header_len as int, b.subrange(8, 12));
        assert(b =~= preamble_bytes(flags_of(stream is Yes, has_trailer), header_len as int)) by {
            assert(b.subrange(0, 4)[0] == b[0]);
            assert(b.subrange(0, 4)[1] == b[1]);
            assert(b.subrange(0, 4)[2] == b[2]);
            assert(b.subrange(0, 4)[3] == b[3]);
            assert(b =~= b.subrange(0, 4) + seq![b[4], b[5], b[6], b[7]] + b.subrange(8, 12));
        }
    }
    Ok(Preamble { stream, has_trailer, header_len })
}

/// Parses and validates an envelope. Fails exactly when the bytes are not the
/// encoding of a valid envelope. A signature trailer is not looked at.
#[verifier::rlimit(40)]
pub fn parse_envelope_binary(bytes: &[u8]) -> (p: Result<ParsedBinary, ()>)
    ensures
        p is Ok <==> parsed(bytes@) is Some,
        p matches Ok(e) ==> parsed(bytes@) == Some(e@) && is_envelope(bytes@, e@),
{
    let ghost b = bytes@;
    proof {
        assert forall|v: EnvelopeView| is_envelope(b, v) implies {
            let h = header_bytes(v.enc_ecdh, v.nonce, v.recipients_blob, v.signature, v.rc);
            &&& b.len() == PREAMBLE_LEN + h.len() + v.ct_and_tag.len()
            &&& b.subrange(0, 12) == preamble_bytes(
                flags_of(v.stream, v.has_trailer),
                h.len() as int,
            )
            &&& 0 < h.len() <= u32::MAX
            &&& b.subrange(12, 12 + h.len() as int) == h
            &&& b.skip(12 + h.len() as int) == v.ct_and_tag
        } by {
            let h = header_bytes(v.enc_ecdh, v.nonce, v.recipients_blob, v.signature, v.rc);
            lemma_envelope_layout(v);
            lemma_header_layout(v);
            assert(b.subrange(0, 12) =~= preamble_bytes(
                flags_of(v.stream, v.has_trailer),
                h.len() as int,
            ));
        }
    }
    if bytes.len() < PREAMBLE_LEN {
        return Err(());
    }
    let pre: Preamble = match parse_preamble(slice_subrange(bytes, 0, PREAMBLE_LEN)) {
        Ok(pre) => pre,
        Err(_) => {
            return Err(());
        },
    };
    let header_len: usize = pre.header_len as usize;
    proof {
        assert forall|v: EnvelopeView| is_envelope(b, v) implies header_len == header_bytes(
            v.enc_ecdh,
            v.nonce,
            v.recipients_blob,
            v.signature,
            v.rc,
        ).len() && v.stream == (pre.stream is Yes) && v.has_trailer == pre.has_trailer by {
            lemma_preamble_injective(
                flags_of(v.stream, v.has_trailer),
                header_bytes(v.enc_ecdh, v.nonce, v.recipients_blob, v.signature, v.rc).len() as int,
                flags_of(pre.stream is Yes, pre.has_trailer),
                header_len as int,
            );
        }
    }
    if header_len > bytes.len() - PREAMBLE_LEN {
        return Err(());
    }
    let start: usize = PREAMBLE_LEN + header_len;
    if bytes.len() - start < TAG_LEN {
        return Err(());
    }
    let ct_and_tag: Vec<u8> = slice_to_vec(slice_subrange(bytes, start, bytes.len()));
    let header: &[u8] = slice_subrange(bytes, PREAMBLE_LEN, start);
    let r: Result<ParsedBinary, ()> = parse_header(
        header,
        pre.stream,
        pre.has_trailer,
        ct_and_tag,
    );
    proof {
        if r is Ok {
            assert(b =~= b.subrange(0, 12) + b.subrange(12, start as int) + b.subrange(
                start as int,
                b.len() as int,
            ));
            assert(is_envelope(b, r->Ok_0@));
            lemma_envelope_roundtrip(r->Ok_0@);
        }
    }
    r
}

/// A preamble determines flags and header length.
proof fn lemma_preamble_injective(f: u8, n: int, g: u8, m: int)
    requires
        0 <= n <= u32::MAX,
        0 <= m <= u32::MAX,
        preamble_bytes(f, n) == preamble_bytes(g, m),
    ensures
        f == g,
        n == m,
{
    let a = preamble_bytes(f, n);
    let b = preamble_bytes(g, m);
    assert(a[5] == f);
    assert(b[5] == g);
    assert(a.subrange(8, 12) =~= util::be32(n));
    assert(b.subrange(8, 12) =~= util::be32(m));
    util::lemma_be32(n, seq![]);
    util::lemma_be32(m, seq![]);
}

} // verus!
