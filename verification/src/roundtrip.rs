//! What a recipient gets back of what was encrypted.

use vstd::prelude::*;
use vstd::utf8::*;

use crate::armor;
use crate::base64_text;
use crate::block;
use crate::constants::TRAILER_HEAD_LEN;
use crate::context::{ContextView, HandshakeView};
use crate::crypto;
use crate::crypto::XCHACHA_MAX_MSG;
use crate::decrypt;
use crate::encrypt;
use crate::envelope;
use crate::envelope::EnvelopeView;
use crate::file_decrypt;
use crate::file_encrypt;
use crate::handshake;
use crate::handshake::SenderView;
use crate::keys;
use crate::keys::{PublicView, SecretView};
use crate::message;
use crate::streaming;
use crate::text;
use crate::transcript;
use crate::transcript::HYBRID_SIG_LEN;
use crate::util;

verus! {

/// Whether the `i`-th recipient of a handshake recovers the content key: no two
/// capsules are equal, and no entry of another recipient opens first.
pub open spec fn recovers(hs: HandshakeView, sender: SenderView, i: int, sk: SecretView) -> bool {
    &&& handshake::is_recipient(sender, i, sk)
    &&& handshake::capsule_ids(sender.caps).no_duplicates()
    &&& forall|k: int|
        0 <= k < i ==> handshake::opened_entry(
            #[trigger] handshake::made_entries(sender.caps, hs.enc_ecdh, hs.cek)[k],
            hs.enc_ecdh,
            hs.rc,
            sk,
        ) is None
}

/// What a recipient reads of a plaintext and a signature status.
pub open spec fn with_status<T>(content: T, status: Option<i32>) -> Option<(T, i32)> {
    match status {
        Some(st) => Some((content, st)),
        None => None,
    }
}

/// A recipient of a whole message gets its plaintext back, in one piece and as
/// the only chunk. The signature is checked against the bytes that were signed.
pub proof fn lemma_whole_roundtrip(
    v: EnvelopeView,
    pt: Seq<u8>,
    list: Seq<PublicView>,
    signer: Option<(Seq<char>, Seq<char>)>,
    hs: HandshakeView,
    sender: SenderView,
    i: int,
    arm: Seq<char>,
    pass: Seq<char>,
    expected: Option<Seq<char>>,
)
    requires
        encrypt::is_whole_encryption(v, pt, list, signer, hs, sender),
        keys::unlocked(arm, pass) matches Some(sk) && recovers(hs, sender, i, sk),
    ensures
        ({
            let status = transcript::signature_status(
                v.signature,
                expected,
                encrypt::whole_transcript(hs, pt),
            );
            let bytes = envelope::envelope_bytes(v);
            &&& decrypt::decrypted(bytes, arm, pass, expected) == with_status(pt, status)
            &&& decrypt::streamed(bytes, arm, pass, expected) == with_status(seq![pt], status)
        }),
{
    let sk = keys::unlocked(arm, pass)->0;
    handshake::lemma_handshake_roundtrip(hs, list, sender, i, sk, v);
    lemma_whole_opens(v, pt, list, signer, hs, sender, arm, pass, expected);
}

/// Who recovers the content key of a whole message gets its plaintext.
proof fn lemma_whole_opens(
    v: EnvelopeView,
    pt: Seq<u8>,
    list: Seq<PublicView>,
    signer: Option<(Seq<char>, Seq<char>)>,
    hs: HandshakeView,
    sender: SenderView,
    arm: Seq<char>,
    pass: Seq<char>,
    expected: Option<Seq<char>>,
)
    requires
        encrypt::is_whole_encryption(v, pt, list, signer, hs, sender),
        keys::unlocked(arm, pass) matches Some(sk) && handshake::context_for(v, sk) == Some(
            (ContextView { parsed: v, rc: hs.rc, cek: hs.cek }),
        ),
    ensures
        ({
            let ctx = ContextView { parsed: v, rc: hs.rc, cek: hs.cek };
            let status = transcript::signature_status(
                v.signature,
                expected,
                encrypt::whole_transcript(hs, pt),
            );
            let bytes = envelope::envelope_bytes(v);
            &&& decrypt::opened_chunks(ctx, expected) == with_status(seq![pt], status)
            &&& decrypt::decrypted(bytes, arm, pass, expected) == with_status(pt, status)
            &&& decrypt::streamed(bytes, arm, pass, expected) == with_status(seq![pt], status)
        }),
{
    let ctx = ContextView { parsed: v, rc: hs.rc, cek: hs.cek };
    envelope::lemma_envelope_roundtrip(v);
    assert(handshake::context_of(envelope::envelope_bytes(v), arm, pass) == Some(ctx));
    assert(decrypt::whole_content(ctx) == Some(pt));
    assert(transcript::header_transcript(ctx) == encrypt::whole_transcript(hs, pt));
}

/// A whole message decrypts from its armor as it does from its envelope.
pub proof fn lemma_armor_as_binary(
    v: EnvelopeView,
    arm: Seq<char>,
    pass: Seq<char>,
    expected: Option<Seq<char>>,
)
    requires
        envelope::valid_envelope(v),
        !v.stream,
        !v.has_trailer,
        v.rc == message::commitment_of(v.recipients_blob),
    ensures
        ({
            let bytes = envelope::envelope_bytes(v);
            let text = encode_utf8(message::armored(message::message_of_envelope(v)));
            &&& decrypt::decrypted_text(text, arm, pass, expected) == decrypt::decrypted(
                bytes,
                arm,
                pass,
                expected,
            )
            &&& decrypt::streamed_text(text, arm, pass, expected) == decrypt::streamed(
                bytes,
                arm,
                pass,
                expected,
            )
        }),
{
    let text = message::armored(message::message_of_envelope(v));
    message::lemma_binary_armor_roundtrip(v);
    message::lemma_message_roundtrip(message::message_of_envelope(v));
    encode_utf8_valid_utf8(text);
    encode_utf8_decode_utf8(text);
}

/// A recipient of a whole message gets its plaintext back from the armor too, in one
/// piece and as the only chunk.
pub proof fn lemma_armored_roundtrip(
    v: EnvelopeView,
    pt: Seq<u8>,
    list: Seq<PublicView>,
    signer: Option<(Seq<char>, Seq<char>)>,
    hs: HandshakeView,
    sender: SenderView,
    i: int,
    arm: Seq<char>,
    pass: Seq<char>,
    expected: Option<Seq<char>>,
)
    requires
        encrypt::is_whole_encryption(v, pt, list, signer, hs, sender),
        keys::unlocked(arm, pass) matches Some(sk) && recovers(hs, sender, i, sk),
    ensures
        ({
            let text = encode_utf8(message::armored(message::message_of_envelope(v)));
            let status = transcript::signature_status(
                v.signature,
                expected,
                encrypt::whole_transcript(hs, pt),
            );
            &&& decrypt::decrypted_text(text, arm, pass, expected) == with_status(pt, status)
            &&& decrypt::streamed_text(text, arm, pass, expected) == with_status(
                seq![pt],
                status,
            )
        }),
{
    lemma_whole_roundtrip(v, pt, list, signer, hs, sender, i, arm, pass, expected);
    handshake::lemma_handshake_entries(hs, list, sender);
    lemma_armor_as_binary(v, arm, pass, expected);
}

/// A recipient of a chunked message gets its chunks back one by one, with the
/// status of the trailer's signature, which is checked against the bytes that
/// were signed; and joined, as one plaintext without a header signature.
///
/// Left out is the empty message without a signature, whose payload is shorter
/// than a tag: no envelope with such a payload parses.
pub proof fn lemma_stream_roundtrip(
    v: EnvelopeView,
    chunks: Seq<Seq<u8>>,
    list: Seq<PublicView>,
    signer: Option<(Seq<char>, Seq<char>)>,
    hs: HandshakeView,
    sender: SenderView,
    sig: Option<Seq<u8>>,
    i: int,
    arm: Seq<char>,
    pass: Seq<char>,
    expected: Option<Seq<char>>,
)
    requires
        encrypt::is_stream_encryption(v, chunks, list, signer, hs, sender, sig),
        chunks.len() > 0 || signer is Some,
        keys::unlocked(arm, pass) matches Some(sk) && recovers(hs, sender, i, sk),
    ensures
        ({
            let bytes = envelope::envelope_bytes(v);
            let status = transcript::signature_status(
                sig,
                expected,
                encrypt::stream_transcript(hs, chunks),
            );
            let header_status: i32 = if expected is Some {
                3
            } else {
                0
            };
            &&& decrypt::streamed(bytes, arm, pass, expected) == with_status(chunks, status)
            &&& decrypt::decrypted(bytes, arm, pass, expected) == Some(
                (streaming::joined(chunks), header_status),
            )
        }),
{
    let sk = keys::unlocked(arm, pass)->0;
    let ctx = ContextView { parsed: v, rc: hs.rc, cek: hs.cek };
    encrypt::lemma_stream_valid(v, chunks, list, signer, hs, sender, sig);
    envelope::lemma_envelope_roundtrip(v);
    handshake::lemma_handshake_roundtrip(hs, list, sender, i, sk, v);
    assert(handshake::context_of(envelope::envelope_bytes(v), arm, pass) == Some(ctx));
    lemma_stream_opens(v, chunks, hs, sig);
}

/// The payload of a chunked message opens to the chunks, and its trailer to the
/// signature.
pub proof fn lemma_stream_opens(
    v: EnvelopeView,
    chunks: Seq<Seq<u8>>,
    hs: HandshakeView,
    sig: Option<Seq<u8>>,
)
    requires
        v == encrypt::stream_envelope(hs, chunks, sig),
        hs.stream_on,
        streaming::chunks_open(hs, chunks),
        streaming::chunks_fit(chunks),
        sig matches Some(s) ==> s.len() <= u32::MAX,
    ensures
        ({
            let ctx = ContextView { parsed: v, rc: hs.rc, cek: hs.cek };
            let frames = streaming::frames_of(hs, chunks);
            let n = frames.len() as int;
            &&& decrypt::stream_content(ctx) == Some((chunks, n))
            &&& v.ct_and_tag.take(n) == frames
            &&& sig matches Some(s) ==> streaming::trailer_signature(v.ct_and_tag.skip(n + 4))
                == Some(s)
        }),
{
    let frames = streaming::frames_of(hs, chunks);
    let n = frames.len() as int;
    let end = util::be32(crate::constants::TRAILER_SENTINEL_LEN as int);
    util::lemma_be32(crate::constants::TRAILER_SENTINEL_LEN as int, seq![]);
    match sig {
        Some(s) => {
            let tail = streaming::trailer_bytes(s).skip(4);
            assert(v.ct_and_tag =~= frames + end + tail);
            streaming::lemma_frames_roundtrip(hs, chunks, tail);
            streaming::lemma_trailer_roundtrip(s);
            assert(v.ct_and_tag.skip(n + 4) =~= tail);
        },
        None => {
            assert(v.ct_and_tag =~= frames + end + Seq::<u8>::empty());
            streaming::lemma_frames_roundtrip(hs, chunks, seq![]);
        },
    }
    assert(v.ct_and_tag.take(n) =~= frames);
}

/// A chunked payload whose frames are out of order decrypts to nothing, in one piece
/// or in chunks, signed or not: whatever else it holds, where behind the first `i`
/// frames of a sent payload its frame number `j` follows in the place of another.
///
/// The places are told apart by the nonces that are derived for them.
pub proof fn lemma_misplaced_frame_rejected(
    ctx: ContextView,
    hs: HandshakeView,
    chunks: Seq<Seq<u8>>,
    i: int,
    j: int,
    rest: Seq<u8>,
    expected: Option<Seq<char>>,
)
    requires
        streaming::chunks_open(hs, chunks),
        streaming::chunks_fit(chunks),
        0 <= i <= chunks.len(),
        0 <= j < chunks.len(),
        streaming::chunk_nonce(hs.cek, hs.rc, i) != streaming::chunk_nonce(hs.cek, hs.rc, j),
        ctx.parsed.stream,
        ctx.cek == hs.cek,
        ctx.rc == hs.rc,
        decrypt::context_aad(ctx) == streaming::handshake_aad(hs),
        ctx.parsed.ct_and_tag == streaming::frames_of(hs, chunks.take(i))
            + streaming::chunk_frame(hs, j, chunks[j]) + rest,
    ensures
        decrypt::content_of(ctx) is None,
        decrypt::opened_content(ctx, expected) is None,
        decrypt::opened_chunks(ctx, expected) is None,
{
    let first = chunks.take(i);
    assert forall|k: int| 0 <= k < first.len() implies streaming::chunk_opens(
        hs,
        k,
        #[trigger] first[k],
    ) && streaming::chunk_fits(first[k]) by {
        assert(streaming::chunk_opens(hs, k, chunks[k]));
        assert(streaming::chunk_fits(chunks[k]));
    }
    assert(streaming::chunk_opens(hs, j, chunks[j]));
    assert(streaming::chunk_fits(chunks[j]));
    streaming::lemma_misplaced_frame(
        hs,
        first,
        streaming::chunk_nonce(hs.cek, hs.rc, j),
        streaming::chunk_body(hs, j, chunks[j]),
        rest,
    );
}

/// A recipient of a message that was encrypted in chunks gets the message back.
pub proof fn lemma_message_stream_roundtrip(
    v: EnvelopeView,
    pt: Seq<u8>,
    chunk_size: nat,
    list: Seq<PublicView>,
    signer: Option<(Seq<char>, Seq<char>)>,
    hs: HandshakeView,
    sender: SenderView,
    sig: Option<Seq<u8>>,
    i: int,
    arm: Seq<char>,
    pass: Seq<char>,
)
    requires
        chunk_size > 0,
        encrypt::is_stream_encryption(
            v,
            streaming::chunks_of(pt, chunk_size),
            list,
            signer,
            hs,
            sender,
            sig,
        ),
        pt.len() > 0 || signer is Some,
        keys::unlocked(arm, pass) matches Some(sk) && recovers(hs, sender, i, sk),
    ensures
        decrypt::decrypted(envelope::envelope_bytes(v), arm, pass, None) == Some((pt, 0i32)),
{
    let chunks = streaming::chunks_of(pt, chunk_size);
    lemma_stream_roundtrip(v, chunks, list, signer, hs, sender, sig, i, arm, pass, None);
    streaming::lemma_chunks_joined(pt, chunk_size);
}

/// Whether an armored public key belongs to a signer.
pub open spec fn belongs_to(public: Seq<char>, signer: (Seq<char>, Seq<char>)) -> bool {
    match (armor::public_of(public), keys::unlocked(signer.0, signer.1)) {
        (Some(p), Some(sk)) => transcript::is_signing_pair(p, sk),
        _ => false,
    }
}

/// The halves of a generated key pair belong together: who unlocks the secret half
/// signs for the public half.
pub proof fn lemma_keypair_signs(public: Seq<char>, secret: Seq<char>, pass: Seq<char>)
    requires
        keys::is_keypair(public, secret, pass),
    ensures
        belongs_to(public, (secret, pass)),
{
}

/// A signature that a signer made is verified by whoever expects it, and reported
/// to whoever does not; a message that nobody signed has no signature.
///
/// Left out are signatures that begin with the neutral point in their Ed25519
/// half: strict verification refuses them.
pub proof fn lemma_signed_status(
    sig: Option<Seq<u8>>,
    signer: Option<(Seq<char>, Seq<char>)>,
    transcript: Seq<u8>,
    public: Seq<char>,
)
    requires
        encrypt::signed_by(sig, signer, transcript),
        sig matches Some(s) ==> transcript::is_regular(s),
        signer matches Some(s) ==> belongs_to(public, s),
    ensures
        transcript::signature_status(sig, Some(public), transcript) == Some(
            if signer is Some {
                1i32
            } else {
                3i32
            },
        ),
        transcript::signature_status(sig, None, transcript) == Some(
            if signer is Some {
                3i32
            } else {
                0i32
            },
        ),
{
}

/// A recipient of a signed whole message who expects the signer gets the plaintext
/// and status 1, from the envelope and from the armor.
pub proof fn lemma_signed_whole_verified(
    v: EnvelopeView,
    pt: Seq<u8>,
    list: Seq<PublicView>,
    signer: (Seq<char>, Seq<char>),
    hs: HandshakeView,
    sender: SenderView,
    i: int,
    arm: Seq<char>,
    pass: Seq<char>,
    public: Seq<char>,
)
    requires
        encrypt::is_whole_encryption(v, pt, list, Some(signer), hs, sender),
        v.signature matches Some(s) ==> transcript::is_regular(s),
        belongs_to(public, signer),
        keys::unlocked(arm, pass) matches Some(sk) && recovers(hs, sender, i, sk),
    ensures
        decrypt::decrypted(envelope::envelope_bytes(v), arm, pass, Some(public)) == Some(
            (pt, 1i32),
        ),
        decrypt::decrypted_text(
            encode_utf8(message::armored(message::message_of_envelope(v))),
            arm,
            pass,
            Some(public),
        ) == Some((pt, 1i32)),
{
    let t = encrypt::whole_transcript(hs, pt);
    lemma_signed_status(v.signature, Some(signer), t, public);
    lemma_whole_roundtrip(
        v,
        pt,
        list,
        Some(signer),
        hs,
        sender,
        i,
        arm,
        pass,
        Some(public),
    );
    lemma_armored_roundtrip(
        v,
        pt,
        list,
        Some(signer),
        hs,
        sender,
        i,
        arm,
        pass,
        Some(public),
    );
}

/// A recipient of a signed chunked message who expects the signer gets the chunks
/// and status 1.
pub proof fn lemma_signed_stream_verified(
    v: EnvelopeView,
    chunks: Seq<Seq<u8>>,
    list: Seq<PublicView>,
    signer: (Seq<char>, Seq<char>),
    hs: HandshakeView,
    sender: SenderView,
    sig: Option<Seq<u8>>,
    i: int,
    arm: Seq<char>,
    pass: Seq<char>,
    public: Seq<char>,
)
    requires
        encrypt::is_stream_encryption(v, chunks, list, Some(signer), hs, sender, sig),
        sig matches Some(s) ==> transcript::is_regular(s),
        belongs_to(public, signer),
        keys::unlocked(arm, pass) matches Some(sk) && recovers(hs, sender, i, sk),
    ensures
        decrypt::streamed(envelope::envelope_bytes(v), arm, pass, Some(public)) == Some(
            (chunks, 1i32),
        ),
{
    let t = encrypt::stream_transcript(hs, chunks);
    lemma_signed_status(sig, Some(signer), t, public);
    lemma_stream_roundtrip(
        v,
        chunks,
        list,
        Some(signer),
        hs,
        sender,
        sig,
        i,
        arm,
        pass,
        Some(public),
    );
}

/// A recipient who reads a file piece by piece gets the chunks back that were
/// written piece by piece, the empty file too, with the status of the trailer's
/// signature, which is checked against the bytes that were signed.
pub proof fn lemma_file_roundtrip(
    chunks: Seq<Seq<u8>>,
    list: Seq<PublicView>,
    signer: Option<(Seq<char>, Seq<char>)>,
    hs: HandshakeView,
    sender: SenderView,
    sig: Option<Seq<u8>>,
    i: int,
    arm: Seq<char>,
    pass: Seq<char>,
    expected: Option<Seq<char>>,
)
    requires
        encrypt::is_stream_encryption(
            encrypt::stream_envelope(hs, chunks, sig),
            chunks,
            list,
            signer,
            hs,
            sender,
            sig,
        ),
        keys::unlocked(arm, pass) matches Some(sk) && recovers(hs, sender, i, sk),
    ensures
        ({
            let head = file_encrypt::file_head(hs, sig is Some);
            let payload = encrypt::stream_payload(hs, chunks, sig);
            let status = transcript::signature_status(
                sig,
                expected,
                encrypt::stream_transcript(hs, chunks),
            );
            &&& file_decrypt::head_context(head, arm, pass) is Some
            &&& decrypt::opened_chunks(
                file_decrypt::with_payload(
                    file_decrypt::head_context(head, arm, pass)->0,
                    payload,
                ),
                expected,
            ) == with_status(chunks, status)
        }),
{
    let sk = keys::unlocked(arm, pass)->0;
    let v = encrypt::stream_envelope(hs, chunks, sig);
    let head = file_encrypt::file_head(hs, sig is Some);
    let front = EnvelopeView { ct_and_tag: file_decrypt::no_payload(), ..v };
    handshake::lemma_handshake_entries(hs, list, sender);
    assert(envelope::envelope_bytes(front) =~= head + file_decrypt::no_payload());
    envelope::lemma_envelope_roundtrip(front);
    handshake::lemma_handshake_roundtrip(hs, list, sender, i, sk, front);
    let ctx = file_decrypt::head_context(head, arm, pass)->0;
    let all = ContextView { parsed: v, rc: hs.rc, cek: hs.cek };
    assert(file_decrypt::with_payload(ctx, v.ct_and_tag) == all);
    lemma_stream_opens(v, chunks, hs, sig);
}

// ----------------------------------------------------------------------
// From the keys on a list to what their holders read
// ----------------------------------------------------------------------

/// Whether an armored secret belongs to the key `p` on the list of an envelope's
/// recipients. Left out are envelopes with a capsule that does not decapsulate, with
/// two equal capsules, or with an entry that opens to another key.
pub open spec fn is_reader(
    v: EnvelopeView,
    list: Seq<PublicView>,
    p: PublicView,
    arm: Seq<char>,
    pass: Seq<char>,
) -> bool {
    &&& list.contains(p)
    &&& forall|j: int| 0 <= j < list.len() ==> armor::valid_public(#[trigger] list[j])
    &&& keys::unlocked(arm, pass) matches Some(sk)
    &&& handshake::is_agreement_pair(p, sk)
    &&& handshake::capsules_open(v, p, sk)
    &&& handshake::entries_agree(v, sk)
}

/// What the sender of a whole message signed.
pub open spec fn signed_in(v: EnvelopeView) -> Seq<u8> {
    transcript::signed_whole(v.enc_ecdh, v.nonce, v.recipients_blob, v.rc, v.ct_and_tag)
}

/// Every recipient of a whole message gets its plaintext back: from the envelope and
/// from the armor, in one piece and as the only chunk, and from a file. The signature
/// is one of the signer, or there is none; without a signer the status is 0 to whom
/// expects none.
pub proof fn lemma_whole_read(
    bytes: Seq<u8>,
    v: EnvelopeView,
    pt: Seq<u8>,
    list: Seq<PublicView>,
    signer: Option<(Seq<char>, Seq<char>)>,
    p: PublicView,
    arm: Seq<char>,
    pass: Seq<char>,
    expected: Option<Seq<char>>,
)
    requires
        encrypt::encrypts_whole(bytes, pt, list, signer, v),
        is_reader(v, list, p, arm, pass),
    ensures
        ({
            let text = encode_utf8(message::armored(message::message_of_envelope(v)));
            let head = file_decrypt::envelope_head(v);
            let status = transcript::signature_status(v.signature, expected, signed_in(v));
            let whole = with_status(pt, status);
            let chunked = with_status(seq![pt], status);
            &&& encrypt::signed_by(v.signature, signer, signed_in(v))
            &&& signer is None && expected is None ==> status == Some(0i32)
            &&& decrypt::decrypted(bytes, arm, pass, expected) == whole
            &&& decrypt::decrypted_text(text, arm, pass, expected) == whole
            &&& decrypt::streamed(bytes, arm, pass, expected) == chunked
            &&& decrypt::streamed_text(text, arm, pass, expected) == chunked
            &&& bytes == head + v.ct_and_tag
            &&& file_decrypt::head_context(head, arm, pass) matches Some(h)
                && decrypt::opened_chunks(
                file_decrypt::with_payload(h, v.ct_and_tag),
                expected,
            ) == chunked
        }),
{
    let sk = keys::unlocked(arm, pass)->0;
    let (hs, sender) = choose|hs: HandshakeView, sender: SenderView|
        encrypt::is_whole_encryption(v, pt, list, signer, hs, sender);
    let ctx = ContextView { parsed: v, rc: hs.rc, cek: hs.cek };
    handshake::lemma_listed_recovers(hs, list, sender, p, sk, v);
    lemma_whole_opens(v, pt, list, signer, hs, sender, arm, pass, expected);
    handshake::lemma_handshake_entries(hs, list, sender);
    lemma_armor_as_binary(v, arm, pass, expected);
    file_decrypt::lemma_envelope_head(v, ctx, arm, pass);
}

/// The frames of a chunked message.
pub open spec fn frames_in(v: EnvelopeView) -> Seq<u8> {
    let end: int = if v.has_trailer {
        4 + TRAILER_HEAD_LEN + HYBRID_SIG_LEN
    } else {
        4
    };
    v.ct_and_tag.take(v.ct_and_tag.len() - end)
}

/// The signature in the trailer of a chunked message, if it has one.
pub open spec fn trailer_sig(v: EnvelopeView) -> Option<Seq<u8>> {
    if v.has_trailer {
        Some(v.ct_and_tag.skip(v.ct_and_tag.len() - HYBRID_SIG_LEN))
    } else {
        None
    }
}

/// What the sender of a chunked message signed.
pub open spec fn signed_frames(v: EnvelopeView) -> Seq<u8> {
    transcript::signed_stream(v.enc_ecdh, v.nonce, v.recipients_blob, v.rc, frames_in(v))
}

/// Every recipient of a chunked message gets its chunks back, from the envelope and
/// from a file, with the status of the trailer's signature; and joined, as one
/// plaintext without a header signature. The signature is one of the signer, or there
/// is none; without a signer the status is 0 to whom expects none.
///
/// From an envelope in memory, the empty message without a signature is left out: no
/// envelope with a payload shorter than a tag parses. From a file it is read too.
pub proof fn lemma_stream_read(
    bytes: Seq<u8>,
    v: EnvelopeView,
    chunks: Seq<Seq<u8>>,
    list: Seq<PublicView>,
    signer: Option<(Seq<char>, Seq<char>)>,
    p: PublicView,
    arm: Seq<char>,
    pass: Seq<char>,
    expected: Option<Seq<char>>,
)
    requires
        encrypt::encrypts_stream(bytes, chunks, list, signer, v),
        is_reader(v, list, p, arm, pass),
    ensures
        ({
            let head = file_decrypt::envelope_head(v);
            let status = transcript::signature_status(trailer_sig(v), expected, signed_frames(v));
            let header_status: i32 = if expected is Some {
                3
            } else {
                0
            };
            &&& encrypt::signed_by(trailer_sig(v), signer, signed_frames(v))
            &&& signer is None && expected is None ==> status == Some(0i32)
            &&& chunks.len() > 0 || signer is Some ==> {
                &&& decrypt::streamed(bytes, arm, pass, expected) == with_status(chunks, status)
                &&& decrypt::decrypted(bytes, arm, pass, expected) == Some(
                    (streaming::joined(chunks), header_status),
                )
            }
            &&& bytes == head + v.ct_and_tag
            &&& file_decrypt::head_context(head, arm, pass) matches Some(h)
                && decrypt::opened_chunks(
                file_decrypt::with_payload(h, v.ct_and_tag),
                expected,
            ) == with_status(chunks, status)
        }),
{
    let sk = keys::unlocked(arm, pass)->0;
    let (hs, sender, sig) = choose|hs: HandshakeView, sender: SenderView, sig: Option<Seq<u8>>|
        encrypt::is_stream_encryption(v, chunks, list, signer, hs, sender, sig);
    let ctx = ContextView { parsed: v, rc: hs.rc, cek: hs.cek };
    handshake::lemma_listed_recovers(hs, list, sender, p, sk, v);
    handshake::lemma_handshake_entries(hs, list, sender);
    lemma_sent_parts(v, chunks, hs, sig, signer);
    lemma_stream_given(v, chunks, hs, sig, signer, expected);
    file_decrypt::lemma_envelope_head(v, ctx, arm, pass);
    if chunks.len() > 0 || signer is Some {
        encrypt::lemma_stream_valid(v, chunks, list, signer, hs, sender, sig);
        envelope::lemma_envelope_roundtrip(v);
        assert(handshake::context_of(bytes, arm, pass) == Some(ctx));
    }
}

/// What who recovers the content key of a chunked message reads.
proof fn lemma_stream_given(
    v: EnvelopeView,
    chunks: Seq<Seq<u8>>,
    hs: HandshakeView,
    sig: Option<Seq<u8>>,
    signer: Option<(Seq<char>, Seq<char>)>,
    expected: Option<Seq<char>>,
)
    requires
        v == encrypt::stream_envelope(hs, chunks, sig),
        hs.stream_on,
        streaming::chunks_open(hs, chunks),
        streaming::chunks_fit(chunks),
        encrypt::signed_by(sig, signer, encrypt::stream_transcript(hs, chunks)),
    ensures
        ({
            let ctx = ContextView { parsed: v, rc: hs.rc, cek: hs.cek };
            let status = transcript::signature_status(
                sig,
                expected,
                encrypt::stream_transcript(hs, chunks),
            );
            let header_status: i32 = if expected is Some {
                3
            } else {
                0
            };
            &&& decrypt::opened_chunks(ctx, expected) == with_status(chunks, status)
            &&& decrypt::opened_content(ctx, expected) == Some(
                (streaming::joined(chunks), header_status),
            )
        }),
{
    lemma_stream_opens(v, chunks, hs, sig);
}

/// Where the frames and the signature of a chunked message stand.
proof fn lemma_sent_parts(
    v: EnvelopeView,
    chunks: Seq<Seq<u8>>,
    hs: HandshakeView,
    sig: Option<Seq<u8>>,
    signer: Option<(Seq<char>, Seq<char>)>,
)
    requires
        v == encrypt::stream_envelope(hs, chunks, sig),
        encrypt::signed_by(sig, signer, encrypt::stream_transcript(hs, chunks)),
    ensures
        frames_in(v) == streaming::frames_of(hs, chunks),
        trailer_sig(v) == sig,
{
    util::lemma_be32(crate::constants::TRAILER_SENTINEL_LEN as int, seq![]);
    assert(frames_in(v) =~= streaming::frames_of(hs, chunks));
    match sig {
        Some(s) => {
            assert(v.ct_and_tag.skip(v.ct_and_tag.len() - HYBRID_SIG_LEN) =~= s);
        },
        None => {},
    }
}

/// A generated public key can be encrypted to: encryption fails only for its other
/// reasons.
pub proof fn lemma_generated_key_accepted(
    public: Seq<char>,
    secret: Seq<char>,
    pass: Seq<char>,
    pt: Seq<u8>,
    signer: Option<(Seq<char>, Seq<char>)>,
    chunk_size: nat,
)
    requires
        keys::is_keypair(public, secret, pass),
    ensures
        encrypt::can_encrypt_whole(pt, public, signer) <==> encrypt::signer_ready(signer)
            && pt.len() <= XCHACHA_MAX_MSG,
        encrypt::can_encrypt_stream(pt, public, signer, chunk_size) <==> chunk_size > 0
            && encrypt::signer_ready(signer) && streaming::chunks_fit(
            streaming::chunks_of(pt, chunk_size),
        ),
        file_encrypt::can_begin(public, chunk_size) <==> chunk_size > 0,
{
    handshake::lemma_one_recipient(armor::public_of(public)->0);
}

/// Whoever generated a key pair reads what is encrypted to its public half, where the
/// capsule of the message decapsulates.
pub proof fn lemma_generated_key_reads(
    public: Seq<char>,
    secret: Seq<char>,
    pass: Seq<char>,
    v: EnvelopeView,
    hs: HandshakeView,
    sender: SenderView,
)
    requires
        keys::is_keypair(public, secret, pass),
        handshake::is_handshake(hs, armor::public_list(public)->0, sender),
        v.recipients_blob == hs.recipients_blob,
        handshake::capsules_open(
            v,
            armor::public_of(public)->0,
            keys::unlocked(secret, pass)->0,
        ),
    ensures
        is_reader(
            v,
            armor::public_list(public)->0,
            armor::public_of(public)->0,
            secret,
            pass,
        ),
{
    let p = armor::public_of(public)->0;
    let sk = keys::unlocked(secret, pass)->0;
    let list = armor::public_list(public)->0;
    armor::lemma_listed_valid(public);
    assert(list[0] == p);
    handshake::lemma_one_entry_agrees(hs, p, sender, sk, v);
}

/// What is encrypted whole to a generated public key decrypts under its secret half:
/// to the plaintext, with status 0 where nobody signed, with status 1 where the owner
/// of an expected key signed, from the envelope, from the armor and from a file.
///
/// Left out are messages whose capsule does not decapsulate, and signatures that begin
/// with the neutral point in their Ed25519 half.
pub proof fn lemma_generated_key_whole(
    public: Seq<char>,
    secret: Seq<char>,
    pass: Seq<char>,
    bytes: Seq<u8>,
    v: EnvelopeView,
    pt: Seq<u8>,
    signer: Option<(Seq<char>, Seq<char>)>,
    expected: Option<Seq<char>>,
)
    requires
        keys::is_keypair(public, secret, pass),
        encrypt::encrypts_whole(bytes, pt, armor::public_list(public)->0, signer, v),
        handshake::capsules_open(
            v,
            armor::public_of(public)->0,
            keys::unlocked(secret, pass)->0,
        ),
        signer matches Some(s) ==> {
            &&& expected matches Some(e) && belongs_to(e, s)
            &&& v.signature matches Some(sig) ==> transcript::is_regular(sig)
        },
        signer is None ==> expected is None,
    ensures
        ({
            let text = encode_utf8(message::armored(message::message_of_envelope(v)));
            let head = file_decrypt::envelope_head(v);
            let status: i32 = if signer is Some {
                1
            } else {
                0
            };
            &&& decrypt::decrypted(bytes, secret, pass, expected) == Some((pt, status))
            &&& decrypt::decrypted_text(text, secret, pass, expected) == Some((pt, status))
            &&& decrypt::streamed(bytes, secret, pass, expected) == Some((seq![pt], status))
            &&& decrypt::streamed_text(text, secret, pass, expected) == Some((seq![pt], status))
            &&& bytes == head + v.ct_and_tag
            &&& file_decrypt::head_context(head, secret, pass) matches Some(h)
                && decrypt::opened_chunks(
                file_decrypt::with_payload(h, v.ct_and_tag),
                expected,
            ) == Some((seq![pt], status))
        }),
{
    let list = armor::public_list(public)->0;
    let p = armor::public_of(public)->0;
    let (hs, sender) = choose|hs: HandshakeView, sender: SenderView|
        encrypt::is_whole_encryption(v, pt, list, signer, hs, sender);
    lemma_generated_key_reads(public, secret, pass, v, hs, sender);
    lemma_whole_read(bytes, v, pt, list, signer, p, secret, pass, expected);
    if signer is Some {
        lemma_signed_status(v.signature, signer, signed_in(v), expected->0);
    }
}

/// What is encrypted in chunks to a generated public key decrypts under its secret
/// half: to the chunks, with status 0 where nobody signed, with status 1 where the
/// owner of an expected key signed, from the envelope and from a file.
///
/// Left out is what [`lemma_generated_key_whole`] leaves out, and from an envelope in
/// memory the empty message without a signature.
pub proof fn lemma_generated_key_stream(
    public: Seq<char>,
    secret: Seq<char>,
    pass: Seq<char>,
    bytes: Seq<u8>,
    v: EnvelopeView,
    chunks: Seq<Seq<u8>>,
    signer: Option<(Seq<char>, Seq<char>)>,
    expected: Option<Seq<char>>,
)
    requires
        keys::is_keypair(public, secret, pass),
        encrypt::encrypts_stream(bytes, chunks, armor::public_list(public)->0, signer, v),
        handshake::capsules_open(
            v,
            armor::public_of(public)->0,
            keys::unlocked(secret, pass)->0,
        ),
        signer matches Some(s) ==> {
            &&& expected matches Some(e) && belongs_to(e, s)
            &&& trailer_sig(v) matches Some(sig) ==> transcript::is_regular(sig)
        },
        signer is None ==> expected is None,
    ensures
        ({
            let head = file_decrypt::envelope_head(v);
            let status: i32 = if signer is Some {
                1
            } else {
                0
            };
            &&& chunks.len() > 0 || signer is Some ==> decrypt::streamed(
                bytes,
                secret,
                pass,
                expected,
            ) == Some((chunks, status))
            &&& bytes == head + v.ct_and_tag
            &&& file_decrypt::head_context(head, secret, pass) matches Some(h)
                && decrypt::opened_chunks(
                file_decrypt::with_payload(h, v.ct_and_tag),
                expected,
            ) == Some((chunks, status))
        }),
{
    let list = armor::public_list(public)->0;
    let p = armor::public_of(public)->0;
    let (hs, sender, sig) = choose|hs: HandshakeView, sender: SenderView, sig: Option<Seq<u8>>|
        encrypt::is_stream_encryption(v, chunks, list, signer, hs, sender, sig);
    lemma_generated_key_reads(public, secret, pass, v, hs, sender);
    lemma_stream_read(bytes, v, chunks, list, signer, p, secret, pass, expected);
    if signer is Some {
        lemma_signed_status(trailer_sig(v), signer, signed_frames(v), expected->0);
    }
}

// ----------------------------------------------------------------------
// What was tampered with
// ----------------------------------------------------------------------

/// An unsigned message into whose armor a signature field is inserted that is not
/// Base64 decrypts as before to whom expects no signature; to whom expects one, the
/// signature is invalid, not missing.
pub proof fn lemma_unreadable_signature_status(
    v: message::MessageView,
    sig_text: Seq<char>,
    arm: Seq<char>,
    pass: Seq<char>,
    expected: Option<Seq<char>>,
)
    requires
        message::valid_message(v),
        v.signature is None,
        block::bare(sig_text),
        base64_text::b64_bytes(sig_text) is None,
    ensures
        decrypt::decrypted_text(
            encode_utf8(message::armored_with(v, Some(sig_text))),
            arm,
            pass,
            expected,
        ) == match decrypt::decrypted_text(
            encode_utf8(message::armored(v)),
            arm,
            pass,
            expected,
        ) {
            Some((pt, status)) => Some(
                (
                    pt,
                    if expected is Some {
                        2i32
                    } else {
                        status
                    },
                ),
            ),
            None => None,
        },
{
    let plain = message::armored(v);
    let with_field = message::armored_with(v, Some(sig_text));
    message::lemma_unreadable_signature(v, sig_text);
    message::lemma_message_roundtrip(v);
    encode_utf8_valid_utf8(plain);
    encode_utf8_decode_utf8(plain);
    encode_utf8_valid_utf8(with_field);
    encode_utf8_decode_utf8(with_field);
}

/// A signature that does not verify under the expected key is invalid. Whether one that
/// was made with other keys can verify is left open: it is a question of forgery.
pub proof fn lemma_other_key_status(sig: Seq<u8>, transcript: Seq<u8>, other: Seq<char>)
    requires
        armor::public_of(other) matches Some(q) && !transcript::hybrid_verifies(
            q,
            transcript,
            sig,
        ),
    ensures
        transcript::signature_status(Some(sig), Some(other), transcript) == Some(2i32),
{
}

/// A whole message whose recipients were replaced decrypts only where its payload
/// opens under additional data that is not the sender's. Whether a payload can is left
/// open: it is a question of forgery.
pub proof fn lemma_grafted_recipients(
    v: EnvelopeView,
    w: EnvelopeView,
    arm: Seq<char>,
    pass: Seq<char>,
    expected: Option<Seq<char>>,
)
    requires
        envelope::valid_envelope(w),
        !w.stream,
        w.ct_and_tag == v.ct_and_tag,
        w.recipients_blob != v.recipients_blob,
        decrypt::decrypted(envelope::envelope_bytes(w), arm, pass, expected) is Some,
    ensures
        ({
            let sent = transcript::content_aad(
                v.enc_ecdh,
                v.nonce,
                v.recipients_blob,
                v.stream,
            );
            exists|cek: Seq<u8>, aad: Seq<u8>|
                aad != sent && #[trigger] crypto::xchacha_open(
                    cek,
                    w.nonce,
                    aad,
                    v.ct_and_tag,
                ) is Some
        }),
{
    envelope::lemma_envelope_roundtrip(w);
    let ctx = handshake::context_of(envelope::envelope_bytes(w), arm, pass)->0;
    let sent = transcript::content_aad(v.enc_ecdh, v.nonce, v.recipients_blob, v.stream);
    let aad = decrypt::context_aad(ctx);
    if aad == sent {
        transcript::lemma_aad_binds(
            w.enc_ecdh,
            w.nonce,
            w.recipients_blob,
            w.stream,
            v.enc_ecdh,
            v.nonce,
            v.recipients_blob,
            v.stream,
        );
    }
    assert(crypto::xchacha_open(ctx.cek, w.nonce, aad, v.ct_and_tag) is Some);
}

/// An envelope whose stored commitment is not that of its recipients decrypts for
/// nobody; nor does any envelope under a blank passphrase.
pub proof fn lemma_commitment_checked(
    bytes: Seq<u8>,
    arm: Seq<char>,
    pass: Seq<char>,
    expected: Option<Seq<char>>,
)
    requires
        ({
            ||| text::trim(pass).len() == 0
            ||| envelope::parsed(bytes) matches Some(v) && v.rc != message::commitment_of(
                v.recipients_blob,
            )
        }),
    ensures
        handshake::context_of(bytes, arm, pass) is None,
        decrypt::decrypted(bytes, arm, pass, expected) is None,
        decrypt::streamed(bytes, arm, pass, expected) is None,
{
}

} // verus!
