//! Encrypting messages in memory.

use vstd::prelude::*;
use vstd::slice::*;
use vstd::string::*;
use vstd::utf8::*;

use crate::armor;
use crate::constants::{TAG_LEN, TRAILER_SENTINEL_LEN};
use crate::context::{EncryptHandshake, HandshakeView};
use crate::crypto;
use crate::crypto::{wipe_vec, xchacha20poly1305_seal, XCHACHA_MAX_MSG};
use crate::envelope;
use crate::envelope::{encode_envelope_binary, EnvelopeView};
use crate::handshake;
use crate::handshake::{build_encrypt_handshake, SenderView};
use crate::keys;
use crate::keys::{unlock_secret, PublicView, SecretBundle, SecretView};
use crate::message;
use crate::message::armor_from_binary;
use crate::recipients;
use crate::streaming;
use crate::streaming::{encrypt_stream_chunks, signature_trailer, RunningDigest};
use crate::transcript;
use crate::transcript::{aad_for, hybrid_sign, transcript_stream, transcript_whole, HYBRID_SIG_LEN};
use crate::util;
use crate::util::be_bytes;

verus! {

/// Whether a payload is encrypted whole or in chunks.
pub enum StreamMode {
    Off,
    On { chunk_size: usize },
}

// ----------------------------------------------------------------------
// Signers
// ----------------------------------------------------------------------

/// What a signer holds: an armored secret and its passphrase.
pub open spec fn signer_view(signer: Option<(&str, &str)>) -> Option<(Seq<char>, Seq<char>)> {
    match signer {
        Some(s) => Some((s.0@, s.1@)),
        None => None,
    }
}

/// Whether a signer, if there is one, can sign: the secret unlocks.
pub open spec fn signer_ready(signer: Option<(Seq<char>, Seq<char>)>) -> bool {
    match signer {
        Some((arm, pass)) => keys::unlocked(arm, pass) is Some,
        None => true,
    }
}

/// Whether `sig` is a signature of the signer over a transcript, or none where
/// there is no signer.
pub open spec fn signed_by(
    sig: Option<Seq<u8>>,
    signer: Option<(Seq<char>, Seq<char>)>,
    transcript: Seq<u8>,
) -> bool {
    match (sig, signer) {
        (None, None) => true,
        (Some(s), Some((arm, pass))) => {
            keys::unlocked(arm, pass) matches Some(sk) && transcript::is_hybrid_signature(
                sk,
                transcript,
                s,
            )
        },
        _ => false,
    }
}

/// Length of the signature that a signer makes.
pub open spec fn signer_len(signer: Option<(Seq<char>, Seq<char>)>) -> nat {
    match signer {
        Some(_) => HYBRID_SIG_LEN as nat,
        None => 0,
    }
}

/// Signs a transcript, if there is a signer. Fails exactly when the signer's
/// secret does not unlock.
fn sign_with(signer: Option<(&str, &str)>, transcript: &[u8]) -> (sig: Result<Option<Vec<u8>>, ()>)
    ensures
        sig is Ok <==> signer_ready(signer_view(signer)),
        sig matches Ok(s) ==> signed_by(
            envelope::opt_view(s),
            signer_view(signer),
            transcript@,
        ),
{
    match signer {
        Some((arm, pass)) => match unlock_secret(arm, pass) {
            Ok(sk) => Ok(Some(hybrid_sign(&sk, transcript))),
            Err(_) => Err(()),
        },
        None => Ok(None),
    }
}

/// Whether a header with a recipients blob and a signature of these lengths fits
/// an envelope.
pub fn header_fits(blob_len: usize, sig_len: usize) -> (r: bool)
    ensures
        r == (96 + blob_len + sig_len <= u32::MAX),
{
    let blob: u64 = blob_len as u64;
    let sig: u64 = sig_len as u64;
    blob <= 0xFFFF_FFFF - 96 && sig <= 0xFFFF_FFFF - 96 - blob
}

// ----------------------------------------------------------------------
// Whole payloads
// ----------------------------------------------------------------------

/// The ciphertext and tag of a whole payload.
pub open spec fn whole_ct(hs: HandshakeView, pt: Seq<u8>) -> Seq<u8> {
    crypto::xchacha_seal(
        hs.cek,
        hs.nonce,
        transcript::content_aad(hs.enc_ecdh, hs.nonce, hs.recipients_blob, false),
        pt,
    )
}

/// Whether the ciphertext of a whole payload opens to it.
pub open spec fn whole_opens(hs: HandshakeView, pt: Seq<u8>) -> bool {
    &&& whole_ct(hs, pt).len() == pt.len() + TAG_LEN
    &&& crypto::xchacha_open(
        hs.cek,
        hs.nonce,
        transcript::content_aad(hs.enc_ecdh, hs.nonce, hs.recipients_blob, false),
        whole_ct(hs, pt),
    ) == Some(pt)
}

/// What the sender of a whole payload signs.
pub open spec fn whole_transcript(hs: HandshakeView, pt: Seq<u8>) -> Seq<u8> {
    transcript::signed_whole(
        hs.enc_ecdh,
        hs.nonce,
        hs.recipients_blob,
        hs.rc,
        whole_ct(hs, pt),
    )
}

/// The envelope of a whole payload.
pub open spec fn whole_envelope(
    hs: HandshakeView,
    pt: Seq<u8>,
    sig: Option<Seq<u8>>,
) -> EnvelopeView {
    EnvelopeView {
        enc_ecdh: hs.enc_ecdh,
        nonce: hs.nonce,
        recipients_blob: hs.recipients_blob,
        ct_and_tag: whole_ct(hs, pt),
        signature: sig,
        stream: false,
        rc: hs.rc,
        has_trailer: false,
    }
}

/// Whether `v` is the envelope of a whole payload `pt` for the recipients of
/// `list`, signed by the signer.
pub open spec fn is_whole_encryption(
    v: EnvelopeView,
    pt: Seq<u8>,
    list: Seq<PublicView>,
    signer: Option<(Seq<char>, Seq<char>)>,
    hs: HandshakeView,
    sender: SenderView,
) -> bool {
    &&& handshake::is_handshake(hs, list, sender)
    &&& !hs.stream_on
    &&& sender.caps.len() > 0
    &&& whole_opens(hs, pt)
    &&& pt.len() <= XCHACHA_MAX_MSG
    &&& signed_by(v.signature, signer, whole_transcript(hs, pt))
    &&& v == whole_envelope(hs, pt, v.signature)
    &&& envelope::valid_envelope(v)
}

/// Whether `bytes` is a binary envelope that encrypts `pt`.
pub open spec fn is_encrypted_whole(
    bytes: Seq<u8>,
    pt: Seq<u8>,
    list: Seq<PublicView>,
    signer: Option<(Seq<char>, Seq<char>)>,
) -> bool {
    exists|v: EnvelopeView| encrypts_whole(bytes, pt, list, signer, v)
}

/// Whether `bytes` is the binary envelope of `v`, which encrypts `pt`.
pub open spec fn encrypts_whole(
    bytes: Seq<u8>,
    pt: Seq<u8>,
    list: Seq<PublicView>,
    signer: Option<(Seq<char>, Seq<char>)>,
    v: EnvelopeView,
) -> bool {
    &&& bytes == envelope::envelope_bytes(v)
    &&& exists|hs: HandshakeView, sender: SenderView|
        is_whole_encryption(v, pt, list, signer, hs, sender)
}

/// Whether a message can be encrypted whole: the recipients can be read, the
/// signer can sign, the message is not too long, and the header fits an envelope.
pub open spec fn can_encrypt_whole(
    pt: Seq<u8>,
    recipients_armored: Seq<char>,
    signer: Option<(Seq<char>, Seq<char>)>,
) -> bool {
    &&& armor::public_list(recipients_armored) matches Some(list) && 96 + recipients::ENTRY_LEN
        * handshake::recipient_count(list) + signer_len(signer) <= u32::MAX
    &&& signer_ready(signer)
    &&& pt.len() <= XCHACHA_MAX_MSG
}

/// Encrypts a whole payload under a handshake.
fn seal_whole(hs: &EncryptHandshake, pt: &[u8]) -> (ct: Result<Vec<u8>, ()>)
    ensures
        ct is Ok <==> pt@.len() <= XCHACHA_MAX_MSG,
        ct matches Ok(c) ==> c@ == whole_ct(hs@, pt@) && whole_opens(hs@, pt@),
{
    if pt.len() as u64 > XCHACHA_MAX_MSG {
        return Err(());
    }
    let aad: Vec<u8> = aad_for(&hs.enc_ecdh, &hs.nonce, hs.recipients_blob.as_slice(), false);
    xchacha20poly1305_seal(hs.cek(), &hs.nonce, aad.as_slice(), pt)
}

/// Whether `bytes` is the binary envelope of a whole payload under a handshake,
/// with the given signature.
pub open spec fn sealed_whole(
    bytes: Seq<u8>,
    hs: HandshakeView,
    pt: Seq<u8>,
    signer: Option<(Seq<char>, Seq<char>)>,
    sig: Option<Seq<u8>>,
) -> bool {
    &&& whole_opens(hs, pt)
    &&& signed_by(sig, signer, whole_transcript(hs, pt))
    &&& bytes == envelope::envelope_bytes(whole_envelope(hs, pt, sig))
}

/// Whether `bytes` is a binary envelope of a whole payload under a handshake,
/// signed by the signer.
pub open spec fn is_sealed_whole(
    bytes: Seq<u8>,
    hs: HandshakeView,
    pt: Seq<u8>,
    signer: Option<(Seq<char>, Seq<char>)>,
) -> bool {
    exists|sig: Option<Seq<u8>>| sealed_whole(bytes, hs, pt, signer, sig)
}

/// Encrypts a whole payload under a handshake, signs it if there is a signer, and
/// serializes the envelope. Fails exactly when the payload is too long, the
/// signer cannot sign, or the header does not fit an envelope.
pub fn seal_message(hs: &EncryptHandshake, bytes: &[u8], signer: Option<(&str, &str)>) -> (env:
    Result<Vec<u8>, ()>)
    ensures
        env is Ok <==> {
            &&& bytes@.len() <= XCHACHA_MAX_MSG
            &&& signer_ready(signer_view(signer))
            &&& 96 + hs@.recipients_blob.len() + signer_len(signer_view(signer)) <= u32::MAX
        },
        env matches Ok(e) ==> is_sealed_whole(e@, hs@, bytes@, signer_view(signer)),
{
    let ct: Vec<u8> = match seal_whole(hs, bytes) {
        Ok(c) => c,
        Err(_) => {
            return Err(());
        },
    };
    let transcript: Vec<u8> = match signer {
        Some(_) => transcript_whole(
            &hs.enc_ecdh,
            &hs.nonce,
            hs.recipients_blob.as_slice(),
            &hs.rc,
            ct.as_slice(),
        ),
        None => Vec::new(),
    };
    let signature: Option<Vec<u8>> = match sign_with(signer, transcript.as_slice()) {
        Ok(s) => s,
        Err(_) => {
            return Err(());
        },
    };
    let sig_len: usize = match &signature {
        Some(s) => s.len(),
        None => 0,
    };
    if !header_fits(hs.recipients_blob.len(), sig_len) {
        return Err(());
    }
    let ghost sig = envelope::opt_view(signature);
    let blob: Vec<u8> = slice_to_vec(hs.recipients_blob.as_slice());
    let env: Vec<u8> = encode_envelope_binary(
        hs.enc_ecdh,
        hs.nonce,
        blob,
        ct,
        signature,
        0,
        hs.rc,
    );
    assert(sealed_whole(env@, hs@, bytes@, signer_view(signer), sig));
    Ok(env)
}

/// Encrypts a message whole. The result is the binary envelope.
fn encrypt_whole(bytes: &[u8], recipients_armored: &str, signer: Option<(&str, &str)>) -> (env:
    Result<Vec<u8>, ()>)
    ensures
        env is Ok <==> can_encrypt_whole(bytes@, recipients_armored@, signer_view(signer)),
        env matches Ok(e) ==> is_encrypted_whole(
            e@,
            bytes@,
            armor::public_list(recipients_armored@)->0,
            signer_view(signer),
        ),
{
    let hs: EncryptHandshake = match build_encrypt_handshake(recipients_armored, false) {
        Ok(h) => h,
        Err(_) => {
            return Err(());
        },
    };
    let env: Result<Vec<u8>, ()> = seal_message(&hs, bytes, signer);
    proof {
        if env is Ok {
            lemma_encrypts_whole(
                env->Ok_0@,
                bytes@,
                armor::public_list(recipients_armored@)->0,
                signer_view(signer),
                hs@,
            );
        }
    }
    env
}

/// A payload sealed under a handshake with the recipients of a list is encrypted
/// for them.
proof fn lemma_encrypts_whole(
    bytes: Seq<u8>,
    pt: Seq<u8>,
    list: Seq<PublicView>,
    signer: Option<(Seq<char>, Seq<char>)>,
    hs: HandshakeView,
)
    requires
        exists|sender: SenderView| handshake::is_handshake(hs, list, sender),
        is_sealed_whole(bytes, hs, pt, signer),
        list.len() > 0,
        !hs.stream_on,
        pt.len() <= XCHACHA_MAX_MSG,
        96 + hs.recipients_blob.len() + signer_len(signer) <= u32::MAX,
    ensures
        is_encrypted_whole(bytes, pt, list, signer),
{
    let sender = choose|sender: SenderView| handshake::is_handshake(hs, list, sender);
    let sig = choose|sig: Option<Seq<u8>>| sealed_whole(bytes, hs, pt, signer, sig);
    let v = whole_envelope(hs, pt, sig);
    handshake::lemma_handshake_not_empty(hs, list, sender);
    lemma_whole_valid(hs, list, sender, pt, sig);
    assert(is_whole_encryption(v, pt, list, signer, hs, sender));
    assert(encrypts_whole(bytes, pt, list, signer, v));
}

/// The envelope of a whole payload is valid if its header fits.
proof fn lemma_whole_valid(
    hs: HandshakeView,
    list: Seq<PublicView>,
    sender: SenderView,
    pt: Seq<u8>,
    sig: Option<Seq<u8>>,
)
    requires
        handshake::is_handshake(hs, list, sender),
        sender.caps.len() > 0,
        whole_opens(hs, pt),
        sig matches Some(s) ==> s.len() == HYBRID_SIG_LEN,
        envelope::header_len(hs.recipients_blob, sig) <= u32::MAX,
    ensures
        envelope::valid_envelope(whole_envelope(hs, pt, sig)),
{
    handshake::lemma_handshake_entries(hs, list, sender);
}

// ----------------------------------------------------------------------
// Chunked payloads
// ----------------------------------------------------------------------

/// A chunked payload: the frames, then the signature trailer or the end marker
/// alone.
pub open spec fn stream_payload(
    hs: HandshakeView,
    chunks: Seq<Seq<u8>>,
    sig: Option<Seq<u8>>,
) -> Seq<u8> {
    streaming::frames_of(hs, chunks) + match sig {
        Some(s) => streaming::trailer_bytes(s),
        None => util::be32(TRAILER_SENTINEL_LEN as int),
    }
}

/// What the sender of a chunked payload signs.
pub open spec fn stream_transcript(hs: HandshakeView, chunks: Seq<Seq<u8>>) -> Seq<u8> {
    transcript::signed_stream(
        hs.enc_ecdh,
        hs.nonce,
        hs.recipients_blob,
        hs.rc,
        streaming::frames_of(hs, chunks),
    )
}

/// The envelope of a chunked payload.
pub open spec fn stream_envelope(
    hs: HandshakeView,
    chunks: Seq<Seq<u8>>,
    sig: Option<Seq<u8>>,
) -> EnvelopeView {
    EnvelopeView {
        enc_ecdh: hs.enc_ecdh,
        nonce: hs.nonce,
        recipients_blob: hs.recipients_blob,
        ct_and_tag: stream_payload(hs, chunks, sig),
        signature: None,
        stream: true,
        rc: hs.rc,
        has_trailer: sig is Some,
    }
}

/// Whether `v` is the envelope of the chunks for the recipients of `list`, signed
/// by the signer.
pub open spec fn is_stream_encryption(
    v: EnvelopeView,
    chunks: Seq<Seq<u8>>,
    list: Seq<PublicView>,
    signer: Option<(Seq<char>, Seq<char>)>,
    hs: HandshakeView,
    sender: SenderView,
    sig: Option<Seq<u8>>,
) -> bool {
    &&& handshake::is_handshake(hs, list, sender)
    &&& hs.stream_on
    &&& sender.caps.len() > 0
    &&& streaming::chunks_open(hs, chunks)
    &&& streaming::chunks_fit(chunks)
    &&& signed_by(sig, signer, stream_transcript(hs, chunks))
    &&& v == stream_envelope(hs, chunks, sig)
    &&& envelope::header_len(hs.recipients_blob, None) <= u32::MAX
}

/// Whether `bytes` is a binary envelope that encrypts the chunks.
pub open spec fn is_encrypted_stream(
    bytes: Seq<u8>,
    chunks: Seq<Seq<u8>>,
    list: Seq<PublicView>,
    signer: Option<(Seq<char>, Seq<char>)>,
) -> bool {
    exists|v: EnvelopeView| encrypts_stream(bytes, chunks, list, signer, v)
}

/// Whether `bytes` is the binary envelope of `v`, which encrypts the chunks.
pub open spec fn encrypts_stream(
    bytes: Seq<u8>,
    chunks: Seq<Seq<u8>>,
    list: Seq<PublicView>,
    signer: Option<(Seq<char>, Seq<char>)>,
    v: EnvelopeView,
) -> bool {
    &&& bytes == envelope::envelope_bytes(v)
    &&& exists|hs: HandshakeView, sender: SenderView, sig: Option<Seq<u8>>|
        is_stream_encryption(v, chunks, list, signer, hs, sender, sig)
}

/// Whether a message can be encrypted in chunks: the chunk size is not zero, the
/// recipients can be read, the signer can sign, the chunks fit, and so does the
/// header.
pub open spec fn can_encrypt_stream(
    pt: Seq<u8>,
    recipients_armored: Seq<char>,
    signer: Option<(Seq<char>, Seq<char>)>,
    chunk_size: nat,
) -> bool {
    &&& chunk_size > 0
    &&& armor::public_list(recipients_armored) matches Some(list) && 96 + recipients::ENTRY_LEN
        * handshake::recipient_count(list) <= u32::MAX
    &&& signer_ready(signer)
    &&& streaming::chunks_fit(streaming::chunks_of(pt, chunk_size))
}

/// Whether `bytes` is the binary envelope of chunks under a handshake, with the
/// given signature.
pub open spec fn sealed_stream(
    bytes: Seq<u8>,
    hs: HandshakeView,
    chunks: Seq<Seq<u8>>,
    signer: Option<(Seq<char>, Seq<char>)>,
    sig: Option<Seq<u8>>,
) -> bool {
    &&& streaming::chunks_open(hs, chunks)
    &&& signed_by(sig, signer, stream_transcript(hs, chunks))
    &&& bytes == envelope::envelope_bytes(stream_envelope(hs, chunks, sig))
}

/// Whether `end` is the trailer of the signature `sig`, which the keys made over a
/// chunked payload whose frames have the given digest.
pub open spec fn signed_end(
    end: Seq<u8>,
    hs: HandshakeView,
    sk: SecretView,
    digest: Seq<u8>,
    sig: Seq<u8>,
) -> bool {
    &&& transcript::is_hybrid_signature(
        sk,
        transcript::signed_digest(hs.enc_ecdh, hs.nonce, hs.recipients_blob, hs.rc, digest),
        sig,
    )
    &&& end == streaming::trailer_bytes(sig)
}

/// The signature trailer of unlocked keys over the digest of the frames.
pub fn sign_payload_end(hs: &EncryptHandshake, keys: &SecretBundle, digest: &[u8; 32]) -> (end: Vec<
    u8,
>)
    requires
        keys::valid_secret(keys@),
    ensures
        exists|sig: Seq<u8>| signed_end(end@, hs@, keys@, digest@, sig),
{
    let transcript: Vec<u8> = transcript_stream(
        &hs.enc_ecdh,
        &hs.nonce,
        hs.recipients_blob.as_slice(),
        &hs.rc,
        digest,
    );
    let mut sig: Vec<u8> = hybrid_sign(keys, transcript.as_slice());
    let ghost made = sig@;
    let end: Vec<u8> = match signature_trailer(sig.as_slice()) {
        Ok(e) => e,
        Err(_) => Vec::new(),
    };
    assert(signed_end(end@, hs@, keys@, digest@, made));
    wipe_vec(&mut sig);
    end
}

/// What ends a chunked payload: the signature trailer of a signer over the digest
/// of the frames, or the end marker alone. Fails exactly when the signer cannot
/// sign.
pub fn end_payload(hs: &EncryptHandshake, signer: Option<(&str, &str)>, digest: &[u8; 32]) -> (end:
    Result<Vec<u8>, ()>)
    ensures
        end is Ok <==> signer_ready(signer_view(signer)),
        end matches Ok(e) ==> is_payload_end(e@, hs@, signer_view(signer), digest@),
{
    match signer {
        Some((arm, pass)) => {
            let keys: SecretBundle = match unlock_secret(arm, pass) {
                Ok(k) => k,
                Err(_) => {
                    return Err(());
                },
            };
            let end: Vec<u8> = sign_payload_end(hs, &keys, digest);
            proof {
                let sig = choose|sig: Seq<u8>| signed_end(end@, hs@, keys@, digest@, sig);
                assert(ends_payload(end@, hs@, signer_view(signer), digest@, Some(sig)));
            }
            Ok(end)
        },
        None => {
            let end: Vec<u8> = slice_to_vec(be_bytes(TRAILER_SENTINEL_LEN).as_slice());
            assert(ends_payload(end@, hs@, signer_view(signer), digest@, None));
            Ok(end)
        },
    }
}

/// Whether `end` ends a chunked payload whose frames have the given digest: with
/// the trailer of `sig`, or with the end marker alone.
pub open spec fn ends_payload(
    end: Seq<u8>,
    hs: HandshakeView,
    signer: Option<(Seq<char>, Seq<char>)>,
    digest: Seq<u8>,
    sig: Option<Seq<u8>>,
) -> bool {
    &&& signed_by(sig, signer, transcript::signed_digest(
        hs.enc_ecdh,
        hs.nonce,
        hs.recipients_blob,
        hs.rc,
        digest,
    ))
    &&& end == match sig {
        Some(s) => streaming::trailer_bytes(s),
        None => util::be32(TRAILER_SENTINEL_LEN as int),
    }
}

/// Whether `end` ends a chunked payload whose frames have the given digest.
pub open spec fn is_payload_end(
    end: Seq<u8>,
    hs: HandshakeView,
    signer: Option<(Seq<char>, Seq<char>)>,
    digest: Seq<u8>,
) -> bool {
    exists|sig: Option<Seq<u8>>| ends_payload(end, hs, signer, digest, sig)
}

/// Whether `payload` holds the chunks of a message, and ends with the given
/// signature.
pub open spec fn holds_chunks(
    payload: Seq<u8>,
    hs: HandshakeView,
    chunks: Seq<Seq<u8>>,
    signer: Option<(Seq<char>, Seq<char>)>,
    sig: Option<Seq<u8>>,
) -> bool {
    &&& streaming::chunks_open(hs, chunks)
    &&& signed_by(sig, signer, stream_transcript(hs, chunks))
    &&& payload == stream_payload(hs, chunks, sig)
}

/// Whether `payload` holds the chunks of a message, signed by the signer.
pub open spec fn is_stream_payload(
    payload: Seq<u8>,
    hs: HandshakeView,
    chunks: Seq<Seq<u8>>,
    signer: Option<(Seq<char>, Seq<char>)>,
) -> bool {
    exists|sig: Option<Seq<u8>>| holds_chunks(payload, hs, chunks, signer, sig)
}

/// Encrypts a message in chunks under a handshake, and signs it if there is a
/// signer. Fails exactly when the chunks do not fit or the signer cannot sign.
fn build_stream_payload(
    hs: &EncryptHandshake,
    bytes: &[u8],
    signer: Option<(&str, &str)>,
    chunk_size: usize,
) -> (payload: Result<Vec<u8>, ()>)
    ensures
        payload is Ok <==> streaming::chunks_fit(
            streaming::chunks_of(bytes@, chunk_size as nat),
        ) && signer_ready(signer_view(signer)),
        payload matches Ok(p) ==> is_stream_payload(
            p@,
            hs@,
            streaming::chunks_of(bytes@, chunk_size as nat),
            signer_view(signer),
        ),
{
    let ghost chunks = streaming::chunks_of(bytes@, chunk_size as nat);
    let mut payload: Vec<u8> = Vec::new();
    if signer.is_none() {
        if encrypt_stream_chunks(hs, bytes, &mut payload, chunk_size, None).is_err() {
            return Err(());
        }
        payload.extend_from_slice(be_bytes(TRAILER_SENTINEL_LEN).as_slice());
        proof {
            assert(payload@ =~= stream_payload(hs@, chunks, None));
            assert(holds_chunks(payload@, hs@, chunks, signer_view(signer), None));
        }
        return Ok(payload);
    }
    let mut digest: RunningDigest = RunningDigest::new();
    if encrypt_stream_chunks(hs, bytes, &mut payload, chunk_size, Some(&mut digest)).is_err() {
        return Err(());
    }
    assert(payload@ =~= streaming::frames_of(hs@, chunks));
    assert(digest@ =~= payload@);
    let digest_bytes: [u8; 32] = digest.finalize();
    let end: Vec<u8> = match end_payload(hs, signer, &digest_bytes) {
        Ok(e) => e,
        Err(_) => {
            return Err(());
        },
    };
    payload.extend_from_slice(end.as_slice());
    proof {
        let sig = choose|sig: Option<Seq<u8>>|
            ends_payload(end@, hs@, signer_view(signer), digest_bytes@, sig);
        assert(payload@ =~= stream_payload(hs@, chunks, sig));
        assert(holds_chunks(payload@, hs@, chunks, signer_view(signer), sig));
    }
    Ok(payload)
}

/// Whether `bytes` is a binary envelope of chunks under a handshake, signed by
/// the signer.
pub open spec fn is_sealed_stream(
    bytes: Seq<u8>,
    hs: HandshakeView,
    chunks: Seq<Seq<u8>>,
    signer: Option<(Seq<char>, Seq<char>)>,
) -> bool {
    exists|sig: Option<Seq<u8>>| sealed_stream(bytes, hs, chunks, signer, sig)
}

/// Encrypts a message in chunks under a handshake, signs it if there is a signer,
/// and serializes the envelope. Fails exactly when the chunks do not fit, the
/// signer cannot sign, or the header does not fit an envelope.
pub fn seal_stream_message(
    hs: &EncryptHandshake,
    bytes: &[u8],
    signer: Option<(&str, &str)>,
    chunk_size: usize,
) -> (env: Result<Vec<u8>, ()>)
    ensures
        env is Ok <==> {
            &&& streaming::chunks_fit(streaming::chunks_of(bytes@, chunk_size as nat))
            &&& signer_ready(signer_view(signer))
            &&& 96 + hs@.recipients_blob.len() <= u32::MAX
        },
        env matches Ok(e) ==> is_sealed_stream(
            e@,
            hs@,
            streaming::chunks_of(bytes@, chunk_size as nat),
            signer_view(signer),
        ),
{
    let ghost chunks = streaming::chunks_of(bytes@, chunk_size as nat);
    let payload: Vec<u8> = match build_stream_payload(hs, bytes, signer, chunk_size) {
        Ok(p) => p,
        Err(_) => {
            return Err(());
        },
    };
    let ghost sig = choose|sig: Option<Seq<u8>>|
        holds_chunks(payload@, hs@, chunks, signer_view(signer), sig);
    if !header_fits(hs.recipients_blob.len(), 0) {
        return Err(());
    }
    let flags: u8 = if signer.is_some() {
        3
    } else {
        1
    };
    let blob: Vec<u8> = slice_to_vec(hs.recipients_blob.as_slice());
    let env: Vec<u8> = encode_envelope_binary(
        hs.enc_ecdh,
        hs.nonce,
        blob,
        payload,
        None,
        flags,
        hs.rc,
    );
    assert(sealed_stream(env@, hs@, chunks, signer_view(signer), sig));
    Ok(env)
}

/// Encrypts a message in chunks. The result is the binary envelope. A signature
/// stands in the trailer, never in the header.
pub fn encrypt_streaming_binary(
    bytes: &[u8],
    recipients_armored: &str,
    signer: Option<(&str, &str)>,
    chunk_size: usize,
) -> (env: Result<Vec<u8>, ()>)
    ensures
        env is Ok <==> can_encrypt_stream(
            bytes@,
            recipients_armored@,
            signer_view(signer),
            chunk_size as nat,
        ),
        env matches Ok(e) ==> is_encrypted_stream(
            e@,
            streaming::chunks_of(bytes@, chunk_size as nat),
            armor::public_list(recipients_armored@)->0,
            signer_view(signer),
        ),
{
    if chunk_size == 0 {
        return Err(());
    }
    let hs: EncryptHandshake = match build_encrypt_handshake(recipients_armored, true) {
        Ok(h) => h,
        Err(_) => {
            return Err(());
        },
    };
    let env: Result<Vec<u8>, ()> = seal_stream_message(&hs, bytes, signer, chunk_size);
    proof {
        if env is Ok {
            lemma_encrypts_stream(
                env->Ok_0@,
                streaming::chunks_of(bytes@, chunk_size as nat),
                armor::public_list(recipients_armored@)->0,
                signer_view(signer),
                hs@,
            );
        }
    }
    env
}

/// Chunks sealed under a handshake with the recipients of a list are encrypted for
/// them.
pub proof fn lemma_encrypts_stream(
    bytes: Seq<u8>,
    chunks: Seq<Seq<u8>>,
    list: Seq<PublicView>,
    signer: Option<(Seq<char>, Seq<char>)>,
    hs: HandshakeView,
)
    requires
        exists|sender: SenderView| handshake::is_handshake(hs, list, sender),
        is_sealed_stream(bytes, hs, chunks, signer),
        list.len() > 0,
        hs.stream_on,
        streaming::chunks_fit(chunks),
        96 + hs.recipients_blob.len() <= u32::MAX,
    ensures
        is_encrypted_stream(bytes, chunks, list, signer),
{
    let sender = choose|sender: SenderView| handshake::is_handshake(hs, list, sender);
    let sig = choose|sig: Option<Seq<u8>>| sealed_stream(bytes, hs, chunks, signer, sig);
    let v = stream_envelope(hs, chunks, sig);
    handshake::lemma_handshake_not_empty(hs, list, sender);
    assert(is_stream_encryption(v, chunks, list, signer, hs, sender, sig));
    assert(encrypts_stream(bytes, chunks, list, signer, v));
}

/// Encrypts a message, whole or in chunks. The result is the binary envelope.
pub fn encrypt_core(
    bytes: &[u8],
    recipients_armored: &str,
    signer: Option<(&str, &str)>,
    stream_mode: StreamMode,
) -> (env: Result<Vec<u8>, ()>)
    ensures
        match stream_mode {
            StreamMode::Off => {
                &&& env is Ok <==> can_encrypt_whole(
                    bytes@,
                    recipients_armored@,
                    signer_view(signer),
                )
                &&& env matches Ok(e) ==> is_encrypted_whole(
                    e@,
                    bytes@,
                    armor::public_list(recipients_armored@)->0,
                    signer_view(signer),
                )
            },
            StreamMode::On { chunk_size } => {
                &&& env is Ok <==> can_encrypt_stream(
                    bytes@,
                    recipients_armored@,
                    signer_view(signer),
                    chunk_size as nat,
                )
                &&& env matches Ok(e) ==> is_encrypted_stream(
                    e@,
                    streaming::chunks_of(bytes@, chunk_size as nat),
                    armor::public_list(recipients_armored@)->0,
                    signer_view(signer),
                )
            },
        },
{
    match stream_mode {
        StreamMode::Off => encrypt_whole(bytes, recipients_armored, signer),
        StreamMode::On { chunk_size } => encrypt_streaming_binary(
            bytes,
            recipients_armored,
            signer,
            chunk_size,
        ),
    }
}

/// Encrypts a message whole. The result is the binary envelope.
pub fn encrypt_binary(bytes: &[u8], recipients_armored: &str, signer: Option<(&str, &str)>) -> (env:
    Result<Vec<u8>, ()>)
    ensures
        env is Ok <==> can_encrypt_whole(bytes@, recipients_armored@, signer_view(signer)),
        env matches Ok(e) ==> is_encrypted_whole(
            e@,
            bytes@,
            armor::public_list(recipients_armored@)->0,
            signer_view(signer),
        ),
{
    encrypt_core(bytes, recipients_armored, signer, StreamMode::Off)
}

/// Whether `text` is the UTF-8 armor of an envelope whose binary form is
/// `binary`.
pub open spec fn is_armor_of(text: Seq<u8>, binary: Seq<u8>) -> bool {
    envelope::parsed(binary) matches Some(v) && text == encode_utf8(
        message::armored(message::message_of_envelope(v)),
    )
}

/// Whether `text` is the armor of a binary envelope that encrypts `pt`.
pub open spec fn is_armored_whole(
    text: Seq<u8>,
    pt: Seq<u8>,
    list: Seq<PublicView>,
    signer: Option<(Seq<char>, Seq<char>)>,
) -> bool {
    exists|binary: Seq<u8>|
        #[trigger] is_armor_of(text, binary) && is_encrypted_whole(binary, pt, list, signer)
}

/// Whether `text` is the armor of a binary envelope that encrypts the chunks.
pub open spec fn is_armored_stream(
    text: Seq<u8>,
    chunks: Seq<Seq<u8>>,
    list: Seq<PublicView>,
    signer: Option<(Seq<char>, Seq<char>)>,
) -> bool {
    exists|binary: Seq<u8>|
        #[trigger] is_armor_of(text, binary) && is_encrypted_stream(
            binary,
            chunks,
            list,
            signer,
        )
}

/// Encrypts a message whole. The result is UTF-8 armor.
pub fn encrypt(bytes: &[u8], recipients_armored: &str, signer: Option<(&str, &str)>) -> (text:
    Result<Vec<u8>, ()>)
    ensures
        text is Ok <==> can_encrypt_whole(bytes@, recipients_armored@, signer_view(signer)),
        text matches Ok(t) ==> is_armored_whole(
            t@,
            bytes@,
            armor::public_list(recipients_armored@)->0,
            signer_view(signer),
        ),
{
    let binary: Vec<u8> = match encrypt_binary(bytes, recipients_armored, signer) {
        Ok(b) => b,
        Err(_) => {
            return Err(());
        },
    };
    proof {
        lemma_encrypted_parses(
            binary@,
            bytes@,
            armor::public_list(recipients_armored@)->0,
            signer_view(signer),
        );
    }
    let arm: String = armor_from_binary(binary.as_slice());
    let text: Vec<u8> = slice_to_vec(arm.as_str().as_bytes());
    assert(is_armor_of(text@, binary@));
    Ok(text)
}

/// An encrypted message parses.
proof fn lemma_encrypted_parses(
    bytes: Seq<u8>,
    pt: Seq<u8>,
    list: Seq<PublicView>,
    signer: Option<(Seq<char>, Seq<char>)>,
)
    requires
        is_encrypted_whole(bytes, pt, list, signer),
    ensures
        envelope::parsed(bytes) is Some,
{
    let v = choose|v: EnvelopeView| encrypts_whole(bytes, pt, list, signer, v);
    let (hs, sender) = choose|hs: HandshakeView, sender: SenderView|
        is_whole_encryption(v, pt, list, signer, hs, sender);
    envelope::lemma_envelope_roundtrip(v);
}

/// Encrypts a text whole. The result is UTF-8 armor.
pub fn encrypt_str(s: &str, recipients_armored: &str, signer: Option<(&str, &str)>) -> (text:
    Result<Vec<u8>, ()>)
    ensures
        text is Ok <==> can_encrypt_whole(
            s.spec_bytes(),
            recipients_armored@,
            signer_view(signer),
        ),
        text matches Ok(t) ==> is_armored_whole(
            t@,
            s.spec_bytes(),
            armor::public_list(recipients_armored@)->0,
            signer_view(signer),
        ),
{
    encrypt(s.as_bytes(), recipients_armored, signer)
}

/// Encrypts a message in chunks. The result is UTF-8 armor.
///
/// Armor is meant for whole messages: it has no field that says that a payload is
/// chunked. The result is therefore read back as a whole message, whose payload
/// does not open, and no decryption function of this library gives the message back.
/// Use [`encrypt_streaming_binary`] for chunks that are to be decrypted.
///
/// Fails where
/// [`encrypt_streaming_binary`] does, and for an empty message without a signer:
/// its payload is shorter than a tag, which no armored message is.
pub fn encrypt_streaming(
    bytes: &[u8],
    recipients_armored: &str,
    signer: Option<(&str, &str)>,
    chunk_size: usize,
) -> (text: Result<Vec<u8>, ()>)
    ensures
        text is Ok <==> can_encrypt_stream(
            bytes@,
            recipients_armored@,
            signer_view(signer),
            chunk_size as nat,
        ) && (bytes@.len() > 0 || signer is Some),
        text matches Ok(t) ==> is_armored_stream(
            t@,
            streaming::chunks_of(bytes@, chunk_size as nat),
            armor::public_list(recipients_armored@)->0,
            signer_view(signer),
        ),
{
    let binary: Vec<u8> = match encrypt_streaming_binary(
        bytes,
        recipients_armored,
        signer,
        chunk_size,
    ) {
        Ok(b) => b,
        Err(_) => {
            return Err(());
        },
    };
    if bytes.len() == 0 && signer.is_none() {
        return Err(());
    }
    proof {
        lemma_stream_parses(
            binary@,
            bytes@,
            chunk_size as nat,
            armor::public_list(recipients_armored@)->0,
            signer_view(signer),
        );
    }
    let arm: String = armor_from_binary(binary.as_slice());
    let text: Vec<u8> = slice_to_vec(arm.as_str().as_bytes());
    assert(is_armor_of(text@, binary@));
    Ok(text)
}

/// A chunked message parses, unless its payload is the end marker alone.
proof fn lemma_stream_parses(
    bytes: Seq<u8>,
    pt: Seq<u8>,
    chunk_size: nat,
    list: Seq<PublicView>,
    signer: Option<(Seq<char>, Seq<char>)>,
)
    requires
        is_encrypted_stream(bytes, streaming::chunks_of(pt, chunk_size), list, signer),
        chunk_size > 0,
        pt.len() > 0 || signer is Some,
    ensures
        envelope::parsed(bytes) is Some,
{
    let chunks = streaming::chunks_of(pt, chunk_size);
    let v = choose|v: EnvelopeView| encrypts_stream(bytes, chunks, list, signer, v);
    let (hs, sender, sig) = choose|hs: HandshakeView, sender: SenderView, sig: Option<Seq<u8>>|
        is_stream_encryption(v, chunks, list, signer, hs, sender, sig);
    lemma_stream_valid(v, chunks, list, signer, hs, sender, sig);
    envelope::lemma_envelope_roundtrip(v);
}

/// The envelope of a chunked payload is valid, unless its payload is the end
/// marker alone.
pub proof fn lemma_stream_valid(
    v: EnvelopeView,
    chunks: Seq<Seq<u8>>,
    list: Seq<PublicView>,
    signer: Option<(Seq<char>, Seq<char>)>,
    hs: HandshakeView,
    sender: SenderView,
    sig: Option<Seq<u8>>,
)
    requires
        is_stream_encryption(v, chunks, list, signer, hs, sender, sig),
        chunks.len() > 0 || sig is Some,
    ensures
        envelope::valid_envelope(v),
{
    handshake::lemma_handshake_entries(hs, list, sender);
    if chunks.len() > 0 {
        assert(streaming::chunk_opens(hs, chunks.len() - 1, chunks[chunks.len() - 1]));
        assert(streaming::frames_of(hs, chunks).len() >= 28);
    }
}

} // verus!
