//! Signatures: what is signed, and what it takes for one to count as verified.

use vstd::prelude::*;
use vstd::slice::*;
use vstd::string::*;
use vstd::utf8::*;

use crate::armor::parse_public;
use crate::context::DecryptContext;
use crate::crypto;
use crate::decrypt::{decrypt_binary, decrypt_raw, stream_status};
use crate::envelope::{parse_envelope_binary, EnvelopeView, ParsedBinary};
use crate::keys::{PublicBundle, PublicView, SecretBundle};
use crate::laws::{lemma_signed_text, signed_text};
use crate::status::SigStatus;
use crate::transcript;
use crate::transcript::{check_signature, hybrid_sign, verify_signature_status};

verus! {

/// Whether both halves of a signature verify under public keys: ML-DSA-65 opens its
/// half to the signed text, and Ed25519 takes the other half, strictly.
pub open spec fn both_verify(p: PublicView, signed: Seq<u8>, sig: Seq<u8>) -> bool {
    &&& sig.len() == 3309 + 64
    &&& crypto::mldsa_opened(sig.take(3309) + signed, p.sig_pk_pq) == Some(signed)
    &&& crypto::ed25519_verifies(p.sig_pk_ed, signed, sig.skip(3309))
}

/// What is to be reported of a signature, given the keys of the expected signer: 0
/// none there and none expected, 3 one without the other, 1 both halves verify, 2 not.
pub open spec fn outcome(
    sig: Option<Seq<u8>>,
    expected: Option<PublicView>,
    signed: Seq<u8>,
) -> i32 {
    match (sig, expected) {
        (None, None) => 0,
        (None, Some(_)) => 3,
        (Some(_), None) => 3,
        (Some(s), Some(p)) => if both_verify(p, signed, s) {
            1
        } else {
            2
        },
    }
}

/// A signature counts as verified exactly when both halves verify, whatever is signed
/// and however long it is.
pub proof fn law_check(p: &PublicBundle, signed: &[u8], sig: &[u8], status: i32)
    requires
        call_ensures(check_signature, (p, signed, sig), status),
    ensures
        status == outcome(Some(sig@), Some(p@), signed@),
{
}

/// A signature that is made with secret keys verifies under the public keys that
/// belong to them, unless its Ed25519 half begins with the neutral point.
pub proof fn law_sign(
    k: &SecretBundle,
    p: &PublicBundle,
    text: &[u8],
    signed: &[u8],
    sig: Vec<u8>,
    sig_bytes: &[u8],
    status: i32,
)
    requires
        call_ensures(hybrid_sign, (k, text), sig),
        sig_bytes@ == sig@,
        signed@ == text@,
        call_ensures(check_signature, (p, signed, sig_bytes), status),
        crypto::mldsa_pair(p@.sig_pk_pq, k@.sig_sk_pq),
        p@.sig_pk_ed == crypto::ed25519_public(k@.sig_sk_ed),
    ensures
        sig@.len() == 3309 + 64,
        crypto::mldsa_signs(k@.sig_sk_pq, text@, sig@.take(3309)),
        sig@.skip(3309) == crypto::ed25519_signature(k@.sig_sk_ed, text@),
        sig@.skip(3309).take(32) != (Seq::new(32, |i: int| if i == 0 { 1u8 } else { 0u8 }))
            ==> status == 1,
{
    assert(transcript::is_signing_pair(p@, k@));
}

/// What is to be told of a signature, given what the expected block is read as: it
/// cannot be told where there is a signature and the block holds no keys.
pub open spec fn told(
    sig: Option<Seq<u8>>,
    q: Option<Result<PublicBundle, ()>>,
    signed: Seq<u8>,
) -> Option<i32> {
    match (sig, q) {
        (Some(_), Some(Err(_))) => None,
        (_, Some(Ok(k))) => Some(outcome(sig, Some(k@), signed)),
        (None, Some(Err(_))) => Some(3),
        (_, None) => Some(outcome(sig, None, signed)),
    }
}

/// Whether `q` is what the expected block is read as, if one is expected.
pub open spec fn expects(expected: Option<&str>, q: Option<Result<PublicBundle, ()>>) -> bool {
    &&& expected is Some == q is Some
    &&& expected matches Some(arm) ==> call_ensures(parse_public, (arm,), q->0)
}

/// The status of a signature is what is to be told of it.
pub proof fn lemma_told(
    sig: Option<Seq<u8>>,
    expected: Option<&str>,
    q: Option<Result<PublicBundle, ()>>,
    signed: Seq<u8>,
)
    requires
        expects(expected, q),
    ensures
        transcript::signature_status(sig, transcript::text_view(expected), signed) == told(
            sig,
            q,
            signed,
        ),
{
}

/// The status of a context's header signature.
pub proof fn law_header_status(
    ctx: &DecryptContext,
    expected: Option<&str>,
    q: Option<Result<PublicBundle, ()>>,
    r: Result<i32, ()>,
)
    requires
        expects(expected, q),
        call_ensures(verify_signature_status, (ctx, expected), r),
    ensures
        r matches Ok(status) ==> told(
            ctx@.parsed.signature,
            q,
            header_signed(ctx@.parsed, ctx@.rc),
        ) == Some(status),
        r is Err ==> told(ctx@.parsed.signature, q, header_signed(ctx@.parsed, ctx@.rc)) is None,
{
    let e = ctx@.parsed;
    lemma_signed_text(e.enc_ecdh, e.nonce, e.recipients_blob, ctx@.rc, e.ct_and_tag);
    lemma_told(e.signature, expected, q, transcript::header_transcript(ctx@));
}

/// What the signature in the header of an envelope is over: the header, and the whole
/// payload, or of a chunked one the digest.
pub open spec fn header_signed(e: EnvelopeView, rc: Seq<u8>) -> Seq<u8> {
    signed_text(
        e.enc_ecdh,
        e.nonce,
        e.recipients_blob,
        rc,
        e.stream,
        if e.stream {
            crypto::sha256(e.ct_and_tag)
        } else {
            e.ct_and_tag
        },
    )
}

/// The status of a trailer's signature, or of none.
pub proof fn law_stream_status(
    ctx: &DecryptContext,
    sig: Option<&[u8]>,
    expected: Option<&str>,
    digest: &[u8; 32],
    q: Option<Result<PublicBundle, ()>>,
    r: Result<i32, ()>,
)
    requires
        expects(expected, q),
        call_ensures(stream_status, (ctx, sig, expected, digest), r),
    ensures
        ({
            let e = ctx@.parsed;
            let s = match sig {
                Some(b) => Some(b@),
                None => None,
            };
            let status = told(
                s,
                q,
                signed_text(e.enc_ecdh, e.nonce, e.recipients_blob, ctx@.rc, true, digest@),
            );
            match r {
                Ok(x) => status == Some(x),
                Err(_) => status is None,
            }
        }),
{
    let e = ctx@.parsed;
    let s = match sig {
        Some(b) => Some(b@),
        None => None,
    };
    lemma_signed_text(e.enc_ecdh, e.nonce, e.recipients_blob, ctx@.rc, digest@);
    let signed = transcript::signed_digest(
        e.enc_ecdh,
        e.nonce,
        e.recipients_blob,
        ctx@.rc,
        digest@,
    );
    lemma_told(s, expected, q, signed);
}

/// A message that decrypts with a status has it because of what its header carries: it
/// is 1 only if both halves of the signature verify, under the keys of the expected
/// signer, over the header and the whole payload.
pub proof fn law_decrypted_status(
    bytes: &[u8],
    arm: &str,
    pass: &str,
    expected: Option<&str>,
    env: Result<ParsedBinary, ()>,
    q: Option<Result<PublicBundle, ()>>,
    r: Result<(Vec<u8>, i32), ()>,
)
    requires
        call_ensures(parse_envelope_binary, (bytes,), env),
        expects(expected, q),
        call_ensures(decrypt_binary, (bytes, arm, pass, expected), r) || call_ensures(
            decrypt_raw,
            (bytes, arm, pass, expected),
            r,
        ),
        r is Ok,
    ensures
        env is Ok,
        told(
            (env->Ok_0)@.signature,
            q,
            header_signed((env->Ok_0)@, (env->Ok_0)@.rc),
        ) == Some((r->Ok_0).1),
        (r->Ok_0).1 == 1 ==> {
            let e = (env->Ok_0)@;
            &&& e.signature is Some
            &&& q matches Some(Ok(k)) && both_verify(
                k@,
                header_signed(e, e.rc),
                e.signature->0,
            )
        },
{
    let e = env->Ok_0@;
    let ctx = crate::handshake::context_of(bytes@, arm@, pass@)->0;
    assert(ctx.parsed == e);
    assert(ctx.rc == e.rc);
    lemma_signed_text(e.enc_ecdh, e.nonce, e.recipients_blob, e.rc, e.ct_and_tag);
    lemma_told(e.signature, expected, q, transcript::header_transcript(ctx));
}

/// Status numbers and outcomes.
pub proof fn law_outcomes(n: i32, s: SigStatus, m: i32)
    requires
        call_ensures(SigStatus::number, (s,), m),
    ensures
        m == match s {
            SigStatus::NoSignature => 0i32,
            SigStatus::Verified => 1i32,
            SigStatus::Invalid => 2i32,
            SigStatus::Unexpected => 3i32,
        },
        call_ensures(<SigStatus as From<i32>>::from, (n,), s) ==> (s is NoSignature <==> n == 0) && (
        s is Verified <==> n == 1) && (s is Invalid <==> n == 2),
{
}

} // verus!
