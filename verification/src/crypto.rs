//! The cryptographic primitives, each behind one small function.
//!
//! The primitives themselves live in outside crates. Each function below makes
//! one call into such a crate, and its contract states what the rest of the
//! library may rely on. What a primitive computes is given a name (`sha256`,
//! `xchacha_seal`, ...); nothing is said of the values that a name takes beyond
//! the facts in these contracts.

use aes_gcm_siv::Aes256GcmSiv;
use argon2::{Algorithm, Argon2, Params, Version};
use base64::Engine;
use chacha20poly1305::aead::{Aead, Payload};
use chacha20poly1305::{KeyInit, XChaCha20Poly1305};
use ed25519_dalek::{Signature, Signer, SigningKey, VerifyingKey};
use hkdf::Hkdf;
use pqcrypto_mldsa::mldsa65;
use pqcrypto_mlkem::mlkem768;
use pqcrypto_traits::kem::{Ciphertext, PublicKey, SecretKey, SharedSecret};
use pqcrypto_traits::sign::{
    DetachedSignature, PublicKey as SigPublicKey, SecretKey as SigSecretKey, SignedMessage,
};
use rand::RngCore;
use sha2::{Digest, Sha256};
use subtle::{Choice, ConstantTimeEq};
use vstd::prelude::*;
use vstd::string::*;
use vstd::utf8::*;
use x25519_dalek::{PublicKey as XPublic, StaticSecret as XSecret};
use zeroize::Zeroize;

use crate::base64_text;

verus! {

// ----------------------------------------------------------------------
// Sizes
// ----------------------------------------------------------------------

/// Length of an ML-KEM-768 public key.
pub const KEM_PK_LEN: usize = 1184;

/// Length of an ML-KEM-768 secret key.
pub const KEM_SK_LEN: usize = 2400;

/// Length of an ML-KEM-768 ciphertext.
pub const KEM_CT_LEN: usize = 1088;

/// Length of an ML-DSA-65 public key.
pub const DSA_PK_LEN: usize = 1952;

/// Length of an ML-DSA-65 secret key.
pub const DSA_SK_LEN: usize = 4032;

/// Length of an ML-DSA-65 signature.
pub const DSA_SIG_LEN: usize = 3309;

/// Longest message that XChaCha20-Poly1305 takes here: 2^32 - 2 blocks of 64
/// bytes, what the 32-bit block counter leaves after the block that keys the
/// authenticator.
pub const XCHACHA_MAX_MSG: u64 = 0x3F_FFFF_FF80;

/// `pqcrypto_mlkem::mlkem768::public_key_bytes`: the constant 1184.
pub assume_specification[ mlkem768::public_key_bytes ]() -> (n: usize)
    ensures
        n == 1184,
;

/// `pqcrypto_mlkem::mlkem768::secret_key_bytes`: the constant 2400.
pub assume_specification[ mlkem768::secret_key_bytes ]() -> (n: usize)
    ensures
        n == 2400,
;

/// `pqcrypto_mlkem::mlkem768::ciphertext_bytes`: the constant 1088.
pub assume_specification[ mlkem768::ciphertext_bytes ]() -> (n: usize)
    ensures
        n == 1088,
;

/// `pqcrypto_mldsa::mldsa65::public_key_bytes`: the constant 1952.
pub assume_specification[ mldsa65::public_key_bytes ]() -> (n: usize)
    ensures
        n == 1952,
;

/// `pqcrypto_mldsa::mldsa65::secret_key_bytes`: the constant 4032.
pub assume_specification[ mldsa65::secret_key_bytes ]() -> (n: usize)
    ensures
        n == 4032,
;

/// `pqcrypto_mldsa::mldsa65::signature_bytes`: the constant 3309.
pub assume_specification[ mldsa65::signature_bytes ]() -> (n: usize)
    ensures
        n == 3309,
;

// ----------------------------------------------------------------------
// SHA-256
// ----------------------------------------------------------------------

/// The SHA-256 digest of `data`.
pub uninterp spec fn sha256(data: Seq<u8>) -> Seq<u8>;

/// The bytes that `h` has been fed so far.
pub uninterp spec fn hashed(h: Hasher) -> Seq<u8>;

/// A running SHA-256 computation. `sha2::Sha256` is an alias of a generic type
/// whose bounds cannot be declared to the verifier, so it is held opaquely here.
#[verifier::external_body]
pub struct Hasher {
    inner: Sha256,
}

/// `sha2::Sha256::new`: a computation that has been fed nothing.
#[verifier::external_body]
pub(crate) fn hasher_new() -> (h: Hasher)
    ensures
        hashed(h) == Seq::<u8>::empty(),
{
    Hasher { inner: Sha256::new() }
}

/// `sha2::Sha256::update`: appends `data` to what has been fed.
#[verifier::external_body]
pub(crate) fn hasher_update(h: &mut Hasher, data: &[u8])
    ensures
        hashed(*final(h)) == hashed(*old(h)) + data@,
{
    h.inner.update(data);
}

/// `sha2::Sha256::finalize`: the digest of what has been fed.
#[verifier::external_body]
pub(crate) fn hasher_finalize(h: Hasher) -> (digest: [u8; 32])
    ensures
        digest@ == sha256(hashed(h)),
{
    h.inner.finalize().into()
}

// ----------------------------------------------------------------------
// HKDF-SHA256
// ----------------------------------------------------------------------

/// The first `len` bytes of HKDF-SHA256 (extract, then expand).
pub uninterp spec fn hkdf_sha256(salt: Seq<u8>, ikm: Seq<u8>, info: Seq<u8>, len: nat) -> Seq<u8>;

/// `hkdf::Hkdf::<Sha256>::new` and `expand`: the output keying material. The
/// expansion fails exactly when more than 255 blocks of 32 bytes are asked for.
#[verifier::external_body]
pub(crate) fn hkdf_derive(salt: &[u8], ikm: &[u8], info: &[u8], len: usize) -> (okm: Result<
    Vec<u8>,
    (),
>)
    ensures
        okm is Ok <==> len <= 255 * 32,
        okm matches Ok(out) ==> out@ == hkdf_sha256(salt@, ikm@, info@, len as nat) && out@.len()
            == len,
{
    let mut out = vec![0u8; len];
    Hkdf::<Sha256>::new(Some(salt), ikm).expand(info, &mut out).map_err(|_| ())?;
    Ok(out)
}

// ----------------------------------------------------------------------
// XChaCha20-Poly1305
// ----------------------------------------------------------------------

/// Ciphertext and tag that XChaCha20-Poly1305 makes of `msg`.
pub uninterp spec fn xchacha_seal(
    key: Seq<u8>,
    nonce: Seq<u8>,
    aad: Seq<u8>,
    msg: Seq<u8>,
) -> Seq<u8>;

/// What XChaCha20-Poly1305 recovers from `ct` (ciphertext and tag), or nothing
/// if `ct` does not authenticate.
pub uninterp spec fn xchacha_open(
    key: Seq<u8>,
    nonce: Seq<u8>,
    aad: Seq<u8>,
    ct: Seq<u8>,
) -> Option<Seq<u8>>;

/// `chacha20poly1305::XChaCha20Poly1305::encrypt`: the ciphertext followed by
/// the 16-byte tag. It succeeds on every message that the block counter can
/// cover, and decryption under the same key, nonce and additional data gives the
/// message back. Longer messages are left out: there the keystream runs out.
#[verifier::external_body]
pub(crate) fn xchacha20poly1305_seal(
    key: &[u8; 32],
    nonce: &[u8; 24],
    aad: &[u8],
    msg: &[u8],
) -> (sealed: Result<Vec<u8>, ()>)
    requires
        msg@.len() <= XCHACHA_MAX_MSG,
    ensures
        sealed is Ok,
        sealed matches Ok(ct) ==> {
            &&& ct@ == xchacha_seal(key@, nonce@, aad@, msg@)
            &&& ct@.len() == msg@.len() + 16
            &&& xchacha_open(key@, nonce@, aad@, ct@) == Some(msg@)
        },
{
    let cipher = XChaCha20Poly1305::new(key.into());
    cipher.encrypt(nonce.into(), Payload { msg, aad }).map_err(|_| ())
}

/// `chacha20poly1305::XChaCha20Poly1305::decrypt`: the message, if the tag
/// authenticates it. A message is 16 bytes shorter than its ciphertext and tag;
/// fewer than 16 bytes are never opened.
#[verifier::external_body]
pub(crate) fn xchacha20poly1305_open(
    key: &[u8; 32],
    nonce: &[u8; 24],
    aad: &[u8],
    ct: &[u8],
) -> (opened: Result<Vec<u8>, ()>)
    requires
        ct@.len() <= XCHACHA_MAX_MSG + 16,
    ensures
        match opened {
            Ok(msg) => xchacha_open(key@, nonce@, aad@, ct@) == Some(msg@) && msg@.len() + 16
                == ct@.len(),
            Err(_) => xchacha_open(key@, nonce@, aad@, ct@) is None,
        },
        ct@.len() < 16 ==> opened is Err,
{
    let cipher = XChaCha20Poly1305::new(key.into());
    cipher.decrypt(nonce.into(), Payload { msg: ct, aad }).map_err(|_| ())
}

// ----------------------------------------------------------------------
// AES-256-GCM-SIV
// ----------------------------------------------------------------------

/// Ciphertext and tag that AES-256-GCM-SIV makes of `msg`.
pub uninterp spec fn gcm_siv_seal(
    key: Seq<u8>,
    nonce: Seq<u8>,
    aad: Seq<u8>,
    msg: Seq<u8>,
) -> Seq<u8>;

/// What AES-256-GCM-SIV recovers from `ct` (ciphertext and tag), or nothing if
/// `ct` does not authenticate.
pub uninterp spec fn gcm_siv_open(
    key: Seq<u8>,
    nonce: Seq<u8>,
    aad: Seq<u8>,
    ct: Seq<u8>,
) -> Option<Seq<u8>>;

/// `aes_gcm_siv::Aes256GcmSiv::encrypt`: the ciphertext followed by the 16-byte
/// tag. It fails exactly when message or additional data are longer than 2^36
/// bytes, and decryption under the same key, nonce and additional data gives the
/// message back.
#[verifier::external_body]
pub(crate) fn aes_gcm_siv_seal(key: &[u8; 32], nonce: &[u8; 12], aad: &[u8], msg: &[u8]) -> (sealed:
    Result<Vec<u8>, ()>)
    ensures
        sealed is Ok <==> (msg@.len() <= 0x10_0000_0000 && aad@.len() <= 0x10_0000_0000),
        sealed matches Ok(ct) ==> {
            &&& ct@ == gcm_siv_seal(key@, nonce@, aad@, msg@)
            &&& ct@.len() == msg@.len() + 16
            &&& gcm_siv_open(key@, nonce@, aad@, ct@) == Some(msg@)
        },
{
    let cipher = Aes256GcmSiv::new(key.into());
    cipher.encrypt(nonce.into(), Payload { msg, aad }).map_err(|_| ())
}

/// `aes_gcm_siv::Aes256GcmSiv::decrypt`: the message, if the tag authenticates
/// it. A message is 16 bytes shorter than its ciphertext and tag.
#[verifier::external_body]
pub(crate) fn aes_gcm_siv_open(key: &[u8; 32], nonce: &[u8; 12], aad: &[u8], ct: &[u8]) -> (opened:
    Result<Vec<u8>, ()>)
    ensures
        match opened {
            Ok(msg) => gcm_siv_open(key@, nonce@, aad@, ct@) == Some(msg@) && msg@.len() + 16
                == ct@.len(),
            Err(_) => gcm_siv_open(key@, nonce@, aad@, ct@) is None,
        },
{
    let cipher = Aes256GcmSiv::new(key.into());
    cipher.decrypt(nonce.into(), Payload { msg: ct, aad }).map_err(|_| ())
}

// ----------------------------------------------------------------------
// Argon2id
// ----------------------------------------------------------------------

/// The 32 bytes that Argon2id version 0x13 derives.
pub uninterp spec fn argon2id(
    pass: Seq<u8>,
    salt: Seq<u8>,
    m_cost_kib: u32,
    t_cost: u32,
    parallelism: u32,
) -> Seq<u8>;

/// The inputs that Argon2id takes: at least 8 KiB of memory for each of between
/// 1 and 2^24 - 1 lanes, at least one pass, a salt of at least 8 bytes, and
/// neither salt nor passphrase longer than 2^32 - 1 bytes.
pub open spec fn argon2id_accepts(
    pass_len: nat,
    salt_len: nat,
    m_cost_kib: u32,
    t_cost: u32,
    parallelism: u32,
) -> bool {
    &&& 1 <= parallelism <= 0xFF_FFFF
    &&& m_cost_kib >= 8 * parallelism
    &&& t_cost >= 1
    &&& pass_len <= 0xFFFF_FFFF
    &&& 8 <= salt_len <= 0xFFFF_FFFF
}

/// `argon2::Params::new` and `Argon2::hash_password_into`, for Argon2id, version
/// 0x13 and 32 bytes of output: fails exactly on the inputs that
/// `argon2id_accepts` leaves out. A lane count of 2^24 or more is not passed on,
/// since eight times it need not fit in 32 bits. The memory asked for is taken
/// to be there.
#[verifier::external_body]
pub(crate) fn argon2id_hash(
    pass: &[u8],
    salt: &[u8],
    m_cost_kib: u32,
    t_cost: u32,
    parallelism: u32,
) -> (key: Result<[u8; 32], ()>)
    requires
        parallelism <= 0xFF_FFFF,
    ensures
        key is Ok <==> argon2id_accepts(pass@.len(), salt@.len(), m_cost_kib, t_cost, parallelism),
        key matches Ok(k) ==> k@ == argon2id(pass@, salt@, m_cost_kib, t_cost, parallelism),
{
    let mut out = [0u8; 32];
    let params = Params::new(m_cost_kib, t_cost, parallelism, Some(32)).map_err(|_| ())?;
    let argon = Argon2::new(Algorithm::Argon2id, Version::V0x13, params);
    argon.hash_password_into(pass, salt, &mut out).map_err(|_| ())?;
    Ok(out)
}

// ----------------------------------------------------------------------
// X25519
// ----------------------------------------------------------------------

/// The X25519 public key of the secret `sk`.
pub uninterp spec fn x25519_public(sk: Seq<u8>) -> Seq<u8>;

/// The X25519 shared secret of the secret `sk` and the public key `pk`.
pub uninterp spec fn x25519_shared(sk: Seq<u8>, pk: Seq<u8>) -> Seq<u8>;

/// `x25519_dalek::StaticSecret::random_from_rng`: a fresh secret key. Nothing is
/// promised of its value.
#[verifier::external_body]
pub(crate) fn x25519_generate() -> (sk: [u8; 32]) {
    XSecret::random_from_rng(rand::rngs::OsRng).to_bytes()
}

/// `x25519_dalek::PublicKey::from(&StaticSecret)`: the public key of a secret.
/// Whoever holds another secret agrees on the same shared secret with this
/// public key as its owner does with the other's.
#[verifier::external_body]
pub(crate) fn x25519_public_key(sk: &[u8; 32]) -> (pk: [u8; 32])
    ensures
        pk@ == x25519_public(sk@),
        forall|other: Seq<u8>|
            other.len() == 32 ==> #[trigger] x25519_shared(other, pk@) == x25519_shared(
                sk@,
                x25519_public(other),
            ),
{
    XPublic::from(&XSecret::from(*sk)).to_bytes()
}

/// `x25519_dalek::StaticSecret::diffie_hellman`: the shared secret.
#[verifier::external_body]
pub(crate) fn x25519_agree(sk: &[u8; 32], pk: &[u8; 32]) -> (shared: [u8; 32])
    ensures
        shared@ == x25519_shared(sk@, pk@),
{
    XSecret::from(*sk).diffie_hellman(&XPublic::from(*pk)).to_bytes()
}

// ----------------------------------------------------------------------
// ML-KEM-768
// ----------------------------------------------------------------------

/// The shared secret that the secret key `sk` decapsulates from `ct`.
pub uninterp spec fn mlkem_shared(ct: Seq<u8>, sk: Seq<u8>) -> Seq<u8>;

/// Whether `pk` and `sk` can be a key pair that is generated.
pub uninterp spec fn mlkem_pair(pk: Seq<u8>, sk: Seq<u8>) -> bool;

/// Whether encapsulation for `pk` can give the shared secret `ss` and the capsule
/// `ct`.
pub uninterp spec fn mlkem_encapsulated(pk: Seq<u8>, ss: Seq<u8>, ct: Seq<u8>) -> bool;

/// `pqcrypto_mlkem::mlkem768::keypair`: a fresh public and secret key that belong
/// together. It is not said that a capsule for the public key opens under the
/// secret key to the encapsulated secret: that fails with a tiny probability.
#[verifier::external_body]
pub(crate) fn mlkem_keypair() -> (keys: (Vec<u8>, Vec<u8>))
    ensures
        keys.0@.len() == KEM_PK_LEN,
        keys.1@.len() == KEM_SK_LEN,
        mlkem_pair(keys.0@, keys.1@),
{
    let (pk, sk) = mlkem768::keypair();
    (pk.as_bytes().to_vec(), sk.as_bytes().to_vec())
}

/// `pqcrypto_mlkem::mlkem768::encapsulate`: a fresh shared secret and its capsule
/// for the public key, which is refused exactly when its length is wrong.
#[verifier::external_body]
pub(crate) fn mlkem_encapsulate(pk: &[u8]) -> (sent: Result<(Vec<u8>, Vec<u8>), ()>)
    ensures
        sent is Ok <==> pk@.len() == KEM_PK_LEN,
        sent matches Ok(ss_ct) ==> ss_ct.0@.len() == 32 && ss_ct.1@.len() == KEM_CT_LEN
            && mlkem_encapsulated(pk@, ss_ct.0@, ss_ct.1@),
{
    let key = mlkem768::PublicKey::from_bytes(pk).map_err(|_| ())?;
    let (ss, ct) = mlkem768::encapsulate(&key);
    Ok((ss.as_bytes().to_vec(), ct.as_bytes().to_vec()))
}

/// `pqcrypto_mlkem::mlkem768::decapsulate`: the shared secret of a capsule. Fails
/// exactly when the capsule or the secret key has a wrong length.
#[verifier::external_body]
pub(crate) fn mlkem_decapsulate(ct: &[u8], sk: &[u8]) -> (shared: Result<Vec<u8>, ()>)
    ensures
        shared is Ok <==> (ct@.len() == KEM_CT_LEN && sk@.len() == KEM_SK_LEN),
        shared matches Ok(ss) ==> ss@ == mlkem_shared(ct@, sk@) && ss@.len() == 32,
{
    let capsule = mlkem768::Ciphertext::from_bytes(ct).map_err(|_| ())?;
    let key = mlkem768::SecretKey::from_bytes(sk).map_err(|_| ())?;
    Ok(mlkem768::decapsulate(&capsule, &key).as_bytes().to_vec())
}

// ----------------------------------------------------------------------
// ML-DSA-65
// ----------------------------------------------------------------------

/// The message that the signed message `signed` (signature, then message)
/// carries, or nothing if the signature does not verify under `pk`.
pub uninterp spec fn mldsa_opened(signed: Seq<u8>, pk: Seq<u8>) -> Option<Seq<u8>>;

/// Whether `pk` and `sk` can be a key pair that is generated.
pub uninterp spec fn mldsa_pair(pk: Seq<u8>, sk: Seq<u8>) -> bool;

/// Whether `sig` can be a signature that is made of `msg` with `sk`.
pub uninterp spec fn mldsa_signs(sk: Seq<u8>, msg: Seq<u8>, sig: Seq<u8>) -> bool;

/// `pqcrypto_mldsa::mldsa65::keypair`: a fresh public and secret key that belong
/// together.
#[verifier::external_body]
pub(crate) fn mldsa_keypair() -> (keys: (Vec<u8>, Vec<u8>))
    ensures
        keys.0@.len() == DSA_PK_LEN,
        keys.1@.len() == DSA_SK_LEN,
        mldsa_pair(keys.0@, keys.1@),
{
    let (pk, sk) = mldsa65::keypair();
    (pk.as_bytes().to_vec(), sk.as_bytes().to_vec())
}

/// `pqcrypto_mldsa::mldsa65::detached_sign`: a signature of the message, which is
/// randomised. Put before the message, it opens under the public key that belongs
/// to the secret key: signing starts over until it does. Fails exactly when the
/// secret key has a wrong length.
#[verifier::external_body]
pub(crate) fn mldsa_sign(msg: &[u8], sk: &[u8]) -> (signature: Result<Vec<u8>, ()>)
    ensures
        signature is Ok <==> sk@.len() == DSA_SK_LEN,
        signature matches Ok(sig) ==> {
            &&& sig@.len() == DSA_SIG_LEN
            &&& mldsa_signs(sk@, msg@, sig@)
            &&& forall|pk: Seq<u8>| #[trigger]
                mldsa_pair(pk, sk@) ==> mldsa_opened(sig@ + msg@, pk) == Some(msg@)
        },
{
    let key = mldsa65::SecretKey::from_bytes(sk).map_err(|_| ())?;
    Ok(mldsa65::detached_sign(msg, &key).as_bytes().to_vec())
}

/// `pqcrypto_mldsa::mldsa65::open`: the message of a signed message, if the
/// signature verifies. Nothing verifies under a key of a wrong length.
#[verifier::external_body]
pub(crate) fn mldsa_open(signed: &[u8], pk: &[u8]) -> (msg: Result<Vec<u8>, ()>)
    ensures
        pk@.len() != DSA_PK_LEN ==> msg is Err,
        pk@.len() == DSA_PK_LEN ==> match msg {
            Ok(m) => mldsa_opened(signed@, pk@) == Some(m@),
            Err(_) => mldsa_opened(signed@, pk@) is None,
        },
{
    let key = mldsa65::PublicKey::from_bytes(pk).map_err(|_| ())?;
    let message = mldsa65::SignedMessage::from_bytes(signed).map_err(|_| ())?;
    mldsa65::open(&message, &key).map_err(|_| ())
}

// ----------------------------------------------------------------------
// Ed25519
// ----------------------------------------------------------------------

/// The Ed25519 public key of a 32-byte seed.
pub uninterp spec fn ed25519_public(seed: Seq<u8>) -> Seq<u8>;

/// Whether `pk` encodes a point of the curve.
pub uninterp spec fn ed25519_point(pk: Seq<u8>) -> bool;

/// The Ed25519 signature of `msg` under the key of `seed`.
pub uninterp spec fn ed25519_signature(seed: Seq<u8>, msg: Seq<u8>) -> Seq<u8>;

/// Whether strict Ed25519 verification of `sig` over `msg` under `pk` succeeds.
pub uninterp spec fn ed25519_verifies(pk: Seq<u8>, msg: Seq<u8>, sig: Seq<u8>) -> bool;

/// `ed25519_dalek::SigningKey::verifying_key`: the public key of a seed, which
/// encodes a point of the curve.
#[verifier::external_body]
pub(crate) fn ed25519_public_key(seed: &[u8; 32]) -> (pk: [u8; 32])
    ensures
        pk@ == ed25519_public(seed@),
        ed25519_point(pk@),
{
    SigningKey::from_bytes(seed).verifying_key().to_bytes()
}

/// `ed25519_dalek::VerifyingKey::from_bytes`: whether the bytes encode a point of
/// the curve.
#[verifier::external_body]
pub(crate) fn ed25519_is_point(pk: &[u8; 32]) -> (ok: bool)
    ensures
        ok == ed25519_point(pk@),
{
    VerifyingKey::from_bytes(pk).is_ok()
}

/// The encoding of the neutral point.
pub open spec fn ed25519_neutral() -> Seq<u8> {
    Seq::new(32, |i: int| if i == 0 { 1u8 } else { 0u8 })
}

/// `ed25519_dalek::SigningKey::sign`: the signature, which is deterministic.
/// Strict verification takes it under the key's own public key, unless its first
/// half is the neutral point, the one point of small order that signing can give:
/// those are refused.
#[verifier::external_body]
pub(crate) fn ed25519_sign(seed: &[u8; 32], msg: &[u8]) -> (sig: [u8; 64])
    ensures
        sig@ == ed25519_signature(seed@, msg@),
        sig@.take(32) != ed25519_neutral() ==> ed25519_verifies(
            ed25519_public(seed@),
            msg@,
            sig@,
        ),
{
    SigningKey::from_bytes(seed).sign(msg).to_bytes()
}

/// `ed25519_dalek::VerifyingKey::verify_strict`: whether the signature verifies.
/// Nothing verifies under bytes that encode no point.
#[verifier::external_body]
pub(crate) fn ed25519_verify_strict(pk: &[u8; 32], msg: &[u8], sig: &[u8; 64]) -> (ok: bool)
    ensures
        ok == (ed25519_point(pk@) && ed25519_verifies(pk@, msg@, sig@)),
{
    match VerifyingKey::from_bytes(pk) {
        Ok(key) => key.verify_strict(msg, &Signature::from_bytes(sig)).is_ok(),
        Err(_) => false,
    }
}

// ----------------------------------------------------------------------
// Randomness, constant-time comparison, wiping
// ----------------------------------------------------------------------

/// `rand::rngs::OsRng::fill_bytes`: `n` bytes from the operating system. Nothing
/// is promised of their values.
#[verifier::external_body]
pub(crate) fn os_random(n: usize) -> (bytes: Vec<u8>)
    ensures
        bytes@.len() == n,
{
    let mut bytes = vec![0u8; n];
    rand::rngs::OsRng.fill_bytes(&mut bytes);
    bytes
}

/// `subtle::ConstantTimeEq::ct_eq` on byte slices: whether they are equal. Slices
/// of different lengths differ.
#[verifier::external_body]
pub(crate) fn ct_eq(a: &[u8], b: &[u8]) -> (same: bool)
    ensures
        same == (a@ == b@),
{
    a.ct_eq(b).into()
}

/// `subtle::Choice`'s `&`: whether both hold.
#[verifier::external_body]
pub(crate) fn ct_and(a: bool, b: bool) -> (both: bool)
    ensures
        both == (a && b),
{
    (Choice::from(u8::from(a)) & Choice::from(u8::from(b))).into()
}

/// `zeroize::Zeroize::zeroize` on a vector: overwrites the bytes and empties it.
#[verifier::external_body]
pub(crate) fn wipe_vec(v: &mut Vec<u8>)
    ensures
        final(v)@.len() == 0,
    opens_invariants none
    no_unwind
{
    v.zeroize();
}

/// `zeroize::Zeroize::zeroize` on a string: overwrites the bytes and empties it.
#[verifier::external_body]
pub(crate) fn wipe_string(s: &mut String)
    ensures
        final(s)@.len() == 0,
    opens_invariants none
    no_unwind
{
    s.zeroize();
}

/// `zeroize::Zeroize::zeroize` on a 32-byte array: overwrites it with zeros.
#[verifier::external_body]
pub(crate) fn wipe_key(k: &mut [u8; 32])
    ensures
        forall|i: int| 0 <= i < 32 ==> #[trigger] final(k)@[i] == 0,
    opens_invariants none
    no_unwind
{
    k.zeroize();
}

// ----------------------------------------------------------------------
// Base64 and text
// ----------------------------------------------------------------------

/// `base64::engine::general_purpose::STANDARD.encode`: Base64 with the standard
/// alphabet and padding.
#[verifier::external_body]
pub(crate) fn base64_encode(data: &[u8]) -> (text: String)
    ensures
        text@ == base64_text::b64(data@),
{
    base64::engine::general_purpose::STANDARD.encode(data)
}

/// `base64::engine::general_purpose::STANDARD.decode`: the bytes whose encoding
/// the text is. The engine asks for canonical padding and refuses stray bits in
/// the last symbol, so any other text is an error.
#[verifier::external_body]
pub(crate) fn base64_decode(text: &str) -> (data: Result<Vec<u8>, ()>)
    ensures
        data matches Ok(d) ==> text@ == base64_text::b64(d@),
        data is Err ==> forall|d: Seq<u8>| #[trigger] base64_text::b64(d) != text@,
{
    base64::engine::general_purpose::STANDARD.decode(text).map_err(|_| ())
}

/// `std::str::from_utf8`: the text that the bytes encode, if they are UTF-8.
#[verifier::external_body]
pub(crate) fn utf8_text(bytes: &[u8]) -> (text: Result<&str, ()>)
    ensures
        text matches Ok(s) ==> s.spec_bytes() == bytes@,
        text is Ok <==> valid_utf8(bytes@),
{
    std::str::from_utf8(bytes).map_err(|_| ())
}

/// `String::push`: appends one character.
pub assume_specification[ String::push ](s: &mut String, ch: char)
    ensures
        final(s)@ == old(s)@.push(ch),
;

} // verus!
