//! Long-term keys: public and secret bundles, and the secret keystore.

use pqcrypto_mldsa::mldsa65;
use pqcrypto_mlkem::mlkem768;
use vstd::prelude::*;
use vstd::slice::*;
use vstd::string::*;
use vstd::utf8::*;

use crate::armor;
use crate::armor::{
    armor_public, armor_secret, canonical_secret_aad, check_field, extract_argon2_params,
    get_bytes, get_number, parse_public,
};
use crate::base64_text;
use crate::block;
use crate::block::{parse_armor, Fields};
use crate::constants::{BEGIN_SEC, END_SEC, SALT_LEN, SECRET_NONCE_LEN, TAG_LEN, V};
use crate::crypto;
use crate::crypto::{
    aes_gcm_siv_open, aes_gcm_siv_seal, argon2id_hash, ed25519_public_key, mldsa_keypair,
    mlkem_keypair, wipe_key, wipe_vec, x25519_generate, x25519_public_key, DSA_PK_LEN,
    DSA_SK_LEN, KEM_PK_LEN, KEM_SK_LEN,
};
use crate::decimal;
use crate::text;
use crate::text::is_blank;
use crate::util;
use crate::util::{array_12, array_32, b64e, be_u32, random_bytes, read_be_u32};

verus! {

/// The public keys of a party.
#[derive(Clone)]
pub struct PublicBundle {
    /// X25519 public key.
    pub ecdh_pk: [u8; 32],
    /// ML-KEM-768 public key.
    pub pq_pk: Vec<u8>,
    /// ML-DSA-65 public key.
    pub sig_pk_pq: Vec<u8>,
    /// Ed25519 public key.
    pub sig_pk_ed: [u8; 32],
}

/// What a public bundle holds.
#[verifier::ext_equal]
pub struct PublicView {
    pub ecdh_pk: Seq<u8>,
    pub pq_pk: Seq<u8>,
    pub sig_pk_pq: Seq<u8>,
    pub sig_pk_ed: Seq<u8>,
}

impl View for PublicBundle {
    type V = PublicView;

    open spec fn view(&self) -> PublicView {
        PublicView {
            ecdh_pk: self.ecdh_pk@,
            pq_pk: self.pq_pk@,
            sig_pk_pq: self.sig_pk_pq@,
            sig_pk_ed: self.sig_pk_ed@,
        }
    }
}

impl Drop for PublicBundle {
    /// Wipes the keys.
    fn drop(&mut self)
        opens_invariants none
        no_unwind
    {
        wipe_key(&mut self.ecdh_pk);
        wipe_vec(&mut self.pq_pk);
        wipe_vec(&mut self.sig_pk_pq);
        wipe_key(&mut self.sig_pk_ed);
    }
}

/// The secret keys of a party.
#[derive(Clone)]
pub struct SecretBundle {
    /// X25519 secret key.
    pub ecdh_sk: [u8; 32],
    /// ML-KEM-768 secret key.
    pub pq_sk: Vec<u8>,
    /// ML-DSA-65 secret key.
    pub sig_sk_pq: Vec<u8>,
    /// Ed25519 seed.
    pub sig_sk_ed: [u8; 32],
}

/// What a secret bundle holds.
#[verifier::ext_equal]
pub struct SecretView {
    pub ecdh_sk: Seq<u8>,
    pub pq_sk: Seq<u8>,
    pub sig_sk_pq: Seq<u8>,
    pub sig_sk_ed: Seq<u8>,
}

impl View for SecretBundle {
    type V = SecretView;

    open spec fn view(&self) -> SecretView {
        SecretView {
            ecdh_sk: self.ecdh_sk@,
            pq_sk: self.pq_sk@,
            sig_sk_pq: self.sig_sk_pq@,
            sig_sk_ed: self.sig_sk_ed@,
        }
    }
}

impl Drop for SecretBundle {
    /// Wipes the keys.
    fn drop(&mut self)
        opens_invariants none
        no_unwind
    {
        wipe_key(&mut self.ecdh_sk);
        wipe_vec(&mut self.pq_sk);
        wipe_vec(&mut self.sig_sk_pq);
        wipe_key(&mut self.sig_sk_ed);
    }
}

// ----------------------------------------------------------------------
// Argon2id parameters
// ----------------------------------------------------------------------

/// Parameters of Argon2id: memory in KiB, passes, lanes.
#[derive(Clone, Copy)]
pub struct Argon2idParams {
    pub m_cost_kib: u32,
    pub t_cost: u32,
    pub parallelism: u32,
}

impl Default for Argon2idParams {
    /// The parameters of new keystores: 96 MiB, 4 passes, 4 lanes.
    fn default() -> (p: Argon2idParams)
        ensures
            p.m_cost_kib == 96 * 1024,
            p.t_cost == 4,
            p.parallelism == 4,
    {
        Argon2idParams { m_cost_kib: 96 * 1024, t_cost: 4, parallelism: 4 }
    }
}

/// Whether parameters meet the bare minimum of Argon2id.
pub open spec fn minimal_params(p: Argon2idParams) -> bool {
    p.m_cost_kib >= 8 && p.t_cost >= 1 && p.parallelism >= 1
}

/// Checks that parameters meet the bare minimum of Argon2id: 8 KiB, one pass, one
/// lane. This is no security policy.
pub fn validate_argon2_params(p: &Argon2idParams) -> (r: Result<(), ()>)
    ensures
        r is Ok <==> minimal_params(*p),
        r is Ok <==> p.m_cost_kib >= 8 && p.t_cost >= 1 && p.parallelism >= 1,
{
    if p.m_cost_kib < 8 {
        return Err(());
    }
    if p.t_cost < 1 {
        return Err(());
    }
    if p.parallelism < 1 {
        return Err(());
    }
    Ok(())
}

/// Derives a 32-byte key from a passphrase with Argon2id. Fails exactly on the
/// inputs that Argon2id does not take.
pub fn pbkdf(pass: &str, salt: &[u8], m_cost_kib: u32, t_cost: u32, parallelism: u32) -> (key:
    Result<[u8; 32], ()>)
    ensures
        key is Ok <==> crypto::argon2id_accepts(
            pass.spec_bytes().len(),
            salt@.len(),
            m_cost_kib,
            t_cost,
            parallelism,
        ),
        key matches Ok(k) ==> k@ == crypto::argon2id(
            pass.spec_bytes(),
            salt@,
            m_cost_kib,
            t_cost,
            parallelism,
        ),
{
    if parallelism > 0xFF_FFFF {
        return Err(());
    }
    argon2id_hash(pass.as_bytes(), salt, m_cost_kib, t_cost, parallelism)
}

// ----------------------------------------------------------------------
// The secret blob
// ----------------------------------------------------------------------

/// A byte string behind its length.
pub open spec fn prefixed(s: Seq<u8>) -> Seq<u8> {
    util::be32(s.len() as int) + s
}

/// The secret blob: four keys, each behind its length.
pub open spec fn secret_blob(
    ecdh_sk: Seq<u8>,
    pq_sk: Seq<u8>,
    sig_sk_pq: Seq<u8>,
    sig_sk_ed: Seq<u8>,
) -> Seq<u8> {
    prefixed(ecdh_sk) + prefixed(pq_sk) + prefixed(sig_sk_pq) + prefixed(sig_sk_ed)
}

/// Whether secret keys have the right sizes.
pub open spec fn valid_secret(v: SecretView) -> bool {
    &&& v.ecdh_sk.len() == 32
    &&& v.pq_sk.len() == KEM_SK_LEN
    &&& v.sig_sk_pq.len() == DSA_SK_LEN
    &&& v.sig_sk_ed.len() == 32
}

/// The secret keys that a blob holds, if it is the blob of keys of the right
/// sizes.
pub open spec fn secret_of_blob(blob: Seq<u8>) -> Option<SecretView> {
    let v = SecretView {
        ecdh_sk: blob.subrange(4, 36),
        pq_sk: blob.subrange(40, 2440),
        sig_sk_pq: blob.subrange(2444, 6476),
        sig_sk_ed: blob.subrange(6480, 6512),
    };
    if blob.len() == 6512 && blob == secret_blob(v.ecdh_sk, v.pq_sk, v.sig_sk_pq, v.sig_sk_ed) {
        Some(v)
    } else {
        None
    }
}

/// Secret keys of the right sizes are read back from their blob.
pub proof fn lemma_secret_blob_roundtrip(v: SecretView)
    requires
        valid_secret(v),
    ensures
        secret_of_blob(secret_blob(v.ecdh_sk, v.pq_sk, v.sig_sk_pq, v.sig_sk_ed)) == Some(v),
        secret_blob(v.ecdh_sk, v.pq_sk, v.sig_sk_pq, v.sig_sk_ed).len() == 6512,
{
    let b = secret_blob(v.ecdh_sk, v.pq_sk, v.sig_sk_pq, v.sig_sk_ed);
    assert(b.subrange(4, 36) =~= v.ecdh_sk);
    assert(b.subrange(40, 2440) =~= v.pq_sk);
    assert(b.subrange(2444, 6476) =~= v.sig_sk_pq);
    assert(b.subrange(6480, 6512) =~= v.sig_sk_ed);
}

/// Serializes four secret keys, each behind its length.
pub fn encode_secret_blob(ecdh_sk: &[u8], pq_sk: &[u8], sig_sk_pq: &[u8], sig_sk_ed: &[u8]) -> (blob:
    Vec<u8>)
    ensures
        blob@ == secret_blob(ecdh_sk@, pq_sk@, sig_sk_pq@, sig_sk_ed@),
{
    let mut out: Vec<u8> = Vec::new();
    out.extend_from_slice(be_u32(ecdh_sk.len()).as_slice());
    out.extend_from_slice(ecdh_sk);
    out.extend_from_slice(be_u32(pq_sk.len()).as_slice());
    out.extend_from_slice(pq_sk);
    out.extend_from_slice(be_u32(sig_sk_pq.len()).as_slice());
    out.extend_from_slice(sig_sk_pq);
    out.extend_from_slice(be_u32(sig_sk_ed.len()).as_slice());
    out.extend_from_slice(sig_sk_ed);
    assert(out@ =~= secret_blob(ecdh_sk@, pq_sk@, sig_sk_pq@, sig_sk_ed@));
    out
}

/// Reads a field of the given size behind its length at `*off`, and moves `*off`
/// past it.
fn read_field(blob: &[u8], off: &mut usize, size: usize) -> (field: Result<Vec<u8>, ()>)
    requires
        size < 0x1_0000,
        *old(off) <= blob@.len(),
    ensures
        field is Ok <==> *old(off) + 4 + size <= blob@.len() && blob@.subrange(
            *old(off) as int,
            *old(off) + 4,
        ) == util::be32(size as int),
        field matches Ok(f) ==> {
            &&& f@ == blob@.subrange(*old(off) + 4, *old(off) + 4 + size)
            &&& *final(off) == *old(off) + 4 + size
            &&& *final(off) <= blob@.len()
        },
{
    let ghost at = *off as int;
    let n: usize = match read_be_u32(blob, off) {
        Ok(n) => n,
        Err(_) => {
            return Err(());
        },
    };
    proof {
        util::lemma_be32(size as int, blob@.subrange(at, at + 4));
        util::lemma_be32(n as int, blob@.subrange(at, at + 4));
    }
    if n != size || blob.len() - *off < n {
        return Err(());
    }
    let start: usize = *off;
    *off = start + n;
    Ok(slice_to_vec(slice_subrange(blob, start, start + n)))
}

/// Reads a secret blob. Fails exactly when it is not the blob of four keys of the
/// right sizes.
pub fn decode_secret_blob(blob: &[u8]) -> (keys: Result<(Vec<u8>, Vec<u8>, Vec<u8>, Vec<u8>), ()>)
    ensures
        keys is Ok <==> secret_of_blob(blob@) is Some,
        keys matches Ok(k) ==> secret_of_blob(blob@) == Some(
            SecretView { ecdh_sk: k.0@, pq_sk: k.1@, sig_sk_pq: k.2@, sig_sk_ed: k.3@ },
        ) && k.0@.len() == 32 && k.1@.len() == KEM_SK_LEN && k.2@.len() == DSA_SK_LEN && k.3@.len()
            == 32,
{
    let ghost b = blob@;
    proof {
        if secret_of_blob(b) is Some {
            let v = secret_of_blob(b)->0;
            assert(b.subrange(0, 4) =~= util::be32(32));
            assert(b.subrange(36, 40) =~= util::be32(2400));
            assert(b.subrange(2440, 2444) =~= util::be32(4032));
            assert(b.subrange(6476, 6480) =~= util::be32(32));
        }
    }
    let mut off: usize = 0;
    let e: Vec<u8> = match read_field(blob, &mut off, 32) {
        Ok(f) => f,
        Err(_) => {
            return Err(());
        },
    };
    let p: Vec<u8> = match read_field(blob, &mut off, mlkem768::secret_key_bytes()) {
        Ok(f) => f,
        Err(_) => {
            return Err(());
        },
    };
    let s_pq: Vec<u8> = match read_field(blob, &mut off, mldsa65::secret_key_bytes()) {
        Ok(f) => f,
        Err(_) => {
            return Err(());
        },
    };
    let s_ed: Vec<u8> = match read_field(blob, &mut off, 32) {
        Ok(f) => f,
        Err(_) => {
            return Err(());
        },
    };
    if off != blob.len() {
        return Err(());
    }
    assert(b =~= secret_blob(e@, p@, s_pq@, s_ed@));
    Ok((e, p, s_pq, s_ed))
}

// ----------------------------------------------------------------------
// The secret keystore
// ----------------------------------------------------------------------

/// The additional data of a keystore.
pub open spec fn keystore_aad(
    m_cost_kib: u32,
    t_cost: u32,
    parallelism: u32,
    salt: Seq<u8>,
    nonce: Seq<u8>,
) -> Seq<u8> {
    encode_utf8(
        armor::secret_aad_text(
            m_cost_kib,
            t_cost,
            parallelism,
            base64_text::b64(salt),
            base64_text::b64(nonce),
        ),
    )
}

/// What a keystore of the given parts opens to under a passphrase: the key is
/// derived, the ciphertext opened, and the blob read.
pub open spec fn opened_keystore(
    pass: Seq<u8>,
    salt: Seq<u8>,
    nonce: Seq<u8>,
    ct: Seq<u8>,
    m_cost_kib: u32,
    t_cost: u32,
    parallelism: u32,
) -> Option<SecretView> {
    if nonce.len() == SECRET_NONCE_LEN && ct.len() >= TAG_LEN && crypto::argon2id_accepts(
        pass.len(),
        salt.len(),
        m_cost_kib,
        t_cost,
        parallelism,
    ) {
        match crypto::gcm_siv_open(
            crypto::argon2id(pass, salt, m_cost_kib, t_cost, parallelism),
            nonce,
            keystore_aad(m_cost_kib, t_cost, parallelism, salt, nonce),
            ct,
        ) {
            Some(plain) => secret_of_blob(plain),
            None => None,
        }
    } else {
        None
    }
}

/// The secret keys that an armored secret gives up under a passphrase, if it
/// does: the passphrase is not blank, the block is a version 1 keystore with
/// Argon2id version 0x13, and it opens.
pub open spec fn unlocked(arm: Seq<char>, pass: Seq<char>) -> Option<SecretView> {
    if text::trim(pass).len() == 0 {
        None
    } else {
        match block::armor_fields(arm, BEGIN_SEC@, END_SEC@) {
            Some(m) => if armor::field_is(m, "v"@, V@) && armor::field_is(
                m,
                "kdf"@,
                "Argon2id"@,
            ) && armor::field_is(m, "kdf_v"@, "0x13"@) {
                match (
                    armor::number_field(m, "m_cost_kib"@),
                    armor::number_field(m, "t_cost"@),
                    armor::number_field(m, "parallelism"@),
                    armor::bytes_field(m, "salt"@),
                    armor::bytes_field(m, "nonce"@),
                    armor::bytes_field(m, "ct"@),
                ) {
                    (Some(mc), Some(tc), Some(pc), Some(salt), Some(nonce), Some(ct)) => {
                        opened_keystore(encode_utf8(pass), salt, nonce, ct, mc, tc, pc)
                    },
                    _ => None,
                }
            } else {
                None
            },
            None => None,
        }
    }
}

/// Opens a keystore of the given parts.
fn open_keystore(
    pass: &str,
    salt: &[u8],
    nonce: &[u8],
    ct: &[u8],
    m_cost_kib: u32,
    t_cost: u32,
    parallelism: u32,
) -> (keys: Result<SecretBundle, ()>)
    ensures
        keys is Ok <==> opened_keystore(
            pass.spec_bytes(),
            salt@,
            nonce@,
            ct@,
            m_cost_kib,
            t_cost,
            parallelism,
        ) is Some,
        keys matches Ok(k) ==> opened_keystore(
            pass.spec_bytes(),
            salt@,
            nonce@,
            ct@,
            m_cost_kib,
            t_cost,
            parallelism,
        ) == Some(k@) && valid_secret(k@),
{
    if nonce.len() != SECRET_NONCE_LEN || ct.len() < TAG_LEN {
        return Err(());
    }
    let mut key: [u8; 32] = match pbkdf(pass, salt, m_cost_kib, t_cost, parallelism) {
        Ok(k) => k,
        Err(_) => {
            return Err(());
        },
    };
    let salt_b64: String = b64e(salt);
    let nonce_b64: String = b64e(nonce);
    let mut aad: Vec<u8> = canonical_secret_aad(
        m_cost_kib,
        t_cost,
        parallelism,
        salt_b64.as_str(),
        nonce_b64.as_str(),
    );
    let opened: Result<Vec<u8>, ()> = aes_gcm_siv_open(
        &key,
        &array_12(nonce),
        aad.as_slice(),
        ct,
    );
    wipe_vec(&mut aad);
    wipe_key(&mut key);
    let mut plain: Vec<u8> = match opened {
        Ok(p) => p,
        Err(_) => {
            return Err(());
        },
    };
    let decoded: Result<(Vec<u8>, Vec<u8>, Vec<u8>, Vec<u8>), ()> = decode_secret_blob(
        plain.as_slice(),
    );
    wipe_vec(&mut plain);
    match decoded {
        Ok((e, pq_sk, sig_sk_pq, ed)) => {
            let mut e: Vec<u8> = e;
            let mut ed: Vec<u8> = ed;
            let ecdh_sk: [u8; 32] = array_32(e.as_slice());
            let sig_sk_ed: [u8; 32] = array_32(ed.as_slice());
            wipe_vec(&mut e);
            wipe_vec(&mut ed);
            Ok(SecretBundle { ecdh_sk, pq_sk, sig_sk_pq, sig_sk_ed })
        },
        Err(_) => Err(()),
    }
}

/// Unlocks an armored secret with its passphrase.
pub fn unlock_secret(arm: &str, pass: &str) -> (keys: Result<SecretBundle, ()>)
    ensures
        keys is Ok <==> unlocked(arm@, pass@) is Some,
        keys matches Ok(k) ==> unlocked(arm@, pass@) == Some(k@) && valid_secret(k@),
{
    if is_blank(pass) {
        return Err(());
    }
    let d: Fields = match parse_armor(arm, BEGIN_SEC, END_SEC) {
        Ok(d) => d,
        Err(_) => {
            return Err(());
        },
    };
    if !check_field(&d, "v", V) || !check_field(&d, "kdf", "Argon2id") || !check_field(
        &d,
        "kdf_v",
        "0x13",
    ) {
        return Err(());
    }
    let m_cost_kib: u32 = match get_number(&d, "m_cost_kib") {
        Ok(n) => n,
        Err(_) => {
            return Err(());
        },
    };
    let t_cost: u32 = match get_number(&d, "t_cost") {
        Ok(n) => n,
        Err(_) => {
            return Err(());
        },
    };
    let parallelism: u32 = match get_number(&d, "parallelism") {
        Ok(n) => n,
        Err(_) => {
            return Err(());
        },
    };
    let salt: Vec<u8> = match get_bytes(&d, "salt") {
        Ok(b) => b,
        Err(_) => {
            return Err(());
        },
    };
    let nonce: Vec<u8> = match get_bytes(&d, "nonce") {
        Ok(b) => b,
        Err(_) => {
            return Err(());
        },
    };
    let ct: Vec<u8> = match get_bytes(&d, "ct") {
        Ok(b) => b,
        Err(_) => {
            return Err(());
        },
    };
    open_keystore(
        pass,
        salt.as_slice(),
        nonce.as_slice(),
        ct.as_slice(),
        m_cost_kib,
        t_cost,
        parallelism,
    )
}

/// UTF-8 takes at most four bytes for a character.
proof fn lemma_utf8_len(s: Seq<char>)
    ensures
        encode_utf8(s).len() <= 4 * s.len(),
    decreases s.len(),
{
    if s.len() > 0 {
        lemma_utf8_len(s.drop_first());
    }
}

/// Decimal text of a number below ten to the `k` has at most `k` digits.
proof fn lemma_decimal_len(n: nat, k: nat)
    requires
        k >= 1,
        n < vstd::arithmetic::power::pow(10, k),
    ensures
        decimal::decimal(n).len() <= k,
    decreases n,
{
    vstd::arithmetic::power::lemma_pow0(10);
    vstd::arithmetic::power::lemma_pow1(10);
    if n >= 10 {
        reveal(vstd::arithmetic::power::pow);
        lemma_decimal_len(n / 10, (k - 1) as nat);
    }
}

/// The additional data of a keystore are short.
proof fn lemma_keystore_aad_len(
    m_cost_kib: u32,
    t_cost: u32,
    parallelism: u32,
    salt: Seq<u8>,
    nonce: Seq<u8>,
)
    requires
        salt.len() == SALT_LEN,
        nonce.len() == SECRET_NONCE_LEN,
    ensures
        keystore_aad(m_cost_kib, t_cost, parallelism, salt, nonce).len() <= 4096,
{
    assert(u32::MAX < vstd::arithmetic::power::pow(10, 10)) by {
        reveal_with_fuel(vstd::arithmetic::power::pow, 11);
    }
    lemma_decimal_len(m_cost_kib as nat, 10);
    lemma_decimal_len(t_cost as nat, 10);
    lemma_decimal_len(parallelism as nat, 10);
    base64_text::lemma_b64_len(salt);
    base64_text::lemma_b64_len(nonce);
    let t = armor::secret_aad_text(
        m_cost_kib,
        t_cost,
        parallelism,
        base64_text::b64(salt),
        base64_text::b64(nonce),
    );
    lemma_utf8_len(t);
    reveal_strlit("VELUM-SECRET-v1-AAD");
    reveal_strlit("v");
    reveal_strlit("1");
    reveal_strlit("kdf");
    reveal_strlit("Argon2id");
    reveal_strlit("kdf_v");
    reveal_strlit("0x13");
    reveal_strlit("m_cost_kib");
    reveal_strlit("t_cost");
    reveal_strlit("parallelism");
    reveal_strlit("salt");
    reveal_strlit("nonce:");
    reveal_with_fuel(block::fields_text, 8);
    assert(t.len() <= 1024);
}

/// The ciphertext of a keystore.
pub open spec fn keystore_ct(
    keys: SecretView,
    pass: Seq<u8>,
    salt: Seq<u8>,
    nonce: Seq<u8>,
    m_cost_kib: u32,
    t_cost: u32,
    parallelism: u32,
) -> Seq<u8> {
    crypto::gcm_siv_seal(
        crypto::argon2id(pass, salt, m_cost_kib, t_cost, parallelism),
        nonce,
        keystore_aad(m_cost_kib, t_cost, parallelism, salt, nonce),
        secret_blob(keys.ecdh_sk, keys.pq_sk, keys.sig_sk_pq, keys.sig_sk_ed),
    )
}

/// Whether an armored secret holds keys, locked under a passphrase with the given salt
/// and nonce.
#[verifier::opaque]
pub open spec fn is_sealed(
    arm: Seq<char>,
    keys: SecretView,
    pass: Seq<char>,
    p: Argon2idParams,
    salt: Seq<u8>,
    nonce: Seq<u8>,
) -> bool {
    &&& salt.len() == SALT_LEN
    &&& nonce.len() == SECRET_NONCE_LEN
    &&& arm == armor::secret_text(
        salt,
        nonce,
        keystore_ct(
            keys,
            encode_utf8(pass),
            salt,
            nonce,
            p.m_cost_kib,
            p.t_cost,
            p.parallelism,
        ),
        p.m_cost_kib,
        p.t_cost,
        p.parallelism,
    )
}

/// Whether an armored secret holds keys, locked under a passphrase.
#[verifier::opaque]
pub open spec fn is_locked(
    arm: Seq<char>,
    keys: SecretView,
    pass: Seq<char>,
    p: Argon2idParams,
) -> bool {
    exists|salt: Seq<u8>, nonce: Seq<u8>| is_sealed(arm, keys, pass, p, salt, nonce)
}

/// Locks secret keys under a passphrase, with the given salt and nonce. Fails
/// exactly when Argon2id does not take passphrase and parameters. Unlocking with
/// the passphrase gives the keys back, unless the passphrase is blank.
pub fn seal_secret(
    keys: &SecretBundle,
    pass: &str,
    params: Argon2idParams,
    salt: &[u8],
    nonce: &[u8],
) -> (arm: Result<String, ()>)
    requires
        valid_secret(keys@),
        salt@.len() == SALT_LEN,
        nonce@.len() == SECRET_NONCE_LEN,
    ensures
        arm is Ok <==> crypto::argon2id_accepts(
            pass.spec_bytes().len(),
            SALT_LEN as nat,
            params.m_cost_kib,
            params.t_cost,
            params.parallelism,
        ),
        arm matches Ok(a) ==> {
            &&& a@ == armor::secret_text(
                salt@,
                nonce@,
                keystore_ct(
                    keys@,
                    pass.spec_bytes(),
                    salt@,
                    nonce@,
                    params.m_cost_kib,
                    params.t_cost,
                    params.parallelism,
                ),
                params.m_cost_kib,
                params.t_cost,
                params.parallelism,
            )
            &&& is_sealed(a@, keys@, pass@, params, salt@, nonce@)
            &&& keystore_ct(
                keys@,
                pass.spec_bytes(),
                salt@,
                nonce@,
                params.m_cost_kib,
                params.t_cost,
                params.parallelism,
            ).len() == 6528
            &&& a@ == armor::secret_text(
                salt@,
                nonce@,
                crypto::gcm_siv_seal(
                    crypto::argon2id(
                        pass.spec_bytes(),
                        salt@,
                        params.m_cost_kib,
                        params.t_cost,
                        params.parallelism,
                    ),
                    nonce@,
                    keystore_aad(
                        params.m_cost_kib,
                        params.t_cost,
                        params.parallelism,
                        salt@,
                        nonce@,
                    ),
                    secret_blob(keys@.ecdh_sk, keys@.pq_sk, keys@.sig_sk_pq, keys@.sig_sk_ed),
                ),
                params.m_cost_kib,
                params.t_cost,
                params.parallelism,
            )
            &&& text::trim(pass@).len() > 0 ==> unlocked(a@, pass@) == Some(keys@)
            &&& armor::argon2_params_of(a@) == Some(
                (params.m_cost_kib, params.t_cost, params.parallelism),
            )
        },
{
    reveal(is_sealed);
    let mut key: [u8; 32] = match pbkdf(
        pass,
        salt,
        params.m_cost_kib,
        params.t_cost,
        params.parallelism,
    ) {
        Ok(k) => k,
        Err(_) => {
            return Err(());
        },
    };
    let salt_b64: String = b64e(salt);
    let nonce_b64: String = b64e(nonce);
    let mut aad: Vec<u8> = canonical_secret_aad(
        params.m_cost_kib,
        params.t_cost,
        params.parallelism,
        salt_b64.as_str(),
        nonce_b64.as_str(),
    );
    let mut blob: Vec<u8> = encode_secret_blob(
        keys.ecdh_sk.as_slice(),
        keys.pq_sk.as_slice(),
        keys.sig_sk_pq.as_slice(),
        keys.sig_sk_ed.as_slice(),
    );
    proof {
        lemma_secret_blob_roundtrip(keys@);
        lemma_keystore_aad_len(
            params.m_cost_kib,
            params.t_cost,
            params.parallelism,
            salt@,
            nonce@,
        );
    }
    let sealed: Result<Vec<u8>, ()> = aes_gcm_siv_seal(
        &key,
        &array_12(nonce),
        aad.as_slice(),
        blob.as_slice(),
    );
    wipe_vec(&mut blob);
    wipe_vec(&mut aad);
    wipe_key(&mut key);
    match sealed {
        Ok(ct) => {
            proof {
                armor::lemma_secret_roundtrip(
                    salt@,
                    nonce@,
                    ct@,
                    params.m_cost_kib,
                    params.t_cost,
                    params.parallelism,
                );
            }
            Ok(
                armor_secret(
                    salt,
                    nonce,
                    ct.as_slice(),
                    params.m_cost_kib,
                    params.t_cost,
                    params.parallelism,
                ),
            )
        },
        Err(_) => Err(()),
    }
}

// ----------------------------------------------------------------------
// Changing the passphrase
// ----------------------------------------------------------------------

/// The parameters that a rewrapped keystore gets: the given ones, or those of
/// the old keystore.
pub open spec fn rewrap_params(old_armored: Seq<char>, params: Option<Argon2idParams>) -> Option<
    Argon2idParams,
> {
    match params {
        Some(p) => Some(p),
        None => match armor::argon2_params_of(old_armored) {
            Some((m_cost_kib, t_cost, parallelism)) => Some(
                Argon2idParams { m_cost_kib, t_cost, parallelism },
            ),
            None => None,
        },
    }
}

/// Whether parameters can lock a keystore under a passphrase.
pub open spec fn can_lock(pass: Seq<char>, p: Argon2idParams) -> bool {
    minimal_params(p) && crypto::argon2id_accepts(
        encode_utf8(pass).len(),
        SALT_LEN as nat,
        p.m_cost_kib,
        p.t_cost,
        p.parallelism,
    )
}

/// Locks the keys of an armored secret under a new passphrase, and under new
/// parameters if some are given. The new secret unlocks to the keys of the old
/// one. Fails exactly when a passphrase is blank, the old secret does not unlock,
/// or the parameters cannot lock a keystore.
pub fn rewrap_secret(
    old_armored: &str,
    old_pass: &str,
    new_pass: &str,
    params_opt: Option<Argon2idParams>,
) -> (arm: Result<String, ()>)
    ensures
        arm is Ok <==> {
            &&& text::trim(new_pass@).len() > 0
            &&& unlocked(old_armored@, old_pass@) is Some
            &&& rewrap_params(old_armored@, params_opt) matches Some(p) && can_lock(new_pass@, p)
        },
        params_opt matches Some(p) ==> (arm is Ok <==> {
            &&& text::trim(new_pass@).len() > 0
            &&& unlocked(old_armored@, old_pass@) is Some
            &&& 1 <= p.parallelism <= 0xFF_FFFF
            &&& p.m_cost_kib >= 8 * p.parallelism
            &&& p.t_cost >= 1
            &&& new_pass.spec_bytes().len() <= 0xFFFF_FFFF
        }),
        arm matches Ok(a) ==> {
            let p = rewrap_params(old_armored@, params_opt)->0;
            &&& is_locked(a@, unlocked(old_armored@, old_pass@)->0, new_pass@, p)
            &&& unlocked(a@, new_pass@) == unlocked(old_armored@, old_pass@)
            &&& armor::argon2_params_of(a@) == Some((p.m_cost_kib, p.t_cost, p.parallelism))
        },
{
    if is_blank(old_pass) || is_blank(new_pass) {
        return Err(());
    }
    let keys: SecretBundle = match unlock_secret(old_armored, old_pass) {
        Ok(k) => k,
        Err(_) => {
            return Err(());
        },
    };
    let params: Argon2idParams = match params_opt {
        Some(custom) => custom,
        None => match extract_argon2_params(old_armored) {
            Ok((m_cost_kib, t_cost, parallelism)) => Argon2idParams {
                m_cost_kib,
                t_cost,
                parallelism,
            },
            Err(_) => {
                return Err(());
            },
        },
    };
    if validate_argon2_params(&params).is_err() {
        return Err(());
    }
    let salt: Vec<u8> = random_bytes(SALT_LEN);
    let nonce: Vec<u8> = random_bytes(SECRET_NONCE_LEN);
    let arm: Result<String, ()> = rewrap_keys(
        &keys,
        new_pass,
        params,
        salt.as_slice(),
        nonce.as_slice(),
    );
    proof {
        assert(rewrap_params(old_armored@, params_opt) == Some(params));
        assert(unlocked(old_armored@, old_pass@) == Some(keys@));
    }
    arm
}

/// Locks keys anew, under parameters that meet the minimum.
fn rewrap_keys(
    keys: &SecretBundle,
    pass: &str,
    params: Argon2idParams,
    salt: &[u8],
    nonce: &[u8],
) -> (arm: Result<String, ()>)
    requires
        valid_secret(keys@),
        salt@.len() == SALT_LEN,
        nonce@.len() == SECRET_NONCE_LEN,
        minimal_params(params),
        text::trim(pass@).len() > 0,
    ensures
        arm is Ok <==> can_lock(pass@, params),
        arm is Ok <==> {
            &&& 1 <= params.parallelism <= 0xFF_FFFF
            &&& params.m_cost_kib >= 8 * params.parallelism
            &&& params.t_cost >= 1
            &&& pass.spec_bytes().len() <= 0xFFFF_FFFF
        },
        arm matches Ok(a) ==> {
            &&& is_locked(a@, keys@, pass@, params)
            &&& unlocked(a@, pass@) == Some(keys@)
            &&& armor::argon2_params_of(a@) == Some(
                (params.m_cost_kib, params.t_cost, params.parallelism),
            )
        },
{
    reveal(is_locked);
    seal_secret(keys, pass, params, salt, nonce)
}

/// Locks the keys of an armored secret under a new passphrase and the given
/// parameters.
pub fn rewrap_secret_with_params(
    old_secret: &str,
    old_pass: &str,
    new_pass: &str,
    m_cost_kib: u32,
    t_cost: u32,
    parallelism: u32,
) -> (arm: Result<String, ()>)
    ensures
        arm is Ok <==> {
            &&& text::trim(new_pass@).len() > 0
            &&& unlocked(old_secret@, old_pass@) is Some
            &&& can_lock(new_pass@, (Argon2idParams { m_cost_kib, t_cost, parallelism }))
        },
        arm is Ok <==> {
            &&& text::trim(new_pass@).len() > 0
            &&& unlocked(old_secret@, old_pass@) is Some
            &&& 1 <= parallelism <= 0xFF_FFFF
            &&& m_cost_kib >= 8 * parallelism
            &&& t_cost >= 1
            &&& new_pass.spec_bytes().len() <= 0xFFFF_FFFF
        },
        arm matches Ok(a) ==> {
            &&& is_locked(
                a@,
                unlocked(old_secret@, old_pass@)->0,
                new_pass@,
                Argon2idParams { m_cost_kib, t_cost, parallelism },
            )
            &&& unlocked(a@, new_pass@) == unlocked(old_secret@, old_pass@)
            &&& armor::argon2_params_of(a@) == Some((m_cost_kib, t_cost, parallelism))
        },
{
    let params: Argon2idParams = Argon2idParams { m_cost_kib, t_cost, parallelism };
    rewrap_secret(old_secret, old_pass, new_pass, Some(params))
}

// ----------------------------------------------------------------------
// Key generation
// ----------------------------------------------------------------------

/// The public keys of secret keys. Those of the post-quantum schemes are not
/// computed from the secret keys, they come with them.
pub open spec fn public_of_secret(keys: SecretView, pq_pk: Seq<u8>, sig_pk_pq: Seq<u8>) -> PublicView {
    PublicView {
        ecdh_pk: crypto::x25519_public(keys.ecdh_sk),
        pq_pk,
        sig_pk_pq,
        sig_pk_ed: crypto::ed25519_public(keys.sig_sk_ed),
    }
}

/// Armors a key pair: the public keys, and the secret keys locked under a
/// passphrase with the default parameters. Fails exactly when the passphrase is
/// longer than Argon2id takes.
pub fn assemble_keypair(
    keys: &SecretBundle,
    pq_pk: &[u8],
    sig_pk_pq: &[u8],
    pass: &str,
    salt: &[u8],
    nonce: &[u8],
) -> (pair: Result<(String, String), ()>)
    requires
        valid_secret(keys@),
        pq_pk@.len() == KEM_PK_LEN,
        sig_pk_pq@.len() == DSA_PK_LEN,
        salt@.len() == SALT_LEN,
        nonce@.len() == SECRET_NONCE_LEN,
    ensures
        pair is Ok <==> pass.spec_bytes().len() <= 0xFFFF_FFFF,
        pair matches Ok(p) ==> {
            let public = public_of_secret(keys@, pq_pk@, sig_pk_pq@);
            &&& p.0@ == armor::public_text(
                public.ecdh_pk,
                public.pq_pk,
                public.sig_pk_pq,
                public.sig_pk_ed,
            )
            &&& p.1@ == armor::secret_text(
                salt@,
                nonce@,
                keystore_ct(keys@, pass.spec_bytes(), salt@, nonce@, 98304, 4, 4),
                98304,
                4,
                4,
            )
            &&& is_locked(
                p.1@,
                keys@,
                pass@,
                Argon2idParams { m_cost_kib: 98304, t_cost: 4, parallelism: 4 },
            )
            &&& armor::public_of(p.0@) == Some(public)
            &&& armor::public_list(p.0@) == Some(seq![public])
            &&& text::trim(pass@).len() > 0 ==> unlocked(p.1@, pass@) == Some(keys@)
            &&& armor::argon2_params_of(p.1@) == Some((98304u32, 4u32, 4u32))
        },
{
    let ecdh_pk: [u8; 32] = x25519_public_key(&keys.ecdh_sk);
    let sig_pk_ed: [u8; 32] = ed25519_public_key(&keys.sig_sk_ed);
    let public: String = armor_public(
        ecdh_pk.as_slice(),
        pq_pk,
        sig_pk_pq,
        sig_pk_ed.as_slice(),
    );
    proof {
        armor::lemma_public_roundtrip(public_of_secret(keys@, pq_pk@, sig_pk_pq@));
        reveal(is_locked);
        armor::lemma_public_list_single(public_of_secret(keys@, pq_pk@, sig_pk_pq@));
    }
    let params: Argon2idParams = Argon2idParams::default();
    match seal_secret(keys, pass, params, salt, nonce) {
        Ok(secret) => Ok((public, secret)),
        Err(_) => Err(()),
    }
}

/// Generates a key pair and armors it under a passphrase. Fails exactly when the
/// passphrase is blank or longer than Argon2id takes. The public block is valid and
/// can be encrypted to, the secret block unlocks under the passphrase, and the public keys belong to
/// the secret keys.
pub fn generate_keypair_core(pass: &str) -> (pair: Result<(String, String), ()>)
    ensures
        pair is Ok <==> text::trim(pass@).len() > 0 && pass.spec_bytes().len() <= 0xFFFF_FFFF,
        pair matches Ok(p) ==> is_keypair(p.0@, p.1@, pass@),
{
    if is_blank(pass) {
        return Err(());
    }
    let ecdh_sk: [u8; 32] = x25519_generate();
    let (pq_pk, pq_sk): (Vec<u8>, Vec<u8>) = mlkem_keypair();
    let (sig_pk_pq, sig_sk_pq): (Vec<u8>, Vec<u8>) = mldsa_keypair();
    let mut seed: Vec<u8> = random_bytes(32);
    let sig_sk_ed: [u8; 32] = array_32(seed.as_slice());
    wipe_vec(&mut seed);
    let keys: SecretBundle = SecretBundle { ecdh_sk, pq_sk, sig_sk_pq, sig_sk_ed };
    let salt: Vec<u8> = random_bytes(SALT_LEN);
    let nonce: Vec<u8> = random_bytes(SECRET_NONCE_LEN);
    assemble_keypair(
        &keys,
        pq_pk.as_slice(),
        sig_pk_pq.as_slice(),
        pass,
        salt.as_slice(),
        nonce.as_slice(),
    )
}

/// Whether two armored blocks are a key pair: the secret one unlocks under the
/// passphrase, and the public one holds the public keys that belong to its keys,
/// alone and as a list of recipients.
pub open spec fn is_keypair(public: Seq<char>, secret: Seq<char>, pass: Seq<char>) -> bool {
    &&& unlocked(secret, pass) matches Some(keys)
    &&& armor::public_of(public) matches Some(p)
    &&& armor::public_list(public) == Some(seq![p])
    &&& public == armor::public_block(p)
    &&& is_locked(
        secret,
        keys,
        pass,
        Argon2idParams { m_cost_kib: 98304, t_cost: 4, parallelism: 4 },
    )
    &&& valid_secret(keys)
    &&& p == public_of_secret(keys, p.pq_pk, p.sig_pk_pq)
    &&& crypto::mlkem_pair(p.pq_pk, keys.pq_sk)
    &&& crypto::mldsa_pair(p.sig_pk_pq, keys.sig_sk_pq)
    &&& armor::argon2_params_of(secret) == Some((98304u32, 4u32, 4u32))
}

/// Generates a key pair: an armored public key and an armored secret key.
pub fn generate_keypair(pass: &str) -> (pair: Result<(String, String), ()>)
    ensures
        pair is Ok <==> text::trim(pass@).len() > 0 && pass.spec_bytes().len() <= 0xFFFF_FFFF,
        pair matches Ok(p) ==> is_keypair(p.0@, p.1@, pass@),
{
    generate_keypair_core(pass)
}

/// Whether an armored public key is valid.
pub fn validate_public(arm: &str) -> (r: Result<(), ()>)
    ensures
        r is Ok <==> armor::public_of(arm@) is Some,
{
    match parse_public(arm) {
        Ok(_) => Ok(()),
        Err(_) => Err(()),
    }
}

/// Whether an armored secret unlocks under a passphrase.
pub fn validate_secret(arm: &str, pass: &str) -> (r: Result<(), ()>)
    ensures
        r is Ok <==> unlocked(arm@, pass@) is Some,
{
    match unlock_secret(arm, pass) {
        Ok(_) => Ok(()),
        Err(_) => Err(()),
    }
}

} // verus!
