//! Keystores: what locks them, what opens them, and what becomes of the keys.

use vstd::prelude::*;
use vstd::slice::*;
use vstd::string::*;
use vstd::utf8::*;

use crate::armor;
use crate::armor::{armor_secret, extract_argon2_params};
use crate::crypto;
use crate::keys;
use crate::keys::{
    decode_secret_blob, encode_secret_blob, generate_keypair, generate_keypair_core, pbkdf, rewrap_secret,
    rewrap_secret_with_params, seal_secret, unlock_secret, validate_argon2_params,
    validate_secret, Argon2idParams, SecretBundle, SecretView,
};
use crate::laws::{
    blank, key_blob, keystore_aad, keystore_text, lemma_blank, lemma_key_blob, lemma_keystore_aad,
    lemma_keystore_text, lemma_public_text, public_text,
};

verus! {

/// Whether Argon2id takes a passphrase of this many bytes, with a salt of this many
/// bytes and these parameters.
pub open spec fn takes(pass_len: nat, salt_len: nat, m: u32, t: u32, p: u32) -> bool {
    &&& 1 <= p <= 0xFF_FFFF
    &&& m >= 8 * p
    &&& t >= 1
    &&& pass_len <= 0xFFFF_FFFF
    &&& 8 <= salt_len <= 0xFFFF_FFFF
}

/// The key of a keystore: Argon2id of all bytes of the passphrase.
pub open spec fn lock_key(pass: Seq<char>, salt: Seq<u8>, m: u32, t: u32, p: u32) -> Seq<u8> {
    crypto::argon2id(encode_utf8(pass), salt, m, t, p)
}

/// What the ciphertext of a keystore opens to under a passphrase.
pub open spec fn opened(
    pass: Seq<char>,
    salt: Seq<u8>,
    nonce: Seq<u8>,
    ct: Seq<u8>,
    m: u32,
    t: u32,
    p: u32,
) -> Option<Seq<u8>> {
    crypto::gcm_siv_open(
        lock_key(pass, salt, m, t, p),
        nonce,
        keystore_aad(m, t, p, salt, nonce),
        ct,
    )
}

/// The ciphertext of a keystore that holds the keys.
pub open spec fn locked_ct(
    k: SecretView,
    pass: Seq<char>,
    salt: Seq<u8>,
    nonce: Seq<u8>,
    m: u32,
    t: u32,
    p: u32,
) -> Seq<u8> {
    crypto::gcm_siv_seal(
        lock_key(pass, salt, m, t, p),
        nonce,
        keystore_aad(m, t, p, salt, nonce),
        key_blob(k.ecdh_sk, k.pq_sk, k.sig_sk_pq, k.sig_sk_ed),
    )
}

/// Whether a blob holds secret keys of the right sizes, and nothing else.
pub open spec fn holds_keys(blob: Seq<u8>, k: SecretView) -> bool {
    &&& k.ecdh_sk.len() == 32
    &&& k.pq_sk.len() == 2400
    &&& k.sig_sk_pq.len() == 4032
    &&& k.sig_sk_ed.len() == 32
    &&& blob == key_blob(k.ecdh_sk, k.pq_sk, k.sig_sk_pq, k.sig_sk_ed)
}

/// A blob that holds keys is read as those keys, and no other blob is read.
proof fn lemma_holds_keys(blob: Seq<u8>, k: SecretView)
    ensures
        keys::secret_of_blob(blob) == Some(k) <==> holds_keys(blob, k),
{
    lemma_key_blob(k.ecdh_sk, k.pq_sk, k.sig_sk_pq, k.sig_sk_ed);
    if holds_keys(blob, k) {
        keys::lemma_secret_blob_roundtrip(k);
    }
}

/// A keystore unlocks under a passphrase exactly when the passphrase is not blank,
/// Argon2id takes it, and the key that is derived from all of its bytes opens the
/// ciphertext to a blob of keys. Those are the keys that come out.
pub proof fn law_unlock(
    salt: Seq<u8>,
    nonce: Seq<u8>,
    ct: Seq<u8>,
    m: u32,
    t: u32,
    p: u32,
    arm: &str,
    pass: &str,
    r: Result<SecretBundle, ()>,
)
    requires
        salt.len() > 0,
        nonce.len() > 0,
        ct.len() > 0,
        arm@ == keystore_text(salt, nonce, ct, m, t, p),
        call_ensures(unlock_secret, (arm, pass), r),
    ensures
        r matches Ok(k) ==> {
            &&& !blank(pass@)
            &&& nonce.len() == 12
            &&& ct.len() >= 16
            &&& takes(encode_utf8(pass@).len(), salt.len(), m, t, p)
            &&& opened(pass@, salt, nonce, ct, m, t, p) matches Some(blob) && holds_keys(blob, k@)
        },
        r is Err ==> {
            ||| blank(pass@)
            ||| nonce.len() != 12
            ||| ct.len() < 16
            ||| !takes(encode_utf8(pass@).len(), salt.len(), m, t, p)
            ||| opened(pass@, salt, nonce, ct, m, t, p) is None
            ||| forall|k: SecretView|
                !holds_keys(opened(pass@, salt, nonce, ct, m, t, p)->0, k)
        },
{
    lemma_keystore_text(salt, nonce, ct, m, t, p);
    lemma_keystore_aad(m, t, p, salt, nonce);
    armor::lemma_secret_roundtrip(salt, nonce, ct, m, t, p);
    lemma_blank(pass@);
    let blob = opened(pass@, salt, nonce, ct, m, t, p)->0;
    match r {
        Ok(k) => {
            lemma_holds_keys(blob, k@);
        },
        Err(_) => {
            assert forall|k: SecretView| holds_keys(blob, k) implies keys::secret_of_blob(blob)
                == Some(k) by {
                lemma_holds_keys(blob, k);
            }
        },
    }
}

/// Keys are locked under Argon2id of all bytes of the passphrase. It fails exactly on
/// what Argon2id does not take.
pub proof fn law_seal(
    k: &SecretBundle,
    pass: &str,
    params: Argon2idParams,
    salt: &[u8],
    nonce: &[u8],
    r: Result<String, ()>,
)
    requires
        salt@.len() == 16,
        nonce@.len() == 12,
        call_ensures(seal_secret, (k, pass, params, salt, nonce), r),
    ensures
        r is Ok <==> takes(
            encode_utf8(pass@).len(),
            16,
            params.m_cost_kib,
            params.t_cost,
            params.parallelism,
        ),
        r matches Ok(arm) ==> arm@ == keystore_text(
            salt@,
            nonce@,
            locked_ct(
                k@,
                pass@,
                salt@,
                nonce@,
                params.m_cost_kib,
                params.t_cost,
                params.parallelism,
            ),
            params.m_cost_kib,
            params.t_cost,
            params.parallelism,
        ),
{
    let m = params.m_cost_kib;
    let t = params.t_cost;
    let p = params.parallelism;
    let ct = locked_ct(k@, pass@, salt@, nonce@, m, t, p);
    lemma_key_blob(k@.ecdh_sk, k@.pq_sk, k@.sig_sk_pq, k@.sig_sk_ed);
    lemma_keystore_aad(m, t, p, salt@, nonce@);
    lemma_keystore_text(salt@, nonce@, ct, m, t, p);
}

/// Keys that were locked under a passphrase come out under it, unless it is blank.
/// Under another passphrase they come out only if the key that is derived from that
/// one opens what the first one's key sealed.
pub proof fn law_other_passphrase(
    k: &SecretBundle,
    pass: &str,
    params: Argon2idParams,
    salt: &[u8],
    nonce: &[u8],
    sealed: Result<String, ()>,
    arm: &str,
    other: &str,
    r: Result<SecretBundle, ()>,
)
    requires
        salt@.len() == 16,
        nonce@.len() == 12,
        call_ensures(seal_secret, (k, pass, params, salt, nonce), sealed),
        sealed matches Ok(a) && arm@ == a@,
        call_ensures(unlock_secret, (arm, other), r),
    ensures
        ({
            let m = params.m_cost_kib;
            let t = params.t_cost;
            let p = params.parallelism;
            let ct = locked_ct(k@, pass@, salt@, nonce@, m, t, p);
            &&& other@ == pass@ && !blank(pass@) ==> (r matches Ok(u) && u@ == k@)
            &&& r matches Ok(u) ==> opened(other@, salt@, nonce@, ct, m, t, p) matches Some(blob)
                && holds_keys(blob, u@)
        }),
{
    let m = params.m_cost_kib;
    let t = params.t_cost;
    let p = params.parallelism;
    let ct = locked_ct(k@, pass@, salt@, nonce@, m, t, p);
    law_seal(k, pass, params, salt, nonce, sealed);
    lemma_blank(pass@);
    lemma_keystore_text(salt@, nonce@, ct, m, t, p);
    lemma_keystore_aad(m, t, p, salt@, nonce@);
    if r is Ok {
        if ct.len() > 0 {
            law_unlock(salt@, nonce@, ct, m, t, p, arm, other, r);
        } else {
            lemma_sealed_len(k, pass, params, salt, nonce, sealed);
        }
    }
}

/// A sealed keystore unlocks, so its ciphertext is not empty.
proof fn lemma_sealed_len(
    k: &SecretBundle,
    pass: &str,
    params: Argon2idParams,
    salt: &[u8],
    nonce: &[u8],
    sealed: Result<String, ()>,
)
    requires
        call_ensures(seal_secret, (k, pass, params, salt, nonce), sealed),
        sealed is Ok,
        salt@.len() == 16,
        nonce@.len() == 12,
    ensures
        locked_ct(
            k@,
            pass@,
            salt@,
            nonce@,
            params.m_cost_kib,
            params.t_cost,
            params.parallelism,
        ).len() == 6528,
{
    let m = params.m_cost_kib;
    let t = params.t_cost;
    let p = params.parallelism;
    lemma_key_blob(k@.ecdh_sk, k@.pq_sk, k@.sig_sk_pq, k@.sig_sk_ed);
    lemma_keystore_aad(m, t, p, salt@, nonce@);
}

/// Rewrapping under given parameters succeeds exactly when the old secret unlocks, the
/// new passphrase is not blank, and Argon2id takes it and the parameters. The new
/// secret holds the keys of the old one, locked under the new passphrase with the new
/// parameters.
pub proof fn law_rewrap(
    old_arm: &str,
    old_pass: &str,
    new_pass: &str,
    m: u32,
    t: u32,
    p: u32,
    old_keys: Result<SecretBundle, ()>,
    r: Result<String, ()>,
)
    requires
        call_ensures(unlock_secret, (old_arm, old_pass), old_keys),
        call_ensures(rewrap_secret_with_params, (old_arm, old_pass, new_pass, m, t, p), r),
    ensures
        r is Ok <==> old_keys is Ok && !blank(new_pass@) && takes(
            encode_utf8(new_pass@).len(),
            16,
            m,
            t,
            p,
        ),
        r matches Ok(a) ==> exists|salt: Seq<u8>, nonce: Seq<u8>|
            salt.len() == 16 && nonce.len() == 12 && a@ == #[trigger] keystore_text(
                salt,
                nonce,
                locked_ct(old_keys->Ok_0@, new_pass@, salt, nonce, m, t, p),
                m,
                t,
                p,
            ),
{
    lemma_blank(new_pass@);
    if r is Ok {
        let params = Argon2idParams { m_cost_kib: m, t_cost: t, parallelism: p };
        lemma_locked(r->Ok_0@, old_keys->Ok_0@, new_pass@, params);
    }
}

/// What it is for an armored secret to hold keys, locked under a passphrase.
proof fn lemma_locked(arm: Seq<char>, k: SecretView, pass: Seq<char>, params: Argon2idParams)
    requires
        keys::is_locked(arm, k, pass, params),
    ensures
        exists|salt: Seq<u8>, nonce: Seq<u8>|
            salt.len() == 16 && nonce.len() == 12 && arm == #[trigger] keystore_text(
                salt,
                nonce,
                locked_ct(
                    k,
                    pass,
                    salt,
                    nonce,
                    params.m_cost_kib,
                    params.t_cost,
                    params.parallelism,
                ),
                params.m_cost_kib,
                params.t_cost,
                params.parallelism,
            ),
{
    reveal(keys::is_locked);
    reveal(keys::is_sealed);
    let m = params.m_cost_kib;
    let t = params.t_cost;
    let p = params.parallelism;
    let (salt, nonce) = choose|salt: Seq<u8>, nonce: Seq<u8>|
        keys::is_sealed(arm, k, pass, params, salt, nonce);
    let ct = locked_ct(k, pass, salt, nonce, m, t, p);
    lemma_key_blob(k.ecdh_sk, k.pq_sk, k.sig_sk_pq, k.sig_sk_ed);
    lemma_keystore_aad(m, t, p, salt, nonce);
    lemma_keystore_text(salt, nonce, ct, m, t, p);
}

/// A rewrapped secret unlocks under the new passphrase to the keys of the old one.
pub proof fn law_rewrap_keeps_keys(
    old_arm: &str,
    old_pass: &str,
    new_pass: &str,
    m: u32,
    t: u32,
    p: u32,
    old_keys: Result<SecretBundle, ()>,
    r: Result<String, ()>,
    new_arm: &str,
    new_keys: Result<SecretBundle, ()>,
    params: Result<(u32, u32, u32), ()>,
)
    requires
        call_ensures(unlock_secret, (old_arm, old_pass), old_keys),
        call_ensures(rewrap_secret_with_params, (old_arm, old_pass, new_pass, m, t, p), r),
        r matches Ok(a) && new_arm@ == a@,
        call_ensures(unlock_secret, (new_arm, new_pass), new_keys),
        call_ensures(extract_argon2_params, (new_arm,), params),
    ensures
        old_keys is Ok,
        new_keys matches Ok(k) && k@ == old_keys->Ok_0@,
        params == Ok::<(u32, u32, u32), ()>((m, t, p)),
{
}

/// Rewrapping without given parameters is rewrapping with those of the old secret.
pub proof fn law_rewrap_default(
    old_arm: &str,
    old_pass: &str,
    new_pass: &str,
    old_params: Result<(u32, u32, u32), ()>,
    old_keys: Result<SecretBundle, ()>,
    r: Result<String, ()>,
    new_arm: &str,
    new_keys: Result<SecretBundle, ()>,
    new_params: Result<(u32, u32, u32), ()>,
)
    requires
        call_ensures(extract_argon2_params, (old_arm,), old_params),
        call_ensures(unlock_secret, (old_arm, old_pass), old_keys),
        call_ensures(
            rewrap_secret,
            (old_arm, old_pass, new_pass, None::<Argon2idParams>),
            r,
        ),
        r matches Ok(a) ==> new_arm@ == a@,
        call_ensures(unlock_secret, (new_arm, new_pass), new_keys),
        call_ensures(extract_argon2_params, (new_arm,), new_params),
    ensures
        r is Ok <==> old_keys is Ok && !blank(new_pass@) && (old_params matches Ok((m, t, p))
            && takes(encode_utf8(new_pass@).len(), 16, m, t, p)),
        r is Ok ==> new_params == old_params && (new_keys matches Ok(k) && k@
            == old_keys->Ok_0@),
{
    lemma_blank(new_pass@);
}

/// Rewrapping with parameters given as a value is rewrapping with them one by one.
pub proof fn law_rewrap_given(
    old_arm: &str,
    old_pass: &str,
    new_pass: &str,
    params: Argon2idParams,
    old_keys: Result<SecretBundle, ()>,
    r: Result<String, ()>,
)
    requires
        call_ensures(unlock_secret, (old_arm, old_pass), old_keys),
        call_ensures(rewrap_secret, (old_arm, old_pass, new_pass, Some(params)), r),
    ensures
        r is Ok <==> old_keys is Ok && !blank(new_pass@) && takes(
            encode_utf8(new_pass@).len(),
            16,
            params.m_cost_kib,
            params.t_cost,
            params.parallelism,
        ),
        r matches Ok(a) ==> exists|salt: Seq<u8>, nonce: Seq<u8>|
            salt.len() == 16 && nonce.len() == 12 && a@ == #[trigger] keystore_text(
                salt,
                nonce,
                locked_ct(
                    old_keys->Ok_0@,
                    new_pass@,
                    salt,
                    nonce,
                    params.m_cost_kib,
                    params.t_cost,
                    params.parallelism,
                ),
                params.m_cost_kib,
                params.t_cost,
                params.parallelism,
            ),
{
    lemma_blank(new_pass@);
    if r is Ok {
        lemma_locked(r->Ok_0@, old_keys->Ok_0@, new_pass@, params);
    }
}

/// Parameters are valid from the bare minimum of Argon2id on, without an upper bound.
pub proof fn law_validate_params(params: &Argon2idParams, r: Result<(), ()>)
    requires
        call_ensures(validate_argon2_params, (params,), r),
    ensures
        r is Ok <==> params.m_cost_kib >= 8 && params.t_cost >= 1 && params.parallelism >= 1,
{
}

/// A secret is valid under a passphrase exactly when it unlocks under it.
pub proof fn law_validate_secret(
    arm: &str,
    pass: &str,
    r: Result<(), ()>,
    keys: Result<SecretBundle, ()>,
)
    requires
        call_ensures(validate_secret, (arm, pass), r),
        call_ensures(unlock_secret, (arm, pass), keys),
    ensures
        r is Ok <==> keys is Ok,
{
}

/// The key of a keystore is Argon2id of the whole passphrase.
pub proof fn law_pbkdf(pass: &str, salt: &[u8], m: u32, t: u32, p: u32, r: Result<[u8; 32], ()>)
    requires
        call_ensures(pbkdf, (pass, salt, m, t, p), r),
    ensures
        r is Ok <==> takes(encode_utf8(pass@).len(), salt@.len(), m, t, p),
        r matches Ok(k) ==> k@ == lock_key(pass@, salt@, m, t, p),
{
}

/// Secret keys are written each behind its length, and read back where they have the
/// right sizes and nothing follows.
pub proof fn law_secret_blob(
    e: &[u8],
    p: &[u8],
    s: &[u8],
    d: &[u8],
    blob: Vec<u8>,
    bytes: &[u8],
    r: Result<(Vec<u8>, Vec<u8>, Vec<u8>, Vec<u8>), ()>,
)
    requires
        call_ensures(encode_secret_blob, (e, p, s, d), blob),
        call_ensures(decode_secret_blob, (bytes,), r),
    ensures
        blob@ == key_blob(e@, p@, s@, d@),
        r matches Ok(k) ==> holds_keys(
            bytes@,
            SecretView { ecdh_sk: k.0@, pq_sk: k.1@, sig_sk_pq: k.2@, sig_sk_ed: k.3@ },
        ),
        r is Err ==> forall|k: SecretView| !holds_keys(bytes@, k),
{
    lemma_key_blob(e@, p@, s@, d@);
    match r {
        Ok(k) => {
            lemma_holds_keys(
                bytes@,
                SecretView { ecdh_sk: k.0@, pq_sk: k.1@, sig_sk_pq: k.2@, sig_sk_ed: k.3@ },
            );
        },
        Err(_) => {
            assert forall|k: SecretView| !holds_keys(bytes@, k) by {
                lemma_holds_keys(bytes@, k);
            }
        },
    }
}

/// How a keystore is armored, and that its parameters are read back.
pub proof fn law_armor_secret(
    salt: &[u8],
    nonce: &[u8],
    ct: &[u8],
    m: u32,
    t: u32,
    p: u32,
    arm: String,
    text: &str,
    params: Result<(u32, u32, u32), ()>,
)
    requires
        call_ensures(armor_secret, (salt, nonce, ct, m, t, p), arm),
        text@ == arm@,
        call_ensures(extract_argon2_params, (text,), params),
    ensures
        arm@ == keystore_text(salt@, nonce@, ct@, m, t, p),
        salt@.len() > 0 && nonce@.len() > 0 && ct@.len() > 0 ==> params == Ok::<
            (u32, u32, u32),
            (),
        >((m, t, p)),
{
    lemma_keystore_text(salt@, nonce@, ct@, m, t, p);
    if salt@.len() > 0 && nonce@.len() > 0 && ct@.len() > 0 {
        armor::lemma_secret_roundtrip(salt@, nonce@, ct@, m, t, p);
    }
}

/// A key pair is generated exactly where the passphrase is not blank and Argon2id takes
/// it. The public block holds the public keys of the secret keys; the secret block is a
/// keystore that holds the secret keys, locked under the passphrase with 96 MiB, four
/// passes and four lanes.
pub proof fn law_generate(
    pass: &str,
    r: Result<(String, String), ()>,
    arm: &str,
    keys: Result<SecretBundle, ()>,
)
    requires
        call_ensures(generate_keypair, (pass,), r) || call_ensures(
            generate_keypair_core,
            (pass,),
            r,
        ),
        r matches Ok(pair) ==> arm@ == pair.1@,
        call_ensures(unlock_secret, (arm, pass), keys),
    ensures
        r is Ok <==> !blank(pass@) && encode_utf8(pass@).len() <= 0xFFFF_FFFF,
        r matches Ok(pair) ==> {
            &&& keys matches Ok(k)
            &&& exists|pq_pk: Seq<u8>, sig_pk_pq: Seq<u8>|
                pq_pk.len() == 1184 && sig_pk_pq.len() == 1952 && crypto::mlkem_pair(
                    pq_pk,
                    k@.pq_sk,
                ) && crypto::mldsa_pair(sig_pk_pq, k@.sig_sk_pq) && pair.0@
                    == #[trigger] public_text(
                    crypto::x25519_public(k@.ecdh_sk),
                    pq_pk,
                    sig_pk_pq,
                    crypto::ed25519_public(k@.sig_sk_ed),
                )
            &&& exists|salt: Seq<u8>, nonce: Seq<u8>|
                salt.len() == 16 && nonce.len() == 12 && pair.1@ == #[trigger] keystore_text(
                    salt,
                    nonce,
                    locked_ct(k@, pass@, salt, nonce, 98304, 4, 4),
                    98304,
                    4,
                    4,
                )
        },
{
    lemma_blank(pass@);
    if r is Ok {
        let pair = r->Ok_0;
        let p = armor::public_of(pair.0@)->0;
        let params = Argon2idParams { m_cost_kib: 98304, t_cost: 4, parallelism: 4 };
        lemma_public_text(p.ecdh_pk, p.pq_pk, p.sig_pk_pq, p.sig_pk_ed);
        lemma_locked(pair.1@, keys->Ok_0@, pass@, params);
    }
}

} // verus!
