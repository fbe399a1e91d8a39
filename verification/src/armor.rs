//! Armored public keys, secret keystores and messages.

use pqcrypto_mldsa::mldsa65;
use pqcrypto_mlkem::mlkem768;
use vstd::prelude::*;
use vstd::slice::*;
use vstd::string::*;
use vstd::utf8::*;

use crate::base64_text;
use crate::block;
use crate::block::{append_fields, build_block, parse_armor, Fields};
use crate::constants::{BEGIN_PUB, BEGIN_SEC, END_PUB, END_SEC, SECRET_AAD_LABEL, V};
use crate::crypto;
use crate::crypto::{ed25519_is_point, DSA_PK_LEN, KEM_PK_LEN};
use crate::decimal;
use crate::decimal::{format_u32, parse_u32};
use crate::keys::{PublicBundle, PublicView};
use crate::text;
use crate::text::{chars_of, find_text_from, same_text, text_of};
use crate::util::{array_32, b64d, b64e};

verus! {

// ----------------------------------------------------------------------
// Fields of known kinds
// ----------------------------------------------------------------------

/// The bytes of a Base64 field.
pub open spec fn bytes_field(m: Map<Seq<char>, Seq<char>>, key: Seq<char>) -> Option<Seq<u8>> {
    if m.contains_key(key) {
        base64_text::b64_bytes(m[key])
    } else {
        None
    }
}

/// The number of a decimal field.
pub open spec fn number_field(m: Map<Seq<char>, Seq<char>>, key: Seq<char>) -> Option<u32> {
    if m.contains_key(key) {
        decimal::decimal_value(m[key])
    } else {
        None
    }
}

/// Whether a field is there and has the given value.
pub open spec fn field_is(
    m: Map<Seq<char>, Seq<char>>,
    key: Seq<char>,
    value: Seq<char>,
) -> bool {
    m.contains_key(key) && m[key] == value
}

/// The bytes of a Base64 field.
pub fn get_bytes(fields: &Fields, key: &str) -> (bytes: Result<Vec<u8>, ()>)
    ensures
        match bytes {
            Ok(b) => bytes_field(fields@, key@) == Some(b@),
            Err(_) => bytes_field(fields@, key@) is None,
        },
{
    match fields.get(key) {
        Some(v) => b64d(v.as_str()),
        None => Err(()),
    }
}

/// The number of a decimal field.
pub fn get_number(fields: &Fields, key: &str) -> (n: Result<u32, ()>)
    ensures
        match n {
            Ok(x) => number_field(fields@, key@) == Some(x),
            Err(_) => number_field(fields@, key@) is None,
        },
{
    match fields.get(key) {
        Some(v) => match parse_u32(v.as_str()) {
            Some(x) => Ok(x),
            None => Err(()),
        },
        None => Err(()),
    }
}

/// Whether a field is there and has the given value.
pub fn check_field(fields: &Fields, key: &str, value: &str) -> (ok: bool)
    ensures
        ok == field_is(fields@, key@, value@),
{
    match fields.get(key) {
        Some(v) => same_text(v.as_str(), value),
        None => false,
    }
}

// ----------------------------------------------------------------------
// Public keys
// ----------------------------------------------------------------------

/// The fields of an armored public key.
pub open spec fn public_fields(
    ecdh_pk: Seq<u8>,
    pq_pk: Seq<u8>,
    sig_pk_pq: Seq<u8>,
    sig_pk_ed: Seq<u8>,
) -> Seq<(Seq<char>, Seq<char>)> {
    seq![
        ("v"@, V@),
        ("ecdh_pk"@, base64_text::b64(ecdh_pk)),
        ("pq_pk"@, base64_text::b64(pq_pk)),
        ("sig_pk_pq"@, base64_text::b64(sig_pk_pq)),
        ("sig_pk_ed"@, base64_text::b64(sig_pk_ed)),
    ]
}

/// An armored public key.
pub open spec fn public_text(
    ecdh_pk: Seq<u8>,
    pq_pk: Seq<u8>,
    sig_pk_pq: Seq<u8>,
    sig_pk_ed: Seq<u8>,
) -> Seq<char> {
    block::block_text(
        BEGIN_PUB@,
        public_fields(ecdh_pk, pq_pk, sig_pk_pq, sig_pk_ed),
        END_PUB@,
    )
}

/// Whether keys have the right sizes and the Ed25519 key is a point.
///
/// X25519 takes every 32 bytes as a public key: each is the coordinate of a point of
/// the curve or of its twist, and the function is defined on both. Of the X25519 key
/// only the length is asked, therefore; whether its point is on the curve itself is
/// not tested. Of the post-quantum keys only the lengths are asked too.
pub open spec fn valid_public(v: PublicView) -> bool {
    &&& v.ecdh_pk.len() == 32
    &&& v.pq_pk.len() == KEM_PK_LEN
    &&& v.sig_pk_pq.len() == DSA_PK_LEN
    &&& v.sig_pk_ed.len() == 32
    &&& crypto::ed25519_point(v.sig_pk_ed)
}

/// The public keys that an armored block holds, if it is a valid one.
pub open spec fn public_of(arm: Seq<char>) -> Option<PublicView> {
    match block::armor_fields(arm, BEGIN_PUB@, END_PUB@) {
        Some(m) => match (
            bytes_field(m, "ecdh_pk"@),
            bytes_field(m, "pq_pk"@),
            bytes_field(m, "sig_pk_pq"@),
            bytes_field(m, "sig_pk_ed"@),
        ) {
            (Some(ecdh_pk), Some(pq_pk), Some(sig_pk_pq), Some(sig_pk_ed)) => {
                let v = PublicView { ecdh_pk, pq_pk, sig_pk_pq, sig_pk_ed };
                if field_is(m, "v"@, V@) && valid_public(v) {
                    Some(v)
                } else {
                    None
                }
            },
            _ => None,
        },
        None => None,
    }
}

/// Serializes public keys.
pub fn armor_public(ecdh_pk: &[u8], pq_pk: &[u8], sig_pk_pq: &[u8], sig_pk_ed: &[u8]) -> (arm:
    String)
    ensures
        arm@ == public_text(ecdh_pk@, pq_pk@, sig_pk_pq@, sig_pk_ed@),
{
    let e: String = b64e(ecdh_pk);
    let p: String = b64e(pq_pk);
    let s: String = b64e(sig_pk_pq);
    let d: String = b64e(sig_pk_ed);
    let fields: [(&str, &str); 5] = [
        ("v", V),
        ("ecdh_pk", e.as_str()),
        ("pq_pk", p.as_str()),
        ("sig_pk_pq", s.as_str()),
        ("sig_pk_ed", d.as_str()),
    ];
    assert(block::field_views(fields@) =~= public_fields(
        ecdh_pk@,
        pq_pk@,
        sig_pk_pq@,
        sig_pk_ed@,
    ));
    build_block(BEGIN_PUB, fields.as_slice(), END_PUB)
}

/// Parses an armored public key. Fails exactly when the block is malformed, its
/// version is not 1, a key is missing or not Base64, a size is wrong, or the
/// Ed25519 key is no point.
///
/// Any 32 bytes are taken as an X25519 key, as `valid_public` says.
pub fn parse_public(arm: &str) -> (keys: Result<PublicBundle, ()>)
    ensures
        keys is Ok <==> public_of(arm@) is Some,
        keys matches Ok(k) ==> public_of(arm@) == Some(k@) && valid_public(k@),
{
    let d: Fields = match parse_armor(arm, BEGIN_PUB, END_PUB) {
        Ok(d) => d,
        Err(_) => {
            return Err(());
        },
    };
    if !check_field(&d, "v", V) {
        return Err(());
    }
    let ecdh_pk: Vec<u8> = match get_bytes(&d, "ecdh_pk") {
        Ok(b) => b,
        Err(_) => {
            return Err(());
        },
    };
    let pq_pk: Vec<u8> = match get_bytes(&d, "pq_pk") {
        Ok(b) => b,
        Err(_) => {
            return Err(());
        },
    };
    let sig_pk_pq: Vec<u8> = match get_bytes(&d, "sig_pk_pq") {
        Ok(b) => b,
        Err(_) => {
            return Err(());
        },
    };
    let sig_pk_ed: Vec<u8> = match get_bytes(&d, "sig_pk_ed") {
        Ok(b) => b,
        Err(_) => {
            return Err(());
        },
    };
    if ecdh_pk.len() != 32 || pq_pk.len() != mlkem768::public_key_bytes() || sig_pk_pq.len()
        != mldsa65::public_key_bytes() || sig_pk_ed.len() != 32 {
        return Err(());
    }
    let e: [u8; 32] = array_32(ecdh_pk.as_slice());
    let ed: [u8; 32] = array_32(sig_pk_ed.as_slice());
    if !ed25519_is_point(&ed) {
        return Err(());
    }
    Ok(PublicBundle { ecdh_pk: e, pq_pk, sig_pk_pq, sig_pk_ed: ed })
}

/// Base64 text holds no white space, and is empty only for no bytes.
pub proof fn lemma_b64_bare(data: Seq<u8>)
    ensures
        block::bare(base64_text::b64(data)),
        data.len() > 0 ==> base64_text::b64(data).len() > 0,
{
    base64_text::lemma_b64_chars(data);
    base64_text::lemma_b64_len(data);
    let t = base64_text::b64(data);
    assert forall|i: int| 0 <= i < t.len() implies !text::is_space(#[trigger] t[i]) by {
        assert(base64_text::is_b64_char(t[i]));
    }
}

/// The version field's key and value.
proof fn lemma_version_field()
    ensures
        block::plain_field(("v"@, V@)),
        "v"@.len() == 1,
        V@.len() == 1,
{
    reveal_strlit("v");
    reveal_strlit("1");
}

/// Valid public keys are read back from their armor.
pub proof fn lemma_public_roundtrip(v: PublicView)
    requires
        valid_public(v),
    ensures
        public_of(public_text(v.ecdh_pk, v.pq_pk, v.sig_pk_pq, v.sig_pk_ed)) == Some(v),
{
    let f = public_fields(v.ecdh_pk, v.pq_pk, v.sig_pk_pq, v.sig_pk_ed);
    lemma_version_field();
    lemma_b64_bare(v.ecdh_pk);
    lemma_b64_bare(v.pq_pk);
    lemma_b64_bare(v.sig_pk_pq);
    lemma_b64_bare(v.sig_pk_ed);
    base64_text::lemma_b64_roundtrip(v.ecdh_pk);
    base64_text::lemma_b64_roundtrip(v.pq_pk);
    base64_text::lemma_b64_roundtrip(v.sig_pk_pq);
    base64_text::lemma_b64_roundtrip(v.sig_pk_ed);
    reveal_strlit("ecdh_pk");
    reveal_strlit("pq_pk");
    reveal_strlit("sig_pk_pq");
    reveal_strlit("sig_pk_ed");
    assert(block::distinct_keys(f)) by {
        assert forall|i: int, j: int| 0 <= i < j < f.len() implies (#[trigger] f[i]).0 != (
        #[trigger] f[j]).0 by {
            assert(f[0].0.len() == 1 && f[1].0.len() == 7 && f[2].0.len() == 5);
            assert(f[3].0[7] == 'p' && f[4].0[7] == 'e' && f[3].0.len() == 9 && f[4].0.len() == 9);
            assert(i == 0 || i == 1 || i == 2 || i == 3);
            assert(j == 1 || j == 2 || j == 3 || j == 4);
        }
    }
    reveal_strlit("-----BEGIN VELUM PUBLIC KEY-----");
    reveal_strlit("-----END VELUM PUBLIC KEY-----");
    block::lemma_block_fields(BEGIN_PUB@, f, END_PUB@);
    block::lemma_pairs_value(f, 0);
    block::lemma_pairs_value(f, 1);
    block::lemma_pairs_value(f, 2);
    block::lemma_pairs_value(f, 3);
    block::lemma_pairs_value(f, 4);
}

// ----------------------------------------------------------------------
// Secret keystores
// ----------------------------------------------------------------------

/// The fields of an armored secret keystore.
pub open spec fn secret_fields(
    salt: Seq<u8>,
    nonce: Seq<u8>,
    ct: Seq<u8>,
    m_cost_kib: u32,
    t_cost: u32,
    parallelism: u32,
) -> Seq<(Seq<char>, Seq<char>)> {
    seq![
        ("v"@, V@),
        ("kdf"@, "Argon2id"@),
        ("kdf_v"@, "0x13"@),
        ("m_cost_kib"@, decimal::decimal(m_cost_kib as nat)),
        ("t_cost"@, decimal::decimal(t_cost as nat)),
        ("parallelism"@, decimal::decimal(parallelism as nat)),
        ("salt"@, base64_text::b64(salt)),
        ("nonce"@, base64_text::b64(nonce)),
        ("ct"@, base64_text::b64(ct)),
    ]
}

/// An armored secret keystore.
pub open spec fn secret_text(
    salt: Seq<u8>,
    nonce: Seq<u8>,
    ct: Seq<u8>,
    m_cost_kib: u32,
    t_cost: u32,
    parallelism: u32,
) -> Seq<char> {
    block::block_text(
        BEGIN_SEC@,
        secret_fields(salt, nonce, ct, m_cost_kib, t_cost, parallelism),
        END_SEC@,
    )
}

/// The additional data of a secret keystore: all that the key derivation and the
/// cipher take from the armor.
pub open spec fn secret_aad_text(
    m_cost_kib: u32,
    t_cost: u32,
    parallelism: u32,
    salt_b64: Seq<char>,
    nonce_b64: Seq<char>,
) -> Seq<char> {
    SECRET_AAD_LABEL@ + seq!['\n'] + block::fields_text(
        seq![
            ("v"@, V@),
            ("kdf"@, "Argon2id"@),
            ("kdf_v"@, "0x13"@),
            ("m_cost_kib"@, decimal::decimal(m_cost_kib as nat)),
            ("t_cost"@, decimal::decimal(t_cost as nat)),
            ("parallelism"@, decimal::decimal(parallelism as nat)),
            ("salt"@, salt_b64),
        ],
    ) + "nonce:"@ + nonce_b64
}

/// Serializes a secret keystore, with the parameters of its key derivation.
pub fn armor_secret(
    salt: &[u8],
    nonce: &[u8],
    ct: &[u8],
    m_cost_kib: u32,
    t_cost: u32,
    parallelism: u32,
) -> (arm: String)
    ensures
        arm@ == secret_text(salt@, nonce@, ct@, m_cost_kib, t_cost, parallelism),
{
    let m: String = format_u32(m_cost_kib);
    let t: String = format_u32(t_cost);
    let p: String = format_u32(parallelism);
    let s: String = b64e(salt);
    let n: String = b64e(nonce);
    let c: String = b64e(ct);
    let fields: [(&str, &str); 9] = [
        ("v", V),
        ("kdf", "Argon2id"),
        ("kdf_v", "0x13"),
        ("m_cost_kib", m.as_str()),
        ("t_cost", t.as_str()),
        ("parallelism", p.as_str()),
        ("salt", s.as_str()),
        ("nonce", n.as_str()),
        ("ct", c.as_str()),
    ];
    assert(block::field_views(fields@) =~= secret_fields(
        salt@,
        nonce@,
        ct@,
        m_cost_kib,
        t_cost,
        parallelism,
    ));
    build_block(BEGIN_SEC, fields.as_slice(), END_SEC)
}

/// The additional data of a secret keystore.
pub fn canonical_secret_aad(
    m_cost_kib: u32,
    t_cost: u32,
    parallelism: u32,
    salt_b64: &str,
    nonce_b64: &str,
) -> (aad: Vec<u8>)
    ensures
        aad@ == encode_utf8(
            secret_aad_text(m_cost_kib, t_cost, parallelism, salt_b64@, nonce_b64@),
        ),
{
    let m: String = format_u32(m_cost_kib);
    let t: String = format_u32(t_cost);
    let p: String = format_u32(parallelism);
    let fields: [(&str, &str); 7] = [
        ("v", V),
        ("kdf", "Argon2id"),
        ("kdf_v", "0x13"),
        ("m_cost_kib", m.as_str()),
        ("t_cost", t.as_str()),
        ("parallelism", p.as_str()),
        ("salt", salt_b64),
    ];
    let mut out: String = String::new();
    out.append(SECRET_AAD_LABEL);
    out.push('\n');
    append_fields(&mut out, fields.as_slice());
    out.append("nonce:");
    out.append(nonce_b64);
    proof {
        assert(block::field_views(fields@) =~= seq![
            ("v"@, V@),
            ("kdf"@, "Argon2id"@),
            ("kdf_v"@, "0x13"@),
            ("m_cost_kib"@, decimal::decimal(m_cost_kib as nat)),
            ("t_cost"@, decimal::decimal(t_cost as nat)),
            ("parallelism"@, decimal::decimal(parallelism as nat)),
            ("salt"@, salt_b64@),
        ]);
        assert(out@ =~= secret_aad_text(m_cost_kib, t_cost, parallelism, salt_b64@, nonce_b64@));
    }
    slice_to_vec(out.as_str().as_bytes())
}

/// The Argon2id parameters of an armored secret: memory, passes, lanes.
pub open spec fn argon2_params_of(arm: Seq<char>) -> Option<(u32, u32, u32)> {
    match block::armor_fields(arm, BEGIN_SEC@, END_SEC@) {
        Some(m) => match (
            number_field(m, "m_cost_kib"@),
            number_field(m, "t_cost"@),
            number_field(m, "parallelism"@),
        ) {
            (Some(a), Some(b), Some(c)) => Some((a, b, c)),
            _ => None,
        },
        None => None,
    }
}

/// Reads the Argon2id parameters of an armored secret.
pub fn extract_argon2_params(secret_armored: &str) -> (params: Result<(u32, u32, u32), ()>)
    ensures
        match params {
            Ok(p) => argon2_params_of(secret_armored@) == Some(p),
            Err(_) => argon2_params_of(secret_armored@) is None,
        },
{
    let d: Fields = match parse_armor(secret_armored, BEGIN_SEC, END_SEC) {
        Ok(d) => d,
        Err(_) => {
            return Err(());
        },
    };
    let m_cost_kib: u32 = match get_number(&d, "m_cost_kib") {
        Ok(n) => n,
        Err(_) => {
            return Err(());
        },
    };
    let t_cost: u32 = match get_number(&d, "t_cost") {
        Ok(n) => n,
        Err(_) => {
            return Err(());
        },
    };
    let parallelism: u32 = match get_number(&d, "parallelism") {
        Ok(n) => n,
        Err(_) => {
            return Err(());
        },
    };
    Ok((m_cost_kib, t_cost, parallelism))
}

/// Decimal text holds no white space and is not empty.
proof fn lemma_decimal_bare(n: u32)
    ensures
        block::bare(decimal::decimal(n as nat)),
        decimal::decimal(n as nat).len() > 0,
{
    decimal::lemma_decimal_digits(n as nat);
}

/// The fields of a secret keystore are read back from its armor.
pub proof fn lemma_secret_roundtrip(
    salt: Seq<u8>,
    nonce: Seq<u8>,
    ct: Seq<u8>,
    m_cost_kib: u32,
    t_cost: u32,
    parallelism: u32,
)
    requires
        salt.len() > 0,
        nonce.len() > 0,
        ct.len() > 0,
    ensures
        block::armor_fields(
            secret_text(salt, nonce, ct, m_cost_kib, t_cost, parallelism),
            BEGIN_SEC@,
            END_SEC@,
        ) matches Some(m) && {
            &&& field_is(m, "v"@, V@)
            &&& field_is(m, "kdf"@, "Argon2id"@)
            &&& field_is(m, "kdf_v"@, "0x13"@)
            &&& number_field(m, "m_cost_kib"@) == Some(m_cost_kib)
            &&& number_field(m, "t_cost"@) == Some(t_cost)
            &&& number_field(m, "parallelism"@) == Some(parallelism)
            &&& field_is(m, "salt"@, base64_text::b64(salt))
            &&& field_is(m, "nonce"@, base64_text::b64(nonce))
            &&& field_is(m, "ct"@, base64_text::b64(ct))
            &&& bytes_field(m, "salt"@) == Some(salt)
            &&& bytes_field(m, "nonce"@) == Some(nonce)
            &&& bytes_field(m, "ct"@) == Some(ct)
        },
        argon2_params_of(secret_text(salt, nonce, ct, m_cost_kib, t_cost, parallelism)) == Some(
            (m_cost_kib, t_cost, parallelism),
        ),
{
    let f = secret_fields(salt, nonce, ct, m_cost_kib, t_cost, parallelism);
    lemma_version_field();
    lemma_b64_bare(salt);
    lemma_b64_bare(nonce);
    lemma_b64_bare(ct);
    base64_text::lemma_b64_roundtrip(salt);
    base64_text::lemma_b64_roundtrip(nonce);
    base64_text::lemma_b64_roundtrip(ct);
    lemma_decimal_bare(m_cost_kib);
    lemma_decimal_bare(t_cost);
    lemma_decimal_bare(parallelism);
    decimal::lemma_decimal_roundtrip(m_cost_kib);
    decimal::lemma_decimal_roundtrip(t_cost);
    decimal::lemma_decimal_roundtrip(parallelism);
    reveal_strlit("kdf");
    reveal_strlit("kdf_v");
    reveal_strlit("Argon2id");
    reveal_strlit("0x13");
    reveal_strlit("m_cost_kib");
    reveal_strlit("t_cost");
    reveal_strlit("parallelism");
    reveal_strlit("salt");
    reveal_strlit("nonce");
    reveal_strlit("ct");
    assert(block::distinct_keys(f)) by {
        assert forall|i: int, j: int| 0 <= i < j < f.len() implies (#[trigger] f[i]).0 != (
        #[trigger] f[j]).0 by {
            assert(f[0].0.len() == 1 && f[1].0.len() == 3 && f[2].0[0] == 'k' && f[2].0.len() == 5);
            assert(f[3].0.len() == 10 && f[4].0.len() == 6 && f[5].0.len() == 11);
            assert(f[6].0.len() == 4 && f[7].0[0] == 'n' && f[7].0.len() == 5 && f[8].0.len() == 2);
            assert(i == 0 || i == 1 || i == 2 || i == 3 || i == 4 || i == 5 || i == 6 || i == 7);
            assert(j == 1 || j == 2 || j == 3 || j == 4 || j == 5 || j == 6 || j == 7 || j == 8);
        }
    }
    reveal_strlit("-----BEGIN VELUM SECRET KEY-----");
    reveal_strlit("-----END VELUM SECRET KEY-----");
    block::lemma_block_fields(BEGIN_SEC@, f, END_SEC@);
    block::lemma_pairs_value(f, 0);
    block::lemma_pairs_value(f, 1);
    block::lemma_pairs_value(f, 2);
    block::lemma_pairs_value(f, 3);
    block::lemma_pairs_value(f, 4);
    block::lemma_pairs_value(f, 5);
    block::lemma_pairs_value(f, 6);
    block::lemma_pairs_value(f, 7);
    block::lemma_pairs_value(f, 8);
}

// ----------------------------------------------------------------------
// Lists of public keys
// ----------------------------------------------------------------------

/// The public keys of all blocks of `s`, or nothing if one is not valid. A begin
/// marker without an end marker behind it ends the list.
pub open spec fn public_blocks(s: Seq<char>) -> Option<Seq<PublicView>>
    decreases s.len(),
{
    match text::find_text(s, BEGIN_PUB@) {
        None => Some(seq![]),
        Some(start) => match text::find_text(s.skip(start), END_PUB@) {
            None => Some(seq![]),
            Some(len) => {
                proof {
                    lemma_block_end(s);
                }
                let end = start + len + END_PUB@.len();
                match (public_of(s.subrange(start, end)), public_blocks(s.skip(end))) {
                    (Some(p), Some(rest)) => Some(seq![p] + rest),
                    _ => None,
                }
            },
        },
    }
}

/// The public keys of a text of armored blocks: all blocks are valid, and there
/// is at least one.
pub open spec fn public_list(s: Seq<char>) -> Option<Seq<PublicView>> {
    match public_blocks(s) {
        Some(l) => if l.len() > 0 {
            Some(l)
        } else {
            None
        },
        None => None,
    }
}

/// Where a pattern is found, it fits.
proof fn lemma_find_text(s: Seq<char>, pattern: Seq<char>)
    ensures
        text::find_text(s, pattern) matches Some(i) ==> 0 <= i && i + pattern.len() <= s.len(),
    decreases s.len(),
{
    if !text::occurs_at(s, pattern, 0) && s.len() > 0 {
        lemma_find_text(s.skip(1), pattern);
    }
}

/// A block is not empty and ends within the text.
pub proof fn lemma_block_end(s: Seq<char>)
    ensures
        text::find_text(s, BEGIN_PUB@) matches Some(start) ==> text::find_text(
            s.skip(start),
            END_PUB@,
        ) matches Some(len) ==> 0 <= start && 0 < start + len + END_PUB@.len() <= s.len(),
{
    reveal_strlit("-----END VELUM PUBLIC KEY-----");
    lemma_find_text(s, BEGIN_PUB@);
    match text::find_text(s, BEGIN_PUB@) {
        Some(start) => {
            lemma_find_text(s.skip(start), END_PUB@);
        },
        None => {},
    }
}

/// The armored block of public keys.
pub open spec fn public_block(v: PublicView) -> Seq<char> {
    public_text(v.ecdh_pk, v.pq_pk, v.sig_pk_pq, v.sig_pk_ed)
}

/// Between its markers, the armored block of public keys has no dash.
proof fn lemma_public_fields_lack(v: PublicView)
    ensures
        block::lacks(
            block::fields_text(public_fields(v.ecdh_pk, v.pq_pk, v.sig_pk_pq, v.sig_pk_ed)),
            '-',
        ),
{
    let f = public_fields(v.ecdh_pk, v.pq_pk, v.sig_pk_pq, v.sig_pk_ed);
    reveal_strlit("v");
    reveal_strlit("1");
    reveal_strlit("ecdh_pk");
    reveal_strlit("pq_pk");
    reveal_strlit("sig_pk_pq");
    reveal_strlit("sig_pk_ed");
    lemma_b64_lacks(v.ecdh_pk);
    lemma_b64_lacks(v.pq_pk);
    lemma_b64_lacks(v.sig_pk_pq);
    lemma_b64_lacks(v.sig_pk_ed);
    assert(forall|i: int|
        0 <= i < f.len() ==> block::lacks((#[trigger] f[i]).0, '-') && block::lacks(f[i].1, '-'));
    block::lemma_fields_lack(f, '-');
}

/// Base64 text has no dash.
proof fn lemma_b64_lacks(data: Seq<u8>)
    ensures
        block::lacks(base64_text::b64(data), '-'),
{
    base64_text::lemma_b64_chars(data);
    let t = base64_text::b64(data);
    assert forall|i: int| 0 <= i < t.len() implies #[trigger] t[i] != '-' by {
        assert(base64_text::is_b64_char(t[i]));
    }
}

/// Where the begin marker of a block stands that follows text without dashes.
proof fn lemma_begin_found(pre: Seq<char>, rest: Seq<char>)
    requires
        block::lacks(pre, '-'),
    ensures
        text::find_text(pre + BEGIN_PUB@ + rest, BEGIN_PUB@) == Some(pre.len() as int),
        BEGIN_PUB@.len() == 32,
{
    reveal_strlit("-----BEGIN VELUM PUBLIC KEY-----");
    let s = pre + BEGIN_PUB@ + rest;
    let n = pre.len() as int;
    assert(s.subrange(n, n + 32) =~= BEGIN_PUB@);
    assert forall|k: int| 0 <= k < n implies !#[trigger] text::occurs_at(s, BEGIN_PUB@, k) by {
        if text::occurs_at(s, BEGIN_PUB@, k) {
            assert(s.subrange(k, k + 32)[0] == s[k]);
            assert(s[k] == pre[k]);
        }
    }
    text::lemma_find_text_is(s, BEGIN_PUB@, n);
}

/// The end marker does not stand in the begin marker and the line end behind it.
proof fn lemma_not_in_begin(t: Seq<char>, k: int)
    requires
        0 <= k < 32,
        t.len() > 32,
        t.take(32) == BEGIN_PUB@,
        t[32] == '\n',
    ensures
        !text::occurs_at(t, END_PUB@, k),
{
    reveal_strlit("-----BEGIN VELUM PUBLIC KEY-----");
    reveal_strlit("-----END VELUM PUBLIC KEY-----");
    if text::occurs_at(t, END_PUB@, k) {
        let w = t.subrange(k, k + 30);
        if k < 27 {
            assert(w[4] == t[k + 4] && w[5] == t[k + 5]);
            assert(t[k + 4] == t.take(32)[k + 4]);
            assert(t[k + 5] == t.take(32)[k + 5]);
            assert(w[4] == '-' && w[5] == 'E');
        } else {
            assert(w[32 - k] == t[32]);
        }
    }
}

/// Where the end marker of a block stands between whose markers there are no dashes.
proof fn lemma_end_found(inner: Seq<char>, rest: Seq<char>)
    requires
        block::lacks(inner, '-'),
    ensures
        text::find_text(BEGIN_PUB@ + seq!['\n'] + inner + END_PUB@ + rest, END_PUB@) == Some(
            33 + inner.len() as int,
        ),
        END_PUB@.len() == 30,
{
    assert(BEGIN_PUB@.len() == 32) by {
        reveal_strlit("-----BEGIN VELUM PUBLIC KEY-----");
    }
    assert(END_PUB@.len() == 30 && END_PUB@[0] == '-') by {
        reveal_strlit("-----END VELUM PUBLIC KEY-----");
    }
    let t = BEGIN_PUB@ + seq!['\n'] + inner + END_PUB@ + rest;
    let m = inner.len() as int;
    assert(t.subrange(33 + m, 33 + m + 30) =~= END_PUB@);
    assert(t.take(32) =~= BEGIN_PUB@);
    assert(t[32] == '\n');
    assert forall|k: int| 0 <= k < 33 + m implies !#[trigger] text::occurs_at(t, END_PUB@, k) by {
        if k < 32 {
            lemma_not_in_begin(t, k);
        } else if text::occurs_at(t, END_PUB@, k) {
            assert(t.subrange(k, k + 30)[0] == t[k]);
            if k > 32 {
                assert(t[k] == inner[k - 33]);
            }
        }
    }
    text::lemma_find_text_is(t, END_PUB@, 33 + m);
}

/// Where the markers of a block stand that follows text without dashes.
proof fn lemma_markers_found(pre: Seq<char>, inner: Seq<char>, rest: Seq<char>)
    requires
        block::lacks(pre, '-'),
        block::lacks(inner, '-'),
    ensures
        ({
            let block = BEGIN_PUB@ + seq!['\n'] + inner + END_PUB@;
            let s = pre + block + rest;
            &&& text::find_text(s, BEGIN_PUB@) == Some(pre.len() as int)
            &&& text::find_text(s.skip(pre.len() as int), END_PUB@) == Some(
                33 + inner.len() as int,
            )
            &&& END_PUB@.len() == 30
            &&& BEGIN_PUB@.len() == 32
        }),
{
    let block = BEGIN_PUB@ + seq!['\n'] + inner + END_PUB@;
    let s = pre + block + rest;
    let after = seq!['\n'] + inner + END_PUB@ + rest;
    lemma_begin_found(pre, after);
    assert(s =~= pre + BEGIN_PUB@ + after);
    lemma_end_found(inner, rest);
    assert(s.skip(pre.len() as int) =~= block + rest);
}

/// A block of valid keys that follows text without dashes is the first of the
/// blocks. The blocks behind it follow, whatever stands there.
pub proof fn lemma_public_block_first(pre: Seq<char>, v: PublicView, rest: Seq<char>)
    requires
        valid_public(v),
        block::lacks(pre, '-'),
    ensures
        public_blocks(pre + public_block(v) + rest) == match public_blocks(rest) {
            Some(list) => Some(seq![v] + list),
            None => None,
        },
{
    let inner = block::fields_text(
        public_fields(v.ecdh_pk, v.pq_pk, v.sig_pk_pq, v.sig_pk_ed),
    );
    let block = public_block(v);
    let s = pre + block + rest;
    lemma_public_fields_lack(v);
    lemma_markers_found(pre, inner, rest);
    lemma_public_roundtrip(v);
    let n = pre.len() as int;
    let end = n + 33 + inner.len() + 30;
    assert(s.subrange(n, end) =~= block);
    assert(s.skip(end) =~= rest);
}

/// Armored blocks of public keys, with `sep` between them.
pub open spec fn joined_blocks(vs: Seq<PublicView>, sep: Seq<char>) -> Seq<char>
    decreases vs.len(),
{
    if vs.len() == 0 {
        seq![]
    } else if vs.len() == 1 {
        public_block(vs[0])
    } else {
        public_block(vs[0]) + sep + joined_blocks(vs.skip(1), sep)
    }
}

/// Blocks of valid keys that are joined are read back as those keys, in order. What
/// stands before and between them has no dashes.
pub proof fn lemma_joined_blocks(pre: Seq<char>, vs: Seq<PublicView>, sep: Seq<char>)
    requires
        forall|i: int| 0 <= i < vs.len() ==> valid_public(#[trigger] vs[i]),
        block::lacks(pre, '-'),
        block::lacks(sep, '-'),
    ensures
        public_blocks(pre + joined_blocks(vs, sep)) == Some(vs),
        vs.len() > 0 ==> public_list(pre + joined_blocks(vs, sep)) == Some(vs),
    decreases vs.len(),
{
    let none: Seq<char> = seq![];
    reveal_strlit("-----BEGIN VELUM PUBLIC KEY-----");
    text::lemma_find_text_none(none, BEGIN_PUB@);
    if vs.len() == 0 {
        assert(pre + joined_blocks(vs, sep) =~= pre);
        text::lemma_find_text_none(pre, BEGIN_PUB@);
        assert(vs =~= Seq::<PublicView>::empty());
    } else if vs.len() == 1 {
        lemma_public_block_first(pre, vs[0], none);
        assert(pre + public_block(vs[0]) + none =~= pre + joined_blocks(vs, sep));
        assert(seq![vs[0]] + Seq::<PublicView>::empty() =~= vs);
    } else {
        let rest = vs.skip(1);
        lemma_joined_blocks(sep, rest, sep);
        lemma_public_block_first(pre, vs[0], sep + joined_blocks(rest, sep));
        assert(pre + public_block(vs[0]) + (sep + joined_blocks(rest, sep)) =~= pre + joined_blocks(
            vs,
            sep,
        ));
        assert(seq![vs[0]] + rest =~= vs);
    }
}

/// The armored block of valid public keys is a list of those keys alone.
pub proof fn lemma_public_list_single(v: PublicView)
    requires
        valid_public(v),
    ensures
        public_list(public_block(v)) == Some(seq![v]),
{
    let none: Seq<char> = seq![];
    lemma_joined_blocks(none, seq![v], none);
    assert(none + joined_blocks(seq![v], none) =~= public_block(v));
}

/// All keys of a list are valid.
pub proof fn lemma_listed_valid(s: Seq<char>)
    ensures
        public_blocks(s) matches Some(list) ==> forall|i: int|
            0 <= i < list.len() ==> valid_public(#[trigger] list[i]),
    decreases s.len(),
{
    lemma_block_end(s);
    match text::find_text(s, BEGIN_PUB@) {
        Some(start) => match text::find_text(s.skip(start), END_PUB@) {
            Some(len) => {
                let end = start + len + END_PUB@.len();
                lemma_listed_valid(s.skip(end));
                match (public_of(s.subrange(start, end)), public_blocks(s.skip(end))) {
                    (Some(p), Some(rest)) => {
                        let list = seq![p] + rest;
                        assert forall|i: int| 0 <= i < list.len() implies valid_public(
                            #[trigger] list[i],
                        ) by {
                            if i > 0 {
                                assert(list[i] == rest[i - 1]);
                            }
                        }
                    },
                    _ => {},
                }
            },
            None => {},
        },
        None => {},
    }
}

/// What the bundles hold.
pub open spec fn public_views(v: Seq<PublicBundle>) -> Seq<PublicView> {
    v.map_values(|b: PublicBundle| b@)
}

/// Parses all armored public keys of a text. Fails exactly when a block is not
/// valid or there is none.
pub fn parse_public_list(input: &str) -> (list: Result<Vec<PublicBundle>, ()>)
    ensures
        list is Ok <==> public_list(input@) is Some,
        list matches Ok(l) ==> public_list(input@) == Some(public_views(l@)) && forall|i: int|
            0 <= i < l@.len() ==> valid_public(#[trigger] public_views(l@)[i]),
{
    let chars: Vec<char> = chars_of(input);
    let begin: Vec<char> = chars_of(BEGIN_PUB);
    let end: Vec<char> = chars_of(END_PUB);
    let mut out: Vec<PublicBundle> = Vec::new();
    let mut at: usize = 0;
    proof {
        assert(chars@.skip(0) =~= input@);
        assert(public_views(out@) =~= Seq::<PublicView>::empty());
        lemma_prepend(public_views(out@), public_blocks(input@));
    }
    loop
        invariant_except_break
            public_blocks(input@) == prepend(
                public_views(out@),
                public_blocks(chars@.skip(at as int)),
            ),
        invariant
            at <= chars.len(),
            chars@ == input@,
            begin@ == BEGIN_PUB@,
            end@ == END_PUB@,
            forall|i: int|
                0 <= i < out@.len() ==> valid_public(#[trigger] public_views(out@)[i]),
        ensures
            public_blocks(input@) == Some(public_views(out@)),
        decreases chars@.len() - at,
    {
        let ghost rest = chars@.skip(at as int);
        proof {
            lemma_block_end(rest);
            assert(public_views(out@) + Seq::<PublicView>::empty() =~= public_views(out@));
        }
        let start: usize = match find_text_from(&chars, at, &begin) {
            Some(i) => i,
            None => {
                break;
            },
        };
        assert(rest.skip(start - at) =~= chars@.skip(start as int));
        let stop: usize = match find_text_from(&chars, start, &end) {
            Some(i) => i + end.len(),
            None => {
                break;
            },
        };
        let block: String = text_of(&chars, start, stop);
        assert(rest.subrange(start - at, stop - at) =~= block@);
        assert(rest.skip(stop - at) =~= chars@.skip(stop as int));
        match parse_public(block.as_str()) {
            Ok(p) => {
                let ghost before = public_views(out@);
                out.push(p);
                proof {
                    assert(public_views(out@) =~= before.push(p@));
                    lemma_prepend_push(before, p@, public_blocks(chars@.skip(stop as int)));
                }
            },
            Err(_) => {
                return Err(());
            },
        }
        at = stop;
    }
    if out.len() == 0 {
        Err(())
    } else {
        Ok(out)
    }
}

/// `init` before the list, if there is one.
spec fn prepend(init: Seq<PublicView>, list: Option<Seq<PublicView>>) -> Option<Seq<PublicView>> {
    match list {
        Some(l) => Some(init + l),
        None => None,
    }
}

proof fn lemma_prepend(init: Seq<PublicView>, list: Option<Seq<PublicView>>)
    requires
        init.len() == 0,
    ensures
        prepend(init, list) == list,
{
    match list {
        Some(l) => {
            assert(init + l =~= l);
        },
        None => {},
    }
}

proof fn lemma_prepend_push(
    init: Seq<PublicView>,
    p: PublicView,
    list: Option<Seq<PublicView>>,
)
    ensures
        prepend(init.push(p), list) == prepend(
            init,
            match list {
                Some(l) => Some(seq![p] + l),
                None => None,
            },
        ),
{
    match list {
        Some(l) => {
            assert(init.push(p) + l =~= init + (seq![p] + l));
        },
        None => {},
    }
}

} // verus!
