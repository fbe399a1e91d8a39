//! Armored blocks: the fields that public keys, keystores and messages are read from.

use vstd::prelude::*;
use vstd::slice::*;
use vstd::string::*;
use vstd::utf8::*;

use crate::armor;
use crate::armor::{armor_public, extract_argon2_params, parse_public};
use crate::base64_text;
use crate::block;
use crate::crypto;
use crate::decimal;
use crate::decimal::{format_u32, parse_u32};
use crate::keys;
use crate::keys::{unlock_secret, PublicBundle, PublicView, SecretBundle, SecretView};
use crate::laws::formats::{
    envelope_of, holds_entries, lemma_decoded, lemma_holds_entries, lemma_wire,
};
use crate::laws::keystore::{holds_keys, opened, takes};
use crate::laws::lines::{fields_map, is_block, is_field, lemma_armor_fields, lemma_field, strings};
use crate::laws::texts::{fit_for_use, has_sizes};
use crate::laws::{
    b64, blank, lemma_blank, lemma_key_blob, lemma_keystore_aad, lemma_public_text, public_text,
};
use crate::message;
use crate::message::{binary_from_armor, parse_message, MessageView, ParsedMsg};
use crate::order;
use crate::recipients;
use crate::recipients::{recipients_commitment, EntryView};
use crate::text;
use crate::text::split_armor_lines;
use crate::util::{b64d, b64e};

verus! {

// ----------------------------------------------------------------------
// Values
// ----------------------------------------------------------------------

/// The number that digits stand for, the last counting ones.
pub open spec fn value_of(s: Seq<char>) -> int
    decreases s.len(),
{
    if s.len() == 0 {
        0
    } else {
        10 * value_of(s.drop_last()) + (s.last() as int - '0' as int)
    }
}

/// What follows a plus sign, if a text begins with one.
pub open spec fn after_plus(s: Seq<char>) -> Seq<char> {
    if s.len() > 0 && s[0] == '+' {
        s.skip(1)
    } else {
        s
    }
}

/// Whether a text is a number: digits, perhaps behind a plus sign.
pub open spec fn spells(s: Seq<char>, n: u32) -> bool {
    &&& after_plus(s).len() > 0
    &&& forall|i: int| 0 <= i < after_plus(s).len() ==> '0' <= #[trigger] after_plus(s)[i] <= '9'
    &&& value_of(after_plus(s)) == n
}

/// The two ways to add up digits.
proof fn lemma_value_of(s: Seq<char>)
    ensures
        decimal::digits_value(s) == value_of(s),
    decreases s.len(),
{
    if s.len() > 0 {
        lemma_value_of(s.drop_last());
    }
}

/// A text is read as a number exactly when it spells it.
proof fn lemma_spells(s: Seq<char>, n: u32)
    ensures
        decimal::decimal_value(s) == Some(n) <==> spells(s, n),
{
    let d = decimal::unsigned(s);
    lemma_value_of(d);
    if spells(s, n) {
        assert(d =~= after_plus(s));
        assert(decimal::is_digits(d));
    }
    if decimal::decimal_value(s) == Some(n) {
        lemma_nonnegative(d);
    }
}

/// Digits do not stand for a negative number.
proof fn lemma_nonnegative(d: Seq<char>)
    requires
        forall|i: int| 0 <= i < d.len() ==> '0' <= #[trigger] d[i] <= '9',
    ensures
        value_of(d) >= 0,
    decreases d.len(),
{
    if d.len() > 0 {
        assert forall|i: int| 0 <= i < d.drop_last().len() implies '0' <= #[trigger]
            d.drop_last()[i] <= '9' by {
            assert(d.drop_last()[i] == d[i]);
        }
        lemma_nonnegative(d.drop_last());
        assert('0' <= d[d.len() - 1] <= '9');
    }
}

/// Numbers are read from the texts that spell them, and from no others.
pub proof fn law_parse_number(s: &str, r: Option<u32>)
    requires
        call_ensures(parse_u32, (s,), r),
    ensures
        r matches Some(n) ==> spells(s@, n),
        r is None ==> forall|n: u32| !spells(s@, n),
{
    if r is Some {
        lemma_spells(s@, r->0);
    } else {
        assert forall|n: u32| !spells(s@, n) by {
            lemma_spells(s@, n);
        }
    }
}

/// Numbers are written as their digits, without leading zeros.
pub proof fn law_format_number(n: u32, s: String)
    requires
        call_ensures(format_u32, (n,), s),
    ensures
        spells(s@, n),
        s@[0] == '0' ==> n == 0 && s@.len() == 1,
        '0' <= s@[0] <= '9',
{
    decimal::lemma_decimal_roundtrip(n);
    lemma_spells(s@, n);
    decimal::lemma_decimal_digits(n as nat);
    lemma_first_digit(n as nat);
}

/// The first digit of a number that is not zero is not zero.
proof fn lemma_first_digit(n: nat)
    ensures
        decimal::decimal(n).len() > 0,
        decimal::decimal(n)[0] == '0' ==> n == 0,
        n == 0 ==> decimal::decimal(n).len() == 1,
    decreases n,
{
    if n >= 10 {
        lemma_first_digit(n / 10);
        assert(decimal::decimal(n)[0] == decimal::decimal(n / 10)[0]);
    } else {
        assert(decimal::decimal(n)[0] == decimal::digit(n as int));
    }
}

/// The symbols of Base64, in the order of what they stand for.
pub open spec fn symbols() -> Seq<char> {
    "ABCDEFGHIJKLMNOPQRSTUVWXYZabcdefghijklmnopqrstuvwxyz0123456789+/"@
}

/// The four symbols of three bytes, six bits each.
pub open spec fn four_symbols(a: u8, b: u8, c: u8) -> Seq<char> {
    seq![
        symbols()[a as int / 4],
        symbols()[a as int % 4 * 16 + b as int / 16],
        symbols()[b as int % 16 * 4 + c as int / 64],
        symbols()[c as int % 64],
    ]
}

/// Base64: four symbols for each three bytes; what is missing of the last three is
/// taken as zeros, and shown by one or two signs of equality.
pub open spec fn spelled(data: Seq<u8>) -> Seq<char>
    decreases data.len(),
{
    if data.len() >= 3 {
        four_symbols(data[0], data[1], data[2]) + spelled(data.skip(3))
    } else if data.len() == 2 {
        four_symbols(data[0], data[1], 0).take(3) + "="@
    } else if data.len() == 1 {
        four_symbols(data[0], 0, 0).take(2) + "=="@
    } else {
        seq![]
    }
}

/// A symbol of Base64.
proof fn lemma_symbol(v: int)
    requires
        0 <= v < 64,
    ensures
        base64_text::b64_symbol(v) == symbols()[v],
{
    reveal_strlit("ABCDEFGHIJKLMNOPQRSTUVWXYZabcdefghijklmnopqrstuvwxyz0123456789+/");
}

/// The four symbols of three bytes are those of Base64.
proof fn lemma_four_symbols(a: u8, b: u8, c: u8)
    ensures
        base64_text::b64_quad(a, b, c) == four_symbols(a, b, c),
{
    let (x, y, z) = (a as int, b as int, c as int);
    lemma_symbol(x / 4);
    lemma_symbol(x % 4 * 16 + y / 16);
    lemma_symbol(y % 16 * 4 + z / 64);
    lemma_symbol(z % 64);
}

/// Base64 is spelled with its symbols.
pub proof fn law_base64_spelled(data: Seq<u8>)
    ensures
        b64(data) == spelled(data),
    decreases data.len(),
{
    if data.len() >= 3 {
        lemma_four_symbols(data[0], data[1], data[2]);
        law_base64_spelled(data.skip(3));
    } else if data.len() == 2 {
        lemma_four_symbols(data[0], data[1], 0);
        reveal_strlit("=");
        assert(b64(data) =~= spelled(data));
    } else if data.len() == 1 {
        lemma_four_symbols(data[0], 0, 0);
        reveal_strlit("==");
        assert(b64(data) =~= spelled(data));
    } else {
        assert(b64(data) =~= spelled(data));
    }
}

/// Base64 is read from the text of bytes, and from no other text.
proof fn lemma_bytes(s: Seq<char>, data: Seq<u8>)
    ensures
        base64_text::b64_bytes(s) == Some(data) <==> s == b64(data),
{
    base64_text::lemma_b64_roundtrip(data);
    if base64_text::b64_bytes(s) == Some(data) {
        assert(exists|d: Seq<u8>| base64_text::b64(d) == s);
    }
}

/// Bytes are read from their Base64 text, and from no other text.
pub proof fn law_base64(s: &str, r: Result<Vec<u8>, ()>, x: &[u8], t: String)
    requires
        call_ensures(b64d, (s,), r),
        call_ensures(b64e, (x,), t),
    ensures
        r matches Ok(d) ==> s@ == b64(d@),
        r is Err ==> forall|d: Seq<u8>| #[trigger] b64(d) != s@,
        t@ == b64(x@),
        t@ == s@ ==> (r matches Ok(d) && d@ == x@),
{
    base64_text::lemma_b64_roundtrip(x@);
    if r is Ok {
        lemma_bytes(s@, r->Ok_0@);
    } else {
        assert forall|d: Seq<u8>| #[trigger] b64(d) != s@ by {
            lemma_bytes(s@, d);
        }
    }
}

/// Whether a field is there and has the given value.
pub open spec fn field_says(m: Map<Seq<char>, Seq<char>>, key: Seq<char>, value: Seq<char>) -> bool {
    m.contains_key(key) && m[key] == value
}

/// Whether a field is there and spells the given number.
pub open spec fn has_number(m: Map<Seq<char>, Seq<char>>, key: Seq<char>, n: u32) -> bool {
    m.contains_key(key) && spells(m[key], n)
}

/// A field of bytes.
pub proof fn lemma_bytes_field(m: Map<Seq<char>, Seq<char>>, key: Seq<char>, data: Seq<u8>)
    ensures
        armor::bytes_field(m, key) == Some(data) <==> field_says(m, key, b64(data)),
{
    if m.contains_key(key) {
        lemma_bytes(m[key], data);
    }
}

/// A field of a number.
pub proof fn lemma_number_field(m: Map<Seq<char>, Seq<char>>, key: Seq<char>, n: u32)
    ensures
        armor::number_field(m, key) == Some(n) <==> has_number(m, key, n),
{
    if m.contains_key(key) {
        lemma_spells(m[key], n);
    }
}

// ----------------------------------------------------------------------
// Public keys
// ----------------------------------------------------------------------

/// Whether fields are those of public keys, of version 1.
pub open spec fn public_fields(m: Map<Seq<char>, Seq<char>>, v: PublicView) -> bool {
    &&& field_says(m, "v"@, "1"@)
    &&& field_says(m, "ecdh_pk"@, b64(v.ecdh_pk))
    &&& field_says(m, "pq_pk"@, b64(v.pq_pk))
    &&& field_says(m, "sig_pk_pq"@, b64(v.sig_pk_pq))
    &&& field_says(m, "sig_pk_ed"@, b64(v.sig_pk_ed))
    &&& fit_for_use(v)
}

/// Whether lines are the block of public keys.
pub open spec fn public_lines(
    lines: Seq<Seq<char>>,
    f: Seq<(Seq<char>, Seq<char>)>,
    v: PublicView,
) -> bool {
    &&& is_block(lines, "-----BEGIN VELUM PUBLIC KEY-----"@, "-----END VELUM PUBLIC KEY-----"@, f)
    &&& public_fields(fields_map(f), v)
}

/// Public keys of fields.
proof fn lemma_public_fields(arm: Seq<char>, m: Map<Seq<char>, Seq<char>>, v: PublicView)
    requires
        block::armor_fields(
            arm,
            "-----BEGIN VELUM PUBLIC KEY-----"@,
            "-----END VELUM PUBLIC KEY-----"@,
        ) == Some(m),
    ensures
        armor::public_of(arm) == Some(v) <==> public_fields(m, v),
{
    lemma_bytes_field(m, "ecdh_pk"@, v.ecdh_pk);
    lemma_bytes_field(m, "pq_pk"@, v.pq_pk);
    lemma_bytes_field(m, "sig_pk_pq"@, v.sig_pk_pq);
    lemma_bytes_field(m, "sig_pk_ed"@, v.sig_pk_ed);
}

/// Public keys are read exactly from lines that are their block.
pub proof fn law_public(arm: &str, lines: Vec<String>, r: Result<PublicBundle, ()>)
    requires
        call_ensures(split_armor_lines, (arm,), lines),
        call_ensures(parse_public, (arm,), r),
    ensures
        r is Ok <==> exists|f: Seq<(Seq<char>, Seq<char>)>, v: PublicView|
            public_lines(strings(lines@), f, v),
        r matches Ok(k) ==> exists|f: Seq<(Seq<char>, Seq<char>)>|
            public_lines(strings(lines@), f, k@),
{
    let begin = "-----BEGIN VELUM PUBLIC KEY-----"@;
    let end = "-----END VELUM PUBLIC KEY-----"@;
    let ls = strings(lines@);
    assert(text::texts(lines@) =~= ls);
    lemma_armor_fields(arm@, begin, end);
    if r is Ok {
        let f = choose|f: Seq<(Seq<char>, Seq<char>)>| is_block(ls, begin, end, f);
        lemma_public_fields(arm@, fields_map(f), (r->Ok_0)@);
        assert(public_lines(ls, f, (r->Ok_0)@));
    }
    if exists|f: Seq<(Seq<char>, Seq<char>)>, v: PublicView| public_lines(ls, f, v) {
        let (f, v) = choose|f: Seq<(Seq<char>, Seq<char>)>, v: PublicView| public_lines(ls, f, v);
        lemma_public_fields(arm@, fields_map(f), v);
    }
}

/// Public keys are written as said.
pub proof fn law_armor_public(e: &[u8], p: &[u8], s: &[u8], d: &[u8], arm: String)
    requires
        call_ensures(armor_public, (e, p, s, d), arm),
    ensures
        arm@ == public_text(e@, p@, s@, d@),
{
    lemma_public_text(e@, p@, s@, d@);
}

// ----------------------------------------------------------------------
// Keystores
// ----------------------------------------------------------------------

/// Whether fields are those of a keystore, of version 1 and with Argon2id of version
/// 0x13.
pub open spec fn keystore_fields(
    m: Map<Seq<char>, Seq<char>>,
    salt: Seq<u8>,
    nonce: Seq<u8>,
    ct: Seq<u8>,
    mc: u32,
    tc: u32,
    pc: u32,
) -> bool {
    &&& field_says(m, "v"@, "1"@)
    &&& field_says(m, "kdf"@, "Argon2id"@)
    &&& field_says(m, "kdf_v"@, "0x13"@)
    &&& has_number(m, "m_cost_kib"@, mc)
    &&& has_number(m, "t_cost"@, tc)
    &&& has_number(m, "parallelism"@, pc)
    &&& field_says(m, "salt"@, b64(salt))
    &&& field_says(m, "nonce"@, b64(nonce))
    &&& field_says(m, "ct"@, b64(ct))
}

/// Whether a keystore with the given parts gives up keys under a passphrase.
pub open spec fn gives_up(
    pass: Seq<char>,
    salt: Seq<u8>,
    nonce: Seq<u8>,
    ct: Seq<u8>,
    mc: u32,
    tc: u32,
    pc: u32,
    k: SecretView,
) -> bool {
    &&& !blank(pass)
    &&& nonce.len() == 12
    &&& ct.len() >= 16
    &&& takes(encode_utf8(pass).len(), salt.len(), mc, tc, pc)
    &&& opened(pass, salt, nonce, ct, mc, tc, pc) matches Some(blob) && holds_keys(blob, k)
}

/// A keystore, whatever its lines look like, gives up the keys that its fields say,
/// and no others.
pub proof fn law_unlock_block(
    arm: &str,
    pass: &str,
    lines: Vec<String>,
    f: Seq<(Seq<char>, Seq<char>)>,
    salt: Seq<u8>,
    nonce: Seq<u8>,
    ct: Seq<u8>,
    mc: u32,
    tc: u32,
    pc: u32,
    r: Result<SecretBundle, ()>,
)
    requires
        call_ensures(split_armor_lines, (arm,), lines),
        is_block(
            strings(lines@),
            "-----BEGIN VELUM SECRET KEY-----"@,
            "-----END VELUM SECRET KEY-----"@,
            f,
        ),
        keystore_fields(fields_map(f), salt, nonce, ct, mc, tc, pc),
        call_ensures(unlock_secret, (arm, pass), r),
    ensures
        r matches Ok(k) ==> gives_up(pass@, salt, nonce, ct, mc, tc, pc, k@),
        r is Err ==> forall|k: SecretView| !gives_up(pass@, salt, nonce, ct, mc, tc, pc, k),
{
    let m = fields_map(f);
    assert(text::texts(lines@) =~= strings(lines@));
    lemma_armor_fields(
        arm@,
        "-----BEGIN VELUM SECRET KEY-----"@,
        "-----END VELUM SECRET KEY-----"@,
    );
    lemma_keystore_parts(m, salt, nonce, ct, mc, tc, pc);
    lemma_blank(pass@);
    lemma_keystore_aad(mc, tc, pc, salt, nonce);
    let blob = opened(pass@, salt, nonce, ct, mc, tc, pc)->0;
    if r is Ok {
        lemma_blob((r->Ok_0)@, blob);
    } else {
        assert forall|k: SecretView| !gives_up(pass@, salt, nonce, ct, mc, tc, pc, k) by {
            lemma_blob(k, blob);
        }
    }
}

/// A blob that holds keys is read as those keys, and no other blob is.
proof fn lemma_blob(k: SecretView, blob: Seq<u8>)
    ensures
        keys::secret_of_blob(blob) == Some(k) <==> holds_keys(blob, k),
{
    lemma_key_blob(k.ecdh_sk, k.pq_sk, k.sig_sk_pq, k.sig_sk_ed);
    if holds_keys(blob, k) {
        keys::lemma_secret_blob_roundtrip(k);
    }
}

/// The parts of a keystore, by its fields.
proof fn lemma_keystore_parts(
    m: Map<Seq<char>, Seq<char>>,
    salt: Seq<u8>,
    nonce: Seq<u8>,
    ct: Seq<u8>,
    mc: u32,
    tc: u32,
    pc: u32,
)
    ensures
        armor::number_field(m, "m_cost_kib"@) == Some(mc) <==> has_number(m, "m_cost_kib"@, mc),
        armor::number_field(m, "t_cost"@) == Some(tc) <==> has_number(m, "t_cost"@, tc),
        armor::number_field(m, "parallelism"@) == Some(pc) <==> has_number(m, "parallelism"@, pc),
        armor::bytes_field(m, "salt"@) == Some(salt) <==> field_says(m, "salt"@, b64(salt)),
        armor::bytes_field(m, "nonce"@) == Some(nonce) <==> field_says(m, "nonce"@, b64(nonce)),
        armor::bytes_field(m, "ct"@) == Some(ct) <==> field_says(m, "ct"@, b64(ct)),
{
    lemma_number_field(m, "m_cost_kib"@, mc);
    lemma_number_field(m, "t_cost"@, tc);
    lemma_number_field(m, "parallelism"@, pc);
    lemma_bytes_field(m, "salt"@, salt);
    lemma_bytes_field(m, "nonce"@, nonce);
    lemma_bytes_field(m, "ct"@, ct);
}

/// What gives up keys is a keystore.
pub proof fn law_only_keystores_unlock(
    arm: &str,
    pass: &str,
    lines: Vec<String>,
    r: Result<SecretBundle, ()>,
)
    requires
        call_ensures(split_armor_lines, (arm,), lines),
        call_ensures(unlock_secret, (arm, pass), r),
        r is Ok,
    ensures
        exists|
            f: Seq<(Seq<char>, Seq<char>)>,
            salt: Seq<u8>,
            nonce: Seq<u8>,
            ct: Seq<u8>,
            mc: u32,
            tc: u32,
            pc: u32,
        |
            is_block(
                strings(lines@),
                "-----BEGIN VELUM SECRET KEY-----"@,
                "-----END VELUM SECRET KEY-----"@,
                f,
            ) && #[trigger] keystore_fields(fields_map(f), salt, nonce, ct, mc, tc, pc),
{
    let begin = "-----BEGIN VELUM SECRET KEY-----"@;
    let end = "-----END VELUM SECRET KEY-----"@;
    let ls = strings(lines@);
    assert(text::texts(lines@) =~= ls);
    lemma_armor_fields(arm@, begin, end);
    let f = choose|f: Seq<(Seq<char>, Seq<char>)>| is_block(ls, begin, end, f);
    let m = fields_map(f);
    let salt = armor::bytes_field(m, "salt"@)->0;
    let nonce = armor::bytes_field(m, "nonce"@)->0;
    let ct = armor::bytes_field(m, "ct"@)->0;
    let mc = armor::number_field(m, "m_cost_kib"@)->0;
    let tc = armor::number_field(m, "t_cost"@)->0;
    let pc = armor::number_field(m, "parallelism"@)->0;
    lemma_keystore_parts(m, salt, nonce, ct, mc, tc, pc);
    assert(keystore_fields(fields_map(f), salt, nonce, ct, mc, tc, pc));
}

/// The parameters of a keystore are read exactly where its fields spell them.
pub proof fn law_params(
    arm: &str,
    lines: Vec<String>,
    r: Result<(u32, u32, u32), ()>,
)
    requires
        call_ensures(split_armor_lines, (arm,), lines),
        call_ensures(extract_argon2_params, (arm,), r),
    ensures
        r matches Ok(p) ==> exists|f: Seq<(Seq<char>, Seq<char>)>|
            params_lines(strings(lines@), f, p),
        r is Err ==> forall|f: Seq<(Seq<char>, Seq<char>)>, p: (u32, u32, u32)|
            !params_lines(strings(lines@), f, p),
{
    let begin = "-----BEGIN VELUM SECRET KEY-----"@;
    let end = "-----END VELUM SECRET KEY-----"@;
    let ls = strings(lines@);
    let none: Seq<u8> = seq![];
    assert(text::texts(lines@) =~= ls);
    lemma_armor_fields(arm@, begin, end);
    match r {
        Ok(p) => {
            let f = choose|f: Seq<(Seq<char>, Seq<char>)>| is_block(ls, begin, end, f);
            lemma_keystore_parts(fields_map(f), none, none, none, p.0, p.1, p.2);
            assert(params_lines(ls, f, p));
        },
        Err(_) => {
            assert forall|f: Seq<(Seq<char>, Seq<char>)>, p: (u32, u32, u32)|
                !params_lines(ls, f, p) by {
                lemma_keystore_parts(fields_map(f), none, none, none, p.0, p.1, p.2);
            }
        },
    }
}

/// Whether lines are a block of a secret that spells the parameters.
pub open spec fn params_lines(
    lines: Seq<Seq<char>>,
    f: Seq<(Seq<char>, Seq<char>)>,
    p: (u32, u32, u32),
) -> bool {
    &&& is_block(lines, "-----BEGIN VELUM SECRET KEY-----"@, "-----END VELUM SECRET KEY-----"@, f)
    &&& has_number(fields_map(f), "m_cost_kib"@, p.0)
    &&& has_number(fields_map(f), "t_cost"@, p.1)
    &&& has_number(fields_map(f), "parallelism"@, p.2)
}

// ----------------------------------------------------------------------
// Messages
// ----------------------------------------------------------------------

/// The signature that the text of a signature field gives: its bytes, or none at all
/// where the text is no Base64.
pub open spec fn signature_text(t: Seq<char>, s: Seq<u8>) -> bool {
    t == b64(s) || (s.len() == 0 && forall|d: Seq<u8>| #[trigger] b64(d) != t)
}

/// Whether lines are those of a message: the markers, and between them version 1, the
/// ephemeral key, the nonce, the recipients, the payload, and perhaps a signature, in
/// this order.
pub open spec fn message_lines(
    l: Seq<Seq<char>>,
    v: MessageView,
    sig: Seq<char>,
) -> bool {
    &&& l.len() == if v.signature is Some {
        8int
    } else {
        7
    }
    &&& l[0] == "-----BEGIN VELUM MESSAGE-----"@
    &&& is_field(l[1], "v"@, "1"@)
    &&& is_field(l[2], "enc_ecdh"@, b64(v.enc_ecdh))
    &&& is_field(l[3], "nonce"@, b64(v.nonce))
    &&& is_field(l[4], "recipients"@, b64(v.recipients_blob))
    &&& is_field(l[5], "ct"@, b64(v.ct_and_tag))
    &&& v.signature matches Some(s) ==> is_field(l[6], "signature"@, sig) && signature_text(sig, s)
    &&& l[l.len() - 1] == "-----END VELUM MESSAGE-----"@
    &&& has_sizes(v)
}

/// Lines are read as a message exactly when they are those of one.
proof fn lemma_message_lines(l: Seq<Seq<char>>, v: MessageView)
    ensures
        block::has_markers(l, "-----BEGIN VELUM MESSAGE-----"@, "-----END VELUM MESSAGE-----"@)
            && message::message_of_body(block::body_of(l)) == Some(v) <==> exists|sig: Seq<char>|
            message_lines(l, v, sig),
{
    let body = block::body_of(l);
    lemma_decoded(v.recipients_blob);
    if block::has_markers(l, "-----BEGIN VELUM MESSAGE-----"@, "-----END VELUM MESSAGE-----"@)
        && message::message_of_body(body) == Some(v) {
        assert(message::in_order(body, 0) && message::in_order(body, 1) && message::in_order(
            body,
            2,
        ) && message::in_order(body, 3) && message::in_order(body, 4));
        assert(body[0] == l[1] && body[1] == l[2] && body[2] == l[3] && body[3] == l[4] && body[4]
            == l[5]);
        lemma_field(l[1], "v"@, "1"@);
        lemma_bytes(message::value_at(body, 1), v.enc_ecdh);
        lemma_bytes(message::value_at(body, 2), v.nonce);
        lemma_bytes(message::value_at(body, 3), v.recipients_blob);
        lemma_bytes(message::value_at(body, 4), v.ct_and_tag);
        lemma_field(l[2], "enc_ecdh"@, b64(v.enc_ecdh));
        lemma_field(l[3], "nonce"@, b64(v.nonce));
        lemma_field(l[4], "recipients"@, b64(v.recipients_blob));
        lemma_field(l[5], "ct"@, b64(v.ct_and_tag));
        if body.len() == 6 {
            assert(message::in_order(body, 5));
            assert(body[5] == l[6]);
            let sig = message::value_at(body, 5);
            lemma_field(l[6], "signature"@, sig);
            lemma_signature(sig, v.signature->0);
            assert(message_lines(l, v, sig));
        } else {
            assert(message_lines(l, v, "v"@));
        }
    }
    if exists|sig: Seq<char>| message_lines(l, v, sig) {
        let sig = choose|sig: Seq<char>| message_lines(l, v, sig);
        assert(body[0] == l[1] && body[1] == l[2] && body[2] == l[3] && body[3] == l[4] && body[4]
            == l[5]);
        lemma_field(l[1], "v"@, "1"@);
        lemma_field(l[2], "enc_ecdh"@, b64(v.enc_ecdh));
        lemma_field(l[3], "nonce"@, b64(v.nonce));
        lemma_field(l[4], "recipients"@, b64(v.recipients_blob));
        lemma_field(l[5], "ct"@, b64(v.ct_and_tag));
        assert(message::in_order(body, 0) && message::in_order(body, 1) && message::in_order(
            body,
            2,
        ) && message::in_order(body, 3) && message::in_order(body, 4));
        lemma_bytes(message::value_at(body, 1), v.enc_ecdh);
        lemma_bytes(message::value_at(body, 2), v.nonce);
        lemma_bytes(message::value_at(body, 3), v.recipients_blob);
        lemma_bytes(message::value_at(body, 4), v.ct_and_tag);
        if v.signature is Some {
            assert(body[5] == l[6]);
            lemma_field(l[6], "signature"@, sig);
            assert(message::in_order(body, 5));
            lemma_signature(sig, v.signature->0);
        }
        assert forall|i: int| 0 <= i < body.len() implies #[trigger] message::in_order(body, i) by {
            assert(i == 0 || i == 1 || i == 2 || i == 3 || i == 4 || i == 5);
        }
        assert(message::message_of_body(body)->0 =~= v);
    }
}

/// The signature of a text.
proof fn lemma_signature(t: Seq<char>, s: Seq<u8>)
    ensures
        message::lenient_bytes(t) == s <==> signature_text(t, s),
{
    lemma_bytes(t, s);
    let none: Seq<u8> = seq![];
    if base64_text::b64_bytes(t) is None {
        assert forall|d: Seq<u8>| #[trigger] b64(d) != t by {
            lemma_bytes(t, d);
        }
        if s.len() == 0 {
            assert(s =~= none);
        }
    } else {
        let d = base64_text::b64_bytes(t)->0;
        lemma_bytes(t, d);
        assert(b64(d) == t);
    }
}

/// A message is read exactly from lines that are those of one, and is what they say.
pub proof fn law_message(arm: &str, lines: Vec<String>, r: Result<ParsedMsg, ()>)
    requires
        call_ensures(split_armor_lines, (arm,), lines),
        call_ensures(parse_message, (arm,), r),
    ensures
        r matches Ok(m) ==> exists|sig: Seq<char>| message_lines(strings(lines@), m@, sig),
        r is Err ==> forall|v: MessageView, sig: Seq<char>|
            !message_lines(strings(lines@), v, sig),
{
    let l = strings(lines@);
    assert(text::texts(lines@) =~= l);
    if r is Ok {
        lemma_message_lines(l, (r->Ok_0)@);
    } else {
        assert forall|v: MessageView, sig: Seq<char>| !message_lines(l, v, sig) by {
            lemma_message_lines(l, v);
        }
    }
}

/// The envelope of an armored message is the one without flags that holds what the
/// message says, and the commitment to its recipients.
pub proof fn law_binary_from_armor(
    arm: &str,
    m: Result<ParsedMsg, ()>,
    es: Seq<EntryView>,
    ids: &[[u8; 32]],
    rc: [u8; 32],
    r: Result<Vec<u8>, ()>,
)
    requires
        call_ensures(parse_message, (arm,), m),
        m is Ok ==> holds_entries((m->Ok_0)@.recipients_blob, es),
        ids@.map_values(|i: [u8; 32]| i@) == es.map_values(
            |e: EntryView| crypto::sha256(e.enc_pq),
        ),
        call_ensures(recipients_commitment, (ids,), rc),
        call_ensures(binary_from_armor, (arm,), r),
    ensures
        r is Ok <==> m is Ok && 96 + (m->Ok_0)@.recipients_blob.len() + (
        match (m->Ok_0)@.signature {
            Some(s) => s.len(),
            None => 0,
        }) <= 0xFFFF_FFFF,
        r matches Ok(b) ==> {
            let v = (m->Ok_0)@;
            b@ == envelope_of(
                v.enc_ecdh,
                v.nonce,
                rc@,
                v.recipients_blob,
                match v.signature {
                    Some(s) => s,
                    None => seq![],
                },
                0,
                v.ct_and_tag,
            )
        },
{
    if m is Ok {
        let v = (m->Ok_0)@;
        let blob = v.recipients_blob;
        lemma_commitment_of(blob, es, ids@, rc@);
        if r is Ok {
            lemma_wire(v.enc_ecdh, v.nonce, rc@, blob, v.signature, 0, v.ct_and_tag);
        }
    }
}

/// The commitment to the recipients of a blob.
proof fn lemma_commitment_of(
    blob: Seq<u8>,
    es: Seq<EntryView>,
    ids: Seq<[u8; 32]>,
    rc: Seq<u8>,
)
    requires
        holds_entries(blob, es),
        ids.map_values(|i: [u8; 32]| i@) == es.map_values(
            |e: EntryView| crypto::sha256(e.enc_pq),
        ),
        rc == recipients::commitment(order::id_views(ids)),
    ensures
        message::commitment_of(blob) == rc,
{
    lemma_holds_entries(blob, es);
    recipients::lemma_recipients_roundtrip(es);
    assert(recipients::ids_of(es) =~= es.map_values(|e: EntryView| crypto::sha256(e.enc_pq)));
    assert(order::id_views(ids) =~= recipients::ids_of(es));
}

} // verus!
