//! What the operations are for.
//!
//! These laws speak of calls and of what came back from them. All else that they say
//! is said in the names of the primitives and in plain values: bytes, numbers and
//! text, written out here. The words in which the operations describe themselves stand
//! in the lemmas only; but of a file in progress and of a sink, the state is named.
//!
//! - [`encryption`], [`sealing`]: when encrypting succeeds, and what it makes
//! - [`decryption`], [`delivery`]: who gets a content key, what it opens, and what is
//!   handed over of it
//! - [`roundtrips`]: from one to the other
//! - [`signatures`]: what it takes for a signature to count
//! - [`keystore`]: what locks secret keys, and what opens the lock
//! - [`files`]: the same, piece by piece
//! - [`texts`], [`lines`], [`blocks`], [`lists`]: armor, from its characters to its keys
//! - [`formats`]: envelopes, recipients and trailers, byte by byte
//! - [`parts`]: what the operations are put together from, and the rules for programs

use vstd::prelude::*;
use vstd::utf8::*;

use crate::armor;
use crate::base64_text;
use crate::block;
use crate::crypto;
use crate::decimal;
use crate::handshake;
use crate::keys;
use crate::message;
use crate::text;
use crate::transcript;
use crate::util;

pub mod blocks;
pub mod decryption;
pub mod delivery;
pub mod encryption;
pub mod files;
pub mod formats;
pub mod keystore;
pub mod lines;
pub mod lists;
pub mod parts;
pub mod roundtrips;
pub mod sealing;
pub mod signatures;
pub mod texts;

verus! {

// ----------------------------------------------------------------------
// Numbers and text
// ----------------------------------------------------------------------

/// The `len` bytes of a number, the most significant first.
pub open spec fn number(n: int, len: nat) -> Seq<u8>
    decreases len,
{
    if len == 0 {
        seq![]
    } else {
        number(n / 256, (len - 1) as nat).push((n % 256) as u8)
    }
}

/// Whether a character is white space.
pub open spec fn white(c: char) -> bool {
    ||| c == ' ' || c == '\t' || c == '\n' || c == '\r' || c == '\u{B}' || c == '\u{C}'
    ||| c == '\u{85}' || c == '\u{A0}' || c == '\u{1680}' || c == '\u{2028}' || c == '\u{2029}'
    ||| c == '\u{202F}' || c == '\u{205F}' || c == '\u{3000}'
    ||| 0x2000 <= c as int <= 0x200A
}

/// Whether a text is white space throughout, or empty.
pub open spec fn blank(s: Seq<char>) -> bool {
    forall|i: int| 0 <= i < s.len() ==> white(#[trigger] s[i])
}

/// Base64 with the standard alphabet and padding.
pub open spec fn b64(data: Seq<u8>) -> Seq<char> {
    base64_text::b64(data)
}

/// A line of a text: key, colon and value.
pub open spec fn line(key: Seq<char>, value: Seq<char>) -> Seq<char> {
    key + seq![':'] + value + seq!['\n']
}

/// One more line.
pub proof fn lemma_one_more_line(f: Seq<(Seq<char>, Seq<char>)>, key: Seq<char>, value: Seq<char>)
    ensures
        block::fields_text(f.push((key, value))) == block::fields_text(f) + line(key, value),
        f.len() == 0 ==> block::fields_text(f.push((key, value))) == line(key, value),
{
    let g = f.push((key, value));
    assert(g.drop_last() =~= f);
    assert(g.last() == (key, value));
    if f.len() == 0 {
        assert(block::fields_text(f) =~= Seq::<char>::empty());
        assert(block::fields_text(g) =~= line(key, value));
    }
}

/// The numbers of the formats are written with the most significant byte first.
pub proof fn lemma_numbers(n: int)
    ensures
        util::be16(n) == number(n, 2),
        util::be32(n) == number(n, 4),
        util::be64(n) == number(n, 8),
{
    reveal_with_fuel(number, 9);
    let m = n / 256;
    let k = m / 256;
    let l = k / 256;
    assert(k == n / 0x1_0000);
    assert(l == n / 0x100_0000);
    assert(util::be16(n) =~= number(n, 2));
    assert(util::be32(n) =~= number(n, 4));
    let h = n / 0x1_0000_0000;
    let r = n % 0x1_0000_0000;
    assert(l / 256 == h);
    assert(r % 256 == n % 256);
    assert(r / 256 % 256 == n / 256 % 256);
    assert(r / 0x1_0000 % 256 == n / 0x1_0000 % 256);
    assert(r / 0x100_0000 % 256 == n / 0x100_0000 % 256);
    assert(h / 256 / 256 == h / 0x1_0000);
    assert(h / 256 / 256 / 256 == h / 0x100_0000);
    assert(util::be64(n) =~= number(n, 8));
}

/// White space is what passphrases and lines are trimmed of.
pub proof fn lemma_white(c: char)
    ensures
        text::is_space(c) == white(c),
{
}

/// A text is blank exactly when nothing is left of it without its white space.
pub proof fn lemma_blank(s: Seq<char>)
    ensures
        text::trim(s).len() == 0 <==> blank(s),
{
    lemma_trim_start(s);
    let t = text::trim_start(s);
    lemma_trim_end(t);
    if blank(s) {
        assert(t.len() == 0);
    } else {
        assert(t.len() > 0 && !text::is_space(t[0]));
    }
}

/// What is left behind the leading white space.
proof fn lemma_trim_start(s: Seq<char>)
    ensures
        blank(s) ==> text::trim_start(s).len() == 0,
        !blank(s) ==> text::trim_start(s).len() > 0 && !white(text::trim_start(s)[0]),
    decreases s.len(),
{
    if s.len() > 0 {
        lemma_white(s[0]);
        let t = s.skip(1);
        if white(s[0]) {
            lemma_trim_start(t);
            if blank(t) {
                assert forall|i: int| 0 <= i < s.len() implies white(#[trigger] s[i]) by {
                    if i > 0 {
                        assert(s[i] == t[i - 1]);
                    }
                }
            }
            if blank(s) {
                assert forall|i: int| 0 <= i < t.len() implies white(#[trigger] t[i]) by {
                    assert(t[i] == s[i + 1]);
                }
            }
        }
    }
}

/// What is left before the trailing white space.
proof fn lemma_trim_end(s: Seq<char>)
    ensures
        s.len() > 0 && !white(s[0]) ==> text::trim_end(s).len() > 0,
        s.len() == 0 ==> text::trim_end(s).len() == 0,
    decreases s.len(),
{
    if s.len() > 0 {
        lemma_white(s.last());
        lemma_trim_end(s.drop_last());
    }
}

// ----------------------------------------------------------------------
// The formats, written out
// ----------------------------------------------------------------------

/// Secret keys, each behind its length.
pub open spec fn key_blob(
    ecdh_sk: Seq<u8>,
    pq_sk: Seq<u8>,
    sig_sk_pq: Seq<u8>,
    sig_sk_ed: Seq<u8>,
) -> Seq<u8> {
    number(ecdh_sk.len() as int, 4) + ecdh_sk + (number(pq_sk.len() as int, 4) + pq_sk) + (number(
        sig_sk_pq.len() as int,
        4,
    ) + sig_sk_pq) + (number(sig_sk_ed.len() as int, 4) + sig_sk_ed)
}

/// What a keystore's cipher authenticates.
pub open spec fn keystore_aad(m: u32, t: u32, p: u32, salt: Seq<u8>, nonce: Seq<u8>) -> Seq<u8> {
    encode_utf8(
        "VELUM-SECRET-v1-AAD"@ + seq!['\n'] + (line("v"@, "1"@) + line("kdf"@, "Argon2id"@) + line(
            "kdf_v"@,
            "0x13"@,
        ) + line("m_cost_kib"@, decimal::decimal(m as nat)) + line(
            "t_cost"@,
            decimal::decimal(t as nat),
        ) + line("parallelism"@, decimal::decimal(p as nat)) + line("salt"@, b64(salt)))
            + "nonce:"@ + b64(nonce),
    )
}

/// An armored keystore.
pub open spec fn keystore_text(
    salt: Seq<u8>,
    nonce: Seq<u8>,
    ct: Seq<u8>,
    m: u32,
    t: u32,
    p: u32,
) -> Seq<char> {
    "-----BEGIN VELUM SECRET KEY-----"@ + seq!['\n'] + (line("v"@, "1"@) + line(
        "kdf"@,
        "Argon2id"@,
    ) + line("kdf_v"@, "0x13"@) + line("m_cost_kib"@, decimal::decimal(m as nat)) + line(
        "t_cost"@,
        decimal::decimal(t as nat),
    ) + line("parallelism"@, decimal::decimal(p as nat)) + line("salt"@, b64(salt)) + line(
        "nonce"@,
        b64(nonce),
    ) + line("ct"@, b64(ct))) + "-----END VELUM SECRET KEY-----"@
}

/// An armored public key.
pub open spec fn public_text(
    ecdh_pk: Seq<u8>,
    pq_pk: Seq<u8>,
    sig_pk_pq: Seq<u8>,
    sig_pk_ed: Seq<u8>,
) -> Seq<char> {
    "-----BEGIN VELUM PUBLIC KEY-----"@ + seq!['\n'] + (line("v"@, "1"@) + line(
        "ecdh_pk"@,
        b64(ecdh_pk),
    ) + line("pq_pk"@, b64(pq_pk)) + line("sig_pk_pq"@, b64(sig_pk_pq)) + line(
        "sig_pk_ed"@,
        b64(sig_pk_ed),
    )) + "-----END VELUM PUBLIC KEY-----"@
}

/// An armored message.
pub open spec fn message_text(
    enc_ecdh: Seq<u8>,
    nonce: Seq<u8>,
    recipients: Seq<u8>,
    ct: Seq<u8>,
    signature: Option<Seq<u8>>,
) -> Seq<char> {
    "-----BEGIN VELUM MESSAGE-----"@ + seq!['\n'] + (line("v"@, "1"@) + line(
        "enc_ecdh"@,
        b64(enc_ecdh),
    ) + line("nonce"@, b64(nonce)) + line("recipients"@, b64(recipients)) + line("ct"@, b64(ct)) + (
    match signature {
        Some(s) => line("signature"@, b64(s)),
        None => seq![],
    })) + "-----END VELUM MESSAGE-----"@
}

/// What the cipher of a payload authenticates.
pub open spec fn payload_aad(
    enc_ecdh: Seq<u8>,
    nonce: Seq<u8>,
    recipients: Seq<u8>,
    chunked: bool,
) -> Seq<u8> {
    encode_utf8(
        "VELUM-v1-AAD"@ + seq!['\n'] + (line("v"@, "1"@) + line(
            "stream"@,
            if chunked {
                "Y"@
            } else {
                "N"@
            },
        ) + line("enc_ecdh"@, b64(enc_ecdh)) + line("nonce"@, b64(nonce)) + line(
            "recipients"@,
            b64(recipients),
        )),
    )
}

/// What is signed of a message: its header, and its payload or the digest of it.
pub open spec fn signed_text(
    enc_ecdh: Seq<u8>,
    nonce: Seq<u8>,
    recipients: Seq<u8>,
    rc: Seq<u8>,
    chunked: bool,
    last: Seq<u8>,
) -> Seq<u8> {
    encode_utf8(
        "VELUM-v1-SIGN"@ + seq!['\n'] + (line("v"@, "1"@) + line("enc_ecdh"@, b64(enc_ecdh)) + line(
            "nonce"@,
            b64(nonce),
        ) + line("recipients"@, b64(recipients)) + line(
            "stream"@,
            if chunked {
                "Y"@
            } else {
                "N"@
            },
        ) + line("rc"@, b64(rc))) + line(
            if chunked {
                "digest"@
            } else {
                "ct"@
            },
            b64(last),
        ),
    )
}

/// What the cipher of a wrapped content key authenticates.
pub open spec fn wrap_aad(enc_ecdh: Seq<u8>, id: Seq<u8>, hint: int, rc: Seq<u8>) -> Seq<u8> {
    encode_utf8(
        "VELUM-v1 WRAP-AAD"@ + seq!['\n'] + (line("v"@, "1"@) + line("enc_ecdh"@, b64(enc_ecdh))
            + line("id"@, b64(id)) + line("hint"@, b64(number(hint, 8)))) + "rc:"@ + b64(rc),
    )
}

// ----------------------------------------------------------------------
// The operations write these formats
// ----------------------------------------------------------------------

/// Secret keys are written each behind its length.
pub proof fn lemma_key_blob(e: Seq<u8>, p: Seq<u8>, s: Seq<u8>, d: Seq<u8>)
    ensures
        keys::secret_blob(e, p, s, d) == key_blob(e, p, s, d),
{
    lemma_numbers(e.len() as int);
    lemma_numbers(p.len() as int);
    lemma_numbers(s.len() as int);
    lemma_numbers(d.len() as int);
}

/// What a keystore's cipher authenticates.
pub proof fn lemma_keystore_aad(m: u32, t: u32, p: u32, salt: Seq<u8>, nonce: Seq<u8>)
    ensures
        keys::keystore_aad(m, t, p, salt, nonce) == keystore_aad(m, t, p, salt, nonce),
{
    let f0 = Seq::<(Seq<char>, Seq<char>)>::empty();
    let f1 = f0.push(("v"@, "1"@));
    let f2 = f1.push(("kdf"@, "Argon2id"@));
    let f3 = f2.push(("kdf_v"@, "0x13"@));
    let f4 = f3.push(("m_cost_kib"@, decimal::decimal(m as nat)));
    let f5 = f4.push(("t_cost"@, decimal::decimal(t as nat)));
    let f6 = f5.push(("parallelism"@, decimal::decimal(p as nat)));
    lemma_one_more_line(f0, "v"@, "1"@);
    lemma_one_more_line(f1, "kdf"@, "Argon2id"@);
    lemma_one_more_line(f2, "kdf_v"@, "0x13"@);
    lemma_one_more_line(f3, "m_cost_kib"@, decimal::decimal(m as nat));
    lemma_one_more_line(f4, "t_cost"@, decimal::decimal(t as nat));
    lemma_one_more_line(f5, "parallelism"@, decimal::decimal(p as nat));
    lemma_one_more_line(f6, "salt"@, b64(salt));
    assert(seq![
        ("v"@, crate::constants::V@),
        ("kdf"@, "Argon2id"@),
        ("kdf_v"@, "0x13"@),
        ("m_cost_kib"@, decimal::decimal(m as nat)),
        ("t_cost"@, decimal::decimal(t as nat)),
        ("parallelism"@, decimal::decimal(p as nat)),
        ("salt"@, b64(salt)),
    ] =~= f6.push(("salt"@, b64(salt))));
}

/// How a keystore is armored.
pub proof fn lemma_keystore_text(
    salt: Seq<u8>,
    nonce: Seq<u8>,
    ct: Seq<u8>,
    m: u32,
    t: u32,
    p: u32,
)
    ensures
        armor::secret_text(salt, nonce, ct, m, t, p) == keystore_text(salt, nonce, ct, m, t, p),
{
    let f0 = Seq::<(Seq<char>, Seq<char>)>::empty();
    let f1 = f0.push(("v"@, "1"@));
    let f2 = f1.push(("kdf"@, "Argon2id"@));
    let f3 = f2.push(("kdf_v"@, "0x13"@));
    let f4 = f3.push(("m_cost_kib"@, decimal::decimal(m as nat)));
    let f5 = f4.push(("t_cost"@, decimal::decimal(t as nat)));
    let f6 = f5.push(("parallelism"@, decimal::decimal(p as nat)));
    let f7 = f6.push(("salt"@, b64(salt)));
    let f8 = f7.push(("nonce"@, b64(nonce)));
    lemma_one_more_line(f0, "v"@, "1"@);
    lemma_one_more_line(f1, "kdf"@, "Argon2id"@);
    lemma_one_more_line(f2, "kdf_v"@, "0x13"@);
    lemma_one_more_line(f3, "m_cost_kib"@, decimal::decimal(m as nat));
    lemma_one_more_line(f4, "t_cost"@, decimal::decimal(t as nat));
    lemma_one_more_line(f5, "parallelism"@, decimal::decimal(p as nat));
    lemma_one_more_line(f6, "salt"@, b64(salt));
    lemma_one_more_line(f7, "nonce"@, b64(nonce));
    lemma_one_more_line(f8, "ct"@, b64(ct));
    assert(armor::secret_fields(salt, nonce, ct, m, t, p) =~= f8.push(("ct"@, b64(ct))));
}

/// How public keys are armored.
pub proof fn lemma_public_text(e: Seq<u8>, p: Seq<u8>, s: Seq<u8>, d: Seq<u8>)
    ensures
        armor::public_text(e, p, s, d) == public_text(e, p, s, d),
{
    let f0 = Seq::<(Seq<char>, Seq<char>)>::empty();
    let f1 = f0.push(("v"@, "1"@));
    let f2 = f1.push(("ecdh_pk"@, b64(e)));
    let f3 = f2.push(("pq_pk"@, b64(p)));
    let f4 = f3.push(("sig_pk_pq"@, b64(s)));
    lemma_one_more_line(f0, "v"@, "1"@);
    lemma_one_more_line(f1, "ecdh_pk"@, b64(e));
    lemma_one_more_line(f2, "pq_pk"@, b64(p));
    lemma_one_more_line(f3, "sig_pk_pq"@, b64(s));
    lemma_one_more_line(f4, "sig_pk_ed"@, b64(d));
    assert(armor::public_fields(e, p, s, d) =~= f4.push(("sig_pk_ed"@, b64(d))));
}

/// How a message is armored.
pub proof fn lemma_message_text(v: message::MessageView)
    ensures
        message::armored(v) == message_text(
            v.enc_ecdh,
            v.nonce,
            v.recipients_blob,
            v.ct_and_tag,
            v.signature,
        ),
{
    let f0 = Seq::<(Seq<char>, Seq<char>)>::empty();
    let f1 = f0.push(("v"@, "1"@));
    let f2 = f1.push(("enc_ecdh"@, b64(v.enc_ecdh)));
    let f3 = f2.push(("nonce"@, b64(v.nonce)));
    let f4 = f3.push(("recipients"@, b64(v.recipients_blob)));
    let f5 = f4.push(("ct"@, b64(v.ct_and_tag)));
    lemma_one_more_line(f0, "v"@, "1"@);
    lemma_one_more_line(f1, "enc_ecdh"@, b64(v.enc_ecdh));
    lemma_one_more_line(f2, "nonce"@, b64(v.nonce));
    lemma_one_more_line(f3, "recipients"@, b64(v.recipients_blob));
    lemma_one_more_line(f4, "ct"@, b64(v.ct_and_tag));
    let f = message::message_fields(
        b64(v.enc_ecdh),
        b64(v.nonce),
        b64(v.recipients_blob),
        b64(v.ct_and_tag),
        v.signature,
    );
    match v.signature {
        Some(s) => {
            lemma_one_more_line(f5, "signature"@, b64(s));
            assert(f =~= f5.push(("signature"@, b64(s))));
        },
        None => {
            assert(f =~= f5);
            let t = block::fields_text(f5);
            assert(t + Seq::<char>::empty() =~= t);
        },
    }
}

/// What the cipher of a payload authenticates.
pub proof fn lemma_payload_aad(
    enc_ecdh: Seq<u8>,
    nonce: Seq<u8>,
    recipients: Seq<u8>,
    chunked: bool,
)
    ensures
        transcript::content_aad(enc_ecdh, nonce, recipients, chunked) == payload_aad(
            enc_ecdh,
            nonce,
            recipients,
            chunked,
        ),
{
    let y = if chunked {
        "Y"@
    } else {
        "N"@
    };
    let f0 = Seq::<(Seq<char>, Seq<char>)>::empty();
    let f1 = f0.push(("v"@, "1"@));
    let f2 = f1.push(("stream"@, y));
    let f3 = f2.push(("enc_ecdh"@, b64(enc_ecdh)));
    let f4 = f3.push(("nonce"@, b64(nonce)));
    lemma_one_more_line(f0, "v"@, "1"@);
    lemma_one_more_line(f1, "stream"@, y);
    lemma_one_more_line(f2, "enc_ecdh"@, b64(enc_ecdh));
    lemma_one_more_line(f3, "nonce"@, b64(nonce));
    lemma_one_more_line(f4, "recipients"@, b64(recipients));
    assert(transcript::aad_fields(b64(enc_ecdh), b64(nonce), b64(recipients), chunked) =~= f4.push(
        ("recipients"@, b64(recipients)),
    ));
}

/// What is signed.
pub proof fn lemma_signed_text(
    enc_ecdh: Seq<u8>,
    nonce: Seq<u8>,
    recipients: Seq<u8>,
    rc: Seq<u8>,
    payload: Seq<u8>,
)
    ensures
        transcript::signed_whole(enc_ecdh, nonce, recipients, rc, payload) == signed_text(
            enc_ecdh,
            nonce,
            recipients,
            rc,
            false,
            payload,
        ),
        transcript::signed_stream(enc_ecdh, nonce, recipients, rc, payload) == signed_text(
            enc_ecdh,
            nonce,
            recipients,
            rc,
            true,
            crypto::sha256(payload),
        ),
        transcript::signed_digest(enc_ecdh, nonce, recipients, rc, payload) == signed_text(
            enc_ecdh,
            nonce,
            recipients,
            rc,
            true,
            payload,
        ),
{
    lemma_signed_header(enc_ecdh, nonce, recipients, rc, false);
    lemma_signed_header(enc_ecdh, nonce, recipients, rc, true);
}

/// What every signed text begins with.
proof fn lemma_signed_header(
    enc_ecdh: Seq<u8>,
    nonce: Seq<u8>,
    recipients: Seq<u8>,
    rc: Seq<u8>,
    chunked: bool,
)
    ensures
        transcript::sig_header_text(
            b64(enc_ecdh),
            b64(nonce),
            b64(recipients),
            rc,
            chunked,
        ) == "VELUM-v1-SIGN"@ + seq!['\n'] + (line("v"@, "1"@) + line("enc_ecdh"@, b64(enc_ecdh))
            + line("nonce"@, b64(nonce)) + line("recipients"@, b64(recipients)) + line(
            "stream"@,
            if chunked {
                "Y"@
            } else {
                "N"@
            },
        ) + line("rc"@, b64(rc))),
{
    let y = if chunked {
        "Y"@
    } else {
        "N"@
    };
    let f0 = Seq::<(Seq<char>, Seq<char>)>::empty();
    let f1 = f0.push(("v"@, "1"@));
    let f2 = f1.push(("enc_ecdh"@, b64(enc_ecdh)));
    let f3 = f2.push(("nonce"@, b64(nonce)));
    let f4 = f3.push(("recipients"@, b64(recipients)));
    let f5 = f4.push(("stream"@, y));
    lemma_one_more_line(f0, "v"@, "1"@);
    lemma_one_more_line(f1, "enc_ecdh"@, b64(enc_ecdh));
    lemma_one_more_line(f2, "nonce"@, b64(nonce));
    lemma_one_more_line(f3, "recipients"@, b64(recipients));
    lemma_one_more_line(f4, "stream"@, y);
    lemma_one_more_line(f5, "rc"@, b64(rc));
    assert(transcript::sig_header_fields(
        b64(enc_ecdh),
        b64(nonce),
        b64(recipients),
        rc,
        chunked,
    ) =~= f5.push(("rc"@, b64(rc))));
}

/// What the cipher of a wrapped content key authenticates.
pub proof fn lemma_wrap_aad(enc_ecdh: Seq<u8>, id: Seq<u8>, hint: int, rc: Seq<u8>)
    ensures
        handshake::wrap_aad(enc_ecdh, id, hint, rc) == wrap_aad(enc_ecdh, id, hint, rc),
{
    lemma_numbers(hint);
    let h = b64(number(hint, 8));
    let f0 = Seq::<(Seq<char>, Seq<char>)>::empty();
    let f1 = f0.push(("v"@, "1"@));
    let f2 = f1.push(("enc_ecdh"@, b64(enc_ecdh)));
    let f3 = f2.push(("id"@, b64(id)));
    lemma_one_more_line(f0, "v"@, "1"@);
    lemma_one_more_line(f1, "enc_ecdh"@, b64(enc_ecdh));
    lemma_one_more_line(f2, "id"@, b64(id));
    lemma_one_more_line(f3, "hint"@, h);
    assert(seq![
        ("v"@, crate::constants::V@),
        ("enc_ecdh"@, b64(enc_ecdh)),
        ("id"@, b64(id)),
        ("hint"@, b64(util::be64(hint))),
    ] =~= f3.push(("hint"@, h)));
}

} // verus!
