//! Armored text: which lines it has, and what the lines say.

use vstd::prelude::*;
use vstd::slice::*;
use vstd::string::*;
use vstd::utf8::*;

use crate::armor;
use crate::armor::{extract_argon2_params, parse_public};
use crate::block;
use crate::crypto;
use crate::decrypt;
use crate::handshake;
use crate::keys;
use crate::keys::{unlock_secret, validate_public, PublicBundle, PublicView, SecretBundle};
use crate::laws::formats::{holds_entries, lemma_decoded};
use crate::laws::{lemma_message_text, lemma_public_text, message_text, public_text};
use crate::message;
use crate::message::{binary_from_armor, parse_message, MessageView, ParsedMsg};
use crate::recipients::EntryView;
use crate::text;
use crate::transcript;

verus! {

// ----------------------------------------------------------------------
// Carriage returns
// ----------------------------------------------------------------------

/// A text without its carriage returns.
pub open spec fn no_cr(s: Seq<char>) -> Seq<char> {
    s.filter(|c: char| c != '\r')
}

/// Removing carriage returns is keeping all else.
pub proof fn lemma_no_cr(s: Seq<char>)
    ensures
        text::without_cr(s) == no_cr(s),
    decreases s.len(),
{
    reveal(Seq::filter);
    if s.len() > 0 {
        lemma_no_cr(s.drop_last());
    }
}

/// A text without carriage returns has none to remove.
pub proof fn lemma_no_cr_twice(s: Seq<char>)
    ensures
        no_cr(no_cr(s)) == no_cr(s),
    decreases s.len(),
{
    reveal(Seq::filter);
    if s.len() > 0 {
        lemma_no_cr_twice(s.drop_last());
        let t = no_cr(s.drop_last());
        if s.last() != '\r' {
            assert(t.push(s.last()).drop_last() =~= t);
        }
    }
}

/// Texts that differ in carriage returns only have the same lines.
proof fn lemma_same_lines(a: Seq<char>, b: Seq<char>)
    requires
        no_cr(a) == no_cr(b),
    ensures
        text::armor_lines(a) == text::armor_lines(b),
{
    lemma_no_cr(a);
    lemma_no_cr(b);
}

/// What lines say, the same lines say.
proof fn lemma_same_block(a: Seq<char>, b: Seq<char>)
    requires
        no_cr(a) == no_cr(b),
    ensures
        forall|begin: Seq<char>, end: Seq<char>| #[trigger]
            block::armor_fields(a, begin, end) == block::armor_fields(b, begin, end),
        message::message_of(a) == message::message_of(b),
{
    lemma_same_lines(a, b);
}

/// The same public keys.
proof fn lemma_same_public(a: Seq<char>, b: Seq<char>)
    requires
        no_cr(a) == no_cr(b),
    ensures
        armor::public_of(a) == armor::public_of(b),
{
    lemma_same_block(a, b);
}

/// The same parameters.
proof fn lemma_same_params(a: Seq<char>, b: Seq<char>)
    requires
        no_cr(a) == no_cr(b),
    ensures
        armor::argon2_params_of(a) == armor::argon2_params_of(b),
{
    lemma_same_block(a, b);
}

/// The same secret keys.
proof fn lemma_same_secret(a: Seq<char>, b: Seq<char>, pass: Seq<char>)
    requires
        no_cr(a) == no_cr(b),
    ensures
        keys::unlocked(a, pass) == keys::unlocked(b, pass),
{
    lemma_same_block(a, b);
}

/// The same status.
proof fn lemma_same_status(
    sig: Option<Seq<u8>>,
    a: Option<Seq<char>>,
    b: Option<Seq<char>>,
    signed: Seq<u8>,
)
    requires
        a is Some == b is Some,
        a is Some ==> no_cr(a->0) == no_cr(b->0),
    ensures
        transcript::signature_status(sig, a, signed) == transcript::signature_status(
            sig,
            b,
            signed,
        ),
{
    if a is Some {
        lemma_same_public(a->0, b->0);
    }
}

/// The same content.
proof fn lemma_same_content(
    bytes: Seq<u8>,
    arm: Seq<char>,
    other: Seq<char>,
    pass: Seq<char>,
    a: Option<Seq<char>>,
    b: Option<Seq<char>>,
)
    requires
        no_cr(arm) == no_cr(other),
        a is Some == b is Some,
        a is Some ==> no_cr(a->0) == no_cr(b->0),
    ensures
        decrypt::decrypted(bytes, arm, pass, a) == decrypt::decrypted(bytes, other, pass, b),
{
    lemma_same_secret(arm, other, pass);
    let ctx = handshake::context_of(bytes, arm, pass);
    assert(ctx == handshake::context_of(bytes, other, pass));
    if ctx is Some {
        lemma_same_status(
            (ctx->0).parsed.signature,
            a,
            b,
            transcript::header_transcript(ctx->0),
        );
        assert(decrypt::opened_content(ctx->0, a) == decrypt::opened_content(ctx->0, b));
    }
}

/// Texts that differ in carriage returns only hold the same message, or neither holds
/// one; and they stand for the same envelope.
pub proof fn law_message_ignores_cr(
    a: &str,
    b: &str,
    x: Result<ParsedMsg, ()>,
    y: Result<ParsedMsg, ()>,
    p: Result<Vec<u8>, ()>,
    q: Result<Vec<u8>, ()>,
)
    requires
        no_cr(a@) == no_cr(b@),
        call_ensures(parse_message, (a,), x),
        call_ensures(parse_message, (b,), y),
        call_ensures(binary_from_armor, (a,), p),
        call_ensures(binary_from_armor, (b,), q),
    ensures
        x is Ok == y is Ok,
        x is Ok ==> (x->Ok_0)@ == (y->Ok_0)@,
        p is Ok == q is Ok,
        p is Ok ==> (p->Ok_0)@ == (q->Ok_0)@,
{
    lemma_same_block(a@, b@);
}

/// Texts that differ in carriage returns only hold the same public keys, or neither
/// holds any.
pub proof fn law_public_ignores_cr(
    a: &str,
    b: &str,
    x: Result<PublicBundle, ()>,
    y: Result<PublicBundle, ()>,
    p: Result<(), ()>,
    q: Result<(), ()>,
)
    requires
        no_cr(a@) == no_cr(b@),
        call_ensures(parse_public, (a,), x),
        call_ensures(parse_public, (b,), y),
        call_ensures(validate_public, (a,), p),
        call_ensures(validate_public, (b,), q),
    ensures
        x is Ok == y is Ok,
        x is Ok ==> (x->Ok_0)@ == (y->Ok_0)@,
        p is Ok == x is Ok,
        q is Ok == y is Ok,
{
    lemma_same_public(a@, b@);
}

/// Texts that differ in carriage returns only are the same keystore: the same
/// passphrases unlock the same keys, and the parameters are the same.
pub proof fn law_secret_ignores_cr(
    a: &str,
    b: &str,
    pass: &str,
    x: Result<SecretBundle, ()>,
    y: Result<SecretBundle, ()>,
    p: Result<(u32, u32, u32), ()>,
    q: Result<(u32, u32, u32), ()>,
)
    requires
        no_cr(a@) == no_cr(b@),
        call_ensures(unlock_secret, (a, pass), x),
        call_ensures(unlock_secret, (b, pass), y),
        call_ensures(extract_argon2_params, (a,), p),
        call_ensures(extract_argon2_params, (b,), q),
    ensures
        x is Ok == y is Ok,
        x is Ok ==> (x->Ok_0)@ == (y->Ok_0)@,
        p is Ok == q is Ok,
        p is Ok ==> p->Ok_0 == q->Ok_0,
{
    lemma_same_secret(a@, b@, pass@);
    lemma_same_params(a@, b@);
}

/// Texts that differ in carriage returns only decrypt to the same, or neither does;
/// and so it is with the keys that they are decrypted with.
pub proof fn law_decrypt_ignores_cr(
    a: &[u8],
    b: &[u8],
    arm: &str,
    other: &str,
    pass: &str,
    expected: Option<&str>,
    same: Option<&str>,
    x: Result<(Vec<u8>, i32), ()>,
    y: Result<(Vec<u8>, i32), ()>,
)
    requires
        valid_utf8(a@),
        valid_utf8(b@),
        no_cr(decode_utf8(a@)) == no_cr(decode_utf8(b@)),
        no_cr(arm@) == no_cr(other@),
        expected is Some == same is Some,
        expected is Some ==> no_cr((expected->0)@) == no_cr((same->0)@),
        call_ensures(decrypt, (a, arm, pass, expected), x),
        call_ensures(decrypt, (b, other, pass, same), y),
    ensures
        x is Ok == y is Ok,
        x is Ok ==> (x->Ok_0).0@ == (y->Ok_0).0@ && (x->Ok_0).1 == (y->Ok_0).1,
{
    let c = transcript::text_view(expected);
    let d = transcript::text_view(same);
    lemma_same_block(decode_utf8(a@), decode_utf8(b@));
    let binary = message::binary_of(decode_utf8(a@));
    assert(binary == message::binary_of(decode_utf8(b@)));
    if binary is Some {
        lemma_same_content(binary->0, arm@, other@, pass@, c, d);
    }
    assert(decrypt::decrypted_text(a@, arm@, pass@, c) == decrypt::decrypted_text(
        b@,
        other@,
        pass@,
        d,
    ));
}

/// Whether a message has the right sizes and holds recipients.
pub open spec fn has_sizes(v: MessageView) -> bool {
    &&& v.enc_ecdh.len() == 32
    &&& v.nonce.len() == 24
    &&& exists|es: Seq<EntryView>| holds_entries(v.recipients_blob, es)
    &&& v.ct_and_tag.len() >= 16
}

/// The text of a message.
pub open spec fn text_of_message(v: MessageView) -> Seq<char> {
    message_text(v.enc_ecdh, v.nonce, v.recipients_blob, v.ct_and_tag, v.signature)
}

/// Every message of the right sizes is read from its text, wherever carriage returns
/// stand in it.
pub proof fn law_message_read(arm: &str, v: MessageView, r: Result<ParsedMsg, ()>)
    requires
        has_sizes(v),
        no_cr(arm@) == text_of_message(v),
        call_ensures(parse_message, (arm,), r),
    ensures
        r matches Ok(m) && m@ == v,
{
    assert(message::message_of(no_cr(arm@)) == Some(v)) by {
        lemma_decoded(v.recipients_blob);
        lemma_message_text(v);
        message::lemma_message_roundtrip(v);
    }
    lemma_no_cr_twice(arm@);
    lemma_same_block(arm@, no_cr(arm@));
}

/// Every message of the right sizes decrypts the same, wherever carriage returns stand
/// in its text.
pub proof fn law_message_decrypts(
    v: MessageView,
    a: &[u8],
    b: &[u8],
    arm: &str,
    pass: &str,
    expected: Option<&str>,
    x: Result<(Vec<u8>, i32), ()>,
    y: Result<(Vec<u8>, i32), ()>,
)
    requires
        has_sizes(v),
        valid_utf8(a@),
        valid_utf8(b@),
        decode_utf8(a@) == text_of_message(v),
        no_cr(decode_utf8(b@)) == text_of_message(v),
        call_ensures(decrypt, (a, arm, pass, expected), x),
        call_ensures(decrypt, (b, arm, pass, expected), y),
    ensures
        x is Ok == y is Ok,
        x is Ok ==> (x->Ok_0).0@ == (y->Ok_0).0@ && (x->Ok_0).1 == (y->Ok_0).1,
{
    lemma_no_cr_twice(decode_utf8(b@));
    law_decrypt_ignores_cr(a, b, arm, arm, pass, expected, expected, x, y);
}

/// Valid public keys are read from their text, wherever carriage returns stand in it.
pub proof fn law_public_read(arm: &str, v: PublicView, r: Result<PublicBundle, ()>)
    requires
        fit_for_use(v),
        no_cr(arm@) == public_text(v.ecdh_pk, v.pq_pk, v.sig_pk_pq, v.sig_pk_ed),
        call_ensures(parse_public, (arm,), r),
    ensures
        r matches Ok(k) && k@ == v,
{
    assert(armor::public_of(no_cr(arm@)) == Some(v)) by {
        lemma_public_text(v.ecdh_pk, v.pq_pk, v.sig_pk_pq, v.sig_pk_ed);
        armor::lemma_public_roundtrip(v);
    }
    lemma_no_cr_twice(arm@);
    lemma_same_public(arm@, no_cr(arm@));
}

/// Whether public keys have the right sizes, and the Ed25519 key is a point.
pub open spec fn fit_for_use(v: PublicView) -> bool {
    &&& v.ecdh_pk.len() == 32
    &&& v.pq_pk.len() == 1184
    &&& v.sig_pk_pq.len() == 1952
    &&& v.sig_pk_ed.len() == 32
    &&& crypto::ed25519_point(v.sig_pk_ed)
}

} // verus!
