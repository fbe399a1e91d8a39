//! What is authenticated and what is signed.
//!
//! The additional data of the content AEAD and the signature transcript are
//! texts of `key:value` lines behind a label. This module also holds the hybrid
//! signature itself: ML-DSA-65 followed by Ed25519, of which both have to verify.

use pqcrypto_mldsa::mldsa65;
use vstd::prelude::*;
use vstd::slice::*;
use vstd::string::*;
use vstd::utf8::*;

use crate::armor;
use crate::armor::parse_public;
use crate::base64_text;
use crate::block;
use crate::block::append_fields;
use crate::constants::{AAD_LABEL, ED_SIG_LEN, SIG_LABEL, V};
use crate::context::{ContextView, DecryptContext};
use crate::crypto;
use crate::crypto::{
    ct_and, ct_eq, ed25519_sign, ed25519_verify_strict, hasher_finalize, hasher_new, hasher_update,
    mldsa_open, mldsa_sign, wipe_string, Hasher, DSA_SIG_LEN,
};
use crate::envelope::StreamFlag;
use crate::keys;
use crate::keys::{PublicBundle, PublicView, SecretBundle, SecretView};
use crate::util::{array_64, b64e};

verus! {

/// The value of the stream field.
pub open spec fn stream_value(stream_on: bool) -> Seq<char> {
    if stream_on {
        "Y"@
    } else {
        "N"@
    }
}

/// The fields of the content AEAD's additional data.
pub open spec fn aad_fields(
    enc_ecdh_b64: Seq<char>,
    nonce_b64: Seq<char>,
    recipients_b64: Seq<char>,
    stream_on: bool,
) -> Seq<(Seq<char>, Seq<char>)> {
    seq![
        ("v"@, V@),
        ("stream"@, stream_value(stream_on)),
        ("enc_ecdh"@, enc_ecdh_b64),
        ("nonce"@, nonce_b64),
        ("recipients"@, recipients_b64),
    ]
}

/// The content AEAD's additional data as text.
pub open spec fn aad_text(
    enc_ecdh_b64: Seq<char>,
    nonce_b64: Seq<char>,
    recipients_b64: Seq<char>,
    stream_on: bool,
) -> Seq<char> {
    AAD_LABEL@ + seq!['\n'] + block::fields_text(
        aad_fields(enc_ecdh_b64, nonce_b64, recipients_b64, stream_on),
    )
}

/// The content AEAD's additional data for given header fields.
pub open spec fn content_aad(
    enc_ecdh: Seq<u8>,
    nonce: Seq<u8>,
    recipients_blob: Seq<u8>,
    stream_on: bool,
) -> Seq<u8> {
    encode_utf8(
        aad_text(
            base64_text::b64(enc_ecdh),
            base64_text::b64(nonce),
            base64_text::b64(recipients_blob),
            stream_on,
        ),
    )
}

/// The fields that every signature transcript begins with.
pub open spec fn sig_header_fields(
    enc_ecdh_b64: Seq<char>,
    nonce_b64: Seq<char>,
    recipients_b64: Seq<char>,
    rc: Seq<u8>,
    stream_on: bool,
) -> Seq<(Seq<char>, Seq<char>)> {
    seq![
        ("v"@, V@),
        ("enc_ecdh"@, enc_ecdh_b64),
        ("nonce"@, nonce_b64),
        ("recipients"@, recipients_b64),
        ("stream"@, stream_value(stream_on)),
        ("rc"@, base64_text::b64(rc)),
    ]
}

/// The text that every signature transcript begins with.
pub open spec fn sig_header_text(
    enc_ecdh_b64: Seq<char>,
    nonce_b64: Seq<char>,
    recipients_b64: Seq<char>,
    rc: Seq<u8>,
    stream_on: bool,
) -> Seq<char> {
    SIG_LABEL@ + seq!['\n'] + block::fields_text(
        sig_header_fields(enc_ecdh_b64, nonce_b64, recipients_b64, rc, stream_on),
    )
}

/// The signature transcript of a whole payload, which it binds verbatim.
pub open spec fn sig_text_whole(
    enc_ecdh_b64: Seq<char>,
    nonce_b64: Seq<char>,
    recipients_b64: Seq<char>,
    ct_b64: Seq<char>,
    rc: Seq<u8>,
    stream_on: bool,
) -> Seq<char> {
    sig_header_text(enc_ecdh_b64, nonce_b64, recipients_b64, rc, stream_on) + block::field_line(
        "ct"@,
        ct_b64,
    )
}

/// The signature transcript of a chunked payload, which it binds by its digest.
pub open spec fn sig_text_stream(
    enc_ecdh_b64: Seq<char>,
    nonce_b64: Seq<char>,
    recipients_b64: Seq<char>,
    digest_b64: Seq<char>,
    rc: Seq<u8>,
    stream_on: bool,
) -> Seq<char> {
    sig_header_text(enc_ecdh_b64, nonce_b64, recipients_b64, rc, stream_on) + block::field_line(
        "digest"@,
        digest_b64,
    )
}

/// What is signed of a message whose payload is whole.
pub open spec fn signed_whole(
    enc_ecdh: Seq<u8>,
    nonce: Seq<u8>,
    recipients_blob: Seq<u8>,
    rc: Seq<u8>,
    ct_and_tag: Seq<u8>,
) -> Seq<u8> {
    encode_utf8(
        sig_text_whole(
            base64_text::b64(enc_ecdh),
            base64_text::b64(nonce),
            base64_text::b64(recipients_blob),
            base64_text::b64(ct_and_tag),
            rc,
            false,
        ),
    )
}

/// What is signed of a message whose payload is chunked, from the digest of the
/// payload.
pub open spec fn signed_digest(
    enc_ecdh: Seq<u8>,
    nonce: Seq<u8>,
    recipients_blob: Seq<u8>,
    rc: Seq<u8>,
    digest: Seq<u8>,
) -> Seq<u8> {
    encode_utf8(
        sig_text_stream(
            base64_text::b64(enc_ecdh),
            base64_text::b64(nonce),
            base64_text::b64(recipients_blob),
            base64_text::b64(digest),
            rc,
            true,
        ),
    )
}

/// What is signed of a message whose payload is chunked: `payload` is hashed.
pub open spec fn signed_stream(
    enc_ecdh: Seq<u8>,
    nonce: Seq<u8>,
    recipients_blob: Seq<u8>,
    rc: Seq<u8>,
    payload: Seq<u8>,
) -> Seq<u8> {
    signed_digest(enc_ecdh, nonce, recipients_blob, rc, crypto::sha256(payload))
}

// ----------------------------------------------------------------------
// Laws
// ----------------------------------------------------------------------

/// Base64 of header fields, as fields of a text.
proof fn lemma_plain_header(
    enc_ecdh: Seq<u8>,
    nonce: Seq<u8>,
    recipients_blob: Seq<u8>,
    rc: Seq<u8>,
    stream_on: bool,
)
    ensures
        ({
            let f = aad_fields(
                base64_text::b64(enc_ecdh),
                base64_text::b64(nonce),
                base64_text::b64(recipients_blob),
                stream_on,
            );
            let g = sig_header_fields(
                base64_text::b64(enc_ecdh),
                base64_text::b64(nonce),
                base64_text::b64(recipients_blob),
                rc,
                stream_on,
            );
            &&& forall|i: int| 0 <= i < f.len() ==> block::plain_field(#[trigger] f[i])
            &&& forall|i: int| 0 <= i < g.len() ==> block::plain_field(#[trigger] g[i])
        }),
{
    armor::lemma_b64_bare(enc_ecdh);
    armor::lemma_b64_bare(nonce);
    armor::lemma_b64_bare(recipients_blob);
    armor::lemma_b64_bare(rc);
    reveal_strlit("v");
    reveal_strlit("1");
    reveal_strlit("Y");
    reveal_strlit("N");
    reveal_strlit("stream");
    reveal_strlit("enc_ecdh");
    reveal_strlit("nonce");
    reveal_strlit("recipients");
    reveal_strlit("rc");
}

/// The stream field tells the modes apart.
proof fn lemma_stream_value(a: bool, b: bool)
    requires
        stream_value(a) == stream_value(b),
    ensures
        a == b,
{
    reveal_strlit("Y");
    reveal_strlit("N");
    assert("Y"@[0] != "N"@[0]);
}

/// The additional data bind ephemeral key, nonce, recipient list and mode: no two
/// different headers have the same additional data.
pub proof fn lemma_aad_binds(
    enc1: Seq<u8>,
    nonce1: Seq<u8>,
    blob1: Seq<u8>,
    stream1: bool,
    enc2: Seq<u8>,
    nonce2: Seq<u8>,
    blob2: Seq<u8>,
    stream2: bool,
)
    requires
        content_aad(enc1, nonce1, blob1, stream1) == content_aad(enc2, nonce2, blob2, stream2),
    ensures
        enc1 == enc2,
        nonce1 == nonce2,
        blob1 == blob2,
        stream1 == stream2,
{
    let f = aad_fields(
        base64_text::b64(enc1),
        base64_text::b64(nonce1),
        base64_text::b64(blob1),
        stream1,
    );
    let g = aad_fields(
        base64_text::b64(enc2),
        base64_text::b64(nonce2),
        base64_text::b64(blob2),
        stream2,
    );
    let s = AAD_LABEL@ + seq!['\n'] + block::fields_text(f);
    let t = AAD_LABEL@ + seq!['\n'] + block::fields_text(g);
    encode_utf8_decode_utf8(s);
    encode_utf8_decode_utf8(t);
    let n = AAD_LABEL@.len() as int + 1;
    assert(s.skip(n) =~= block::fields_text(f));
    assert(t.skip(n) =~= block::fields_text(g));
    lemma_plain_header(enc1, nonce1, blob1, seq![], stream1);
    lemma_plain_header(enc2, nonce2, blob2, seq![], stream2);
    block::lemma_fields_text_injective(f, g);
    assert(f[1] == g[1] && f[2] == g[2] && f[3] == g[3] && f[4] == g[4]);
    lemma_stream_value(stream1, stream2);
    base64_text::lemma_b64_injective(enc1, enc2);
    base64_text::lemma_b64_injective(nonce1, nonce2);
    base64_text::lemma_b64_injective(blob1, blob2);
}

/// A signature transcript binds ephemeral key, nonce, recipient list, commitment
/// and payload: no two different messages with whole payloads have the same
/// transcript.
pub proof fn lemma_signed_whole_binds(
    enc1: Seq<u8>,
    nonce1: Seq<u8>,
    blob1: Seq<u8>,
    rc1: Seq<u8>,
    ct1: Seq<u8>,
    enc2: Seq<u8>,
    nonce2: Seq<u8>,
    blob2: Seq<u8>,
    rc2: Seq<u8>,
    ct2: Seq<u8>,
)
    requires
        signed_whole(enc1, nonce1, blob1, rc1, ct1) == signed_whole(enc2, nonce2, blob2, rc2, ct2),
    ensures
        enc1 == enc2,
        nonce1 == nonce2,
        blob1 == blob2,
        rc1 == rc2,
        ct1 == ct2,
{
    let f = sig_header_fields(
        base64_text::b64(enc1),
        base64_text::b64(nonce1),
        base64_text::b64(blob1),
        rc1,
        false,
    ).push(("ct"@, base64_text::b64(ct1)));
    let g = sig_header_fields(
        base64_text::b64(enc2),
        base64_text::b64(nonce2),
        base64_text::b64(blob2),
        rc2,
        false,
    ).push(("ct"@, base64_text::b64(ct2)));
    lemma_sig_fields(enc1, nonce1, blob1, rc1, false, "ct"@, ct1);
    lemma_sig_fields(enc2, nonce2, blob2, rc2, false, "ct"@, ct2);
    lemma_plain_last(ct1);
    lemma_plain_last(ct2);
    lemma_plain_header(enc1, nonce1, blob1, rc1, false);
    lemma_plain_header(enc2, nonce2, blob2, rc2, false);
    lemma_sig_text_injective(f, g);
    assert(f[1] == g[1] && f[2] == g[2] && f[3] == g[3] && f[5] == g[5] && f[6] == g[6]);
    base64_text::lemma_b64_injective(enc1, enc2);
    base64_text::lemma_b64_injective(nonce1, nonce2);
    base64_text::lemma_b64_injective(blob1, blob2);
    base64_text::lemma_b64_injective(rc1, rc2);
    base64_text::lemma_b64_injective(ct1, ct2);
}

/// A signature transcript binds ephemeral key, nonce, recipient list, commitment
/// and the digest of the payload: no two messages with chunked payloads that
/// differ in one of these have the same transcript.
pub proof fn lemma_signed_stream_binds(
    enc1: Seq<u8>,
    nonce1: Seq<u8>,
    blob1: Seq<u8>,
    rc1: Seq<u8>,
    payload1: Seq<u8>,
    enc2: Seq<u8>,
    nonce2: Seq<u8>,
    blob2: Seq<u8>,
    rc2: Seq<u8>,
    payload2: Seq<u8>,
)
    requires
        signed_stream(enc1, nonce1, blob1, rc1, payload1) == signed_stream(
            enc2,
            nonce2,
            blob2,
            rc2,
            payload2,
        ),
    ensures
        enc1 == enc2,
        nonce1 == nonce2,
        blob1 == blob2,
        rc1 == rc2,
        crypto::sha256(payload1) == crypto::sha256(payload2),
{
    let d1 = crypto::sha256(payload1);
    let d2 = crypto::sha256(payload2);
    let f = sig_header_fields(
        base64_text::b64(enc1),
        base64_text::b64(nonce1),
        base64_text::b64(blob1),
        rc1,
        true,
    ).push(("digest"@, base64_text::b64(d1)));
    let g = sig_header_fields(
        base64_text::b64(enc2),
        base64_text::b64(nonce2),
        base64_text::b64(blob2),
        rc2,
        true,
    ).push(("digest"@, base64_text::b64(d2)));
    lemma_sig_fields(enc1, nonce1, blob1, rc1, true, "digest"@, d1);
    lemma_sig_fields(enc2, nonce2, blob2, rc2, true, "digest"@, d2);
    lemma_plain_last(d1);
    lemma_plain_last(d2);
    lemma_plain_header(enc1, nonce1, blob1, rc1, true);
    lemma_plain_header(enc2, nonce2, blob2, rc2, true);
    lemma_sig_text_injective(f, g);
    assert(f[1] == g[1] && f[2] == g[2] && f[3] == g[3] && f[5] == g[5] && f[6] == g[6]);
    base64_text::lemma_b64_injective(enc1, enc2);
    base64_text::lemma_b64_injective(nonce1, nonce2);
    base64_text::lemma_b64_injective(blob1, blob2);
    base64_text::lemma_b64_injective(rc1, rc2);
    base64_text::lemma_b64_injective(d1, d2);
}

/// The contexts are kept apart: what is signed of a whole payload is never what is
/// signed of a chunked one, and neither is ever additional data.
pub proof fn lemma_contexts_apart(
    enc1: Seq<u8>,
    nonce1: Seq<u8>,
    blob1: Seq<u8>,
    rc1: Seq<u8>,
    ct: Seq<u8>,
    enc2: Seq<u8>,
    nonce2: Seq<u8>,
    blob2: Seq<u8>,
    rc2: Seq<u8>,
    digest: Seq<u8>,
    enc3: Seq<u8>,
    nonce3: Seq<u8>,
    blob3: Seq<u8>,
    stream: bool,
)
    ensures
        signed_whole(enc1, nonce1, blob1, rc1, ct) != signed_digest(
            enc2,
            nonce2,
            blob2,
            rc2,
            digest,
        ),
        signed_whole(enc1, nonce1, blob1, rc1, ct) != content_aad(enc3, nonce3, blob3, stream),
        signed_digest(enc2, nonce2, blob2, rc2, digest) != content_aad(
            enc3,
            nonce3,
            blob3,
            stream,
        ),
{
    let f = sig_header_fields(
        base64_text::b64(enc1),
        base64_text::b64(nonce1),
        base64_text::b64(blob1),
        rc1,
        false,
    ).push(("ct"@, base64_text::b64(ct)));
    let g = sig_header_fields(
        base64_text::b64(enc2),
        base64_text::b64(nonce2),
        base64_text::b64(blob2),
        rc2,
        true,
    ).push(("digest"@, base64_text::b64(digest)));
    let h = aad_fields(
        base64_text::b64(enc3),
        base64_text::b64(nonce3),
        base64_text::b64(blob3),
        stream,
    );
    let s = SIG_LABEL@ + seq!['\n'] + block::fields_text(f);
    let t = SIG_LABEL@ + seq!['\n'] + block::fields_text(g);
    let u = AAD_LABEL@ + seq!['\n'] + block::fields_text(h);
    lemma_sig_fields(enc1, nonce1, blob1, rc1, false, "ct"@, ct);
    lemma_sig_fields(enc2, nonce2, blob2, rc2, true, "digest"@, digest);
    encode_utf8_decode_utf8(s);
    encode_utf8_decode_utf8(t);
    encode_utf8_decode_utf8(u);
    reveal_strlit("VELUM-v1-SIGN");
    reveal_strlit("VELUM-v1-AAD");
    assert(s[9] == 'S' && t[9] == 'S' && u[9] == 'A');
    if encode_utf8(s) == encode_utf8(t) {
        lemma_plain_last(ct);
        lemma_plain_last(digest);
        lemma_plain_header(enc1, nonce1, blob1, rc1, false);
        lemma_plain_header(enc2, nonce2, blob2, rc2, true);
        lemma_sig_text_injective(f, g);
        assert(f[4] == g[4]);
        lemma_stream_value(false, true);
    }
}

/// The last field of a transcript, as a field of its text.
proof fn lemma_plain_last(data: Seq<u8>)
    ensures
        block::plain_field(("ct"@, base64_text::b64(data))),
        block::plain_field(("digest"@, base64_text::b64(data))),
{
    armor::lemma_b64_bare(data);
    reveal_strlit("ct");
    reveal_strlit("digest");
}

/// A transcript is the label and a text of seven fields.
proof fn lemma_sig_fields(
    enc_ecdh: Seq<u8>,
    nonce: Seq<u8>,
    recipients_blob: Seq<u8>,
    rc: Seq<u8>,
    stream_on: bool,
    key: Seq<char>,
    data: Seq<u8>,
)
    ensures
        ({
            let g = sig_header_fields(
                base64_text::b64(enc_ecdh),
                base64_text::b64(nonce),
                base64_text::b64(recipients_blob),
                rc,
                stream_on,
            );
            let last = (key, base64_text::b64(data));
            sig_header_text(
                base64_text::b64(enc_ecdh),
                base64_text::b64(nonce),
                base64_text::b64(recipients_blob),
                rc,
                stream_on,
            ) + block::field_line(key, base64_text::b64(data)) == SIG_LABEL@ + seq!['\n']
                + block::fields_text(g.push(last))
        }),
{
    let g = sig_header_fields(
        base64_text::b64(enc_ecdh),
        base64_text::b64(nonce),
        base64_text::b64(recipients_blob),
        rc,
        stream_on,
    );
    let last = (key, base64_text::b64(data));
    assert(g.push(last).drop_last() =~= g);
    assert(SIG_LABEL@ + seq!['\n'] + block::fields_text(g) + block::field_line(
        key,
        base64_text::b64(data),
    ) =~= SIG_LABEL@ + seq!['\n'] + block::fields_text(g.push(last)));
}

/// The fields of a transcript can be read from its bytes.
proof fn lemma_sig_text_injective(
    f: Seq<(Seq<char>, Seq<char>)>,
    g: Seq<(Seq<char>, Seq<char>)>,
)
    requires
        encode_utf8(SIG_LABEL@ + seq!['\n'] + block::fields_text(f)) == encode_utf8(
            SIG_LABEL@ + seq!['\n'] + block::fields_text(g),
        ),
        forall|i: int| 0 <= i < f.len() ==> block::plain_field(#[trigger] f[i]),
        forall|i: int| 0 <= i < g.len() ==> block::plain_field(#[trigger] g[i]),
    ensures
        f == g,
{
    let s = SIG_LABEL@ + seq!['\n'] + block::fields_text(f);
    let t = SIG_LABEL@ + seq!['\n'] + block::fields_text(g);
    encode_utf8_decode_utf8(s);
    encode_utf8_decode_utf8(t);
    let n = SIG_LABEL@.len() as int + 1;
    assert(s.skip(n) =~= block::fields_text(f));
    assert(t.skip(n) =~= block::fields_text(g));
    block::lemma_fields_text_injective(f, g);
}

// ----------------------------------------------------------------------
// Writing the texts
// ----------------------------------------------------------------------

/// The value of the stream field.
fn stream_letter(stream_on: bool) -> (s: &'static str)
    ensures
        s@ == stream_value(stream_on),
{
    if stream_on {
        "Y"
    } else {
        "N"
    }
}

/// The content AEAD's additional data.
pub fn canonical_aad(
    enc_ecdh_b64: &str,
    nonce_b64: &str,
    recipients_b64: &str,
    stream_on: bool,
) -> (aad: Vec<u8>)
    ensures
        aad@ == encode_utf8(aad_text(enc_ecdh_b64@, nonce_b64@, recipients_b64@, stream_on)),
{
    let fields: [(&str, &str); 5] = [
        ("v", V),
        ("stream", stream_letter(stream_on)),
        ("enc_ecdh", enc_ecdh_b64),
        ("nonce", nonce_b64),
        ("recipients", recipients_b64),
    ];
    let mut out: String = String::new();
    out.append(AAD_LABEL);
    out.push('\n');
    append_fields(&mut out, fields.as_slice());
    proof {
        assert(block::field_views(fields@) =~= aad_fields(
            enc_ecdh_b64@,
            nonce_b64@,
            recipients_b64@,
            stream_on,
        ));
        assert(out@ =~= aad_text(enc_ecdh_b64@, nonce_b64@, recipients_b64@, stream_on));
    }
    slice_to_vec(out.as_str().as_bytes())
}

/// The additional data for given header fields. Temporary Base64 texts are wiped.
pub fn aad_for(
    enc_ecdh: &[u8; 32],
    nonce: &[u8; 24],
    recipients_blob: &[u8],
    stream_on: bool,
) -> (aad: Vec<u8>)
    ensures
        aad@ == content_aad(enc_ecdh@, nonce@, recipients_blob@, stream_on),
{
    let mut enc_ecdh_b64: String = b64e(enc_ecdh.as_slice());
    let mut nonce_b64: String = b64e(nonce.as_slice());
    let mut recipients_b64: String = b64e(recipients_blob);
    let aad: Vec<u8> = canonical_aad(
        enc_ecdh_b64.as_str(),
        nonce_b64.as_str(),
        recipients_b64.as_str(),
        stream_on,
    );
    wipe_string(&mut enc_ecdh_b64);
    wipe_string(&mut nonce_b64);
    wipe_string(&mut recipients_b64);
    aad
}

/// The text that every signature transcript begins with.
fn sig_header(
    enc_ecdh_b64: &str,
    nonce_b64: &str,
    recipients_b64: &str,
    rc: &[u8; 32],
    stream_on: bool,
) -> (out: String)
    ensures
        out@ == sig_header_text(enc_ecdh_b64@, nonce_b64@, recipients_b64@, rc@, stream_on),
{
    let rc_b64: String = b64e(rc.as_slice());
    let fields: [(&str, &str); 6] = [
        ("v", V),
        ("enc_ecdh", enc_ecdh_b64),
        ("nonce", nonce_b64),
        ("recipients", recipients_b64),
        ("stream", stream_letter(stream_on)),
        ("rc", rc_b64.as_str()),
    ];
    let mut out: String = String::new();
    out.append(SIG_LABEL);
    out.push('\n');
    append_fields(&mut out, fields.as_slice());
    proof {
        assert(block::field_views(fields@) =~= sig_header_fields(
            enc_ecdh_b64@,
            nonce_b64@,
            recipients_b64@,
            rc@,
            stream_on,
        ));
        assert(out@ =~= sig_header_text(
            enc_ecdh_b64@,
            nonce_b64@,
            recipients_b64@,
            rc@,
            stream_on,
        ));
    }
    out
}

/// The bytes that every signature transcript begins with.
pub fn canonical_sig_header_part(
    enc_ecdh_b64: &str,
    nonce_b64: &str,
    recipients_b64: &str,
    rc: &[u8; 32],
    stream_on: bool,
) -> (out: Vec<u8>)
    ensures
        out@ == encode_utf8(
            sig_header_text(enc_ecdh_b64@, nonce_b64@, recipients_b64@, rc@, stream_on),
        ),
{
    let out: String = sig_header(enc_ecdh_b64, nonce_b64, recipients_b64, rc, stream_on);
    slice_to_vec(out.as_str().as_bytes())
}

/// The signature transcript of a whole payload.
pub fn canonical_sig_nonstream(
    enc_ecdh_b64: &str,
    nonce_b64: &str,
    recipients_b64: &str,
    ct_b64: &str,
    rc: &[u8; 32],
    stream_on: bool,
) -> (out: Vec<u8>)
    ensures
        out@ == encode_utf8(
            sig_text_whole(
                enc_ecdh_b64@,
                nonce_b64@,
                recipients_b64@,
                ct_b64@,
                rc@,
                stream_on,
            ),
        ),
{
    let mut out: String = sig_header(enc_ecdh_b64, nonce_b64, recipients_b64, rc, stream_on);
    block::push_field(&mut out, "ct", ct_b64);
    slice_to_vec(out.as_str().as_bytes())
}

/// The signature transcript of a chunked payload.
pub fn canonical_sig_stream_digest(
    enc_ecdh_b64: &str,
    nonce_b64: &str,
    recipients_b64: &str,
    digest_b64: &str,
    rc: &[u8; 32],
    stream_on: bool,
) -> (out: Vec<u8>)
    ensures
        out@ == encode_utf8(
            sig_text_stream(
                enc_ecdh_b64@,
                nonce_b64@,
                recipients_b64@,
                digest_b64@,
                rc@,
                stream_on,
            ),
        ),
{
    let mut out: String = sig_header(enc_ecdh_b64, nonce_b64, recipients_b64, rc, stream_on);
    block::push_field(&mut out, "digest", digest_b64);
    slice_to_vec(out.as_str().as_bytes())
}

/// What is signed of a message whose payload is whole. Temporary Base64 texts
/// are wiped.
pub fn transcript_whole(
    enc_ecdh: &[u8; 32],
    nonce: &[u8; 24],
    recipients_blob: &[u8],
    rc: &[u8; 32],
    ct_and_tag: &[u8],
) -> (out: Vec<u8>)
    ensures
        out@ == signed_whole(enc_ecdh@, nonce@, recipients_blob@, rc@, ct_and_tag@),
{
    let mut enc_ecdh_b64: String = b64e(enc_ecdh.as_slice());
    let mut nonce_b64: String = b64e(nonce.as_slice());
    let mut recipients_b64: String = b64e(recipients_blob);
    let mut ct_b64: String = b64e(ct_and_tag);
    let out: Vec<u8> = canonical_sig_nonstream(
        enc_ecdh_b64.as_str(),
        nonce_b64.as_str(),
        recipients_b64.as_str(),
        ct_b64.as_str(),
        rc,
        false,
    );
    wipe_string(&mut enc_ecdh_b64);
    wipe_string(&mut nonce_b64);
    wipe_string(&mut recipients_b64);
    wipe_string(&mut ct_b64);
    out
}

/// What is signed of a message whose payload is chunked, from the payload's
/// digest. Temporary Base64 texts are wiped.
pub fn transcript_stream(
    enc_ecdh: &[u8; 32],
    nonce: &[u8; 24],
    recipients_blob: &[u8],
    rc: &[u8; 32],
    digest: &[u8; 32],
) -> (out: Vec<u8>)
    ensures
        out@ == signed_digest(enc_ecdh@, nonce@, recipients_blob@, rc@, digest@),
{
    let mut enc_ecdh_b64: String = b64e(enc_ecdh.as_slice());
    let mut nonce_b64: String = b64e(nonce.as_slice());
    let mut recipients_b64: String = b64e(recipients_blob);
    let mut digest_b64: String = b64e(digest.as_slice());
    let out: Vec<u8> = canonical_sig_stream_digest(
        enc_ecdh_b64.as_str(),
        nonce_b64.as_str(),
        recipients_b64.as_str(),
        digest_b64.as_str(),
        rc,
        true,
    );
    wipe_string(&mut enc_ecdh_b64);
    wipe_string(&mut nonce_b64);
    wipe_string(&mut recipients_b64);
    wipe_string(&mut digest_b64);
    out
}

// ----------------------------------------------------------------------
// The hybrid signature
// ----------------------------------------------------------------------

/// Length of a hybrid signature.
pub const HYBRID_SIG_LEN: usize = 3373;

/// Whether a hybrid signature over a transcript verifies: both halves do.
pub open spec fn hybrid_verifies(p: PublicView, transcript: Seq<u8>, sig: Seq<u8>) -> bool {
    &&& sig.len() == HYBRID_SIG_LEN
    &&& crypto::mldsa_opened(sig.take(DSA_SIG_LEN as int) + transcript, p.sig_pk_pq) == Some(
        transcript,
    )
    &&& crypto::ed25519_verifies(p.sig_pk_ed, transcript, sig.skip(DSA_SIG_LEN as int))
}

/// Whether public and secret signature keys belong together.
pub open spec fn is_signing_pair(p: PublicView, sk: SecretView) -> bool {
    &&& crypto::mldsa_pair(p.sig_pk_pq, sk.sig_sk_pq)
    &&& p.sig_pk_ed == crypto::ed25519_public(sk.sig_sk_ed)
}

/// Whether the Ed25519 half of a signature begins with another point than the
/// neutral one, which strict verification refuses.
pub open spec fn is_regular(sig: Seq<u8>) -> bool {
    sig.skip(DSA_SIG_LEN as int).take(32) != crypto::ed25519_neutral()
}

/// Whether `sig` is a hybrid signature that is made of a transcript with secret
/// keys. It verifies under the public keys that belong to them.
pub open spec fn is_hybrid_signature(sk: SecretView, transcript: Seq<u8>, sig: Seq<u8>) -> bool {
    &&& sig.len() == HYBRID_SIG_LEN
    &&& crypto::mldsa_signs(sk.sig_sk_pq, transcript, sig.take(DSA_SIG_LEN as int))
    &&& sig.skip(DSA_SIG_LEN as int) == crypto::ed25519_signature(sk.sig_sk_ed, transcript)
    &&& forall|p: PublicView| #[trigger]
        is_signing_pair(p, sk) && is_regular(sig) ==> hybrid_verifies(p, transcript, sig)
}

/// The status of a signature, if the expected public key can be read where it is
/// needed: 0 none there and none expected, 1 verified, 2 invalid, 3 missing or
/// unexpected.
pub open spec fn signature_status(
    signature: Option<Seq<u8>>,
    expected_public: Option<Seq<char>>,
    transcript: Seq<u8>,
) -> Option<i32> {
    match (signature, expected_public) {
        (None, None) => Some(0),
        (None, Some(_)) => Some(3),
        (Some(_), None) => Some(3),
        (Some(sig), Some(arm)) => match armor::public_of(arm) {
            Some(p) => if hybrid_verifies(p, transcript, sig) {
                Some(1)
            } else {
                Some(2)
            },
            None => None,
        },
    }
}

/// What an optional text holds.
pub open spec fn text_view(t: Option<&str>) -> Option<Seq<char>> {
    match t {
        Some(s) => Some(s@),
        None => None,
    }
}

/// Signs a transcript: ML-DSA-65, then Ed25519. The first half is randomised.
pub fn hybrid_sign(keys: &SecretBundle, transcript: &[u8]) -> (sig: Vec<u8>)
    requires
        keys::valid_secret(keys@),
    ensures
        is_hybrid_signature(keys@, transcript@, sig@),
        sig@.len() == 3373,
        crypto::mldsa_signs(keys@.sig_sk_pq, transcript@, sig@.take(3309)),
        sig@.skip(3309) == crypto::ed25519_signature(keys@.sig_sk_ed, transcript@),
        forall|pk: Seq<u8>| #[trigger]
            crypto::mldsa_pair(pk, keys@.sig_sk_pq) ==> crypto::mldsa_opened(
                sig@.take(3309) + transcript@,
                pk,
            ) == Some(transcript@),
{
    let mut sig: Vec<u8> = match mldsa_sign(transcript, keys.sig_sk_pq.as_slice()) {
        Ok(s) => s,
        Err(_) => Vec::new(),
    };
    let ghost pq = sig@;
    let ed: [u8; 64] = ed25519_sign(&keys.sig_sk_ed, transcript);
    sig.extend_from_slice(ed.as_slice());
    proof {
        assert(sig@.take(DSA_SIG_LEN as int) =~= pq);
        assert(sig@.skip(DSA_SIG_LEN as int) =~= ed@);
        assert forall|p: PublicView| #[trigger]
            is_signing_pair(p, keys@) && is_regular(sig@) implies hybrid_verifies(
            p,
            transcript@,
            sig@,
        ) by {
            assert(crypto::mldsa_pair(p.sig_pk_pq, keys@.sig_sk_pq));
        }
    }
    sig
}

/// Checks a signature against public keys: status 1 if it verifies, else 2.
pub fn check_signature(p: &PublicBundle, transcript: &[u8], sig: &[u8]) -> (status: i32)
    requires
        armor::valid_public(p@),
    ensures
        status == if hybrid_verifies(p@, transcript@, sig@) {
            1i32
        } else {
            2i32
        },
        status == 1 || status == 2,
        status == 1 <==> {
            &&& sig@.len() == 3373
            &&& crypto::mldsa_opened(sig@.take(3309) + transcript@, p@.sig_pk_pq) == Some(
                transcript@,
            )
            &&& crypto::ed25519_verifies(p@.sig_pk_ed, transcript@, sig@.skip(3309))
        },
{
    let pq_len: usize = mldsa65::signature_bytes();
    if sig.len() != pq_len + ED_SIG_LEN {
        return 2;
    }
    let sig_pq: &[u8] = slice_subrange(sig, 0, pq_len);
    let sig_ed: &[u8] = slice_subrange(sig, pq_len, sig.len());
    assert(sig_pq@ =~= sig@.take(DSA_SIG_LEN as int));
    assert(sig_ed@ =~= sig@.skip(DSA_SIG_LEN as int));
    let mut signed: Vec<u8> = slice_to_vec(sig_pq);
    signed.extend_from_slice(transcript);
    assert(signed@ =~= sig@.take(DSA_SIG_LEN as int) + transcript@);
    let ok_pq: bool = match mldsa_open(signed.as_slice(), p.sig_pk_pq.as_slice()) {
        Ok(recovered) => ct_eq(recovered.as_slice(), transcript),
        Err(_) => false,
    };
    let ok_ed: bool = ed25519_verify_strict(&p.sig_pk_ed, transcript, &array_64(sig_ed));
    if ct_and(ok_pq, ok_ed) {
        1
    } else {
        2
    }
}

/// What a context's header signature is a signature of. For a chunked payload
/// that is the digest of all bytes behind the header.
pub open spec fn header_transcript(ctx: ContextView) -> Seq<u8> {
    if ctx.parsed.stream {
        signed_stream(
            ctx.parsed.enc_ecdh,
            ctx.parsed.nonce,
            ctx.parsed.recipients_blob,
            ctx.rc,
            ctx.parsed.ct_and_tag,
        )
    } else {
        signed_whole(
            ctx.parsed.enc_ecdh,
            ctx.parsed.nonce,
            ctx.parsed.recipients_blob,
            ctx.rc,
            ctx.parsed.ct_and_tag,
        )
    }
}

/// The status of the header signature of a context. Fails exactly when there is
/// a signature, a public key is expected, and that key cannot be read.
pub fn verify_signature_status(ctx: &DecryptContext, expected_public: Option<&str>) -> (status:
    Result<i32, ()>)
    ensures
        match status {
            Ok(s) => signature_status(
                ctx@.parsed.signature,
                text_view(expected_public),
                header_transcript(ctx@),
            ) == Some(s),
            Err(_) => signature_status(
                ctx@.parsed.signature,
                text_view(expected_public),
                header_transcript(ctx@),
            ) is None,
        },
{
    let sig: &Vec<u8> = match &ctx.parsed.signature {
        Some(s) => s,
        None => {
            return Ok(
                if expected_public.is_some() {
                    3
                } else {
                    0
                },
            );
        },
    };
    let arm: &str = match expected_public {
        Some(a) => a,
        None => {
            return Ok(3);
        },
    };
    let p: PublicBundle = match parse_public(arm) {
        Ok(p) => p,
        Err(_) => {
            return Err(());
        },
    };
    let transcript: Vec<u8> = match ctx.parsed.stream {
        StreamFlag::No => transcript_whole(
            &ctx.parsed.enc_ecdh,
            &ctx.parsed.nonce,
            ctx.parsed.recipients_blob.as_slice(),
            &ctx.rc,
            ctx.parsed.ct_and_tag.as_slice(),
        ),
        StreamFlag::Yes => {
            let mut h: Hasher = hasher_new();
            hasher_update(&mut h, ctx.parsed.ct_and_tag.as_slice());
            assert(crypto::hashed(h) =~= ctx.parsed.ct_and_tag@);
            let digest: [u8; 32] = hasher_finalize(h);
            transcript_stream(
                &ctx.parsed.enc_ecdh,
                &ctx.parsed.nonce,
                ctx.parsed.recipients_blob.as_slice(),
                &ctx.rc,
                &digest,
            )
        },
    };
    Ok(check_signature(&p, transcript.as_slice(), sig.as_slice()))
}

} // verus!
