//! From what is encrypted to what is decrypted.

use vstd::prelude::*;
use vstd::slice::*;
use vstd::string::*;
use vstd::utf8::*;

use crate::armor;
use crate::armor::{parse_public, parse_public_list};
use crate::context::HandshakeView;
use crate::crypto;
use crate::decrypt;
use crate::decrypt::decrypt_binary;
use crate::encrypt;
use crate::encrypt::{encrypt_binary, encrypt_streaming_binary};
use crate::envelope;
use crate::envelope::{parse_envelope_binary, EnvelopeView, ParsedBinary};
use crate::handshake;
use crate::handshake::SenderView;
use crate::keys::{unlock_secret, PublicBundle, PublicView, SecretBundle, SecretView};
use crate::laws::decryption::{lemma_unwrapped, unwrapped};
use crate::laws::formats::{holds_entries, lemma_holds_entries};
use crate::laws::lists::among;
use crate::message;
use crate::message::binary_from_armor;
use crate::recipients;
use crate::recipients::EntryView;
use crate::roundtrip;
use crate::streaming;
use crate::transcript;

verus! {

/// Whether secret keys read an envelope that was encrypted to public keys: they belong
/// together, the capsules that were made for the public key decapsulate, no capsule
/// stands twice, and no two entries give different keys.
pub open spec fn reads(
    v: EnvelopeView,
    es: Seq<EntryView>,
    p: PublicView,
    sk: SecretView,
) -> bool {
    &&& holds_entries(v.recipients_blob, es)
    &&& p.ecdh_pk == crypto::x25519_public(sk.ecdh_sk)
    &&& forall|i: int, ss: Seq<u8>|
        0 <= i < es.len() && #[trigger] crypto::mlkem_encapsulated(p.pq_pk, ss, es[i].enc_pq)
            ==> crypto::mlkem_shared(es[i].enc_pq, sk.pq_sk) == ss
    &&& forall|i: int, j: int|
        0 <= i < j < es.len() ==> crypto::sha256((#[trigger] es[i]).enc_pq) != crypto::sha256(
            (#[trigger] es[j]).enc_pq,
        )
    &&& forall|i: int, j: int|
        0 <= i < es.len() && 0 <= j < es.len() ==> {
            let a = unwrapped(#[trigger] es[i], v.enc_ecdh, v.rc, sk);
            let b = unwrapped(#[trigger] es[j], v.enc_ecdh, v.rc, sk);
            a is Some && b is Some ==> a == b
        }
}

/// Who reads an envelope.
proof fn lemma_reads(
    v: EnvelopeView,
    es: Seq<EntryView>,
    list: Seq<PublicBundle>,
    p: PublicView,
    arm: &str,
    pass: &str,
    sk: Result<SecretBundle, ()>,
)
    requires
        among(list, p),
        forall|i: int|
            0 <= i < list.len() ==> armor::valid_public(#[trigger] armor::public_views(list)[i]),
        call_ensures(unlock_secret, (arm, pass), sk),
        sk is Ok,
        reads(v, es, p, (sk->Ok_0)@),
    ensures
        roundtrip::is_reader(v, armor::public_views(list), p, arm@, pass@),
{
    let l = armor::public_views(list);
    let k = (sk->Ok_0)@;
    let n = choose|n: int| 0 <= n < list.len() && (#[trigger] list[n])@ == p;
    assert(l[n] == p);
    lemma_holds_entries(v.recipients_blob, es);
    recipients::lemma_recipients_roundtrip(es);
    assert(recipients::decoded(v.recipients_blob) == Some(es));
    let ids = recipients::ids_of(es);
    assert(ids.no_duplicates()) by {
        assert forall|i: int, j: int|
            0 <= i < ids.len() && 0 <= j < ids.len() && i != j implies ids[i] != ids[j] by {
            assert(ids[i] == crypto::sha256(es[i].enc_pq));
            assert(ids[j] == crypto::sha256(es[j].enc_pq));
        }
    }
    assert forall|i: int, j: int| 0 <= i < es.len() && 0 <= j < es.len() implies {
        let a = handshake::opened_entry(#[trigger] es[i], v.enc_ecdh, v.rc, k);
        let b = handshake::opened_entry(#[trigger] es[j], v.enc_ecdh, v.rc, k);
        a is Some && b is Some ==> a == b
    } by {
        lemma_unwrapped(es[i], v.enc_ecdh, v.rc, k);
        lemma_unwrapped(es[j], v.enc_ecdh, v.rc, k);
    }
    assert(handshake::entries_agree(v, k));
    assert(handshake::capsules_open(v, p, k));
    assert(handshake::is_agreement_pair(p, k));
}

/// Whoever holds the secret of a key on the list decrypts a whole message to what was
/// encrypted, whatever it is and however many others are on the list.
pub proof fn law_whole_round_trip(
    pt: &[u8],
    recipients: &str,
    signer: Option<(&str, &str)>,
    list: Result<Vec<PublicBundle>, ()>,
    made: Result<Vec<u8>, ()>,
    bytes: &[u8],
    env: Result<ParsedBinary, ()>,
    es: Seq<EntryView>,
    p: PublicView,
    arm: &str,
    pass: &str,
    sk: Result<SecretBundle, ()>,
    expected: Option<&str>,
    q: Option<Result<PublicBundle, ()>>,
    r: Result<(Vec<u8>, i32), ()>,
)
    requires
        call_ensures(parse_public_list, (recipients,), list),
        call_ensures(encrypt_binary, (pt, recipients, signer), made),
        made matches Ok(b) && b@ == bytes@,
        call_ensures(parse_envelope_binary, (bytes,), env),
        list matches Ok(l) && among(l@, p),
        call_ensures(unlock_secret, (arm, pass), sk),
        sk is Ok,
        env is Ok ==> reads((env->Ok_0)@, es, p, (sk->Ok_0)@),
        expected is Some == q is Some,
        expected matches Some(a) ==> call_ensures(parse_public, (a,), q->0),
        call_ensures(decrypt_binary, (bytes, arm, pass, expected), r),
    ensures
        env is Ok,
        signer is None || !(q matches Some(Err(_))) ==> r is Ok,
        r matches Ok(d) ==> d.0@ == pt@,
        signer is None && expected is None ==> (r matches Ok(d) && d.1 == 0),
        signer is None && expected is Some ==> (r matches Ok(d) && d.1 == 3),
        signer is Some && expected is None ==> (r matches Ok(d) && d.1 == 3),
{
    let l = (list->Ok_0)@;
    let sv = encrypt::signer_view(signer);
    let ev = transcript::text_view(expected);
    let views = armor::public_views(l);
    let v = choose|v: EnvelopeView| encrypt::encrypts_whole(bytes@, pt@, views, sv, v);
    assert(envelope::parsed(bytes@) == Some(v)) by {
        let (hs, sender) = choose|hs: HandshakeView, sender: SenderView|
            encrypt::is_whole_encryption(v, pt@, views, sv, hs, sender);
        envelope::lemma_envelope_roundtrip(v);
    }
    lemma_reads(v, es, l, p, arm, pass, sk);
    roundtrip::lemma_whole_read(bytes@, v, pt@, views, sv, p, arm@, pass@, ev);
}

/// Whoever holds the secret of a key on the list decrypts a chunked message to what
/// was encrypted, in one piece.
pub proof fn law_stream_round_trip(
    pt: &[u8],
    recipients: &str,
    signer: Option<(&str, &str)>,
    chunk_size: usize,
    list: Result<Vec<PublicBundle>, ()>,
    made: Result<Vec<u8>, ()>,
    bytes: &[u8],
    env: Result<ParsedBinary, ()>,
    es: Seq<EntryView>,
    p: PublicView,
    arm: &str,
    pass: &str,
    sk: Result<SecretBundle, ()>,
    expected: Option<&str>,
    r: Result<(Vec<u8>, i32), ()>,
)
    requires
        pt@.len() > 0 || signer is Some,
        call_ensures(parse_public_list, (recipients,), list),
        call_ensures(encrypt_streaming_binary, (pt, recipients, signer, chunk_size), made),
        made matches Ok(b) && b@ == bytes@,
        call_ensures(parse_envelope_binary, (bytes,), env),
        list matches Ok(l) && among(l@, p),
        call_ensures(unlock_secret, (arm, pass), sk),
        sk is Ok,
        env is Ok ==> reads((env->Ok_0)@, es, p, (sk->Ok_0)@),
        call_ensures(decrypt_binary, (bytes, arm, pass, expected), r),
    ensures
        env is Ok,
        r matches Ok(d) && d.0@ == pt@ && d.1 == if expected is Some {
            3i32
        } else {
            0
        },
{
    let l = (list->Ok_0)@;
    let sv = encrypt::signer_view(signer);
    let ev = transcript::text_view(expected);
    let views = armor::public_views(l);
    let chunks = streaming::chunks_of(pt@, chunk_size as nat);
    let v = choose|v: EnvelopeView| encrypt::encrypts_stream(bytes@, chunks, views, sv, v);
    let (hs, sender, sig) = choose|hs: HandshakeView, sender: SenderView, sig: Option<Seq<u8>>|
        encrypt::is_stream_encryption(v, chunks, views, sv, hs, sender, sig);
    assert(chunk_size > 0);
    assert(pt@.len() > 0 ==> chunks.len() > 0);
    encrypt::lemma_stream_valid(v, chunks, views, sv, hs, sender, sig);
    envelope::lemma_envelope_roundtrip(v);
    lemma_reads(v, es, l, p, arm, pass, sk);
    roundtrip::lemma_stream_read(bytes@, v, chunks, views, sv, p, arm@, pass@, ev);
    streaming::lemma_chunks_joined(pt@, chunk_size as nat);
}

/// Whoever holds the secret of a key on the list decrypts armor to what was encrypted.
pub proof fn law_armor_round_trip(
    pt: &[u8],
    recipients: &str,
    signer: Option<(&str, &str)>,
    list: Result<Vec<PublicBundle>, ()>,
    made: Result<Vec<u8>, ()>,
    bytes: &[u8],
    text: &str,
    bin: Result<Vec<u8>, ()>,
    b: &[u8],
    env: Result<ParsedBinary, ()>,
    es: Seq<EntryView>,
    p: PublicView,
    arm: &str,
    pass: &str,
    sk: Result<SecretBundle, ()>,
    r: Result<(Vec<u8>, i32), ()>,
)
    requires
        call_ensures(parse_public_list, (recipients,), list),
        call_ensures(encrypt::encrypt, (pt, recipients, signer), made),
        made matches Ok(t) && t@ == bytes@,
        valid_utf8(bytes@) ==> text@ == decode_utf8(bytes@),
        call_ensures(binary_from_armor, (text,), bin),
        bin is Ok ==> (bin->Ok_0)@ == b@,
        call_ensures(parse_envelope_binary, (b,), env),
        list matches Ok(l) && among(l@, p),
        call_ensures(unlock_secret, (arm, pass), sk),
        sk is Ok,
        env is Ok ==> reads((env->Ok_0)@, es, p, (sk->Ok_0)@),
        call_ensures(decrypt::decrypt, (bytes, arm, pass, None::<&str>), r),
    ensures
        valid_utf8(bytes@),
        bin is Ok,
        env is Ok,
        r matches Ok(d) && d.0@ == pt@ && d.1 == if signer is Some {
            3i32
        } else {
            0
        },
{
    let l = (list->Ok_0)@;
    let sv = encrypt::signer_view(signer);
    let views = armor::public_views(l);
    let v = lemma_armored(bytes@, pt@, views, sv);
    lemma_reads(v, es, l, p, arm, pass, sk);
    roundtrip::lemma_whole_read(
        envelope::envelope_bytes(v),
        v,
        pt@,
        views,
        sv,
        p,
        arm@,
        pass@,
        None,
    );
}

/// The envelope that armor stands for.
proof fn lemma_armored(
    t: Seq<u8>,
    pt: Seq<u8>,
    list: Seq<PublicView>,
    signer: Option<(Seq<char>, Seq<char>)>,
) -> (v: EnvelopeView)
    requires
        encrypt::is_armored_whole(t, pt, list, signer),
    ensures
        t == encode_utf8(message::armored(message::message_of_envelope(v))),
        valid_utf8(t),
        message::binary_of(decode_utf8(t)) == Some(envelope::envelope_bytes(v)),
        envelope::parsed(envelope::envelope_bytes(v)) == Some(v),
        encrypt::encrypts_whole(envelope::envelope_bytes(v), pt, list, signer, v),
{
    let binary = choose|binary: Seq<u8>| #[trigger]
        encrypt::is_armor_of(t, binary) && encrypt::is_encrypted_whole(binary, pt, list, signer);
    let v = choose|v: EnvelopeView| encrypt::encrypts_whole(binary, pt, list, signer, v);
    let (hs, sender) = choose|hs: HandshakeView, sender: SenderView|
        encrypt::is_whole_encryption(v, pt, list, signer, hs, sender);
    envelope::lemma_envelope_roundtrip(v);
    let a = message::armored(message::message_of_envelope(v));
    encode_utf8_valid_utf8(a);
    encode_utf8_decode_utf8(a);
    handshake::lemma_handshake_entries(hs, list, sender);
    message::lemma_binary_armor_roundtrip(v);
    v
}

/// A message that is signed with secret keys is reported as verified to who expects
/// the public keys that belong to them, unless the Ed25519 half of the signature
/// begins with the neutral point.
pub proof fn law_signed_verifies(
    pt: &[u8],
    recipients: &str,
    signer: (&str, &str),
    k: Result<SecretBundle, ()>,
    list: Result<Vec<PublicBundle>, ()>,
    made: Result<Vec<u8>, ()>,
    bytes: &[u8],
    env: Result<ParsedBinary, ()>,
    es: Seq<EntryView>,
    p: PublicView,
    arm: &str,
    pass: &str,
    sk: Result<SecretBundle, ()>,
    expected: &str,
    q: Result<PublicBundle, ()>,
    r: Result<(Vec<u8>, i32), ()>,
)
    requires
        call_ensures(unlock_secret, (signer.0, signer.1), k),
        k is Ok,
        call_ensures(parse_public_list, (recipients,), list),
        call_ensures(encrypt_binary, (pt, recipients, Some(signer)), made),
        made matches Ok(b) && b@ == bytes@,
        call_ensures(parse_envelope_binary, (bytes,), env),
        list matches Ok(l) && among(l@, p),
        call_ensures(unlock_secret, (arm, pass), sk),
        sk is Ok,
        env is Ok ==> reads((env->Ok_0)@, es, p, (sk->Ok_0)@),
        call_ensures(parse_public, (expected,), q),
        q is Ok,
        crypto::mldsa_pair((q->Ok_0)@.sig_pk_pq, (k->Ok_0)@.sig_sk_pq),
        (q->Ok_0)@.sig_pk_ed == crypto::ed25519_public((k->Ok_0)@.sig_sk_ed),
        call_ensures(decrypt_binary, (bytes, arm, pass, Some(expected)), r),
    ensures
        env matches Ok(e) && e@.signature is Some,
        (env->Ok_0)@.signature->0.skip(3309).take(32) != (Seq::new(
            32,
            |i: int|
                if i == 0 {
                    1u8
                } else {
                    0u8
                },
        )) ==> (r matches Ok(d) && d.0@ == pt@ && d.1 == 1),
{
    let l = (list->Ok_0)@;
    let sv = Some((signer.0@, signer.1@));
    let ev = Some(expected@);
    let views = armor::public_views(l);
    let v = choose|v: EnvelopeView| encrypt::encrypts_whole(bytes@, pt@, views, sv, v);
    assert(envelope::parsed(bytes@) == Some(v)) by {
        let (hs, sender) = choose|hs: HandshakeView, sender: SenderView|
            encrypt::is_whole_encryption(v, pt@, views, sv, hs, sender);
        envelope::lemma_envelope_roundtrip(v);
    }
    lemma_reads(v, es, l, p, arm, pass, sk);
    roundtrip::lemma_whole_read(bytes@, v, pt@, views, sv, p, arm@, pass@, ev);
    assert(transcript::is_signing_pair((q->Ok_0)@, (k->Ok_0)@));
    let n = Seq::new(
        32,
        |i: int|
            if i == 0 {
                1u8
            } else {
                0u8
            },
    );
    assert(crypto::ed25519_neutral() =~= n);
}

} // verus!
