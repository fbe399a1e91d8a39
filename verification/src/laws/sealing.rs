//! What encrypting makes: the content key for each recipient, the payload, and the
//! signature.

use vstd::prelude::*;
use vstd::relations::*;
use vstd::slice::*;
use vstd::string::*;
use vstd::utf8::*;

use crate::armor;
use crate::armor::parse_public_list;
use crate::context::{EncryptHandshake, HandshakeView};
use crate::crypto;
use crate::encrypt;
use crate::encrypt::{
    encrypt_binary, encrypt_core, encrypt_str, encrypt_streaming, encrypt_streaming_binary,
    end_payload, seal_message, seal_stream_message, sign_payload_end, StreamMode,
};
use crate::envelope;
use crate::envelope::EnvelopeView;
use crate::handshake;
use crate::handshake::{build_encrypt_handshake, make_handshake, Capsule, SenderView};
use crate::keys::{PublicBundle, PublicView, SecretBundle};
use crate::laws::decryption::{
    framed, kek, kek_nonce, leading_number, lemma_frame_nonce,
};
use crate::laws::encryption::{lemma_pieces, lemma_pieces_fit, pieces, unlocks};
use crate::laws::formats::{
    entries, flag_byte, flat, frame_nonce, holds_entries, lemma_entries, lemma_flat,
    lemma_holds_entries, lemma_no_later,
    lemma_sendable, lemma_wire, no_later, sendable, trailer, trailer_magic, wire,
};
use crate::laws::lists::keys_in;
use crate::laws::texts::text_of_message;
use crate::laws::{
    lemma_message_text, lemma_numbers, lemma_payload_aad, lemma_signed_text, lemma_wrap_aad, number,
    payload_aad, signed_text, wrap_aad,
};
use crate::message;
use crate::message::MessageView;
use crate::order;
use crate::recipients;
use crate::recipients::EntryView;
use crate::streaming;
use crate::streaming::{encrypt_stream_chunks, RunningDigest};
use crate::transcript;

verus! {

/// Whether an entry wraps a content key for a recipient: the capsule is one for the
/// recipient's ML-KEM-768 key, and the wrapping key comes of its secret and of the
/// secret that the ephemeral key shares with the recipient's X25519 key.
pub open spec fn wraps(
    e: EntryView,
    eph_sk: Seq<u8>,
    ss_pq: Seq<u8>,
    p: PublicView,
    rc: Seq<u8>,
    cek: Seq<u8>,
) -> bool {
    let enc_ecdh = crypto::x25519_public(eph_sk);
    let ss_ecdh = crypto::x25519_shared(eph_sk, p.ecdh_pk);
    &&& crypto::mlkem_encapsulated(p.pq_pk, ss_pq, e.enc_pq)
    &&& e.entry_id == crypto::sha256(e.enc_pq)
    &&& e.index_hint == leading_number(crypto::sha256(e.entry_id + enc_ecdh + rc + ss_ecdh))
    &&& e.wrap == crypto::xchacha_seal(
        kek(rc, ss_ecdh, ss_pq, e.entry_id),
        kek_nonce(rc, ss_ecdh, ss_pq, e.entry_id),
        wrap_aad(enc_ecdh, e.entry_id, e.index_hint as int, rc),
        cek,
    )
}

/// What a sender settles: the content key, the ephemeral secret, the recipients, the
/// entries with the secrets of their capsules, and the sorted identifiers.
#[verifier::ext_equal]
pub struct Settled {
    pub cek: Seq<u8>,
    pub eph_sk: Seq<u8>,
    pub recips: Seq<PublicView>,
    pub es: Seq<EntryView>,
    pub secrets: Seq<Seq<u8>>,
    pub sorted: Seq<Seq<u8>>,
}

/// Whether an envelope addresses the keys of a list: it has one entry for each
/// different key, in order, that wraps the content key; and the commitment to them.
pub open spec fn addresses(v: EnvelopeView, list: Seq<PublicView>, s: Settled) -> bool {
    &&& v.enc_ecdh == crypto::x25519_public(s.eph_sk)
    &&& s.cek.len() == 32
    &&& holds_entries(v.recipients_blob, s.es)
    &&& s.es.len() == s.recips.len()
    &&& s.es.len() == s.secrets.len()
    &&& forall|i: int|
        0 <= i < s.es.len() ==> wraps(
            #[trigger] s.es[i],
            s.eph_sk,
            s.secrets[i],
            s.recips[i],
            v.rc,
            s.cek,
        )
    &&& forall|i: int| 0 <= i < s.recips.len() ==> list.contains(#[trigger] s.recips[i])
    &&& forall|i: int| 0 <= i < list.len() ==> reaches(s.recips, #[trigger] list[i])
    &&& forall|i: int, j: int|
        0 <= i < j < s.recips.len() ==> earlier(#[trigger] s.recips[i], #[trigger] s.recips[j])
    &&& commitment_to(v.rc, s.es.map_values(|e: EntryView| crypto::sha256(e.enc_pq)), s.sorted)
}

/// Whether a recipient has the keys of `p` that a message is encrypted to.
pub open spec fn reaches(recips: Seq<PublicView>, p: PublicView) -> bool {
    exists|i: int|
        0 <= i < recips.len() && (#[trigger] recips[i]).ecdh_pk + recips[i].pq_pk == p.ecdh_pk
            + p.pq_pk
}

/// Whether one recipient comes before another.
pub open spec fn earlier(a: PublicView, b: PublicView) -> bool {
    a.ecdh_pk + a.pq_pk != b.ecdh_pk + b.pq_pk && no_later(a.ecdh_pk + a.pq_pk, b.ecdh_pk + b.pq_pk)
}

/// Whether a signature is one of the signer's keys over a text, or there is neither.
pub open spec fn signed_with(
    sig: Option<Seq<u8>>,
    k: Option<Result<SecretBundle, ()>>,
    signed: Seq<u8>,
) -> bool {
    match (sig, k) {
        (Some(s), Some(Ok(sk))) => {
            &&& s.len() == 3309 + 64
            &&& crypto::mldsa_signs(sk@.sig_sk_pq, signed, s.take(3309))
            &&& s.skip(3309) == crypto::ed25519_signature(sk@.sig_sk_ed, signed)
        },
        (None, None) => true,
        _ => false,
    }
}

/// What a handshake settles.
pub open spec fn settled(hs: HandshakeView, sender: SenderView) -> Settled {
    Settled {
        cek: hs.cek,
        eph_sk: sender.eph_sk,
        recips: sender.recips,
        es: handshake::made_entries(sender.caps, hs.enc_ecdh, hs.cek),
        secrets: sender.caps.map_values(|c: handshake::CapsuleView| c.ss_pq),
        sorted: order::sorted_ids(handshake::capsule_ids(sender.caps)),
    }
}

/// The entries of a handshake wrap the content key.
proof fn lemma_wraps(hs: HandshakeView, list: Seq<PublicView>, sender: SenderView, i: int)
    requires
        handshake::is_handshake(hs, list, sender),
        0 <= i < sender.caps.len(),
    ensures
        wraps(
            settled(hs, sender).es[i],
            sender.eph_sk,
            sender.caps[i].ss_pq,
            sender.recips[i],
            hs.rc,
            hs.cek,
        ),
{
    let c = sender.caps[i];
    assert(handshake::capsule_for(c, sender.eph_sk, sender.recips[i])
        && handshake::entry_holds(c, hs.enc_ecdh, hs.rc, hs.cek) && hs.enc_ecdh
        == crypto::x25519_public(sender.eph_sk) && hs.rc == recipients::commitment(
        handshake::capsule_ids(sender.caps),
    )) by {
        reveal(handshake::is_handshake);
    }
    let e = handshake::made_entry(c, hs.enc_ecdh, hs.rc, hs.cek);
    assert(settled(hs, sender).es[i] == e);
    lemma_wrap_aad(hs.enc_ecdh, e.entry_id, e.index_hint as int, hs.rc);
}

/// The recipients of a handshake are the different keys of its list, in order.
proof fn lemma_reaches(hs: HandshakeView, list: Seq<PublicView>, sender: SenderView)
    requires
        handshake::is_handshake(hs, list, sender),
    ensures
        forall|i: int|
            0 <= i < sender.recips.len() ==> list.contains(#[trigger] sender.recips[i]),
        forall|i: int| 0 <= i < list.len() ==> reaches(sender.recips, #[trigger] list[i]),
        forall|i: int, j: int|
            0 <= i < j < sender.recips.len() ==> earlier(
                #[trigger] sender.recips[i],
                #[trigger] sender.recips[j],
            ),
        sender.caps.len() == sender.recips.len(),
        hs.enc_ecdh == crypto::x25519_public(sender.eph_sk),
{
    assert(handshake::recipients_of(list, sender.recips) && sender.caps.len()
        == sender.recips.len() && hs.enc_ecdh == crypto::x25519_public(sender.eph_sk)) by {
        reveal(handshake::is_handshake);
    }
    lemma_everyone_reached(list, sender.recips);
    lemma_ordered(list, sender.recips);
}

/// The recipients of a list are its keys.
proof fn lemma_everyone_reached(list: Seq<PublicView>, recips: Seq<PublicView>)
    requires
        handshake::recipients_of(list, recips),
    ensures
        forall|i: int| 0 <= i < recips.len() ==> list.contains(#[trigger] recips[i]),
        forall|i: int| 0 <= i < list.len() ==> reaches(recips, #[trigger] list[i]),
{
    assert forall|i: int| 0 <= i < list.len() implies reaches(recips, #[trigger] list[i]) by {
        assert(handshake::lists(recips, list[i]));
        let k = choose|k: int|
            0 <= k < recips.len() && handshake::sort_key(#[trigger] recips[k])
                == handshake::sort_key(list[i]);
        assert(recips[k].ecdh_pk + recips[k].pq_pk == list[i].ecdh_pk + list[i].pq_pk);
    }
}

/// The recipients of a list are in order.
proof fn lemma_ordered(list: Seq<PublicView>, recips: Seq<PublicView>)
    requires
        handshake::recipients_of(list, recips),
    ensures
        forall|i: int, j: int|
            0 <= i < j < recips.len() ==> earlier(#[trigger] recips[i], #[trigger] recips[j]),
{
    assert forall|i: int, j: int| 0 <= i < j < recips.len() implies earlier(
        #[trigger] recips[i],
        #[trigger] recips[j],
    ) by {
        lemma_earlier(recips[i], recips[j]);
    }
}

/// One recipient comes before another, either way.
proof fn lemma_earlier(a: PublicView, b: PublicView)
    requires
        handshake::comes_before(a, b),
    ensures
        earlier(a, b),
{
    lemma_no_later(handshake::sort_key(a), handshake::sort_key(b));
}

/// A handshake addresses the keys of its list.
pub proof fn lemma_addresses(
    v: EnvelopeView,
    hs: HandshakeView,
    list: Seq<PublicView>,
    sender: SenderView,
)
    requires
        handshake::is_handshake(hs, list, sender),
        sender.caps.len() > 0,
        v.enc_ecdh == hs.enc_ecdh,
        v.recipients_blob == hs.recipients_blob,
        v.rc == hs.rc,
    ensures
        addresses(v, list, settled(hs, sender)),
{
    let s = settled(hs, sender);
    handshake::lemma_handshake_entries(hs, list, sender);
    assert(recipients::encodes(v.recipients_blob, s.es));
    lemma_holds_entries(v.recipients_blob, s.es);
    lemma_reaches(hs, list, sender);
    assert forall|i: int| 0 <= i < s.es.len() implies wraps(
        #[trigger] s.es[i],
        s.eph_sk,
        s.secrets[i],
        s.recips[i],
        v.rc,
        s.cek,
    ) by {
        lemma_wraps(hs, list, sender, i);
        assert(s.secrets[i] == sender.caps[i].ss_pq);
    }
    let ids = s.es.map_values(|e: EntryView| crypto::sha256(e.enc_pq));
    assert(recipients::ids_of(s.es) =~= ids);
    lemma_flat(s.sorted);
    lemma_sorted(ids);
}

/// Sorted identifiers are in order.
proof fn lemma_sorted(ids: Seq<Seq<u8>>)
    ensures
        order::sorted_ids(ids).to_multiset() == ids.to_multiset(),
        forall|i: int, j: int|
            0 <= i < j < order::sorted_ids(ids).len() ==> no_later(
                #[trigger] order::sorted_ids(ids)[i],
                #[trigger] order::sorted_ids(ids)[j],
            ),
{
    order::lemma_sorted_ids(ids);
    let o = order::sorted_ids(ids);
    assert forall|i: int, j: int| 0 <= i < j < o.len() implies no_later(
        #[trigger] o[i],
        #[trigger] o[j],
    ) by {
        lemma_no_later(o[i], o[j]);
        let leq = order::by_bytes();
        assert(leq(o[i], o[j]));
    }
}

/// A signature of the signer.
pub proof fn lemma_signed_with(
    sig: Option<Seq<u8>>,
    signer: Option<(&str, &str)>,
    k: Option<Result<SecretBundle, ()>>,
    signed: Seq<u8>,
)
    requires
        unlocks(signer, k),
        encrypt::signed_by(sig, encrypt::signer_view(signer), signed),
    ensures
        signed_with(sig, k, signed),
{
}

/// Whether an envelope is a whole message for the keys of a list: the payload is the
/// message under the content key, and the signature, if there is a signer, is over all
/// of it.
pub open spec fn whole_message(
    v: EnvelopeView,
    pt: Seq<u8>,
    list: Seq<PublicView>,
    k: Option<Result<SecretBundle, ()>>,
    s: Settled,
) -> bool {
    &&& sendable(v)
    &&& !v.stream
    &&& !v.has_trailer
    &&& addresses(v, list, s)
    &&& v.ct_and_tag == crypto::xchacha_seal(
        s.cek,
        v.nonce,
        payload_aad(v.enc_ecdh, v.nonce, v.recipients_blob, false),
        pt,
    )
    &&& v.ct_and_tag.len() == pt.len() + 16
    &&& signed_with(
        v.signature,
        k,
        signed_text(v.enc_ecdh, v.nonce, v.recipients_blob, v.rc, false, v.ct_and_tag),
    )
}

/// A whole message, as it is made.
proof fn lemma_whole_message(
    b: Seq<u8>,
    pt: Seq<u8>,
    list: Seq<PublicView>,
    signer: Option<(&str, &str)>,
    k: Option<Result<SecretBundle, ()>>,
)
    requires
        unlocks(signer, k),
        encrypt::is_encrypted_whole(b, pt, list, encrypt::signer_view(signer)),
    ensures
        exists|v: EnvelopeView, s: Settled|
            b == #[trigger] wire(v) && #[trigger] whole_message(v, pt, list, k, s),
{
    let sv = encrypt::signer_view(signer);
    let v = choose|v: EnvelopeView| encrypt::encrypts_whole(b, pt, list, sv, v);
    let (hs, sender) = choose|hs: HandshakeView, sender: SenderView|
        encrypt::is_whole_encryption(v, pt, list, sv, hs, sender);
    lemma_sendable(v);
    lemma_addresses(v, hs, list, sender);
    lemma_payload_aad(v.enc_ecdh, v.nonce, v.recipients_blob, false);
    lemma_signed_text(v.enc_ecdh, v.nonce, v.recipients_blob, v.rc, v.ct_and_tag);
    lemma_signed_with(v.signature, signer, k, encrypt::whole_transcript(hs, pt));
    assert(whole_message(v, pt, list, k, settled(hs, sender)));
}

/// Encrypting whole makes a whole message for the keys of the list, signed by the
/// signer.
pub proof fn law_whole_made(
    pt: &[u8],
    recipients: &str,
    signer: Option<(&str, &str)>,
    list: Result<Vec<PublicBundle>, ()>,
    k: Option<Result<SecretBundle, ()>>,
    r: Result<Vec<u8>, ()>,
)
    requires
        call_ensures(parse_public_list, (recipients,), list),
        unlocks(signer, k),
        call_ensures(encrypt_binary, (pt, recipients, signer), r) || call_ensures(
            encrypt_core,
            (pt, recipients, signer, StreamMode::Off),
            r,
        ),
        r is Ok,
    ensures
        list is Ok,
        exists|v: EnvelopeView, s: Settled|
            (r->Ok_0)@ == #[trigger] wire(v) && #[trigger] whole_message(
                v,
                pt@,
                keys_in((list->Ok_0)@),
                k,
                s,
            ),
{
    assert(armor::public_views(list->Ok_0@) =~= keys_in(list->Ok_0@));
    lemma_whole_message((r->Ok_0)@, pt@, keys_in((list->Ok_0)@), signer, k);
}

/// In armor, the same is made: the fields of the envelope are written as text.
pub proof fn law_armor_made(
    pt: &[u8],
    recipients: &str,
    signer: Option<(&str, &str)>,
    list: Result<Vec<PublicBundle>, ()>,
    k: Option<Result<SecretBundle, ()>>,
    r: Result<Vec<u8>, ()>,
)
    requires
        call_ensures(parse_public_list, (recipients,), list),
        unlocks(signer, k),
        call_ensures(encrypt::encrypt, (pt, recipients, signer), r),
        r is Ok,
    ensures
        list is Ok,
        exists|v: EnvelopeView, s: Settled|
            (r->Ok_0)@ == #[trigger] armor_of(v) && #[trigger] whole_message(
                v,
                pt@,
                keys_in((list->Ok_0)@),
                k,
                s,
            ),
{
    assert(armor::public_views(list->Ok_0@) =~= keys_in(list->Ok_0@));
    lemma_armor_made((r->Ok_0)@, pt@, keys_in((list->Ok_0)@), signer, k);
}

/// A whole message in armor, as it is made.
proof fn lemma_armor_made(
    t: Seq<u8>,
    pt: Seq<u8>,
    list: Seq<PublicView>,
    signer: Option<(&str, &str)>,
    k: Option<Result<SecretBundle, ()>>,
)
    requires
        unlocks(signer, k),
        encrypt::is_armored_whole(t, pt, list, encrypt::signer_view(signer)),
    ensures
        exists|v: EnvelopeView, s: Settled|
            t == #[trigger] armor_of(v) && #[trigger] whole_message(v, pt, list, k, s),
{
    let sv = encrypt::signer_view(signer);
    let b = choose|b: Seq<u8>| #[trigger]
        encrypt::is_armor_of(t, b) && encrypt::is_encrypted_whole(b, pt, list, sv);
    lemma_whole_message(b, pt, list, signer, k);
    let (v, s) = choose|v: EnvelopeView, s: Settled|
        b == #[trigger] wire(v) && #[trigger] whole_message(v, pt, list, k, s);
    lemma_sendable(v);
    envelope::lemma_envelope_roundtrip(v);
    lemma_message_text(message::message_of_envelope(v));
    assert(t == armor_of(v));
}

/// The UTF-8 text of an envelope.
pub open spec fn armor_of(v: EnvelopeView) -> Seq<u8> {
    encode_utf8(
        text_of_message(
            MessageView {
                enc_ecdh: v.enc_ecdh,
                nonce: v.nonce,
                recipients_blob: v.recipients_blob,
                ct_and_tag: v.ct_and_tag,
                signature: v.signature,
            },
        ),
    )
}

// ----------------------------------------------------------------------
// Chunks
// ----------------------------------------------------------------------

/// The bodies of the frames of chunks, from number `index` on.
pub open spec fn sealed_bodies(
    cek: Seq<u8>,
    rc: Seq<u8>,
    aad: Seq<u8>,
    chunks: Seq<Seq<u8>>,
) -> Seq<Seq<u8>> {
    Seq::new(
        chunks.len(),
        |i: int| crypto::xchacha_seal(cek, frame_nonce(cek, rc, i), aad, chunks[i]),
    )
}

/// One more frame.
proof fn lemma_framed_push(
    cek: Seq<u8>,
    rc: Seq<u8>,
    index: int,
    bodies: Seq<Seq<u8>>,
    body: Seq<u8>,
)
    ensures
        framed(cek, rc, index, bodies.push(body)) == framed(cek, rc, index, bodies) + number(
            body.len() as int,
            4,
        ) + frame_nonce(cek, rc, index + bodies.len()) + body,
    decreases bodies.len(),
{
    let all = bodies.push(body);
    if bodies.len() == 0 {
        assert(all.skip(1) =~= Seq::<Seq<u8>>::empty());
        assert(all[0] == body);
        assert(index + bodies.len() == index);
        assert(framed(cek, rc, index + 1, all.skip(1)) =~= Seq::<u8>::empty());
        assert(framed(cek, rc, index, bodies) =~= Seq::<u8>::empty());
        assert(framed(cek, rc, index, all) =~= framed(cek, rc, index, bodies) + number(
            body.len() as int,
            4,
        ) + frame_nonce(cek, rc, index + bodies.len()) + body);
    } else {
        let rest = bodies.skip(1);
        lemma_framed_push(cek, rc, index + 1, rest, body);
        assert(all.skip(1) =~= rest.push(body));
        assert(all[0] == bodies[0]);
        assert(index + 1 + rest.len() == index + bodies.len());
        assert(framed(cek, rc, index, all) =~= framed(cek, rc, index, bodies) + number(
            body.len() as int,
            4,
        ) + frame_nonce(cek, rc, index + bodies.len()) + body);
    }
}

/// The frames of chunks.
pub proof fn lemma_frames(hs: HandshakeView, chunks: Seq<Seq<u8>>)
    ensures
        streaming::frames_of(hs, chunks) == framed(
            hs.cek,
            hs.rc,
            0,
            sealed_bodies(
                hs.cek,
                hs.rc,
                payload_aad(hs.enc_ecdh, hs.nonce, hs.recipients_blob, hs.stream_on),
                chunks,
            ),
        ),
    decreases chunks.len(),
{
    let aad = payload_aad(hs.enc_ecdh, hs.nonce, hs.recipients_blob, hs.stream_on);
    lemma_payload_aad(hs.enc_ecdh, hs.nonce, hs.recipients_blob, hs.stream_on);
    let bodies = sealed_bodies(hs.cek, hs.rc, aad, chunks);
    if chunks.len() > 0 {
        let init = chunks.drop_last();
        let n = init.len() as int;
        lemma_frames(hs, init);
        let before = sealed_bodies(hs.cek, hs.rc, aad, init);
        assert(bodies =~= before.push(bodies[n]));
        lemma_framed_push(hs.cek, hs.rc, 0, before, bodies[n]);
        lemma_frame_nonce(hs.cek, hs.rc, n);
        lemma_numbers(bodies[n].len() as int);
        assert(streaming::chunk_body(hs, n, chunks.last()) == bodies[n]);
        assert(streaming::frames_of(hs, chunks) =~= framed(hs.cek, hs.rc, 0, bodies));
    } else {
        assert(bodies =~= Seq::<Seq<u8>>::empty());
    }
}

/// The end of a chunked payload: the end marker, and the trailer of the signature if
/// there is one.
pub open spec fn payload_end(sig: Option<Seq<u8>>) -> Seq<u8> {
    number(0xFFFF_FFFF, 4) + match sig {
        Some(s) => trailer(s),
        None => seq![],
    }
}

/// Payloads end as said.
pub proof fn lemma_payload_end(sig: Option<Seq<u8>>)
    ensures
        (match sig {
            Some(s) => streaming::trailer_bytes(s),
            None => crate::util::be32(0xFFFF_FFFF),
        }) == payload_end(sig),
{
    lemma_numbers(0xFFFF_FFFF);
    match sig {
        Some(s) => {
            lemma_numbers(s.len() as int);
            assert(crate::constants::TRAILER_MAGIC@ =~= trailer_magic());
            assert(streaming::trailer_bytes(s) =~= payload_end(sig));
        },
        None => {
            assert(crate::util::be32(0xFFFF_FFFF) =~= payload_end(sig));
        },
    }
}

/// Whether an envelope is a chunked message for the keys of a list: the payload is the
/// frames of the chunks under the content key, then the end marker, then, if there is
/// a signer, the trailer with a signature over the digest of the frames.
pub open spec fn stream_message(
    v: EnvelopeView,
    chunks: Seq<Seq<u8>>,
    list: Seq<PublicView>,
    k: Option<Result<SecretBundle, ()>>,
    s: Settled,
    sig: Option<Seq<u8>>,
) -> bool {
    let frames = framed(
        s.cek,
        v.rc,
        0,
        sealed_bodies(
            s.cek,
            v.rc,
            payload_aad(v.enc_ecdh, v.nonce, v.recipients_blob, true),
            chunks,
        ),
    );
    &&& v.enc_ecdh.len() == 32
    &&& v.nonce.len() == 24
    &&& v.rc.len() == 32
    &&& v.stream
    &&& v.has_trailer == k is Some
    &&& v.signature is None
    &&& addresses(v, list, s)
    &&& v.ct_and_tag == frames + payload_end(sig)
    &&& signed_with(
        sig,
        k,
        signed_text(
            v.enc_ecdh,
            v.nonce,
            v.recipients_blob,
            v.rc,
            true,
            crypto::sha256(frames),
        ),
    )
}

/// The envelope of a chunked message is one.
proof fn lemma_stream_is(
    v: EnvelopeView,
    b: Seq<u8>,
    chunks: Seq<Seq<u8>>,
    list: Seq<PublicView>,
    signer: Option<(&str, &str)>,
    k: Option<Result<SecretBundle, ()>>,
    hs: HandshakeView,
    sender: SenderView,
    sig: Option<Seq<u8>>,
)
    requires
        unlocks(signer, k),
        b == envelope::envelope_bytes(v),
        encrypt::is_stream_encryption(
            v,
            chunks,
            list,
            encrypt::signer_view(signer),
            hs,
            sender,
            sig,
        ),
    ensures
        b == wire(v),
        stream_message(v, chunks, list, k, settled(hs, sender), sig),
{
    handshake::lemma_handshake_entries(hs, list, sender);
    lemma_wire(
        v.enc_ecdh,
        v.nonce,
        v.rc,
        v.recipients_blob,
        v.signature,
        envelope::flags_of(v.stream, v.has_trailer),
        v.ct_and_tag,
    );
    assert(b == wire(v));
    lemma_addresses(v, hs, list, sender);
    lemma_frames(hs, chunks);
    lemma_payload_end(sig);
    let frames = streaming::frames_of(hs, chunks);
    lemma_signed_text(v.enc_ecdh, v.nonce, v.recipients_blob, v.rc, frames);
    lemma_signed_with(sig, signer, k, encrypt::stream_transcript(hs, chunks));
}

/// A chunked message, as it is made.
proof fn lemma_stream_message(
    b: Seq<u8>,
    chunks: Seq<Seq<u8>>,
    list: Seq<PublicView>,
    signer: Option<(&str, &str)>,
    k: Option<Result<SecretBundle, ()>>,
)
    requires
        unlocks(signer, k),
        encrypt::is_encrypted_stream(b, chunks, list, encrypt::signer_view(signer)),
    ensures
        exists|v: EnvelopeView, s: Settled, sig: Option<Seq<u8>>|
            b == #[trigger] wire(v) && #[trigger] stream_message(v, chunks, list, k, s, sig),
{
    let sv = encrypt::signer_view(signer);
    let v = choose|v: EnvelopeView| encrypt::encrypts_stream(b, chunks, list, sv, v);
    let (hs, sender, sig) = choose|hs: HandshakeView, sender: SenderView, sig: Option<Seq<u8>>|
        encrypt::is_stream_encryption(v, chunks, list, sv, hs, sender, sig);
    lemma_stream_is(v, b, chunks, list, signer, k, hs, sender, sig);
}

/// Encrypting in chunks makes a chunked message of the pieces of the plaintext, for
/// the keys of the list, signed by the signer.
pub proof fn law_stream_made(
    pt: &[u8],
    recipients: &str,
    signer: Option<(&str, &str)>,
    chunk_size: usize,
    list: Result<Vec<PublicBundle>, ()>,
    k: Option<Result<SecretBundle, ()>>,
    r: Result<Vec<u8>, ()>,
)
    requires
        call_ensures(parse_public_list, (recipients,), list),
        unlocks(signer, k),
        call_ensures(encrypt_streaming_binary, (pt, recipients, signer, chunk_size), r)
            || call_ensures(
            encrypt_core,
            (pt, recipients, signer, StreamMode::On { chunk_size }),
            r,
        ),
        r is Ok,
    ensures
        list is Ok,
        exists|v: EnvelopeView, s: Settled, sig: Option<Seq<u8>>|
            (r->Ok_0)@ == #[trigger] wire(v) && #[trigger] stream_message(
                v,
                pieces(pt@, chunk_size as nat),
                keys_in((list->Ok_0)@),
                k,
                s,
                sig,
            ),
{
    assert(armor::public_views(list->Ok_0@) =~= keys_in(list->Ok_0@));
    lemma_pieces(pt@, chunk_size as nat);
    lemma_stream_message(
        (r->Ok_0)@,
        pieces(pt@, chunk_size as nat),
        keys_in((list->Ok_0)@),
        signer,
        k,
    );
}

// ----------------------------------------------------------------------
// Under a given handshake
// ----------------------------------------------------------------------

/// A handshake is built exactly for a list of valid keys, and addresses them.
pub proof fn law_handshake(
    recipients: &str,
    stream_on: bool,
    list: Result<Vec<PublicBundle>, ()>,
    r: Result<EncryptHandshake, ()>,
)
    requires
        call_ensures(parse_public_list, (recipients,), list),
        call_ensures(build_encrypt_handshake, (recipients, stream_on), r),
    ensures
        r is Ok <==> list is Ok,
        r matches Ok(h) ==> {
            &&& h@.stream_on == stream_on
            &&& exists|s: Settled| #[trigger]
                addresses(under(h@, stream_on, false, None, seq![]), keys_in((list->Ok_0)@), s) && s.cek
                    == h@.cek
        },
{
    if r is Ok {
        let h = (r->Ok_0)@;
        let l = keys_in((list->Ok_0)@);
        assert(armor::public_views(list->Ok_0@) =~= l);
        let sender = choose|sender: SenderView| handshake::is_handshake(h, l, sender);
        handshake::lemma_handshake_not_empty(h, l, sender);
        lemma_addresses(under(h, stream_on, false, None, seq![]), h, l, sender);
        assert(settled(h, sender).cek == h.cek);
    }
}

/// A handshake is made of its parts wherever there is a recipient: the commitment to
/// the capsules, and one entry for each that wraps the content key with its secrets.
pub proof fn law_make_handshake(
    stream_on: bool,
    enc_ecdh: [u8; 32],
    cek: [u8; 32],
    nonce: [u8; 24],
    caps: &Vec<Capsule>,
    r: Result<EncryptHandshake, ()>,
)
    requires
        call_ensures(make_handshake, (stream_on, enc_ecdh, cek, nonce, caps), r),
    ensures
        r is Ok <==> caps@.len() > 0,
        r matches Ok(h) ==> {
            let es = Seq::new(
                caps@.len(),
                |i: int| made_of(caps@[i], enc_ecdh@, h@.rc, cek@),
            );
            &&& h@.stream_on == stream_on
            &&& h@.enc_ecdh == enc_ecdh@
            &&& h@.nonce == nonce@
            &&& h@.cek == cek@
            &&& h@.recipients_blob == entries(es)
            &&& exists|sorted: Seq<Seq<u8>>| #[trigger]
                commitment_to(h@.rc, digests(caps@), sorted)
        },
{
    if r is Ok {
        let h = (r->Ok_0)@;
        let views = handshake::capsule_views(caps@);
        let es = Seq::new(caps@.len(), |i: int| made_of(caps@[i], enc_ecdh@, h.rc, cek@));
        let made = handshake::made_entries(views, enc_ecdh@, cek@);
        assert forall|i: int| 0 <= i < es.len() implies es[i] == made[i] by {
            lemma_made_of(caps@[i], enc_ecdh@, h.rc, cek@);
            assert(views[i] == caps@[i]@);
        }
        assert(es =~= made);
        lemma_entries(es);
        let ids = digests(caps@);
        assert(handshake::capsule_ids(views) =~= ids);
        lemma_sorted(ids);
        lemma_flat(order::sorted_ids(ids));
        assert(commitment_to(h.rc, ids, order::sorted_ids(ids)));
    }
}

/// The digests of capsules.
pub open spec fn digests(caps: Seq<Capsule>) -> Seq<Seq<u8>> {
    caps.map_values(|c: Capsule| crypto::sha256(c.enc_pq@))
}

/// Whether a commitment is that to identifiers, which are sorted thus.
pub open spec fn commitment_to(rc: Seq<u8>, ids: Seq<Seq<u8>>, sorted: Seq<Seq<u8>>) -> bool {
    &&& rc == crypto::sha256("VELUM-v1 recipients".spec_bytes() + flat(sorted))
    &&& sorted.to_multiset() == ids.to_multiset()
    &&& forall|i: int, j: int|
        0 <= i < j < sorted.len() ==> no_later(#[trigger] sorted[i], #[trigger] sorted[j])
}

/// The entry that wraps a content key with the secrets of a capsule.
pub open spec fn made_of(c: Capsule, enc_ecdh: Seq<u8>, rc: Seq<u8>, cek: Seq<u8>) -> EntryView {
    let id = crypto::sha256(c.enc_pq@);
    let hint = leading_number(crypto::sha256(id + enc_ecdh + rc + c.ss_ecdh@));
    EntryView {
        enc_pq: c.enc_pq@,
        wrap: crypto::xchacha_seal(
            kek(rc, c.ss_ecdh@, c.ss_pq@, id),
            kek_nonce(rc, c.ss_ecdh@, c.ss_pq@, id),
            wrap_aad(enc_ecdh, id, hint, rc),
            cek,
        ),
        entry_id: id,
        index_hint: hint as u64,
    }
}

/// The entry of a capsule.
proof fn lemma_made_of(c: Capsule, enc_ecdh: Seq<u8>, rc: Seq<u8>, cek: Seq<u8>)
    ensures
        handshake::made_entry(c@, enc_ecdh, rc, cek) == made_of(c, enc_ecdh, rc, cek),
{
    let id = crypto::sha256(c.enc_pq@);
    let hint = leading_number(crypto::sha256(id + enc_ecdh + rc + c.ss_ecdh@));
    lemma_wrap_aad(enc_ecdh, id, hint, rc);
}

/// An envelope under a handshake.
pub open spec fn under(
    h: HandshakeView,
    stream: bool,
    trailer: bool,
    sig: Option<Seq<u8>>,
    payload: Seq<u8>,
) -> EnvelopeView {
    EnvelopeView {
        enc_ecdh: h.enc_ecdh,
        nonce: h.nonce,
        recipients_blob: h.recipients_blob,
        ct_and_tag: payload,
        signature: sig,
        stream,
        rc: h.rc,
        has_trailer: trailer,
    }
}

/// Under a handshake, a message is sealed whole with the content key and
/// signed by the signer, if it is not too long, the signer's secret unlocks, and the
/// header can be counted; and only then.
pub proof fn law_seal_message(
    hs: &EncryptHandshake,
    pt: &[u8],
    signer: Option<(&str, &str)>,
    k: Option<Result<SecretBundle, ()>>,
    r: Result<Vec<u8>, ()>,
)
    requires
        unlocks(signer, k),
        call_ensures(seal_message, (hs, pt, signer), r),
    ensures
        r is Ok <==> {
            &&& pt@.len() <= 0x3F_FFFF_FF80
            &&& k matches Some(u) ==> u is Ok
            &&& 96 + hs@.recipients_blob.len() + (if signer is Some {
                3373int
            } else {
                0
            }) <= 0xFFFF_FFFF
        },
        r matches Ok(b) ==> {
            let ct = crypto::xchacha_seal(
                hs@.cek,
                hs@.nonce,
                payload_aad(hs@.enc_ecdh, hs@.nonce, hs@.recipients_blob, false),
                pt@,
            );
            exists|sig: Option<Seq<u8>>|
                b@ == #[trigger] wire(under(hs@, false, false, sig, ct)) && signed_with(
                    sig,
                    k,
                    signed_text(
                        hs@.enc_ecdh,
                        hs@.nonce,
                        hs@.recipients_blob,
                        hs@.rc,
                        false,
                        ct,
                    ),
                )
        },
{
    if r is Ok {
        let h = hs@;
        let b = (r->Ok_0)@;
        let sv = encrypt::signer_view(signer);
        let sig = choose|sig: Option<Seq<u8>>| encrypt::sealed_whole(b, h, pt@, sv, sig);
        lemma_payload_aad(h.enc_ecdh, h.nonce, h.recipients_blob, false);
        let ct = encrypt::whole_ct(h, pt@);
        lemma_signed_text(h.enc_ecdh, h.nonce, h.recipients_blob, h.rc, ct);
        lemma_signed_with(sig, signer, k, encrypt::whole_transcript(h, pt@));
        lemma_wire(h.enc_ecdh, h.nonce, h.rc, h.recipients_blob, sig, 0, ct);
        assert(b == wire(under(h, false, false, sig, ct)));
    }
}

/// Under a handshake, a message is sealed piece by piece and signed by the signer, if
/// the pieces can be counted and framed, the signer's secret
/// unlocks, and the header can be counted; and only then.
pub proof fn law_seal_stream_message(
    hs: &EncryptHandshake,
    pt: &[u8],
    signer: Option<(&str, &str)>,
    chunk_size: usize,
    k: Option<Result<SecretBundle, ()>>,
    r: Result<Vec<u8>, ()>,
)
    requires
        unlocks(signer, k),
        chunk_size > 0,
        call_ensures(seal_stream_message, (hs, pt, signer, chunk_size), r),
    ensures
        r is Ok <==> {
            &&& pt@.len() + 16 < 0xFFFF_FFFF || chunk_size + 16 < 0xFFFF_FFFF
            &&& pt@.len() <= 0xFFFF_FFFF * chunk_size
            &&& k matches Some(u) ==> u is Ok
            &&& 96 + hs@.recipients_blob.len() <= 0xFFFF_FFFF
        },
        r matches Ok(b) ==> {
            let frames = framed(
                hs@.cek,
                hs@.rc,
                0,
                sealed_bodies(
                    hs@.cek,
                    hs@.rc,
                    payload_aad(
                        hs@.enc_ecdh,
                        hs@.nonce,
                        hs@.recipients_blob,
                        hs@.stream_on,
                    ),
                    pieces(pt@, chunk_size as nat),
                ),
            );
            exists|sig: Option<Seq<u8>>|
                b@ == #[trigger] wire(
                    under(hs@, true, signer is Some, None, frames + payload_end(sig)),
                ) && signed_with(
                    sig,
                    k,
                    signed_text(
                        hs@.enc_ecdh,
                        hs@.nonce,
                        hs@.recipients_blob,
                        hs@.rc,
                        true,
                        crypto::sha256(frames),
                    ),
                )
        },
{
    lemma_pieces_fit(pt@, chunk_size as nat);
    if r is Ok {
        let h = hs@;
        let b = (r->Ok_0)@;
        let sv = encrypt::signer_view(signer);
        let chunks = streaming::chunks_of(pt@, chunk_size as nat);
        lemma_pieces(pt@, chunk_size as nat);
        let sig = choose|sig: Option<Seq<u8>>| encrypt::sealed_stream(b, h, chunks, sv, sig);
        lemma_frames(h, chunks);
        lemma_payload_end(sig);
        let frames = streaming::frames_of(h, chunks);
        lemma_signed_text(h.enc_ecdh, h.nonce, h.recipients_blob, h.rc, frames);
        lemma_signed_with(sig, signer, k, encrypt::stream_transcript(h, chunks));
        let payload = frames + payload_end(sig);
        lemma_wire(
            h.enc_ecdh,
            h.nonce,
            h.rc,
            h.recipients_blob,
            None,
            flag_byte(true, signer is Some),
            payload,
        );
        assert(b == wire(under(h, true, signer is Some, None, payload)));
    }
}

/// A chunked payload ends with the end marker, and with the trailer of the signer's
/// signature over the digest of the frames, if there is a signer.
pub proof fn law_end_payload(
    hs: &EncryptHandshake,
    signer: Option<(&str, &str)>,
    digest: &[u8; 32],
    k: Option<Result<SecretBundle, ()>>,
    r: Result<Vec<u8>, ()>,
)
    requires
        unlocks(signer, k),
        call_ensures(end_payload, (hs, signer, digest), r),
    ensures
        r is Ok <==> (k matches Some(u) ==> u is Ok),
        r matches Ok(e) ==> exists|sig: Option<Seq<u8>>|
            e@ == #[trigger] payload_end(sig) && signed_with(
                sig,
                k,
                signed_text(
                    hs@.enc_ecdh,
                    hs@.nonce,
                    hs@.recipients_blob,
                    hs@.rc,
                    true,
                    digest@,
                ),
            ),
{
    if r is Ok {
        let h = hs@;
        let sv = encrypt::signer_view(signer);
        let sig = choose|sig: Option<Seq<u8>>|
            encrypt::ends_payload((r->Ok_0)@, h, sv, digest@, sig);
        let signed = transcript::signed_digest(
            h.enc_ecdh,
            h.nonce,
            h.recipients_blob,
            h.rc,
            digest@,
        );
        lemma_payload_end(sig);
        lemma_signed_text(h.enc_ecdh, h.nonce, h.recipients_blob, h.rc, digest@);
        lemma_signed_with(sig, signer, k, signed);
        assert((r->Ok_0)@ == payload_end(sig));
    }
}

/// The trailer of secret keys over the digest of the frames.
pub proof fn law_sign_payload_end(
    hs: &EncryptHandshake,
    k: &SecretBundle,
    digest: &[u8; 32],
    end: Vec<u8>,
)
    requires
        call_ensures(sign_payload_end, (hs, k, digest), end),
    ensures
        exists|sig: Seq<u8>|
            {
                let signed = signed_text(
                    hs@.enc_ecdh,
                    hs@.nonce,
                    hs@.recipients_blob,
                    hs@.rc,
                    true,
                    digest@,
                );
                &&& end@ == #[trigger] payload_end(Some(sig))
                &&& sig.len() == 3309 + 64
                &&& crypto::mldsa_signs(k@.sig_sk_pq, signed, sig.take(3309))
                &&& sig.skip(3309) == crypto::ed25519_signature(k@.sig_sk_ed, signed)
            },
{
    let h = hs@;
    let sig = choose|sig: Seq<u8>| encrypt::signed_end(end@, h, k@, digest@, sig);
    lemma_payload_end(Some(sig));
    lemma_signed_text(h.enc_ecdh, h.nonce, h.recipients_blob, h.rc, digest@);
    assert(end@ == payload_end(Some(sig)));
}

/// Chunks are framed one after the other, and what is framed is digested.
pub proof fn law_stream_chunks(
    hs: &EncryptHandshake,
    pt: &[u8],
    out: &mut Vec<u8>,
    chunk_size: usize,
    r: Result<(), ()>,
)
    requires
        chunk_size > 0,
        call_ensures(
            encrypt_stream_chunks,
            (hs, pt, out, chunk_size, None::<&mut RunningDigest>),
            r,
        ),
    ensures
        r is Ok <==> {
            &&& pt@.len() + 16 < 0xFFFF_FFFF || chunk_size + 16 < 0xFFFF_FFFF
            &&& pt@.len() <= 0xFFFF_FFFF * chunk_size
        },
        r is Ok ==> final(out)@ == old(out)@ + framed(
            hs@.cek,
            hs@.rc,
            0,
            sealed_bodies(
                hs@.cek,
                hs@.rc,
                payload_aad(hs@.enc_ecdh, hs@.nonce, hs@.recipients_blob, hs@.stream_on),
                pieces(pt@, chunk_size as nat),
            ),
        ),
{
    lemma_pieces_fit(pt@, chunk_size as nat);
    lemma_pieces(pt@, chunk_size as nat);
    lemma_frames(hs@, pieces(pt@, chunk_size as nat));
}

/// A text is encrypted as its bytes are.
pub proof fn law_text_made(
    s: &str,
    recipients: &str,
    signer: Option<(&str, &str)>,
    list: Result<Vec<PublicBundle>, ()>,
    k: Option<Result<SecretBundle, ()>>,
    r: Result<Vec<u8>, ()>,
)
    requires
        call_ensures(parse_public_list, (recipients,), list),
        unlocks(signer, k),
        call_ensures(encrypt_str, (s, recipients, signer), r),
        r is Ok,
    ensures
        list is Ok,
        exists|v: EnvelopeView, x: Settled|
            (r->Ok_0)@ == #[trigger] armor_of(v) && #[trigger] whole_message(
                v,
                encode_utf8(s@),
                keys_in((list->Ok_0)@),
                k,
                x,
            ),
{
    assert(armor::public_views(list->Ok_0@) =~= keys_in(list->Ok_0@));
    lemma_armor_made((r->Ok_0)@, s.spec_bytes(), keys_in((list->Ok_0)@), signer, k);
}

/// Chunks in armor: the fields of the envelope of a chunked message are written as
/// text.
pub proof fn law_armored_stream_made(
    pt: &[u8],
    recipients: &str,
    signer: Option<(&str, &str)>,
    chunk_size: usize,
    list: Result<Vec<PublicBundle>, ()>,
    k: Option<Result<SecretBundle, ()>>,
    r: Result<Vec<u8>, ()>,
)
    requires
        call_ensures(parse_public_list, (recipients,), list),
        unlocks(signer, k),
        call_ensures(encrypt_streaming, (pt, recipients, signer, chunk_size), r),
        r is Ok,
    ensures
        list is Ok,
        exists|v: EnvelopeView, s: Settled, sig: Option<Seq<u8>>|
            (r->Ok_0)@ == #[trigger] armor_of(v) && #[trigger] stream_message(
                v,
                pieces(pt@, chunk_size as nat),
                keys_in((list->Ok_0)@),
                k,
                s,
                sig,
            ),
{
    let l = keys_in((list->Ok_0)@);
    let t = (r->Ok_0)@;
    let sv = encrypt::signer_view(signer);
    assert(armor::public_views(list->Ok_0@) =~= l);
    lemma_pieces(pt@, chunk_size as nat);
    let chunks = pieces(pt@, chunk_size as nat);
    let b = choose|b: Seq<u8>| #[trigger]
        encrypt::is_armor_of(t, b) && encrypt::is_encrypted_stream(b, chunks, l, sv);
    let e = choose|e: EnvelopeView| encrypt::encrypts_stream(b, chunks, l, sv, e);
    let (hs, sender, sg) = choose|hs: HandshakeView, sender: SenderView, sg: Option<Seq<u8>>|
        encrypt::is_stream_encryption(e, chunks, l, sv, hs, sender, sg);
    assert(pt@.len() > 0 ==> chunks.len() > 0) by {
        if pt@.len() > 0 {
            assert(streaming::chunks_of(pt@, chunk_size as nat).len() > 0);
        }
    }
    encrypt::lemma_stream_valid(e, chunks, l, sv, hs, sender, sg);
    envelope::lemma_envelope_roundtrip(e);
    lemma_stream_is(e, b, chunks, l, signer, k, hs, sender, sg);
    lemma_message_text(message::message_of_envelope(e));
    assert(t == armor_of(e));
}

} // verus!
