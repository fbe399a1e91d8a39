//! The handshakes: how a content key reaches the recipients, and how a recipient
//! gets it back.
//!
//! For each recipient an X25519 agreement with an ephemeral key and an ML-KEM-768
//! encapsulation give two shared secrets. Both, salted with the recipients
//! commitment, key the AEAD that wraps the content key for that recipient.

use vstd::prelude::*;
use vstd::relations::*;
use vstd::slice::*;
use vstd::string::*;
use vstd::utf8::*;

use crate::armor;
use crate::armor::parse_public_list;
use crate::base64_text;
use crate::block;
use crate::block::append_fields;
use crate::constants::{V, WRAP_AAD_LABEL, WRAP_INFO_LABEL, WRAP_NONCE_INFO_LABEL};
use crate::context::{ContextView, DecryptContext, EncryptHandshake, HandshakeView};
use crate::crypto;
use crate::crypto::{
    ct_eq, hkdf_derive, mlkem_decapsulate, mlkem_encapsulate, wipe_key, wipe_string, wipe_vec,
    x25519_agree, x25519_generate, x25519_public_key, xchacha20poly1305_open,
    xchacha20poly1305_seal, KEM_CT_LEN, KEM_PK_LEN,
};
use crate::envelope;
use crate::envelope::{parse_envelope_binary, ParsedBinary};
use crate::keys;
use crate::keys::{unlock_secret, PublicBundle, PublicView, SecretBundle, SecretView};
use crate::message::entry_ids;
use crate::order;
use crate::order::{bytes_le, ids_distinct};
use crate::recipients;
use crate::recipients::{
    compute_entry_id, compute_index_hint, decode_recipients, encode_recipients,
    recipients_commitment, EntryView, RecipientEntry,
};
use crate::util;
use crate::util::{array_24, array_32, b64e, be_bytes_64, random_bytes};

verus! {

// ----------------------------------------------------------------------
// Wrapping the content key
// ----------------------------------------------------------------------

/// The key that wraps the content key for one recipient.
pub open spec fn wrap_key(rc: Seq<u8>, ss_ecdh: Seq<u8>, ss_pq: Seq<u8>, id: Seq<u8>) -> Seq<u8> {
    crypto::hkdf_sha256(rc, ss_ecdh + ss_pq, WRAP_INFO_LABEL.spec_bytes() + id, 32)
}

/// The nonce that wraps the content key for one recipient.
pub open spec fn wrap_nonce(rc: Seq<u8>, ss_ecdh: Seq<u8>, ss_pq: Seq<u8>, id: Seq<u8>) -> Seq<u8> {
    crypto::hkdf_sha256(rc, ss_ecdh + ss_pq, WRAP_NONCE_INFO_LABEL.spec_bytes() + id, 24)
}

/// The additional data of a wrapped content key, as text.
pub open spec fn wrap_aad_text(
    enc_ecdh: Seq<u8>,
    id: Seq<u8>,
    hint: int,
    rc: Seq<u8>,
) -> Seq<char> {
    WRAP_AAD_LABEL@ + seq!['\n'] + block::fields_text(
        seq![
            ("v"@, V@),
            ("enc_ecdh"@, base64_text::b64(enc_ecdh)),
            ("id"@, base64_text::b64(id)),
            ("hint"@, base64_text::b64(util::be64(hint))),
        ],
    ) + "rc:"@ + base64_text::b64(rc)
}

/// The additional data of a wrapped content key.
pub open spec fn wrap_aad(enc_ecdh: Seq<u8>, id: Seq<u8>, hint: int, rc: Seq<u8>) -> Seq<u8> {
    encode_utf8(wrap_aad_text(enc_ecdh, id, hint, rc))
}

/// Derives key and nonce that wrap the content key for one recipient. The input
/// keying material is wiped.
fn derive_wrap(rc: &[u8; 32], ss_ecdh: &[u8; 32], ss_pq: &[u8], id: &[u8; 32]) -> (r: (
    [u8; 32],
    [u8; 24],
))
    ensures
        r.0@ == wrap_key(rc@, ss_ecdh@, ss_pq@, id@),
        r.1@ == wrap_nonce(rc@, ss_ecdh@, ss_pq@, id@),
{
    let mut ikm: Vec<u8> = slice_to_vec(ss_ecdh.as_slice());
    ikm.extend_from_slice(ss_pq);
    assert(ikm@ =~= ss_ecdh@ + ss_pq@);
    let mut info: Vec<u8> = slice_to_vec(WRAP_INFO_LABEL.as_bytes());
    info.extend_from_slice(id.as_slice());
    assert(info@ =~= WRAP_INFO_LABEL.spec_bytes() + id@);
    let mut kek: Vec<u8> = match hkdf_derive(rc.as_slice(), ikm.as_slice(), info.as_slice(), 32) {
        Ok(k) => k,
        Err(_) => Vec::new(),
    };
    let mut ninfo: Vec<u8> = slice_to_vec(WRAP_NONCE_INFO_LABEL.as_bytes());
    ninfo.extend_from_slice(id.as_slice());
    assert(ninfo@ =~= WRAP_NONCE_INFO_LABEL.spec_bytes() + id@);
    let mut nonce: Vec<u8> = match hkdf_derive(
        rc.as_slice(),
        ikm.as_slice(),
        ninfo.as_slice(),
        24,
    ) {
        Ok(n) => n,
        Err(_) => Vec::new(),
    };
    let key_array: [u8; 32] = array_32(kek.as_slice());
    let nonce_array: [u8; 24] = array_24(nonce.as_slice());
    wipe_vec(&mut ikm);
    wipe_vec(&mut info);
    wipe_vec(&mut ninfo);
    wipe_vec(&mut kek);
    wipe_vec(&mut nonce);
    (key_array, nonce_array)
}

/// The additional data of a wrapped content key.
fn build_wrap_aad(enc_ecdh: &[u8; 32], id: &[u8; 32], hint: u64, rc: &[u8; 32]) -> (aad: Vec<u8>)
    ensures
        aad@ == wrap_aad(enc_ecdh@, id@, hint as int, rc@),
{
    let hint_bytes: [u8; 8] = be_bytes_64(hint);
    let e: String = b64e(enc_ecdh.as_slice());
    let i: String = b64e(id.as_slice());
    let h: String = b64e(hint_bytes.as_slice());
    let r: String = b64e(rc.as_slice());
    let fields: [(&str, &str); 4] = [
        ("v", V),
        ("enc_ecdh", e.as_str()),
        ("id", i.as_str()),
        ("hint", h.as_str()),
    ];
    let mut out: String = String::new();
    out.append(WRAP_AAD_LABEL);
    out.push('\n');
    append_fields(&mut out, fields.as_slice());
    out.append("rc:");
    out.append(r.as_str());
    proof {
        assert(block::field_views(fields@) =~= seq![
            ("v"@, V@),
            ("enc_ecdh"@, base64_text::b64(enc_ecdh@)),
            ("id"@, base64_text::b64(id@)),
            ("hint"@, base64_text::b64(util::be64(hint as int))),
        ]);
        assert(out@ =~= wrap_aad_text(enc_ecdh@, id@, hint as int, rc@));
    }
    let aad: Vec<u8> = slice_to_vec(out.as_str().as_bytes());
    wipe_string(&mut out);
    aad
}

// ----------------------------------------------------------------------
// The recipients of a message
// ----------------------------------------------------------------------

/// What recipients are told apart and sorted by: the X25519 key, then the
/// ML-KEM-768 key.
pub open spec fn sort_key(p: PublicView) -> Seq<u8> {
    p.ecdh_pk + p.pq_pk
}

/// Whether one recipient comes before another.
pub open spec fn comes_before(a: PublicView, b: PublicView) -> bool {
    order::lex_le(sort_key(a), sort_key(b)) && sort_key(a) != sort_key(b)
}

/// Whether `list` has a recipient with the keys of `p`.
pub open spec fn lists(list: Seq<PublicView>, p: PublicView) -> bool {
    exists|i: int| 0 <= i < list.len() && sort_key(#[trigger] list[i]) == sort_key(p)
}

/// Whether `recips` are the recipients of `list`, sorted, each once.
pub open spec fn recipients_of(list: Seq<PublicView>, recips: Seq<PublicView>) -> bool {
    &&& forall|i: int, j: int|
        0 <= i < j < recips.len() ==> comes_before(#[trigger] recips[i], #[trigger] recips[j])
    &&& forall|i: int| 0 <= i < recips.len() ==> list.contains(#[trigger] recips[i])
    &&& forall|i: int| 0 <= i < list.len() ==> lists(recips, #[trigger] list[i])
}

/// The bytes that recipients are told apart by.
fn recipient_key(p: &PublicBundle) -> (key: Vec<u8>)
    ensures
        key@ == sort_key(p@),
{
    let mut key: Vec<u8> = slice_to_vec(p.ecdh_pk.as_slice());
    key.extend_from_slice(p.pq_pk.as_slice());
    assert(key@ =~= sort_key(p@));
    key
}

/// Sorts recipients and drops repetitions.
pub fn distinct_recipients(list: Vec<PublicBundle>) -> (recips: Vec<PublicBundle>)
    ensures
        recipients_of(armor::public_views(list@), armor::public_views(recips@)),
{
    let ghost all = armor::public_views(list@);
    let mut left: Vec<PublicBundle> = list;
    let mut out: Vec<PublicBundle> = Vec::new();
    let mut keys: Vec<Vec<u8>> = Vec::new();
    assert(armor::public_views(left@) =~= all.take(all.len() as int));
    while left.len() > 0
        invariant
            left@.len() <= all.len(),
            armor::public_views(left@) == all.take(left@.len() as int),
            keys@.len() == out@.len(),
            forall|i: int|
                0 <= i < out@.len() ==> (#[trigger] keys@[i])@ == sort_key(
                    armor::public_views(out@)[i],
                ),
            forall|i: int, j: int|
                0 <= i < j < out@.len() ==> comes_before(
                    #[trigger] armor::public_views(out@)[i],
                    #[trigger] armor::public_views(out@)[j],
                ),
            forall|i: int|
                0 <= i < out@.len() ==> all.contains(#[trigger] armor::public_views(out@)[i]),
            forall|i: int|
                left@.len() <= i < all.len() ==> lists(
                    armor::public_views(out@),
                    #[trigger] all[i],
                ),
        decreases left@.len(),
    {
        let ghost n = left@.len() as int;
        let last: usize = left.len() - 1;
        let p: PublicBundle = left.remove(last);
        proof {
            assert(all[n - 1] == p@) by {
                assert(all.take(n)[n - 1] == all[n - 1]);
            }
            assert(armor::public_views(left@) =~= all.take(n - 1));
        }
        let key: Vec<u8> = recipient_key(&p);
        let ghost views = armor::public_views(out@);
        let mut i: usize = 0;
        while i < keys.len() && !bytes_le(key.as_slice(), keys[i].as_slice())
            invariant
                i <= keys@.len(),
                keys@.len() == out@.len(),
                views == armor::public_views(out@),
                forall|k: int|
                    0 <= k < out@.len() ==> (#[trigger] keys@[k])@ == sort_key(views[k]),
                forall|k: int|
                    0 <= k < i ==> !order::lex_le(key@, sort_key(#[trigger] views[k])),
            decreases keys@.len() - i,
        {
            assert(keys@[i as int]@ == sort_key(views[i as int]));
            i = i + 1;
        }
        if i < keys.len() && ct_eq(key.as_slice(), keys[i].as_slice()) {
            proof {
                assert(sort_key(views[i as int]) == sort_key(p@));
                assert(lists(views, p@));
            }
        } else {
            proof {
                lemma_insert_sorted(views, p@, i as int);
            }
            out.insert(i, p);
            keys.insert(i, key);
            proof {
                let after = armor::public_views(out@);
                assert(after =~= views.insert(i as int, p@));
                assert forall|k: int| 0 <= k < out@.len() implies (#[trigger] keys@[k])@
                    == sort_key(after[k]) by {}
                assert forall|k: int| 0 <= k < after.len() implies all.contains(
                    #[trigger] after[k],
                ) by {
                    if k == i {
                        assert(all[n - 1] == p@);
                    } else if k < i {
                        assert(after[k] == views[k]);
                    } else {
                        assert(after[k] == views[k - 1]);
                    }
                }
                assert forall|k: int| n - 1 <= k < all.len() implies lists(
                    after,
                    #[trigger] all[k],
                ) by {
                    if k == n - 1 {
                        assert(sort_key(after[i as int]) == sort_key(all[k]));
                    } else {
                        assert(lists(views, all[k]));
                        let m = choose|m: int|
                            0 <= m < views.len() && sort_key(#[trigger] views[m]) == sort_key(
                                all[k],
                            );
                        let at = if m < i { m } else { m + 1 };
                        assert(after[at] == views[m]);
                    }
                }
            }
        }
    }
    out
}

/// A recipient inserted where it belongs keeps the others sorted.
proof fn lemma_insert_sorted(views: Seq<PublicView>, p: PublicView, at: int)
    requires
        0 <= at <= views.len(),
        forall|i: int, j: int|
            0 <= i < j < views.len() ==> comes_before(#[trigger] views[i], #[trigger] views[j]),
        forall|k: int| 0 <= k < at ==> !order::lex_le(sort_key(p), sort_key(#[trigger] views[k])),
        at < views.len() ==> order::lex_le(sort_key(p), sort_key(views[at])) && sort_key(p)
            != sort_key(views[at]),
    ensures
        forall|i: int, j: int|
            0 <= i < j < views.len() + 1 ==> comes_before(
                #[trigger] views.insert(at, p)[i],
                #[trigger] views.insert(at, p)[j],
            ),
{
    order::lemma_lex_order();
    let leq = order::by_bytes();
    let after = views.insert(at, p);
    assert forall|i: int, j: int| 0 <= i < j < after.len() implies comes_before(
        #[trigger] after[i],
        #[trigger] after[j],
    ) by {
        if i < at && j == at {
            let a = sort_key(views[i]);
            let b = sort_key(p);
            assert(leq(a, b) || leq(b, a));
            assert(leq(b, b));
        } else if i == at {
            let a = sort_key(p);
            let b = sort_key(views[at]);
            let c = sort_key(views[j - 1]);
            if j - 1 > at {
                assert(comes_before(views[at], views[j - 1]));
                assert(leq(a, b) && leq(b, c));
                assert(leq(a, c));
                if a == c {
                    assert(leq(b, a) && leq(a, b));
                }
            }
        } else if i < at && j > at {
            assert(comes_before(views[i], views[j - 1]));
        } else if i > at {
            assert(comes_before(views[i - 1], views[j - 1]));
        } else {
            assert(comes_before(views[i], views[j]));
        }
    }
}

/// How many different recipients a list has.
pub open spec fn recipient_count(list: Seq<PublicView>) -> nat {
    list.map_values(|p: PublicView| sort_key(p)).to_set().len()
}

/// The recipients of a list are as many as it has different ones.
proof fn lemma_recipient_count(list: Seq<PublicView>, recips: Seq<PublicView>)
    requires
        recipients_of(list, recips),
    ensures
        recips.len() == recipient_count(list),
{
    let a = list.map_values(|p: PublicView| sort_key(p));
    let b = recips.map_values(|p: PublicView| sort_key(p));
    assert(b.no_duplicates()) by {
        assert forall|i: int, j: int| 0 <= i < b.len() && 0 <= j < b.len() && i != j implies b[i]
            != b[j] by {
            if i < j {
                assert(comes_before(recips[i], recips[j]));
            } else {
                assert(comes_before(recips[j], recips[i]));
            }
        }
    }
    b.unique_seq_to_set();
    assert(a.to_set() =~= b.to_set()) by {
        assert forall|x: Seq<u8>| a.to_set().contains(x) <==> b.to_set().contains(x) by {
            if a.contains(x) {
                let i = choose|i: int| 0 <= i < a.len() && a[i] == x;
                assert(lists(recips, list[i]));
                let k = choose|k: int|
                    0 <= k < recips.len() && sort_key(#[trigger] recips[k]) == sort_key(list[i]);
                assert(b[k] == x);
            }
            if b.contains(x) {
                let i = choose|i: int| 0 <= i < b.len() && b[i] == x;
                assert(list.contains(recips[i]));
                let k = choose|k: int| 0 <= k < list.len() && list[k] == recips[i];
                assert(a[k] == x);
            }
        }
    }
}

// ----------------------------------------------------------------------
// The sender's side
// ----------------------------------------------------------------------

/// The secrets shared with one recipient, and the capsule that carries one of
/// them. The secrets are wiped when the value is dropped.
pub struct Capsule {
    /// X25519 shared secret.
    pub ss_ecdh: [u8; 32],
    /// ML-KEM-768 shared secret.
    pub ss_pq: Vec<u8>,
    /// ML-KEM-768 ciphertext.
    pub enc_pq: Vec<u8>,
}

/// What a capsule holds.
#[verifier::ext_equal]
pub struct CapsuleView {
    pub ss_ecdh: Seq<u8>,
    pub ss_pq: Seq<u8>,
    pub enc_pq: Seq<u8>,
}

impl View for Capsule {
    type V = CapsuleView;

    open spec fn view(&self) -> CapsuleView {
        CapsuleView { ss_ecdh: self.ss_ecdh@, ss_pq: self.ss_pq@, enc_pq: self.enc_pq@ }
    }
}

impl Drop for Capsule {
    /// Wipes the secrets.
    fn drop(&mut self)
        opens_invariants none
        no_unwind
    {
        wipe_key(&mut self.ss_ecdh);
        wipe_vec(&mut self.ss_pq);
    }
}

/// What the capsules hold.
pub open spec fn capsule_views(caps: Seq<Capsule>) -> Seq<CapsuleView> {
    caps.map_values(|c: Capsule| c@)
}

/// The identifiers of capsules.
pub open spec fn capsule_ids(caps: Seq<CapsuleView>) -> Seq<Seq<u8>> {
    caps.map_values(|c: CapsuleView| crypto::sha256(c.enc_pq))
}

/// The entry that wraps the content key with the secrets of a capsule.
pub open spec fn made_entry(
    c: CapsuleView,
    enc_ecdh: Seq<u8>,
    rc: Seq<u8>,
    cek: Seq<u8>,
) -> EntryView {
    let id = crypto::sha256(c.enc_pq);
    let hint = recipients::index_hint(id, enc_ecdh, rc, c.ss_ecdh);
    EntryView {
        enc_pq: c.enc_pq,
        wrap: crypto::xchacha_seal(
            wrap_key(rc, c.ss_ecdh, c.ss_pq, id),
            wrap_nonce(rc, c.ss_ecdh, c.ss_pq, id),
            wrap_aad(enc_ecdh, id, hint, rc),
            cek,
        ),
        entry_id: id,
        index_hint: hint as u64,
    }
}

/// The entries that wrap the content key for all capsules.
pub open spec fn made_entries(
    caps: Seq<CapsuleView>,
    enc_ecdh: Seq<u8>,
    cek: Seq<u8>,
) -> Seq<EntryView> {
    let rc = recipients::commitment(capsule_ids(caps));
    caps.map_values(|c: CapsuleView| made_entry(c, enc_ecdh, rc, cek))
}

/// Whether the entry of a capsule is well-formed and opens to the content key
/// with the secrets of the capsule.
pub open spec fn entry_holds(
    c: CapsuleView,
    enc_ecdh: Seq<u8>,
    rc: Seq<u8>,
    cek: Seq<u8>,
) -> bool {
    let e = made_entry(c, enc_ecdh, rc, cek);
    &&& recipients::valid_entry(e)
    &&& e.index_hint == recipients::index_hint(e.entry_id, enc_ecdh, rc, c.ss_ecdh)
    &&& crypto::xchacha_open(
        wrap_key(rc, c.ss_ecdh, c.ss_pq, e.entry_id),
        wrap_nonce(rc, c.ss_ecdh, c.ss_pq, e.entry_id),
        wrap_aad(enc_ecdh, e.entry_id, e.index_hint as int, rc),
        e.wrap,
    ) == Some(cek)
}

/// The handshake that capsules, ephemeral public key, content key and nonce give.
pub open spec fn handshake_of(
    caps: Seq<CapsuleView>,
    enc_ecdh: Seq<u8>,
    cek: Seq<u8>,
    nonce: Seq<u8>,
    stream_on: bool,
) -> HandshakeView {
    HandshakeView {
        stream_on,
        enc_ecdh,
        nonce,
        rc: recipients::commitment(capsule_ids(caps)),
        recipients_blob: recipients::entries_bytes(made_entries(caps, enc_ecdh, cek)),
        cek,
    }
}

/// Wraps the content key for one recipient.
fn make_entry(c: &Capsule, enc_ecdh: &[u8; 32], rc: &[u8; 32], cek: &[u8; 32]) -> (e:
    RecipientEntry)
    requires
        c.enc_pq@.len() == KEM_CT_LEN,
    ensures
        e@ == made_entry(c@, enc_ecdh@, rc@, cek@),
        entry_holds(c@, enc_ecdh@, rc@, cek@),
{
    let id: [u8; 32] = compute_entry_id(c.enc_pq.as_slice());
    let (key, nonce): ([u8; 32], [u8; 24]) = derive_wrap(rc, &c.ss_ecdh, c.ss_pq.as_slice(), &id);
    let mut key: [u8; 32] = key;
    let hint: u64 = compute_index_hint(&id, enc_ecdh, rc, &c.ss_ecdh);
    let mut aad: Vec<u8> = build_wrap_aad(enc_ecdh, &id, hint, rc);
    let wrap: Vec<u8> = match xchacha20poly1305_seal(
        &key,
        &nonce,
        aad.as_slice(),
        cek.as_slice(),
    ) {
        Ok(w) => w,
        Err(_) => Vec::new(),
    };
    wipe_vec(&mut aad);
    wipe_key(&mut key);
    let e: RecipientEntry = RecipientEntry {
        enc_pq: slice_to_vec(c.enc_pq.as_slice()),
        wrap,
        entry_id: id,
        index_hint: hint,
    };
    assert(e@ =~= made_entry(c@, enc_ecdh@, rc@, cek@));
    e
}

/// Builds a handshake from its random parts: the secrets shared with the
/// recipients, the ephemeral public key, the content key and the nonce. Fails
/// exactly when there are no recipients.
pub fn make_handshake(
    stream_on: bool,
    enc_ecdh: [u8; 32],
    cek: [u8; 32],
    nonce: [u8; 24],
    caps: &Vec<Capsule>,
) -> (hs: Result<EncryptHandshake, ()>)
    requires
        forall|i: int| 0 <= i < caps@.len() ==> (#[trigger] caps@[i]).enc_pq@.len() == KEM_CT_LEN,
    ensures
        hs is Ok <==> caps@.len() > 0,
        hs matches Ok(h) ==> {
            let views = capsule_views(caps@);
            &&& h@ == handshake_of(views, enc_ecdh@, cek@, nonce@, stream_on)
            &&& forall|i: int|
                0 <= i < views.len() ==> entry_holds(#[trigger] views[i], enc_ecdh@, h@.rc, cek@)
        },
{
    let ghost views = capsule_views(caps@);
    let mut ids: Vec<[u8; 32]> = Vec::new();
    let mut i: usize = 0;
    assert(order::id_views(ids@) =~= capsule_ids(views).take(0));
    while i < caps.len()
        invariant
            i <= caps@.len(),
            views == capsule_views(caps@),
            order::id_views(ids@) == capsule_ids(views).take(i as int),
        decreases caps@.len() - i,
    {
        let id: [u8; 32] = compute_entry_id(caps[i].enc_pq.as_slice());
        let ghost before = order::id_views(ids@);
        ids.push(id);
        assert(order::id_views(ids@) =~= before.push(id@));
        assert(capsule_ids(views).take(i + 1) =~= capsule_ids(views).take(i as int).push(
            capsule_ids(views)[i as int],
        ));
        i = i + 1;
    }
    assert(capsule_ids(views).take(views.len() as int) =~= capsule_ids(views));
    let rc: [u8; 32] = recipients_commitment(ids.as_slice());
    let ghost entries = made_entries(views, enc_ecdh@, cek@);
    let mut list: Vec<RecipientEntry> = Vec::new();
    let mut j: usize = 0;
    assert(recipients::entry_views(list@) =~= entries.take(0));
    while j < caps.len()
        invariant
            j <= caps@.len(),
            views == capsule_views(caps@),
            rc@ == recipients::commitment(capsule_ids(views)),
            entries == made_entries(views, enc_ecdh@, cek@),
            recipients::entry_views(list@) == entries.take(j as int),
            forall|k: int|
                0 <= k < caps@.len() ==> (#[trigger] caps@[k]).enc_pq@.len() == KEM_CT_LEN,
            forall|k: int|
                0 <= k < j ==> entry_holds(#[trigger] views[k], enc_ecdh@, rc@, cek@),
        decreases caps@.len() - j,
    {
        let e: RecipientEntry = make_entry(&caps[j], &enc_ecdh, &rc, &cek);
        let ghost before = recipients::entry_views(list@);
        list.push(e);
        assert(recipients::entry_views(list@) =~= before.push(e@));
        assert(entries.take(j + 1) =~= entries.take(j as int).push(entries[j as int]));
        j = j + 1;
    }
    proof {
        assert(entries.take(entries.len() as int) =~= entries);
        assert forall|k: int| 0 <= k < list@.len() implies (#[trigger] list@[k]).enc_pq@.len()
            <= 0xFFFF && list@[k].wrap@.len() <= 0xFFFF by {
            assert(recipients::entry_views(list@)[k] == entries[k]);
            assert(entry_holds(views[k], enc_ecdh@, rc@, cek@));
        }
    }
    match encode_recipients(list.as_slice()) {
        Ok(blob) => Ok(EncryptHandshake::new(stream_on, enc_ecdh, nonce, rc, blob, cek)),
        Err(_) => Err(()),
    }
}

/// Agrees on secrets with each recipient.
fn run_kem(eph_sk: &[u8; 32], recips: &Vec<PublicBundle>) -> (caps: Vec<Capsule>)
    requires
        forall|i: int|
            0 <= i < recips@.len() ==> (#[trigger] recips@[i]).pq_pk@.len() == KEM_PK_LEN,
    ensures
        caps@.len() == recips@.len(),
        forall|i: int|
            0 <= i < caps@.len() ==> capsule_for(
                #[trigger] caps@[i]@,
                eph_sk@,
                recips@[i]@,
            ),
{
    let mut caps: Vec<Capsule> = Vec::new();
    let mut i: usize = 0;
    while i < recips.len()
        invariant
            i <= recips@.len(),
            caps@.len() == i,
            forall|k: int|
                0 <= k < recips@.len() ==> (#[trigger] recips@[k]).pq_pk@.len() == KEM_PK_LEN,
            forall|k: int|
                0 <= k < caps@.len() ==> capsule_for(
                    #[trigger] caps@[k]@,
                    eph_sk@,
                    recips@[k]@,
                ),
        decreases recips@.len() - i,
    {
        let ss_ecdh: [u8; 32] = x25519_agree(eph_sk, &recips[i].ecdh_pk);
        let (ss_pq, enc_pq): (Vec<u8>, Vec<u8>) = match mlkem_encapsulate(
            recips[i].pq_pk.as_slice(),
        ) {
            Ok(r) => r,
            Err(_) => (Vec::new(), Vec::new()),
        };
        caps.push(Capsule { ss_ecdh, ss_pq, enc_pq });
        i = i + 1;
    }
    caps
}

/// Whether a capsule is one for the recipient with the given public keys.
pub open spec fn capsule_for(c: CapsuleView, eph_sk: Seq<u8>, p: PublicView) -> bool {
    &&& c.ss_ecdh == crypto::x25519_shared(eph_sk, p.ecdh_pk)
    &&& crypto::mlkem_encapsulated(p.pq_pk, c.ss_pq, c.enc_pq)
    &&& c.ss_pq.len() == 32
    &&& c.enc_pq.len() == KEM_CT_LEN
}

/// What a sender knows of a handshake beyond the handshake itself: the ephemeral
/// secret, the recipients, and the capsules made for them.
#[verifier::ext_equal]
pub struct SenderView {
    pub eph_sk: Seq<u8>,
    pub recips: Seq<PublicView>,
    pub caps: Seq<CapsuleView>,
}

/// Whether `hs` is a handshake with the recipients of `list`: its ephemeral key is
/// that of a secret that agrees with every other secret's public key, there is one
/// capsule for each recipient, and each entry holds the content key.
#[verifier::opaque]
pub open spec fn is_handshake(
    hs: HandshakeView,
    list: Seq<PublicView>,
    sender: SenderView,
) -> bool {
    &&& recipients_of(list, sender.recips)
    &&& hs.enc_ecdh == crypto::x25519_public(sender.eph_sk)
    &&& hs.enc_ecdh.len() == 32
    &&& hs.nonce.len() == 24
    &&& hs.rc.len() == 32
    &&& hs.cek.len() == 32
    &&& forall|other: Seq<u8>|
        other.len() == 32 ==> #[trigger] crypto::x25519_shared(other, hs.enc_ecdh)
            == crypto::x25519_shared(sender.eph_sk, crypto::x25519_public(other))
    &&& sender.caps.len() == sender.recips.len()
    &&& forall|i: int|
        0 <= i < sender.caps.len() ==> capsule_for(
            #[trigger] sender.caps[i],
            sender.eph_sk,
            sender.recips[i],
        )
    &&& forall|i: int|
        0 <= i < sender.caps.len() ==> entry_holds(
            #[trigger] sender.caps[i],
            hs.enc_ecdh,
            hs.rc,
            hs.cek,
        )
    &&& hs == handshake_of(sender.caps, hs.enc_ecdh, hs.cek, hs.nonce, hs.stream_on)
}

/// Builds a handshake with the recipients of an armored list, with fresh keys and
/// nonces. Fails exactly when the list is not a list of valid public keys.
pub fn build_encrypt_handshake(recipients_armored: &str, stream_on: bool) -> (hs: Result<
    EncryptHandshake,
    (),
>)
    ensures
        hs is Ok <==> armor::public_list(recipients_armored@) is Some,
        hs matches Ok(h) ==> {
            let list = armor::public_list(recipients_armored@)->0;
            &&& h@.stream_on == stream_on
            &&& list.len() > 0
            &&& h@.recipients_blob.len() == recipients::ENTRY_LEN * recipient_count(list)
            &&& exists|sender: SenderView| is_handshake(h@, list, sender)
        },
{
    let list: Vec<PublicBundle> = match parse_public_list(recipients_armored) {
        Ok(l) => l,
        Err(_) => {
            return Err(());
        },
    };
    let ghost all = armor::public_views(list@);
    let recips: Vec<PublicBundle> = distinct_recipients(list);
    let ghost views = armor::public_views(recips@);
    proof {
        assert(lists(views, all[0]));
        assert forall|i: int| 0 <= i < recips@.len() implies (#[trigger] recips@[i]).pq_pk@.len()
            == KEM_PK_LEN by {
            assert(all.contains(views[i]));
            let k = choose|k: int| 0 <= k < all.len() && all[k] == views[i];
            assert(armor::valid_public(all[k]));
        }
    }
    let mut eph_sk: [u8; 32] = x25519_generate();
    let enc_ecdh: [u8; 32] = x25519_public_key(&eph_sk);
    let mut cek_bytes: Vec<u8> = random_bytes(32);
    let cek: [u8; 32] = array_32(cek_bytes.as_slice());
    wipe_vec(&mut cek_bytes);
    let caps: Vec<Capsule> = run_kem(&eph_sk, &recips);
    let nonce: [u8; 24] = array_24(random_bytes(24).as_slice());
    let ghost sender = SenderView { eph_sk: eph_sk@, recips: views, caps: capsule_views(caps@) };
    wipe_key(&mut eph_sk);
    proof {
        assert forall|i: int| 0 <= i < sender.caps.len() implies capsule_for(
            #[trigger] sender.caps[i],
            sender.eph_sk,
            sender.recips[i],
        ) by {
            assert(sender.caps[i] == caps@[i]@);
        }
        assert forall|i: int| 0 <= i < caps@.len() implies (#[trigger] caps@[i]).enc_pq@.len()
            == KEM_CT_LEN by {
            assert(capsule_for(caps@[i]@, sender.eph_sk, recips@[i]@));
        }
    }
    let hs: Result<EncryptHandshake, ()> = make_handshake(stream_on, enc_ecdh, cek, nonce, &caps);
    proof {
        if hs is Ok {
            let h = hs->Ok_0@;
            assert(is_handshake(h, all, sender)) by {
                reveal(is_handshake);
            }
            lemma_recipient_count(all, views);
            lemma_handshake_entries(h, all, sender);
        }
    }
    hs
}

/// A handshake with the recipients of a list that is not empty has capsules.
pub proof fn lemma_handshake_not_empty(
    hs: HandshakeView,
    list: Seq<PublicView>,
    sender: SenderView,
)
    requires
        is_handshake(hs, list, sender),
        list.len() > 0,
    ensures
        sender.caps.len() > 0,
{
    reveal(is_handshake);
    assert(lists(sender.recips, list[0]));
}

/// The recipient list of a handshake is that of its capsules.
pub proof fn lemma_handshake_entries(
    hs: HandshakeView,
    list: Seq<PublicView>,
    sender: SenderView,
)
    requires
        is_handshake(hs, list, sender),
    ensures
        ({
            let es = made_entries(sender.caps, hs.enc_ecdh, hs.cek);
            &&& hs.recipients_blob == recipients::entries_bytes(es)
            &&& hs.recipients_blob.len() == recipients::ENTRY_LEN * sender.caps.len()
            &&& forall|i: int| 0 <= i < es.len() ==> recipients::valid_entry(#[trigger] es[i])
            &&& recipients::ids_of(es) == capsule_ids(sender.caps)
            &&& hs.rc == recipients::commitment(recipients::ids_of(es))
            &&& hs.enc_ecdh.len() == 32
            &&& hs.nonce.len() == 24
            &&& hs.rc.len() == 32
            &&& hs.cek.len() == 32
            &&& sender.caps.len() > 0 ==> recipients::decoded(hs.recipients_blob) == Some(es)
        }),
{
    reveal(is_handshake);
    let es = made_entries(sender.caps, hs.enc_ecdh, hs.cek);
    assert forall|i: int| 0 <= i < es.len() implies recipients::valid_entry(#[trigger] es[i]) by {
        assert(entry_holds(sender.caps[i], hs.enc_ecdh, hs.rc, hs.cek));
    }
    recipients::lemma_blob_len(es);
    assert(recipients::ids_of(es) =~= capsule_ids(sender.caps));
    if sender.caps.len() > 0 {
        recipients::lemma_recipients_roundtrip(es);
    }
}

// ----------------------------------------------------------------------
// The recipient's side
// ----------------------------------------------------------------------

/// What an entry gives to the holder of secret keys: the content key, if the hint
/// is theirs and the wrap opens.
pub open spec fn opened_entry(
    e: EntryView,
    enc_ecdh: Seq<u8>,
    rc: Seq<u8>,
    sk: SecretView,
) -> Option<Seq<u8>> {
    let ss_ecdh = crypto::x25519_shared(sk.ecdh_sk, enc_ecdh);
    let ss_pq = crypto::mlkem_shared(e.enc_pq, sk.pq_sk);
    if e.index_hint == recipients::index_hint(e.entry_id, enc_ecdh, rc, ss_ecdh) {
        crypto::xchacha_open(
            wrap_key(rc, ss_ecdh, ss_pq, e.entry_id),
            wrap_nonce(rc, ss_ecdh, ss_pq, e.entry_id),
            wrap_aad(enc_ecdh, e.entry_id, e.index_hint as int, rc),
            e.wrap,
        )
    } else {
        None
    }
}

/// What the first entry that opens gives.
pub open spec fn found_cek(
    es: Seq<EntryView>,
    enc_ecdh: Seq<u8>,
    rc: Seq<u8>,
    sk: SecretView,
) -> Option<Seq<u8>>
    decreases es.len(),
{
    if es.len() == 0 {
        None
    } else {
        match opened_entry(es[0], enc_ecdh, rc, sk) {
            Some(cek) => Some(cek),
            None => found_cek(es.skip(1), enc_ecdh, rc, sk),
        }
    }
}

/// The context that the holder of secret keys gets from an envelope: the stored
/// commitment is that of the recipient list, no entry occurs twice, and one entry
/// opens.
pub open spec fn context_for(p: envelope::EnvelopeView, sk: SecretView) -> Option<ContextView> {
    let es = recipients::decoded(p.recipients_blob)->0;
    let ids = recipients::ids_of(es);
    let rc = recipients::commitment(ids);
    if rc == p.rc && ids.no_duplicates() {
        match found_cek(es, p.enc_ecdh, rc, sk) {
            Some(cek) => Some(ContextView { parsed: p, rc, cek }),
            None => None,
        }
    } else {
        None
    }
}

/// The context that an armored secret gets from the bytes of an envelope.
pub open spec fn context_of(bytes: Seq<u8>, arm: Seq<char>, pass: Seq<char>) -> Option<
    ContextView,
> {
    match (envelope::parsed(bytes), keys::unlocked(arm, pass)) {
        (Some(p), Some(sk)) => context_for(p, sk),
        _ => None,
    }
}

/// Tries one entry.
fn open_entry(
    e: &RecipientEntry,
    enc_ecdh: &[u8; 32],
    rc: &[u8; 32],
    sk: &SecretBundle,
    ss_ecdh: &[u8; 32],
) -> (cek: Option<[u8; 32]>)
    requires
        recipients::valid_entry(e@),
        keys::valid_secret(sk@),
        ss_ecdh@ == crypto::x25519_shared(sk@.ecdh_sk, enc_ecdh@),
    ensures
        match cek {
            Some(k) => opened_entry(e@, enc_ecdh@, rc@, sk@) == Some(k@),
            None => opened_entry(e@, enc_ecdh@, rc@, sk@) is None,
        },
{
    let expected: u64 = compute_index_hint(&e.entry_id, enc_ecdh, rc, ss_ecdh);
    if e.index_hint != expected {
        return None;
    }
    let mut ss_pq: Vec<u8> = match mlkem_decapsulate(e.enc_pq.as_slice(), sk.pq_sk.as_slice()) {
        Ok(s) => s,
        Err(_) => {
            return None;
        },
    };
    let (key, nonce): ([u8; 32], [u8; 24]) = derive_wrap(
        rc,
        ss_ecdh,
        ss_pq.as_slice(),
        &e.entry_id,
    );
    let mut key: [u8; 32] = key;
    wipe_vec(&mut ss_pq);
    let mut aad: Vec<u8> = build_wrap_aad(enc_ecdh, &e.entry_id, e.index_hint, rc);
    let opened: Result<Vec<u8>, ()> = xchacha20poly1305_open(
        &key,
        &nonce,
        aad.as_slice(),
        e.wrap.as_slice(),
    );
    wipe_vec(&mut aad);
    wipe_key(&mut key);
    match opened {
        Ok(cek) => {
            let mut cek: Vec<u8> = cek;
            let k: [u8; 32] = array_32(cek.as_slice());
            wipe_vec(&mut cek);
            Some(k)
        },
        Err(_) => None,
    }
}

/// Finds the content key among the entries.
fn find_cek(
    entries: &Vec<RecipientEntry>,
    enc_ecdh: &[u8; 32],
    rc: &[u8; 32],
    sk: &SecretBundle,
) -> (cek: Option<[u8; 32]>)
    requires
        forall|i: int|
            0 <= i < entries@.len() ==> recipients::valid_entry(
                #[trigger] recipients::entry_views(entries@)[i],
            ),
        keys::valid_secret(sk@),
    ensures
        match cek {
            Some(k) => found_cek(
                recipients::entry_views(entries@),
                enc_ecdh@,
                rc@,
                sk@,
            ) == Some(k@),
            None => found_cek(
                recipients::entry_views(entries@),
                enc_ecdh@,
                rc@,
                sk@,
            ) is None,
        },
{
    let ghost es = recipients::entry_views(entries@);
    let mut ss_ecdh: [u8; 32] = x25519_agree(&sk.ecdh_sk, enc_ecdh);
    let mut found: Option<[u8; 32]> = None;
    let mut i: usize = 0;
    assert(es.skip(0) =~= es);
    while i < entries.len() && found.is_none()
        invariant
            i <= entries@.len(),
            es == recipients::entry_views(entries@),
            forall|k: int|
                0 <= k < entries@.len() ==> recipients::valid_entry(#[trigger] es[k]),
            keys::valid_secret(sk@),
            ss_ecdh@ == crypto::x25519_shared(sk@.ecdh_sk, enc_ecdh@),
            found matches Some(k) ==> found_cek(es, enc_ecdh@, rc@, sk@) == Some(k@),
            found is None ==> found_cek(es, enc_ecdh@, rc@, sk@) == found_cek(
                es.skip(i as int),
                enc_ecdh@,
                rc@,
                sk@,
            ),
        decreases entries@.len() - i,
    {
        assert(es[i as int] == entries@[i as int]@);
        assert(es.skip(i as int)[0] == es[i as int]);
        assert(es.skip(i as int).skip(1) =~= es.skip(i + 1));
        found = open_entry(&entries[i], enc_ecdh, rc, sk, &ss_ecdh);
        i = i + 1;
    }
    wipe_key(&mut ss_ecdh);
    found
}

/// Recovers the content key of an envelope for the holder of secret keys.
pub fn open_envelope(parsed: ParsedBinary, sk: &SecretBundle) -> (ctx: Result<DecryptContext, ()>)
    requires
        envelope::valid_envelope(parsed@),
        keys::valid_secret(sk@),
    ensures
        match ctx {
            Ok(c) => context_for(parsed@, sk@) == Some(c@) && c.parsed == parsed,
            Err(_) => context_for(parsed@, sk@) is None,
        },
{
    let entries: Vec<RecipientEntry> = match decode_recipients(parsed.recipients_blob.as_slice()) {
        Ok(e) => e,
        Err(_) => {
            return Err(());
        },
    };
    let ids: Vec<[u8; 32]> = entry_ids(&entries);
    let rc: [u8; 32] = recipients_commitment(ids.as_slice());
    if !ct_eq(rc.as_slice(), parsed.rc.as_slice()) {
        return Err(());
    }
    if !ids_distinct(ids.as_slice()) {
        return Err(());
    }
    match find_cek(&entries, &parsed.enc_ecdh, &rc, sk) {
        Some(cek) => Ok(DecryptContext::new(parsed, rc, cek)),
        None => Err(()),
    }
}

/// Recovers the content key of the bytes of an envelope with an armored secret.
pub fn build_decrypt_context(bytes: &[u8], my_secret_armored: &str, passphrase: &str) -> (ctx:
    Result<DecryptContext, ()>)
    ensures
        match ctx {
            Ok(c) => context_of(bytes@, my_secret_armored@, passphrase@) == Some(c@)
                && envelope::valid_envelope(c@.parsed),
            Err(_) => context_of(bytes@, my_secret_armored@, passphrase@) is None,
        },
{
    let parsed: ParsedBinary = match parse_envelope_binary(bytes) {
        Ok(p) => p,
        Err(_) => {
            return Err(());
        },
    };
    let sk: SecretBundle = match unlock_secret(my_secret_armored, passphrase) {
        Ok(s) => s,
        Err(_) => {
            return Err(());
        },
    };
    open_envelope(parsed, &sk)
}

// ----------------------------------------------------------------------
// Laws
// ----------------------------------------------------------------------

/// Whether the `i`-th recipient of a handshake holds secret keys: the X25519 key is
/// that of the secret key, and the capsule decapsulates to the encapsulated
/// secret.
pub open spec fn is_recipient(sender: SenderView, i: int, sk: SecretView) -> bool {
    &&& 0 <= i < sender.caps.len()
    &&& sk.ecdh_sk.len() == 32
    &&& sender.recips[i].ecdh_pk == crypto::x25519_public(sk.ecdh_sk)
    &&& crypto::mlkem_shared(sender.caps[i].enc_pq, sk.pq_sk) == sender.caps[i].ss_pq
}

/// Whether the `i`-th capsule of a handshake is one for the given public keys.
pub open spec fn serves(sender: SenderView, i: int, p: PublicView) -> bool {
    &&& 0 <= i < sender.caps.len()
    &&& sender.recips[i].ecdh_pk == p.ecdh_pk
    &&& capsule_for(sender.caps[i], sender.eph_sk, p)
}

/// Every key on the list gets a capsule.
pub proof fn lemma_everyone_is_served(
    hs: HandshakeView,
    list: Seq<PublicView>,
    sender: SenderView,
    k: int,
)
    requires
        is_handshake(hs, list, sender),
        forall|j: int| 0 <= j < list.len() ==> armor::valid_public(#[trigger] list[j]),
        0 <= k < list.len(),
    ensures
        exists|i: int| serves(sender, i, list[k]),
{
    reveal(is_handshake);
    assert(lists(sender.recips, list[k]));
    let i = choose|i: int|
        0 <= i < sender.recips.len() && sort_key(#[trigger] sender.recips[i]) == sort_key(list[k]);
    let r = sender.recips[i];
    assert(list.contains(r));
    let j = choose|j: int| 0 <= j < list.len() && list[j] == r;
    assert(armor::valid_public(list[j]));
    assert(armor::valid_public(list[k]));
    assert(r.ecdh_pk =~= sort_key(r).take(32));
    assert(list[k].ecdh_pk =~= sort_key(list[k]).take(32));
    assert(r.pq_pk =~= sort_key(r).skip(32));
    assert(list[k].pq_pk =~= sort_key(list[k]).skip(32));
    assert(capsule_for(sender.caps[i], sender.eph_sk, r));
    assert(serves(sender, i, list[k]));
}

/// A recipient's entry gives the recipient the content key.
pub proof fn lemma_recipient_opens(
    hs: HandshakeView,
    list: Seq<PublicView>,
    sender: SenderView,
    i: int,
    sk: SecretView,
)
    requires
        is_handshake(hs, list, sender),
        is_recipient(sender, i, sk),
    ensures
        opened_entry(
            made_entries(sender.caps, hs.enc_ecdh, hs.cek)[i],
            hs.enc_ecdh,
            hs.rc,
            sk,
        ) == Some(hs.cek),
{
    reveal(is_handshake);
    assert(capsule_for(sender.caps[i], sender.eph_sk, sender.recips[i]));
    assert(entry_holds(sender.caps[i], hs.enc_ecdh, hs.rc, hs.cek));
    assert(crypto::x25519_shared(sk.ecdh_sk, hs.enc_ecdh) == sender.caps[i].ss_ecdh);
}

/// The first entry that opens decides.
proof fn lemma_found(
    es: Seq<EntryView>,
    enc_ecdh: Seq<u8>,
    rc: Seq<u8>,
    sk: SecretView,
    i: int,
)
    requires
        0 <= i < es.len(),
        opened_entry(es[i], enc_ecdh, rc, sk) is Some,
        forall|k: int| 0 <= k < i ==> opened_entry(#[trigger] es[k], enc_ecdh, rc, sk) is None,
    ensures
        found_cek(es, enc_ecdh, rc, sk) == opened_entry(es[i], enc_ecdh, rc, sk),
    decreases i,
{
    if i > 0 {
        let rest = es.skip(1);
        assert(opened_entry(es[0], enc_ecdh, rc, sk) is None);
        assert forall|k: int| 0 <= k < i - 1 implies opened_entry(
            #[trigger] rest[k],
            enc_ecdh,
            rc,
            sk,
        ) is None by {
            assert(rest[k] == es[k + 1]);
        }
        assert(rest[i - 1] == es[i]);
        lemma_found(rest, enc_ecdh, rc, sk, i - 1);
    }
}

/// A recipient recovers the content key from every envelope that carries the
/// handshake. Left out are handshakes with two equal capsules, and such where an
/// entry of another recipient opens first.
pub proof fn lemma_handshake_roundtrip(
    hs: HandshakeView,
    list: Seq<PublicView>,
    sender: SenderView,
    i: int,
    sk: SecretView,
    p: envelope::EnvelopeView,
)
    requires
        is_handshake(hs, list, sender),
        is_recipient(sender, i, sk),
        capsule_ids(sender.caps).no_duplicates(),
        forall|k: int|
            0 <= k < i ==> opened_entry(
                #[trigger] made_entries(sender.caps, hs.enc_ecdh, hs.cek)[k],
                hs.enc_ecdh,
                hs.rc,
                sk,
            ) is None,
        p.enc_ecdh == hs.enc_ecdh,
        p.recipients_blob == hs.recipients_blob,
        p.rc == hs.rc,
    ensures
        context_for(p, sk) == Some((ContextView { parsed: p, rc: hs.rc, cek: hs.cek })),
{
    let es = made_entries(sender.caps, hs.enc_ecdh, hs.cek);
    lemma_handshake_entries(hs, list, sender);
    lemma_recipient_opens(hs, list, sender, i, sk);
    lemma_found(es, hs.enc_ecdh, hs.rc, sk, i);
}

/// Where an entry opens, the first that opens gives the content key.
proof fn lemma_found_some(
    es: Seq<EntryView>,
    enc_ecdh: Seq<u8>,
    rc: Seq<u8>,
    sk: SecretView,
    i: int,
)
    requires
        0 <= i < es.len(),
        opened_entry(es[i], enc_ecdh, rc, sk) is Some,
    ensures
        exists|k: int|
            0 <= k < es.len() && opened_entry(#[trigger] es[k], enc_ecdh, rc, sk) is Some
                && found_cek(es, enc_ecdh, rc, sk) == opened_entry(es[k], enc_ecdh, rc, sk),
    decreases i,
{
    if opened_entry(es[0], enc_ecdh, rc, sk) is None {
        let rest = es.skip(1);
        assert(rest[i - 1] == es[i]);
        lemma_found_some(rest, enc_ecdh, rc, sk, i - 1);
        let k = choose|k: int|
            0 <= k < rest.len() && opened_entry(#[trigger] rest[k], enc_ecdh, rc, sk) is Some
                && found_cek(rest, enc_ecdh, rc, sk) == opened_entry(rest[k], enc_ecdh, rc, sk);
        assert(rest[k] == es[k + 1]);
    } else {
        assert(found_cek(es, enc_ecdh, rc, sk) == opened_entry(es[0], enc_ecdh, rc, sk));
    }
}

/// Whether the capsules of an envelope that were made for public keys decapsulate
/// under secret keys to the secrets that they were made with. A capsule that was made
/// for the public half of a pair fails to do so with a tiny probability.
pub open spec fn capsules_open(v: envelope::EnvelopeView, p: PublicView, sk: SecretView) -> bool {
    let es = recipients::decoded(v.recipients_blob)->0;
    forall|i: int, ss: Seq<u8>|
        0 <= i < es.len() && #[trigger] crypto::mlkem_encapsulated(p.pq_pk, ss, es[i].enc_pq)
            ==> crypto::mlkem_shared(es[i].enc_pq, sk.pq_sk) == ss
}

/// Whether the entries of an envelope do not get into each other's way: no two
/// capsules are equal, and all entries that open under the secret keys hold the same
/// content key.
pub open spec fn entries_agree(v: envelope::EnvelopeView, sk: SecretView) -> bool {
    let es = recipients::decoded(v.recipients_blob)->0;
    &&& recipients::ids_of(es).no_duplicates()
    &&& forall|i: int, j: int|
        0 <= i < es.len() && 0 <= j < es.len() ==> {
            let a = opened_entry(#[trigger] es[i], v.enc_ecdh, v.rc, sk);
            let b = opened_entry(#[trigger] es[j], v.enc_ecdh, v.rc, sk);
            a is Some && b is Some ==> a == b
        }
}

/// Whether secret keys belong to public keys, as far as encryption goes.
pub open spec fn is_agreement_pair(p: PublicView, sk: SecretView) -> bool {
    sk.ecdh_sk.len() == 32 && p.ecdh_pk == crypto::x25519_public(sk.ecdh_sk)
}

/// Whoever is on the list of a handshake recovers the content key from every envelope
/// that carries the handshake. Left out are envelopes with a capsule that does not
/// decapsulate, with two equal capsules, or with an entry that opens to another key.
pub proof fn lemma_listed_recovers(
    hs: HandshakeView,
    list: Seq<PublicView>,
    sender: SenderView,
    p: PublicView,
    sk: SecretView,
    v: envelope::EnvelopeView,
)
    requires
        is_handshake(hs, list, sender),
        forall|j: int| 0 <= j < list.len() ==> armor::valid_public(#[trigger] list[j]),
        list.contains(p),
        is_agreement_pair(p, sk),
        v.enc_ecdh == hs.enc_ecdh,
        v.recipients_blob == hs.recipients_blob,
        v.rc == hs.rc,
        capsules_open(v, p, sk),
        entries_agree(v, sk),
    ensures
        context_for(v, sk) == Some((ContextView { parsed: v, rc: hs.rc, cek: hs.cek })),
{
    let k = choose|k: int| 0 <= k < list.len() && list[k] == p;
    lemma_everyone_is_served(hs, list, sender, k);
    let i = choose|i: int| serves(sender, i, p);
    let es = made_entries(sender.caps, hs.enc_ecdh, hs.cek);
    lemma_handshake_not_empty(hs, list, sender);
    lemma_handshake_entries(hs, list, sender);
    let c = sender.caps[i];
    assert(es[i].enc_pq == c.enc_pq);
    assert(crypto::mlkem_encapsulated(p.pq_pk, c.ss_pq, es[i].enc_pq));
    assert(is_recipient(sender, i, sk));
    lemma_recipient_opens(hs, list, sender, i, sk);
    lemma_found_some(es, hs.enc_ecdh, hs.rc, sk, i);
    let m = choose|m: int|
        0 <= m < es.len() && opened_entry(#[trigger] es[m], hs.enc_ecdh, hs.rc, sk) is Some
            && found_cek(es, hs.enc_ecdh, hs.rc, sk) == opened_entry(
            es[m],
            hs.enc_ecdh,
            hs.rc,
            sk,
        );
    assert(opened_entry(es[m], v.enc_ecdh, v.rc, sk) == opened_entry(
        es[i],
        v.enc_ecdh,
        v.rc,
        sk,
    ));
}

/// A list of one key has one recipient.
pub proof fn lemma_one_recipient(p: PublicView)
    ensures
        recipient_count(seq![p]) == 1,
{
    let one = seq![p];
    assert forall|i: int, j: int| 0 <= i < j < one.len() implies comes_before(
        #[trigger] one[i],
        #[trigger] one[j],
    ) by {}
    assert forall|i: int| 0 <= i < one.len() implies lists(one, #[trigger] one[i]) by {
        assert(sort_key(one[0]) == sort_key(one[i]));
    }
    assert forall|i: int| 0 <= i < one.len() implies one.contains(#[trigger] one[i]) by {}
    lemma_recipient_count(one, one);
}

/// A handshake with one recipient has one capsule.
proof fn lemma_one_capsule(hs: HandshakeView, p: PublicView, sender: SenderView)
    requires
        is_handshake(hs, seq![p], sender),
    ensures
        sender.caps.len() == 1,
{
    reveal(is_handshake);
    lemma_one_recipient(p);
    lemma_recipient_count(seq![p], sender.recips);
}

/// One entry agrees with itself.
proof fn lemma_single_agrees(v: envelope::EnvelopeView, sk: SecretView)
    requires
        (recipients::decoded(v.recipients_blob)->0).len() == 1,
    ensures
        entries_agree(v, sk),
{
    let es = recipients::decoded(v.recipients_blob)->0;
    assert(recipients::ids_of(es).len() == 1);
    assert forall|i: int, j: int| 0 <= i < es.len() && 0 <= j < es.len() implies {
        let a = opened_entry(#[trigger] es[i], v.enc_ecdh, v.rc, sk);
        let b = opened_entry(#[trigger] es[j], v.enc_ecdh, v.rc, sk);
        a is Some && b is Some ==> a == b
    } by {
        assert(i == j);
    }
}

/// The entries of a handshake with one recipient agree: there is only one.
pub proof fn lemma_one_entry_agrees(
    hs: HandshakeView,
    p: PublicView,
    sender: SenderView,
    sk: SecretView,
    v: envelope::EnvelopeView,
)
    requires
        is_handshake(hs, seq![p], sender),
        v.recipients_blob == hs.recipients_blob,
    ensures
        entries_agree(v, sk),
{
    lemma_one_capsule(hs, p, sender);
    lemma_handshake_entries(hs, seq![p], sender);
    assert(made_entries(sender.caps, hs.enc_ecdh, hs.cek).len() == 1);
    lemma_single_agrees(v, sk);
}

} // verus!
