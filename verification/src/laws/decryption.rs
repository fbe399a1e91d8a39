//! Decrypting: whom an envelope gives its content key, and what the key opens.

use vstd::prelude::*;
use vstd::slice::*;
use vstd::string::*;
use vstd::utf8::*;

use crate::context::{ContextView, DecryptContext};
use crate::crypto;
use crate::decrypt;
use crate::decrypt::{decrypt_binary, decrypt_content, decrypt_raw};
use crate::envelope::{parse_envelope_binary, EnvelopeView, ParsedBinary};
use crate::handshake;
use crate::handshake::{build_decrypt_context, open_envelope};
use crate::keys::{unlock_secret, SecretBundle, SecretView};
use crate::laws::formats::{
    flat, frame_nonce, holds_entries, lemma_holds_entries,
};
use crate::laws::{
    lemma_numbers, lemma_payload_aad, lemma_wrap_aad, number, payload_aad, wrap_aad,
};
use crate::message::{binary_from_armor, parse_message, ParsedMsg};
use crate::order;
use crate::recipients;
use crate::recipients::{recipients_commitment, EntryView};
use crate::streaming;
use crate::transcript::verify_signature_status;
use crate::util;

verus! {

// ----------------------------------------------------------------------
// The content key
// ----------------------------------------------------------------------

/// The key that a content key is wrapped with for one recipient.
pub open spec fn kek(rc: Seq<u8>, ss_ecdh: Seq<u8>, ss_pq: Seq<u8>, id: Seq<u8>) -> Seq<u8> {
    crypto::hkdf_sha256(rc, ss_ecdh + ss_pq, "VELUM-v1 KEK".spec_bytes() + id, 32)
}

/// The nonce that a content key is wrapped with for one recipient.
pub open spec fn kek_nonce(rc: Seq<u8>, ss_ecdh: Seq<u8>, ss_pq: Seq<u8>, id: Seq<u8>) -> Seq<u8> {
    crypto::hkdf_sha256(rc, ss_ecdh + ss_pq, "VELUM-v1 WRAP NONCE".spec_bytes() + id, 24)
}

/// The number that the first eight bytes of a digest are.
pub open spec fn leading_number(d: Seq<u8>) -> int {
    util::be64_value(d.take(8))
}

/// It is the number whose bytes they are.
pub proof fn law_leading_number(d: Seq<u8>)
    requires
        d.len() >= 8,
    ensures
        number(leading_number(d), 8) == d.take(8),
        0 <= leading_number(d) <= u64::MAX,
{
    util::lemma_be64(leading_number(d), d.take(8));
    lemma_numbers(leading_number(d));
}

/// What an entry gives to who holds secret keys: nothing unless the hint is theirs,
/// else what the wrapped key opens to.
#[verifier::opaque]
pub open spec fn unwrapped(
    e: EntryView,
    enc_ecdh: Seq<u8>,
    rc: Seq<u8>,
    sk: SecretView,
) -> Option<Seq<u8>> {
    let ss_ecdh = crypto::x25519_shared(sk.ecdh_sk, enc_ecdh);
    let ss_pq = crypto::mlkem_shared(e.enc_pq, sk.pq_sk);
    if e.index_hint == leading_number(
        crypto::sha256(e.entry_id + enc_ecdh + rc + ss_ecdh),
    ) {
        crypto::xchacha_open(
            kek(rc, ss_ecdh, ss_pq, e.entry_id),
            kek_nonce(rc, ss_ecdh, ss_pq, e.entry_id),
            wrap_aad(enc_ecdh, e.entry_id, e.index_hint as int, rc),
            e.wrap,
        )
    } else {
        None
    }
}

/// Whether the first entry that gives a key gives this one.
pub open spec fn first_gives(
    es: Seq<EntryView>,
    enc_ecdh: Seq<u8>,
    rc: Seq<u8>,
    sk: SecretView,
    cek: Seq<u8>,
) -> bool {
    exists|i: int| gives_at(es, enc_ecdh, rc, sk, cek, i)
}

/// Entries give what is said.
pub proof fn lemma_unwrapped(e: EntryView, enc_ecdh: Seq<u8>, rc: Seq<u8>, sk: SecretView)
    ensures
        handshake::opened_entry(e, enc_ecdh, rc, sk) == unwrapped(e, enc_ecdh, rc, sk),
{
    reveal(unwrapped);
    lemma_wrap_aad(enc_ecdh, e.entry_id, e.index_hint as int, rc);
}

/// Whether the entry at a place is the first that gives a key, and gives this one.
pub open spec fn gives_at(
    es: Seq<EntryView>,
    enc_ecdh: Seq<u8>,
    rc: Seq<u8>,
    sk: SecretView,
    cek: Seq<u8>,
    i: int,
) -> bool {
    &&& 0 <= i < es.len()
    &&& unwrapped(es[i], enc_ecdh, rc, sk) == Some(cek)
    &&& forall|k: int| 0 <= k < i ==> unwrapped(#[trigger] es[k], enc_ecdh, rc, sk) is None
}

/// Where the first entry gives nothing, the others decide.
proof fn lemma_gives_later(
    es: Seq<EntryView>,
    enc_ecdh: Seq<u8>,
    rc: Seq<u8>,
    sk: SecretView,
    cek: Seq<u8>,
    i: int,
)
    requires
        es.len() > 0,
        unwrapped(es[0], enc_ecdh, rc, sk) is None,
    ensures
        gives_at(es.skip(1), enc_ecdh, rc, sk, cek, i) <==> gives_at(
            es,
            enc_ecdh,
            rc,
            sk,
            cek,
            i + 1,
        ) && i >= 0,
{
    let rest = es.skip(1);
    if gives_at(rest, enc_ecdh, rc, sk, cek, i) {
        assert(rest[i] == es[i + 1]);
        assert forall|k: int| 0 <= k < i + 1 implies unwrapped(
            #[trigger] es[k],
            enc_ecdh,
            rc,
            sk,
        ) is None by {
            if k > 0 {
                assert(rest[k - 1] == es[k]);
            }
        }
    }
    if gives_at(es, enc_ecdh, rc, sk, cek, i + 1) && i >= 0 {
        assert(rest[i] == es[i + 1]);
        assert forall|k: int| 0 <= k < i implies unwrapped(
            #[trigger] rest[k],
            enc_ecdh,
            rc,
            sk,
        ) is None by {
            assert(rest[k] == es[k + 1]);
        }
    }
}

/// The first entry that gives a key decides.
pub proof fn lemma_first_gives(
    es: Seq<EntryView>,
    enc_ecdh: Seq<u8>,
    rc: Seq<u8>,
    sk: SecretView,
    cek: Seq<u8>,
)
    ensures
        handshake::found_cek(es, enc_ecdh, rc, sk) == Some(cek) <==> first_gives(
            es,
            enc_ecdh,
            rc,
            sk,
            cek,
        ),
    decreases es.len(),
{
    if es.len() > 0 {
        let rest = es.skip(1);
        lemma_unwrapped(es[0], enc_ecdh, rc, sk);
        if unwrapped(es[0], enc_ecdh, rc, sk) is None {
            lemma_first_gives(rest, enc_ecdh, rc, sk, cek);
            if first_gives(rest, enc_ecdh, rc, sk, cek) {
                let i = choose|i: int| gives_at(rest, enc_ecdh, rc, sk, cek, i);
                lemma_gives_later(es, enc_ecdh, rc, sk, cek, i);
                assert(gives_at(es, enc_ecdh, rc, sk, cek, i + 1));
            }
            if first_gives(es, enc_ecdh, rc, sk, cek) {
                let i = choose|i: int| gives_at(es, enc_ecdh, rc, sk, cek, i);
                assert(i != 0);
                lemma_gives_later(es, enc_ecdh, rc, sk, cek, i - 1);
                assert(gives_at(rest, enc_ecdh, rc, sk, cek, i - 1));
            }
        } else {
            if unwrapped(es[0], enc_ecdh, rc, sk) == Some(cek) {
                assert(gives_at(es, enc_ecdh, rc, sk, cek, 0));
            }
            if first_gives(es, enc_ecdh, rc, sk, cek) {
                let i = choose|i: int| gives_at(es, enc_ecdh, rc, sk, cek, i);
                if i > 0 {
                    assert(unwrapped(es[0], enc_ecdh, rc, sk) is None);
                }
            }
        }
    }
}

/// Whether the holder of secret keys gets a content key from an envelope that holds
/// the entries `es`: the envelope has the commitment to them, no capsule stands twice,
/// and the first entry that gives a key gives this one.
pub open spec fn gives_key(
    v: EnvelopeView,
    es: Seq<EntryView>,
    rc: Seq<u8>,
    sk: SecretView,
    cek: Seq<u8>,
) -> bool {
    &&& v.rc == rc
    &&& forall|i: int, j: int|
        0 <= i < j < es.len() ==> crypto::sha256((#[trigger] es[i]).enc_pq) != crypto::sha256(
            (#[trigger] es[j]).enc_pq,
        )
    &&& first_gives(es, v.enc_ecdh, rc, sk, cek)
}

/// Whether `rc` is the commitment to the entries.
pub open spec fn commits(rc: [u8; 32], es: Seq<EntryView>) -> bool {
    exists|ids: &[[u8; 32]]|
        ids@.map_values(|i: [u8; 32]| i@) == es.map_values(
            |e: EntryView| crypto::sha256(e.enc_pq),
        ) && #[trigger] call_ensures(recipients_commitment, (ids,), rc)
}

/// What it takes to get the content key of an envelope.
proof fn lemma_gives_key(
    v: EnvelopeView,
    es: Seq<EntryView>,
    rc: [u8; 32],
    sk: SecretView,
    cek: Seq<u8>,
)
    requires
        holds_entries(v.recipients_blob, es),
        commits(rc, es),
    ensures
        handshake::context_for(v, sk) == Some((ContextView { parsed: v, rc: rc@, cek }))
            <==> gives_key(v, es, rc@, sk, cek),
        handshake::context_for(v, sk) matches Some(c) ==> c.parsed == v && c.rc == rc@,
{
    let ids = choose|ids: &[[u8; 32]]|
        ids@.map_values(|i: [u8; 32]| i@) == es.map_values(
            |e: EntryView| crypto::sha256(e.enc_pq),
        ) && #[trigger] call_ensures(recipients_commitment, (ids,), rc);
    lemma_holds_entries(v.recipients_blob, es);
    recipients::lemma_recipients_roundtrip(es);
    let a = recipients::ids_of(es);
    assert(a =~= es.map_values(|e: EntryView| crypto::sha256(e.enc_pq)));
    assert(order::id_views(ids@) =~= a);
    assert(recipients::commitment(a) == rc@);
    lemma_first_gives(es, v.enc_ecdh, rc@, sk, cek);
    if gives_key(v, es, rc@, sk, cek) {
        assert forall|i: int, j: int|
            0 <= i < a.len() && 0 <= j < a.len() && i != j implies a[i] != a[j] by {
            assert(a[i] == crypto::sha256(es[i].enc_pq));
            assert(a[j] == crypto::sha256(es[j].enc_pq));
        }
        assert(a.no_duplicates());
    }
    if handshake::context_for(v, sk) is Some {
        assert forall|i: int, j: int| 0 <= i < j < es.len() implies crypto::sha256(
            (#[trigger] es[i]).enc_pq,
        ) != crypto::sha256((#[trigger] es[j]).enc_pq) by {
            assert(a[i] == crypto::sha256(es[i].enc_pq));
            assert(a[j] == crypto::sha256(es[j].enc_pq));
        }
    }
}

/// The holder of secret keys gets the content key of an envelope exactly when the
/// envelope gives it to them.
pub proof fn law_open_envelope(
    parsed: ParsedBinary,
    sk: &SecretBundle,
    es: Seq<EntryView>,
    rc: [u8; 32],
    r: Result<DecryptContext, ()>,
)
    requires
        holds_entries(parsed@.recipients_blob, es),
        commits(rc, es),
        call_ensures(open_envelope, (parsed, sk), r),
    ensures
        r matches Ok(c) ==> c@.parsed == parsed@ && c@.rc == rc@ && gives_key(
            parsed@,
            es,
            rc@,
            sk@,
            c@.cek,
        ),
        r is Err ==> forall|cek: Seq<u8>| !gives_key(parsed@, es, rc@, sk@, cek),
{
    if r is Ok {
        lemma_gives_key(parsed@, es, rc, sk@, (r->Ok_0)@.cek);
    } else {
        assert forall|cek: Seq<u8>| !gives_key(parsed@, es, rc@, sk@, cek) by {
            lemma_gives_key(parsed@, es, rc, sk@, cek);
        }
    }
}

/// A secret gets the content key from bytes exactly when the bytes are an envelope,
/// the passphrase unlocks the secret, and the envelope gives the key to its keys.
pub proof fn law_context(
    bytes: &[u8],
    arm: &str,
    pass: &str,
    env: Result<ParsedBinary, ()>,
    sk: Result<SecretBundle, ()>,
    es: Seq<EntryView>,
    rc: [u8; 32],
    r: Result<DecryptContext, ()>,
)
    requires
        call_ensures(parse_envelope_binary, (bytes,), env),
        call_ensures(unlock_secret, (arm, pass), sk),
        env is Ok ==> holds_entries((env->Ok_0)@.recipients_blob, es),
        commits(rc, es),
        call_ensures(build_decrypt_context, (bytes, arm, pass), r),
    ensures
        r matches Ok(c) ==> env is Ok && sk is Ok && c@.parsed == (env->Ok_0)@ && c@.rc == rc@
            && gives_key((env->Ok_0)@, es, rc@, (sk->Ok_0)@, c@.cek),
        r is Err ==> env is Err || sk is Err || forall|cek: Seq<u8>|
            !gives_key((env->Ok_0)@, es, rc@, (sk->Ok_0)@, cek),
{
    if env is Ok && sk is Ok {
        let v = (env->Ok_0)@;
        let k = (sk->Ok_0)@;
        if r is Ok {
            lemma_gives_key(v, es, rc, k, (r->Ok_0)@.cek);
        } else {
            assert forall|cek: Seq<u8>| !gives_key(v, es, rc@, k, cek) by {
                lemma_gives_key(v, es, rc, k, cek);
            }
        }
    }
}

// ----------------------------------------------------------------------
// The payload
// ----------------------------------------------------------------------

/// What a whole payload opens to under a content key.
pub open spec fn whole_text(v: EnvelopeView, cek: Seq<u8>) -> Option<Seq<u8>> {
    if 16 <= v.ct_and_tag.len() <= 0x3F_FFFF_FF80 + 16 {
        crypto::xchacha_open(
            cek,
            v.nonce,
            payload_aad(v.enc_ecdh, v.nonce, v.recipients_blob, false),
            v.ct_and_tag,
        )
    } else {
        None
    }
}

/// Frames from number `index` on: the length of each body, the nonce of its place, the
/// body.
pub open spec fn framed(cek: Seq<u8>, rc: Seq<u8>, index: int, bodies: Seq<Seq<u8>>) -> Seq<u8>
    decreases bodies.len(),
{
    if bodies.len() == 0 {
        seq![]
    } else {
        number(bodies[0].len() as int, 4) + frame_nonce(cek, rc, index) + bodies[0] + framed(
            cek,
            rc,
            index + 1,
            bodies.skip(1),
        )
    }
}

/// Whether bodies open to chunks, each with the nonce of its place.
pub open spec fn open_to(
    cek: Seq<u8>,
    rc: Seq<u8>,
    aad: Seq<u8>,
    index: int,
    bodies: Seq<Seq<u8>>,
    chunks: Seq<Seq<u8>>,
) -> bool {
    &&& bodies.len() == chunks.len()
    &&& index + bodies.len() <= 0xFFFF_FFFF
    &&& forall|i: int|
        0 <= i < bodies.len() ==> {
            &&& 16 <= (#[trigger] bodies[i]).len() < 0xFFFF_FFFF
            &&& frame_nonce(cek, rc, index + i).len() == 24
            &&& crypto::xchacha_open(cek, frame_nonce(cek, rc, index + i), aad, bodies[i]) == Some(
                chunks[i],
            )
        }
}

/// Whether a payload is the frames of bodies that open to the chunks, an end marker,
/// and more.
pub open spec fn holds_chunks(
    cek: Seq<u8>,
    rc: Seq<u8>,
    aad: Seq<u8>,
    index: int,
    payload: Seq<u8>,
    bodies: Seq<Seq<u8>>,
    chunks: Seq<Seq<u8>>,
    more: Seq<u8>,
) -> bool {
    &&& payload == framed(cek, rc, index, bodies) + number(0xFFFF_FFFF, 4) + more
    &&& open_to(cek, rc, aad, index, bodies, chunks)
}

/// The nonces of frames are derived as said.
pub proof fn lemma_frame_nonce(cek: Seq<u8>, rc: Seq<u8>, index: int)
    ensures
        streaming::chunk_nonce(cek, rc, index) == frame_nonce(cek, rc, index),
{
    lemma_numbers(index);
}

/// Four bytes are a number or they are not.
proof fn lemma_four(s: Seq<u8>, n: int)
    requires
        s.len() >= 4,
        0 <= n <= 0xFFFF_FFFF,
    ensures
        util::be32_value(s.take(4)) == n <==> s.take(4) == number(n, 4),
        0 <= util::be32_value(s.take(4)) <= 0xFFFF_FFFF,
{
    lemma_numbers(n);
    util::lemma_be32(n, s.take(4));
}

/// What frames open to, they hold.
proof fn lemma_chunks_held(cek: Seq<u8>, rc: Seq<u8>, aad: Seq<u8>, index: int, s: Seq<u8>) -> (bodies:
    Seq<Seq<u8>>)
    requires
        0 <= index <= 0xFFFF_FFFF,
        streaming::opened_frames(cek, rc, aad, index, s) is Some,
    ensures
        ({
            let (chunks, n) = streaming::opened_frames(cek, rc, aad, index, s)->0;
            &&& 0 <= n <= s.len() - 4
            &&& framed(cek, rc, index, bodies) == s.take(n)
            &&& holds_chunks(cek, rc, aad, index, s, bodies, chunks, s.skip(n + 4))
        }),
    decreases s.len(),
{
    let end = number(0xFFFF_FFFF, 4);
    if s.len() >= 4 {
        lemma_four(s, 0xFFFF_FFFF);
    }
    if s.len() >= 4 && util::be32_value(s.take(4)) == 0xFFFF_FFFF {
        let bodies: Seq<Seq<u8>> = seq![];
        assert(framed(cek, rc, index, bodies) =~= s.take(0));
        assert(s =~= framed(cek, rc, index, bodies) + end + s.skip(4));
        bodies
    } else {
        let (chunk, n) = streaming::first_frame(cek, rc, aad, index, s)->0;
        let len = util::be32_value(s.take(4));
        let body = s.subrange(28, 28 + len);
        let rest = s.skip(n);
        lemma_frame_nonce(cek, rc, index);
        lemma_four(s, len);
        let more = lemma_chunks_held(cek, rc, aad, index + 1, rest);
        let (chunks, m) = streaming::opened_frames(cek, rc, aad, index + 1, rest)->0;
        let bodies = seq![body] + more;
        assert(bodies.skip(1) =~= more);
        let nonce = frame_nonce(cek, rc, index);
        assert(nonce =~= s.subrange(4, 28));
        assert(s.take(n + m) =~= s.take(4) + s.subrange(4, 28) + body + rest.take(m));
        assert(s.skip(n + m + 4) =~= rest.skip(m + 4));
        let f = framed(cek, rc, index, bodies);
        assert(f == number(len, 4) + nonce + body + framed(cek, rc, index + 1, more));
        assert(s =~= f + end + s.skip(n + m + 4)) by {
            assert(rest =~= rest.take(m) + end + rest.skip(m + 4));
            assert(s =~= s.take(n) + rest);
        }
        let all = seq![chunk] + chunks;
        assert forall|i: int| 0 <= i < bodies.len() implies {
            &&& 16 <= (#[trigger] bodies[i]).len() < 0xFFFF_FFFF
            &&& frame_nonce(cek, rc, index + i).len() == 24
            &&& crypto::xchacha_open(cek, frame_nonce(cek, rc, index + i), aad, bodies[i]) == Some(
                all[i],
            )
        } by {
            if i > 0 {
                assert(bodies[i] == more[i - 1]);
                assert(all[i] == chunks[i - 1]);
                assert(index + i == index + 1 + (i - 1));
            }
        }
        bodies
    }
}

/// What frames hold, they open to.
proof fn lemma_chunks_opened(
    cek: Seq<u8>,
    rc: Seq<u8>,
    aad: Seq<u8>,
    index: int,
    s: Seq<u8>,
    bodies: Seq<Seq<u8>>,
    chunks: Seq<Seq<u8>>,
    more: Seq<u8>,
)
    requires
        0 <= index,
        holds_chunks(cek, rc, aad, index, s, bodies, chunks, more),
    ensures
        streaming::opened_frames(cek, rc, aad, index, s) == Some(
            (chunks, framed(cek, rc, index, bodies).len() as int),
        ),
        s.skip(framed(cek, rc, index, bodies).len() as int + 4) == more,
        s.take(framed(cek, rc, index, bodies).len() as int) == framed(cek, rc, index, bodies),
    decreases bodies.len(),
{
    let end = number(0xFFFF_FFFF, 4);
    lemma_numbers(0xFFFF_FFFF);
    util::lemma_be32(0xFFFF_FFFF, seq![]);
    assert(end.len() == 4);
    let f = framed(cek, rc, index, bodies);
    assert(s.skip(f.len() as int + 4) =~= more);
    assert(s.take(f.len() as int) =~= f);
    if bodies.len() == 0 {
        assert(s.take(4) =~= end);
        assert(chunks =~= Seq::<Seq<u8>>::empty());
    } else {
        let body = bodies[0];
        let nonce = frame_nonce(cek, rc, index);
        assert(frame_nonce(cek, rc, index + 0).len() == 24);
        let rest = framed(cek, rc, index + 1, bodies.skip(1)) + end + more;
        let len = number(body.len() as int, 4);
        lemma_numbers(body.len() as int);
        util::lemma_be32(body.len() as int, seq![]);
        assert(len.len() == 4);
        assert(s =~= len + nonce + body + rest);
        assert(s.take(4) =~= len);
        lemma_four(s, body.len() as int);
        lemma_frame_nonce(cek, rc, index);
        assert(s.subrange(4, 28) =~= nonce);
        assert(s.subrange(28, 28 + body.len() as int) =~= body);
        assert(s.skip(28 + body.len() as int) =~= rest);
        let bs = bodies.skip(1);
        let cs = chunks.skip(1);
        assert(open_to(cek, rc, aad, index + 1, bs, cs)) by {
            assert forall|i: int| 0 <= i < bs.len() implies {
                &&& 16 <= (#[trigger] bs[i]).len() < 0xFFFF_FFFF
                &&& frame_nonce(cek, rc, index + 1 + i).len() == 24
                &&& crypto::xchacha_open(cek, frame_nonce(cek, rc, index + 1 + i), aad, bs[i])
                    == Some(cs[i])
            } by {
                assert(bs[i] == bodies[i + 1]);
                assert(cs[i] == chunks[i + 1]);
                assert(index + 1 + i == index + (i + 1));
            }
        }
        lemma_chunks_opened(cek, rc, aad, index + 1, rest, bs, cs, more);
        assert(crypto::xchacha_open(cek, frame_nonce(cek, rc, index + 0), aad, body) == Some(
            chunks[0],
        ));
        assert(streaming::first_frame(cek, rc, aad, index, s) == Some(
            (chunks[0], 28 + body.len() as int),
        ));
        assert(seq![chunks[0]] + cs =~= chunks);
    }
}

/// Whether a payload of frames is complete: it holds the chunks, and only a trailer may
/// follow the end marker.
pub open spec fn stream_text(
    v: EnvelopeView,
    rc: Seq<u8>,
    cek: Seq<u8>,
    bodies: Seq<Seq<u8>>,
    chunks: Seq<Seq<u8>>,
    more: Seq<u8>,
) -> bool {
    &&& holds_chunks(
        cek,
        rc,
        payload_aad(v.enc_ecdh, v.nonce, v.recipients_blob, true),
        0,
        v.ct_and_tag,
        bodies,
        chunks,
        more,
    )
    &&& v.has_trailer || more.len() == 0
}

/// A chunked payload opens exactly when it is complete.
pub proof fn lemma_stream_text(ctx: ContextView)
    requires
        ctx.parsed.stream,
    ensures
        decrypt::stream_content(ctx) matches Some((chunks, n)) ==> exists|bodies: Seq<Seq<u8>>|
            {
                &&& #[trigger] framed(ctx.cek, ctx.rc, 0, bodies) == ctx.parsed.ct_and_tag.take(n)
                &&& stream_text(
                    ctx.parsed,
                    ctx.rc,
                    ctx.cek,
                    bodies,
                    chunks,
                    ctx.parsed.ct_and_tag.skip(n + 4),
                )
            },
        forall|bodies: Seq<Seq<u8>>, chunks: Seq<Seq<u8>>, more: Seq<u8>| #[trigger]
            stream_text(ctx.parsed, ctx.rc, ctx.cek, bodies, chunks, more) ==> {
                let n = framed(ctx.cek, ctx.rc, 0, bodies).len() as int;
                &&& decrypt::stream_content(ctx) == Some((chunks, n))
                &&& ctx.parsed.ct_and_tag.skip(n + 4) == more
                &&& ctx.parsed.ct_and_tag.take(n) == framed(ctx.cek, ctx.rc, 0, bodies)
            },
{
    let v = ctx.parsed;
    let aad = payload_aad(v.enc_ecdh, v.nonce, v.recipients_blob, true);
    lemma_payload_aad(v.enc_ecdh, v.nonce, v.recipients_blob, true);
    assert(decrypt::context_aad(ctx) == aad);
    if decrypt::stream_content(ctx) is Some {
        let (chunks, n) = decrypt::stream_content(ctx)->0;
        let bodies = lemma_chunks_held(ctx.cek, ctx.rc, aad, 0, v.ct_and_tag);
        assert(framed(ctx.cek, ctx.rc, 0, bodies) == v.ct_and_tag.take(n));
        assert(stream_text(v, ctx.rc, ctx.cek, bodies, chunks, v.ct_and_tag.skip(n + 4)));
    }
    assert forall|bodies: Seq<Seq<u8>>, chunks: Seq<Seq<u8>>, more: Seq<u8>| #[trigger]
        stream_text(v, ctx.rc, ctx.cek, bodies, chunks, more) implies {
        let n = framed(ctx.cek, ctx.rc, 0, bodies).len() as int;
        &&& decrypt::stream_content(ctx) == Some((chunks, n))
        &&& v.ct_and_tag.skip(n + 4) == more
        &&& v.ct_and_tag.take(n) == framed(ctx.cek, ctx.rc, 0, bodies)
    } by {
        lemma_chunks_opened(ctx.cek, ctx.rc, aad, 0, v.ct_and_tag, bodies, chunks, more);
        let n = framed(ctx.cek, ctx.rc, 0, bodies).len() as int;
        lemma_numbers(0xFFFF_FFFF);
        util::lemma_be32(0xFFFF_FFFF, seq![]);
        assert(v.ct_and_tag.len() == n + 4 + more.len());
    }
}

/// Chunks, one after the other.
pub proof fn lemma_joined(chunks: Seq<Seq<u8>>)
    ensures
        streaming::joined(chunks) == flat(chunks),
    decreases chunks.len(),
{
    if chunks.len() > 0 {
        lemma_joined(chunks.skip(1));
        lemma_flat_first(chunks);
    }
}

/// The first of the byte strings, and the others.
proof fn lemma_flat_first(parts: Seq<Seq<u8>>)
    requires
        parts.len() > 0,
    ensures
        flat(parts) == parts[0] + flat(parts.skip(1)),
    decreases parts.len(),
{
    let init = parts.drop_last();
    if init.len() > 0 {
        lemma_flat_first(init);
        assert(parts.skip(1).drop_last() =~= init.skip(1));
        assert(flat(parts) =~= parts[0] + flat(parts.skip(1)));
    } else {
        assert(init =~= Seq::<Seq<u8>>::empty());
        assert(parts.skip(1) =~= Seq::<Seq<u8>>::empty());
        assert(flat(parts) =~= parts[0] + flat(parts.skip(1)));
    }
}

/// The content of a context is what its content key opens: the whole payload, or the
/// chunks of its frames one after the other.
pub proof fn law_content(ctx: &DecryptContext, r: Result<Vec<u8>, ()>)
    requires
        call_ensures(decrypt_content, (ctx,), r),
    ensures
        !ctx@.parsed.stream ==> match r {
            Ok(p) => whole_text(ctx@.parsed, ctx@.cek) == Some(p@),
            Err(_) => whole_text(ctx@.parsed, ctx@.cek) is None,
        },
        ctx@.parsed.stream && r is Ok ==> exists|
            bodies: Seq<Seq<u8>>,
            chunks: Seq<Seq<u8>>,
            more: Seq<u8>,
        | #[trigger]
            stream_text(ctx@.parsed, ctx@.rc, ctx@.cek, bodies, chunks, more) && (r->Ok_0)@ == flat(
                chunks,
            ),
        ctx@.parsed.stream && r is Err ==> forall|
            bodies: Seq<Seq<u8>>,
            chunks: Seq<Seq<u8>>,
            more: Seq<u8>,
        |
            !#[trigger] stream_text(ctx@.parsed, ctx@.rc, ctx@.cek, bodies, chunks, more),
{
    let v = ctx@.parsed;
    lemma_payload_aad(v.enc_ecdh, v.nonce, v.recipients_blob, v.stream);
    if v.stream {
        lemma_stream_text(ctx@);
        if r is Ok {
            let (chunks, n) = decrypt::stream_content(ctx@)->0;
            lemma_joined(chunks);
        }
    }
}

/// Bytes decrypt exactly when they give the secret a content key, the key opens the
/// payload, and the status of the signature can be told.
pub proof fn law_decrypt(
    bytes: &[u8],
    arm: &str,
    pass: &str,
    expected: Option<&str>,
    ctx: Result<DecryptContext, ()>,
    c: &DecryptContext,
    content: Result<Vec<u8>, ()>,
    status: Result<i32, ()>,
    r: Result<(Vec<u8>, i32), ()>,
)
    requires
        call_ensures(build_decrypt_context, (bytes, arm, pass), ctx),
        ctx is Ok ==> (ctx->Ok_0)@ == c@,
        call_ensures(decrypt_content, (c,), content),
        call_ensures(verify_signature_status, (c, expected), status),
        call_ensures(decrypt_binary, (bytes, arm, pass, expected), r) || call_ensures(
            decrypt_raw,
            (bytes, arm, pass, expected),
            r,
        ),
    ensures
        r is Ok <==> ctx is Ok && content is Ok && status is Ok,
        r matches Ok(d) ==> d.0@ == (content->Ok_0)@ && d.1 == status->Ok_0,
{
}

/// Text decrypts exactly when it is UTF-8 armor whose envelope does, and to the same;
/// but to who expects a signature, one that cannot be read is invalid.
pub proof fn law_decrypt_text(
    bytes: &[u8],
    text: &str,
    arm: &str,
    pass: &str,
    expected: Option<&str>,
    m: Result<ParsedMsg, ()>,
    binary: Result<Vec<u8>, ()>,
    b: &[u8],
    raw: Result<(Vec<u8>, i32), ()>,
    r: Result<(Vec<u8>, i32), ()>,
)
    requires
        valid_utf8(bytes@) ==> text@ == decode_utf8(bytes@),
        call_ensures(parse_message, (text,), m),
        call_ensures(binary_from_armor, (text,), binary),
        binary is Ok ==> b@ == (binary->Ok_0)@,
        call_ensures(decrypt_raw, (b, arm, pass, expected), raw),
        call_ensures(decrypt::decrypt, (bytes, arm, pass, expected), r),
    ensures
        r is Ok <==> valid_utf8(bytes@) && binary is Ok && raw is Ok,
        r matches Ok(d) ==> {
            &&& d.0@ == (raw->Ok_0).0@
            &&& d.1 == if expected is Some && (m matches Ok(x) && (x@.signature matches Some(s)
                && s.len() == 0)) {
                2
            } else {
                (raw->Ok_0).1
            }
        },
{
    if r is Ok && m is Ok {
        let x = (m->Ok_0)@;
        if x.signature is Some && (x.signature->0).len() == 0 {
            assert(x.signature->0 =~= Seq::<u8>::empty());
        }
    }
}

} // verus!
