//! Streaming payloads: frames of independently encrypted chunks, the running
//! digest over them, and the signature trailer.
//!
//! ```text
//! frame:   u32 length of body, nonce (24), body: ciphertext and tag
//! end:     u32 0xFFFFFFFF
//! trailer: magic (32), u32 length, signature
//! ```
//!
//! Nothing is ever sought back to: a payload can be written to and read from a
//! pipe, one chunk at a time.

use vstd::prelude::*;
use vstd::slice::*;
use vstd::string::*;

use crate::constants::{
    STREAM_NONCE_INFO_LABEL, TAG_LEN, TRAILER_HEAD_LEN, TRAILER_MAGIC, TRAILER_SENTINEL_LEN,
};
use crate::context::{EncryptHandshake, HandshakeView};
use crate::crypto;
use crate::crypto::{
    ct_eq, hasher_finalize, hasher_new, hasher_update, hkdf_derive, xchacha20poly1305_open,
    xchacha20poly1305_seal, Hasher,
};
use crate::sink::{refused_at, refused_one, took_all, Sink};
use crate::transcript;
use crate::transcript::aad_for;
use crate::util;
use crate::util::{array_24, be_bytes, be_value};

verus! {

/// The nonce of a chunk: derived from content key, commitment and chunk index.
pub open spec fn chunk_nonce(cek: Seq<u8>, rc: Seq<u8>, index: int) -> Seq<u8> {
    crypto::hkdf_sha256(
        rc,
        cek,
        STREAM_NONCE_INFO_LABEL.spec_bytes() + util::be32(index),
        24,
    )
}

/// Derives the nonce of a chunk.
pub fn derive_chunk_nonce(cek: &[u8; 32], rc: &[u8; 32], chunk_index: u32) -> (nonce: [u8; 24])
    ensures
        nonce@ == chunk_nonce(cek@, rc@, chunk_index as int),
{
    let mut info: Vec<u8> = slice_to_vec(STREAM_NONCE_INFO_LABEL.as_bytes());
    info.extend_from_slice(be_bytes(chunk_index).as_slice());
    assert(info@ =~= STREAM_NONCE_INFO_LABEL.spec_bytes() + util::be32(chunk_index as int));
    let okm: Vec<u8> = match hkdf_derive(rc.as_slice(), cek.as_slice(), info.as_slice(), 24) {
        Ok(o) => o,
        Err(_) => Vec::new(),
    };
    array_24(okm.as_slice())
}

/// A frame: length, nonce and body.
pub open spec fn frame_bytes(nonce: Seq<u8>, body: Seq<u8>) -> Seq<u8> {
    util::be32(body.len() as int) + nonce + body
}

/// The additional data of a handshake's chunks.
pub open spec fn handshake_aad(hs: HandshakeView) -> Seq<u8> {
    transcript::content_aad(hs.enc_ecdh, hs.nonce, hs.recipients_blob, hs.stream_on)
}

/// The body of the frame of a chunk.
pub open spec fn chunk_body(hs: HandshakeView, index: int, chunk: Seq<u8>) -> Seq<u8> {
    crypto::xchacha_seal(hs.cek, chunk_nonce(hs.cek, hs.rc, index), handshake_aad(hs), chunk)
}

/// The frame of a chunk.
pub open spec fn chunk_frame(hs: HandshakeView, index: int, chunk: Seq<u8>) -> Seq<u8> {
    frame_bytes(chunk_nonce(hs.cek, hs.rc, index), chunk_body(hs, index, chunk))
}

/// The frames of chunks, one after the other.
pub open spec fn frames_of(hs: HandshakeView, chunks: Seq<Seq<u8>>) -> Seq<u8>
    decreases chunks.len(),
{
    if chunks.len() == 0 {
        seq![]
    } else {
        frames_of(hs, chunks.drop_last()) + chunk_frame(hs, chunks.len() - 1, chunks.last())
    }
}

/// Whether the frame of a chunk opens to the chunk.
pub open spec fn chunk_opens(hs: HandshakeView, index: int, chunk: Seq<u8>) -> bool {
    &&& chunk_body(hs, index, chunk).len() == chunk.len() + TAG_LEN
    &&& chunk_nonce(hs.cek, hs.rc, index).len() == 24
    &&& crypto::xchacha_open(
        hs.cek,
        chunk_nonce(hs.cek, hs.rc, index),
        handshake_aad(hs),
        chunk_body(hs, index, chunk),
    ) == Some(chunk)
}

/// Whether the frames of chunks open to the chunks.
pub open spec fn chunks_open(hs: HandshakeView, chunks: Seq<Seq<u8>>) -> bool {
    forall|i: int| 0 <= i < chunks.len() ==> chunk_opens(hs, i, #[trigger] chunks[i])
}

/// Whether a chunk fits a frame: its body is shorter than the end marker says.
pub open spec fn chunk_fits(chunk: Seq<u8>) -> bool {
    chunk.len() + TAG_LEN < TRAILER_SENTINEL_LEN
}

/// A plaintext cut into chunks of the given size; the last one may be shorter.
pub open spec fn chunks_of(pt: Seq<u8>, size: nat) -> Seq<Seq<u8>>
    decreases pt.len(),
{
    if pt.len() == 0 || size == 0 {
        seq![]
    } else if pt.len() <= size {
        seq![pt]
    } else {
        seq![pt.take(size as int)] + chunks_of(pt.skip(size as int), size)
    }
}

/// A running SHA-256 digest.
pub struct RunningDigest {
    pub hasher: Hasher,
}

impl View for RunningDigest {
    type V = Seq<u8>;

    open spec fn view(&self) -> Seq<u8> {
        crypto::hashed(self.hasher)
    }
}

impl RunningDigest {
    /// A digest of nothing so far.
    pub fn new() -> (d: RunningDigest)
        ensures
            d@ == Seq::<u8>::empty(),
    {
        RunningDigest { hasher: hasher_new() }
    }

    /// Takes in more bytes.
    pub fn update(&mut self, data: &[u8])
        ensures
            final(self)@ == old(self)@ + data@,
    {
        hasher_update(&mut self.hasher, data);
    }

    /// The digest of all bytes taken in.
    pub fn finalize(self) -> (digest: [u8; 32])
        ensures
            digest@ == crypto::sha256(self@),
    {
        hasher_finalize(self.hasher)
    }
}

/// Encrypts one chunk into its frame. Fails exactly when the chunk does not fit a
/// frame.
pub fn seal_frame(hs: &EncryptHandshake, aad: &[u8], index: u32, chunk: &[u8]) -> (frame: Result<
    Vec<u8>,
    (),
>)
    requires
        aad@ == handshake_aad(hs@),
    ensures
        frame is Ok <==> chunk_fits(chunk@),
        frame matches Ok(f) ==> f@ == chunk_frame(hs@, index as int, chunk@) && chunk_opens(
            hs@,
            index as int,
            chunk@,
        ),
{
    if chunk.len() as u64 >= TRAILER_SENTINEL_LEN as u64 - TAG_LEN as u64 {
        return Err(());
    }
    let nonce: [u8; 24] = derive_chunk_nonce(hs.cek(), &hs.rc, index);
    let body: Vec<u8> = match xchacha20poly1305_seal(hs.cek(), &nonce, aad, chunk) {
        Ok(b) => b,
        Err(_) => {
            return Err(());
        },
    };
    let mut frame: Vec<u8> = Vec::new();
    frame.extend_from_slice(be_bytes(body.len() as u32).as_slice());
    frame.extend_from_slice(nonce.as_slice());
    frame.extend_from_slice(body.as_slice());
    assert(frame@ =~= chunk_frame(hs@, index as int, chunk@));
    Ok(frame)
}

/// Whether all chunks can be sent: each fits a frame, and a 32-bit index can count
/// them.
pub open spec fn chunks_fit(chunks: Seq<Seq<u8>>) -> bool {
    &&& chunks.len() <= u32::MAX
    &&& forall|i: int| 0 <= i < chunks.len() ==> chunk_fits(#[trigger] chunks[i])
}

/// The first chunk of a plaintext, and the rest.
proof fn lemma_chunks_step(pt: Seq<u8>, size: nat)
    requires
        pt.len() > 0,
        size > 0,
    ensures
        ({
            let n = if pt.len() <= size { pt.len() as int } else { size as int };
            chunks_of(pt, size) == seq![pt.take(n)] + chunks_of(pt.skip(n), size)
        }),
{
    if pt.len() <= size {
        let n = pt.len() as int;
        assert(pt.take(n) =~= pt);
        assert(pt.skip(n) =~= Seq::<u8>::empty());
        assert(seq![pt] + chunks_of(pt.skip(n), size) =~= seq![pt]);
    }
}

/// Where the chunk at `index` stands in a plaintext, and what follows it.
proof fn lemma_next_chunk(
    pt: Seq<u8>,
    size: nat,
    chunks: Seq<Seq<u8>>,
    pos: int,
    index: int,
    len: int,
)
    requires
        size > 0,
        0 <= pos < pt.len(),
        0 <= index <= chunks.len(),
        chunks.skip(index) == chunks_of(pt.skip(pos), size),
        len == (if pt.len() - pos < size {
            pt.len() - pos
        } else {
            size as int
        }),
    ensures
        index < chunks.len(),
        chunks[index] == pt.subrange(pos, pos + len),
        chunks.skip(index + 1) == chunks_of(pt.skip(pos + len), size),
{
    let rest = pt.skip(pos);
    let tail = chunks_of(pt.skip(pos + len), size);
    lemma_chunks_step(rest, size);
    assert(rest.take(len) =~= pt.subrange(pos, pos + len));
    assert(rest.skip(len) =~= pt.skip(pos + len));
    let all = seq![rest.take(len)] + tail;
    assert(chunks.skip(index) == all);
    assert(chunks.skip(index).len() == 1 + tail.len());
    assert(chunks[index] == all[0]);
    assert(chunks.skip(index + 1) =~= all.skip(1));
    assert(all.skip(1) =~= tail);
}

/// Encrypts a plaintext in chunks and appends the frames to `out`.
fn append_frames(hs: &EncryptHandshake, pt: &[u8], out: &mut Vec<u8>, chunk_size: usize) -> (r:
    Result<(), ()>)
    ensures
        r is Ok <==> chunks_fit(chunks_of(pt@, chunk_size as nat)),
        r is Ok ==> {
            &&& final(out)@ == old(out)@ + frames_of(hs@, chunks_of(pt@, chunk_size as nat))
            &&& chunks_open(hs@, chunks_of(pt@, chunk_size as nat))
        },
        r is Err ==> exists|k: int|
            0 <= k <= chunks_of(pt@, chunk_size as nat).len() && final(out)@ == old(out)@
                + frames_of(hs@, #[trigger] chunks_of(pt@, chunk_size as nat).take(k)),
{
    let ghost chunks = chunks_of(pt@, chunk_size as nat);
    let ghost before = out@;
    let n: usize = pt.len();
    let aad: Vec<u8> = aad_for(
        &hs.enc_ecdh,
        &hs.nonce,
        hs.recipients_blob.as_slice(),
        hs.stream_on,
    );
    let mut pos: usize = 0;
    let mut index: u32 = 0;
    proof {
        assert(pt@.skip(0) =~= pt@);
        assert(chunks.skip(0) =~= chunks);
        assert(chunks.take(0) =~= Seq::<Seq<u8>>::empty());
        assert(out@ =~= before + frames_of(hs@, chunks.take(0)));
    }
    while chunk_size > 0 && pos < n
        invariant
            n == pt@.len(),
            pos <= n,
            chunks == chunks_of(pt@, chunk_size as nat),
            index <= chunks.len(),
            chunk_size > 0 ==> chunks.skip(index as int) == chunks_of(
                pt@.skip(pos as int),
                chunk_size as nat,
            ),
            chunk_size == 0 ==> index == 0,
            aad@ == handshake_aad(hs@),
            before == old(out)@,
            out@ == before + frames_of(hs@, chunks.take(index as int)),
            forall|i: int|
                0 <= i < index ==> chunk_opens(hs@, i, #[trigger] chunks[i]) && chunk_fits(
                    chunks[i],
                ),
        decreases n - pos,
    {
        let len: usize = if n - pos < chunk_size {
            n - pos
        } else {
            chunk_size
        };
        let chunk: &[u8] = slice_subrange(pt, pos, pos + len);
        proof {
            lemma_next_chunk(
                pt@,
                chunk_size as nat,
                chunks,
                pos as int,
                index as int,
                len as int,
            );
        }
        let frame: Vec<u8> = match seal_frame(hs, aad.as_slice(), index, chunk) {
            Ok(f) => f,
            Err(_) => {
                return Err(());
            },
        };
        out.extend_from_slice(frame.as_slice());
        proof {
            let next = chunks.take(index + 1);
            assert(next.drop_last() =~= chunks.take(index as int));
            assert(out@ =~= before + frames_of(hs@, next));
        }
        pos = pos + len;
        if index == u32::MAX {
            return Err(());
        }
        index = index + 1;
    }
    proof {
        if chunk_size > 0 {
            assert(chunks.skip(index as int).len() == 0);
        }
        assert(chunks.take(chunks.len() as int) =~= chunks);
    }
    Ok(())
}

/// Encrypts a plaintext in chunks and appends the frames to `out_payload`. If a
/// digest is given, it takes in exactly the bytes that are appended.
///
/// Fails exactly when a chunk does not fit a frame or there are more chunks than
/// a 32-bit index can count. What was appended by then are frames of the first
/// chunks.
pub fn encrypt_stream_chunks(
    hs: &EncryptHandshake,
    pt: &[u8],
    out_payload: &mut Vec<u8>,
    chunk_size: usize,
    digest_opt: Option<&mut RunningDigest>,
) -> (r: Result<(), ()>)
    ensures
        r is Ok <==> chunks_fit(chunks_of(pt@, chunk_size as nat)),
        r is Ok ==> {
            &&& final(out_payload)@ == old(out_payload)@ + frames_of(
                hs@,
                chunks_of(pt@, chunk_size as nat),
            )
            &&& chunks_open(hs@, chunks_of(pt@, chunk_size as nat))
        },
        r is Err ==> exists|k: int|
            0 <= k <= chunks_of(pt@, chunk_size as nat).len() && final(out_payload)@ == old(
                out_payload,
            )@ + frames_of(hs@, #[trigger] chunks_of(pt@, chunk_size as nat).take(k)),
        digest_opt matches Some(d) ==> (*final(d))@ == (*d)@ + final(out_payload)@.skip(
            old(out_payload)@.len() as int,
        ),
{
    let start: usize = out_payload.len();
    let ghost before = out_payload@;
    let r: Result<(), ()> = append_frames(hs, pt, out_payload, chunk_size);
    if let Some(d) = digest_opt {
        d.update(slice_subrange(out_payload.as_slice(), start, out_payload.len()));
    }
    r
}

// ----------------------------------------------------------------------
// Reading frames
// ----------------------------------------------------------------------

/// The chunk of the frame that `s` begins with, and the length of the frame, where
/// it is frame number `index` of its payload. There is none where the frame is cut
/// off or shorter than a tag, where its nonce is that of another place, or where its
/// body does not open.
pub open spec fn first_frame(
    cek: Seq<u8>,
    rc: Seq<u8>,
    aad: Seq<u8>,
    index: int,
    s: Seq<u8>,
) -> Option<(Seq<u8>, int)> {
    let n = util::be32_value(s.take(4));
    if s.len() < 4 || n < TAG_LEN || n == TRAILER_SENTINEL_LEN || s.len() < 28 + n {
        None
    } else if index >= u32::MAX || s.subrange(4, 28) != chunk_nonce(cek, rc, index) {
        None
    } else {
        match crypto::xchacha_open(cek, s.subrange(4, 28), aad, s.subrange(28, 28 + n)) {
            Some(chunk) => Some((chunk, 28 + n)),
            None => None,
        }
    }
}

/// The chunks that the frames at the beginning of `s` open to, up to the end
/// marker, and the length of those frames. The first of them is number `index` of
/// its payload. There are none where the end marker is missing or a frame before it
/// is not intact and in its place.
///
/// The end marker itself is not authenticated: only a signature tells that no frames
/// are missing before it.
pub open spec fn opened_frames(
    cek: Seq<u8>,
    rc: Seq<u8>,
    aad: Seq<u8>,
    index: int,
    s: Seq<u8>,
) -> Option<(Seq<Seq<u8>>, int)>
    decreases s.len(),
{
    if s.len() >= 4 && util::be32_value(s.take(4)) == TRAILER_SENTINEL_LEN {
        Some((seq![], 0))
    } else {
        match first_frame(cek, rc, aad, index, s) {
            Some((chunk, n)) => match opened_frames(cek, rc, aad, index + 1, s.skip(n)) {
                Some((chunks, len)) => Some((seq![chunk] + chunks, n + len)),
                None => None,
            },
            None => None,
        }
    }
}

/// The chunks of the frames at the beginning of `s` that are intact and in their
/// place, whatever follows them.
pub open spec fn authentic_chunks(
    cek: Seq<u8>,
    rc: Seq<u8>,
    aad: Seq<u8>,
    index: int,
    s: Seq<u8>,
) -> Seq<Seq<u8>>
    decreases s.len(),
{
    match first_frame(cek, rc, aad, index, s) {
        Some((chunk, n)) => seq![chunk] + authentic_chunks(cek, rc, aad, index + 1, s.skip(n)),
        None => seq![],
    }
}

/// The chunks that a payload opens to are its authentic chunks.
pub proof fn lemma_opened_authentic(
    cek: Seq<u8>,
    rc: Seq<u8>,
    aad: Seq<u8>,
    index: int,
    s: Seq<u8>,
)
    ensures
        opened_frames(cek, rc, aad, index, s) matches Some(o) ==> o.0 == authentic_chunks(
            cek,
            rc,
            aad,
            index,
            s,
        ),
    decreases s.len(),
{
    match first_frame(cek, rc, aad, index, s) {
        Some((_, n)) => {
            lemma_opened_authentic(cek, rc, aad, index + 1, s.skip(n));
        },
        None => {},
    }
}

/// The frames of the chunks from `i` on.
spec fn frames_from(hs: HandshakeView, chunks: Seq<Seq<u8>>, i: int) -> Seq<u8>
    decreases chunks.len() - i,
{
    if i >= chunks.len() {
        seq![]
    } else {
        chunk_frame(hs, i, chunks[i]) + frames_from(hs, chunks, i + 1)
    }
}

proof fn lemma_frames_from(hs: HandshakeView, chunks: Seq<Seq<u8>>, i: int)
    requires
        0 <= i <= chunks.len(),
    ensures
        frames_of(hs, chunks.take(i)) + frames_from(hs, chunks, i) == frames_of(hs, chunks),
    decreases chunks.len() - i,
{
    if i < chunks.len() {
        lemma_frames_from(hs, chunks, i + 1);
        assert(chunks.take(i + 1).drop_last() =~= chunks.take(i));
        assert(frames_of(hs, chunks.take(i)) + frames_from(hs, chunks, i) =~= frames_of(
            hs,
            chunks.take(i + 1),
        ) + frames_from(hs, chunks, i + 1));
    } else {
        assert(chunks.take(i) =~= chunks);
        assert(frames_of(hs, chunks) + frames_from(hs, chunks, i) =~= frames_of(hs, chunks));
    }
}

/// The frame of a chunk, with more behind it, is a first frame.
proof fn lemma_frame_first(hs: HandshakeView, i: int, chunk: Seq<u8>, rest: Seq<u8>)
    requires
        0 <= i < u32::MAX,
        chunk_opens(hs, i, chunk),
        chunk_fits(chunk),
    ensures
        ({
            let frame = chunk_frame(hs, i, chunk);
            let s = frame + rest;
            &&& s.len() >= 4
            &&& util::be32_value(s.take(4)) != TRAILER_SENTINEL_LEN
            &&& first_frame(hs.cek, hs.rc, handshake_aad(hs), i, s) == Some(
                (chunk, frame.len() as int),
            )
            &&& s.skip(frame.len() as int) == rest
        }),
{
    let body = chunk_body(hs, i, chunk);
    let nonce = chunk_nonce(hs.cek, hs.rc, i);
    let n = body.len() as int;
    let s = chunk_frame(hs, i, chunk) + rest;
    util::lemma_be32(n, seq![]);
    assert(s.take(4) =~= util::be32(n));
    assert(s.subrange(4, 28) =~= nonce);
    assert(s.subrange(28, 28 + n) =~= body);
    assert(s.skip(28 + n) =~= rest);
}

/// Four pieces, however they are grouped.
proof fn lemma_grouped(a: Seq<u8>, b: Seq<u8>, c: Seq<u8>, d: Seq<u8>)
    ensures
        (a + b) + c + d == a + (b + c + d),
{
    assert((a + b) + c + d =~= a + (b + c + d));
}

/// An end marker, with more behind it, opens to no chunks.
proof fn lemma_end_marker(cek: Seq<u8>, rc: Seq<u8>, aad: Seq<u8>, index: int, tail: Seq<u8>)
    ensures
        opened_frames(cek, rc, aad, index, util::be32(TRAILER_SENTINEL_LEN as int) + tail) == Some(
            (Seq::<Seq<u8>>::empty(), 0int),
        ),
{
    let end = util::be32(TRAILER_SENTINEL_LEN as int);
    util::lemma_be32(TRAILER_SENTINEL_LEN as int, seq![]);
    assert((end + tail).take(4) =~= end);
}

/// The frame of a chunk, with more behind it, opens to the chunk and what the rest
/// opens to.
proof fn lemma_frame_then(hs: HandshakeView, i: int, chunk: Seq<u8>, rest: Seq<u8>)
    requires
        0 <= i < u32::MAX,
        chunk_opens(hs, i, chunk),
        chunk_fits(chunk),
    ensures
        ({
            let frame = chunk_frame(hs, i, chunk);
            let aad = handshake_aad(hs);
            opened_frames(hs.cek, hs.rc, aad, i, frame + rest) == match opened_frames(
                hs.cek,
                hs.rc,
                aad,
                i + 1,
                rest,
            ) {
                Some((chunks, len)) => Some((seq![chunk] + chunks, frame.len() + len)),
                None => None,
            }
        }),
{
    lemma_frame_first(hs, i, chunk, rest);
}

proof fn lemma_frames_from_open(hs: HandshakeView, chunks: Seq<Seq<u8>>, i: int, tail: Seq<u8>)
    requires
        0 <= i <= chunks.len(),
        chunks_open(hs, chunks),
        chunks_fit(chunks),
    ensures
        opened_frames(
            hs.cek,
            hs.rc,
            handshake_aad(hs),
            i,
            frames_from(hs, chunks, i) + util::be32(TRAILER_SENTINEL_LEN as int) + tail,
        ) == Some((chunks.skip(i), frames_from(hs, chunks, i).len() as int)),
    decreases chunks.len() - i,
{
    let end = util::be32(TRAILER_SENTINEL_LEN as int);
    let s = frames_from(hs, chunks, i) + end + tail;
    if i < chunks.len() {
        let rest = frames_from(hs, chunks, i + 1) + end + tail;
        assert(chunk_opens(hs, i, chunks[i]));
        assert(chunk_fits(chunks[i]));
        lemma_frames_from_open(hs, chunks, i + 1, tail);
        lemma_frame_then(hs, i, chunks[i], rest);
        lemma_grouped(chunk_frame(hs, i, chunks[i]), frames_from(hs, chunks, i + 1), end, tail);
        assert(s == chunk_frame(hs, i, chunks[i]) + rest);
        assert(seq![chunks[i]] + chunks.skip(i + 1) =~= chunks.skip(i));
    } else {
        lemma_end_marker(hs.cek, hs.rc, handshake_aad(hs), i, tail);
        assert(s =~= end + tail);
        assert(chunks.skip(i) =~= Seq::<Seq<u8>>::empty());
    }
}

/// Frames that were made of chunks open to those chunks, whatever follows the end
/// marker.
pub proof fn lemma_frames_roundtrip(hs: HandshakeView, chunks: Seq<Seq<u8>>, tail: Seq<u8>)
    requires
        chunks_open(hs, chunks),
        chunks_fit(chunks),
    ensures
        opened_frames(
            hs.cek,
            hs.rc,
            handshake_aad(hs),
            0,
            frames_of(hs, chunks) + util::be32(TRAILER_SENTINEL_LEN as int) + tail,
        ) == Some((chunks, frames_of(hs, chunks).len() as int)),
{
    lemma_frames_from(hs, chunks, 0);
    lemma_frames_from_open(hs, chunks, 0, tail);
    assert(chunks.take(0) =~= Seq::<Seq<u8>>::empty());
    assert(frames_of(hs, chunks.take(0)) + frames_from(hs, chunks, 0) =~= frames_from(
        hs,
        chunks,
        0,
    ));
    assert(chunks.skip(0) =~= chunks);
}

/// Behind the frames of chunks, whatever follows opens as it would alone, with the
/// number of the chunks as its first index.
proof fn lemma_behind_frames(hs: HandshakeView, chunks: Seq<Seq<u8>>, i: int, rest: Seq<u8>)
    requires
        0 <= i <= chunks.len(),
        chunks_open(hs, chunks),
        chunks_fit(chunks),
    ensures
        opened_frames(hs.cek, hs.rc, handshake_aad(hs), i, frames_from(hs, chunks, i) + rest)
            is Some ==> opened_frames(
            hs.cek,
            hs.rc,
            handshake_aad(hs),
            chunks.len() as int,
            rest,
        ) is Some,
    decreases chunks.len() - i,
{
    let s = frames_from(hs, chunks, i) + rest;
    if i < chunks.len() {
        let more = frames_from(hs, chunks, i + 1) + rest;
        assert(chunk_opens(hs, i, chunks[i]));
        assert(chunk_fits(chunks[i]));
        lemma_behind_frames(hs, chunks, i + 1, rest);
        lemma_frame_then(hs, i, chunks[i], more);
        assert(s =~= chunk_frame(hs, i, chunks[i]) + more);
    } else {
        assert(s =~= rest);
    }
}

/// A frame that carries the nonce of another place makes the whole payload fail.
/// Where frames were reordered or repeated, or left out before others, such a frame
/// stands where the payload first differs.
pub proof fn lemma_misplaced_frame(
    hs: HandshakeView,
    chunks: Seq<Seq<u8>>,
    nonce: Seq<u8>,
    body: Seq<u8>,
    rest: Seq<u8>,
)
    requires
        chunks_open(hs, chunks),
        chunks_fit(chunks),
        nonce.len() == 24,
        TAG_LEN <= body.len() < TRAILER_SENTINEL_LEN,
        nonce != chunk_nonce(hs.cek, hs.rc, chunks.len() as int),
    ensures
        opened_frames(
            hs.cek,
            hs.rc,
            handshake_aad(hs),
            0,
            frames_of(hs, chunks) + frame_bytes(nonce, body) + rest,
        ) is None,
{
    let n = body.len() as int;
    let s = frame_bytes(nonce, body) + rest;
    util::lemma_be32(n, seq![]);
    assert(s.take(4) =~= util::be32(n));
    assert(s.subrange(4, 28) =~= nonce);
    lemma_frames_from(hs, chunks, 0);
    lemma_behind_frames(hs, chunks, 0, s);
    assert(chunks.take(0) =~= Seq::<Seq<u8>>::empty());
    assert(frames_of(hs, chunks) + frame_bytes(nonce, body) + rest =~= frames_from(hs, chunks, 0)
        + s);
}

/// Chunks of a plaintext, joined.
pub open spec fn joined(chunks: Seq<Seq<u8>>) -> Seq<u8>
    decreases chunks.len(),
{
    if chunks.len() == 0 {
        seq![]
    } else {
        chunks[0] + joined(chunks.skip(1))
    }
}

/// A plaintext is its chunks, joined.
pub proof fn lemma_chunks_joined(pt: Seq<u8>, size: nat)
    requires
        size > 0,
    ensures
        joined(chunks_of(pt, size)) == pt,
    decreases pt.len(),
{
    let chunks = chunks_of(pt, size);
    if pt.len() == 0 {
        assert(joined(chunks) =~= pt);
    } else if pt.len() <= size {
        assert(chunks.skip(1) =~= Seq::<Seq<u8>>::empty());
        assert(joined(chunks.skip(1)) =~= Seq::<u8>::empty());
        assert(joined(chunks) =~= pt);
    } else {
        lemma_chunks_joined(pt.skip(size as int), size);
        assert(chunks.skip(1) =~= chunks_of(pt.skip(size as int), size));
        assert(joined(chunks) =~= pt);
    }
}

/// What the length field of a frame says.
#[derive(Clone, Copy)]
pub enum FrameHead {
    /// The end marker.
    End,
    /// A body of this many bytes, behind its nonce.
    Body(usize),
}

/// Reads the length field of a frame. Fails exactly when a body would be shorter
/// than a tag.
pub fn parse_frame_head(len_bytes: &[u8]) -> (head: Result<FrameHead, ()>)
    requires
        len_bytes@.len() == 4,
    ensures
        head is Err <==> util::be32_value(len_bytes@) < TAG_LEN,
        head matches Ok(FrameHead::End) ==> util::be32_value(len_bytes@) == TRAILER_SENTINEL_LEN,
        head matches Ok(FrameHead::Body(n)) ==> n == util::be32_value(len_bytes@) && n
            < TRAILER_SENTINEL_LEN,
{
    let n: u32 = be_value(len_bytes);
    assert(len_bytes@.take(4) =~= len_bytes@);
    if n == TRAILER_SENTINEL_LEN {
        return Ok(FrameHead::End);
    }
    if (n as usize) < TAG_LEN {
        return Err(());
    }
    Ok(FrameHead::Body(n as usize))
}

/// Opens the body of a frame.
pub fn open_body(cek: &[u8; 32], aad: &[u8], nonce: &[u8], body: &[u8]) -> (chunk: Result<
    Vec<u8>,
    (),
>)
    requires
        nonce@.len() == 24,
        body@.len() < TRAILER_SENTINEL_LEN,
    ensures
        match chunk {
            Ok(c) => crypto::xchacha_open(cek@, nonce@, aad@, body@) == Some(c@),
            Err(_) => crypto::xchacha_open(cek@, nonce@, aad@, body@) is None,
        },
{
    xchacha20poly1305_open(cek, &array_24(nonce), aad, body)
}

/// Whether a nonce is that of the chunk with the given index. There is no nonce for
/// the last index, which no chunk has.
pub fn is_chunk_nonce(cek: &[u8; 32], rc: &[u8; 32], index: u32, nonce: &[u8]) -> (r: bool)
    ensures
        r == (index < u32::MAX && nonce@ == chunk_nonce(cek@, rc@, index as int)),
{
    index < u32::MAX && ct_eq(nonce, derive_chunk_nonce(cek, rc, index).as_slice())
}

/// Opens the frame at `pos`, which is frame number `index` of the payload: nothing
/// at the end marker, else the chunk and the position behind the frame.
pub fn open_frame_at(
    cek: &[u8; 32],
    rc: &[u8; 32],
    aad: &[u8],
    index: u32,
    s: &[u8],
    pos: usize,
) -> (r: Result<Option<(Vec<u8>, usize)>, ()>)
    requires
        pos <= s@.len(),
    ensures
        ({
            let t = s@.skip(pos as int);
            match r {
                Ok(Some(f)) => {
                    &&& pos + 28 <= f.1 <= s@.len()
                    &&& index < u32::MAX
                    &&& first_frame(cek@, rc@, aad@, index as int, t) == Some((f.0@, f.1 - pos))
                    &&& t.skip(f.1 - pos) == s@.skip(f.1 as int)
                    &&& util::be32_value(t.take(4)) != TRAILER_SENTINEL_LEN
                },
                Ok(None) => t.len() >= 4 && util::be32_value(t.take(4)) == TRAILER_SENTINEL_LEN,
                Err(_) => {
                    &&& first_frame(cek@, rc@, aad@, index as int, t) is None
                    &&& opened_frames(cek@, rc@, aad@, index as int, t) is None
                },
            }
        }),
{
    let ghost t = s@.skip(pos as int);
    if s.len() - pos < 4 {
        return Err(());
    }
    let head: Result<FrameHead, ()> = parse_frame_head(slice_subrange(s, pos, pos + 4));
    assert(t.take(4) =~= s@.subrange(pos as int, pos + 4));
    let n: usize = match head {
        Ok(FrameHead::End) => {
            return Ok(None);
        },
        Ok(FrameHead::Body(n)) => n,
        Err(_) => {
            return Err(());
        },
    };
    if s.len() - pos < 28 || s.len() - pos - 28 < n {
        return Err(());
    }
    let nonce: &[u8] = slice_subrange(s, pos + 4, pos + 28);
    let body: &[u8] = slice_subrange(s, pos + 28, pos + 28 + n);
    proof {
        assert(t.subrange(4, 28) =~= nonce@);
        assert(t.subrange(28, 28 + n) =~= body@);
        assert(t.skip(28 + n) =~= s@.skip(pos + 28 + n));
    }
    if !is_chunk_nonce(cek, rc, index, nonce) {
        return Err(());
    }
    match open_body(cek, aad, nonce, body) {
        Ok(chunk) => Ok(Some((chunk, pos + 28 + n))),
        Err(_) => Err(()),
    }
}

// ----------------------------------------------------------------------
// The signature trailer
// ----------------------------------------------------------------------

/// The end marker and the signature trailer.
pub open spec fn trailer_bytes(signature: Seq<u8>) -> Seq<u8> {
    util::be32(TRAILER_SENTINEL_LEN as int) + TRAILER_MAGIC@ + util::be32(signature.len() as int)
        + signature
}

/// The signature of the trailer that `s` is, what follows the end marker. Nothing
/// may follow the signature.
pub open spec fn trailer_signature(s: Seq<u8>) -> Option<Seq<u8>> {
    if s.len() >= TRAILER_HEAD_LEN && s.take(32) == TRAILER_MAGIC@ && s.len() == TRAILER_HEAD_LEN
        + util::be32_value(s.subrange(32, 36)) {
        Some(s.skip(36))
    } else {
        None
    }
}

/// A signature is read back from its trailer.
pub proof fn lemma_trailer_roundtrip(signature: Seq<u8>)
    requires
        signature.len() <= u32::MAX,
    ensures
        trailer_signature(trailer_bytes(signature).skip(4)) == Some(signature),
{
    let s = trailer_bytes(signature).skip(4);
    util::lemma_be32(signature.len() as int, seq![]);
    assert(s.take(32) =~= TRAILER_MAGIC@);
    assert(s.subrange(32, 36) =~= util::be32(signature.len() as int));
    assert(s.skip(36) =~= signature);
}

/// The end marker and the signature trailer. Fails exactly when the length of the
/// signature does not fit 32 bits.
pub fn signature_trailer(signature: &[u8]) -> (trailer: Result<Vec<u8>, ()>)
    ensures
        trailer is Ok <==> signature@.len() <= u32::MAX,
        trailer matches Ok(t) ==> t@ == trailer_bytes(signature@),
{
    if signature.len() as u64 > 0xFFFF_FFFF {
        return Err(());
    }
    let mut out: Vec<u8> = Vec::new();
    out.extend_from_slice(be_bytes(TRAILER_SENTINEL_LEN).as_slice());
    out.extend_from_slice(TRAILER_MAGIC.as_slice());
    out.extend_from_slice(be_bytes(signature.len() as u32).as_slice());
    out.extend_from_slice(signature);
    assert(out@ =~= trailer_bytes(signature@));
    Ok(out)
}

/// The parts in which the end marker and the signature trailer are written.
pub open spec fn trailer_parts(signature: Seq<u8>) -> Seq<Seq<u8>> {
    seq![
        util::be32(TRAILER_SENTINEL_LEN as int),
        TRAILER_MAGIC@,
        util::be32(signature.len() as int),
        signature,
    ]
}

/// The parts, joined, are the end marker and the signature trailer.
pub proof fn lemma_trailer_parts(signature: Seq<u8>)
    ensures
        joined(trailer_parts(signature)) == trailer_bytes(signature),
{
    let parts = trailer_parts(signature);
    reveal_with_fuel(joined, 5);
    assert(parts.skip(1).skip(1).skip(1).skip(1) =~= Seq::<Seq<u8>>::empty());
    assert(joined(parts) =~= trailer_bytes(signature));
}

/// Hands the end marker and the signature trailer to a sink, part by part, in order
/// and nothing else. Fails exactly when the length of the signature does not fit 32
/// bits, and then nothing is handed over, or when the sink refuses a part, which is
/// then the last one that is handed over.
pub fn write_signature_trailer<W: FnMut(&[u8]) -> Result<(), ()>>(
    output: &mut Sink<W>,
    signature: &[u8],
) -> (r: Result<(), ()>)
    requires
        old(output).ready(),
    ensures
        final(output).function() == old(output).function(),
        ({
            let parts = if signature@.len() <= u32::MAX {
                trailer_parts(signature@)
            } else {
                Seq::<Seq<u8>>::empty()
            };
            match r {
                Ok(_) => {
                    &&& signature@.len() <= u32::MAX
                    &&& took_all(*old(output), *final(output), parts)
                    &&& joined(
                        final(output).taken().skip(old(output).taken().len() as int),
                    ) == trailer_bytes(signature@)
                },
                Err(_) => {
                    ||| signature@.len() > u32::MAX && took_all(*old(output), *final(output), parts)
                    ||| refused_one(*old(output), *final(output), parts)
                },
            }
        }),
{
    let ghost before = *output;
    let ghost taken = output.taken();
    let ghost offered = output.offered();
    let ghost parts = trailer_parts(signature@);
    if signature.len() as u64 > 0xFFFF_FFFF {
        assert(taken + Seq::<Seq<u8>>::empty() =~= taken);
        assert(offered + Seq::<Seq<u8>>::empty() =~= offered);
        return Err(());
    }
    if output.take(be_bytes(TRAILER_SENTINEL_LEN).as_slice()).is_err() {
        proof {
            assert(output.taken() =~= taken + parts.take(0));
            assert(output.offered() =~= offered + parts.take(1));
            assert(refused_at(before, *output, parts, 0));
        }
        return Err(());
    }
    if output.take(TRAILER_MAGIC.as_slice()).is_err() {
        proof {
            assert(output.taken() =~= taken + parts.take(1));
            assert(output.offered() =~= offered + parts.take(2));
            assert(refused_at(before, *output, parts, 1));
        }
        return Err(());
    }
    if output.take(be_bytes(signature.len() as u32).as_slice()).is_err() {
        proof {
            assert(output.taken() =~= taken + parts.take(2));
            assert(output.offered() =~= offered + parts.take(3));
            assert(refused_at(before, *output, parts, 2));
        }
        return Err(());
    }
    if output.take(signature).is_err() {
        proof {
            assert(output.taken() =~= taken + parts.take(3));
            assert(output.offered() =~= offered + parts.take(4));
            assert(refused_at(before, *output, parts, 3));
        }
        return Err(());
    }
    proof {
        assert(output.taken() =~= taken + parts);
        assert(output.offered() =~= offered + parts);
        lemma_trailer_parts(signature@);
        assert(output.taken().skip(taken.len() as int) =~= parts);
    }
    Ok(())
}

} // verus!
