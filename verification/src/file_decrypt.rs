//! Decrypting a file that is read piece by piece.
//!
//! The caller reads preamble and header and hands them to
//! [`FileDecryptor::open`]. From then on [`FileDecryptor::need`] says how many
//! bytes to read next, and [`FileDecryptor::feed`] takes them and says what they
//! give: nothing yet, a chunk, or the signature status at the end.

use vstd::prelude::*;
use vstd::slice::*;

use crate::constants::{TAG_LEN, TRAILER_HEAD_LEN, TRAILER_MAGIC, TRAILER_SENTINEL_LEN};
use crate::context::{ContextView, DecryptContext};
use crate::crypto;
use crate::decrypt;
use crate::decrypt::{decrypt_content, parse_trailer_head, stream_status};
use crate::envelope;
use crate::envelope::{EnvelopeView, StreamFlag};
use crate::handshake;
use crate::handshake::build_decrypt_context;
use crate::keys;
use crate::streaming;
use crate::streaming::{is_chunk_nonce, open_body, parse_frame_head, FrameHead, RunningDigest};
use crate::transcript;
use crate::transcript::{aad_for, verify_signature_status};
use crate::util;
use crate::util::array_24;


verus! {

/// How much to read next.
#[derive(Debug, Clone, Copy, PartialEq, Eq, Structural)]
pub enum Need {
    /// Exactly this many bytes; it is an error if there are fewer.
    Exactly(usize),
    /// All that is left.
    Rest,
    /// One byte, if there is one: nothing should be left.
    End,
    /// Nothing: the file is read.
    Nothing,
}

/// What the bytes that were read give.
#[derive(Debug)]
pub enum FileEvent {
    /// Nothing yet.
    Wait,
    /// The next chunk of plaintext.
    Chunk(Vec<u8>),
    /// The signature status; the file is read.
    Done(i32),
}

/// Where in the payload the next bytes stand.
enum Stage {
    /// A whole payload is next.
    Whole,
    /// A whole payload was opened; its signature is to be checked.
    Checking,
    /// The length field of a frame is next.
    Length,
    /// The nonce of a frame is next; its length field is this.
    Nonce([u8; 4], usize),
    /// The body of a frame is next; its length field and nonce are these.
    Body([u8; 4], [u8; 24], usize),
    /// Magic and length of the trailer are next.
    TrailerHead,
    /// The trailer's signature of this many bytes is next.
    Signature(usize),
    /// Nothing should be left; the trailer's signature, if there is one, is to be
    /// checked.
    End(Option<Vec<u8>>),
    /// The file is read.
    Done,
}

/// What the next bytes of a file are.
pub enum Phase {
    /// A whole payload.
    Whole,
    /// None: a whole payload was opened, and its signature is to be checked.
    Checking,
    /// The length field of a frame, or the end marker.
    Length,
    /// The nonce of a frame whose body has this many bytes.
    Nonce(usize),
    /// The body of a frame, of this many bytes, under this nonce.
    Body(Seq<u8>, usize),
    /// Magic and length of the trailer.
    TrailerHead,
    /// The trailer's signature of this many bytes.
    Signature(usize),
    /// None: the payload has ended.
    End,
    /// None: the file is read.
    Done,
}

/// The decryption of a file in progress.
pub struct FileDecryptor {
    ctx: DecryptContext,
    aad: Vec<u8>,
    digest: Option<RunningDigest>,
    index: u32,
    stage: Stage,
    frames: Ghost<Seq<u8>>,
    seen: Ghost<Seq<u8>>,
    chunks: Ghost<Seq<Seq<u8>>>,
}

/// A context with another payload.
pub open spec fn with_payload(ctx: ContextView, payload: Seq<u8>) -> ContextView {
    ContextView { parsed: EnvelopeView { ct_and_tag: payload, ..ctx.parsed }, ..ctx }
}

/// Sixteen zero bytes, which stand for a payload that is not read yet.
pub open spec fn no_payload() -> Seq<u8> {
    Seq::new(TAG_LEN as nat, |i: int| 0u8)
}

/// The context that an armored secret gets from preamble and header of a file. Its
/// payload is left empty.
pub open spec fn head_context(head: Seq<u8>, arm: Seq<char>, pass: Seq<char>) -> Option<
    ContextView,
> {
    match handshake::context_of(head + no_payload(), arm, pass) {
        Some(ctx) => if ctx.parsed.ct_and_tag.len() == TAG_LEN {
            Some(with_payload(ctx, seq![]))
        } else {
            None
        },
        None => None,
    }
}

/// The context that preamble and header give is that of the file, whatever its
/// payload is.
pub proof fn lemma_head_context(head: Seq<u8>, payload: Seq<u8>, arm: Seq<char>, pass: Seq<char>)
    requires
        head_context(head, arm, pass) is Some,
        payload.len() >= TAG_LEN,
    ensures
        handshake::context_of(head + payload, arm, pass) == Some(
            with_payload(head_context(head, arm, pass)->0, payload),
        ),
{
    let bytes = head + no_payload();
    let p = envelope::parsed(bytes)->0;
    let q = EnvelopeView { ct_and_tag: payload, ..p };
    assert(envelope::is_envelope(bytes, p));
    let h = envelope::header_bytes(p.enc_ecdh, p.nonce, p.recipients_blob, p.signature, p.rc);
    let front = envelope::preamble_bytes(
        envelope::flags_of(p.stream, p.has_trailer),
        h.len() as int,
    ) + h;
    assert(bytes =~= front + p.ct_and_tag);
    assert(head =~= bytes.take(bytes.len() - TAG_LEN));
    assert(head =~= front);
    assert(envelope::envelope_bytes(q) =~= head + payload);
    envelope::lemma_envelope_roundtrip(q);
}

/// Preamble and header of an envelope.
pub open spec fn envelope_head(v: EnvelopeView) -> Seq<u8> {
    let header = envelope::header_bytes(v.enc_ecdh, v.nonce, v.recipients_blob, v.signature, v.rc);
    envelope::preamble_bytes(
        envelope::flags_of(v.stream, v.has_trailer),
        header.len() as int,
    ) + header
}

/// Preamble and header of an envelope give the context that the envelope gives. Its
/// payload may be as short as it likes.
pub proof fn lemma_envelope_head(v: EnvelopeView, ctx: ContextView, arm: Seq<char>, pass: Seq<char>)
    requires
        envelope::valid_envelope(EnvelopeView { ct_and_tag: no_payload(), ..v }),
        keys::unlocked(arm, pass) matches Some(sk) && handshake::context_for(v, sk) == Some(ctx),
    ensures
        envelope::envelope_bytes(v) == envelope_head(v) + v.ct_and_tag,
        head_context(envelope_head(v), arm, pass) matches Some(h) && with_payload(
            h,
            v.ct_and_tag,
        ) == ctx,
{
    let front = EnvelopeView { ct_and_tag: no_payload(), ..v };
    let head = envelope_head(v);
    assert(envelope::envelope_bytes(v) =~= head + v.ct_and_tag);
    assert(envelope::envelope_bytes(front) =~= head + no_payload());
    envelope::lemma_envelope_roundtrip(front);
}

/// Piece by piece or in memory, a file decrypts to the same chunks and status.
/// Left out are payloads shorter than a tag, which no envelope in memory has.
pub proof fn lemma_file_as_in_memory(
    head: Seq<u8>,
    payload: Seq<u8>,
    arm: Seq<char>,
    pass: Seq<char>,
    expected: Option<Seq<char>>,
)
    requires
        head_context(head, arm, pass) is Some,
        payload.len() >= TAG_LEN,
    ensures
        decrypt::streamed(head + payload, arm, pass, expected) == decrypt::opened_chunks(
            with_payload(head_context(head, arm, pass)->0, payload),
            expected,
        ),
{
    lemma_head_context(head, payload, arm, pass);
}

/// What the frames at the beginning of `s`, from number `index` on, open to.
spec fn opened_from(ctx: ContextView, index: int, s: Seq<u8>) -> Option<(Seq<Seq<u8>>, int)> {
    streaming::opened_frames(ctx.cek, ctx.rc, decrypt::context_aad(ctx), index, s)
}

/// Whether `chunks` are what the frames `frames` open to, whatever follows them.
spec fn opens_to(ctx: ContextView, frames: Seq<u8>, chunks: Seq<Seq<u8>>) -> bool {
    forall|rest: Seq<u8>|
        #[trigger] opened_from(ctx, 0, frames + rest) == decrypt::frames_after(
            chunks,
            frames.len() as int,
            opened_from(ctx, chunks.len() as int, rest),
        )
}

/// Whether the payload has ended: `chunks` are what `frames` open to, and an end
/// marker has followed them.
spec fn ended(ctx: ContextView, frames: Seq<u8>, marker: Seq<u8>, chunks: Seq<Seq<u8>>) -> bool {
    &&& opens_to(ctx, frames, chunks)
    &&& marker.len() == 4
    &&& util::be32_value(marker) == TRAILER_SENTINEL_LEN
}

/// One more frame.
proof fn lemma_frame_opens(
    ctx: ContextView,
    frames: Seq<u8>,
    chunks: Seq<Seq<u8>>,
    len: Seq<u8>,
    nonce: Seq<u8>,
    body: Seq<u8>,
)
    requires
        opens_to(ctx, frames, chunks),
        len.len() == 4,
        util::be32_value(len) == body.len(),
        TAG_LEN <= body.len() < TRAILER_SENTINEL_LEN,
        nonce.len() == 24,
        in_place(ctx, chunks.len() as int, nonce),
    ensures
        ({
            let next = frames + (len + nonce + body);
            match crypto::xchacha_open(ctx.cek, nonce, decrypt::context_aad(ctx), body) {
                Some(chunk) => opens_to(ctx, next, chunks.push(chunk)),
                None => forall|rest: Seq<u8>| #[trigger] opened_from(ctx, 0, next + rest) is None,
            }
        }),
{
    let aad = decrypt::context_aad(ctx);
    let frame = len + nonce + body;
    let next = frames + frame;
    let n = body.len() as int;
    let k = chunks.len() as int;
    let opened = crypto::xchacha_open(ctx.cek, nonce, aad, body);
    assert forall|rest: Seq<u8>|
        (match opened {
            Some(chunk) => #[trigger] opened_from(ctx, 0, next + rest) == decrypt::frames_after(
                chunks.push(chunk),
                next.len() as int,
                opened_from(ctx, k + 1, rest),
            ),
            None => opened_from(ctx, 0, next + rest) is None,
        }) by {
        let s = frame + rest;
        assert(next + rest =~= frames + s);
        assert(s.take(4) =~= len);
        assert(s.subrange(4, 28) =~= nonce);
        assert(s.subrange(28, 28 + n) =~= body);
        assert(s.skip(28 + n) =~= rest);
        assert(opened_from(ctx, 0, frames + s) == decrypt::frames_after(
            chunks,
            frames.len() as int,
            opened_from(ctx, k, s),
        ));
        let others = opened_from(ctx, k + 1, rest);
        if opened is Some && others is Some {
            assert(chunks + (seq![opened->0] + (others->0).0) =~= chunks.push(opened->0)
                + (others->0).0);
        }
    }
}

/// A payload that has ended opens to its chunks. What follows is the trailer; where
/// there is none, nothing follows.
proof fn lemma_ended(
    ctx: ContextView,
    frames: Seq<u8>,
    marker: Seq<u8>,
    chunks: Seq<Seq<u8>>,
    rest: Seq<u8>,
)
    requires
        ended(ctx, frames, marker, chunks),
    ensures
        ({
            let payload = frames + marker + rest;
            &&& decrypt::stream_content(with_payload(ctx, payload)) == (
            if ctx.parsed.has_trailer || rest.len() == 0 {
                Some((chunks, frames.len() as int))
            } else {
                None
            })
            &&& payload.take(frames.len() as int) == frames
            &&& payload.skip(frames.len() as int + 4) == rest
        }),
{
    let payload = frames + marker + rest;
    let s = marker + rest;
    assert(payload =~= frames + s);
    assert(s.take(4) =~= marker);
    assert(opened_from(ctx, 0, frames + s) == decrypt::frames_after(
        chunks,
        frames.len() as int,
        opened_from(ctx, chunks.len() as int, s),
    ));
    assert(chunks + Seq::<Seq<u8>>::empty() =~= chunks);
    assert(payload.take(frames.len() as int) =~= frames);
    assert(payload.skip(frames.len() as int + 4) =~= rest);
}

/// A payload whose next length field is too small opens to nothing, whatever
/// follows.
proof fn lemma_bad_length(
    ctx: ContextView,
    frames: Seq<u8>,
    chunks: Seq<Seq<u8>>,
    len: Seq<u8>,
    rest: Seq<u8>,
)
    requires
        opens_to(ctx, frames, chunks),
        len.len() == 4,
        util::be32_value(len) < TAG_LEN,
    ensures
        decrypt::stream_content(with_payload(ctx, frames + len + rest)) is None,
{
    let s = len + rest;
    assert(frames + len + rest =~= frames + s);
    assert(s.take(4) =~= len);
    assert(opened_from(ctx, 0, frames + s) == decrypt::frames_after(
        chunks,
        frames.len() as int,
        opened_from(ctx, chunks.len() as int, s),
    ));
}

/// A payload whose next frame has the nonce of another place opens to nothing,
/// whatever follows.
proof fn lemma_bad_nonce(
    ctx: ContextView,
    frames: Seq<u8>,
    chunks: Seq<Seq<u8>>,
    len: Seq<u8>,
    nonce: Seq<u8>,
    rest: Seq<u8>,
)
    requires
        opens_to(ctx, frames, chunks),
        len.len() == 4,
        util::be32_value(len) != TRAILER_SENTINEL_LEN,
        nonce.len() == 24,
        !in_place(ctx, chunks.len() as int, nonce),
    ensures
        decrypt::stream_content(with_payload(ctx, frames + len + nonce + rest)) is None,
{
    let s = len + nonce + rest;
    assert(frames + len + nonce + rest =~= frames + s);
    assert(s.take(4) =~= len);
    assert(s.subrange(4, 28) =~= nonce);
    assert(opened_from(ctx, 0, frames + s) == decrypt::frames_after(
        chunks,
        frames.len() as int,
        opened_from(ctx, chunks.len() as int, s),
    ));
}

/// Whether `rest` may follow a piece that was read: nothing follows where the piece
/// was all that was left.
pub open spec fn may_follow(ctx: ContextView, need: Need, bytes: Seq<u8>, rest: Seq<u8>) -> bool {
    rest.len() == 0 || (ctx.parsed.stream && !(need is End && bytes.len() == 0))
}

/// Whether a file decrypts to nothing once a piece of it, behind the payload
/// `seen`, has been read.
pub open spec fn fails(
    ctx: ContextView,
    seen: Seq<u8>,
    need: Need,
    bytes: Seq<u8>,
    expected: Option<Seq<char>>,
) -> bool {
    forall|rest: Seq<u8>|
        may_follow(ctx, need, bytes, rest) ==> decrypt::opened_chunks(
            #[trigger] with_payload(ctx, seen + bytes + rest),
            expected,
        ) is None
}

/// How much to read in a phase.
pub open spec fn need_in(phase: Phase) -> Need {
    match phase {
        Phase::Whole => Need::Rest,
        Phase::Checking => Need::Exactly(0),
        Phase::Length => Need::Exactly(4),
        Phase::Nonce(_) => Need::Exactly(24),
        Phase::Body(_, n) => Need::Exactly(n),
        Phase::TrailerHead => Need::Exactly(TRAILER_HEAD_LEN),
        Phase::Signature(n) => Need::Exactly(n),
        Phase::End => Need::End,
        Phase::Done => Need::Nothing,
    }
}

/// What the bytes of a phase open to, where they are a payload or a frame's body.
pub open spec fn piece_of(ctx: ContextView, phase: Phase, bytes: Seq<u8>) -> Option<Seq<u8>> {
    match phase {
        Phase::Whole => decrypt::content_of(with_payload(ctx, bytes)),
        Phase::Body(nonce, _) => crypto::xchacha_open(
            ctx.cek,
            nonce,
            decrypt::context_aad(ctx),
            bytes,
        ),
        _ => None,
    }
}

/// Whether a nonce is that of frame number `index`.
pub open spec fn in_place(ctx: ContextView, index: int, nonce: Seq<u8>) -> bool {
    index < u32::MAX && nonce == streaming::chunk_nonce(ctx.cek, ctx.rc, index)
}

/// The phase behind the bytes of a phase, with `index` frames before it; none where
/// these bytes cannot stand there.
pub open spec fn next_phase(ctx: ContextView, index: int, phase: Phase, bytes: Seq<u8>) -> Option<
    Phase,
> {
    match phase {
        Phase::Whole => if piece_of(ctx, phase, bytes) is Some {
            Some(Phase::Checking)
        } else {
            None
        },
        Phase::Checking => Some(Phase::Done),
        Phase::Length => if util::be32_value(bytes) == TRAILER_SENTINEL_LEN {
            Some(
                if ctx.parsed.has_trailer {
                    Phase::TrailerHead
                } else {
                    Phase::End
                },
            )
        } else if util::be32_value(bytes) < TAG_LEN {
            None
        } else {
            Some(Phase::Nonce(util::be32_value(bytes) as usize))
        },
        Phase::Nonce(n) => if in_place(ctx, index, bytes) {
            Some(Phase::Body(bytes, n))
        } else {
            None
        },
        Phase::Body(_, _) => if piece_of(ctx, phase, bytes) is Some {
            Some(Phase::Length)
        } else {
            None
        },
        Phase::TrailerHead => if bytes.take(32) == TRAILER_MAGIC@ {
            Some(Phase::Signature(util::be32_value(bytes.skip(32)) as usize))
        } else {
            None
        },
        Phase::Signature(_) => Some(Phase::End),
        Phase::End => if bytes.len() == 0 {
            Some(Phase::Done)
        } else {
            None
        },
        Phase::Done => None,
    }
}

/// Whether the bytes of a phase hold text.
pub open spec fn holds_text(phase: Phase) -> bool {
    phase is Whole || phase is Body
}

/// Whether the signature status follows a phase.
pub open spec fn is_last(phase: Phase) -> bool {
    phase is Checking || phase is End
}

impl FileDecryptor {
    /// What preamble and header gave. The payload is left empty.
    pub closed spec fn context(self) -> ContextView {
        with_payload(self.ctx@, seq![])
    }

    /// The payload as far as it has been read.
    pub closed spec fn seen(self) -> Seq<u8> {
        self.seen@
    }

    /// The chunks so far.
    pub closed spec fn chunks(self) -> Seq<Seq<u8>> {
        self.chunks@
    }

    /// What the next bytes are.
    pub closed spec fn phase(self) -> Phase {
        match self.stage {
            Stage::Whole => Phase::Whole,
            Stage::Checking => Phase::Checking,
            Stage::Length => Phase::Length,
            Stage::Nonce(_, n) => Phase::Nonce(n),
            Stage::Body(_, nonce, n) => Phase::Body(nonce@, n),
            Stage::TrailerHead => Phase::TrailerHead,
            Stage::Signature(n) => Phase::Signature(n),
            Stage::End(_) => Phase::End,
            Stage::Done => Phase::Done,
        }
    }

    /// How much to read next.
    pub open spec fn needs(self) -> Need {
        need_in(self.phase())
    }

    /// What holds between the calls.
    pub closed spec fn wf(self) -> bool {
        let ctx = self.context();
        let frames = self.frames@;
        let seen = self.seen@;
        let chunks = self.chunks@;
        &&& self.aad@ == decrypt::context_aad(ctx)
        &&& match self.stage {
            Stage::Whole => !ctx.parsed.stream && seen.len() == 0 && chunks.len() == 0,
            Stage::Checking => {
                &&& !ctx.parsed.stream
                &&& self.ctx@ == with_payload(ctx, seen)
                &&& chunks.len() == 1
                &&& decrypt::content_of(self.ctx@) == Some(chunks[0])
            },
            Stage::Done => true,
            _ => {
                &&& ctx.parsed.stream
                &&& opens_to(ctx, frames, chunks)
                &&& self.digest is Some == ctx.parsed.has_trailer
                &&& self.digest matches Some(d) ==> d@ == frames
                &&& self.index == chunks.len()
                &&& match self.stage {
                    Stage::Length => seen == frames,
                    Stage::Nonce(len, n) => {
                        &&& seen == frames + len@
                        &&& util::be32_value(len@) == n
                        &&& TAG_LEN <= n < TRAILER_SENTINEL_LEN
                    },
                    Stage::Body(len, nonce, n) => {
                        &&& seen == frames + len@ + nonce@
                        &&& in_place(ctx, chunks.len() as int, nonce@)
                        &&& util::be32_value(len@) == n
                        &&& TAG_LEN <= n < TRAILER_SENTINEL_LEN
                    },
                    Stage::TrailerHead => {
                        &&& ctx.parsed.has_trailer
                        &&& at_trailer(ctx, frames, chunks, seen)
                    },
                    Stage::Signature(n) => {
                        &&& ctx.parsed.has_trailer
                        &&& at_signature(ctx, frames, chunks, n as int, seen)
                    },
                    Stage::End(sig) => at_end(ctx, frames, chunks, envelope::opt_view(sig), seen),
                    _ => true,
                }
            },
        }
    }

    /// Reads preamble and header, and recovers the content key. Fails exactly when
    /// they are not those of a file, or the secret does not unlock, or no entry
    /// opens.
    pub fn open(head: &[u8], my_secret_armored: &str, passphrase: &str) -> (d: Result<
        FileDecryptor,
        (),
    >)
        ensures
            match d {
                Ok(f) => {
                    &&& head_context(head@, my_secret_armored@, passphrase@) == Some(f.context())
                    &&& f.wf()
                    &&& f.phase() == if f.context().parsed.stream {
                        Phase::Length
                    } else {
                        Phase::Whole
                    }
                    &&& f.seen() == Seq::<u8>::empty()
                    &&& f.chunks() == Seq::<Seq<u8>>::empty()
                },
                Err(_) => head_context(head@, my_secret_armored@, passphrase@) is None,
            },
    {
        let zeros: [u8; 16] = [0u8; 16];
        let mut bytes: Vec<u8> = slice_to_vec(head);
        bytes.extend_from_slice(zeros.as_slice());
        assert(bytes@ =~= head@ + no_payload());
        let ctx: DecryptContext = match build_decrypt_context(
            bytes.as_slice(),
            my_secret_armored,
            passphrase,
        ) {
            Ok(c) => c,
            Err(_) => {
                return Err(());
            },
        };
        if ctx.parsed.ct_and_tag.len() != TAG_LEN {
            return Err(());
        }
        let stream: bool = match ctx.parsed.stream {
            StreamFlag::Yes => true,
            StreamFlag::No => false,
        };
        let aad: Vec<u8> = aad_for(
            &ctx.parsed.enc_ecdh,
            &ctx.parsed.nonce,
            ctx.parsed.recipients_blob.as_slice(),
            stream,
        );
        let digest: Option<RunningDigest> = if ctx.parsed.has_trailer {
            Some(RunningDigest::new())
        } else {
            None
        };
        let stage: Stage = if stream {
            Stage::Length
        } else {
            Stage::Whole
        };
        let d: FileDecryptor = FileDecryptor {
            ctx,
            aad,
            digest,
            index: 0,
            stage,
            frames: Ghost(Seq::empty()),
            seen: Ghost(Seq::empty()),
            chunks: Ghost(Seq::empty()),
        };
        proof {
            lemma_nothing_read(d.context());
        }
        Ok(d)
    }

    /// How much to read next.
    pub fn need(&self) -> (n: Need)
        ensures
            n == self.needs(),
    {
        match &self.stage {
            Stage::Whole => Need::Rest,
            Stage::Checking => Need::Exactly(0),
            Stage::Length => Need::Exactly(4),
            Stage::Nonce(_, _) => Need::Exactly(24),
            Stage::Body(_, _, n) => Need::Exactly(*n),
            Stage::TrailerHead => Need::Exactly(TRAILER_HEAD_LEN),
            Stage::Signature(n) => Need::Exactly(*n),
            Stage::End(_) => Need::End,
            Stage::Done => Need::Nothing,
        }
    }
}

/// Whether `bytes` are as many as are needed.
pub open spec fn meets(need: Need, bytes: Seq<u8>) -> bool {
    match need {
        Need::Exactly(n) => bytes.len() == n,
        Need::Rest => true,
        Need::End => bytes.len() <= 1,
        Need::Nothing => false,
    }
}

/// What feeding bytes to a decryption does. It succeeds where the bytes can stand
/// in their phase and, behind the last of them, where there is a signature status;
/// the next phase then begins. The bytes of a payload or a frame's body give a
/// chunk, the last ones the status, all others nothing yet. The status, with the
/// chunks so far, is what the file decrypts to. Where it fails, no file with a
/// payload that begins so decrypts.
pub open spec fn fed(
    before: FileDecryptor,
    after: FileDecryptor,
    bytes: Seq<u8>,
    expected: Option<Seq<char>>,
    event: Result<FileEvent, ()>,
) -> bool {
    let ctx = before.context();
    let phase = before.phase();
    let next = next_phase(ctx, before.chunks().len() as int, phase, bytes);
    let seen = before.seen() + bytes;
    &&& after.wf()
    &&& after.context() == ctx
    &&& match event {
        Ok(e) => {
            &&& next == Some(after.phase())
            &&& after.seen() == seen
            &&& match e {
                FileEvent::Wait => {
                    &&& !holds_text(phase) && !is_last(phase)
                    &&& after.chunks() == before.chunks()
                },
                FileEvent::Chunk(c) => {
                    &&& piece_of(ctx, phase, bytes) == Some(c@)
                    &&& after.chunks() == before.chunks().push(c@)
                },
                FileEvent::Done(status) => {
                    &&& is_last(phase)
                    &&& after.chunks() == before.chunks()
                    &&& decrypt::opened_chunks(with_payload(ctx, seen), expected) == Some(
                        (before.chunks(), status),
                    )
                },
            }
        },
        Err(_) => {
            &&& after.phase() is Done
            &&& is_last(phase) || next is None
            &&& fails(ctx, before.seen(), before.needs(), bytes, expected)
        },
    }
}

impl FileDecryptor {
    /// Reads the length field of a frame, or the end marker.
    fn feed_length(&mut self, bytes: &[u8]) -> (event: Result<FileEvent, ()>)
        requires
            old(self).wf(),
            old(self).stage is Length,
            bytes@.len() == 4,
        ensures
            forall|expected: Option<Seq<char>>|
                #[trigger] fed(*old(self), *final(self), bytes@, expected, event),
    {
        let ghost ctx = self.context();
        let ghost frames = self.frames@;
        let ghost chunks = self.chunks@;
        let ghost seen = frames + bytes@;
        self.seen = Ghost(seen);
        match parse_frame_head(bytes) {
            Ok(FrameHead::End) => {
                assert(ended(ctx, frames, bytes@, chunks));
                assert(at_trailer(ctx, frames, chunks, seen));
                self.stage = if self.ctx.parsed.has_trailer {
                    Stage::TrailerHead
                } else {
                    Stage::End(None)
                };
                Ok(FileEvent::Wait)
            },
            Ok(FrameHead::Body(n)) => {
                let len: [u8; 4] = [bytes[0], bytes[1], bytes[2], bytes[3]];
                assert(len@ =~= bytes@);
                self.stage = Stage::Nonce(len, n);
                Ok(FileEvent::Wait)
            },
            Err(_) => {
                self.stage = Stage::Done;
                assert forall|expected: Option<Seq<char>>| #[trigger]
                    fed(*old(self), *self, bytes@, expected, Err::<FileEvent, ()>(())) by {
                    assert forall|rest: Seq<u8>|
                        may_follow(ctx, old(self).needs(), bytes@, rest) implies
                        decrypt::opened_chunks(#[trigger] with_payload(ctx, seen + rest), expected)
                        is None by {
                        lemma_bad_length(ctx, frames, chunks, bytes@, rest);
                    }
                }
                Err(())
            },
        }
    }

    /// Reads the nonce of a frame, which is that of its place.
    fn feed_nonce(&mut self, bytes: &[u8], len: [u8; 4], n: usize) -> (event: Result<FileEvent, ()>)
        requires
            old(self).wf(),
            old(self).stage == Stage::Nonce(len, n),
            bytes@.len() == 24,
        ensures
            forall|expected: Option<Seq<char>>|
                #[trigger] fed(*old(self), *final(self), bytes@, expected, event),
    {
        let ghost ctx = self.context();
        let ghost frames = self.frames@;
        let ghost chunks = self.chunks@;
        let ghost seen = self.seen@ + bytes@;
        self.seen = Ghost(seen);
        if !is_chunk_nonce(self.ctx.cek(), &self.ctx.rc, self.index, bytes) {
            self.stage = Stage::Done;
            assert forall|expected: Option<Seq<char>>| #[trigger]
                fed(*old(self), *self, bytes@, expected, Err::<FileEvent, ()>(())) by {
                assert forall|rest: Seq<u8>|
                    may_follow(ctx, old(self).needs(), bytes@, rest) implies
                    decrypt::opened_chunks(#[trigger] with_payload(ctx, seen + rest), expected)
                    is None by {
                    lemma_bad_nonce(ctx, frames, chunks, len@, bytes@, rest);
                }
            }
            return Err(());
        }
        let nonce: [u8; 24] = array_24(bytes);
        self.stage = Stage::Body(len, nonce, n);
        Ok(FileEvent::Wait)
    }

    /// Reads the body of a frame, and opens it.
    fn feed_body(&mut self, bytes: &[u8], len: [u8; 4], nonce: [u8; 24], n: usize) -> (event: Result<
        FileEvent,
        (),
    >)
        requires
            old(self).wf(),
            old(self).stage == Stage::Body(len, nonce, n),
            bytes@.len() == n,
        ensures
            forall|expected: Option<Seq<char>>|
                #[trigger] fed(*old(self), *final(self), bytes@, expected, event),
    {
        let ghost ctx = self.context();
        let ghost frames = self.frames@;
        let ghost chunks = self.chunks@;
        let ghost next = frames + (len@ + nonce@ + bytes@);
        let opened: Result<Vec<u8>, ()> = open_body(
            self.ctx.cek(),
            self.aad.as_slice(),
            nonce.as_slice(),
            bytes,
        );
        proof {
            lemma_frame_opens(ctx, frames, chunks, len@, nonce@, bytes@);
            assert(self.seen@ + bytes@ =~= next);
        }
        self.seen = Ghost(next);
        match opened {
            Ok(chunk) => {
                match self.digest.take() {
                    Some(d) => {
                        let mut d: RunningDigest = d;
                        d.update(len.as_slice());
                        d.update(nonce.as_slice());
                        d.update(bytes);
                        assert(d@ =~= next);
                        self.digest = Some(d);
                    },
                    None => {},
                }
                self.frames = Ghost(next);
                self.chunks = Ghost(chunks.push(chunk@));
                self.index = self.index + 1;
                self.stage = Stage::Length;
                Ok(FileEvent::Chunk(chunk))
            },
            Err(_) => {
                self.stage = Stage::Done;
                assert forall|expected: Option<Seq<char>>| #[trigger]
                    fed(*old(self), *self, bytes@, expected, Err::<FileEvent, ()>(())) by {
                    assert forall|rest: Seq<u8>|
                        may_follow(ctx, old(self).needs(), bytes@, rest) implies
                        decrypt::opened_chunks(
                        #[trigger] with_payload(ctx, old(self).seen() + bytes@ + rest),
                        expected,
                    ) is None by {
                        assert(old(self).seen() + bytes@ + rest =~= next + rest);
                        assert(opened_from(ctx, 0, next + rest) is None);
                    }
                }
                Err(())
            },
        }
    }

    /// Reads magic and length of the trailer.
    fn feed_trailer_head(&mut self, bytes: &[u8]) -> (event: Result<FileEvent, ()>)
        requires
            old(self).wf(),
            old(self).stage is TrailerHead,
            bytes@.len() == TRAILER_HEAD_LEN,
        ensures
            forall|expected: Option<Seq<char>>|
                #[trigger] fed(*old(self), *final(self), bytes@, expected, event),
    {
        let ghost ctx = self.context();
        let ghost frames = self.frames@;
        let ghost chunks = self.chunks@;
        let ghost seen = self.seen@ + bytes@;
        let ghost marker = choose|marker: Seq<u8>|
            #[trigger] ended(ctx, frames, marker, chunks) && self.seen@ == frames + marker;
        self.seen = Ghost(seen);
        match parse_trailer_head(bytes) {
            Ok(n) => {
                self.stage = Stage::Signature(n);
                proof {
                    assert(in_trailer(ctx, frames, marker, chunks, bytes@, n as int, seen));
                    assert(at_signature(ctx, frames, chunks, n as int, seen));
                }
                Ok(FileEvent::Wait)
            },
            Err(_) => {
                self.stage = Stage::Done;
                assert forall|expected: Option<Seq<char>>| #[trigger]
                    fed(*old(self), *self, bytes@, expected, Err::<FileEvent, ()>(())) by {
                    assert forall|rest: Seq<u8>|
                        may_follow(ctx, old(self).needs(), bytes@, rest) implies
                        decrypt::opened_chunks(#[trigger] with_payload(ctx, seen + rest), expected)
                        is None by {
                        assert(seen + rest =~= frames + marker + (bytes@ + rest));
                        lemma_ended(ctx, frames, marker, chunks, bytes@ + rest);
                        assert((bytes@ + rest).take(32) =~= bytes@.take(32));
                    }
                }
                Err(())
            },
        }
    }

    /// Reads the trailer's signature.
    fn feed_signature(&mut self, bytes: &[u8], n: usize)
        requires
            old(self).wf(),
            old(self).stage == Stage::Signature(n),
            bytes@.len() == n,
        ensures
            final(self).wf(),
            final(self).context() == old(self).context(),
            final(self).phase() == Phase::End,
            final(self).seen() == old(self).seen() + bytes@,
            final(self).chunks() == old(self).chunks(),
    {
        let ghost ctx = self.context();
        let ghost frames = self.frames@;
        let ghost chunks = self.chunks@;
        let ghost seen = self.seen@ + bytes@;
        let ghost (marker, head) = choose|marker: Seq<u8>, head: Seq<u8>|
            in_trailer(ctx, frames, marker, chunks, head, n as int, self.seen@);
        self.seen = Ghost(seen);
        self.stage = Stage::End(Some(slice_to_vec(bytes)));
        proof {
            let before = frames + marker + head;
            assert(in_trailer(ctx, frames, marker, chunks, head, n as int, before));
            assert(seen == before + bytes@);
            assert(behind_trailer(ctx, frames, chunks, bytes@, seen));
        }
    }

    /// Makes sure that nothing is left, and checks the trailer's signature, if
    /// there is one.
    fn feed_end(&mut self, bytes: &[u8], expected_public: Option<&str>) -> (event: Result<
        FileEvent,
        (),
    >)
        requires
            old(self).wf(),
            old(self).stage is End,
        ensures
            fed(*old(self), *final(self), bytes@, transcript::text_view(expected_public), event),
    {
        let ghost ctx = self.context();
        let ghost frames = self.frames@;
        let ghost chunks = self.chunks@;
        let ghost seen = self.seen@;
        let ghost expected = transcript::text_view(expected_public);
        let mut stage: Stage = Stage::Done;
        std::mem::swap(&mut stage, &mut self.stage);
        let signature: Option<Vec<u8>> = match stage {
            Stage::End(sig) => sig,
            _ => None,
        };
        let ghost sig = envelope::opt_view(signature);
        assert(at_end(ctx, frames, chunks, sig, seen));
        if bytes.len() > 0 {
            assert forall|rest: Seq<u8>| may_follow(ctx, Need::End, bytes@, rest) implies
                decrypt::opened_chunks(
                #[trigger] with_payload(ctx, seen + bytes@ + rest),
                expected,
            ) is None by {
                assert(seen + bytes@ + rest =~= seen + (bytes@ + rest));
                lemma_nothing_behind(ctx, frames, chunks, sig, seen, bytes@ + rest, expected);
            }
            return Err(());
        }
        proof {
            assert(seen + bytes@ =~= seen);
            lemma_at_end(ctx, frames, chunks, sig, seen, expected);
        }
        let digest: [u8; 32] = match self.digest.take() {
            Some(d) => d.finalize(),
            None => [0u8; 32],
        };
        let status: Result<i32, ()> = match &signature {
            Some(s) => stream_status(&self.ctx, Some(s.as_slice()), expected_public, &digest),
            None => stream_status(&self.ctx, None, expected_public, &digest),
        };
        match status {
            Ok(st) => Ok(FileEvent::Done(st)),
            Err(_) => {
                assert forall|rest: Seq<u8>| may_follow(ctx, Need::End, bytes@, rest) implies
                    decrypt::opened_chunks(
                    #[trigger] with_payload(ctx, seen + bytes@ + rest),
                    expected,
                ) is None by {
                    assert(seen + bytes@ + rest =~= seen);
                }
                Err(())
            },
        }
    }

    /// Reads a whole payload, and opens it.
    fn feed_whole(&mut self, bytes: &[u8]) -> (event: Result<FileEvent, ()>)
        requires
            old(self).wf(),
            old(self).stage is Whole,
        ensures
            forall|expected: Option<Seq<char>>|
                #[trigger] fed(*old(self), *final(self), bytes@, expected, event),
    {
        let ghost ctx = self.context();
        self.ctx.parsed.ct_and_tag = slice_to_vec(bytes);
        self.seen = Ghost(bytes@);
        assert(self.ctx@ == with_payload(ctx, bytes@));
        assert(old(self).seen@ + bytes@ =~= bytes@);
        match decrypt_content(&self.ctx) {
            Ok(pt) => {
                self.chunks = Ghost(Seq::empty().push(pt@));
                self.stage = Stage::Checking;
                assert(self.chunks@ =~= old(self).chunks@.push(pt@));
                Ok(FileEvent::Chunk(pt))
            },
            Err(_) => {
                self.stage = Stage::Done;
                assert forall|expected: Option<Seq<char>>| #[trigger]
                    fed(*old(self), *self, bytes@, expected, Err::<FileEvent, ()>(())) by {
                    assert forall|rest: Seq<u8>|
                        may_follow(ctx, old(self).needs(), bytes@, rest) implies
                        decrypt::opened_chunks(
                        #[trigger] with_payload(ctx, old(self).seen() + bytes@ + rest),
                        expected,
                    ) is None by {
                        assert(old(self).seen() + bytes@ + rest =~= bytes@);
                    }
                }
                Err(())
            },
        }
    }

    /// Checks the signature of a whole payload.
    fn check_whole(&mut self, expected_public: Option<&str>) -> (event: Result<FileEvent, ()>)
        requires
            old(self).wf(),
            old(self).stage is Checking,
        ensures
            fed(
                *old(self),
                *final(self),
                Seq::<u8>::empty(),
                transcript::text_view(expected_public),
                event,
            ),
    {
        let ghost ctx = self.context();
        let ghost seen = self.seen@;
        let ghost chunks = self.chunks@;
        let ghost expected = transcript::text_view(expected_public);
        self.stage = Stage::Done;
        let status: Result<i32, ()> = verify_signature_status(&self.ctx, expected_public);
        let ghost none: Seq<u8> = Seq::empty();
        proof {
            assert(seen + none =~= seen);
            assert(seq![chunks[0]] =~= chunks);
        }
        match status {
            Ok(st) => Ok(FileEvent::Done(st)),
            Err(_) => {
                assert forall|rest: Seq<u8>|
                    may_follow(ctx, old(self).needs(), none, rest) implies
                    decrypt::opened_chunks(
                    #[trigger] with_payload(ctx, seen + none + rest),
                    expected,
                ) is None by {
                    assert(seen + none + rest =~= seen);
                }
                Err(())
            },
        }
    }

    /// Takes the bytes that were read, as many as [`FileDecryptor::need`] says.
    /// After a failure, as after the status, nothing more is to be read.
    pub fn feed(&mut self, bytes: &[u8], expected_public: Option<&str>) -> (event: Result<
        FileEvent,
        (),
    >)
        requires
            old(self).wf(),
            meets(old(self).needs(), bytes@),
        ensures
            fed(*old(self), *final(self), bytes@, transcript::text_view(expected_public), event),
    {
        let ghost expected = transcript::text_view(expected_public);
        match &self.stage {
            Stage::Whole => {
                let event: Result<FileEvent, ()> = self.feed_whole(bytes);
                assert(fed(*old(self), *self, bytes@, expected, event));
                event
            },
            Stage::Checking => {
                assert(bytes@ =~= Seq::<u8>::empty());
                self.check_whole(expected_public)
            },
            Stage::Length => {
                let event: Result<FileEvent, ()> = self.feed_length(bytes);
                assert(fed(*old(self), *self, bytes@, expected, event));
                event
            },
            Stage::Nonce(len, n) => {
                let len: [u8; 4] = *len;
                let n: usize = *n;
                let event: Result<FileEvent, ()> = self.feed_nonce(bytes, len, n);
                assert(fed(*old(self), *self, bytes@, expected, event));
                event
            },
            Stage::Body(len, nonce, n) => {
                let len: [u8; 4] = *len;
                let nonce: [u8; 24] = *nonce;
                let n: usize = *n;
                let event: Result<FileEvent, ()> = self.feed_body(bytes, len, nonce, n);
                assert(fed(*old(self), *self, bytes@, expected, event));
                event
            },
            Stage::TrailerHead => {
                let event: Result<FileEvent, ()> = self.feed_trailer_head(bytes);
                assert(fed(*old(self), *self, bytes@, expected, event));
                event
            },
            Stage::Signature(n) => {
                let n: usize = *n;
                self.feed_signature(bytes, n);
                Ok(FileEvent::Wait)
            },
            Stage::End(_) => self.feed_end(bytes, expected_public),
            Stage::Done => Err(()),
        }
    }
}

/// Whether a payload has been read up to its trailer.
spec fn at_trailer(
    ctx: ContextView,
    frames: Seq<u8>,
    chunks: Seq<Seq<u8>>,
    seen: Seq<u8>,
) -> bool {
    exists|marker: Seq<u8>|
        #[trigger] ended(ctx, frames, marker, chunks) && seen == frames + marker
}

/// Whether a payload has been read up to the trailer's signature of `n` bytes.
spec fn at_signature(
    ctx: ContextView,
    frames: Seq<u8>,
    chunks: Seq<Seq<u8>>,
    n: int,
    seen: Seq<u8>,
) -> bool {
    exists|marker: Seq<u8>, head: Seq<u8>|
        in_trailer(ctx, frames, marker, chunks, head, n, seen)
}

/// Whether a payload has been read up to the trailer's signature, with the end
/// marker and the trailer head that are given.
spec fn in_trailer(
    ctx: ContextView,
    frames: Seq<u8>,
    marker: Seq<u8>,
    chunks: Seq<Seq<u8>>,
    head: Seq<u8>,
    n: int,
    seen: Seq<u8>,
) -> bool {
    &&& ended(ctx, frames, marker, chunks)
    &&& head.len() == TRAILER_HEAD_LEN
    &&& head.take(32) == TRAILER_MAGIC@
    &&& util::be32_value(head.skip(32)) == n
    &&& seen == frames + marker + head
}

/// Whether a payload has been read up to the end of its trailer.
spec fn behind_trailer(
    ctx: ContextView,
    frames: Seq<u8>,
    chunks: Seq<Seq<u8>>,
    sig: Seq<u8>,
    seen: Seq<u8>,
) -> bool {
    exists|marker: Seq<u8>, head: Seq<u8>|
        #[trigger] in_trailer(
            ctx,
            frames,
            marker,
            chunks,
            head,
            sig.len() as int,
            frames + marker + head,
        ) && seen == frames + marker + head + sig
}

/// A payload behind whose end marker, or whose trailer's signature, anything
/// follows decrypts to nothing.
proof fn lemma_nothing_behind(
    ctx: ContextView,
    frames: Seq<u8>,
    chunks: Seq<Seq<u8>>,
    sig: Option<Seq<u8>>,
    seen: Seq<u8>,
    rest: Seq<u8>,
    expected: Option<Seq<char>>,
)
    requires
        ctx.parsed.stream,
        at_end(ctx, frames, chunks, sig, seen),
        rest.len() > 0,
    ensures
        decrypt::opened_chunks(with_payload(ctx, seen + rest), expected) is None,
{
    match sig {
        None => {
            let marker = choose|marker: Seq<u8>|
                #[trigger] ended(ctx, frames, marker, chunks) && seen == frames + marker;
            lemma_ended(ctx, frames, marker, chunks, rest);
        },
        Some(s) => {
            let n = s.len() as int;
            let (marker, head) = choose|marker: Seq<u8>, head: Seq<u8>|
                #[trigger] in_trailer(ctx, frames, marker, chunks, head, n, frames + marker + head)
                    && seen == frames + marker + head + s;
            let tail = head + s + rest;
            assert(seen + rest =~= frames + marker + tail);
            lemma_ended(ctx, frames, marker, chunks, tail);
            assert(tail.subrange(32, 36) =~= head.skip(32));
            assert(streaming::trailer_signature(tail) is None);
        },
    }
}

/// The status of a trailer's signature, or of none, over frames.
spec fn end_status(
    ctx: ContextView,
    frames: Seq<u8>,
    sig: Option<Seq<u8>>,
    expected: Option<Seq<char>>,
) -> Option<i32> {
    transcript::signature_status(
        sig,
        expected,
        transcript::signed_stream(
            ctx.parsed.enc_ecdh,
            ctx.parsed.nonce,
            ctx.parsed.recipients_blob,
            ctx.rc,
            frames,
        ),
    )
}

/// What a payload that has been read to its end decrypts to.
proof fn lemma_at_end(
    ctx: ContextView,
    frames: Seq<u8>,
    chunks: Seq<Seq<u8>>,
    sig: Option<Seq<u8>>,
    seen: Seq<u8>,
    expected: Option<Seq<char>>,
)
    requires
        ctx.parsed.stream,
        at_end(ctx, frames, chunks, sig, seen),
    ensures
        decrypt::opened_chunks(with_payload(ctx, seen), expected) == match end_status(
            ctx,
            frames,
            sig,
            expected,
        ) {
            Some(status) => Some((chunks, status)),
            None => None,
        },
{
    match sig {
        None => {
            let marker = choose|marker: Seq<u8>|
                #[trigger] ended(ctx, frames, marker, chunks) && seen == frames + marker;
            let none: Seq<u8> = seq![];
            lemma_ended(ctx, frames, marker, chunks, none);
            assert(frames + marker + none =~= seen);
        },
        Some(s) => {
            let n = s.len() as int;
            let (marker, head) = choose|marker: Seq<u8>, head: Seq<u8>|
                #[trigger] in_trailer(ctx, frames, marker, chunks, head, n, frames + marker + head)
                    && seen == frames + marker + head + s;
            let tail = head + s;
            assert(frames + marker + tail =~= seen);
            lemma_ended(ctx, frames, marker, chunks, tail);
            lemma_trailer_of(head, s);
        },
    }
}

/// Magic and length, and then a signature of that length, are a trailer.
proof fn lemma_trailer_of(head: Seq<u8>, sig: Seq<u8>)
    requires
        head.len() == TRAILER_HEAD_LEN,
        head.take(32) == TRAILER_MAGIC@,
        util::be32_value(head.skip(32)) == sig.len(),
    ensures
        streaming::trailer_signature(head + sig) == Some(sig),
{
    let tail = head + sig;
    assert(tail.take(32) =~= head.take(32));
    assert(tail.subrange(32, 36) =~= head.skip(32));
    assert(tail.skip(36) =~= sig);
}

/// Whether a payload has been read to its end: to the end marker, or to the end of
/// the trailer with the given signature.
spec fn at_end(
    ctx: ContextView,
    frames: Seq<u8>,
    chunks: Seq<Seq<u8>>,
    sig: Option<Seq<u8>>,
    seen: Seq<u8>,
) -> bool {
    match sig {
        None => !ctx.parsed.has_trailer && at_trailer(ctx, frames, chunks, seen),
        Some(s) => ctx.parsed.has_trailer && behind_trailer(ctx, frames, chunks, s, seen),
    }
}

/// Before anything is read, nothing has been opened.
proof fn lemma_nothing_read(ctx: ContextView)
    ensures
        opens_to(ctx, seq![], seq![]),
{
    let none: Seq<Seq<u8>> = seq![];
    assert forall|rest: Seq<u8>|
        #[trigger] opened_from(ctx, 0, Seq::<u8>::empty() + rest) == decrypt::frames_after(
            none,
            0,
            opened_from(ctx, 0, rest),
        ) by {
        assert(Seq::<u8>::empty() + rest =~= rest);
        let opened = opened_from(ctx, 0, rest);
        if opened is Some {
            assert(none + (opened->0).0 =~= (opened->0).0);
        }
    }
}

} // verus!
