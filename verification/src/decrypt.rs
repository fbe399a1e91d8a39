//! Decrypting messages in memory.

use vstd::prelude::*;
use vstd::slice::*;
use vstd::string::*;
use vstd::utf8::*;

use crate::armor::parse_public;
use crate::constants::{TAG_LEN, TRAILER_HEAD_LEN, TRAILER_MAGIC};
use crate::context::{ContextView, DecryptContext};
use crate::crypto;
use crate::crypto::{ct_eq, utf8_text, xchacha20poly1305_open, XCHACHA_MAX_MSG};
use crate::envelope::StreamFlag;
use crate::handshake;
use crate::handshake::build_decrypt_context;
use crate::keys::PublicBundle;
use crate::message;
use crate::message::{binary_from_armor, parse_message};
use crate::sink::{lemma_took_nothing, refused_at, refused_one, refuses, took_all, Sink};
use crate::streaming;
use crate::streaming::{open_frame_at, RunningDigest};
use crate::transcript;
use crate::transcript::{aad_for, check_signature, transcript_stream, verify_signature_status};
use crate::util;
use crate::util::be_value;

verus! {

// ----------------------------------------------------------------------
// Content
// ----------------------------------------------------------------------

/// The additional data of a context's payload.
pub open spec fn context_aad(ctx: ContextView) -> Seq<u8> {
    transcript::content_aad(
        ctx.parsed.enc_ecdh,
        ctx.parsed.nonce,
        ctx.parsed.recipients_blob,
        ctx.parsed.stream,
    )
}

/// What a whole payload opens to. One that is shorter than a tag opens to nothing.
pub open spec fn whole_content(ctx: ContextView) -> Option<Seq<u8>> {
    let len = ctx.parsed.ct_and_tag.len();
    if len < TAG_LEN || len > XCHACHA_MAX_MSG + TAG_LEN {
        None
    } else {
        crypto::xchacha_open(
            ctx.cek,
            ctx.parsed.nonce,
            context_aad(ctx),
            ctx.parsed.ct_and_tag,
        )
    }
}

/// Whether a chunked payload may go on behind the end marker of frames of length
/// `n`: only with a trailer.
pub open spec fn may_end_at(ctx: ContextView, n: int) -> bool {
    ctx.parsed.has_trailer || ctx.parsed.ct_and_tag.len() == n + 4
}

/// The chunks that a chunked payload opens to, and the length of their frames.
pub open spec fn stream_content(ctx: ContextView) -> Option<(Seq<Seq<u8>>, int)> {
    match streaming::opened_frames(
        ctx.cek,
        ctx.rc,
        context_aad(ctx),
        0,
        ctx.parsed.ct_and_tag,
    ) {
        Some((chunks, n)) => if may_end_at(ctx, n) {
            Some((chunks, n))
        } else {
            None
        },
        None => None,
    }
}

/// The plaintext of a context.
pub open spec fn content_of(ctx: ContextView) -> Option<Seq<u8>> {
    if ctx.parsed.stream {
        match stream_content(ctx) {
            Some((chunks, _)) => Some(streaming::joined(chunks)),
            None => None,
        }
    } else {
        whole_content(ctx)
    }
}

/// Opens a whole payload.
fn decrypt_whole(ctx: &DecryptContext) -> (pt: Result<Vec<u8>, ()>)
    requires
        !ctx@.parsed.stream,
    ensures
        match pt {
            Ok(p) => whole_content(ctx@) == Some(p@),
            Err(_) => whole_content(ctx@) is None,
        },
{
    let len: usize = ctx.parsed.ct_and_tag.len();
    if len < TAG_LEN || len as u64 > XCHACHA_MAX_MSG + TAG_LEN as u64 {
        return Err(());
    }
    let aad: Vec<u8> = aad_for(
        &ctx.parsed.enc_ecdh,
        &ctx.parsed.nonce,
        ctx.parsed.recipients_blob.as_slice(),
        false,
    );
    xchacha20poly1305_open(
        ctx.cek(),
        &ctx.parsed.nonce,
        aad.as_slice(),
        ctx.parsed.ct_and_tag.as_slice(),
    )
}

/// What frames open to, given what the first ones gave and what the others give.
pub open spec fn frames_after(
    chunks: Seq<Seq<u8>>,
    len: int,
    rest: Option<(Seq<Seq<u8>>, int)>,
) -> Option<(Seq<Seq<u8>>, int)> {
    match rest {
        Some((more, more_len)) => Some((chunks + more, len + more_len)),
        None => None,
    }
}

/// One more chunk, joined.
proof fn lemma_joined_push(chunks: Seq<Seq<u8>>, chunk: Seq<u8>)
    ensures
        streaming::joined(chunks.push(chunk)) == streaming::joined(chunks) + chunk,
    decreases chunks.len(),
{
    let all = chunks.push(chunk);
    if chunks.len() == 0 {
        assert(all.skip(1) =~= Seq::<Seq<u8>>::empty());
        assert(streaming::joined(all.skip(1)) =~= Seq::<u8>::empty());
        assert(streaming::joined(all) =~= streaming::joined(chunks) + chunk);
    } else {
        lemma_joined_push(chunks.skip(1), chunk);
        assert(all.skip(1) =~= chunks.skip(1).push(chunk));
        assert(all[0] == chunks[0]);
        assert(streaming::joined(all) =~= chunks[0] + streaming::joined(chunks.skip(1)) + chunk);
    }
}

/// Opens a chunked payload and joins the chunks. A trailer is passed over; without
/// one, nothing may follow the end marker.
fn decrypt_joined(ctx: &DecryptContext) -> (pt: Result<Vec<u8>, ()>)
    requires
        ctx@.parsed.stream,
    ensures
        match pt {
            Ok(p) => stream_content(ctx@) matches Some(s) && p@ == streaming::joined(s.0),
            Err(_) => stream_content(ctx@) is None,
        },
{
    let aad: Vec<u8> = aad_for(
        &ctx.parsed.enc_ecdh,
        &ctx.parsed.nonce,
        ctx.parsed.recipients_blob.as_slice(),
        true,
    );
    let s: &[u8] = ctx.parsed.ct_and_tag.as_slice();
    let ghost all = streaming::opened_frames(ctx@.cek, ctx@.rc, aad@, 0, s@);
    let mut out: Vec<u8> = Vec::new();
    let mut pos: usize = 0;
    let mut index: u32 = 0;
    let ghost mut chunks: Seq<Seq<u8>> = seq![];
    proof {
        assert(s@.skip(0) =~= s@);
        if all is Some {
            assert(chunks + (all->0).0 =~= (all->0).0);
        }
    }
    loop
        invariant
            pos <= s@.len(),
            s@ == ctx@.parsed.ct_and_tag,
            aad@ == context_aad(ctx@),
            index == chunks.len(),
            all == streaming::opened_frames(ctx@.cek, ctx@.rc, aad@, 0, s@),
            all == frames_after(
                chunks,
                pos as int,
                streaming::opened_frames(
                    ctx@.cek,
                    ctx@.rc,
                    aad@,
                    index as int,
                    s@.skip(pos as int),
                ),
            ),
            out@ == streaming::joined(chunks),
        decreases s@.len() - pos,
    {
        match open_frame_at(ctx.cek(), &ctx.rc, aad.as_slice(), index, s, pos) {
            Ok(Some((chunk, next))) => {
                proof {
                    lemma_joined_push(chunks, chunk@);
                    let rest = streaming::opened_frames(
                        ctx@.cek,
                        ctx@.rc,
                        aad@,
                        index + 1,
                        s@.skip(next as int),
                    );
                    if rest is Some {
                        assert(chunks + (seq![chunk@] + (rest->0).0) =~= chunks.push(chunk@)
                            + (rest->0).0);
                    }
                    chunks = chunks.push(chunk@);
                }
                out.extend_from_slice(chunk.as_slice());
                pos = next;
                index = index + 1;
            },
            Ok(None) => {
                assert(chunks + Seq::<Seq<u8>>::empty() =~= chunks);
                if !ctx.parsed.has_trailer && s.len() - pos != 4 {
                    return Err(());
                }
                return Ok(out);
            },
            Err(_) => {
                return Err(());
            },
        }
    }
}

/// Opens the payload of a context, whole or chunked. Signatures are checked
/// elsewhere.
pub fn decrypt_content(ctx: &DecryptContext) -> (pt: Result<Vec<u8>, ()>)
    ensures
        match pt {
            Ok(p) => content_of(ctx@) == Some(p@),
            Err(_) => content_of(ctx@) is None,
        },
{
    match ctx.parsed.stream {
        StreamFlag::No => decrypt_whole(ctx),
        StreamFlag::Yes => decrypt_joined(ctx),
    }
}

// ----------------------------------------------------------------------
// In one piece
// ----------------------------------------------------------------------

/// What a context decrypts to in one piece: the plaintext and the status of the
/// header signature.
pub open spec fn opened_content(ctx: ContextView, expected: Option<Seq<char>>) -> Option<
    (Seq<u8>, i32),
> {
    match (
        content_of(ctx),
        transcript::signature_status(
            ctx.parsed.signature,
            expected,
            transcript::header_transcript(ctx),
        ),
    ) {
        (Some(pt), Some(status)) => Some((pt, status)),
        _ => None,
    }
}

/// What a binary envelope decrypts to in one piece.
pub open spec fn decrypted(
    bytes: Seq<u8>,
    arm: Seq<char>,
    pass: Seq<char>,
    expected: Option<Seq<char>>,
) -> Option<(Seq<u8>, i32)> {
    match handshake::context_of(bytes, arm, pass) {
        Some(ctx) => opened_content(ctx, expected),
        None => None,
    }
}

/// Decrypts a binary envelope: the plaintext and the signature status.
///
/// - 0: there is no signature, and none is expected
/// - 1: the signature verifies
/// - 2: the signature is invalid
/// - 3: a signature is expected and missing, or there and not expected
///
/// The status is that of the header signature. For a chunked payload, whose
/// signature stands in the trailer, use [`decrypt_streaming_raw`].
pub fn decrypt_raw(
    bytes: &[u8],
    my_secret_armored: &str,
    passphrase: &str,
    expected_public: Option<&str>,
) -> (r: Result<(Vec<u8>, i32), ()>)
    ensures
        match r {
            Ok(d) => decrypted(
                bytes@,
                my_secret_armored@,
                passphrase@,
                transcript::text_view(expected_public),
            ) == Some((d.0@, d.1)),
            Err(_) => decrypted(
                bytes@,
                my_secret_armored@,
                passphrase@,
                transcript::text_view(expected_public),
            ) is None,
        },
{
    let ctx: DecryptContext = match build_decrypt_context(bytes, my_secret_armored, passphrase) {
        Ok(c) => c,
        Err(_) => {
            return Err(());
        },
    };
    let pt: Vec<u8> = match decrypt_content(&ctx) {
        Ok(p) => p,
        Err(_) => {
            return Err(());
        },
    };
    match verify_signature_status(&ctx, expected_public) {
        Ok(status) => Ok((pt, status)),
        Err(_) => Err(()),
    }
}

/// Decrypts a binary envelope, as [`decrypt_raw`] does.
pub fn decrypt_binary(
    bytes: &[u8],
    my_secret_armored: &str,
    passphrase: &str,
    expected_public: Option<&str>,
) -> (r: Result<(Vec<u8>, i32), ()>)
    ensures
        match r {
            Ok(d) => decrypted(
                bytes@,
                my_secret_armored@,
                passphrase@,
                transcript::text_view(expected_public),
            ) == Some((d.0@, d.1)),
            Err(_) => decrypted(
                bytes@,
                my_secret_armored@,
                passphrase@,
                transcript::text_view(expected_public),
            ) is None,
        },
{
    decrypt_raw(bytes, my_secret_armored, passphrase, expected_public)
}

/// Whether the armor holds a signature field that gives no signature.
pub open spec fn signature_unreadable(arm: Seq<char>) -> bool {
    message::message_of(arm) matches Some(m) && m.signature == Some(Seq::<u8>::empty())
}

/// What an armored message decrypts to in one piece. A signature that cannot be
/// read is invalid, not missing, to whom expects one.
pub open spec fn decrypted_armor(
    text: Seq<char>,
    arm: Seq<char>,
    pass: Seq<char>,
    expected: Option<Seq<char>>,
) -> Option<(Seq<u8>, i32)> {
    match message::binary_of(text) {
        Some(binary) => match decrypted(binary, arm, pass, expected) {
            Some((pt, status)) => Some(
                (
                    pt,
                    if signature_unreadable(text) && expected is Some {
                        2
                    } else {
                        status
                    },
                ),
            ),
            None => None,
        },
        None => None,
    }
}

/// What UTF-8 armor decrypts to in one piece.
pub open spec fn decrypted_text(
    bytes: Seq<u8>,
    arm: Seq<char>,
    pass: Seq<char>,
    expected: Option<Seq<char>>,
) -> Option<(Seq<u8>, i32)> {
    if valid_utf8(bytes) {
        decrypted_armor(decode_utf8(bytes), arm, pass, expected)
    } else {
        None
    }
}

/// Reads UTF-8 armor.
fn armor_text(bytes: &[u8]) -> (text: Result<&str, ()>)
    ensures
        match text {
            Ok(s) => valid_utf8(bytes@) && s@ == decode_utf8(bytes@),
            Err(_) => !valid_utf8(bytes@),
        },
{
    match utf8_text(bytes) {
        Ok(s) => {
            proof {
                encode_utf8_decode_utf8(s@);
            }
            Ok(s)
        },
        Err(_) => Err(()),
    }
}

/// Decrypts UTF-8 armor: the plaintext and the signature status, as
/// [`decrypt_raw`] gives them. To whom expects a signature, one that cannot be
/// read is invalid.
pub fn decrypt(
    bytes: &[u8],
    my_secret_armored: &str,
    passphrase: &str,
    expected_public: Option<&str>,
) -> (r: Result<(Vec<u8>, i32), ()>)
    ensures
        match r {
            Ok(d) => decrypted_text(
                bytes@,
                my_secret_armored@,
                passphrase@,
                transcript::text_view(expected_public),
            ) == Some((d.0@, d.1)),
            Err(_) => decrypted_text(
                bytes@,
                my_secret_armored@,
                passphrase@,
                transcript::text_view(expected_public),
            ) is None,
        },
{
    let text: &str = match armor_text(bytes) {
        Ok(t) => t,
        Err(_) => {
            return Err(());
        },
    };
    let unreadable: bool = match parse_message(text) {
        Ok(m) => match &m.signature {
            Some(s) => s.len() == 0,
            None => false,
        },
        Err(_) => false,
    };
    assert(unreadable <==> signature_unreadable(text@)) by {
        if unreadable {
            let m = message::message_of(text@)->0;
            assert(m.signature->0 =~= Seq::<u8>::empty());
        }
    }
    let binary: Vec<u8> = match binary_from_armor(text) {
        Ok(b) => b,
        Err(_) => {
            return Err(());
        },
    };
    match decrypt_raw(binary.as_slice(), my_secret_armored, passphrase, expected_public) {
        Ok((pt, status)) => {
            let status: i32 = if unreadable && expected_public.is_some() {
                2
            } else {
                status
            };
            Ok((pt, status))
        },
        Err(_) => Err(()),
    }
}

// ----------------------------------------------------------------------
// Chunk by chunk
// ----------------------------------------------------------------------

/// The status of a chunked payload whose frames are `frames`, and that goes on
/// with `rest` behind the end marker: that of the trailer's signature, if the
/// envelope says that there is a trailer.
pub open spec fn trailer_status(
    ctx: ContextView,
    frames: Seq<u8>,
    rest: Seq<u8>,
    expected: Option<Seq<char>>,
) -> Option<i32> {
    let transcript = transcript::signed_stream(
        ctx.parsed.enc_ecdh,
        ctx.parsed.nonce,
        ctx.parsed.recipients_blob,
        ctx.rc,
        frames,
    );
    if ctx.parsed.has_trailer {
        match streaming::trailer_signature(rest) {
            Some(sig) => transcript::signature_status(Some(sig), expected, transcript),
            None => None,
        }
    } else {
        transcript::signature_status(None, expected, transcript)
    }
}

/// What a context decrypts to chunk by chunk: the chunks and the signature
/// status. A whole payload is one chunk, and its signature stands in the header.
pub open spec fn opened_chunks(ctx: ContextView, expected: Option<Seq<char>>) -> Option<
    (Seq<Seq<u8>>, i32),
> {
    if ctx.parsed.stream {
        match stream_content(ctx) {
            Some((chunks, n)) => match trailer_status(
                ctx,
                ctx.parsed.ct_and_tag.take(n),
                ctx.parsed.ct_and_tag.skip(n + 4),
                expected,
            ) {
                Some(status) => Some((chunks, status)),
                None => None,
            },
            None => None,
        }
    } else {
        match opened_content(ctx, expected) {
            Some((pt, status)) => Some((seq![pt], status)),
            None => None,
        }
    }
}

/// What a binary envelope decrypts to chunk by chunk.
pub open spec fn streamed(
    bytes: Seq<u8>,
    arm: Seq<char>,
    pass: Seq<char>,
    expected: Option<Seq<char>>,
) -> Option<(Seq<Seq<u8>>, i32)> {
    match handshake::context_of(bytes, arm, pass) {
        Some(ctx) => opened_chunks(ctx, expected),
        None => None,
    }
}

/// What UTF-8 armor decrypts to chunk by chunk.
pub open spec fn streamed_text(
    bytes: Seq<u8>,
    arm: Seq<char>,
    pass: Seq<char>,
    expected: Option<Seq<char>>,
) -> Option<(Seq<Seq<u8>>, i32)> {
    if valid_utf8(bytes) {
        match message::binary_of(decode_utf8(bytes)) {
            Some(binary) => streamed(binary, arm, pass, expected),
            None => None,
        }
    } else {
        None
    }
}

/// The chunks of a context that are authenticated one by one, before the signature
/// is checked: those of the frames that are intact and in their place, up to the
/// first that is not; or the one of a whole payload that opens.
pub open spec fn authentic(ctx: ContextView) -> Seq<Seq<u8>> {
    if ctx.parsed.stream {
        streaming::authentic_chunks(
            ctx.cek,
            ctx.rc,
            context_aad(ctx),
            0,
            ctx.parsed.ct_and_tag,
        )
    } else {
        match whole_content(ctx) {
            Some(pt) => seq![pt],
            None => seq![],
        }
    }
}

/// The authenticated chunks of a binary envelope.
pub open spec fn authentic_in(bytes: Seq<u8>, arm: Seq<char>, pass: Seq<char>) -> Seq<Seq<u8>> {
    match handshake::context_of(bytes, arm, pass) {
        Some(ctx) => authentic(ctx),
        None => seq![],
    }
}

/// The authenticated chunks of UTF-8 armor.
pub open spec fn authentic_in_text(
    bytes: Seq<u8>,
    arm: Seq<char>,
    pass: Seq<char>,
) -> Seq<Seq<u8>> {
    if valid_utf8(bytes) {
        match message::binary_of(decode_utf8(bytes)) {
            Some(binary) => authentic_in(binary, arm, pass),
            None => seq![],
        }
    } else {
        seq![]
    }
}

/// What decrypting to chunks and a status `opened`, with the given authenticated
/// chunks, does to a sink. On success the status is given, and the sink has taken
/// the chunks, each once and in order. On failure the sink has taken authenticated
/// chunks, from the first on: all of them where there is nothing to decrypt to, or
/// those before one that it refused. Nothing else was offered to it either way.
pub open spec fn handed_over<F: FnMut(&[u8]) -> Result<(), ()>>(
    r: Result<i32, ()>,
    opened: Option<(Seq<Seq<u8>>, i32)>,
    authentic: Seq<Seq<u8>>,
    before: Sink<F>,
    after: Sink<F>,
) -> bool {
    match r {
        Ok(status) => opened matches Some(o) && o.1 == status && took_all(before, after, o.0),
        Err(_) => {
            ||| opened is None && took_all(before, after, authentic)
            ||| refused_one(before, after, authentic)
        },
    }
}

/// A sink that refuses nothing gets all that there is to decrypt, and the caller the
/// status.
pub proof fn lemma_delivered<F: FnMut(&[u8]) -> Result<(), ()>>(
    r: Result<i32, ()>,
    opened: (Seq<Seq<u8>>, i32),
    authentic: Seq<Seq<u8>>,
    before: Sink<F>,
    after: Sink<F>,
)
    requires
        handed_over(r, Some(opened), authentic, before, after),
        forall|piece: Seq<u8>| !#[trigger] refuses(before.function(), piece),
    ensures
        r == Ok::<i32, ()>(opened.1),
        took_all(before, after, opened.0),
{
}

/// Where a context decrypts, its chunks are its authenticated chunks.
pub proof fn lemma_opened_authentic(ctx: ContextView, expected: Option<Seq<char>>)
    ensures
        opened_chunks(ctx, expected) matches Some(o) ==> o.0 == authentic(ctx),
{
    streaming::lemma_opened_authentic(
        ctx.cek,
        ctx.rc,
        context_aad(ctx),
        0,
        ctx.parsed.ct_and_tag,
    );
}

/// Reads the signature of a trailer. Nothing may follow it.
pub fn read_trailer(s: &[u8]) -> (sig: Result<&[u8], ()>)
    ensures
        match sig {
            Ok(b) => streaming::trailer_signature(s@) == Some(b@),
            Err(_) => streaming::trailer_signature(s@) is None,
        },
{
    if s.len() < TRAILER_HEAD_LEN {
        return Err(());
    }
    let n: usize = match parse_trailer_head(slice_subrange(s, 0, TRAILER_HEAD_LEN)) {
        Ok(n) => n,
        Err(_) => {
            assert(s@.subrange(0, 36).take(32) =~= s@.take(32));
            return Err(());
        },
    };
    proof {
        assert(s@.subrange(0, 36).take(32) =~= s@.take(32));
        assert(s@.subrange(0, 36).skip(32) =~= s@.subrange(32, 36));
    }
    if s.len() - TRAILER_HEAD_LEN != n {
        return Err(());
    }
    let sig: &[u8] = slice_subrange(s, TRAILER_HEAD_LEN, s.len());
    assert(sig@ =~= s@.skip(36));
    Ok(sig)
}

/// Reads magic and length of a trailer: the length of the signature. Fails
/// exactly when the magic is another.
pub fn parse_trailer_head(head: &[u8]) -> (n: Result<usize, ()>)
    requires
        head@.len() == TRAILER_HEAD_LEN,
    ensures
        n is Ok <==> head@.take(32) == TRAILER_MAGIC@,
        n matches Ok(k) ==> k == util::be32_value(head@.skip(32)),
{
    let magic: &[u8] = slice_subrange(head, 0, 32);
    assert(magic@ =~= head@.take(32));
    if !ct_eq(magic, TRAILER_MAGIC.as_slice()) {
        return Err(());
    }
    let len: &[u8] = slice_subrange(head, 32, 36);
    assert(len@ =~= head@.skip(32));
    assert(len@.take(4) =~= len@);
    Ok(be_value(len) as usize)
}

/// The status of a trailer's signature, or of none, over the digest of the
/// frames. Fails exactly when there is a signature, a public key is expected, and
/// that key cannot be read.
pub fn stream_status(
    ctx: &DecryptContext,
    signature: Option<&[u8]>,
    expected_public: Option<&str>,
    digest: &[u8; 32],
) -> (status: Result<i32, ()>)
    ensures
        ({
            let expected = transcript::signature_status(
                match signature {
                    Some(s) => Some(s@),
                    None => None,
                },
                transcript::text_view(expected_public),
                transcript::signed_digest(
                    ctx@.parsed.enc_ecdh,
                    ctx@.parsed.nonce,
                    ctx@.parsed.recipients_blob,
                    ctx@.rc,
                    digest@,
                ),
            );
            match status {
                Ok(s) => expected == Some(s),
                Err(_) => expected is None,
            }
        }),
{
    let sig: &[u8] = match signature {
        Some(s) => s,
        None => {
            return Ok(
                if expected_public.is_some() {
                    3
                } else {
                    0
                },
            );
        },
    };
    let arm: &str = match expected_public {
        Some(a) => a,
        None => {
            return Ok(3);
        },
    };
    let p: PublicBundle = match parse_public(arm) {
        Ok(p) => p,
        Err(_) => {
            return Err(());
        },
    };
    let transcript: Vec<u8> = transcript_stream(
        &ctx.parsed.enc_ecdh,
        &ctx.parsed.nonce,
        ctx.parsed.recipients_blob.as_slice(),
        &ctx.rc,
        digest,
    );
    Ok(check_signature(&p, transcript.as_slice(), sig))
}

/// The status of a chunked payload, whose frames end at `end`.
fn payload_status(ctx: &DecryptContext, end: usize, expected_public: Option<&str>) -> (status:
    Result<i32, ()>)
    requires
        end + 4 <= ctx@.parsed.ct_and_tag.len(),
    ensures
        ({
            let s = ctx@.parsed.ct_and_tag;
            let expected = trailer_status(
                ctx@,
                s.take(end as int),
                s.skip(end + 4),
                transcript::text_view(expected_public),
            );
            match status {
                Ok(st) => expected == Some(st),
                Err(_) => expected is None,
            }
        }),
{
    let s: &[u8] = ctx.parsed.ct_and_tag.as_slice();
    assert(end + 4 <= s.len());
    if !ctx.parsed.has_trailer {
        return Ok(
            if expected_public.is_some() {
                3
            } else {
                0
            },
        );
    }
    let rest: &[u8] = slice_subrange(s, end + 4, s.len());
    assert(rest@ =~= s@.skip(end + 4));
    let sig: &[u8] = match read_trailer(rest) {
        Ok(b) => b,
        Err(_) => {
            return Err(());
        },
    };
    let mut digest: RunningDigest = RunningDigest::new();
    digest.update(slice_subrange(s, 0, end));
    assert(digest@ =~= s@.take(end as int));
    let digest_bytes: [u8; 32] = digest.finalize();
    stream_status(ctx, Some(sig), expected_public, &digest_bytes)
}

/// Hands over the chunks of a payload. The result is where the frames end.
fn hand_over_chunks<F: FnMut(&[u8]) -> Result<(), ()>>(
    ctx: &DecryptContext,
    on_chunk: &mut Sink<F>,
) -> (end: Result<usize, ()>)
    requires
        ctx@.parsed.stream,
        old(on_chunk).ready(),
    ensures
        final(on_chunk).function() == old(on_chunk).function(),
        match end {
            Ok(e) => {
                &&& e + 4 <= ctx@.parsed.ct_and_tag.len()
                &&& stream_content(ctx@) == Some((authentic(ctx@), e as int))
                &&& took_all(*old(on_chunk), *final(on_chunk), authentic(ctx@))
            },
            Err(_) => {
                ||| stream_content(ctx@) is None && took_all(
                    *old(on_chunk),
                    *final(on_chunk),
                    authentic(ctx@),
                )
                ||| refused_one(*old(on_chunk), *final(on_chunk), authentic(ctx@))
            },
        },
{
    let aad: Vec<u8> = aad_for(
        &ctx.parsed.enc_ecdh,
        &ctx.parsed.nonce,
        ctx.parsed.recipients_blob.as_slice(),
        true,
    );
    let s: &[u8] = ctx.parsed.ct_and_tag.as_slice();
    let ghost v = ctx@;
    let ghost all = streaming::opened_frames(v.cek, v.rc, aad@, 0, s@);
    let ghost good = authentic(v);
    let ghost before = *on_chunk;
    let mut pos: usize = 0;
    let mut index: u32 = 0;
    proof {
        assert(s@.skip(0) =~= s@);
        assert(good.skip(0) =~= good);
        assert(good.take(0) =~= Seq::<Seq<u8>>::empty());
        assert(before.taken() + good.take(0) =~= before.taken());
        assert(before.offered() + good.take(0) =~= before.offered());
        if all is Some {
            assert(good.take(0) + (all->0).0 =~= (all->0).0);
        }
    }
    loop
        invariant
            pos <= s@.len(),
            v == ctx@,
            s@ == v.parsed.ct_and_tag,
            aad@ == context_aad(v),
            v.parsed.stream,
            good == authentic(v),
            before == *old(on_chunk),
            on_chunk.ready(),
            on_chunk.function() == before.function(),
            index <= good.len(),
            took_all(before, *on_chunk, good.take(index as int)),
            good.skip(index as int) == streaming::authentic_chunks(
                v.cek,
                v.rc,
                aad@,
                index as int,
                s@.skip(pos as int),
            ),
            all == streaming::opened_frames(v.cek, v.rc, aad@, 0, s@),
            all == frames_after(
                good.take(index as int),
                pos as int,
                streaming::opened_frames(v.cek, v.rc, aad@, index as int, s@.skip(pos as int)),
            ),
        decreases s@.len() - pos,
    {
        match open_frame_at(ctx.cek(), &ctx.rc, aad.as_slice(), index, s, pos) {
            Ok(Some((chunk, next))) => {
                let ghost k = index as int;
                let ghost rest = streaming::opened_frames(
                    v.cek,
                    v.rc,
                    aad@,
                    k + 1,
                    s@.skip(next as int),
                );
                proof {
                    lemma_next_piece(good, k, chunk@, s@.skip(next as int), v, aad@);
                    if rest is Some {
                        assert(good.take(k) + (seq![chunk@] + (rest->0).0) =~= good.take(k + 1)
                            + (rest->0).0);
                    }
                }
                if on_chunk.take(chunk.as_slice()).is_err() {
                    proof {
                        assert(on_chunk.offered() =~= before.offered() + good.take(k + 1));
                        assert(refused_at(before, *on_chunk, good, k));
                    }
                    return Err(());
                }
                proof {
                    assert(on_chunk.offered() =~= before.offered() + good.take(k + 1));
                    assert(on_chunk.taken() =~= before.taken() + good.take(k + 1));
                }
                pos = next;
                index = index + 1;
            },
            Ok(None) => {
                proof {
                    let k = index as int;
                    assert(good.skip(k).len() == 0);
                    assert(good.take(k) =~= good);
                    assert(good + Seq::<Seq<u8>>::empty() =~= good);
                }
                if !ctx.parsed.has_trailer && s.len() - pos != 4 {
                    return Err(());
                }
                return Ok(pos);
            },
            Err(_) => {
                proof {
                    let k = index as int;
                    assert(good.skip(k).len() == 0);
                    assert(good.take(k) =~= good);
                }
                return Err(());
            },
        }
    }
}

/// The piece at `k`, and what follows it.
proof fn lemma_next_piece(
    pieces: Seq<Seq<u8>>,
    k: int,
    piece: Seq<u8>,
    rest: Seq<u8>,
    ctx: ContextView,
    aad: Seq<u8>,
)
    requires
        0 <= k <= pieces.len(),
        pieces.skip(k) == seq![piece] + streaming::authentic_chunks(
            ctx.cek,
            ctx.rc,
            aad,
            k + 1,
            rest,
        ),
    ensures
        k < pieces.len(),
        pieces[k] == piece,
        pieces.take(k + 1) == pieces.take(k).push(piece),
        pieces.skip(k + 1) == streaming::authentic_chunks(ctx.cek, ctx.rc, aad, k + 1, rest),
{
    let more = streaming::authentic_chunks(ctx.cek, ctx.rc, aad, k + 1, rest);
    let all = seq![piece] + more;
    assert(pieces.skip(k).len() == 1 + more.len());
    assert(pieces[k] == all[0]);
    assert(pieces.take(k + 1) =~= pieces.take(k).push(piece));
    assert(pieces.skip(k + 1) =~= all.skip(1));
    assert(all.skip(1) =~= more);
}

/// Decrypts a chunked payload, hands over its chunks and gives the signature
/// status.
fn hand_over_stream<F: FnMut(&[u8]) -> Result<(), ()>>(
    ctx: &DecryptContext,
    expected_public: Option<&str>,
    on_chunk: &mut Sink<F>,
) -> (status: Result<i32, ()>)
    requires
        ctx@.parsed.stream,
        old(on_chunk).ready(),
    ensures
        final(on_chunk).function() == old(on_chunk).function(),
        handed_over(
            status,
            opened_chunks(ctx@, transcript::text_view(expected_public)),
            authentic(ctx@),
            *old(on_chunk),
            *final(on_chunk),
        ),
{
    match hand_over_chunks(ctx, on_chunk) {
        Ok(end) => payload_status(ctx, end, expected_public),
        Err(_) => Err(()),
    }
}

/// Decrypts a whole payload, hands it over and gives the signature status.
fn hand_over_whole<F: FnMut(&[u8]) -> Result<(), ()>>(
    ctx: &DecryptContext,
    expected_public: Option<&str>,
    on_chunk: &mut Sink<F>,
) -> (status: Result<i32, ()>)
    requires
        !ctx@.parsed.stream,
        old(on_chunk).ready(),
    ensures
        final(on_chunk).function() == old(on_chunk).function(),
        handed_over(
            status,
            opened_chunks(ctx@, transcript::text_view(expected_public)),
            authentic(ctx@),
            *old(on_chunk),
            *final(on_chunk),
        ),
{
    let ghost before = *on_chunk;
    let ghost good = authentic(ctx@);
    let pt: Vec<u8> = match decrypt_content(ctx) {
        Ok(p) => p,
        Err(_) => {
            assert(before.taken() + good =~= before.taken());
            assert(before.offered() + good =~= before.offered());
            return Err(());
        },
    };
    assert(good =~= seq![pt@]);
    if on_chunk.take(pt.as_slice()).is_err() {
        proof {
            assert(good.take(1) =~= good);
            assert(on_chunk.taken() =~= before.taken() + good.take(0));
            assert(on_chunk.offered() =~= before.offered() + good.take(1));
            assert(refused_at(before, *on_chunk, good, 0));
        }
        return Err(());
    }
    proof {
        assert(on_chunk.taken() =~= before.taken() + good);
        assert(on_chunk.offered() =~= before.offered() + good);
    }
    verify_signature_status(ctx, expected_public)
}

/// Decrypts a binary envelope and hands the chunks to `on_chunk`, each once and in
/// order. The result is the signature status, which for a chunked payload is that
/// of the trailer.
///
/// Chunks are handed over as soon as they are authenticated, before the
/// signature is checked. Only a signature tells that no chunks are missing at the
/// end.
pub fn decrypt_streaming_raw<F: FnMut(&[u8]) -> Result<(), ()>>(
    bytes: &[u8],
    my_secret_armored: &str,
    passphrase: &str,
    expected_public: Option<&str>,
    on_chunk: &mut Sink<F>,
) -> (status: Result<i32, ()>)
    requires
        old(on_chunk).ready(),
    ensures
        final(on_chunk).function() == old(on_chunk).function(),
        handed_over(
            status,
            streamed(
                bytes@,
                my_secret_armored@,
                passphrase@,
                transcript::text_view(expected_public),
            ),
            authentic_in(bytes@, my_secret_armored@, passphrase@),
            *old(on_chunk),
            *final(on_chunk),
        ),
{
    let ctx: DecryptContext = match build_decrypt_context(bytes, my_secret_armored, passphrase) {
        Ok(c) => c,
        Err(_) => {
            proof {
                lemma_took_nothing(*on_chunk);
            }
            return Err(());
        },
    };
    match ctx.parsed.stream {
        StreamFlag::No => hand_over_whole(&ctx, expected_public, on_chunk),
        StreamFlag::Yes => hand_over_stream(&ctx, expected_public, on_chunk),
    }
}

/// Decrypts UTF-8 armor and hands the chunks to `on_chunk`, as
/// [`decrypt_streaming_raw`] does. Nothing is handed over where the bytes are not
/// UTF-8 or no armor.
pub fn decrypt_streaming<F: FnMut(&[u8]) -> Result<(), ()>>(
    bytes: &[u8],
    my_secret_armored: &str,
    passphrase: &str,
    expected_public: Option<&str>,
    on_chunk: &mut Sink<F>,
) -> (status: Result<i32, ()>)
    requires
        old(on_chunk).ready(),
    ensures
        final(on_chunk).function() == old(on_chunk).function(),
        handed_over(
            status,
            streamed_text(
                bytes@,
                my_secret_armored@,
                passphrase@,
                transcript::text_view(expected_public),
            ),
            authentic_in_text(bytes@, my_secret_armored@, passphrase@),
            *old(on_chunk),
            *final(on_chunk),
        ),
{
    proof {
        lemma_took_nothing(*on_chunk);
    }
    let text: &str = match armor_text(bytes) {
        Ok(t) => t,
        Err(_) => {
            return Err(());
        },
    };
    let binary: Vec<u8> = match binary_from_armor(text) {
        Ok(b) => b,
        Err(_) => {
            return Err(());
        },
    };
    decrypt_streaming_raw(
        binary.as_slice(),
        my_secret_armored,
        passphrase,
        expected_public,
        on_chunk,
    )
}

} // verus!
