//! Files, piece by piece.

use vstd::prelude::*;
use vstd::slice::*;
use vstd::string::*;

use crate::armor;
use crate::armor::parse_public_list;
use crate::constants::TRAILER_MAGIC;
use crate::context::{DecryptContext, HandshakeView};
use crate::crypto;
use crate::decrypt;
use crate::encrypt;
use crate::envelope;
use crate::envelope::EnvelopeView;
use crate::file_decrypt;
use crate::file_decrypt::{FileDecryptor, FileEvent, Need, Phase};
use crate::file_encrypt;
use crate::file_encrypt::FileEncryptor;
use crate::handshake;
use crate::handshake::{build_decrypt_context, SenderView};
use crate::keys::{PublicBundle, SecretBundle};
use crate::laws::decryption::{framed, lemma_frame_nonce, whole_text};
use crate::laws::delivery::{
    delivers, delivers_whole, lemma_delivers, lemma_delivers_whole,
};
use crate::laws::encryption::unlocks;
use crate::laws::formats::{
    flag_byte, frame_nonce, head_of, lemma_wire, trailer, trailer_magic, wire,
};
use crate::laws::lists::keys_in;
use crate::laws::sealing::{
    addresses, lemma_addresses, lemma_frames, lemma_payload_end, lemma_signed_with, payload_end,
    sealed_bodies, settled, signed_with, Settled,
};
use crate::laws::signatures::expects;
use crate::laws::{
    lemma_numbers, lemma_payload_aad, lemma_signed_text, number, payload_aad, signed_text,
};
use crate::streaming;
use crate::transcript;
use crate::util;

verus! {

// ----------------------------------------------------------------------
// Writing
// ----------------------------------------------------------------------

/// What a file begins with: preamble and header of a chunked message, whose signature,
/// if it has one, stands in a trailer.
pub open spec fn file_start(h: HandshakeView, signed: bool) -> Seq<u8> {
    head_of(flag_byte(true, signed), 96 + h.recipients_blob.len() as int) + h.enc_ecdh + h.nonce
        + h.rc + number(h.recipients_blob.len() as int, 4) + h.recipients_blob + number(0, 4)
}

/// The envelope of a handshake, without its payload.
pub open spec fn envelope_start(h: HandshakeView, signed: bool) -> EnvelopeView {
    EnvelopeView {
        enc_ecdh: h.enc_ecdh,
        nonce: h.nonce,
        recipients_blob: h.recipients_blob,
        ct_and_tag: seq![],
        signature: None,
        stream: true,
        rc: h.rc,
        has_trailer: signed,
    }
}

/// Preamble and header of a file.
proof fn lemma_file_start(h: HandshakeView, signed: bool)
    requires
        h.enc_ecdh.len() == 32,
        h.nonce.len() == 24,
        h.rc.len() == 32,
    ensures
        file_encrypt::file_head(h, signed) == file_start(h, signed),
{
    let v = envelope_start(h, signed);
    lemma_wire(
        v.enc_ecdh,
        v.nonce,
        v.rc,
        v.recipients_blob,
        None,
        flag_byte(true, signed),
        v.ct_and_tag,
    );
    assert(file_encrypt::file_head(h, signed) =~= envelope::envelope_with_flags(
        v.enc_ecdh,
        v.nonce,
        v.recipients_blob,
        v.ct_and_tag,
        None,
        envelope::flags_of(true, signed),
        v.rc,
    ));
    assert(file_start(h, signed) =~= wire(v));
}

/// A file begins with preamble and header of a chunked message for the keys of the
/// list.
pub proof fn law_file_begun(
    recipients: &str,
    signer: Option<(&str, &str)>,
    chunk_size: usize,
    list: Result<Vec<PublicBundle>, ()>,
    r: Result<(FileEncryptor, Vec<u8>), ()>,
)
    requires
        call_ensures(parse_public_list, (recipients,), list),
        call_ensures(FileEncryptor::begin, (recipients, signer, chunk_size), r),
        r is Ok,
    ensures
        list is Ok,
        ({
            let e = (r->Ok_0).0;
            let h = e.handshake();
            &&& (r->Ok_0).1@ == file_start(h, signer is Some)
            &&& e.wf()
            &&& e.written() == (r->Ok_0).1@
            &&& e.signer() == match signer {
                Some(s) => Some((s.0@, s.1@)),
                None => None,
            }
            &&& e.chunks().len() == 0
            &&& e.signed() == signer is Some
            &&& h.stream_on
            &&& h.enc_ecdh.len() == 32 && h.nonce.len() == 24 && h.rc.len() == 32
            &&& exists|s: Settled| #[trigger]
                addresses(
                    envelope_start(h, signer is Some),
                    keys_in((list->Ok_0)@),
                    s,
                ) && s.cek == h.cek
        }),
{
    let h = (r->Ok_0).0.handshake();
    let l = keys_in((list->Ok_0)@);
    assert(armor::public_views(list->Ok_0@) =~= l);
    let sender = choose|sender: SenderView| handshake::is_handshake(h, l, sender);
    handshake::lemma_handshake_entries(h, l, sender);
    handshake::lemma_handshake_not_empty(h, l, sender);
    lemma_file_start(h, signer is Some);
    lemma_addresses(envelope_start(h, signer is Some), h, l, sender);
    assert(settled(h, sender).cek == h.cek);
}

/// Every chunk that fits gives the frame of its place, and the file goes on with it.
pub proof fn law_file_chunk(e: &mut FileEncryptor, chunk: &[u8], r: Result<Vec<u8>, ()>)
    requires
        call_ensures(FileEncryptor::seal, (e, chunk), r),
    ensures
        r is Ok <==> chunk@.len() + 16 < 0xFFFF_FFFF && old(e).chunks().len() < 0xFFFF_FFFF,
        final(e).wf(),
        final(e).handshake() == old(e).handshake(),
        final(e).signer() == old(e).signer(),
        r is Err ==> final(e).chunks() == old(e).chunks(),
        r matches Ok(f) ==> {
            let h = old(e).handshake();
            let n = old(e).chunks().len() as int;
            let body = crypto::xchacha_seal(
                h.cek,
                frame_nonce(h.cek, h.rc, n),
                payload_aad(h.enc_ecdh, h.nonce, h.recipients_blob, h.stream_on),
                chunk@,
            );
            &&& f@ == number(body.len() as int, 4) + frame_nonce(h.cek, h.rc, n) + body
            &&& final(e).chunks() == old(e).chunks().push(chunk@)
            &&& final(e).written() == old(e).written() + f@
        },
{
    let h = old(e).handshake();
    let n = old(e).chunks().len() as int;
    lemma_frame_nonce(h.cek, h.rc, n);
    lemma_payload_aad(h.enc_ecdh, h.nonce, h.recipients_blob, h.stream_on);
    lemma_numbers(streaming::chunk_body(h, n, chunk@).len() as int);
}

/// A file that has begun, or went on with a chunk, takes any chunk, and can be ended.
pub proof fn law_file_goes_on(e: &mut FileEncryptor, chunk: &[u8])
    requires
        old(e).wf(),
    ensures
        call_requires(FileEncryptor::seal, (e, chunk)),
        call_requires(FileEncryptor::finish, (*old(e),)),
{
}

/// What ends a file: the end marker, and, if there is a signer, a trailer with their
/// signature over the digest of the frames.
pub proof fn law_file_ended(
    e: FileEncryptor,
    signer: Option<(&str, &str)>,
    k: Option<Result<SecretBundle, ()>>,
    end: Vec<u8>,
)
    requires
        unlocks(signer, k),
        e.signer() == match signer {
            Some(s) => Some((s.0@, s.1@)),
            None => None,
        },
        e.handshake().stream_on,
        e.handshake().enc_ecdh.len() == 32,
        e.handshake().nonce.len() == 24,
        e.handshake().rc.len() == 32,
        call_ensures(FileEncryptor::finish, (e,), end),
    ensures
        ({
            let h = e.handshake();
            let frames = framed(
                h.cek,
                h.rc,
                0,
                sealed_bodies(
                    h.cek,
                    h.rc,
                    payload_aad(h.enc_ecdh, h.nonce, h.recipients_blob, true),
                    e.chunks(),
                ),
            );
            &&& e.written() == file_start(h, signer is Some) + frames
            &&& exists|sig: Option<Seq<u8>>|
                end@ == #[trigger] payload_end(sig) && signed_with(
                    sig,
                    k,
                    signed_text(
                        h.enc_ecdh,
                        h.nonce,
                        h.recipients_blob,
                        h.rc,
                        true,
                        crypto::sha256(frames),
                    ),
                )
        }),
{
    let h = e.handshake();
    let chunks = e.chunks();
    lemma_frames(h, chunks);
    let frames = streaming::frames_of(h, chunks);
    let sv = encrypt::signer_view(signer);
    let bytes = e.written() + end@;
    let sig = choose|sig: Option<Seq<u8>>| encrypt::sealed_stream(bytes, h, chunks, sv, sig);
    lemma_payload_end(sig);
    lemma_signed_text(h.enc_ecdh, h.nonce, h.recipients_blob, h.rc, frames);
    lemma_signed_with(sig, signer, k, encrypt::stream_transcript(h, chunks));
    let start = file_encrypt::file_head(h, signer is Some);
    lemma_file_start(h, signer is Some);
    assert(bytes =~= start + frames + payload_end(sig));
    assert(e.written() == start + frames);
    let n = (start + frames).len() as int;
    assert(bytes.skip(n) =~= end@);
    assert((start + frames + payload_end(sig)).skip(n) =~= payload_end(sig));
}

// ----------------------------------------------------------------------
// Reading
// ----------------------------------------------------------------------

/// A file opens exactly when its preamble and header, with any payload of sixteen
/// bytes, give the secret a content key.
pub proof fn law_file_opened(
    head: &[u8],
    arm: &str,
    pass: &str,
    bytes: &[u8],
    ctx: Result<DecryptContext, ()>,
    r: Result<FileDecryptor, ()>,
)
    requires
        bytes@ == head@ + Seq::new(16, |i: int| 0u8),
        call_ensures(build_decrypt_context, (bytes, arm, pass), ctx),
        call_ensures(FileDecryptor::open, (head, arm, pass), r),
    ensures
        r is Ok <==> (ctx matches Ok(c) && c@.parsed.ct_and_tag.len() == 16),
        r matches Ok(d) ==> {
            let c = (ctx->Ok_0)@;
            &&& d.wf()
            &&& d.context().cek == c.cek
            &&& d.context().rc == c.rc
            &&& d.context().parsed == EnvelopeView { ct_and_tag: seq![], ..c.parsed }
            &&& d.seen().len() == 0
            &&& d.chunks().len() == 0
            &&& d.phase() == if c.parsed.stream {
                Phase::Length
            } else {
                Phase::Whole
            }
        },
{
    assert(file_decrypt::no_payload() =~= Seq::new(16, |i: int| 0u8));
}

/// A file that is opened, or was fed, takes what it needs: that many bytes, or all that
/// is left, or, to see that nothing is left, at most one.
pub proof fn law_file_takes(
    d: &mut FileDecryptor,
    n: Need,
    bytes: &[u8],
    expected: Option<&str>,
)
    requires
        old(d).wf(),
        call_ensures(FileDecryptor::need, (&*old(d),), n),
        match n {
            Need::Exactly(k) => bytes@.len() == k,
            Need::Rest => true,
            Need::End => bytes@.len() <= 1,
            Need::Nothing => false,
        },
    ensures
        call_requires(FileDecryptor::feed, (d, bytes, expected)),
{
}

/// How much is to be read: the whole payload, or the fields of frames and trailer, one
/// after the other.
pub proof fn law_file_need(d: &FileDecryptor, n: Need)
    requires
        call_ensures(FileDecryptor::need, (d,), n),
    ensures
        n == match d.phase() {
            Phase::Whole => Need::Rest,
            Phase::Checking => Need::Exactly(0),
            Phase::Length => Need::Exactly(4),
            Phase::Nonce(_) => Need::Exactly(24),
            Phase::Body(_, k) => Need::Exactly(k),
            Phase::TrailerHead => Need::Exactly(36),
            Phase::Signature(k) => Need::Exactly(k),
            Phase::End => Need::End,
            Phase::Done => Need::Nothing,
        },
{
}

/// The envelope of a file, with the payload that has been read.
pub open spec fn file_envelope(d: FileDecryptor, bytes: Seq<u8>) -> EnvelopeView {
    EnvelopeView { ct_and_tag: d.seen() + bytes, ..d.context().parsed }
}

/// What feeding changes and what it leaves.
pub proof fn law_file_fed(
    d: &mut FileDecryptor,
    bytes: &[u8],
    expected: Option<&str>,
    r: Result<FileEvent, ()>,
)
    requires
        call_ensures(FileDecryptor::feed, (d, bytes, expected), r),
    ensures
        final(d).wf(),
        final(d).context() == old(d).context(),
        r is Ok ==> final(d).seen() == old(d).seen() + bytes@,
        r is Err ==> final(d).phase() is Done,
        r matches Ok(FileEvent::Chunk(c)) ==> final(d).chunks() == old(d).chunks().push(c@),
        r is Ok && !(r->Ok_0 is Chunk) ==> final(d).chunks() == old(d).chunks(),
        r matches Ok(FileEvent::Chunk(_)) ==> old(d).phase() is Whole || old(d).phase() is Body,
        r matches Ok(FileEvent::Done(_)) ==> old(d).phase() is Checking || old(d).phase() is End,
{
}

/// The length of a frame: less than a tag is refused, the end marker ends the frames,
/// and all else is the length of a body, behind a nonce.
pub proof fn law_file_length(
    d: &mut FileDecryptor,
    bytes: &[u8],
    expected: Option<&str>,
    r: Result<FileEvent, ()>,
    n: int,
)
    requires
        old(d).phase() is Length,
        0 <= n <= 0xFFFF_FFFF,
        bytes@ == number(n, 4),
        call_ensures(FileDecryptor::feed, (d, bytes, expected), r),
    ensures
        r is Ok <==> n >= 16,
        r matches Ok(e) ==> e is Wait,
        n == 0xFFFF_FFFF ==> final(d).phase() == if old(d).context().parsed.has_trailer {
            Phase::TrailerHead
        } else {
            Phase::End
        },
        16 <= n < 0xFFFF_FFFF ==> final(d).phase() == Phase::Nonce(n as usize),
{
    lemma_numbers(n);
    util::lemma_be32(n, seq![]);
}

/// The nonce of a frame: it is that of the frame's place, or it is refused.
pub proof fn law_file_nonce(
    d: &mut FileDecryptor,
    bytes: &[u8],
    expected: Option<&str>,
    r: Result<FileEvent, ()>,
    len: usize,
)
    requires
        old(d).phase() == Phase::Nonce(len),
        call_ensures(FileDecryptor::feed, (d, bytes, expected), r),
    ensures
        ({
            let c = old(d).context();
            let n = old(d).chunks().len();
            r is Ok <==> n < 0xFFFF_FFFF && bytes@ == frame_nonce(c.cek, c.rc, n as int)
        }),
        r matches Ok(e) ==> e is Wait && final(d).phase() == Phase::Body(bytes@, len),
{
    let c = old(d).context();
    lemma_frame_nonce(c.cek, c.rc, old(d).chunks().len() as int);
}

/// The body of a frame: what it opens to is the next chunk; what does not open is
/// refused.
pub proof fn law_file_body(
    d: &mut FileDecryptor,
    bytes: &[u8],
    expected: Option<&str>,
    r: Result<FileEvent, ()>,
    nonce: Seq<u8>,
    len: usize,
)
    requires
        old(d).phase() == Phase::Body(nonce, len),
        call_ensures(FileDecryptor::feed, (d, bytes, expected), r),
    ensures
        ({
            let c = old(d).context();
            let v = c.parsed;
            let opened = crypto::xchacha_open(
                c.cek,
                nonce,
                payload_aad(v.enc_ecdh, v.nonce, v.recipients_blob, v.stream),
                bytes@,
            );
            match r {
                Ok(FileEvent::Chunk(x)) => opened == Some(x@),
                Ok(_) => false,
                Err(_) => opened is None,
            }
        }),
        r is Ok ==> final(d).phase() is Length,
{
    let v = old(d).context().parsed;
    lemma_payload_aad(v.enc_ecdh, v.nonce, v.recipients_blob, v.stream);
}

/// Magic and length of a trailer: with another magic it is refused.
pub proof fn law_file_trailer(
    d: &mut FileDecryptor,
    bytes: &[u8],
    expected: Option<&str>,
    r: Result<FileEvent, ()>,
    n: int,
)
    requires
        old(d).phase() is TrailerHead,
        0 <= n <= 0xFFFF_FFFF,
        bytes@.skip(32) == number(n, 4),
        call_ensures(FileDecryptor::feed, (d, bytes, expected), r),
    ensures
        r is Ok <==> bytes@.take(32) == trailer_magic(),
        r matches Ok(e) ==> e is Wait && final(d).phase() == Phase::Signature(n as usize),
{
    lemma_numbers(n);
    util::lemma_be32(n, seq![]);
    assert(TRAILER_MAGIC@ =~= trailer_magic());
}

/// A signature of any bytes is read; it is judged when the file has ended.
pub proof fn law_file_signature(
    d: &mut FileDecryptor,
    bytes: &[u8],
    expected: Option<&str>,
    r: Result<FileEvent, ()>,
)
    requires
        old(d).phase() is Signature,
        call_ensures(FileDecryptor::feed, (d, bytes, expected), r),
    ensures
        r matches Ok(e) && e is Wait,
        final(d).phase() is End,
{
}

/// A whole payload: what it opens to is the only chunk.
pub proof fn law_file_whole(
    d: &mut FileDecryptor,
    bytes: &[u8],
    expected: Option<&str>,
    r: Result<FileEvent, ()>,
)
    requires
        old(d).phase() is Whole,
        !old(d).context().parsed.stream,
        call_ensures(FileDecryptor::feed, (d, bytes, expected), r),
    ensures
        ({
            let c = old(d).context();
            let opened = whole_text(EnvelopeView { ct_and_tag: bytes@, ..c.parsed }, c.cek);
            match r {
                Ok(FileEvent::Chunk(x)) => opened == Some(x@),
                Ok(_) => false,
                Err(_) => opened is None,
            }
        }),
        r is Ok ==> final(d).phase() is Checking,
{
    let v = old(d).context().parsed;
    lemma_payload_aad(v.enc_ecdh, v.nonce, v.recipients_blob, false);
}

/// The end of a chunked file: bytes that are left are refused; else the status comes
/// out exactly when the payload that was read is complete and the status can be told.
pub proof fn law_file_end(
    d: &mut FileDecryptor,
    bytes: &[u8],
    expected: Option<&str>,
    q: Option<Result<PublicBundle, ()>>,
    r: Result<FileEvent, ()>,
)
    requires
        old(d).phase() is End,
        old(d).context().parsed.stream,
        expects(expected, q),
        call_ensures(FileDecryptor::feed, (d, bytes, expected), r),
    ensures
        bytes@.len() > 0 ==> r is Err,
        ({
            let c = old(d).context();
            let v = file_envelope(*old(d), bytes@);
            match r {
                Ok(FileEvent::Done(status)) => exists|
                    bodies: Seq<Seq<u8>>,
                    sig: Option<Seq<u8>>,
                | #[trigger]
                    delivers(v, c.rc, c.cek, q, bodies, old(d).chunks(), sig, status),
                Ok(_) => false,
                Err(_) => forall|
                    bodies: Seq<Seq<u8>>,
                    chunks: Seq<Seq<u8>>,
                    sig: Option<Seq<u8>>,
                    status: i32,
                |
                    !#[trigger] delivers(v, c.rc, c.cek, q, bodies, chunks, sig, status),
            }
        }),
{
    let c = file_decrypt::with_payload(old(d).context(), old(d).seen() + bytes@);
    let none: Seq<u8> = seq![];
    assert(old(d).seen() + bytes@ + none =~= old(d).seen() + bytes@);
    if r is Err {
        assert(file_decrypt::may_follow(old(d).context(), old(d).needs(), bytes@, none));
        assert(decrypt::opened_chunks(
            file_decrypt::with_payload(old(d).context(), old(d).seen() + bytes@ + none),
            transcript::text_view(expected),
        ) is None);
    }
    lemma_delivers(c, expected, q);
}

/// The end of a whole file: the status comes out exactly when it can be told.
pub proof fn law_file_checked(
    d: &mut FileDecryptor,
    bytes: &[u8],
    expected: Option<&str>,
    q: Option<Result<PublicBundle, ()>>,
    r: Result<FileEvent, ()>,
)
    requires
        old(d).phase() is Checking,
        !old(d).context().parsed.stream,
        expects(expected, q),
        call_ensures(FileDecryptor::feed, (d, bytes, expected), r),
    ensures
        ({
            let c = old(d).context();
            let v = file_envelope(*old(d), bytes@);
            match r {
                Ok(FileEvent::Done(status)) => old(d).chunks().len() == 1 && delivers_whole(
                    v,
                    c.rc,
                    c.cek,
                    q,
                    old(d).chunks()[0],
                    status,
                ),
                Ok(_) => false,
                Err(_) => forall|pt: Seq<u8>, status: i32|
                    !#[trigger] delivers_whole(v, c.rc, c.cek, q, pt, status),
            }
        }),
{
    let c = file_decrypt::with_payload(old(d).context(), old(d).seen() + bytes@);
    let none: Seq<u8> = seq![];
    assert(old(d).seen() + bytes@ + none =~= old(d).seen() + bytes@);
    if r is Err {
        assert(file_decrypt::may_follow(old(d).context(), old(d).needs(), bytes@, none));
        assert(decrypt::opened_chunks(
            file_decrypt::with_payload(old(d).context(), old(d).seen() + bytes@ + none),
            transcript::text_view(expected),
        ) is None);
    }
    lemma_delivers_whole(c, expected, q);
}

} // verus!
