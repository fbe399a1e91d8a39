//! The parts that the protocol is put together from, and the rules of the command line.

use vstd::prelude::*;
use vstd::slice::*;
use vstd::string::*;
use vstd::utf8::*;

use crate::armor::{canonical_secret_aad, check_field, get_bytes, get_number};
use crate::block;
use crate::block::{append_fields, build_block, push_field, Fields};
use crate::context::EncryptHandshake;
use crate::crypto;
use crate::decrypt::parse_trailer_head;
use crate::encrypt::header_fits;
use crate::envelope::{encode_envelope_binary, parse_envelope_binary, ParsedBinary};
use crate::keys::{assemble_keypair, seal_secret, Argon2idParams, PublicBundle, SecretBundle};
use crate::laws::blocks::{field_says, has_number};
use crate::laws::decryption::lemma_frame_nonce;
use crate::laws::formats::{frame_nonce, trailer_magic};
use crate::laws::keystore::locked_ct;
use crate::laws::texts::{fit_for_use, text_of_message};
use crate::laws::{
    b64, blank, keystore_aad, keystore_text, lemma_blank, lemma_key_blob, lemma_keystore_aad,
    lemma_keystore_text, lemma_message_text, lemma_numbers, lemma_one_more_line, lemma_payload_aad,
    lemma_public_text,
    lemma_signed_text, line, number, payload_aad, public_text, signed_text,
};
use crate::message;
use crate::message::{armor_from_binary, armor_message, armor_parsed, entry_ids, MessageView};
use crate::recipients::RecipientEntry;
use crate::rules::{
    blank_passphrase, input_format, is_armored, judge_chunk_size, judge_recipient_count,
    memory_cost_kib, refuse_stream, ChunkSize, Format, RecipientCount, StreamRefusal,
};
use crate::streaming;
use crate::streaming::{
    derive_chunk_nonce, is_chunk_nonce, open_body, open_frame_at, parse_frame_head, seal_frame,
    FrameHead, RunningDigest,
};
use crate::transcript::{
    aad_for, canonical_aad, canonical_sig_header_part, canonical_sig_nonstream, canonical_sig_stream_digest, check_signature,
    hybrid_sign, transcript_stream, transcript_whole,
};
use crate::transcript;
use crate::util;
use crate::util::{array_12, array_24, array_32, array_64, read_be_u32};

verus! {

// ----------------------------------------------------------------------
// Rules
// ----------------------------------------------------------------------

/// No recipients are none, and more than 512 have to be allowed.
pub proof fn law_recipient_count(count: usize, allow_many: bool, r: RecipientCount)
    requires
        call_ensures(judge_recipient_count, (count, allow_many), r),
    ensures
        r == if count == 0 {
            RecipientCount::Zero
        } else if count > 512 && !allow_many {
            RecipientCount::TooMany
        } else {
            RecipientCount::Fine
        },
{
}

/// Chunks are too large from where the length of their frame would say that it is the
/// end marker, and small below 64 KiB.
pub proof fn law_chunk_size(size: usize, r: ChunkSize)
    requires
        call_ensures(judge_chunk_size, (size,), r),
    ensures
        r == if size + 16 >= 0xFFFF_FFFF {
            ChunkSize::TooLarge
        } else if size < 64 * 1024 {
            ChunkSize::Small
        } else {
            ChunkSize::Fine
        },
{
}

/// Chunked output is neither armored nor written to a terminal.
pub proof fn law_refuse_stream(armor: bool, to_stdout: bool, tty: bool, r: Option<StreamRefusal>)
    requires
        call_ensures(refuse_stream, (armor, to_stdout, tty), r),
    ensures
        r is None <==> !armor && !(to_stdout && tty),
        r matches Some(StreamRefusal::Armor) <==> armor,
{
}

/// Data is armored exactly when it begins with the marker of a message.
pub proof fn law_is_armored(buf: &[u8], r: bool)
    requires
        call_ensures(is_armored, (buf,), r),
    ensures
        r <==> exists|rest: Seq<u8>|
            buf@ == #[trigger] ("-----BEGIN VELUM MESSAGE-----".spec_bytes() + rest),
{
    let m = "-----BEGIN VELUM MESSAGE-----".spec_bytes();
    if r {
        let rest = buf@.skip(m.len() as int);
        assert(buf@ =~= m + rest);
    }
    if exists|rest: Seq<u8>| buf@ == #[trigger] (m + rest) {
        let rest = choose|rest: Seq<u8>| buf@ == #[trigger] (m + rest);
        assert((m + rest).take(m.len() as int) =~= m);
    }
}

/// The format is what was asked for, or, if nothing was, what the data begins like.
pub proof fn law_input_format(armor: bool, binary: bool, first: &[u8], r: Format, looks: bool)
    requires
        call_ensures(input_format, (armor, binary, first), r),
        call_ensures(is_armored, (first,), looks),
    ensures
        armor ==> r is Armor,
        !armor && binary ==> !(r is Armor),
        !armor && !binary ==> (r is Armor <==> looks),
{
}

/// The memory cost is asked for in MiB and is 96 MiB if it is not; where it does not
/// fit, there is none.
pub proof fn law_memory_cost(m: Option<u32>, r: Option<u32>)
    requires
        call_ensures(memory_cost_kib, (m,), r),
    ensures
        m is None ==> r == Some(98304u32),
        m matches Some(mib) ==> match r {
            Some(kib) => kib == 1024 * mib,
            None => 1024 * mib > 0xFFFF_FFFF,
        },
{
}

/// Passphrases are refused if one of them is blank.
pub proof fn law_blank_passphrase(old_pass: &str, new_pass: &str, r: bool)
    requires
        call_ensures(blank_passphrase, (old_pass, new_pass), r),
    ensures
        r == (blank(old_pass@) || blank(new_pass@)),
{
    lemma_blank(old_pass@);
    lemma_blank(new_pass@);
}

// ----------------------------------------------------------------------
// Texts that are authenticated and signed
// ----------------------------------------------------------------------

/// What the ciphers authenticate is written as said.
pub proof fn law_aad(
    enc_ecdh: &[u8; 32],
    nonce: &[u8; 24],
    blob: &[u8],
    chunked: bool,
    aad: Vec<u8>,
)
    requires
        call_ensures(aad_for, (enc_ecdh, nonce, blob, chunked), aad),
    ensures
        aad@ == payload_aad(enc_ecdh@, nonce@, blob@, chunked),
{
    lemma_payload_aad(enc_ecdh@, nonce@, blob@, chunked);
}

/// What a chunked payload is marked with, and a whole one.
pub open spec fn mark(chunked: bool) -> Seq<char> {
    if chunked {
        "Y"@
    } else {
        "N"@
    }
}

/// From any texts, the same lines are written.
pub proof fn law_canonical_aad(e: &str, n: &str, b: &str, chunked: bool, aad: Vec<u8>)
    requires
        call_ensures(canonical_aad, (e, n, b, chunked), aad),
    ensures
        aad@ == encode_utf8(
            "VELUM-v1-AAD"@ + seq!['\n'] + (line("v"@, "1"@) + line("stream"@, mark(chunked))
                + line("enc_ecdh"@, e@) + line("nonce"@, n@) + line("recipients"@, b@)),
        ),
{
    let y = mark(chunked);
    let f0 = Seq::<(Seq<char>, Seq<char>)>::empty();
    let f1 = f0.push(("v"@, "1"@));
    let f2 = f1.push(("stream"@, y));
    let f3 = f2.push(("enc_ecdh"@, e@));
    let f4 = f3.push(("nonce"@, n@));
    lemma_one_more_line(f0, "v"@, "1"@);
    lemma_one_more_line(f1, "stream"@, y);
    lemma_one_more_line(f2, "enc_ecdh"@, e@);
    lemma_one_more_line(f3, "nonce"@, n@);
    lemma_one_more_line(f4, "recipients"@, b@);
    assert(transcript::aad_fields(e@, n@, b@, chunked) =~= f4.push(("recipients"@, b@)));
}

/// What is signed is written as said.
pub proof fn law_transcripts(
    enc_ecdh: &[u8; 32],
    nonce: &[u8; 24],
    blob: &[u8],
    rc: &[u8; 32],
    ct: &[u8],
    digest: &[u8; 32],
    x: Vec<u8>,
    y: Vec<u8>,
)
    requires
        call_ensures(transcript_whole, (enc_ecdh, nonce, blob, rc, ct), x),
        call_ensures(transcript_stream, (enc_ecdh, nonce, blob, rc, digest), y),
    ensures
        x@ == signed_text(enc_ecdh@, nonce@, blob@, rc@, false, ct@),
        y@ == signed_text(enc_ecdh@, nonce@, blob@, rc@, true, digest@),
{
    lemma_signed_text(enc_ecdh@, nonce@, blob@, rc@, ct@);
    lemma_signed_text(enc_ecdh@, nonce@, blob@, rc@, digest@);
}

/// The lines that a signed text begins with.
pub open spec fn signed_lines(
    e: Seq<char>,
    n: Seq<char>,
    b: Seq<char>,
    rc: Seq<u8>,
    chunked: bool,
) -> Seq<char> {
    "VELUM-v1-SIGN"@ + seq!['\n'] + (line("v"@, "1"@) + line("enc_ecdh"@, e) + line("nonce"@, n)
        + line("recipients"@, b) + line("stream"@, mark(chunked)) + line("rc"@, b64(rc)))
}

/// The lines that a signed text begins with are written as said.
proof fn lemma_signed_lines(
    e: Seq<char>,
    n: Seq<char>,
    b: Seq<char>,
    rc: Seq<u8>,
    chunked: bool,
)
    ensures
        transcript::sig_header_text(e, n, b, rc, chunked) == signed_lines(e, n, b, rc, chunked),
{
    let y = mark(chunked);
    let f0 = Seq::<(Seq<char>, Seq<char>)>::empty();
    let f1 = f0.push(("v"@, "1"@));
    let f2 = f1.push(("enc_ecdh"@, e));
    let f3 = f2.push(("nonce"@, n));
    let f4 = f3.push(("recipients"@, b));
    let f5 = f4.push(("stream"@, y));
    lemma_one_more_line(f0, "v"@, "1"@);
    lemma_one_more_line(f1, "enc_ecdh"@, e);
    lemma_one_more_line(f2, "nonce"@, n);
    lemma_one_more_line(f3, "recipients"@, b);
    lemma_one_more_line(f4, "stream"@, y);
    lemma_one_more_line(f5, "rc"@, b64(rc));
    assert(transcript::sig_header_fields(e, n, b, rc, chunked) =~= f5.push(("rc"@, b64(rc))));
}

/// From any texts, the same lines are written.
pub proof fn law_canonical_signed(
    e: &str,
    n: &str,
    b: &str,
    l: &str,
    rc: &[u8; 32],
    chunked: bool,
    x: Vec<u8>,
    y: Vec<u8>,
    z: Vec<u8>,
)
    requires
        call_ensures(canonical_sig_nonstream, (e, n, b, l, rc, chunked), x),
        call_ensures(canonical_sig_stream_digest, (e, n, b, l, rc, chunked), y),
        call_ensures(canonical_sig_header_part, (e, n, b, rc, chunked), z),
    ensures
        x@ == encode_utf8(signed_lines(e@, n@, b@, rc@, chunked) + line("ct"@, l@)),
        y@ == encode_utf8(signed_lines(e@, n@, b@, rc@, chunked) + line("digest"@, l@)),
        z@ == encode_utf8(signed_lines(e@, n@, b@, rc@, chunked)),
{
    lemma_signed_lines(e@, n@, b@, rc@, chunked);
}

/// What a keystore authenticates is written as said.
pub proof fn law_secret_aad(
    m: u32,
    t: u32,
    p: u32,
    salt: Seq<u8>,
    nonce: Seq<u8>,
    s: &str,
    n: &str,
    aad: Vec<u8>,
)
    requires
        s@ == b64(salt),
        n@ == b64(nonce),
        call_ensures(canonical_secret_aad, (m, t, p, s, n), aad),
    ensures
        aad@ == keystore_aad(m, t, p, salt, nonce),
{
    lemma_keystore_aad(m, t, p, salt, nonce);
}

// ----------------------------------------------------------------------
// Blocks
// ----------------------------------------------------------------------

/// The lines of fields.
pub open spec fn lines_of(f: Seq<(Seq<char>, Seq<char>)>) -> Seq<char>
    decreases f.len(),
{
    if f.len() == 0 {
        seq![]
    } else {
        lines_of(f.drop_last()) + line(f.last().0, f.last().1)
    }
}

/// Lines are written as said.
proof fn lemma_lines_of(f: Seq<(Seq<char>, Seq<char>)>)
    ensures
        block::fields_text(f) == lines_of(f),
    decreases f.len(),
{
    if f.len() > 0 {
        lemma_lines_of(f.drop_last());
    }
}

/// A block is written as its begin marker, a line for each field, and its end marker.
pub proof fn law_build_block(begin: &str, f: &[(&str, &str)], end: &str, out: String)
    requires
        call_ensures(build_block, (begin, f, end), out),
    ensures
        out@ == begin@ + seq!['\n'] + lines_of(
            f@.map_values(|x: (&str, &str)| (x.0@, x.1@)),
        ) + end@,
{
    lemma_lines_of(block::field_views(f@));
}

/// A field is written as a line.
pub proof fn law_push_field(out: &mut String, key: &str, value: &str)
    requires
        call_ensures(push_field, (out, key, value), ()),
    ensures
        final(out)@ == old(out)@ + line(key@, value@),
{
}

/// Fields are written as lines, one after the other.
pub proof fn law_append_fields(out: &mut String, f: &[(&str, &str)])
    requires
        call_ensures(append_fields, (out, f), ()),
    ensures
        final(out)@ == old(out)@ + lines_of(f@.map_values(|x: (&str, &str)| (x.0@, x.1@))),
{
    lemma_lines_of(block::field_views(f@));
}

/// Fields are looked up by their keys.
pub proof fn law_fields(
    f: &Fields,
    key: &str,
    value: &str,
    x: Option<&String>,
    b: Result<Vec<u8>, ()>,
    n: Result<u32, ()>,
    ok: bool,
)
    requires
        call_ensures(Fields::get, (f, key), x),
        call_ensures(get_bytes, (f, key), b),
        call_ensures(get_number, (f, key), n),
        call_ensures(check_field, (f, key, value), ok),
    ensures
        x is Some <==> f@.contains_key(key@),
        x matches Some(v) ==> field_says(f@, key@, v@),
        b matches Ok(d) ==> field_says(f@, key@, b64(d@)),
        b is Err ==> forall|d: Seq<u8>| !field_says(f@, key@, #[trigger] b64(d)),
        n matches Ok(k) ==> has_number(f@, key@, k),
        n is Err ==> forall|k: u32| !has_number(f@, key@, k),
        ok == field_says(f@, key@, value@),
{
    match b {
        Ok(d) => {
            crate::laws::blocks::lemma_bytes_field(f@, key@, d@);
        },
        Err(_) => {
            assert forall|d: Seq<u8>| !field_says(f@, key@, #[trigger] b64(d)) by {
                crate::laws::blocks::lemma_bytes_field(f@, key@, d);
            }
        },
    }
    match n {
        Ok(k) => {
            crate::laws::blocks::lemma_number_field(f@, key@, k);
        },
        Err(_) => {
            assert forall|k: u32| !has_number(f@, key@, k) by {
                crate::laws::blocks::lemma_number_field(f@, key@, k);
            }
        },
    }
}

/// An envelope is written in armor as its fields.
pub proof fn law_armor_from_binary(bytes: &[u8], env: Result<ParsedBinary, ()>, arm: String)
    requires
        call_ensures(parse_envelope_binary, (bytes,), env),
        env is Ok,
        call_ensures(armor_from_binary, (bytes,), arm),
    ensures
        ({
            let v = (env->Ok_0)@;
            arm@ == text_of_message(
                MessageView {
                    enc_ecdh: v.enc_ecdh,
                    nonce: v.nonce,
                    recipients_blob: v.recipients_blob,
                    ct_and_tag: v.ct_and_tag,
                    signature: v.signature,
                },
            )
        }),
        call_requires(armor_from_binary, (bytes,)),
{
    lemma_message_text(message::message_of_envelope((env->Ok_0)@));
}

// ----------------------------------------------------------------------
// Frames
// ----------------------------------------------------------------------

/// The nonce of a chunk, and who it is told by.
pub proof fn law_chunk_nonce(
    cek: &[u8; 32],
    rc: &[u8; 32],
    index: u32,
    nonce: [u8; 24],
    other: &[u8],
    same: bool,
)
    requires
        call_ensures(derive_chunk_nonce, (cek, rc, index), nonce),
        call_ensures(is_chunk_nonce, (cek, rc, index, other), same),
    ensures
        nonce@ == frame_nonce(cek@, rc@, index as int),
        same <==> index < 0xFFFF_FFFF && other@ == frame_nonce(cek@, rc@, index as int),
{
    lemma_frame_nonce(cek@, rc@, index as int);
}

/// The length field of a frame: the end marker, a body that has room for a tag, or
/// neither.
pub proof fn law_frame_head(bytes: &[u8], n: int, r: Result<FrameHead, ()>)
    requires
        0 <= n <= 0xFFFF_FFFF,
        bytes@ == number(n, 4),
        call_ensures(parse_frame_head, (bytes,), r),
    ensures
        r is Err <==> n < 16,
        n == 0xFFFF_FFFF <==> (r matches Ok(FrameHead::End)),
        r matches Ok(FrameHead::Body(k)) ==> k == n,
        call_requires(parse_frame_head, (bytes,)),
{
    lemma_numbers(n);
    util::lemma_be32(n, seq![]);
}

/// A frame of a chunk that fits: the length of the body, the nonce of the place, and
/// the chunk under the content key.
pub proof fn law_seal_frame(
    hs: &EncryptHandshake,
    aad: &[u8],
    index: u32,
    chunk: &[u8],
    r: Result<Vec<u8>, ()>,
)
    requires
        aad@ == payload_aad(hs@.enc_ecdh, hs@.nonce, hs@.recipients_blob, hs@.stream_on),
        call_ensures(seal_frame, (hs, aad, index, chunk), r),
    ensures
        call_requires(seal_frame, (hs, aad, index, chunk)),
        r is Ok <==> chunk@.len() + 16 < 0xFFFF_FFFF,
        r matches Ok(f) ==> {
            let nonce = frame_nonce(hs@.cek, hs@.rc, index as int);
            let body = crypto::xchacha_seal(hs@.cek, nonce, aad@, chunk@);
            &&& f@ == number(body.len() as int, 4) + nonce + body
            &&& body.len() == chunk@.len() + 16
            &&& crypto::xchacha_open(hs@.cek, nonce, aad@, body) == Some(chunk@)
        },
{
    lemma_payload_aad(hs@.enc_ecdh, hs@.nonce, hs@.recipients_blob, hs@.stream_on);
    lemma_frame_nonce(hs@.cek, hs@.rc, index as int);
    lemma_numbers(streaming::chunk_body(hs@, index as int, chunk@).len() as int);
}

/// The head of a trailer: its magic, and the length of the signature.
pub proof fn law_trailer_head(head: &[u8], n: int, r: Result<usize, ()>)
    requires
        head@.len() == 36,
        0 <= n <= 0xFFFF_FFFF,
        head@.skip(32) == number(n, 4),
        call_ensures(parse_trailer_head, (head,), r),
    ensures
        call_requires(parse_trailer_head, (head,)),
        r is Ok <==> head@.take(32) == trailer_magic(),
        r matches Ok(k) ==> k == n,
{
    lemma_numbers(n);
    util::lemma_be32(n, seq![]);
    assert(crate::constants::TRAILER_MAGIC@ =~= trailer_magic());
}

/// Whether a header can be counted in 32 bits.
pub proof fn law_header_fits(blob_len: usize, sig_len: usize, r: bool)
    requires
        call_ensures(header_fits, (blob_len, sig_len), r),
    ensures
        r == (96 + blob_len + sig_len <= 0xFFFF_FFFF),
{
}

/// A number is read where four bytes are left, and the place moves behind it.
pub proof fn law_read_number(buf: &[u8], off: &mut usize, r: Result<usize, ()>)
    requires
        call_ensures(read_be_u32, (buf, off), r),
    ensures
        r is Ok <==> *old(off) + 4 <= buf@.len(),
        r matches Ok(n) ==> buf@.subrange(*old(off) as int, *old(off) + 4) == number(n as int, 4)
            && *final(off) == *old(off) + 4,
        r is Err ==> *final(off) == *old(off),
{
    if r is Ok {
        let n = r->Ok_0 as int;
        util::lemma_be32(n, buf@.subrange(*old(off) as int, *old(off) + 4));
        lemma_numbers(n);
    }
}

/// A frame is opened where it stands: the end marker gives nothing, a frame of its
/// place whose body opens gives the chunk and the place behind it, and all else is
/// refused.
pub proof fn law_open_frame(
    cek: &[u8; 32],
    rc: &[u8; 32],
    aad: &[u8],
    index: u32,
    s: &[u8],
    pos: usize,
    r: Result<Option<(Vec<u8>, usize)>, ()>,
    n: int,
)
    requires
        pos + 4 <= s@.len(),
        0 <= n <= 0xFFFF_FFFF,
        s@.subrange(pos as int, pos + 4) == number(n, 4),
        call_ensures(open_frame_at, (cek, rc, aad, index, s, pos), r),
    ensures
        ({
            let nonce = frame_nonce(cek@, rc@, index as int);
            let body = s@.subrange(pos + 28, pos + 28 + n);
            let there = 16 <= n && index < 0xFFFF_FFFF && pos + 28 + n <= s@.len() && s@.subrange(
                pos + 4,
                pos + 28,
            ) == nonce;
            let opened = crypto::xchacha_open(cek@, nonce, aad@, body);
            &&& n == 0xFFFF_FFFF <==> (r matches Ok(None))
            &&& n < 0xFFFF_FFFF ==> match r {
                Ok(Some(f)) => there && opened == Some(f.0@) && f.1 == pos + 28 + n,
                Ok(None) => false,
                Err(_) => !there || opened is None,
            }
        }),
{
    lemma_frame_nonce(cek@, rc@, index as int);
    lemma_numbers(n);
    util::lemma_be32(n, seq![]);
    let t = s@.skip(pos as int);
    assert(t.take(4) =~= s@.subrange(pos as int, pos + 4));
    if pos + 28 + n <= s@.len() {
        assert(t.subrange(4, 28) =~= s@.subrange(pos + 4, pos + 28));
        assert(t.subrange(28, 28 + n) =~= s@.subrange(pos + 28, pos + 28 + n));
    }
}

/// Where fewer than four bytes are left, there is no frame.
pub proof fn law_no_frame(
    cek: &[u8; 32],
    rc: &[u8; 32],
    aad: &[u8],
    index: u32,
    s: &[u8],
    pos: usize,
    r: Result<Option<(Vec<u8>, usize)>, ()>,
)
    requires
        pos <= s@.len() < pos + 4,
        call_ensures(open_frame_at, (cek, rc, aad, index, s, pos), r),
    ensures
        r is Err,
        call_requires(open_frame_at, (cek, rc, aad, index, s, pos)),
{
}

/// A body opens as the cipher says.
pub proof fn law_open_body(
    cek: &[u8; 32],
    aad: &[u8],
    nonce: &[u8],
    body: &[u8],
    r: Result<Vec<u8>, ()>,
)
    requires
        nonce@.len() == 24,
        body@.len() < 0xFFFF_FFFF,
        call_ensures(open_body, (cek, aad, nonce, body), r),
    ensures
        call_requires(open_body, (cek, aad, nonce, body)),
        r matches Ok(c) ==> crypto::xchacha_open(cek@, nonce@, aad@, body@) == Some(c@),
        r is Err ==> crypto::xchacha_open(cek@, nonce@, aad@, body@) is None,
{
}

/// A digest is that of all that was fed, in order.
pub proof fn law_digest(
    start: RunningDigest,
    d: &mut RunningDigest,
    data: &[u8],
    out: [u8; 32],
)
    requires
        call_ensures(RunningDigest::new, (), start),
        call_ensures(RunningDigest::update, (d, data), ()),
        call_ensures(RunningDigest::finalize, (*final(d),), out),
    ensures
        start@.len() == 0,
        final(d)@ == old(d)@ + data@,
        out@ == crypto::sha256(old(d)@ + data@),
{
}

/// Arrays are copies of slices of their lengths.
pub proof fn law_arrays(
    s: &[u8],
    a: [u8; 32],
    b: [u8; 24],
    c: [u8; 12],
    d: [u8; 64],
)
    ensures
        s@.len() == 32 && call_ensures(array_32, (s,), a) ==> a@ == s@,
        s@.len() == 24 && call_ensures(array_24, (s,), b) ==> b@ == s@,
        s@.len() == 12 && call_ensures(array_12, (s,), c) ==> c@ == s@,
        s@.len() == 64 && call_ensures(array_64, (s,), d) ==> d@ == s@,
{
}

/// A parsed envelope is written in armor as its fields, and its entries are named by
/// the digests of their capsules.
pub proof fn law_armor_parsed(
    p: &ParsedBinary,
    arm: String,
    list: &Vec<RecipientEntry>,
    ids: Vec<[u8; 32]>,
)
    requires
        call_ensures(armor_parsed, (p,), arm),
        call_ensures(entry_ids, (list,), ids),
    ensures
        arm@ == text_of_message(
            MessageView {
                enc_ecdh: p@.enc_ecdh,
                nonce: p@.nonce,
                recipients_blob: p@.recipients_blob,
                ct_and_tag: p@.ct_and_tag,
                signature: p@.signature,
            },
        ),
        ids@.len() == list@.len(),
        forall|i: int|
            0 <= i < ids@.len() ==> (#[trigger] ids@[i])@ == crypto::sha256(list@[i].enc_pq@),
{
    lemma_message_text(message::message_of_envelope(p@));
    let a = crate::order::id_views(ids@);
    let b = crate::recipients::ids_of(crate::recipients::entry_views(list@));
    assert(a == b);
    assert(a.len() == ids@.len());
    assert forall|i: int| 0 <= i < ids@.len() implies (#[trigger] ids@[i])@ == crypto::sha256(
        list@[i].enc_pq@,
    ) by {
        assert(a[i] == ids@[i]@);
        assert(b[i] == crypto::sha256(list@[i].enc_pq@));
    }
}

/// From Base64 texts, a message is written as its fields.
pub proof fn law_armor_message(
    v: MessageView,
    e: &str,
    n: &str,
    b: &str,
    c: &str,
    sig: Option<&[u8]>,
    arm: String,
)
    requires
        e@ == b64(v.enc_ecdh),
        n@ == b64(v.nonce),
        b@ == b64(v.recipients_blob),
        c@ == b64(v.ct_and_tag),
        v.signature is Some == sig is Some,
        sig matches Some(s) ==> v.signature == Some(s@),
        call_ensures(armor_message, (e, n, b, c, sig), arm),
    ensures
        arm@ == text_of_message(v),
{
    lemma_message_text(v);
}

// ----------------------------------------------------------------------
// Key pairs
// ----------------------------------------------------------------------

/// A key pair is assembled from secret keys: the public half holds the X25519 and
/// Ed25519 keys that belong to them, and the secret half locks them with 96 MiB, four
/// passes and four lanes.
pub proof fn law_assemble(
    k: &SecretBundle,
    pq_pk: &[u8],
    sig_pk_pq: &[u8],
    pass: &str,
    salt: &[u8],
    nonce: &[u8],
    r: Result<(String, String), ()>,
)
    requires
        call_ensures(assemble_keypair, (k, pq_pk, sig_pk_pq, pass, salt, nonce), r),
    ensures
        r is Ok <==> encode_utf8(pass@).len() <= 0xFFFF_FFFF,
        r matches Ok(pair) ==> {
            &&& pair.0@ == public_text(
                crypto::x25519_public(k@.ecdh_sk),
                pq_pk@,
                sig_pk_pq@,
                crypto::ed25519_public(k@.sig_sk_ed),
            )
            &&& pair.1@ == keystore_text(
                salt@,
                nonce@,
                locked_ct(k@, pass@, salt@, nonce@, 98304, 4, 4),
                98304,
                4,
                4,
            )
        },
{
    let ct = locked_ct(k@, pass@, salt@, nonce@, 98304, 4, 4);
    lemma_public_text(
        crypto::x25519_public(k@.ecdh_sk),
        pq_pk@,
        sig_pk_pq@,
        crypto::ed25519_public(k@.sig_sk_ed),
    );
    lemma_key_blob(k@.ecdh_sk, k@.pq_sk, k@.sig_sk_pq, k@.sig_sk_ed);
    lemma_keystore_aad(98304, 4, 4, salt@, nonce@);
    lemma_keystore_text(salt@, nonce@, ct, 98304, 4, 4);
}

// ----------------------------------------------------------------------
// What can be called
// ----------------------------------------------------------------------

/// Signatures are checked under all keys that are fit for use, over any text, and of
/// any bytes.
pub proof fn law_can_check(p: &PublicBundle, signed: &[u8], sig: &[u8])
    requires
        fit_for_use(p@),
    ensures
        call_requires(check_signature, (p, signed, sig)),
{
}

/// Secret keys of the right sizes sign any text, and can be locked with any salt and
/// nonce of the right sizes.
pub proof fn law_can_sign(
    k: &SecretBundle,
    signed: &[u8],
    pass: &str,
    params: Argon2idParams,
    salt: &[u8],
    nonce: &[u8],
)
    requires
        k@.ecdh_sk.len() == 32,
        k@.pq_sk.len() == 2400,
        k@.sig_sk_pq.len() == 4032,
        k@.sig_sk_ed.len() == 32,
        salt@.len() == 16,
        nonce@.len() == 12,
    ensures
        call_requires(hybrid_sign, (k, signed)),
        call_requires(seal_secret, (k, pass, params, salt, nonce)),
{
}

/// An envelope is written wherever its header can be counted in 32 bits.
pub proof fn law_can_encode(
    enc_ecdh: [u8; 32],
    nonce: [u8; 24],
    blob: Vec<u8>,
    payload: Vec<u8>,
    sig: Option<Vec<u8>>,
    flags: u8,
    rc: [u8; 32],
)
    requires
        96 + blob@.len() + (match sig {
            Some(s) => s@.len(),
            None => 0,
        }) <= 0xFFFF_FFFF,
    ensures
        call_requires(encode_envelope_binary, (enc_ecdh, nonce, blob, payload, sig, flags, rc)),
{
}

} // verus!
