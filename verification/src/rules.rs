//! Rules of the command line and of the C interface: limits, formats and
//! refusals.

use vstd::prelude::*;
use vstd::string::*;
use vstd::utf8::*;

use crate::constants::{BEGIN_MSG, MSG_MAGIC};
use crate::encrypt;
use crate::envelope;
use crate::keys::PublicView;
use crate::message;
use crate::streaming;
use crate::text;
use crate::text::is_blank;

verus! {

/// Chunk size of a file that is encrypted in chunks, unless another is asked for:
/// 4 MiB.
pub const DEFAULT_CHUNK_SIZE: usize = 0x40_0000;

/// The largest chunk size whose frames cannot be taken for the end marker.
pub const MAX_SAFE_CHUNK_SIZE: usize = 0xFFFF_FFEE;

/// The smallest chunk size that is recommended: 64 KiB.
pub const MIN_RECOMMENDED_CHUNK_SIZE: usize = 0x1_0000;

/// More recipients than this have to be allowed explicitly.
pub const RECIP_HARD_LIMIT: usize = 512;

/// Memory cost of a new keystore in MiB, unless another is asked for.
pub const DEFAULT_M_MIB: u32 = 96;

/// What is to be said of a number of recipients.
#[derive(Debug, Clone, Copy, PartialEq, Eq, Structural)]
pub enum RecipientCount {
    /// There is no recipient.
    Zero,
    /// There are too many, and that was not allowed.
    TooMany,
    /// The number is fine.
    Fine,
}

/// Judges a number of recipients.
pub fn judge_recipient_count(count: usize, allow_many: bool) -> (r: RecipientCount)
    ensures
        r is Zero <==> count == 0,
        r is TooMany <==> count > RECIP_HARD_LIMIT && !allow_many,
{
    if count == 0 {
        RecipientCount::Zero
    } else if count > RECIP_HARD_LIMIT && !allow_many {
        RecipientCount::TooMany
    } else {
        RecipientCount::Fine
    }
}

/// What is to be said of a chunk size.
#[derive(Debug, Clone, Copy, PartialEq, Eq, Structural)]
pub enum ChunkSize {
    /// It is too large for a frame.
    TooLarge,
    /// It is smaller than recommended.
    Small,
    /// It is fine.
    Fine,
}

/// Judges a chunk size.
pub fn judge_chunk_size(size: usize) -> (r: ChunkSize)
    ensures
        r is TooLarge <==> size > MAX_SAFE_CHUNK_SIZE,
        r is Small <==> size < MIN_RECOMMENDED_CHUNK_SIZE,
{
    if size > MAX_SAFE_CHUNK_SIZE {
        ChunkSize::TooLarge
    } else if size < MIN_RECOMMENDED_CHUNK_SIZE {
        ChunkSize::Small
    } else {
        ChunkSize::Fine
    }
}

/// A chunk fits a frame exactly when its length is a safe chunk size.
pub proof fn lemma_safe_chunk_fits(chunk: Seq<u8>)
    ensures
        streaming::chunk_fits(chunk) <==> chunk.len() <= MAX_SAFE_CHUNK_SIZE,
{
}

/// Why chunked output is refused.
#[derive(Debug, Clone, Copy, PartialEq, Eq, Structural)]
pub enum StreamRefusal {
    /// Chunked output cannot be armored.
    Armor,
    /// Binary output does not go to a terminal.
    Terminal,
}

/// Whether chunked output is refused, and why.
pub fn refuse_stream(armor: bool, to_stdout: bool, stdout_is_tty: bool) -> (r: Option<
    StreamRefusal,
>)
    ensures
        r == if armor {
            Some(StreamRefusal::Armor)
        } else if to_stdout && stdout_is_tty {
            Some(StreamRefusal::Terminal)
        } else {
            None
        },
{
    if armor {
        Some(StreamRefusal::Armor)
    } else if to_stdout && stdout_is_tty {
        Some(StreamRefusal::Terminal)
    } else {
        None
    }
}

/// Whether data begins as an armored message does.
pub open spec fn armored_data(data: Seq<u8>) -> bool {
    BEGIN_MSG.spec_bytes().is_prefix_of(data)
}

/// Whether data begins as an armored message does.
pub fn is_armored(buf: &[u8]) -> (r: bool)
    ensures
        r == armored_data(buf@),
{
    let begin: &[u8] = BEGIN_MSG.as_bytes();
    if buf.len() < begin.len() {
        return false;
    }
    let mut i: usize = 0;
    while i < begin.len()
        invariant
            i <= begin.len() <= buf.len(),
            begin@ == BEGIN_MSG.spec_bytes(),
            forall|k: int| 0 <= k < i ==> begin@[k] == buf@[k],
        decreases begin.len() - i,
    {
        if buf[i] != begin[i] {
            assert(begin@[i as int] != buf@.take(begin@.len() as int)[i as int]);
            return false;
        }
        i = i + 1;
    }
    assert(buf@.take(begin@.len() as int) =~= begin@);
    true
}

/// The marker that begins an armored message is ASCII text.
proof fn lemma_marker()
    ensures
        BEGIN_MSG.spec_bytes() == encode_utf8(BEGIN_MSG@),
        BEGIN_MSG.spec_bytes().len() == 29,
        BEGIN_MSG.spec_bytes()[0] == 0x2D,
        is_ascii_chars(BEGIN_MSG@),
        BEGIN_MSG@.len() == 29,
{
    reveal_strlit("-----BEGIN VELUM MESSAGE-----");
    is_ascii_chars_encode_utf8(BEGIN_MSG@);
}

/// Armored messages are detected by their first bytes, as few as the marker has, or as
/// many more as there are.
pub proof fn lemma_armor_detected(v: message::MessageView, n: int)
    requires
        29 <= n <= encode_utf8(message::armored(v)).len(),
    ensures
        armored_data(encode_utf8(message::armored(v)).take(n)),
{
    let arm = message::armored(v);
    let marker = BEGIN_MSG.spec_bytes();
    let data = encode_utf8(arm);
    lemma_marker();
    let rest = arm.skip(29);
    assert(arm =~= BEGIN_MSG@ + rest);
    text::lemma_encode_concat(BEGIN_MSG@, rest);
    assert(data.take(n).take(29) =~= marker);
}

/// No binary envelope is taken for an armored message, by however many of its first
/// bytes.
pub proof fn lemma_binary_detected(v: envelope::EnvelopeView, n: int)
    requires
        0 <= n <= envelope::envelope_bytes(v).len(),
    ensures
        !armored_data(envelope::envelope_bytes(v).take(n)),
{
    let data = envelope::envelope_bytes(v).take(n);
    lemma_marker();
    if armored_data(data) {
        assert(data.take(29)[0] == 0x2D);
        assert(data[0] == MSG_MAGIC@[0]);
    }
}

/// The first 64 bytes of data, or all of them where there are fewer.
pub open spec fn first_bytes(data: Seq<u8>) -> Seq<u8> {
    if data.len() < 64 {
        data
    } else {
        data.take(64)
    }
}

/// Armor is at least as long as its marker.
proof fn lemma_armor_len(v: message::MessageView)
    ensures
        encode_utf8(message::armored(v)).len() >= 29,
{
    let arm = message::armored(v);
    lemma_marker();
    assert(arm =~= BEGIN_MSG@ + arm.skip(29));
    text::lemma_encode_concat(BEGIN_MSG@, arm.skip(29));
}

/// What is encrypted to armor is detected as armor.
pub proof fn lemma_armored_output(
    data: Seq<u8>,
    pt: Seq<u8>,
    list: Seq<PublicView>,
    signer: Option<(Seq<char>, Seq<char>)>,
)
    requires
        encrypt::is_armored_whole(data, pt, list, signer),
    ensures
        armored_data(first_bytes(data)),
{
    let binary = choose|binary: Seq<u8>|
        #[trigger] encrypt::is_armor_of(data, binary) && encrypt::is_encrypted_whole(
            binary,
            pt,
            list,
            signer,
        );
    let m = message::message_of_envelope(envelope::parsed(binary)->0);
    lemma_armor_len(m);
    assert(data.take(data.len() as int) =~= data);
    if data.len() < 64 {
        lemma_armor_detected(m, data.len() as int);
    } else {
        lemma_armor_detected(m, 64);
    }
}

/// What is encrypted to a binary envelope, whole or in chunks, is detected as binary.
pub proof fn lemma_binary_output(
    data: Seq<u8>,
    pt: Seq<u8>,
    chunks: Seq<Seq<u8>>,
    list: Seq<PublicView>,
    signer: Option<(Seq<char>, Seq<char>)>,
)
    requires
        encrypt::is_encrypted_whole(data, pt, list, signer) || encrypt::is_encrypted_stream(
            data,
            chunks,
            list,
            signer,
        ),
    ensures
        !armored_data(first_bytes(data)),
{
    let v = if encrypt::is_encrypted_whole(data, pt, list, signer) {
        choose|v: envelope::EnvelopeView| encrypt::encrypts_whole(data, pt, list, signer, v)
    } else {
        choose|v: envelope::EnvelopeView| encrypt::encrypts_stream(data, chunks, list, signer, v)
    };
    assert(data == envelope::envelope_bytes(v));
    assert(data.take(data.len() as int) =~= data);
    if data.len() < 64 {
        lemma_binary_detected(v, data.len() as int);
    } else {
        lemma_binary_detected(v, 64);
    }
}

/// A wire format.
#[derive(Debug, Clone, Copy, PartialEq, Eq, Structural)]
pub enum Format {
    /// ASCII armor.
    Armor,
    /// The binary envelope.
    Binary,
}

/// Which format an input is read as: the one that was asked for, else the one that
/// its first bytes show.
pub fn input_format(armor_input: bool, binary_input: bool, first: &[u8]) -> (f: Format)
    ensures
        f is Armor <==> armor_input || (!binary_input && armored_data(first@)),
{
    if armor_input {
        Format::Armor
    } else if binary_input {
        Format::Binary
    } else if is_armored(first) {
        Format::Armor
    } else {
        Format::Binary
    }
}

/// A memory cost in KiB, from one in MiB. None where it does not fit 32 bits.
pub fn memory_cost_kib(m_mib: Option<u32>) -> (kib: Option<u32>)
    ensures
        ({
            let mib: u32 = match m_mib {
                Some(m) => m,
                None => DEFAULT_M_MIB,
            };
            match kib {
                Some(k) => k == 1024 * mib,
                None => 1024 * mib > u32::MAX,
            }
        }),
{
    let mib: u32 = match m_mib {
        Some(m) => m,
        None => DEFAULT_M_MIB,
    };
    mib.checked_mul(1024)
}

/// Whether one of two passphrases is blank.
pub fn blank_passphrase(old_pass: &str, new_pass: &str) -> (r: bool)
    ensures
        r == (text::trim(old_pass@).len() == 0 || text::trim(new_pass@).len() == 0),
{
    is_blank(old_pass) || is_blank(new_pass)
}

} // verus!
