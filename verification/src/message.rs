//! Armored messages, and their conversion to and from the binary envelope.
//!
//! An armored message is never a streaming one: it stands for an envelope with
//! no flag set.

use vstd::prelude::*;
use vstd::string::*;

use crate::armor;
use crate::base64_text;
use crate::block;
use crate::block::{build_block, check_markers, split_field};
use crate::constants::{BEGIN_MSG, END_MSG, MSG_NONCE_LEN, TAG_LEN, V};
use crate::crypto::wipe_string;
use crate::envelope;
use crate::envelope::{encode_envelope_binary, parse_envelope_binary, ParsedBinary};
use crate::order;
use crate::recipients;
use crate::recipients::{
    compute_entry_id, decode_recipients, recipients_commitment, RecipientEntry,
};
use crate::text;
use crate::text::{same_text, split_armor_lines};
use crate::util::{array_24, array_32, b64d, b64e};

verus! {

/// A parsed armored message.
#[derive(Debug)]
pub struct ParsedMsg {
    pub enc_ecdh: [u8; 32],
    pub nonce: [u8; MSG_NONCE_LEN],
    pub recipients_blob: Vec<u8>,
    pub ct_and_tag: Vec<u8>,
    pub signature: Option<Vec<u8>>,
}

/// What an armored message holds.
#[verifier::ext_equal]
pub struct MessageView {
    pub enc_ecdh: Seq<u8>,
    pub nonce: Seq<u8>,
    pub recipients_blob: Seq<u8>,
    pub ct_and_tag: Seq<u8>,
    pub signature: Option<Seq<u8>>,
}

impl View for ParsedMsg {
    type V = MessageView;

    open spec fn view(&self) -> MessageView {
        MessageView {
            enc_ecdh: self.enc_ecdh@,
            nonce: self.nonce@,
            recipients_blob: self.recipients_blob@,
            ct_and_tag: self.ct_and_tag@,
            signature: envelope::opt_view(self.signature),
        }
    }
}

/// The key of the `i`-th field.
pub open spec fn message_key(i: int) -> Seq<char> {
    if i == 0 {
        "v"@
    } else if i == 1 {
        "enc_ecdh"@
    } else if i == 2 {
        "nonce"@
    } else if i == 3 {
        "recipients"@
    } else if i == 4 {
        "ct"@
    } else {
        "signature"@
    }
}

/// The fields of an armored message.
pub open spec fn message_fields(
    enc_ecdh_b64: Seq<char>,
    nonce_b64: Seq<char>,
    recipients_b64: Seq<char>,
    ct_b64: Seq<char>,
    signature: Option<Seq<u8>>,
) -> Seq<(Seq<char>, Seq<char>)> {
    let base = seq![
        ("v"@, V@),
        ("enc_ecdh"@, enc_ecdh_b64),
        ("nonce"@, nonce_b64),
        ("recipients"@, recipients_b64),
        ("ct"@, ct_b64),
    ];
    match signature {
        Some(s) => base.push(("signature"@, base64_text::b64(s))),
        None => base,
    }
}

/// An armored message.
pub open spec fn message_text(
    enc_ecdh_b64: Seq<char>,
    nonce_b64: Seq<char>,
    recipients_b64: Seq<char>,
    ct_b64: Seq<char>,
    signature: Option<Seq<u8>>,
) -> Seq<char> {
    block::block_text(
        BEGIN_MSG@,
        message_fields(enc_ecdh_b64, nonce_b64, recipients_b64, ct_b64, signature),
        END_MSG@,
    )
}

/// An armored message of the given contents.
pub open spec fn armored(v: MessageView) -> Seq<char> {
    message_text(
        base64_text::b64(v.enc_ecdh),
        base64_text::b64(v.nonce),
        base64_text::b64(v.recipients_blob),
        base64_text::b64(v.ct_and_tag),
        v.signature,
    )
}

/// Whether a message has the right sizes and a well-formed recipient list.
pub open spec fn valid_message(v: MessageView) -> bool {
    &&& v.enc_ecdh.len() == 32
    &&& v.nonce.len() == MSG_NONCE_LEN
    &&& recipients::decoded(v.recipients_blob) is Some
    &&& v.ct_and_tag.len() >= TAG_LEN
}

/// Whether the `i`-th line is a field with the `i`-th key.
pub open spec fn in_order(body: Seq<Seq<char>>, i: int) -> bool {
    block::field_of(body[i]) matches Some(f) && f.0 == message_key(i)
}

/// The value of the `i`-th line.
pub open spec fn value_at(body: Seq<Seq<char>>, i: int) -> Seq<char> {
    (block::field_of(body[i])->0).1
}

/// The bytes of a signature field; text that is not Base64 counts as empty.
pub open spec fn lenient_bytes(text: Seq<char>) -> Seq<u8> {
    match base64_text::b64_bytes(text) {
        Some(s) => s,
        None => seq![],
    }
}

/// The message that lines between the markers hold: the five fields in their
/// order, and perhaps a signature.
pub open spec fn message_of_body(body: Seq<Seq<char>>) -> Option<MessageView> {
    if (body.len() == 5 || body.len() == 6) && (forall|i: int|
        0 <= i < body.len() ==> #[trigger] in_order(body, i)) && value_at(body, 0) == V@ {
        match (
            base64_text::b64_bytes(value_at(body, 1)),
            base64_text::b64_bytes(value_at(body, 2)),
            base64_text::b64_bytes(value_at(body, 3)),
            base64_text::b64_bytes(value_at(body, 4)),
        ) {
            (Some(enc_ecdh), Some(nonce), Some(recipients_blob), Some(ct_and_tag)) => {
                let signature = if body.len() == 6 {
                    Some(lenient_bytes(value_at(body, 5)))
                } else {
                    None
                };
                let v = MessageView { enc_ecdh, nonce, recipients_blob, ct_and_tag, signature };
                if valid_message(v) {
                    Some(v)
                } else {
                    None
                }
            },
            _ => None,
        }
    } else {
        None
    }
}

/// The message that an armored block holds, if it is a valid one.
pub open spec fn message_of(arm: Seq<char>) -> Option<MessageView> {
    let lines = text::armor_lines(arm);
    if block::has_markers(lines, BEGIN_MSG@, END_MSG@) {
        message_of_body(block::body_of(lines))
    } else {
        None
    }
}

/// The envelope that an armored message stands for: no flags, and the
/// commitment computed from the recipient list.
pub open spec fn envelope_of(v: MessageView) -> Seq<u8> {
    envelope::envelope_with_flags(
        v.enc_ecdh,
        v.nonce,
        v.recipients_blob,
        v.ct_and_tag,
        v.signature,
        0,
        commitment_of(v.recipients_blob),
    )
}

/// The commitment to the recipients of a blob.
pub open spec fn commitment_of(recipients_blob: Seq<u8>) -> Seq<u8> {
    recipients::commitment(recipients::ids_of(recipients::decoded(recipients_blob)->0))
}

/// The envelope of an armored message, if the message is valid and the header
/// fits the envelope.
pub open spec fn binary_of(arm: Seq<char>) -> Option<Seq<u8>> {
    match message_of(arm) {
        Some(v) => if envelope::header_len(v.recipients_blob, v.signature) <= u32::MAX {
            Some(envelope_of(v))
        } else {
            None
        },
        None => None,
    }
}

/// The armored message of an envelope. Flags and commitment are left out.
pub open spec fn message_of_envelope(v: envelope::EnvelopeView) -> MessageView {
    MessageView {
        enc_ecdh: v.enc_ecdh,
        nonce: v.nonce,
        recipients_blob: v.recipients_blob,
        ct_and_tag: v.ct_and_tag,
        signature: v.signature,
    }
}

// ----------------------------------------------------------------------
// Laws
// ----------------------------------------------------------------------

/// The fields of a message, with the text of a signature field, if it has one.
pub open spec fn fields_with(v: MessageView, sig_text: Option<Seq<char>>) -> Seq<
    (Seq<char>, Seq<char>),
> {
    let base = message_fields(
        base64_text::b64(v.enc_ecdh),
        base64_text::b64(v.nonce),
        base64_text::b64(v.recipients_blob),
        base64_text::b64(v.ct_and_tag),
        None,
    );
    match sig_text {
        Some(t) => base.push(("signature"@, t)),
        None => base,
    }
}

/// The fields of an armored message can stand in an armored block.
proof fn lemma_message_fields(v: MessageView, sig_text: Option<Seq<char>>)
    requires
        sig_text matches Some(t) ==> block::bare(t),
    ensures
        ({
            let f = fields_with(v, sig_text);
            &&& forall|i: int| 0 <= i < f.len() ==> block::plain_field(#[trigger] f[i])
            &&& forall|i: int| 0 <= i < f.len() ==> (#[trigger] f[i]).0 == message_key(i)
        }),
{
    armor::lemma_b64_bare(v.enc_ecdh);
    armor::lemma_b64_bare(v.nonce);
    armor::lemma_b64_bare(v.recipients_blob);
    armor::lemma_b64_bare(v.ct_and_tag);
    reveal_strlit("v");
    reveal_strlit("1");
    reveal_strlit("enc_ecdh");
    reveal_strlit("nonce");
    reveal_strlit("recipients");
    reveal_strlit("ct");
    reveal_strlit("signature");
}

/// The lines of a message's fields hold the message, with what the signature field
/// gives.
proof fn lemma_message_body(v: MessageView, sig_text: Option<Seq<char>>)
    requires
        valid_message(v),
        sig_text matches Some(t) ==> block::bare(t),
    ensures
        message_of_body(
            fields_with(v, sig_text).map_values(|x: (Seq<char>, Seq<char>)| block::bare_line(x)),
        ) == Some(
            MessageView {
                signature: match sig_text {
                    Some(t) => Some(lenient_bytes(t)),
                    None => None,
                },
                ..v
            },
        ),
{
    let f = fields_with(v, sig_text);
    lemma_message_fields(v, sig_text);
    let body = f.map_values(|x: (Seq<char>, Seq<char>)| block::bare_line(x));
    assert forall|i: int| 0 <= i < body.len() implies #[trigger] in_order(body, i) && value_at(
        body,
        i,
    ) == f[i].1 by {
        block::lemma_plain_field(f[i]);
    }
    assert(in_order(body, 0) && in_order(body, 1) && in_order(body, 2) && in_order(body, 3)
        && in_order(body, 4));
    base64_text::lemma_b64_roundtrip(v.enc_ecdh);
    base64_text::lemma_b64_roundtrip(v.nonce);
    base64_text::lemma_b64_roundtrip(v.recipients_blob);
    base64_text::lemma_b64_roundtrip(v.ct_and_tag);
    if sig_text is Some {
        assert(in_order(body, 5));
    }
}

/// The markers of a message can stand as lines.
proof fn lemma_markers_tidy()
    ensures
        block::tidy(BEGIN_MSG@),
        block::tidy(END_MSG@),
{
    reveal_strlit("-----BEGIN VELUM MESSAGE-----");
    reveal_strlit("-----END VELUM MESSAGE-----");
}

/// A message with the text of a signature field, if it has one, in armor.
pub open spec fn armored_with(v: MessageView, sig_text: Option<Seq<char>>) -> Seq<char> {
    block::block_text(BEGIN_MSG@, fields_with(v, sig_text), END_MSG@)
}

/// A valid message is read back from its armor, with what the signature field gives.
pub proof fn lemma_message_text(v: MessageView, sig_text: Option<Seq<char>>)
    requires
        valid_message(v),
        sig_text matches Some(t) ==> block::bare(t),
    ensures
        message_of(armored_with(v, sig_text)) == Some(
            MessageView {
                signature: match sig_text {
                    Some(t) => Some(lenient_bytes(t)),
                    None => None,
                },
                ..v
            },
        ),
{
    lemma_message_fields(v, sig_text);
    lemma_message_body(v, sig_text);
    lemma_markers_tidy();
    block::lemma_block_lines(BEGIN_MSG@, fields_with(v, sig_text), END_MSG@);
}

/// A valid message is read back from its armor.
pub proof fn lemma_message_roundtrip(v: MessageView)
    requires
        valid_message(v),
    ensures
        message_of(armored(v)) == Some(v),
{
    match v.signature {
        Some(s) => {
            let t = base64_text::b64(s);
            armor::lemma_b64_bare(s);
            base64_text::lemma_b64_roundtrip(s);
            lemma_message_text(v, Some(t));
            assert(armored(v) == armored_with(v, Some(t)));
        },
        None => {
            lemma_message_text(v, None);
            assert(armored(v) == armored_with(v, None));
        },
    }
}

/// A signature field that is not Base64 is read as an empty signature, and leaves the
/// rest of the message, and the envelope that it stands for, as they are without it.
pub proof fn lemma_unreadable_signature(v: MessageView, sig_text: Seq<char>)
    requires
        valid_message(v),
        v.signature is None,
        block::bare(sig_text),
        base64_text::b64_bytes(sig_text) is None,
    ensures
        message_of(armored_with(v, Some(sig_text))) == Some(
            MessageView { signature: Some(seq![]), ..v },
        ),
        binary_of(armored_with(v, Some(sig_text))) == binary_of(armored(v)),
{
    lemma_message_text(v, Some(sig_text));
    lemma_message_roundtrip(v);
}

/// An envelope without flags, whose commitment is that of its recipients, is
/// read back from its armor.
pub proof fn lemma_binary_armor_roundtrip(v: envelope::EnvelopeView)
    requires
        envelope::valid_envelope(v),
        !v.stream,
        !v.has_trailer,
        v.rc == commitment_of(v.recipients_blob),
    ensures
        binary_of(armored(message_of_envelope(v))) == Some(envelope::envelope_bytes(v)),
{
    lemma_message_roundtrip(message_of_envelope(v));
}

// ----------------------------------------------------------------------
// Writing and parsing
// ----------------------------------------------------------------------

/// Serializes an armored message.
pub fn armor_message(
    enc_ecdh_b64: &str,
    nonce_b64: &str,
    recipients_blob_b64: &str,
    ct_b64: &str,
    signature: Option<&[u8]>,
) -> (arm: String)
    ensures
        arm@ == message_text(
            enc_ecdh_b64@,
            nonce_b64@,
            recipients_blob_b64@,
            ct_b64@,
            match signature {
                Some(s) => Some(s@),
                None => None,
            },
        ),
{
    match signature {
        Some(sig) => {
            let sig_b64: String = b64e(sig);
            let fields: [(&str, &str); 6] = [
                ("v", V),
                ("enc_ecdh", enc_ecdh_b64),
                ("nonce", nonce_b64),
                ("recipients", recipients_blob_b64),
                ("ct", ct_b64),
                ("signature", sig_b64.as_str()),
            ];
            assert(block::field_views(fields@) =~= message_fields(
                enc_ecdh_b64@,
                nonce_b64@,
                recipients_blob_b64@,
                ct_b64@,
                Some(sig@),
            ));
            build_block(BEGIN_MSG, fields.as_slice(), END_MSG)
        },
        None => {
            let fields: [(&str, &str); 5] = [
                ("v", V),
                ("enc_ecdh", enc_ecdh_b64),
                ("nonce", nonce_b64),
                ("recipients", recipients_blob_b64),
                ("ct", ct_b64),
            ];
            assert(block::field_views(fields@) =~= message_fields(
                enc_ecdh_b64@,
                nonce_b64@,
                recipients_blob_b64@,
                ct_b64@,
                None,
            ));
            build_block(BEGIN_MSG, fields.as_slice(), END_MSG)
        },
    }
}

/// The key of the `i`-th field.
fn message_key_name(i: usize) -> (key: &'static str)
    ensures
        key@ == message_key(i as int),
{
    if i == 0 {
        "v"
    } else if i == 1 {
        "enc_ecdh"
    } else if i == 2 {
        "nonce"
    } else if i == 3 {
        "recipients"
    } else if i == 4 {
        "ct"
    } else {
        "signature"
    }
}

/// The values of the lines between the markers, if the keys are the expected
/// ones in the expected order.
fn ordered_values(lines: &Vec<String>) -> (values: Result<Vec<String>, ()>)
    requires
        lines@.len() >= 2,
    ensures
        ({
            let body = block::body_of(text::texts(lines@));
            &&& values is Ok <==> (forall|i: int|
                0 <= i < body.len() ==> #[trigger] in_order(body, i))
            &&& values matches Ok(v) ==> v@.len() == body.len() && forall|i: int|
                0 <= i < body.len() ==> (#[trigger] v@[i])@ == value_at(body, i)
        }),
{
    let n: usize = lines.len();
    let ghost body = block::body_of(text::texts(lines@));
    let mut values: Vec<String> = Vec::new();
    let mut i: usize = 0;
    while i + 2 < n
        invariant
            n == lines@.len(),
            n >= 2,
            i <= n - 2,
            body == block::body_of(text::texts(lines@)),
            body.len() == n - 2,
            values@.len() == i,
            forall|k: int| 0 <= k < i ==> #[trigger] in_order(body, k),
            forall|k: int| 0 <= k < i ==> (#[trigger] values@[k])@ == value_at(body, k),
        decreases n - i,
    {
        assert(body[i as int] == lines@[i + 1]@);
        let (key, value): (String, String) = match split_field(lines[i + 1].as_str()) {
            Some(f) => f,
            None => {
                assert(!in_order(body, i as int));
                return Err(());
            },
        };
        if !same_text(key.as_str(), message_key_name(i)) {
            assert(!in_order(body, i as int));
            return Err(());
        }
        assert(in_order(body, i as int));
        values.push(value);
        i = i + 1;
    }
    Ok(values)
}

/// Parses an armored message. The fields have to stand in their order; all but
/// the signature have to be Base64 of the right sizes. A signature that is not
/// Base64 is taken as an empty one.
pub fn parse_message(arm: &str) -> (msg: Result<ParsedMsg, ()>)
    ensures
        msg is Ok <==> message_of(arm@) is Some,
        msg matches Ok(m) ==> message_of(arm@) == Some(m@),
{
    let lines: Vec<String> = split_armor_lines(arm);
    if !check_markers(&lines, BEGIN_MSG, END_MSG) {
        return Err(());
    }
    let ghost body = block::body_of(text::texts(lines@));
    if lines.len() != 7 && lines.len() != 8 {
        return Err(());
    }
    let values: Vec<String> = match ordered_values(&lines) {
        Ok(values) => values,
        Err(_) => {
            return Err(());
        },
    };
    proof {
        assert(in_order(body, 0) && in_order(body, 1) && in_order(body, 2) && in_order(body, 3)
            && in_order(body, 4));
        assert(values@[0]@ == value_at(body, 0));
        assert(values@[1]@ == value_at(body, 1));
        assert(values@[2]@ == value_at(body, 2));
        assert(values@[3]@ == value_at(body, 3));
        assert(values@[4]@ == value_at(body, 4));
        assert(body.len() == 6 ==> values@[5]@ == value_at(body, 5));
    }
    if !same_text(values[0].as_str(), V) {
        return Err(());
    }
    let enc_ecdh: Vec<u8> = match b64d(values[1].as_str()) {
        Ok(b) => b,
        Err(_) => {
            return Err(());
        },
    };
    if enc_ecdh.len() != 32 {
        return Err(());
    }
    let nonce: Vec<u8> = match b64d(values[2].as_str()) {
        Ok(b) => b,
        Err(_) => {
            return Err(());
        },
    };
    if nonce.len() != MSG_NONCE_LEN {
        return Err(());
    }
    let recipients_blob: Vec<u8> = match b64d(values[3].as_str()) {
        Ok(b) => b,
        Err(_) => {
            return Err(());
        },
    };
    if decode_recipients(recipients_blob.as_slice()).is_err() {
        return Err(());
    }
    let ct_and_tag: Vec<u8> = match b64d(values[4].as_str()) {
        Ok(b) => b,
        Err(_) => {
            return Err(());
        },
    };
    if ct_and_tag.len() < TAG_LEN {
        return Err(());
    }
    let signature: Option<Vec<u8>> = if values.len() == 6 {
        match b64d(values[5].as_str()) {
            Ok(b) => Some(b),
            Err(_) => {
                let none: Vec<u8> = Vec::new();
                assert(none@ =~= seq![]);
                Some(none)
            },
        }
    } else {
        None
    };
    let m: ParsedMsg = ParsedMsg {
        enc_ecdh: array_32(enc_ecdh.as_slice()),
        nonce: array_24(nonce.as_slice()),
        recipients_blob,
        ct_and_tag,
        signature,
    };
    assert(message_of(arm@)->0 =~= m@);
    Ok(m)
}

/// Writes a parsed envelope as an armored message. Temporary Base64 texts are
/// wiped.
pub fn armor_parsed(parsed: &ParsedBinary) -> (arm: String)
    ensures
        arm@ == armored(message_of_envelope(parsed@)),
{
    let mut enc_ecdh_b64: String = b64e(parsed.enc_ecdh.as_slice());
    let mut nonce_b64: String = b64e(parsed.nonce.as_slice());
    let mut recipients_b64: String = b64e(parsed.recipients_blob.as_slice());
    let mut ct_b64: String = b64e(parsed.ct_and_tag.as_slice());
    let signature: Option<&[u8]> = match &parsed.signature {
        Some(s) => Some(s.as_slice()),
        None => None,
    };
    let arm: String = armor_message(
        enc_ecdh_b64.as_str(),
        nonce_b64.as_str(),
        recipients_b64.as_str(),
        ct_b64.as_str(),
        signature,
    );
    wipe_string(&mut enc_ecdh_b64);
    wipe_string(&mut nonce_b64);
    wipe_string(&mut recipients_b64);
    wipe_string(&mut ct_b64);
    arm
}

/// Converts a binary envelope to an armored message.
pub fn armor_from_binary(envelope: &[u8]) -> (arm: String)
    requires
        envelope::parsed(envelope@) is Some,
    ensures
        arm@ == armored(message_of_envelope(envelope::parsed(envelope@)->0)),
{
    match parse_envelope_binary(envelope) {
        Ok(p) => armor_parsed(&p),
        Err(_) => String::new(),
    }
}

/// The identifiers of entries, recomputed from their capsules.
pub fn entry_ids(entries: &Vec<RecipientEntry>) -> (ids: Vec<[u8; 32]>)
    ensures
        order::id_views(ids@) == recipients::ids_of(recipients::entry_views(entries@)),
{
    let ghost all = recipients::ids_of(recipients::entry_views(entries@));
    let mut ids: Vec<[u8; 32]> = Vec::new();
    let mut i: usize = 0;
    assert(order::id_views(ids@) =~= all.take(0));
    while i < entries.len()
        invariant
            i <= entries@.len(),
            all == recipients::ids_of(recipients::entry_views(entries@)),
            order::id_views(ids@) == all.take(i as int),
        decreases entries@.len() - i,
    {
        let id: [u8; 32] = compute_entry_id(entries[i].enc_pq.as_slice());
        let ghost before = order::id_views(ids@);
        ids.push(id);
        assert(order::id_views(ids@) =~= before.push(id@));
        assert(all.take(i + 1) =~= all.take(i as int).push(all[i as int]));
        i = i + 1;
    }
    assert(all.take(all.len() as int) =~= all);
    ids
}

/// Converts an armored message to a binary envelope. The commitment is computed
/// from the recipient list. Fails exactly when the message is not valid or its
/// header does not fit an envelope.
pub fn binary_from_armor(armored: &str) -> (bin: Result<Vec<u8>, ()>)
    ensures
        match bin {
            Ok(b) => binary_of(armored@) == Some(b@),
            Err(_) => binary_of(armored@) is None,
        },
{
    let msg: ParsedMsg = match parse_message(armored) {
        Ok(m) => m,
        Err(_) => {
            return Err(());
        },
    };
    let entries: Vec<RecipientEntry> = match decode_recipients(msg.recipients_blob.as_slice()) {
        Ok(e) => e,
        Err(_) => {
            return Err(());
        },
    };
    let ids: Vec<[u8; 32]> = entry_ids(&entries);
    let rc: [u8; 32] = recipients_commitment(ids.as_slice());
    let sig_len: usize = match &msg.signature {
        Some(s) => s.len(),
        None => 0,
    };
    if msg.recipients_blob.len() as u64 > 0xFFFF_FFFF - 96 || sig_len as u64 > 0xFFFF_FFFF - 96
        - msg.recipients_blob.len() as u64 {
        return Err(());
    }
    Ok(
        encode_envelope_binary(
            msg.enc_ecdh,
            msg.nonce,
            msg.recipients_blob,
            msg.ct_and_tag,
            msg.signature,
            0,
            rc,
        ),
    )
}

} // verus!
