//! The state of an encryption and of a decryption.

use vstd::prelude::*;

use crate::constants::MSG_NONCE_LEN;
use crate::crypto::wipe_key;
use crate::envelope::{EnvelopeView, ParsedBinary};

verus! {

/// A content key. It is only read through [`EncryptHandshake::cek`] and
/// [`DecryptContext::cek`], and wiped when it is dropped.
pub struct ContentKey {
    bytes: [u8; 32],
}

impl View for ContentKey {
    type V = Seq<u8>;

    closed spec fn view(&self) -> Seq<u8> {
        self.bytes@
    }
}

impl Drop for ContentKey {
    /// Wipes the key.
    fn drop(&mut self)
        opens_invariants none
        no_unwind
    {
        wipe_key(&mut self.bytes);
    }
}

/// What an encryption has settled before it touches the payload: ephemeral key,
/// nonce, commitment, recipient list, and the content key, which alone is secret.
pub struct EncryptHandshake {
    /// Whether the payload is chunked.
    pub stream_on: bool,
    /// Ephemeral X25519 public key.
    pub enc_ecdh: [u8; 32],
    /// Main content nonce.
    pub nonce: [u8; MSG_NONCE_LEN],
    /// Recipients commitment.
    pub rc: [u8; 32],
    /// Serialized recipient list.
    pub recipients_blob: Vec<u8>,
    /// Content key.
    pub key: ContentKey,
}

/// What a handshake holds.
#[verifier::ext_equal]
pub struct HandshakeView {
    pub stream_on: bool,
    pub enc_ecdh: Seq<u8>,
    pub nonce: Seq<u8>,
    pub rc: Seq<u8>,
    pub recipients_blob: Seq<u8>,
    pub cek: Seq<u8>,
}

impl View for EncryptHandshake {
    type V = HandshakeView;

    open spec fn view(&self) -> HandshakeView {
        HandshakeView {
            stream_on: self.stream_on,
            enc_ecdh: self.enc_ecdh@,
            nonce: self.nonce@,
            rc: self.rc@,
            recipients_blob: self.recipients_blob@,
            cek: self.key@,
        }
    }
}

impl EncryptHandshake {
    /// A handshake of the given parts.
    pub fn new(
        stream_on: bool,
        enc_ecdh: [u8; 32],
        nonce: [u8; MSG_NONCE_LEN],
        rc: [u8; 32],
        recipients_blob: Vec<u8>,
        cek: [u8; 32],
    ) -> (hs: EncryptHandshake)
        ensures
            hs.stream_on == stream_on,
            hs.enc_ecdh == enc_ecdh,
            hs.nonce == nonce,
            hs.rc == rc,
            hs.recipients_blob == recipients_blob,
            hs.key@ == cek@,
    {
        EncryptHandshake {
            stream_on,
            enc_ecdh,
            nonce,
            rc,
            recipients_blob,
            key: ContentKey { bytes: cek },
        }
    }

    /// The content key.
    pub fn cek(&self) -> (key: &[u8; 32])
        ensures
            key@ == self.key@,
    {
        &self.key.bytes
    }
}

/// What a decryption has recovered from the header: the envelope, the commitment
/// and the content key, which alone is secret.
pub struct DecryptContext {
    /// The parsed envelope.
    pub parsed: ParsedBinary,
    /// Recipients commitment.
    pub rc: [u8; 32],
    /// Content key.
    pub key: ContentKey,
}

/// What a decryption context holds.
#[verifier::ext_equal]
pub struct ContextView {
    pub parsed: EnvelopeView,
    pub rc: Seq<u8>,
    pub cek: Seq<u8>,
}

impl View for DecryptContext {
    type V = ContextView;

    open spec fn view(&self) -> ContextView {
        ContextView { parsed: self.parsed@, rc: self.rc@, cek: self.key@ }
    }
}

impl DecryptContext {
    /// A context of the given parts.
    pub fn new(parsed: ParsedBinary, rc: [u8; 32], cek: [u8; 32]) -> (ctx: DecryptContext)
        ensures
            ctx.parsed == parsed,
            ctx.rc == rc,
            ctx.key@ == cek@,
    {
        DecryptContext { parsed, rc, key: ContentKey { bytes: cek } }
    }

    /// The content key.
    pub fn cek(&self) -> (key: &[u8; 32])
        ensures
            key@ == self.key@,
    {
        &self.key.bytes
    }
}

} // verus!
