//! Fixed values of the VELUM v1 protocol.
//!
//! This module is the single source of truth for magic values, wire-format
//! identifiers, cryptographic labels, lengths and bitfield flags. None of them
//! may change without a new protocol version.

use vstd::prelude::*;

verus! {

/// Protocol and armor format version, the value of every `v` field.
pub const V: &'static str = "1";

/// Armor boundary markers of public key blocks.
pub const BEGIN_PUB: &'static str = "-----BEGIN VELUM PUBLIC KEY-----";

pub const END_PUB: &'static str = "-----END VELUM PUBLIC KEY-----";

/// Armor boundary markers of encrypted secret key (keystore) blocks.
pub const BEGIN_SEC: &'static str = "-----BEGIN VELUM SECRET KEY-----";

pub const END_SEC: &'static str = "-----END VELUM SECRET KEY-----";

/// Armor boundary markers of encrypted message blocks.
pub const BEGIN_MSG: &'static str = "-----BEGIN VELUM MESSAGE-----";

pub const END_MSG: &'static str = "-----END VELUM MESSAGE-----";

/// Label of the hybrid signature transcript.
pub const SIG_LABEL: &'static str = "VELUM-v1-SIGN";

/// Label of the additional data of the content AEAD.
pub const AAD_LABEL: &'static str = "VELUM-v1-AAD";

/// Label of the additional data of the secret keystore.
pub const SECRET_AAD_LABEL: &'static str = "VELUM-SECRET-v1-AAD";

/// Label of the recipients commitment.
pub const RECIPIENTS_COMMIT_LABEL: &'static str = "VELUM-v1 recipients";

/// HKDF info label of a key-encryption key.
pub const WRAP_INFO_LABEL: &'static str = "VELUM-v1 KEK";

/// HKDF info label of a wrap nonce.
pub const WRAP_NONCE_INFO_LABEL: &'static str = "VELUM-v1 WRAP NONCE";

/// Label of the additional data of a wrapped content key.
pub const WRAP_AAD_LABEL: &'static str = "VELUM-v1 WRAP-AAD";

/// HKDF info label of a per-chunk nonce in streaming mode.
pub const STREAM_NONCE_INFO_LABEL: &'static str = "VELUM-v1 STREAM NONCE";

/// Length of the Argon2id salt.
pub const SALT_LEN: usize = 16;

/// Length of an XChaCha20-Poly1305 nonce.
pub const MSG_NONCE_LEN: usize = 24;

/// Length of the AES-256-GCM-SIV nonce of the secret keystore.
pub const SECRET_NONCE_LEN: usize = 12;

/// Length of an authentication tag.
pub const TAG_LEN: usize = 16;

/// Length of an Ed25519 signature.
pub const ED_SIG_LEN: usize = 64;

/// Magic bytes of the binary envelope: `VLM1`.
pub const MSG_MAGIC: [u8; 4] = [0x56, 0x4C, 0x4D, 0x31];

/// Version byte of the binary envelope.
pub const MSG_VERSION: u8 = 0x01;

/// Flag bit: the payload is chunked.
pub const MSG_FLAG_STREAM: u8 = 0x01;

/// Flag bit: a hybrid signature is appended as a trailer. All bits but these
/// two are reserved and must be zero.
pub const MSG_FLAG_SIGTRAILER: u8 = 0x02;

/// Length of the envelope's preamble: magic, version, flags, reserved, header
/// length.
pub const PREAMBLE_LEN: usize = 12;

/// Length value that marks the end of the frames of a streaming payload.
pub const TRAILER_SENTINEL_LEN: u32 = 0xFFFF_FFFF;

/// Magic bytes of the signature trailer: `VLM1-SIGTRAILER-STREAM-v1`, padded
/// with zeros.
pub const TRAILER_MAGIC: [u8; 32] = [
    0x56, 0x4C, 0x4D, 0x31, 0x2D, 0x53, 0x49, 0x47, 0x54, 0x52, 0x41, 0x49, 0x4C, 0x45, 0x52, 0x2D,
    0x53, 0x54, 0x52, 0x45, 0x41, 0x4D, 0x2D, 0x76, 0x31, 0, 0, 0, 0, 0, 0, 0,
];

/// Length of the fixed part of the signature trailer that follows the sentinel:
/// magic and signature length.
pub const TRAILER_HEAD_LEN: usize = 36;

} // verus!
