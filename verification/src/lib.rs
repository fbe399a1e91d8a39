//! VELUM: hybrid encryption and signatures that hold against quantum computers.
//!
//! A message is encrypted for any number of recipients, none of whom is named in
//! it, and may be signed. It travels as ASCII armor or as a binary envelope, whole
//! or in chunks that are written and read without seeking.
//!
//! - [`encrypt`] and [`decrypt`]: messages in memory
//! - [`file_encrypt`] and [`file_decrypt`]: files, piece by piece
//! - [`keys`]: key pairs and the keystore that a passphrase locks
//! - [`armor`] and [`message`]: the text formats
//! - [`envelope`], [`recipients`] and [`streaming`]: the binary format
//! - [`sink`]: where decrypted chunks are handed over
//! - [`handshake`]: how a content key reaches its recipients
//! - [`transcript`]: what is authenticated and what is signed
//! - [`roundtrip`]: what a recipient gets back of what was encrypted
//! - [`laws`]: what calls of the operations promise, in the names of the primitives
//! - [`crypto`]: the primitives, and all that is taken on trust of them
//! - [`rules`] and [`status`]: rules and outcomes for programs around the library
//!
//! Functions return `Result<_, ()>`: a caller, and with it an attacker, learns
//! that an input was refused and not why.

pub mod armor;
pub mod base64_text;
pub mod block;
pub mod constants;
pub mod context;
pub mod crypto;
pub mod decimal;
pub mod decrypt;
pub mod encrypt;
pub mod envelope;
pub mod file_decrypt;
pub mod file_encrypt;
pub mod handshake;
pub mod keys;
pub mod laws;
pub mod message;
pub mod order;
pub mod recipients;
pub mod roundtrip;
pub mod rules;
pub mod sink;
pub mod status;
pub mod streaming;
pub mod text;
pub mod transcript;
pub mod util;

pub use crate::decrypt::{decrypt, decrypt_binary};
pub use crate::encrypt::{encrypt, encrypt_binary};
pub use crate::file_decrypt::FileDecryptor;
pub use crate::file_encrypt::FileEncryptor;
pub use crate::keys::{generate_keypair, rewrap_secret_with_params, validate_public};
pub use crate::sink::Sink;
pub use crate::status::SigStatus;
