[package]
name = "velum"
version = "0.1.4"
edition = "2021"
publish = false

[dependencies]
aes-gcm-siv = "0.11"
anyhow = "1"
argon2 = "0.5"
base64 = "0.22"
chacha20poly1305 = "0.10"
clap = { version = "4", features = ["derive", "env"] }
ed25519-dalek = "2"
hkdf = "0.12"
is-terminal = "0.4"
pqcrypto-mldsa = "0.1"
pqcrypto-mlkem = "0.1"
pqcrypto-traits = "0.3"
rand = "0.8"
rpassword = "7"
sha2 = "0.10"
subtle = "2"
x25519-dalek = { version = "2", features = ["static_secrets"] }
zeroize = { version = "1", features = ["derive"] }
