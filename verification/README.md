# VELUM

Hybrid encryption and signatures that hold against quantum computers, verified
with [Verus](https://github.com/verus-lang/verus).

A message is encrypted for any number of recipients, none of whom is named in it,
and may be signed. Keys are hybrid: X25519 with ML-KEM-768, Ed25519 with
ML-DSA-65. A message travels as ASCII armor or as a binary envelope, whole or in
chunks that are written and read without seeking.

## Layout

- `src/` is the library. Every item in it is verified; what is taken on trust of
  the primitives stands in `src/crypto.rs`, and of Unicode in `src/text.rs`.
- `tests/` runs the library with the real primitives.
- `app/` is the program around the library: the command line, the loops that read
  and write files, and the C interface.

## What is proved

- The formats are exact: each parser gives back what was encoded, and those of the
  binary formats accept nothing but encodings. Armor: `block`, `armor`, `message`.
  Binary: `envelope`, `recipients`. The frames of a chunked payload are read back
  too, and only where each stands in its place (`streaming`).
- A keystore unlocks under its passphrase to the keys that were locked in it
  (`keys`).
- Additional data and signature transcripts determine all that they are made of
  (`transcript`).
- A generated public key can be encrypted to, and whoever holds the secret half gets
  back what was encrypted, whole, in chunks and from files; a signature that the
  expected signer made is reported as verified (`roundtrip`). Left out are the rare
  capsules that do not decapsulate.
- Key blocks that are joined are read back as a list (`armor`), and what is encrypted
  is detected as the format that it has (`rules`).
- What decryption hands over are the authenticated chunks, each once and in order,
  and nothing else (`sink`, `decrypt`). Frames that are out of order decrypt to
  nothing (`roundtrip`).
- Reading a file piece by piece gives what reading it in memory gives
  (`file_decrypt`).

The theorems speak of what the primitives compute by name. They do not say that a
primitive is hard to break.
