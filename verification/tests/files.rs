//! Files, piece by piece.

use pqcrypto_mldsa::mldsa65;
use pqcrypto_mlkem::mlkem768;
use pqcrypto_traits::kem::{PublicKey as KemPublic, SecretKey as KemSecret};
use pqcrypto_traits::sign::{PublicKey as SigPublic, SecretKey as SigSecret};

use velum::armor::armor_public;
use velum::decrypt::decrypt_streaming_raw;
use velum::encrypt::encrypt_binary;
use velum::envelope::parse_preamble;
use velum::file_decrypt::{FileDecryptor, FileEvent, Need};
use velum::file_encrypt::FileEncryptor;
use velum::keys::{seal_secret, Argon2idParams, SecretBundle};
use velum::sink::Sink;

const PASS: &str = "quick";

fn quick_keypair(seed: u8) -> (String, String) {
    let (kem_pk, kem_sk) = mlkem768::keypair();
    let (sig_pk, sig_sk) = mldsa65::keypair();
    let ecdh = x25519_dalek::StaticSecret::from([seed; 32]);
    let ed = ed25519_dalek::SigningKey::from_bytes(&[seed; 32]);
    let keys = SecretBundle {
        ecdh_sk: ecdh.to_bytes(),
        pq_sk: kem_sk.as_bytes().to_vec(),
        sig_sk_pq: sig_sk.as_bytes().to_vec(),
        sig_sk_ed: [seed; 32],
    };
    let params = Argon2idParams {
        m_cost_kib: 8,
        t_cost: 1,
        parallelism: 1,
    };
    let public = armor_public(
        &x25519_dalek::PublicKey::from(&ecdh).to_bytes(),
        kem_pk.as_bytes(),
        sig_pk.as_bytes(),
        &ed.verifying_key().to_bytes(),
    );
    let secret = seal_secret(&keys, PASS, params, &[seed; 16], &[seed; 12]).unwrap();
    (public, secret)
}

/// Writes a file of the chunks.
fn write_file(chunks: &[&[u8]], recipients: &str, signer: Option<(&str, &str)>) -> Vec<u8> {
    let (mut enc, mut out) = match FileEncryptor::begin(recipients, signer, 4096) {
        Ok(p) => p,
        Err(()) => panic!("a file begins"),
    };
    for chunk in chunks {
        out.extend_from_slice(&enc.seal(chunk).unwrap());
    }
    out.extend_from_slice(&enc.finish());
    out
}

/// Reads a file: the chunks that came, and the status or the failure.
fn read_file(
    file: &[u8],
    secret: &str,
    expected: Option<&str>,
) -> (Vec<Vec<u8>>, Result<i32, ()>) {
    let mut chunks = Vec::new();
    let head_len = match parse_preamble(&file[..12]) {
        Ok(p) => 12 + p.header_len as usize,
        Err(()) => return (chunks, Err(())),
    };
    let mut dec = match FileDecryptor::open(&file[..head_len], secret, PASS) {
        Ok(d) => d,
        Err(()) => return (chunks, Err(())),
    };
    let mut rest = &file[head_len..];
    loop {
        let n = match dec.need() {
            Need::Exactly(n) => n,
            Need::Rest => rest.len(),
            Need::End => rest.len().min(1),
            Need::Nothing => panic!("a status came before"),
        };
        if rest.len() < n {
            return (chunks, Err(()));
        }
        let (piece, more) = rest.split_at(n);
        rest = more;
        match dec.feed(piece, expected) {
            Ok(FileEvent::Wait) => {}
            Ok(FileEvent::Chunk(c)) => chunks.push(c),
            Ok(FileEvent::Done(status)) => {
                assert_eq!(dec.need(), Need::Nothing);
                return (chunks, Ok(status));
            }
            Err(()) => {
                assert_eq!(dec.need(), Need::Nothing);
                return (chunks, Err(()));
            }
        }
    }
}

#[test]
fn files_are_read_as_they_were_written() {
    let (pub1, sec1) = quick_keypair(1);
    let (pub2, sec2) = quick_keypair(2);
    let parts: [&[u8]; 3] = [b"one", b"two", b"three"];
    let expected: Vec<Vec<u8>> = parts.iter().map(|p| p.to_vec()).collect();

    let plain = write_file(&parts, &pub1, None);
    assert_eq!(read_file(&plain, &sec1, None), (expected.clone(), Ok(0)));
    assert_eq!(read_file(&plain, &sec1, Some(&pub2)), (expected.clone(), Ok(3)));

    let signed = write_file(&parts, &pub1, Some((&sec2, PASS)));
    assert_eq!(read_file(&signed, &sec1, Some(&pub2)), (expected.clone(), Ok(1)));
    assert_eq!(read_file(&signed, &sec1, Some(&pub1)), (expected.clone(), Ok(2)));
    assert_eq!(read_file(&signed, &sec1, None), (expected.clone(), Ok(3)));
    assert_eq!(read_file(&signed, &sec1, Some("no key")), (expected, Err(())));
}

#[test]
fn files_and_memory_agree() {
    let (pub1, sec1) = quick_keypair(1);
    let (pub2, sec2) = quick_keypair(2);
    let file = write_file(&[b"some", b"thing"], &pub1, Some((&sec2, PASS)));
    let mut chunks: Vec<Vec<u8>> = Vec::new();
    let mut sink = Sink::new(|c: &[u8]| {
        chunks.push(c.to_vec());
        Ok(())
    });
    let status = decrypt_streaming_raw(&file, &sec1, PASS, Some(&pub2), &mut sink);
    assert_eq!((chunks, status), read_file(&file, &sec1, Some(&pub2)));
}

#[test]
fn whole_messages_are_read_from_files() {
    let (pub1, sec1) = quick_keypair(1);
    let (pub2, sec2) = quick_keypair(2);
    let bin = encrypt_binary(b"whole", &pub1, Some((&sec2, PASS))).unwrap();
    let one = vec![b"whole".to_vec()];
    assert_eq!(read_file(&bin, &sec1, Some(&pub2)), (one.clone(), Ok(1)));
    assert_eq!(read_file(&bin, &sec1, None), (one.clone(), Ok(3)));
    assert_eq!(read_file(&bin, &sec1, Some("no key")), (one, Err(())));
    let last = bin.len() - 1;
    let mut changed = bin.clone();
    changed[last] ^= 1;
    assert_eq!(read_file(&changed, &sec1, None), (Vec::new(), Err(())));
    assert_eq!(read_file(&bin[..last - 20], &sec1, None), (Vec::new(), Err(())));
}

#[test]
fn empty_files_are_files() {
    let (pub1, sec1) = quick_keypair(1);
    let (pub2, sec2) = quick_keypair(2);
    assert_eq!(read_file(&write_file(&[], &pub1, None), &sec1, None), (Vec::new(), Ok(0)));
    let signed = write_file(&[], &pub1, Some((&sec2, PASS)));
    assert_eq!(read_file(&signed, &sec1, Some(&pub2)), (Vec::new(), Ok(1)));
}

#[test]
fn damaged_files_fail_where_they_are_damaged() {
    let (pub1, sec1) = quick_keypair(1);
    let (pub2, sec2) = quick_keypair(2);
    let file = write_file(&[b"one", b"two"], &pub1, Some((&sec2, PASS)));
    let trailer = 4 + 36 + 3373;
    let start = file.len() - trailer - 2 * (28 + 3 + 16);
    let one = vec![b"one".to_vec()];
    let both = vec![b"one".to_vec(), b"two".to_vec()];

    let read = |f: &[u8]| read_file(f, &sec1, Some(&pub2));
    assert_eq!(read(&file), (both.clone(), Ok(1)));
    // The second body, the magic, the signature.
    let mut body = file.clone();
    body[start + 47 + 30] ^= 1;
    assert_eq!(read(&body), (one.clone(), Err(())));
    let mut magic = file.clone();
    magic[file.len() - trailer + 4] ^= 1;
    assert_eq!(read(&magic), (both.clone(), Err(())));
    let mut signature = file.clone();
    signature[file.len() - 1] ^= 1;
    assert_eq!(read(&signature), (both.clone(), Ok(2)));
    // A length field that is shorter than a tag.
    let mut length = file.clone();
    length[start..start + 4].copy_from_slice(&[0, 0, 0, 15]);
    assert_eq!(read(&length), (Vec::new(), Err(())));
    // A nonce that is not that of its place, and frames in another order.
    let mut nonce = file.clone();
    nonce[start + 47 + 10] ^= 1;
    assert_eq!(read(&nonce), (one.clone(), Err(())));
    let mut swapped = file[..start].to_vec();
    swapped.extend_from_slice(&file[start + 47..start + 94]);
    swapped.extend_from_slice(&file[start..start + 47]);
    swapped.extend_from_slice(&file[start + 94..]);
    assert_eq!(read(&swapped), (Vec::new(), Err(())));
    // Cut off.
    assert_eq!(read(&file[..file.len() - 1]), (both, Err(())));
    assert_eq!(read(&file[..start + 47 + 10]), (one, Err(())));
    // Bytes behind the trailer, and behind an end marker without one.
    let mut longer = file.clone();
    longer.push(0);
    assert_eq!(read(&longer).1, Err(()));
    let mut plain = write_file(&[b"one"], &pub1, None);
    assert_eq!(read(&plain).1, Ok(3));
    plain.extend_from_slice(b"more");
    assert_eq!(read(&plain).1, Err(()));
}

#[test]
fn files_begin_and_end_properly() {
    let (pub1, sec1) = quick_keypair(1);
    assert!(FileEncryptor::begin(&pub1, None, 0).is_err());
    assert!(FileEncryptor::begin("", None, 1).is_err());
    // A signer who cannot sign is found out before anything is written.
    assert!(FileEncryptor::begin(&pub1, Some((&sec1, "wrong")), 1).is_err());
    assert!(FileEncryptor::begin(&pub1, Some(("no key", PASS)), 1).is_err());
    let begin = |signer: Option<(&str, &str)>| match FileEncryptor::begin(&pub1, signer, 1) {
        Ok(p) => p.0,
        Err(()) => panic!("a file begins"),
    };
    assert_eq!(begin(None).finish(), vec![0xFF; 4]);
    assert_eq!(begin(Some((&sec1, PASS))).finish().len(), 40 + 3373);
}

#[test]
fn heads_are_those_of_a_file() {
    let (pub1, sec1) = quick_keypair(1);
    let (_, sec2) = quick_keypair(2);
    let file = write_file(&[b"x"], &pub1, None);
    let n = 12 + 96 + 1184;
    assert!(FileDecryptor::open(&file[..n], &sec1, PASS).is_ok());
    assert!(FileDecryptor::open(&file[..n + 1], &sec1, PASS).is_err());
    assert!(FileDecryptor::open(&file[..n - 1], &sec1, PASS).is_err());
    assert!(FileDecryptor::open(&file[..n], &sec2, PASS).is_err());
    assert!(FileDecryptor::open(&file[..n], &sec1, "wrong").is_err());
    assert!(FileDecryptor::open(&file[..n], &sec1, "").is_err());
}
