//! Messages in memory, end to end.

use pqcrypto_mldsa::mldsa65;
use pqcrypto_mlkem::mlkem768;
use pqcrypto_traits::kem::{PublicKey as KemPublic, SecretKey as KemSecret};
use pqcrypto_traits::sign::{PublicKey as SigPublic, SecretKey as SigSecret};

use velum::armor::armor_public;
use velum::constants::MSG_NONCE_LEN;
use velum::context::DecryptContext;
use velum::decrypt::{
    decrypt, decrypt_binary, decrypt_content, decrypt_raw, decrypt_streaming,
    decrypt_streaming_raw,
};
use velum::encrypt::{
    encrypt, encrypt_binary, encrypt_core, encrypt_str, encrypt_streaming,
    encrypt_streaming_binary, seal_message, StreamMode,
};
use velum::envelope::{encode_envelope_binary, parse_envelope_binary, ParsedBinary, StreamFlag};
use velum::handshake::{build_decrypt_context, build_encrypt_handshake};
use velum::keys::{generate_keypair, seal_secret, Argon2idParams, SecretBundle};
use velum::message::{armor_message, binary_from_armor, parse_message};
use velum::recipients::decode_recipients;
use velum::rules::is_armored;
use velum::sink::Sink;
use velum::status::SigStatus;
use velum::util::b64e;

/// A key pair under the passphrase "test-pass". Its keystore is cheap to open: a
/// test that opens several would else take too long.
fn core_test_keypair(seed: u8) -> (String, String) {
    cheap_keypair(seed, "test-pass")
}

fn dummy_decrypt_context_nonstream() -> DecryptContext {
    DecryptContext::new(
        ParsedBinary {
            enc_ecdh: [1u8; 32],
            nonce: [2u8; MSG_NONCE_LEN],
            recipients_blob: vec![0xAA],
            ct_and_tag: Vec::new(), // invalid: no tag, AEAD must fail
            signature: None,
            stream: StreamFlag::No,
            rc: [3u8; 32],
            has_trailer: false,
        },
        [3u8; 32],
        [4u8; 32],
    )
}

/// A sink that takes everything.
fn taking_all() -> Sink<impl FnMut(&[u8]) -> Result<(), ()>> {
    Sink::new(|_: &[u8]| Ok(()))
}

#[test]
fn test_build_encrypt_handshake_rejects_empty_recipient_list() {
    let empty = "";
    let res = build_encrypt_handshake(empty, false);
    assert!(res.is_err());
}

#[test]
fn test_encrypt_streaming_binary_refuses_zero_chunk_size() {
    let dummy_recipients =
        "-----BEGIN VELUM PUBLIC KEY-----\nAABBCC\n-----END VELUM PUBLIC KEY-----";
    let err = encrypt_streaming_binary(b"payload", dummy_recipients, None, 0);
    assert!(err.is_err());
}

#[test]
fn test_decrypt_content_nonstream_empty_payload_returns_err() {
    let ctx = dummy_decrypt_context_nonstream();
    let out = decrypt_content(&ctx);
    assert!(
        out.is_err(),
        "Empty ciphertext must cause decryption failure"
    );
}

#[test]
fn test_decrypt_rejects_non_utf8_bytes() {
    let bad = [0xFF, 0xFE, 0xFD];
    let sec = "-----BEGIN VELUM SECRET KEY-----\nAAA\n-----END VELUM SECRET KEY-----";
    let res = decrypt(&bad, sec, "pass", None);
    assert!(res.is_err(), "Invalid UTF-8 must result in Err(())");
}

#[test]
fn test_sigstatus_enum_from_int() {
    assert_eq!(SigStatus::from(0), SigStatus::NoSignature);
    assert_eq!(SigStatus::from(1), SigStatus::Verified);
    assert_eq!(SigStatus::from(2), SigStatus::Invalid);
    assert_eq!(SigStatus::from(3), SigStatus::Unexpected);
    assert_eq!(SigStatus::from(99), SigStatus::Unexpected);
}

#[test]
fn test_encrypt_decrypt_nonstream_roundtrip_no_signer() {
    let (pub_arm, sec_arm) = generate_keypair("test-pass").expect("key generation failed");

    let plaintext = b"The quick brown fox jumps over the lazy dog";
    let ct = encrypt(plaintext, &pub_arm, None).expect("encrypt (non-stream) failed");
    let (dec, status) = decrypt(&ct, &sec_arm, "test-pass", None).expect("decrypt failed");

    assert_eq!(dec, plaintext);
    assert_eq!(SigStatus::from(status), SigStatus::NoSignature);
}

#[test]
fn test_encrypt_decrypt_streaming_roundtrip_no_signer() {
    let (pub_arm, sec_arm) = generate_keypair("stream-pass").expect("key generation failed");

    let plaintext = b"hello streaming world - VELUM";
    let env_bin = encrypt_streaming_binary(plaintext, &pub_arm, None, 1024)
        .expect("streaming encrypt failed");

    let mut collected = Vec::new();
    let mut sink = Sink::new(|chunk: &[u8]| {
        collected.extend_from_slice(chunk);
        Ok(())
    });
    let status = decrypt_streaming_raw(&env_bin, &sec_arm, "stream-pass", None, &mut sink)
        .expect("streaming decrypt failed");

    assert_eq!(SigStatus::from(status), SigStatus::NoSignature);
    assert_eq!(&collected, plaintext);
}

/// A recipient list from another message does not pass.
#[test]
fn test_decrypt_rejects_recipients_grafting() {
    let (pub1, sec1) = core_test_keypair(71);
    let (pub2, _sec2) = core_test_keypair(72);

    let msg1 = encrypt(b"message-one", &pub1, None).expect("encrypt(message-one) must succeed");
    let msg2 = encrypt(b"message-two", &pub2, None).expect("encrypt(message-two) must succeed");

    let s1 = std::str::from_utf8(&msg1).expect("msg1 must be valid UTF-8 armor");
    let s2 = std::str::from_utf8(&msg2).expect("msg2 must be valid UTF-8 armor");

    let parsed1 = parse_message(s1).expect("parse_message(msg1) must succeed");
    let parsed2 = parse_message(s2).expect("parse_message(msg2) must succeed");

    let hybrid = armor_message(
        &b64e(&parsed1.enc_ecdh),
        &b64e(&parsed1.nonce),
        &b64e(&parsed2.recipients_blob),
        &b64e(&parsed1.ct_and_tag),
        parsed1.signature.as_deref(),
    );

    let res = decrypt(hybrid.as_bytes(), &sec1, "test-pass", Some(&pub1));

    assert!(
        res.is_err(),
        "grafting recipients_blob from another message must make decrypt() fail",
    );
}

#[test]
fn test_decrypt_binary_fails_on_ciphertext_tampering() {
    let (pub_arm, sec_arm) =
        generate_keypair("test-pass").expect("test keypair generation must succeed");

    let ct = encrypt_binary(b"tag-test", &pub_arm, None).expect("encrypt_binary must succeed");

    assert!(
        !ct.is_empty(),
        "encrypt_binary must produce non-empty ciphertext"
    );

    let mut tampered = ct.clone();
    let last = tampered.len() - 1;
    tampered[last] ^= 1; // minimal bit flip

    let res = decrypt_binary(&tampered, &sec_arm, "test-pass", Some(&pub_arm));

    assert!(
        res.is_err(),
        "any ciphertext tampering (even last byte) must cause decrypt_binary to fail"
    );
}

#[test]
fn test_encrypt_binary_is_randomized_for_same_input() {
    let (pub_arm, sec_arm) = core_test_keypair(73);
    let pt: &[u8] = b"same-plaintext-for-randomization-test";

    let ct1 = encrypt_binary(pt, &pub_arm, None).expect("first encrypt_binary must succeed");
    let ct2 = encrypt_binary(pt, &pub_arm, None).expect("second encrypt_binary must succeed");

    assert_ne!(
        ct1, ct2,
        "encrypt_binary must be randomized: two ciphertexts for the same input should differ"
    );

    let (out1, sig1) = decrypt_binary(&ct1, &sec_arm, "test-pass", None)
        .expect("decrypt_binary(ct1) must succeed");
    let (out2, sig2) = decrypt_binary(&ct2, &sec_arm, "test-pass", None)
        .expect("decrypt_binary(ct2) must succeed");

    assert_eq!(out1, pt);
    assert_eq!(out2, pt);

    assert_eq!(sig1, 0, "expected 'no signature' status for ct1");
    assert_eq!(sig2, 0, "expected 'no signature' status for ct2");
}

// With keys that are quick to unlock.

const PASS: &str = "quick";

fn quick_keypair(seed: u8) -> (String, String) {
    cheap_keypair(seed, PASS)
}

/// A key pair whose keystore is cheap to open.
fn cheap_keypair(seed: u8, pass: &str) -> (String, String) {
    let (kem_pk, kem_sk) = mlkem768::keypair();
    let (sig_pk, sig_sk) = mldsa65::keypair();
    let ecdh = x25519_dalek::StaticSecret::from([seed; 32]);
    let ed = ed25519_dalek::SigningKey::from_bytes(&[seed; 32]);
    let keys = SecretBundle {
        ecdh_sk: ecdh.to_bytes(),
        pq_sk: kem_sk.as_bytes().to_vec(),
        sig_sk_pq: sig_sk.as_bytes().to_vec(),
        sig_sk_ed: [seed; 32],
    };
    let params = Argon2idParams {
        m_cost_kib: 8,
        t_cost: 1,
        parallelism: 1,
    };
    let public = armor_public(
        &x25519_dalek::PublicKey::from(&ecdh).to_bytes(),
        kem_pk.as_bytes(),
        sig_pk.as_bytes(),
        &ed.verifying_key().to_bytes(),
    );
    let secret = seal_secret(&keys, pass, params, &[seed; 16], &[seed; 12]).unwrap();
    (public, secret)
}

#[test]
fn every_recipient_reads_the_message() {
    let (pub1, sec1) = quick_keypair(1);
    let (pub2, sec2) = quick_keypair(2);
    let (_, sec3) = quick_keypair(3);
    // One recipient twice.
    let list = format!("{}\n{}\n{}", pub1, pub2, pub1);
    let bin = encrypt_binary(b"for both", &list, None).unwrap();
    let parsed = parse_envelope_binary(&bin).unwrap();
    assert_eq!(decode_recipients(&parsed.recipients_blob).unwrap().len(), 2);
    assert_eq!(decrypt_raw(&bin, &sec1, PASS, None), Ok((b"for both".to_vec(), 0)));
    assert_eq!(decrypt_raw(&bin, &sec2, PASS, None), Ok((b"for both".to_vec(), 0)));
    assert_eq!(decrypt_raw(&bin, &sec3, PASS, None), Err(()));
    assert_eq!(decrypt_raw(&bin, &sec1, "wrong", None), Err(()));
}

#[test]
fn outputs_are_detected_by_their_first_bytes() {
    let (pub1, _) = quick_keypair(1);
    let armor = encrypt(b"x", &pub1, None).unwrap();
    assert!(is_armored(&armor[..64]));
    assert!(is_armored(&armor[..29]));
    assert!(!is_armored(&armor[..28]));
    let whole = encrypt_binary(b"x", &pub1, None).unwrap();
    let chunked = encrypt_streaming_binary(b"x", &pub1, None, 1).unwrap();
    assert!(!is_armored(&whole[..64]));
    assert!(!is_armored(&chunked[..64]));
}

#[test]
fn signatures_are_told_apart() {
    let (pub1, sec1) = quick_keypair(1);
    let (pub2, sec2) = quick_keypair(2);
    let signed = encrypt(b"signed", &pub1, Some((&sec2, PASS))).unwrap();
    let plain = encrypt_str("plain", &pub1, None).unwrap();

    let read = |m: &[u8], expected: Option<&str>| decrypt(m, &sec1, PASS, expected);
    assert_eq!(read(&signed, Some(&pub2)), Ok((b"signed".to_vec(), 1)));
    assert_eq!(read(&signed, Some(&pub1)), Ok((b"signed".to_vec(), 2)));
    assert_eq!(read(&signed, None), Ok((b"signed".to_vec(), 3)));
    assert_eq!(read(&signed, Some("no key")), Err(()));
    assert_eq!(read(&plain, None), Ok((b"plain".to_vec(), 0)));
    assert_eq!(read(&plain, Some(&pub2)), Ok((b"plain".to_vec(), 3)));

    // A signature that cannot be read is invalid to whom expects one.
    let text = String::from_utf8(plain).unwrap();
    let damaged = text.replace("-----END", "signature:!!!\n-----END");
    assert_eq!(read(damaged.as_bytes(), Some(&pub2)), Ok((b"plain".to_vec(), 2)));
    assert_eq!(read(damaged.as_bytes(), None), Ok((b"plain".to_vec(), 0)));

    // A signer who cannot unlock their secret.
    assert!(encrypt(b"x", &pub1, Some((&sec2, "wrong"))).is_err());
}

#[test]
fn chunks_come_back_in_order() {
    let (pub1, sec1) = quick_keypair(1);
    let (pub2, sec2) = quick_keypair(2);
    let bin = encrypt_streaming_binary(b"abcdefgh", &pub1, Some((&sec2, PASS)), 3).unwrap();
    let parsed = parse_envelope_binary(&bin).unwrap();
    assert_eq!(parsed.stream, StreamFlag::Yes);
    assert!(parsed.has_trailer);
    assert!(parsed.signature.is_none());

    let mut chunks: Vec<Vec<u8>> = Vec::new();
    let mut sink = Sink::new(|c: &[u8]| {
        chunks.push(c.to_vec());
        Ok(())
    });
    let status = decrypt_streaming_raw(&bin, &sec1, PASS, Some(&pub2), &mut sink);
    assert_eq!(status, Ok(1));
    assert_eq!(chunks, vec![b"abc".to_vec(), b"def".to_vec(), b"gh".to_vec()]);

    let status = |expected: Option<&str>| {
        decrypt_streaming_raw(&bin, &sec1, PASS, expected, &mut taking_all())
    };
    assert_eq!(status(Some(&pub1)), Ok(2));
    assert_eq!(status(None), Ok(3));
    assert_eq!(status(Some("no key")), Err(()));

    // In one piece, without the trailer.
    assert_eq!(decrypt_binary(&bin, &sec1, PASS, None), Ok((b"abcdefgh".to_vec(), 0)));
    assert_eq!(decrypt_binary(&bin, &sec1, PASS, Some(&pub2)), Ok((b"abcdefgh".to_vec(), 3)));
}

#[test]
fn refused_chunks_end_the_decryption() {
    let (pub1, sec1) = quick_keypair(1);
    let bin = encrypt_streaming_binary(b"abcdefgh", &pub1, None, 3).unwrap();
    let mut n = 0;
    let mut sink = Sink::new(|_: &[u8]| {
        n += 1;
        if n == 2 {
            Err(())
        } else {
            Ok(())
        }
    });
    let status = decrypt_streaming_raw(&bin, &sec1, PASS, None, &mut sink);
    assert_eq!(status, Err(()));
    assert_eq!(n, 2);
}

#[test]
fn damaged_streams_are_rejected() {
    let (pub1, sec1) = quick_keypair(1);
    let (pub2, sec2) = quick_keypair(2);
    let bin = encrypt_streaming_binary(b"abcdefgh", &pub1, Some((&sec2, PASS)), 4).unwrap();
    let read = |m: &[u8]| decrypt_streaming_raw(m, &sec1, PASS, Some(&pub2), &mut taking_all());
    assert_eq!(read(&bin), Ok(1));

    // Cut off within the trailer, before it, and before the end marker.
    let trailer = 4 + 36 + 3373;
    assert_eq!(read(&bin[..bin.len() - 1]), Err(()));
    assert_eq!(read(&bin[..bin.len() - 3373 - 30]), Err(()));
    assert_eq!(read(&bin[..bin.len() - trailer]), Err(()));

    // The frames of a signed stream in another order.
    let start = bin.len() - trailer - 2 * (28 + 4 + 16);
    let frame = 28 + 4 + 16;
    let mut swapped = bin[..start].to_vec();
    swapped.extend_from_slice(&bin[start + frame..start + 2 * frame]);
    swapped.extend_from_slice(&bin[start..start + frame]);
    swapped.extend_from_slice(&bin[start + 2 * frame..]);
    assert_eq!(read(&swapped), Err(()));
    assert_eq!(decrypt_binary(&swapped, &sec1, PASS, None), Err(()));

    // A frame left out.
    let mut shorter = bin[..start].to_vec();
    shorter.extend_from_slice(&bin[start + frame..]);
    assert_eq!(read(&shorter), Err(()));

    // A frame that comes twice, and one left out at the end, which only the
    // signature tells.
    let mut twice = bin[..start + frame].to_vec();
    twice.extend_from_slice(&bin[start..]);
    assert_eq!(read(&twice), Err(()));
    let mut cut = bin[..start + frame].to_vec();
    cut.extend_from_slice(&bin[start + 2 * frame..]);
    assert_eq!(read(&cut), Ok(2));

    // Another magic, and a changed byte of a chunk.
    let mut magic = bin.clone();
    let at = bin.len() - trailer + 4;
    magic[at] ^= 1;
    assert_eq!(read(&magic), Err(()));
    let mut changed = bin.clone();
    changed[start + 29] ^= 1;
    assert_eq!(read(&changed), Err(()));

    // Nothing may follow the trailer, nor the end marker where there is none.
    let mut longer = bin.clone();
    longer.extend_from_slice(b"tail");
    assert_eq!(read(&longer), Err(()));
    let mut unsigned = encrypt_streaming_binary(b"abcdefgh", &pub1, None, 4).unwrap();
    assert_eq!(decrypt_streaming_raw(&unsigned, &sec1, PASS, None, &mut taking_all()), Ok(0));
    assert_eq!(decrypt_binary(&unsigned, &sec1, PASS, None), Ok((b"abcdefgh".to_vec(), 0)));
    unsigned.push(0);
    assert_eq!(decrypt_streaming_raw(&unsigned, &sec1, PASS, None, &mut taking_all()), Err(()));
    assert_eq!(decrypt_binary(&unsigned, &sec1, PASS, None), Err(()));
}

#[test]
fn frames_of_unsigned_streams_keep_their_places() {
    let (pub1, sec1) = quick_keypair(1);
    let bin = encrypt_streaming_binary(b"aabb", &pub1, None, 2).unwrap();
    let frame = 28 + 2 + 16;
    let start = bin.len() - 4 - 2 * frame;
    let mut swapped = bin[..start].to_vec();
    swapped.extend_from_slice(&bin[start + frame..start + 2 * frame]);
    swapped.extend_from_slice(&bin[start..start + frame]);
    swapped.extend_from_slice(&bin[start + 2 * frame..]);

    let mut chunks: Vec<Vec<u8>> = Vec::new();
    let mut read = |m: &[u8]| {
        chunks.clear();
        let status = decrypt_streaming_raw(
            m,
            &sec1,
            PASS,
            None,
            &mut Sink::new(|c: &[u8]| {
                chunks.push(c.to_vec());
                Ok(())
            }),
        );
        (status, chunks.clone())
    };
    assert_eq!(read(&bin), (Ok(0), vec![b"aa".to_vec(), b"bb".to_vec()]));
    assert_eq!(read(&swapped), (Err(()), Vec::new()));
    // The first frame twice, and a body that was changed: what was authenticated
    // before is handed over, and nothing else.
    let mut twice = bin[..start + frame].to_vec();
    twice.extend_from_slice(&bin[start..]);
    assert_eq!(read(&twice), (Err(()), vec![b"aa".to_vec()]));
    let mut changed = bin.clone();
    changed[start + frame + 30] ^= 1;
    assert_eq!(read(&changed), (Err(()), vec![b"aa".to_vec()]));
}

#[test]
fn whole_messages_stream_as_one_chunk() {
    let (pub1, sec1) = quick_keypair(1);
    let (pub2, sec2) = quick_keypair(2);
    let armored = encrypt(b"whole", &pub1, Some((&sec2, PASS))).unwrap();
    let mut chunks: Vec<Vec<u8>> = Vec::new();
    let mut sink = Sink::new(|c: &[u8]| {
        chunks.push(c.to_vec());
        Ok(())
    });
    let status = decrypt_streaming(&armored, &sec1, PASS, Some(&pub2), &mut sink);
    assert_eq!(status, Ok(1));
    assert_eq!(chunks, vec![b"whole".to_vec()]);
    assert_eq!(decrypt_streaming(&[0xFF], &sec1, PASS, None, &mut taking_all()), Err(()));
    assert_eq!(decrypt_streaming(b"no armor", &sec1, PASS, None, &mut taking_all()), Err(()));
}

#[test]
fn armor_does_not_carry_the_stream_flag() {
    let (pub1, sec1) = quick_keypair(1);
    let (_, sec2) = quick_keypair(2);
    let armored = encrypt_streaming(b"chunked", &pub1, None, 4).unwrap();
    let text = String::from_utf8(armored.clone()).unwrap();
    let bin = binary_from_armor(&text).unwrap();
    assert_eq!(parse_envelope_binary(&bin).unwrap().stream, StreamFlag::No);
    assert_eq!(decrypt(&armored, &sec1, PASS, None), Err(()));
    // A payload without a chunk and without a signature is too short for armor.
    assert_eq!(encrypt_streaming(b"", &pub1, None, 4), Err(()));
    assert!(encrypt_streaming(b"", &pub1, Some((&sec2, PASS)), 4).is_ok());
}

#[test]
fn empty_messages_are_messages() {
    let (pub1, sec1) = quick_keypair(1);
    let (pub2, sec2) = quick_keypair(2);
    let bin = encrypt_binary(b"", &pub1, None).unwrap();
    assert_eq!(decrypt_raw(&bin, &sec1, PASS, None), Ok((Vec::new(), 0)));
    let signed = encrypt_streaming_binary(b"", &pub1, Some((&sec2, PASS)), 4).unwrap();
    let mut refusing = Sink::new(|_: &[u8]| Err(()));
    assert_eq!(
        decrypt_streaming_raw(&signed, &sec1, PASS, Some(&pub2), &mut refusing),
        Ok(1)
    );
    // Without a signature the payload is the end marker, which is no tag.
    let unsigned = encrypt_streaming_binary(b"", &pub1, None, 4).unwrap();
    assert_eq!(decrypt_streaming_raw(&unsigned, &sec1, PASS, None, &mut taking_all()), Err(()));
}

#[test]
fn core_encrypts_whole_and_in_chunks() {
    let (pub1, sec1) = quick_keypair(1);
    let whole = encrypt_core(b"abc", &pub1, None, StreamMode::Off).unwrap();
    let chunked = encrypt_core(b"abc", &pub1, None, StreamMode::On { chunk_size: 2 }).unwrap();
    assert_eq!(parse_envelope_binary(&whole).unwrap().stream, StreamFlag::No);
    assert_eq!(parse_envelope_binary(&chunked).unwrap().stream, StreamFlag::Yes);
    assert_eq!(decrypt_raw(&whole, &sec1, PASS, None), Ok((b"abc".to_vec(), 0)));
    assert_eq!(decrypt_raw(&chunked, &sec1, PASS, None), Ok((b"abc".to_vec(), 0)));
    assert!(encrypt_core(b"abc", "", None, StreamMode::Off).is_err());
    assert!(encrypt_core(b"abc", &pub1, None, StreamMode::On { chunk_size: 0 }).is_err());
}

#[test]
fn handshakes_carry_their_key_to_the_recipient() {
    let (pub1, sec1) = quick_keypair(1);
    let hs = match build_encrypt_handshake(&pub1, false) {
        Ok(h) => h,
        Err(()) => panic!("one recipient"),
    };
    let bin = seal_message(&hs, b"under the handshake", None).unwrap();
    let ctx = match build_decrypt_context(&bin, &sec1, PASS) {
        Ok(c) => c,
        Err(()) => panic!("the recipient"),
    };
    assert_eq!(ctx.cek(), hs.cek());
    assert_eq!(ctx.rc, hs.rc);
    assert_eq!(decrypt_content(&ctx), Ok(b"under the handshake".to_vec()));

    // Another commitment in the header.
    let p = parse_envelope_binary(&bin).unwrap();
    let mut rc = p.rc;
    rc[0] ^= 1;
    let other = encode_envelope_binary(
        p.enc_ecdh,
        p.nonce,
        p.recipients_blob.clone(),
        p.ct_and_tag.clone(),
        None,
        0,
        rc,
    );
    assert!(build_decrypt_context(&other, &sec1, PASS).is_err());

    // The same entry twice.
    let mut twice = p.recipients_blob.clone();
    twice.extend_from_slice(&p.recipients_blob);
    let ids: Vec<[u8; 32]> =
        decode_recipients(&twice).unwrap().iter().map(|e| e.entry_id).collect();
    let rc2 = velum::recipients::recipients_commitment(&ids);
    let doubled = encode_envelope_binary(
        p.enc_ecdh,
        p.nonce,
        twice,
        p.ct_and_tag.clone(),
        None,
        0,
        rc2,
    );
    assert!(parse_envelope_binary(&doubled).is_ok());
    assert!(build_decrypt_context(&doubled, &sec1, PASS).is_err());
}
