//! Frames, digests and trailers.

use chacha20poly1305::aead::{Aead, KeyInit, Payload};
use sha2::Digest;

use velum::constants::{STREAM_NONCE_INFO_LABEL, TRAILER_SENTINEL_LEN};
use velum::context::EncryptHandshake;
use velum::sink::Sink;
use velum::streaming::{
    derive_chunk_nonce, encrypt_stream_chunks, is_chunk_nonce, open_frame_at, signature_trailer,
    write_signature_trailer, RunningDigest,
};
use velum::transcript::aad_for;

fn fixed_arr<const N: usize>() -> [u8; N] {
    let mut a = [0u8; N];
    for (i, b) in a.iter_mut().enumerate() {
        *b = (i as u8).wrapping_mul(19).wrapping_add(7);
    }
    a
}

fn dummy_handshake(stream_on: bool) -> EncryptHandshake {
    EncryptHandshake::new(
        stream_on,
        fixed_arr::<32>(),
        fixed_arr::<24>(),
        fixed_arr::<32>(),
        vec![0xAA, 0xBB, 0xCC],
        fixed_arr::<32>(),
    )
}

#[test]
fn test_derive_chunk_nonce_is_deterministic() {
    let cek = fixed_arr::<32>();
    let rc = fixed_arr::<32>();
    let n1 = derive_chunk_nonce(&cek, &rc, 0);
    let n2 = derive_chunk_nonce(&cek, &rc, 0);
    let n3 = derive_chunk_nonce(&cek, &rc, 1);

    // Deterministic for same input
    assert_eq!(n1, n2);
    // Distinct for different chunk indices
    assert_ne!(n1, n3);
    assert_eq!(n1.len(), 24);
}

#[test]
fn test_encrypt_stream_chunks_generates_valid_frames() {
    let hs = dummy_handshake(true);

    // Input: 100 bytes => should produce 1 frame (chunk_size >= input)
    let plaintext = vec![0x11; 100];
    let mut out = Vec::new();
    let mut digest = RunningDigest::new();

    encrypt_stream_chunks(&hs, &plaintext, &mut out, 256, Some(&mut digest))
        .expect("encryption should succeed");

    // Frame layout: len(4) + nonce(24) + ciphertext+tag
    assert!(out.len() > 4 + 24 + 16);

    // First 4 bytes = total (ct+tag) length in big-endian
    let mut len_buf = [0u8; 4];
    len_buf.copy_from_slice(&out[0..4]);
    let frame_len = u32::from_be_bytes(len_buf) as usize;
    assert!(frame_len <= out.len());

    // Digest must have been updated (not all zeros)
    let digest_bytes = digest.finalize();
    assert!(digest_bytes.iter().any(|&b| b != 0));
}

#[test]
fn test_encrypt_stream_chunks_multiple_frames_and_digest_consistency() {
    let hs = dummy_handshake(true);
    let plaintext = vec![0x22; 8000]; // > 2 chunks
    let mut out = Vec::new();
    let mut digest = RunningDigest::new();

    encrypt_stream_chunks(&hs, &plaintext, &mut out, 4096, Some(&mut digest)).expect("ok");

    // At least something was produced
    assert!(!out.is_empty());

    let dg = digest.finalize();
    assert_eq!(dg.len(), 32);
}

#[test]
fn test_encrypt_stream_chunks_empty_input_produces_nothing() {
    let hs = dummy_handshake(true);
    let pt = Vec::<u8>::new();
    let mut out = Vec::new();
    encrypt_stream_chunks(&hs, &pt, &mut out, 128, None).expect("ok");
    assert!(out.is_empty());
}

#[test]
fn test_write_signature_trailer_structure() {
    let mut out: Vec<u8> = Vec::new();
    let sig = vec![0xAB; 64];
    let sink = |bytes: &[u8]| {
        out.extend_from_slice(bytes);
        Ok(())
    };
    write_signature_trailer(&mut Sink::new(sink), &sig).expect("ok");

    // Layout:
    //  0..4   sentinel (u32::MAX)
    //  4..36  magic (32 bytes)
    //  36..40 sig_len (u32)
    //  40..end signature bytes
    assert_eq!(out.len(), 4 + 32 + 4 + 64);

    let sentinel = u32::from_be_bytes(out[0..4].try_into().unwrap());
    assert_eq!(sentinel, TRAILER_SENTINEL_LEN);

    let sig_len = u32::from_be_bytes(out[36..40].try_into().unwrap());
    assert_eq!(sig_len, 64);

    // Magic should match prefix "VLM1"
    assert_eq!(&out[4..8], b"VLM1");
}

#[test]
fn test_write_signature_trailer_handles_large_signature() {
    let mut out: Vec<u8> = Vec::new();
    let sig = vec![0xCD; 2000];
    let sink = |bytes: &[u8]| {
        out.extend_from_slice(bytes);
        Ok(())
    };
    write_signature_trailer(&mut Sink::new(sink), &sig).expect("ok");
    assert!(out.ends_with(&sig));
}

#[test]
fn test_write_signature_trailer_io_error_propagates() {
    let bad = |_: &[u8]| Err(());
    let sig = vec![0xEF; 32];
    let err = write_signature_trailer(&mut Sink::new(bad), &sig);
    assert!(err.is_err());
}

// Exact bytes.

#[test]
fn chunk_nonce_is_hkdf() {
    let cek = [1u8; 32];
    let rc = [2u8; 32];
    let mut info = STREAM_NONCE_INFO_LABEL.as_bytes().to_vec();
    info.extend_from_slice(&[0, 0, 1, 2]);
    let mut expected = [0u8; 24];
    hkdf::Hkdf::<sha2::Sha256>::new(Some(&rc), &cek)
        .expand(&info, &mut expected)
        .unwrap();
    assert_eq!(derive_chunk_nonce(&cek, &rc, 0x0102), expected);
}

#[test]
fn frames_are_length_nonce_and_body() {
    let hs = dummy_handshake(true);
    let plaintext: Vec<u8> = (0u8..10).collect();
    let mut out = vec![0x77];
    let mut digest = RunningDigest::new();
    encrypt_stream_chunks(&hs, &plaintext, &mut out, 4, Some(&mut digest)).expect("ok");

    let aad = aad_for(&hs.enc_ecdh, &hs.nonce, &hs.recipients_blob, true);
    let cipher = chacha20poly1305::XChaCha20Poly1305::new(hs.cek().into());
    let mut expected = vec![0x77];
    for (i, chunk) in plaintext.chunks(4).enumerate() {
        let nonce = derive_chunk_nonce(hs.cek(), &hs.rc, i as u32);
        let body = cipher
            .encrypt(
                (&nonce).into(),
                Payload {
                    msg: chunk,
                    aad: &aad,
                },
            )
            .unwrap();
        expected.extend_from_slice(&((chunk.len() + 16) as u32).to_be_bytes());
        expected.extend_from_slice(&nonce);
        expected.extend_from_slice(&body);
    }
    assert_eq!(out, expected);

    let hash: [u8; 32] = sha2::Sha256::digest(&expected[1..]).into();
    assert_eq!(digest.finalize(), hash);
}

#[test]
fn frames_open_one_after_the_other() {
    let hs = dummy_handshake(true);
    let mut out = Vec::new();
    encrypt_stream_chunks(&hs, b"abcdefg", &mut out, 3, None).expect("ok");
    out.extend_from_slice(&[0xFF; 4]);
    let aad = aad_for(&hs.enc_ecdh, &hs.nonce, &hs.recipients_blob, true);

    let mut chunks = Vec::new();
    let mut pos = 0;
    while let Some((chunk, next)) =
        open_frame_at(hs.cek(), &hs.rc, &aad, chunks.len() as u32, &out, pos).expect("opens")
    {
        chunks.push(chunk);
        pos = next;
    }
    assert_eq!(chunks, vec![b"abc".to_vec(), b"def".to_vec(), b"g".to_vec()]);
    assert_eq!(pos, out.len() - 4);

    let open = |index: u32, aad: &[u8], s: &[u8], pos: usize| {
        open_frame_at(hs.cek(), &hs.rc, aad, index, s, pos)
    };
    // Cut off, without an end marker, and with a body that is shorter than a tag.
    assert!(open(0, &aad, &out[..20], 0).is_err());
    assert!(open(0, &aad, &out, out.len()).is_err());
    assert!(open(0, &aad, &[0, 0, 0, 15], 0).is_err());
    // Under other additional data, or with a changed byte.
    assert!(open(0, b"other", &out, 0).is_err());
    let mut changed = out.clone();
    changed[30] ^= 1;
    assert!(open(0, &aad, &changed, 0).is_err());
    // In another place, and where no place is left.
    assert!(open(0, &aad, &out, 0).is_ok());
    assert!(open(1, &aad, &out, 0).is_err());
    assert!(open(0, &aad, &out, 28 + 3 + 16).is_err());
    assert!(open(1, &aad, &out, 28 + 3 + 16).is_ok());
    assert!(open(u32::MAX, &aad, &out, 0).is_err());
}

#[test]
fn nonces_belong_to_places() {
    let cek = [1u8; 32];
    let rc = [2u8; 32];
    let nonce = derive_chunk_nonce(&cek, &rc, 7);
    assert!(is_chunk_nonce(&cek, &rc, 7, &nonce));
    assert!(!is_chunk_nonce(&cek, &rc, 8, &nonce));
    assert!(!is_chunk_nonce(&cek, &rc, 7, &nonce[..23]));
    assert!(!is_chunk_nonce(&rc, &cek, 7, &nonce));
    let last = derive_chunk_nonce(&cek, &rc, u32::MAX);
    assert!(!is_chunk_nonce(&cek, &rc, u32::MAX, &last));
}

#[test]
fn refused_parts_end_the_trailer() {
    let mut n = 0;
    let sink = |_: &[u8]| {
        n += 1;
        if n == 3 {
            Err(())
        } else {
            Ok(())
        }
    };
    assert!(write_signature_trailer(&mut Sink::new(sink), &[1, 2, 3]).is_err());
    assert_eq!(n, 3);
}

#[test]
fn trailer_parts_are_handed_over_in_order() {
    let mut parts: Vec<Vec<u8>> = Vec::new();
    let sink = |bytes: &[u8]| {
        parts.push(bytes.to_vec());
        Ok(())
    };
    write_signature_trailer(&mut Sink::new(sink), &[1, 2, 3]).expect("ok");
    assert_eq!(parts.len(), 4);
    assert_eq!(parts[0], vec![0xFF; 4]);
    assert_eq!(&parts[1][..], b"VLM1-SIGTRAILER-STREAM-v1\0\0\0\0\0\0\0");
    assert_eq!(parts[2], vec![0, 0, 0, 3]);
    assert_eq!(parts[3], vec![1, 2, 3]);
    assert_eq!(signature_trailer(&[1, 2, 3]), Ok(parts.concat()));
}

#[test]
fn digest_takes_in_pieces() {
    let mut a = RunningDigest::new();
    a.update(b"a");
    a.update(b"");
    a.update(b"bc");
    assert_eq!(&a.finalize()[..4], &[0xba, 0x78, 0x16, 0xbf]);
    assert_eq!(&RunningDigest::new().finalize()[..4], &[0xe3, 0xb0, 0xc4, 0x42]);
}
