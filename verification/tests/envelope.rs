//! The binary envelope.

use velum::constants::{MSG_FLAG_SIGTRAILER, MSG_FLAG_STREAM, MSG_NONCE_LEN, TAG_LEN};
use velum::envelope::{encode_envelope_binary, parse_envelope_binary, parse_preamble, StreamFlag};
use velum::recipients::{compute_entry_id, encode_recipients, RecipientEntry};

fn fixed_arr<const N: usize>() -> [u8; N] {
    let mut arr = [0u8; N];
    for (i, b) in arr.iter_mut().enumerate() {
        *b = (i as u8).wrapping_mul(17).wrapping_add(3);
    }
    arr
}

fn dummy_recipients_blob() -> Vec<u8> {
    let enc_pq = vec![0xAA; pqcrypto_mlkem::mlkem768::ciphertext_bytes()];
    let wrap = vec![0xBB; 32 + TAG_LEN];
    let entry_id = compute_entry_id(&enc_pq);
    let entry = RecipientEntry {
        enc_pq,
        wrap,
        entry_id,
        index_hint: 42,
    };
    encode_recipients(&[entry]).unwrap()
}

#[test]
fn test_encode_and_parse_roundtrip_non_streaming_no_signature() {
    let enc_ecdh = fixed_arr::<32>();
    let nonce = fixed_arr::<MSG_NONCE_LEN>();
    let rc = fixed_arr::<32>();
    let recipients_blob = dummy_recipients_blob();
    let ct_and_tag = vec![0xCC; 64 + TAG_LEN];

    let bin = encode_envelope_binary(
        enc_ecdh,
        nonce,
        recipients_blob.clone(),
        ct_and_tag.clone(),
        None,
        0,
        rc,
    );

    let parsed = parse_envelope_binary(&bin).expect("parse ok");
    assert_eq!(parsed.enc_ecdh, enc_ecdh);
    assert_eq!(parsed.nonce, nonce);
    assert_eq!(parsed.recipients_blob, recipients_blob);
    assert_eq!(parsed.ct_and_tag, ct_and_tag);
    assert!(parsed.signature.is_none());
    assert_eq!(parsed.stream, StreamFlag::No);
    assert!(!parsed.has_trailer);
}

#[test]
fn test_encode_and_parse_roundtrip_streaming_with_trailer_flag() {
    let enc_ecdh = fixed_arr::<32>();
    let nonce = fixed_arr::<MSG_NONCE_LEN>();
    let rc = fixed_arr::<32>();
    let recipients_blob = dummy_recipients_blob();
    let ct_and_tag = vec![0xDD; 128 + TAG_LEN];

    let flags = MSG_FLAG_STREAM | MSG_FLAG_SIGTRAILER;

    let bin = encode_envelope_binary(
        enc_ecdh,
        nonce,
        recipients_blob.clone(),
        ct_and_tag.clone(),
        None,
        flags,
        rc,
    );

    let parsed = parse_envelope_binary(&bin).expect("parse ok");
    assert_eq!(parsed.stream, StreamFlag::Yes);
    assert!(parsed.has_trailer);
    assert_eq!(parsed.ct_and_tag, ct_and_tag);
}

#[test]
fn test_parse_rejects_bad_magic() {
    let enc_ecdh = fixed_arr::<32>();
    let nonce = fixed_arr::<MSG_NONCE_LEN>();
    let rc = fixed_arr::<32>();
    let recipients_blob = dummy_recipients_blob();
    let ct_and_tag = vec![0xEE; 32 + TAG_LEN];

    let mut bin = encode_envelope_binary(enc_ecdh, nonce, recipients_blob, ct_and_tag, None, 0, rc);

    bin[0] ^= 0xFF;
    assert!(parse_envelope_binary(&bin).is_err());
}

#[test]
fn test_parse_rejects_reserved_nonzero() {
    let enc_ecdh = fixed_arr::<32>();
    let nonce = fixed_arr::<MSG_NONCE_LEN>();
    let rc = fixed_arr::<32>();
    let recipients_blob = dummy_recipients_blob();
    let ct_and_tag = vec![0xEF; 32 + TAG_LEN];

    let mut bin = encode_envelope_binary(enc_ecdh, nonce, recipients_blob, ct_and_tag, None, 0, rc);

    bin[6] = 1;
    assert!(parse_envelope_binary(&bin).is_err());
}

#[test]
fn test_parse_rejects_header_len_zero_or_truncated() {
    let enc_ecdh = fixed_arr::<32>();
    let nonce = fixed_arr::<MSG_NONCE_LEN>();
    let rc = fixed_arr::<32>();
    let recipients_blob = dummy_recipients_blob();
    let ct_and_tag = vec![0xAA; 32 + TAG_LEN];

    let mut bin = encode_envelope_binary(enc_ecdh, nonce, recipients_blob, ct_and_tag, None, 0, rc);

    // The header length stands at bytes[8..12].
    bin[8] = 0;
    bin[9] = 0;
    bin[10] = 0;
    bin[11] = 0;
    assert!(parse_envelope_binary(&bin).is_err());

    let truncated = &bin[..12];
    assert!(parse_envelope_binary(truncated).is_err());
}

#[test]
fn test_parse_rejects_too_short_ct() {
    let enc_ecdh = fixed_arr::<32>();
    let nonce = fixed_arr::<MSG_NONCE_LEN>();
    let rc = fixed_arr::<32>();
    let recipients_blob = dummy_recipients_blob();
    let ct_and_tag = vec![0x01; TAG_LEN - 1]; // shorter than TAG_LEN

    let bin = encode_envelope_binary(enc_ecdh, nonce, recipients_blob, ct_and_tag, None, 0, rc);

    assert!(parse_envelope_binary(&bin).is_err());
}

#[test]
fn test_parse_rejects_invalid_recipients_blob() {
    let enc_ecdh = fixed_arr::<32>();
    let nonce = fixed_arr::<MSG_NONCE_LEN>();
    let rc = fixed_arr::<32>();

    let recipients_blob = vec![0x00, 0x01, 0x02];
    let ct_and_tag = vec![0x33; 32 + TAG_LEN];

    let bin = encode_envelope_binary(enc_ecdh, nonce, recipients_blob, ct_and_tag, None, 0, rc);

    assert!(parse_envelope_binary(&bin).is_err());
}

#[test]
fn test_parse_rejects_oversized_signature() {
    let enc_ecdh = fixed_arr::<32>();
    let nonce = fixed_arr::<MSG_NONCE_LEN>();
    let rc = fixed_arr::<32>();
    let recipients_blob = dummy_recipients_blob();
    let ct_and_tag = vec![0x44; 32 + TAG_LEN];
    let mut bin = encode_envelope_binary(enc_ecdh, nonce, recipients_blob, ct_and_tag, None, 0, rc);

    let header_len = {
        let mut len_buf = [0u8; 4];
        len_buf.copy_from_slice(&bin[8..12]);
        u32::from_be_bytes(len_buf) as usize
    };
    let header_start = 12;
    let header = &mut bin[header_start..header_start + header_len];

    // ecdh(32) + nonce + rc(32) + recip_len(4) + recip + sig_len(4) + sig
    let mut h_off = 0usize;
    h_off += 32;
    h_off += MSG_NONCE_LEN;
    h_off += 32;
    let recip_len = u32::from_be_bytes(header[h_off..h_off + 4].try_into().unwrap()) as usize;
    h_off += 4 + recip_len;
    header[h_off] = 0xFF;
    header[h_off + 1] = 0xFF;
    header[h_off + 2] = 0xFF;
    header[h_off + 3] = 0xFF;

    assert!(parse_envelope_binary(&bin).is_err());
}

// The exact layout, and every way to break it.

#[test]
fn envelope_layout_is_exact() {
    let blob = dummy_recipients_blob();
    let n = blob.len();
    assert_eq!(n, 1184);
    let bin = encode_envelope_binary(
        [1u8; 32],
        [2u8; 24],
        blob.clone(),
        vec![5u8; 20],
        Some(vec![4u8; 7]),
        0,
        [3u8; 32],
    );
    assert_eq!(&bin[..8], b"VLM1\x01\x00\x00\x00");
    assert_eq!(&bin[8..12], &((96 + n + 7) as u32).to_be_bytes());
    assert_eq!(&bin[12..44], &[1u8; 32]);
    assert_eq!(&bin[44..68], &[2u8; 24]);
    assert_eq!(&bin[68..100], &[3u8; 32]);
    assert_eq!(&bin[100..104], &(n as u32).to_be_bytes());
    assert_eq!(&bin[104..104 + n], &blob[..]);
    assert_eq!(&bin[104 + n..108 + n], &[0, 0, 0, 7]);
    assert_eq!(&bin[108 + n..115 + n], &[4u8; 7]);
    assert_eq!(&bin[115 + n..], &[5u8; 20]);

    let parsed = parse_envelope_binary(&bin).unwrap();
    assert_eq!(parsed.signature, Some(vec![4u8; 7]));
    assert_eq!(parsed.rc, [3u8; 32]);
}

#[test]
fn reserved_flag_bits_are_rejected() {
    for flags in 0u8..=255 {
        let bin = encode_envelope_binary(
            [1u8; 32],
            [2u8; 24],
            dummy_recipients_blob(),
            vec![5u8; 20],
            None,
            flags,
            [3u8; 32],
        );
        let parsed = parse_envelope_binary(&bin);
        assert_eq!(parsed.is_ok(), flags <= 3);
        if let Ok(p) = parsed {
            assert_eq!(p.stream == StreamFlag::Yes, flags & MSG_FLAG_STREAM != 0);
            assert_eq!(p.has_trailer, flags & MSG_FLAG_SIGTRAILER != 0);
        }
    }
}

#[test]
fn truncated_envelopes_are_rejected() {
    let bin = encode_envelope_binary(
        [1u8; 32],
        [2u8; 24],
        dummy_recipients_blob(),
        vec![5u8; 16],
        Some(vec![9u8; 3373]),
        0,
        [3u8; 32],
    );
    assert!(parse_envelope_binary(&bin).is_ok());
    for n in 0..bin.len() {
        assert!(parse_envelope_binary(&bin[..n]).is_err());
    }
}

#[test]
fn signature_length_is_bounded() {
    for (n, ok) in [(3373usize, true), (3374, false)] {
        let bin = encode_envelope_binary(
            [1u8; 32],
            [2u8; 24],
            dummy_recipients_blob(),
            vec![5u8; 16],
            Some(vec![9u8; n]),
            0,
            [3u8; 32],
        );
        assert_eq!(parse_envelope_binary(&bin).is_ok(), ok);
    }
}

#[test]
fn preamble_is_read_alone() {
    let p = parse_preamble(b"VLM1\x01\x03\x00\x00\x00\x00\x04\x00").expect("a preamble");
    assert_eq!(p.stream, StreamFlag::Yes);
    assert!(p.has_trailer);
    assert_eq!(p.header_len, 1024);
    assert!(parse_preamble(b"VLM1\x02\x03\x00\x00\x00\x00\x04\x00").is_err());
    assert!(parse_preamble(b"VLM1\x01\x04\x00\x00\x00\x00\x04\x00").is_err());
    assert!(parse_preamble(b"VLM1\x01\x03\x00\x01\x00\x00\x04\x00").is_err());
    assert!(parse_preamble(b"VLM1\x01\x03\x00\x00\x00\x00\x00\x00").is_err());
    assert!(parse_preamble(b"VLM1\x01\x03\x00\x00\x00\x00\x04").is_err());
}
