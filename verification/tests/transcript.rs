//! What is authenticated and what is signed.

use ed25519_dalek::Signer;
use pqcrypto_traits::sign::{PublicKey, SecretKey};

use velum::constants::{MSG_NONCE_LEN, TAG_LEN};
use velum::context::DecryptContext;
use velum::envelope::{ParsedBinary, StreamFlag};
use velum::keys::{PublicBundle, SecretBundle};
use velum::transcript::{
    canonical_aad, canonical_sig_header_part, canonical_sig_nonstream, canonical_sig_stream_digest,
    check_signature, hybrid_sign, transcript_stream, transcript_whole, verify_signature_status,
};

fn fixed_arr<const N: usize>() -> [u8; N] {
    let mut a = [0u8; N];
    for (i, b) in a.iter_mut().enumerate() {
        *b = (i as u8).wrapping_mul(17).wrapping_add(3);
    }
    a
}

fn dummy_parsed(signature: Option<Vec<u8>>, stream: StreamFlag) -> ParsedBinary {
    let enc_ecdh = fixed_arr::<32>();
    let nonce = fixed_arr::<MSG_NONCE_LEN>();
    let recipients_blob = vec![0xAA, 0xBB, 0xCC];
    let mut ct_and_tag = vec![0x11; TAG_LEN + 4];
    ct_and_tag[0] = 0x42;
    let rc = fixed_arr::<32>();

    ParsedBinary {
        enc_ecdh,
        nonce,
        recipients_blob,
        ct_and_tag,
        signature,
        stream,
        rc,
        has_trailer: matches!(stream, StreamFlag::Yes),
    }
}

fn dummy_ctx(signature: Option<Vec<u8>>, stream: StreamFlag) -> DecryptContext {
    let parsed = dummy_parsed(signature, stream);
    DecryptContext::new(parsed, fixed_arr::<32>(), fixed_arr::<32>())
}

#[test]
fn canonical_aad_includes_all_fields_and_stream_flag() {
    let aad_n = canonical_aad("ECDH_B64", "NONCE_B64", "REC_B64", false);
    let s_n = String::from_utf8_lossy(&aad_n);

    // Version and basic fields
    assert!(s_n.contains("v:"));
    assert!(s_n.contains("enc_ecdh:ECDH_B64"));
    assert!(s_n.contains("nonce:NONCE_B64"));
    assert!(s_n.contains("recipients:REC_B64"));

    // Non-streaming flag
    assert!(s_n.contains("stream:N"));

    let aad_y = canonical_aad("ECDH_B64", "NONCE_B64", "REC_B64", true);
    let s_y = String::from_utf8_lossy(&aad_y);
    assert!(s_y.contains("stream:Y"));
}

#[test]
fn canonical_sig_header_part_has_expected_structure() {
    let rc = fixed_arr::<32>();
    let out = canonical_sig_header_part("E_B64", "N_B64", "R_B64", &rc, false);
    let s = String::from_utf8_lossy(&out);

    assert!(s.contains("v:"));
    assert!(s.contains("enc_ecdh:E_B64"));
    assert!(s.contains("nonce:N_B64"));
    assert!(s.contains("recipients:R_B64"));
    assert!(s.contains("stream:N"));
    assert!(s.contains("rc:"));
}

#[test]
fn canonical_sig_nonstream_appends_ct_line() {
    let rc = fixed_arr::<32>();
    let out = canonical_sig_nonstream("E", "N", "R", "CT_B64", &rc, false);
    let s = String::from_utf8_lossy(&out);

    assert!(s.contains("ct:CT_B64"));
    assert!(s.ends_with('\n'));
}

#[test]
fn canonical_sig_stream_digest_appends_digest_line() {
    let rc = fixed_arr::<32>();
    let out = canonical_sig_stream_digest("E", "N", "R", "DG_B64", &rc, true);
    let s = String::from_utf8_lossy(&out);

    assert!(s.contains("digest:DG_B64"));
    assert!(s.contains("stream:Y"));
    assert!(s.ends_with('\n'));
}

#[test]
fn verify_status_0_when_no_sig_and_no_expectation() {
    let ctx = dummy_ctx(None, StreamFlag::No);
    let status = verify_signature_status(&ctx, None).expect("status should be Ok");
    assert_eq!(status, 0);
}

#[test]
fn verify_status_3_when_expected_but_signature_missing() {
    let ctx = dummy_ctx(None, StreamFlag::No);
    let fake_pub =
        "-----BEGIN VELUM PUBLIC KEY-----\nv:1\nX:dummy\n-----END VELUM PUBLIC KEY-----";
    let status = verify_signature_status(&ctx, Some(fake_pub)).expect("status should be Ok");
    assert_eq!(status, 3);
}

#[test]
fn verify_status_3_when_signature_present_but_not_expected() {
    let ctx = dummy_ctx(Some(vec![0xAA, 0xBB, 0xCC]), StreamFlag::No);
    let status = verify_signature_status(&ctx, None).expect("status should be Ok");
    assert_eq!(status, 3);
}

#[test]
fn verify_status_reaches_verification_path_with_sig_and_expected_key() {
    let sig = vec![0xAB; 16];
    let ctx = dummy_ctx(Some(sig), StreamFlag::No);

    let fake_pub = "-----BEGIN VELUM PUBLIC KEY-----\nv:1\necdh_pk:AAAA\npq_pk:BBBB\nsig_pk_pq:CCCC\nsig_pk_ed:DDDD\n-----END VELUM PUBLIC KEY-----";

    // The key cannot be read.
    assert_eq!(verify_signature_status(&ctx, Some(fake_pub)), Err(()));
}

// Exact texts, and signatures.

#[test]
fn transcripts_are_exact() {
    assert_eq!(
        String::from_utf8(canonical_aad("E", "N", "R", true)).unwrap(),
        "VELUM-v1-AAD\nv:1\nstream:Y\nenc_ecdh:E\nnonce:N\nrecipients:R\n"
    );
    assert_eq!(
        String::from_utf8(canonical_sig_nonstream("E", "N", "R", "C", &[0u8; 32], false)).unwrap(),
        "VELUM-v1-SIGN\nv:1\nenc_ecdh:E\nnonce:N\nrecipients:R\nstream:N\nrc:AAAAAAAAAAAAAAAAAAAAAAAAAAAAAAAAAAAAAAAAAAA=\nct:C\n"
    );
    assert_eq!(
        transcript_whole(&[0u8; 32], &[0u8; 24], b"foo", &[0u8; 32], b"fo"),
        canonical_sig_nonstream(
            "AAAAAAAAAAAAAAAAAAAAAAAAAAAAAAAAAAAAAAAAAAA=",
            "AAAAAAAAAAAAAAAAAAAAAAAAAAAAAAAA",
            "Zm9v",
            "Zm8=",
            &[0u8; 32],
            false
        )
    );
    assert_eq!(
        transcript_stream(&[0u8; 32], &[0u8; 24], b"foo", &[0u8; 32], &[0u8; 32]),
        canonical_sig_stream_digest(
            "AAAAAAAAAAAAAAAAAAAAAAAAAAAAAAAAAAAAAAAAAAA=",
            "AAAAAAAAAAAAAAAAAAAAAAAAAAAAAAAA",
            "Zm9v",
            "AAAAAAAAAAAAAAAAAAAAAAAAAAAAAAAAAAAAAAAAAAA=",
            &[0u8; 32],
            true
        )
    );
}

#[test]
fn contexts_are_kept_apart() {
    let whole = transcript_whole(&[1u8; 32], &[2u8; 24], b"r", &[3u8; 32], &[4u8; 32]);
    let stream = transcript_stream(&[1u8; 32], &[2u8; 24], b"r", &[3u8; 32], &[4u8; 32]);
    let aad = canonical_aad("E", "N", "R", false);
    assert_ne!(whole, stream);
    assert!(whole.starts_with(b"VELUM-v1-SIGN\n"));
    assert!(stream.starts_with(b"VELUM-v1-SIGN\n"));
    assert!(aad.starts_with(b"VELUM-v1-AAD\n"));
}

#[test]
fn both_halves_of_a_signature_count() {
    let (pk, sk) = pqcrypto_mldsa::mldsa65::keypair();
    let ed = ed25519_dalek::SigningKey::from_bytes(&[3u8; 32]);
    let secret = SecretBundle {
        ecdh_sk: [1u8; 32],
        pq_sk: vec![2u8; 2400],
        sig_sk_pq: sk.as_bytes().to_vec(),
        sig_sk_ed: [3u8; 32],
    };
    let public = PublicBundle {
        ecdh_pk: [4u8; 32],
        pq_pk: vec![5u8; 1184],
        sig_pk_pq: pk.as_bytes().to_vec(),
        sig_pk_ed: ed.verifying_key().to_bytes(),
    };

    let sig = hybrid_sign(&secret, b"transcript");
    assert_eq!(sig.len(), 3373);
    assert_eq!(&sig[3309..], &ed.sign(b"transcript").to_bytes());
    assert_eq!(check_signature(&public, b"transcript", &sig), 1);
    assert_eq!(check_signature(&public, b"transcripT", &sig), 2);
    assert_eq!(check_signature(&public, b"transcript", &sig[..3372]), 2);
    assert_eq!(check_signature(&public, b"transcript", &[]), 2);

    // A change in either half.
    let mut pq_half = sig.clone();
    pq_half[100] ^= 1;
    assert_eq!(check_signature(&public, b"transcript", &pq_half), 2);
    let mut ed_half = sig.clone();
    ed_half[3310] ^= 1;
    assert_eq!(check_signature(&public, b"transcript", &ed_half), 2);
}
