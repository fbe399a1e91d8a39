//! The text formats.

use velum::armor::{
    armor_public, armor_secret, canonical_secret_aad, extract_argon2_params, parse_public,
    parse_public_list,
};
use velum::block::parse_armor;
use velum::constants::{BEGIN_MSG, BEGIN_PUB, END_MSG, END_PUB, MSG_NONCE_LEN, TAG_LEN, V};
use velum::envelope::{encode_envelope_binary, parse_envelope_binary};
use velum::message::{armor_from_binary, armor_message, binary_from_armor, parse_message};
use velum::recipients::{
    compute_entry_id, encode_recipients, recipients_commitment, RecipientEntry,
};
use velum::util::{b64d, b64e};

fn fixed_arr<const N: usize>() -> [u8; N] {
    let mut arr = [0u8; N];
    for (i, b) in arr.iter_mut().enumerate() {
        *b = (i as u8).wrapping_mul(31).wrapping_add(7);
    }
    arr
}

fn dummy_recipient_blob() -> Vec<u8> {
    let enc_pq = vec![0xAA; pqcrypto_mlkem::mlkem768::ciphertext_bytes()];
    let wrap = vec![0xBB; 32 + TAG_LEN];
    let entry_id = compute_entry_id(&enc_pq);
    let entry = RecipientEntry {
        enc_pq,
        wrap,
        entry_id,
        index_hint: 123,
    };
    encode_recipients(&[entry]).unwrap()
}

#[test]
fn test_parse_armor_valid_basic() {
    let arm = "-----BEGIN TEST-----\nfoo:bar\nbaz:qux\n-----END TEST-----";
    let m = parse_armor(arm, "-----BEGIN TEST-----", "-----END TEST-----").unwrap();
    assert_eq!(m.get("foo").unwrap(), "bar");
    assert_eq!(m.get("baz").unwrap(), "qux");
}

#[test]
fn test_parse_armor_invalid_missing_markers() {
    let arm = "foo:bar\nbaz:qux";
    assert!(parse_armor(arm, "BEGIN", "END").is_err());
}

#[test]
fn test_parse_armor_duplicate_key_rejected() {
    let arm = "-----BEGIN T-----\nfoo:1\nfoo:2\n-----END T-----";
    assert!(parse_armor(arm, "-----BEGIN T-----", "-----END T-----").is_err());
}

#[test]
fn test_armor_public_and_parse_public_roundtrip() {
    let ecdh = fixed_arr::<32>();
    let pq = vec![0x11; pqcrypto_mlkem::mlkem768::public_key_bytes()];
    let pq_sig = vec![0x22; pqcrypto_mldsa::mldsa65::public_key_bytes()];
    let ed_sig = fixed_arr::<32>();

    let arm = armor_public(&ecdh, &pq, &pq_sig, &ed_sig);
    let parsed = parse_public(&arm).expect("parse_public should succeed");

    assert_eq!(parsed.ecdh_pk, ecdh);
    assert_eq!(parsed.pq_pk, pq);
    assert_eq!(parsed.sig_pk_pq, pq_sig);
    assert_eq!(parsed.sig_pk_ed, ed_sig);
}

#[test]
fn test_parse_public_rejects_wrong_length() {
    let arm = format!(
        "{}\nv:{}\necdh_pk:{}\npq_pk:{}\nsig_pk_pq:{}\nsig_pk_ed:{}\n{}",
        BEGIN_PUB,
        V,
        b64e(&[0u8; 31]), // invalid length
        b64e(&vec![0u8; pqcrypto_mlkem::mlkem768::public_key_bytes()]),
        b64e(&vec![0u8; pqcrypto_mldsa::mldsa65::public_key_bytes()]),
        b64e(&[0u8; 32]),
        END_PUB
    );
    assert!(parse_public(&arm).is_err());
}

#[test]
fn test_armor_secret_and_extract_params() {
    let arm = armor_secret(&[1, 2, 3], &[4, 5, 6], &[7, 8, 9], 1024, 3, 1);
    let (m, t, p) = extract_argon2_params(&arm).expect("valid params");
    assert_eq!((m, t, p), (1024, 3, 1));
}

#[test]
fn test_canonical_secret_aad_contains_fields() {
    let aad = canonical_secret_aad(4096, 2, 1, "abc", "xyz");
    let s = String::from_utf8_lossy(&aad);
    assert!(s.contains("m_cost_kib:4096"));
    assert!(s.contains("t_cost:2"));
    assert!(s.contains("salt:abc"));
    assert!(s.contains("nonce:xyz"));
}

#[test]
fn test_armor_message_and_parse_message_roundtrip() {
    let enc_ecdh = b64e(&fixed_arr::<32>());
    let nonce = b64e(&fixed_arr::<MSG_NONCE_LEN>());
    let recip = b64e(&dummy_recipient_blob());
    let ct = b64e(&[0x55; 48 + TAG_LEN]);
    let sig = vec![0xAA; 64];

    let arm = armor_message(&enc_ecdh, &nonce, &recip, &ct, Some(&sig));

    let parsed = parse_message(&arm).expect("parse_message ok");
    assert_eq!(parsed.enc_ecdh.len(), 32);
    assert_eq!(parsed.nonce.len(), MSG_NONCE_LEN);
    assert!(parsed.signature.is_some());
}

#[test]
fn test_parse_message_rejects_wrong_order_or_missing_fields() {
    let bad = format!("{}\nv:{}\nct:AAA\nnonce:BBB\n-----END-----", BEGIN_MSG, V);
    assert!(parse_message(&bad).is_err());
}

#[test]
fn test_binary_to_armor_and_back_roundtrip() {
    let enc_ecdh = fixed_arr::<32>();
    let nonce = fixed_arr::<MSG_NONCE_LEN>();
    let rc = fixed_arr::<32>();
    let recipients_blob = dummy_recipient_blob();
    let ct = vec![0x44; 64 + TAG_LEN];
    let sig = Some(vec![0x77; 64]);

    let bin = encode_envelope_binary(
        enc_ecdh,
        nonce,
        recipients_blob.clone(),
        ct.clone(),
        sig.clone(),
        0,
        rc,
    );
    let text = armor_from_binary(&bin);
    let bin2 = binary_from_armor(&text).expect("reparsed");
    let parsed = parse_envelope_binary(&bin2).expect("valid binary");
    assert_eq!(parsed.enc_ecdh, enc_ecdh);
    assert_eq!(parsed.ct_and_tag, ct);
    assert_eq!(parsed.recipients_blob, recipients_blob);
}

#[test]
fn test_parse_public_list_multiple_blocks() {
    let ecdh = fixed_arr::<32>();
    let pq = vec![0x11; pqcrypto_mlkem::mlkem768::public_key_bytes()];
    let pq_sig = vec![0x22; pqcrypto_mldsa::mldsa65::public_key_bytes()];
    let ed_sig = fixed_arr::<32>();

    let arm = armor_public(&ecdh, &pq, &pq_sig, &ed_sig);
    let multi = format!("{}\n\n{}", arm, arm);
    let list = match parse_public_list(&multi) {
        Ok(l) => l,
        Err(()) => panic!("parse_public_list"),
    };
    assert_eq!(list.len(), 2);
}

#[test]
fn test_parse_public_list_empty_rejected() {
    assert!(parse_public_list("no valid block here").is_err());
}

#[test]
fn test_parse_message_invalid_base64_signature_tolerated() {
    let enc_ecdh = b64e(&fixed_arr::<32>());
    let nonce = b64e(&fixed_arr::<MSG_NONCE_LEN>());
    let recip = b64e(&dummy_recipient_blob());
    let ct = b64e(&[0x55; 48 + TAG_LEN]);

    let arm = format!(
        "{}\nv:{}\nenc_ecdh:{}\nnonce:{}\nrecipients:{}\nct:{}\nsignature:!!!INVALID!!!\n{}",
        BEGIN_MSG, V, enc_ecdh, nonce, recip, ct, END_MSG
    );
    let parsed = parse_message(&arm).expect("should tolerate invalid b64");
    assert!(parsed.signature.is_some(), "should still produce Some(Vec)");
}

#[test]
fn test_binary_from_armor_rejects_invalid_message() {
    let bad = "-----BEGIN VELUM MESSAGE-----\ninvalid:stuff\n-----END VELUM MESSAGE-----";
    assert!(binary_from_armor(bad).is_err());
}

#[test]
fn joined_blocks_are_read_in_order() {
    let pq = vec![0x11; pqcrypto_mlkem::mlkem768::public_key_bytes()];
    let pq_sig = vec![0x22; pqcrypto_mldsa::mldsa65::public_key_bytes()];
    let one = armor_public(&[1u8; 32], &pq, &pq_sig, &fixed_arr::<32>());
    let two = armor_public(&[2u8; 32], &pq, &pq_sig, &fixed_arr::<32>());
    let keys = |text: &str| match parse_public_list(text) {
        Ok(list) => list.iter().map(|p| p.ecdh_pk[0]).collect::<Vec<u8>>(),
        Err(()) => Vec::new(),
    };
    assert_eq!(keys(&one), vec![1]);
    assert_eq!(keys(&format!("{}\n{}", one, two)), vec![1, 2]);
    assert_eq!(keys(&format!("{}{}", two, one)), vec![2, 1]);
    assert_eq!(keys(&format!("Alice:\n{}\n\nBob:\n{}\n", one, two)), vec![1, 2]);
    // One block is no key, and a begin marker that is broken is none.
    let bad = one.replace("v:1", "v:2");
    assert_eq!(keys(&format!("{}\n{}", one, bad)), Vec::new());
    assert_eq!(keys(&one.replace("BEGIN", "BE\rGIN")), Vec::new());
}

// Exact texts, and the edges of the parser.

#[test]
fn base64_is_padded_and_strict() {
    assert_eq!(b64e(b""), "");
    assert_eq!(b64e(b"f"), "Zg==");
    assert_eq!(b64e(b"fo"), "Zm8=");
    assert_eq!(b64e(b"foo"), "Zm9v");
    assert_eq!(b64e(&[0xFB, 0xEF, 0xFF]), "++//");
    assert_eq!(b64d("Zm8="), Ok(b"fo".to_vec()));
    // No padding, padding in the middle, stray bits, foreign characters.
    assert!(b64d("Zm8").is_err());
    assert!(b64d("Zg==Zg==").is_err());
    assert!(b64d("Zm9=").is_err());
    assert!(b64d("Zm-_").is_err());
}

#[test]
fn secret_armor_is_exact() {
    let arm = armor_secret(&[1, 2, 3], &[4, 5, 6], &[7, 8, 9], 1024, 3, 1);
    assert_eq!(
        arm,
        "-----BEGIN VELUM SECRET KEY-----\nv:1\nkdf:Argon2id\nkdf_v:0x13\nm_cost_kib:1024\nt_cost:3\nparallelism:1\nsalt:AQID\nnonce:BAUG\nct:BwgJ\n-----END VELUM SECRET KEY-----"
    );
}

#[test]
fn public_armor_is_read_among_blank_lines_and_carriage_returns() {
    let pq = vec![0x11; pqcrypto_mlkem::mlkem768::public_key_bytes()];
    let pq_sig = vec![0x22; pqcrypto_mldsa::mldsa65::public_key_bytes()];
    let arm = armor_public(&[9u8; 32], &pq, &pq_sig, &fixed_arr::<32>());
    let messy = format!("\r\n  {}\r\n\n", arm.replace('\n', "\r\n\r\n"));
    let parsed = parse_public(&messy).expect("white space does not matter");
    assert_eq!(parsed.ecdh_pk, [9u8; 32]);
}

#[test]
fn unreadable_signature_is_an_empty_one() {
    let arm = format!(
        "{}\nv:{}\nenc_ecdh:{}\nnonce:{}\nrecipients:{}\nct:{}\nsignature:???\n{}",
        BEGIN_MSG,
        V,
        b64e(&[1u8; 32]),
        b64e(&[2u8; 24]),
        b64e(&dummy_recipient_blob()),
        b64e(&[3u8; 16]),
        END_MSG
    );
    let parsed = parse_message(&arm).unwrap();
    assert_eq!(parsed.signature, Some(Vec::new()));
}

#[test]
fn message_fields_keep_their_order() {
    let recip = b64e(&dummy_recipient_blob());
    let good = format!(
        "{}\nv:1\nenc_ecdh:{}\nnonce:{}\nrecipients:{}\nct:{}\n{}",
        BEGIN_MSG,
        b64e(&[1u8; 32]),
        b64e(&[2u8; 24]),
        recip,
        b64e(&[3u8; 16]),
        END_MSG
    );
    let swapped = format!(
        "{}\nv:1\nnonce:{}\nenc_ecdh:{}\nrecipients:{}\nct:{}\n{}",
        BEGIN_MSG,
        b64e(&[2u8; 24]),
        b64e(&[1u8; 32]),
        recip,
        b64e(&[3u8; 16]),
        END_MSG
    );
    assert!(parse_message(&good).is_ok());
    assert!(parse_message(&swapped).is_err());
    // A payload that is shorter than a tag.
    let short = good.replace(&b64e(&[3u8; 16]), &b64e(&[3u8; 15]));
    assert!(parse_message(&short).is_err());
}

#[test]
fn armor_and_envelope_are_the_same_message() {
    let blob = dummy_recipient_blob();
    let id = compute_entry_id(&vec![0xAA; pqcrypto_mlkem::mlkem768::ciphertext_bytes()]);
    let rc = recipients_commitment(&[id]);
    let bin = encode_envelope_binary(
        [1u8; 32],
        [2u8; 24],
        blob,
        vec![3u8; 40],
        Some(vec![4u8; 3373]),
        0,
        rc,
    );
    let text = armor_from_binary(&bin);
    assert_eq!(binary_from_armor(&text), Ok(bin));
}
