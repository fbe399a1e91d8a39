//! Recipient lists.

use pqcrypto_mlkem::mlkem768;
use rand::Rng;
use sha2::Digest;

use velum::constants::TAG_LEN;
use velum::order::{ids_distinct, sort_ids};
use velum::recipients::{
    compute_entry_id, compute_index_hint, decode_recipients, encode_recipients,
    recipients_commitment, RecipientEntry,
};

fn fake_entry() -> RecipientEntry {
    let mut rng = rand::thread_rng();
    let enc_pq_len = mlkem768::ciphertext_bytes();
    let enc_pq: Vec<u8> = (0..enc_pq_len).map(|_| rng.gen()).collect();
    let entry_id = compute_entry_id(&enc_pq);
    let wrap: Vec<u8> = (0..(32 + TAG_LEN)).map(|_| rng.gen()).collect();
    let index_hint = rng.gen::<u64>();
    RecipientEntry {
        enc_pq,
        wrap,
        entry_id,
        index_hint,
    }
}

#[test]
fn test_compute_entry_id_deterministic_and_unique() {
    let data = b"example capsule data";
    let id1 = compute_entry_id(data);
    let id2 = compute_entry_id(data);
    assert_eq!(id1, id2, "Hash should be deterministic");

    let mut data_mut = data.to_vec();
    data_mut[0] ^= 0x01;
    let id3 = compute_entry_id(&data_mut);
    assert_ne!(id1, id3, "Even 1-bit change should alter hash");
}

#[test]
fn test_compute_index_hint_determinism_and_variation() {
    let entry_id = [1u8; 32];
    let enc_ecdh = [2u8; 32];
    let rc = [3u8; 32];
    let ss1 = [4u8; 32];
    let ss2 = [5u8; 32];

    let hint1 = compute_index_hint(&entry_id, &enc_ecdh, &rc, &ss1);
    let hint2 = compute_index_hint(&entry_id, &enc_ecdh, &rc, &ss1);
    assert_eq!(hint1, hint2, "Same inputs -> same output");

    let hint3 = compute_index_hint(&entry_id, &enc_ecdh, &rc, &ss2);
    assert_ne!(hint1, hint3, "Different secret should yield different hint");
}

#[test]
fn test_recipients_commitment_order_independent() {
    let ids_a = [[1u8; 32], [2u8; 32], [3u8; 32]];
    let ids_b = [[3u8; 32], [1u8; 32], [2u8; 32]]; // permutation

    let rc1 = recipients_commitment(&ids_a);
    let rc2 = recipients_commitment(&ids_b);

    assert_eq!(rc1, rc2, "Commitment must be order-independent");
}

#[test]
fn test_recipients_commitment_empty() {
    let ids: [[u8; 32]; 0] = [];
    let rc1 = recipients_commitment(&ids);
    let rc2 = recipients_commitment(&ids);
    assert_eq!(rc1, rc2);
}

#[test]
fn test_encode_decode_roundtrip() {
    let entries: Vec<RecipientEntry> = (0..3).map(|_| fake_entry()).collect();
    let blob = encode_recipients(&entries).expect("encode ok");
    let decoded = match decode_recipients(&blob) {
        Ok(d) => d,
        Err(()) => panic!("decode ok"),
    };
    assert_eq!(decoded.len(), entries.len());

    for (a, b) in entries.iter().zip(decoded.iter()) {
        assert_eq!(a.enc_pq, b.enc_pq);
        assert_eq!(a.wrap, b.wrap);
        assert_eq!(a.entry_id, b.entry_id);
        assert_eq!(a.index_hint, b.index_hint);
    }
}

#[test]
fn test_encode_empty() {
    let res = encode_recipients(&[]);
    assert!(res.is_err(), "Empty recipients list must be rejected");
}

#[test]
fn test_decode_empty_blob() {
    let blob: Vec<u8> = vec![];
    assert!(decode_recipients(&blob).is_err());
}

#[test]
fn test_decode_corrupted_entry_id() {
    let entries: Vec<RecipientEntry> = vec![fake_entry()];
    let mut blob = encode_recipients(&entries).unwrap();

    let len = blob.len();
    if len >= 10 {
        blob[len - 10] ^= 0xFF;
    }

    assert!(decode_recipients(&blob).is_err(), "Tampered entry_id must fail validation");
}

#[test]
fn test_decode_invalid_wrap_length() {
    let mut e = fake_entry();
    e.wrap = vec![0u8; 10]; // incorrect length
    let blob = encode_recipients(&[e]).unwrap();
    assert!(decode_recipients(&blob).is_err());
}

#[test]
fn test_decode_invalid_encpq_length() {
    let mut e = fake_entry();
    e.enc_pq = vec![0u8; 10]; // too short
    e.entry_id = compute_entry_id(&e.enc_pq);
    let blob = encode_recipients(&[e]).unwrap();
    assert!(decode_recipients(&blob).is_err());
}

#[test]
fn test_roundtrip_multiple_different_hints() {
    let mut e1 = fake_entry();
    let mut e2 = fake_entry();
    e1.index_hint = 42;
    e2.index_hint = 1337;

    let blob = encode_recipients(&[e1.clone(), e2.clone()]).unwrap();
    let decoded = decode_recipients(&blob).unwrap();

    assert_eq!(decoded[0].index_hint, e1.index_hint);
    assert_eq!(decoded[1].index_hint, e2.index_hint);
}

// Exact digests, and the edges of the list.

#[test]
fn entry_id_is_sha256() {
    assert_eq!(
        compute_entry_id(b"abc"),
        [
            0xba, 0x78, 0x16, 0xbf, 0x8f, 0x01, 0xcf, 0xea, 0x41, 0x41, 0x40, 0xde, 0x5d, 0xae,
            0x22, 0x23, 0xb0, 0x03, 0x61, 0xa3, 0x96, 0x17, 0x7a, 0x9c, 0xb4, 0x10, 0xff, 0x61,
            0xf2, 0x00, 0x15, 0xad
        ]
    );
}

#[test]
fn index_hint_is_the_head_of_a_digest() {
    let mut input = Vec::new();
    input.extend_from_slice(&[1u8; 32]);
    input.extend_from_slice(&[2u8; 32]);
    input.extend_from_slice(&[3u8; 32]);
    input.extend_from_slice(&[4u8; 32]);
    let digest = sha2::Sha256::digest(&input);
    let expected = u64::from_be_bytes(digest[..8].try_into().unwrap());
    assert_eq!(
        compute_index_hint(&[1u8; 32], &[2u8; 32], &[3u8; 32], &[4u8; 32]),
        expected
    );
}

#[test]
fn commitment_digests_the_sorted_ids() {
    let mut input = b"VELUM-v1 recipients".to_vec();
    input.extend_from_slice(&[1u8; 32]);
    input.extend_from_slice(&[2u8; 32]);
    let digest: [u8; 32] = sha2::Sha256::digest(&input).into();
    assert_eq!(recipients_commitment(&[[2u8; 32], [1u8; 32]]), digest);
}

#[test]
fn ids_sort_as_bytes() {
    let mut a = [0u8; 32];
    let mut b = [0u8; 32];
    a[31] = 1;
    b[0] = 0xFF;
    let sorted = sort_ids(&[b, a, [0u8; 32], a]);
    assert_eq!(sorted, vec![[0u8; 32], a, a, b]);
    assert!(!ids_distinct(&sorted));
    assert!(ids_distinct(&[b, a, [0u8; 32]]));
}

#[test]
fn entry_layout_is_exact() {
    let mut e = fake_entry();
    e.index_hint = 0x0102_0304_0506_0708;
    let blob = encode_recipients(&[e.clone()]).unwrap();
    assert_eq!(blob.len(), 1184);
    assert_eq!(&blob[..2], &[0x04, 0x40]);
    assert_eq!(&blob[2..1090], &e.enc_pq[..]);
    assert_eq!(&blob[1090..1092], &[0, 48]);
    assert_eq!(&blob[1092..1140], &e.wrap[..]);
    assert_eq!(&blob[1140..1142], &[0, 32]);
    assert_eq!(&blob[1142..1174], &e.entry_id);
    assert_eq!(&blob[1174..], &[0, 8, 1, 2, 3, 4, 5, 6, 7, 8]);
}

#[test]
fn damaged_lists_are_rejected() {
    let blob = encode_recipients(&[fake_entry(), fake_entry()]).unwrap();
    assert!(decode_recipients(&blob).is_ok());
    assert!(decode_recipients(&blob[..blob.len() - 1]).is_err());
    let mut longer = blob.clone();
    longer.push(0);
    assert!(decode_recipients(&longer).is_err());
    // Another identifier, or another capsule under the identifier.
    let mut other_id = blob.clone();
    other_id[1142] ^= 1;
    assert!(decode_recipients(&other_id).is_err());
    let mut other_capsule = blob.clone();
    other_capsule[2] ^= 1;
    assert!(decode_recipients(&other_capsule).is_err());
}
