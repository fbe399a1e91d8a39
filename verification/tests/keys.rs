//! Key pairs and the keystore.

use pqcrypto_mldsa::mldsa65;
use pqcrypto_mlkem::mlkem768;

use velum::armor::{extract_argon2_params, parse_public};
use velum::keys::{
    assemble_keypair, decode_secret_blob, encode_secret_blob, generate_keypair, pbkdf,
    rewrap_secret, rewrap_secret_with_params, seal_secret, unlock_secret, validate_argon2_params,
    validate_public, validate_secret, Argon2idParams, SecretBundle,
};

fn fixed_vec(len: usize, base: u8) -> Vec<u8> {
    (0..len).map(|i| base.wrapping_add(i as u8)).collect()
}

fn test_keypair_secret() -> String {
    let (_pub, sec) = generate_keypair("test-pass").expect("test keypair generation must succeed");
    sec
}

#[test]
fn encode_and_decode_secret_blob_roundtrip() {
    let ecdh = fixed_vec(32, 1);
    let pq = fixed_vec(mlkem768::secret_key_bytes(), 2);
    let spq = fixed_vec(mldsa65::secret_key_bytes(), 3);
    let sed = fixed_vec(32, 4);

    let blob = encode_secret_blob(&ecdh, &pq, &spq, &sed);
    assert!(blob.len() > ecdh.len() + pq.len());

    let (d_ecdh, d_pq, d_spq, d_sed) = decode_secret_blob(&blob).expect("decode ok");

    assert_eq!(d_ecdh, ecdh);
    assert_eq!(d_pq, pq);
    assert_eq!(d_spq, spq);
    assert_eq!(d_sed, sed);
}

#[test]
fn decode_secret_blob_rejects_truncated_data() {
    let ecdh = fixed_vec(32, 1);
    let pq = fixed_vec(mlkem768::secret_key_bytes(), 2);
    let spq = fixed_vec(mldsa65::secret_key_bytes(), 3);
    let sed = fixed_vec(32, 4);

    let mut blob = encode_secret_blob(&ecdh, &pq, &spq, &sed);
    blob.truncate(blob.len() - 10); // break alignment

    assert!(decode_secret_blob(&blob).is_err());
}

#[test]
fn decode_secret_blob_rejects_wrong_sizes() {
    // smaller PQ key than expected
    let blob = encode_secret_blob(&[0u8; 32], &[1u8; 8], &[2u8; 8], &[3u8; 32]);
    assert!(decode_secret_blob(&blob).is_err());
}

#[test]
fn pbkdf_produces_32_bytes_and_is_deterministic() {
    let salt = [7u8; 16];
    let key1 = pbkdf("pass123", &salt, 8 * 1024, 2, 2).expect("ok");
    let key2 = pbkdf("pass123", &salt, 8 * 1024, 2, 2).expect("ok");
    assert_eq!(key1.len(), 32);
    assert_eq!(key1, key2);
}

#[test]
fn pbkdf_fails_on_invalid_params() {
    // ridiculous parameters: 0 memory
    let salt = [1u8; 8];
    let r = pbkdf("x", &salt, 0, 1, 1);
    assert!(r.is_err());
}

#[test]
fn validate_argon2_params_rejects_too_small_values() {
    let p1 = Argon2idParams {
        m_cost_kib: 1,
        t_cost: 1,
        parallelism: 1,
    };
    assert!(validate_argon2_params(&p1).is_err());

    let p2 = Argon2idParams {
        m_cost_kib: 8,
        t_cost: 0,
        parallelism: 1,
    };
    assert!(validate_argon2_params(&p2).is_err());

    let p3 = Argon2idParams {
        m_cost_kib: 8,
        t_cost: 1,
        parallelism: 0,
    };
    assert!(validate_argon2_params(&p3).is_err());
}

#[test]
fn validate_argon2_params_accepts_minimum_valid() {
    let p = Argon2idParams {
        m_cost_kib: 8,
        t_cost: 1,
        parallelism: 1,
    };
    assert!(validate_argon2_params(&p).is_ok());
}

#[test]
fn argon2idparams_default_values_are_expected() {
    let d = Argon2idParams::default();
    assert!(d.m_cost_kib >= 96 * 1024);
    assert_eq!(d.t_cost, 4);
    assert_eq!(d.parallelism, 4);
}

/// Another salt in the armor: the derived key is another.
#[test]
fn test_rewrap_secret_fails_if_salt_tampered() {
    let sec = test_keypair_secret();

    let mut lines: Vec<String> = sec.lines().map(|s| s.to_string()).collect();
    let mut tampered_any = false;

    for line in lines.iter_mut() {
        if let Some(rest) = line.strip_prefix("salt:") {
            let mut b = rest.trim().as_bytes().to_vec();
            if !b.is_empty() {
                b[0] = if b[0] == b'A' { b'B' } else { b'A' };
                *line = format!("salt:{}", String::from_utf8(b).unwrap());
                tampered_any = true;
                break;
            }
        }
    }

    assert!(tampered_any, "SECRET armor must contain a salt: header");

    let tampered = lines.join("\n");
    let res = rewrap_secret(&tampered, "test-pass", "new-pass", None);

    assert!(
        res.is_err(),
        "tampering salt in SECRET armor must cause rewrap_secret to fail"
    );
}

/// Another version of the key derivation in the armor.
#[test]
fn test_rewrap_secret_fails_if_kdf_version_tampered() {
    let sec = test_keypair_secret();

    let mut lines: Vec<String> = sec.lines().map(|s| s.to_string()).collect();
    let mut tampered_any = false;

    for line in lines.iter_mut() {
        if let Some(rest) = line.strip_prefix("kdf_v:") {
            let v = rest.trim();
            let new_v = if v == "0x13" { "0x14" } else { "0x13" };
            *line = format!("kdf_v:{}", new_v);
            tampered_any = true;
            break;
        }
    }

    assert!(tampered_any, "SECRET armor must contain a kdf_v: header");

    let tampered = lines.join("\n");
    let res = rewrap_secret(&tampered, "test-pass", "new-pass", None);

    assert!(
        res.is_err(),
        "tampering kdf_v in SECRET armor must cause rewrap_secret to fail"
    );
}

/// Another iteration count in the armor.
#[test]
fn test_rewrap_secret_fails_if_t_cost_tampered() {
    let sec = test_keypair_secret();

    let mut lines: Vec<String> = sec.lines().map(|s| s.to_string()).collect();
    let mut tampered_any = false;

    for line in lines.iter_mut() {
        if let Some(rest) = line.strip_prefix("t_cost:") {
            if let Ok(mut n) = rest.trim().parse::<u32>() {
                n = n.saturating_add(1);
                *line = format!("t_cost:{}", n);
                tampered_any = true;
                break;
            }
        }
    }

    assert!(tampered_any, "SECRET armor must contain a t_cost: header");

    let tampered = lines.join("\n");
    let res = rewrap_secret(&tampered, "test-pass", "new-pass", None);

    assert!(
        res.is_err(),
        "tampering t_cost in SECRET armor must cause rewrap_secret to fail"
    );
}

/// No version of the key derivation in the armor.
#[test]
fn test_rewrap_secret_rejects_missing_kdf_header() {
    let sec = test_keypair_secret();

    let without_kdf = sec
        .lines()
        .filter(|l| !l.trim_start().starts_with("kdf_v:"))
        .collect::<Vec<_>>()
        .join("\n");

    assert!(
        without_kdf != sec,
        "original SECRET armor must contain a kdf_v: line"
    );

    let res = rewrap_secret(&without_kdf, "test-pass", "new-pass", None);

    assert!(
        res.is_err(),
        "rewrap_secret must fail if required KDF header is missing"
    );
}

// The keystore, with parameters that are quick to derive.

fn bundle() -> SecretBundle {
    SecretBundle {
        ecdh_sk: [5u8; 32],
        pq_sk: fixed_vec(mlkem768::secret_key_bytes(), 6),
        sig_sk_pq: fixed_vec(mldsa65::secret_key_bytes(), 7),
        sig_sk_ed: [8u8; 32],
    }
}

fn quick() -> Argon2idParams {
    Argon2idParams {
        m_cost_kib: 8,
        t_cost: 1,
        parallelism: 1,
    }
}

#[test]
fn pbkdf_is_argon2id() {
    let mut expected = [0u8; 32];
    argon2::Argon2::new(
        argon2::Algorithm::Argon2id,
        argon2::Version::V0x13,
        argon2::Params::new(32, 3, 2, Some(32)).unwrap(),
    )
    .hash_password_into(b"correct horse", &[3u8; 16], &mut expected)
    .unwrap();
    assert_eq!(pbkdf("correct horse", &[3u8; 16], 32, 3, 2), Ok(expected));
}

#[test]
fn pbkdf_takes_what_argon2id_takes() {
    let salt = [1u8; 16];
    assert!(pbkdf("p", &salt, 8, 1, 1).is_ok());
    // Memory below eight blocks per lane.
    assert!(pbkdf("p", &salt, 7, 1, 1).is_err());
    assert!(pbkdf("p", &salt, 15, 1, 2).is_err());
    assert!(pbkdf("p", &salt, 16, 1, 2).is_ok());
    assert!(pbkdf("p", &salt, 8, 0, 1).is_err());
    assert!(pbkdf("p", &salt, 8, 1, 0).is_err());
    assert!(pbkdf("p", &salt, u32::MAX, 1, u32::MAX).is_err());
    // A salt below eight bytes.
    assert!(pbkdf("p", &[1u8; 7], 8, 1, 1).is_err());
    assert!(pbkdf("p", &[1u8; 8], 8, 1, 1).is_ok());
}

#[test]
fn secret_blob_is_exact() {
    let blob = encode_secret_blob(&[1, 2], &[3], &[], &[4, 5, 6]);
    assert_eq!(
        blob,
        vec![0, 0, 0, 2, 1, 2, 0, 0, 0, 1, 3, 0, 0, 0, 0, 0, 0, 0, 3, 4, 5, 6]
    );
}

#[test]
fn secret_blob_with_a_tail_is_rejected() {
    let keys = bundle();
    let mut blob = encode_secret_blob(&keys.ecdh_sk, &keys.pq_sk, &keys.sig_sk_pq, &keys.sig_sk_ed);
    assert!(decode_secret_blob(&blob).is_ok());
    blob.push(0);
    assert!(decode_secret_blob(&blob).is_err());
}

#[test]
fn sealed_secret_unlocks_under_its_passphrase_only() {
    let arm = seal_secret(&bundle(), "open sesame", quick(), &[1u8; 16], &[2u8; 12]).unwrap();
    let keys = match unlock_secret(&arm, "open sesame") {
        Ok(k) => k,
        Err(()) => panic!("the passphrase unlocks"),
    };
    assert_eq!(keys.ecdh_sk, [5u8; 32]);
    assert_eq!(keys.pq_sk, bundle().pq_sk);
    assert_eq!(keys.sig_sk_pq, bundle().sig_sk_pq);
    assert_eq!(keys.sig_sk_ed, [8u8; 32]);
    assert!(unlock_secret(&arm, "open sesamE").is_err());
    assert!(unlock_secret(&arm, "").is_err());
    assert!(unlock_secret(&arm, " \t\n").is_err());
    assert!(unlock_secret("", "open sesame").is_err());
    assert_eq!(validate_secret(&arm, "open sesame"), Ok(()));
    assert_eq!(validate_secret(&arm, "nope"), Err(()));
}

#[test]
fn sealed_secret_is_bound_to_its_fields() {
    let arm = seal_secret(&bundle(), "pass", quick(), &[1u8; 16], &[2u8; 12]).unwrap();
    assert!(unlock_secret(&arm.replace("m_cost_kib:8", "m_cost_kib:9"), "pass").is_err());
    assert!(unlock_secret(&arm.replace("kdf:Argon2id", "kdf:Argon2d"), "pass").is_err());
    assert!(unlock_secret(&arm.replace("v:1\n", "v:2\n"), "pass").is_err());
    assert!(unlock_secret(&arm.replace("nonce:A", "nonce:B"), "pass").is_err());
    assert!(unlock_secret(&arm.replace("t_cost:1", "t_cost:one"), "pass").is_err());
}

#[test]
fn rewrap_changes_the_lock_and_keeps_the_keys() {
    let old = seal_secret(&bundle(), "old", quick(), &[1u8; 16], &[2u8; 12]).unwrap();
    let new = rewrap_secret_with_params(&old, "old", "new", 16, 2, 2).unwrap();
    assert_eq!(extract_argon2_params(&new), Ok((16, 2, 2)));
    assert!(unlock_secret(&new, "old").is_err());
    let keys = match unlock_secret(&new, "new") {
        Ok(k) => k,
        Err(()) => panic!("the new passphrase unlocks"),
    };
    assert_eq!(keys.ecdh_sk, [5u8; 32]);
    assert_eq!(keys.sig_sk_ed, [8u8; 32]);

    // Without parameters, those of the old keystore are kept.
    let same = rewrap_secret(&old, "old", "other", None).unwrap();
    assert_eq!(extract_argon2_params(&same), Ok((8, 1, 1)));
    assert!(unlock_secret(&same, "other").is_ok());
}

#[test]
fn rewrap_refuses_wrong_and_blank_passphrases() {
    let old = seal_secret(&bundle(), "old", quick(), &[1u8; 16], &[2u8; 12]).unwrap();
    assert!(rewrap_secret(&old, "wrong", "new", None).is_err());
    assert!(rewrap_secret(&old, "old", "  ", None).is_err());
    assert!(rewrap_secret(&old, " ", "new", None).is_err());
    assert!(rewrap_secret_with_params(&old, "old", "new", 0, 1, 1).is_err());
}

#[test]
fn keypair_halves_belong_together() {
    let ecdh_sk = [9u8; 32];
    let ed_sk = [10u8; 32];
    let keys = SecretBundle {
        ecdh_sk,
        pq_sk: fixed_vec(mlkem768::secret_key_bytes(), 6),
        sig_sk_pq: fixed_vec(mldsa65::secret_key_bytes(), 7),
        sig_sk_ed: ed_sk,
    };
    let pq_pk = fixed_vec(mlkem768::public_key_bytes(), 1);
    let sig_pk = fixed_vec(mldsa65::public_key_bytes(), 2);
    let (public, secret) =
        assemble_keypair(&keys, &pq_pk, &sig_pk, "pass", &[1u8; 16], &[2u8; 12]).unwrap();
    let p = match parse_public(&public) {
        Ok(p) => p,
        Err(()) => panic!("the public block is valid"),
    };
    let x = x25519_dalek::PublicKey::from(&x25519_dalek::StaticSecret::from(ecdh_sk));
    let e = ed25519_dalek::SigningKey::from_bytes(&ed_sk).verifying_key();
    assert_eq!(p.ecdh_pk, x.to_bytes());
    assert_eq!(p.sig_pk_ed, e.to_bytes());
    assert_eq!(p.pq_pk, pq_pk);
    assert_eq!(p.sig_pk_pq, sig_pk);
    assert_eq!(extract_argon2_params(&secret), Ok((98304, 4, 4)));
}

#[test]
fn generated_keys_are_valid_and_fresh() {
    assert!(generate_keypair("").is_err());
    assert!(generate_keypair(" \n\t ").is_err());
    let (pub1, sec1) = generate_keypair("test-pass").unwrap();
    assert_eq!(validate_public(&pub1), Ok(()));
    assert_eq!(validate_secret(&sec1, "test-pass"), Ok(()));
    assert_eq!(validate_public(&sec1), Err(()));
    assert_eq!(validate_public("not a valid armor"), Err(()));
}
