use crabshell::codec::{build_payload_blob, PayloadEntry};
use crabshell::crypto::{decrypt_payload, encrypt_payload};
use crabshell::errors::ShellError;
use crabshell::loader::verify_payload_digest;
use sha2::Digest;

const KEY: [u8; 32] = [7u8; 32];

fn seal_entries(payload: &[(&[u8], &[u8])]) -> Vec<PayloadEntry> {
    payload
        .iter()
        .map(|(name, plain)| {
            let (cipher, nonce) = encrypt_payload(plain, &KEY).expect("seal");
            PayloadEntry { name: name.to_vec(), cipher, nonce: nonce.to_vec() }
        })
        .collect()
}

#[test]
fn parse_build_encrypt_round_trip() {
    let payload: Vec<(&[u8], &[u8])> = vec![
        (b"classes.dex", b"\x01\x02\x03"),
        (b"classes2.dex", b"dex body two"),
        (b"lib/arm64-v8a/libA.so", b""),
        (b"assets/config.json", b"{\"k\":1}"),
    ];
    let entries = seal_entries(&payload);
    let blob = build_payload_blob(&entries);
    let out = decrypt_payload(&blob, &KEY).expect("round trip");
    assert_eq!(out.len(), payload.len());
    for (o, (name, plain)) in out.iter().zip(payload.iter()) {
        assert_eq!(o.name.as_slice(), *name);
        assert_eq!(o.data.as_slice(), *plain);
    }
}

#[test]
fn ciphertext_mutation_is_crypto_error() {
    let entries = seal_entries(&[(b"classes.dex", b"some dex contents here")]);
    let blob = build_payload_blob(&entries);
    let cipher_len = entries[0].cipher.len();
    for at in [0, cipher_len / 2, cipher_len - 1] {
        let mut bad = blob.clone();
        bad[at] ^= 0x40;
        assert_eq!(decrypt_payload(&bad, &KEY), Err(ShellError::CryptoError));
    }
}

#[test]
fn nonce_mutation_is_crypto_error() {
    let entries = seal_entries(&[(b"a", b"payload body")]);
    let blob = build_payload_blob(&entries);
    let n = blob.len();
    // the nonce is the last 12 bytes of the single metadata record
    let mut bad = blob.clone();
    bad[n - 10] ^= 0x01;
    assert_eq!(decrypt_payload(&bad, &KEY), Err(ShellError::CryptoError));
}

#[test]
fn wrong_key_is_crypto_error() {
    let entries = seal_entries(&[(b"classes.dex", b"contents")]);
    let blob = build_payload_blob(&entries);
    let other = [8u8; 32];
    assert_eq!(decrypt_payload(&blob, &other), Err(ShellError::CryptoError));
}

#[test]
fn reordered_metadata_records_are_crypto_error() {
    // Equal-length plaintexts, so the blob still parses after the records
    // are swapped, but each nonce now faces the other ciphertext.
    let entries = seal_entries(&[(b"p", b"AAAAAAAA"), (b"q", b"BBBBBBBB")]);
    let blob = build_payload_blob(&entries);
    let n = blob.len();
    let record_len = 2 + 1 + 4 + 12;
    let records_start = n - 9 - 2 * record_len;
    let mut swapped = blob.clone();
    let first: Vec<u8> = blob[records_start..records_start + record_len].to_vec();
    let second: Vec<u8> =
        blob[records_start + record_len..records_start + 2 * record_len].to_vec();
    swapped[records_start..records_start + record_len].copy_from_slice(&second);
    swapped[records_start + record_len..records_start + 2 * record_len].copy_from_slice(&first);
    assert_eq!(decrypt_payload(&swapped, &KEY), Err(ShellError::CryptoError));
}

#[test]
fn nonces_are_pairwise_distinct() {
    let mut nonces: Vec<[u8; 12]> = Vec::new();
    for _ in 0..1024 {
        let (_, nonce) = encrypt_payload(b"x", &KEY).expect("seal");
        nonces.push(nonce);
    }
    nonces.sort();
    for pair in nonces.windows(2) {
        assert_ne!(pair[0], pair[1]);
    }
}

#[test]
fn zero_expected_digest_skips_the_check() {
    let blob = vec![1u8, 2, 3, 4];
    assert!(verify_payload_digest(&blob, &[0u8; 32]).is_ok());
}

#[test]
fn true_digest_passes_and_any_mutation_fails() {
    let entries = seal_entries(&[(b"classes.dex", b"body")]);
    let blob = build_payload_blob(&entries);
    let expected: [u8; 32] = sha2::Sha256::digest(&blob).into();
    assert!(verify_payload_digest(&blob, &expected).is_ok());
    for at in [0, blob.len() / 2, blob.len() - 1] {
        let mut bad = blob.clone();
        bad[at] ^= 0x80;
        assert_eq!(
            verify_payload_digest(&bad, &expected),
            Err(ShellError::IntegrityError)
        );
    }
}
