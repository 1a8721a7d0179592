use crabshell::codec::{build_payload_blob, parse_payload_blob, PayloadEntry};
use crabshell::errors::ShellError;

fn entry(name: &[u8], cipher: &[u8], nonce_seed: u8) -> PayloadEntry {
    let mut nonce = vec![0u8; 12];
    for (i, b) in nonce.iter_mut().enumerate() {
        *b = nonce_seed.wrapping_add(i as u8);
    }
    PayloadEntry { name: name.to_vec(), cipher: cipher.to_vec(), nonce }
}

#[test]
fn blob_layout_is_exact_for_one_entry() {
    let e = entry(b"a", &[1, 2, 3], 0);
    let blob = build_payload_blob(&vec![e]);
    // ciphertext region
    let mut expected = vec![1u8, 2, 3];
    // metadata: count = 1
    expected.extend_from_slice(&1u32.to_le_bytes());
    // record: name_len, name, cipher_len, nonce
    expected.extend_from_slice(&1u16.to_le_bytes());
    expected.extend_from_slice(b"a");
    expected.extend_from_slice(&3u32.to_le_bytes());
    expected.extend_from_slice(&[0, 1, 2, 3, 4, 5, 6, 7, 8, 9, 10, 11]);
    // footer: metadata_size, magic
    expected.extend_from_slice(&23u32.to_le_bytes());
    expected.extend_from_slice(b"SHELL");
    assert_eq!(blob, expected);
}

#[test]
fn parse_inverts_build() {
    let entries = vec![
        entry(b"classes.dex", &[9, 8, 7, 6], 1),
        entry(b"lib/arm64-v8a/libx.so", &[5; 40], 50),
        entry(b"assets/config.json", &[], 99),
    ];
    let blob = build_payload_blob(&entries);
    let parsed = parse_payload_blob(&blob).expect("round trip must parse");
    assert_eq!(parsed.len(), entries.len());
    for (p, e) in parsed.iter().zip(entries.iter()) {
        assert_eq!(p.name, e.name);
        assert_eq!(p.cipher, e.cipher);
        assert_eq!(p.nonce, e.nonce);
    }
}

#[test]
fn empty_entry_list_round_trips() {
    let blob = build_payload_blob(&vec![]);
    let parsed = parse_payload_blob(&blob).expect("empty payload parses");
    assert_eq!(parsed.len(), 0);
}

#[test]
fn truncation_below_footer_is_format_error() {
    let blob = build_payload_blob(&vec![entry(b"classes.dex", &[1, 2, 3], 7)]);
    for len in 0..9 {
        let cut = &blob[..len];
        assert_eq!(parse_payload_blob(cut), Err(ShellError::FormatError));
    }
}

#[test]
fn wrong_magic_is_format_error() {
    let blob = build_payload_blob(&vec![entry(b"classes.dex", &[1, 2, 3], 7)]);
    for value in [b'X', b'S' ^ 1, 0u8] {
        let mut bad = blob.clone();
        let at = bad.len() - 5;
        if bad[at] == value {
            continue;
        }
        bad[at] = value;
        assert_eq!(parse_payload_blob(&bad), Err(ShellError::FormatError));
    }
}

#[test]
fn metadata_size_field_equals_metadata_length() {
    let entries = vec![entry(b"classes.dex", &[1, 2, 3], 7), entry(b"x", &[4; 10], 9)];
    let blob = build_payload_blob(&entries);
    let n = blob.len();
    let md_size = u32::from_le_bytes(blob[n - 9..n - 5].try_into().unwrap()) as usize;
    // serialized metadata: 4-byte count plus one record per entry
    let expected = 4 + (2 + 11 + 4 + 12) + (2 + 1 + 4 + 12);
    assert_eq!(md_size, expected);
}

#[test]
fn cipher_lengths_sum_to_blob_minus_footer_and_metadata() {
    let entries = vec![entry(b"classes.dex", &[1, 2, 3], 7), entry(b"x", &[4; 10], 9)];
    let blob = build_payload_blob(&entries);
    let n = blob.len();
    let md_size = u32::from_le_bytes(blob[n - 9..n - 5].try_into().unwrap()) as usize;
    let sum_cipher_len = 3 + 10;
    assert_eq!(sum_cipher_len, n - 9 - md_size);
}

#[test]
fn inconsistent_size_fields_are_format_error() {
    let blob = build_payload_blob(&vec![entry(b"a", &[1, 2, 3], 0)]);
    let n = blob.len();
    // claim a metadata region larger than the whole blob
    let mut bad = blob.clone();
    bad[n - 9..n - 5].copy_from_slice(&(n as u32).to_le_bytes());
    assert_eq!(parse_payload_blob(&bad), Err(ShellError::FormatError));
    // claim more ciphertext than the blob holds
    let mut bad2 = blob.clone();
    // cipher_len field sits after count(4) + name_len(2) + name(1)
    let md_start = n - 9 - 23;
    bad2[md_start + 7..md_start + 11].copy_from_slice(&(0xffff_ff00u32).to_le_bytes());
    assert_eq!(parse_payload_blob(&bad2), Err(ShellError::FormatError));
}

#[test]
fn non_utf8_name_is_format_error() {
    let blob = build_payload_blob(&vec![entry(b"a", &[1, 2, 3], 0)]);
    let n = blob.len();
    let md_start = n - 9 - 23;
    let mut bad = blob.clone();
    bad[md_start + 6] = 0xff; // the single name byte, not valid UTF-8
    assert_eq!(parse_payload_blob(&bad), Err(ShellError::FormatError));
}

#[test]
fn leading_padding_before_ciphertexts_is_ignored() {
    // The reader works from the end; bytes before the ciphertext region do
    // not take part in the decoding.
    let entries = vec![entry(b"classes.dex", &[1, 2, 3], 7)];
    let blob = build_payload_blob(&entries);
    let mut padded = vec![0xaau8, 0xbb];
    padded.extend_from_slice(&blob);
    let parsed = parse_payload_blob(&padded).expect("padded blob parses");
    assert_eq!(parsed.len(), 1);
    assert_eq!(parsed[0].cipher, vec![1, 2, 3]);
}
