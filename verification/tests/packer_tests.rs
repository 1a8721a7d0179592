use crabshell::codec::build_payload_blob;
use crabshell::errors::ShellError;
use crabshell::loader::extract_payload;
use crabshell::packer::{
    collect_and_encrypt_payload_entries, get_bootstrap_dex_entries, repack_target_with_bootstrap,
    AbiLib,
};
use crabshell::selection::to_dex_descriptor;
use sha2::Digest;
use std::io::{Cursor, Read, Write};
use zip::write::SimpleFileOptions;

const KEY: [u8; 32] = [3u8; 32];

fn make_zip(entries: &[(&str, &[u8])]) -> Vec<u8> {
    let mut w = zip::ZipWriter::new(Cursor::new(Vec::new()));
    let options = SimpleFileOptions::default();
    for (name, data) in entries {
        w.start_file(*name, options).expect("start");
        w.write_all(data).expect("write");
    }
    w.finish().expect("finish").into_inner()
}

fn read_entry(bytes: &[u8], name: &str) -> Option<Vec<u8>> {
    let mut z = zip::ZipArchive::new(Cursor::new(bytes.to_vec())).expect("zip");
    let mut f = match z.by_name(name) {
        Ok(f) => f,
        Err(_) => return None,
    };
    let mut data = Vec::new();
    f.read_to_end(&mut data).expect("read");
    Some(data)
}

fn entry_names(bytes: &[u8]) -> Vec<String> {
    let mut z = zip::ZipArchive::new(Cursor::new(bytes.to_vec())).expect("zip");
    (0..z.len()).map(|i| z.by_index(i).expect("e").name().to_string()).collect()
}

#[test]
fn single_section_round_trip_encrypted() {
    let target = make_zip(&[("classes.dex", &[1u8, 2, 3])]);
    let bootstrap = make_zip(&[("classes.dex", &[0x10u8, 0x11])]);

    let entries =
        collect_and_encrypt_payload_entries(target.clone(), &vec![], &vec![], &vec![], &KEY)
            .expect("collect");
    assert_eq!(entries.len(), 1);
    let encrypted_names = vec![entries[0].name.clone()];
    let blob = build_payload_blob(&entries);

    let bootstrap_dexes = get_bootstrap_dex_entries(bootstrap).expect("bootstrap");
    assert_eq!(bootstrap_dexes, vec![vec![0x10u8, 0x11]]);

    let libs = vec![AbiLib { abi: b"arm64-v8a".to_vec(), data: b"shell lib".to_vec() }];
    let out = repack_target_with_bootstrap(
        target,
        &bootstrap_dexes,
        &libs,
        &None,
        &None,
        &encrypted_names,
        &blob,
    )
    .expect("repack");

    assert_eq!(read_entry(&out, "classes.dex"), Some(vec![0x10u8, 0x11]));
    assert_eq!(read_entry(&out, "classes2.dex"), None);
    assert_eq!(read_entry(&out, "lib/arm64-v8a/libshell.so"), Some(b"shell lib".to_vec()));
    assert_eq!(read_entry(&out, "assets/kapp_payload.bin"), Some(blob));

    // the loader recovers exactly the one original section
    let payload = extract_payload(out, &KEY, &[0u8; 32], true).expect("load");
    assert_eq!(payload.len(), 1);
    assert_eq!(payload[0].name, b"classes.dex");
    assert_eq!(payload[0].data, vec![1u8, 2, 3]);
}

#[test]
fn kept_section_is_renumbered_after_bootstrap() {
    let dex_body = b"header Lcom/example/Foo; rest".to_vec();
    let target = make_zip(&[
        ("classes.dex", &dex_body),
        ("lib/arm64-v8a/libx.so", b"sealed lib"),
    ]);
    let bootstrap = make_zip(&[("classes.dex", &[0x10u8, 0x11])]);

    let keep = vec![to_dex_descriptor(b"com.example.Foo")];
    let entries = collect_and_encrypt_payload_entries(target.clone(), &keep, &vec![], &vec![], &KEY)
        .expect("collect");
    assert_eq!(entries.len(), 1, "the matched section stays in plaintext");
    assert_eq!(entries[0].name, b"lib/arm64-v8a/libx.so");

    let blob = build_payload_blob(&entries);
    let bootstrap_dexes = get_bootstrap_dex_entries(bootstrap).expect("bootstrap");
    let libs = vec![AbiLib { abi: b"arm64-v8a".to_vec(), data: b"shell lib".to_vec() }];
    let out = repack_target_with_bootstrap(
        target,
        &bootstrap_dexes,
        &libs,
        &None,
        &None,
        &vec![b"lib/arm64-v8a/libx.so".to_vec()],
        &blob,
    )
    .expect("repack");

    assert_eq!(read_entry(&out, "classes.dex"), Some(vec![0x10u8, 0x11]));
    assert_eq!(read_entry(&out, "classes2.dex"), Some(dex_body));
    assert_eq!(read_entry(&out, "lib/arm64-v8a/libx.so"), None);
}

#[test]
fn empty_selection_is_config_error() {
    // no candidate at all
    let target = make_zip(&[("assets/readme.txt", b"nothing to seal")]);
    let r = collect_and_encrypt_payload_entries(target, &vec![], &vec![], &vec![], &KEY);
    assert_eq!(r, Err(ShellError::ConfigError));

    // the one candidate is kept in plaintext, so the selection is empty
    let kept = make_zip(&[("classes.dex", b"xx Lcom/example/Foo; yy")]);
    let keep = vec![to_dex_descriptor(b"com.example.Foo")];
    let r = collect_and_encrypt_payload_entries(kept, &keep, &vec![], &vec![], &KEY);
    assert_eq!(r, Err(ShellError::ConfigError));
}

#[test]
fn bootstrap_sections_come_back_in_index_order() {
    let bootstrap = make_zip(&[
        ("classes2.dex", b"second"),
        ("assets/ignored.txt", b"x"),
        ("classes.dex", b"first"),
    ]);
    let dexes = get_bootstrap_dex_entries(bootstrap).expect("bootstrap");
    assert_eq!(dexes, vec![b"first".to_vec(), b"second".to_vec()]);
}

#[test]
fn missing_bootstrap_sections_are_config_error() {
    let bootstrap = make_zip(&[("assets/readme.txt", b"no dex here")]);
    assert_eq!(get_bootstrap_dex_entries(bootstrap), Err(ShellError::ConfigError));
}

#[test]
fn missing_bootstrap_libs_are_config_error() {
    let target = make_zip(&[("classes.dex", &[1u8])]);
    let r = repack_target_with_bootstrap(
        target,
        &vec![vec![0u8]],
        &vec![],
        &None,
        &None,
        &vec![],
        &vec![],
    );
    assert_eq!(r, Err(ShellError::ConfigError));
}

#[test]
fn malformed_archive_is_archive_error() {
    let garbage = vec![0u8; 40];
    let r = collect_and_encrypt_payload_entries(garbage, &vec![], &vec![], &vec![], &KEY);
    assert_eq!(r, Err(ShellError::ArchiveError));
}

#[test]
fn kept_library_stays_plain_and_others_are_sealed() {
    let target = make_zip(&[
        ("lib/arm64-v8a/libkeep.so", b"keep me"),
        ("lib/arm64-v8a/libseal.so", b"seal me"),
    ]);
    let keep_libs = vec![b"keep".to_vec()];
    let entries =
        collect_and_encrypt_payload_entries(target, &vec![], &vec![], &keep_libs, &KEY)
            .expect("collect");
    assert_eq!(entries.len(), 1);
    assert_eq!(entries[0].name, b"lib/arm64-v8a/libseal.so");
}

#[test]
fn manifest_override_replaces_the_manifest() {
    let target = make_zip(&[
        ("AndroidManifest.xml", b"old manifest"),
        ("classes.dex", &[1u8, 2]),
        ("res/values.xml", b"values"),
    ]);
    let bootstrap_dexes = vec![vec![0x10u8]];
    let libs = vec![AbiLib { abi: b"x86".to_vec(), data: b"l".to_vec() }];
    let out = repack_target_with_bootstrap(
        target,
        &bootstrap_dexes,
        &libs,
        &Some(b"new manifest".to_vec()),
        &None,
        &vec![b"classes.dex".to_vec()],
        &vec![9u8],
    )
    .expect("repack");
    assert_eq!(read_entry(&out, "AndroidManifest.xml"), Some(b"new manifest".to_vec()));
    assert_eq!(read_entry(&out, "res/values.xml"), Some(b"values".to_vec()));
    let names = entry_names(&out);
    assert!(names.contains(&"classes.dex".to_string()));
    assert_eq!(names.iter().filter(|n| n.ends_with(".dex")).count(), 1);
}

#[test]
fn payload_digest_is_enforced_inside_the_archive() {
    let target = make_zip(&[("classes.dex", &[1u8, 2, 3])]);
    let entries = collect_and_encrypt_payload_entries(target, &vec![], &vec![], &vec![], &KEY)
        .expect("collect");
    let blob = build_payload_blob(&entries);
    let digest: [u8; 32] = sha2::Sha256::digest(&blob).into();
    let apk = make_zip(&[("assets/kapp_payload.bin", &blob)]);
    assert!(extract_payload(apk.clone(), &KEY, &digest, true).is_ok());

    // one flipped byte inside the stored blob
    let mut bad_blob = blob.clone();
    bad_blob[0] ^= 1;
    let bad_apk = make_zip(&[("assets/kapp_payload.bin", &bad_blob)]);
    assert_eq!(
        extract_payload(bad_apk, &KEY, &digest, true),
        Err(ShellError::IntegrityError)
    );
}

#[test]
fn directories_and_resources_override_survive_repack() {
    let mut w = zip::ZipWriter::new(Cursor::new(Vec::new()));
    let options = SimpleFileOptions::default();
    w.add_directory("assets", options).expect("dir");
    w.start_file("classes.dex", options).expect("start");
    w.write_all(&[1u8]).expect("write");
    w.start_file("resources.arsc", options).expect("start");
    w.write_all(b"old resources").expect("write");
    let target = w.finish().expect("finish").into_inner();

    let bootstrap_dexes = vec![vec![0x10u8]];
    let libs = vec![AbiLib { abi: b"x86".to_vec(), data: b"l".to_vec() }];
    let out = repack_target_with_bootstrap(
        target,
        &bootstrap_dexes,
        &libs,
        &None,
        &Some(b"new resources".to_vec()),
        &vec![b"classes.dex".to_vec()],
        &vec![7u8],
    )
    .expect("repack");

    let names = entry_names(&out);
    assert!(names.contains(&"assets/".to_string()));
    assert_eq!(read_entry(&out, "resources.arsc"), Some(b"new resources".to_vec()));
}
