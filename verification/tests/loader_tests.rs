use crabshell::config::get_aes_key;
use crabshell::debugger::debugger_detected;
use crabshell::gui::{java_path_entries, join_path_entries, parse_progress};
use crabshell::loader::{
    assets_zip_path, build_assets_archive, certificate_matches, get_current_abi,
    has_asset_entries, plan_file_landing,
};
use sha2::Digest;
use crabshell::crypto::PlainEntry;
use crabshell::obfuscate::decrypt;
use std::io::Read;

fn plain(name: &[u8], data: &[u8]) -> PlainEntry {
    PlainEntry { name: name.to_vec(), data: data.to_vec() }
}

#[test]
fn abi_mapping_covers_the_known_architectures() {
    assert_eq!(get_current_abi(b"aarch64"), b"arm64-v8a");
    assert_eq!(get_current_abi(b"arm"), b"armeabi-v7a");
    assert_eq!(get_current_abi(b"x86"), b"x86");
    assert_eq!(get_current_abi(b"x86_64"), b"x86_64");
    assert_eq!(get_current_abi(b"riscv64"), b"unknown");
}

#[test]
fn landing_plan_filters_by_current_abi() {
    let entries = vec![
        plain(b"lib/arm64-v8a/libA.so", b"arm64 body"),
        plain(b"lib/x86/libA.so", b"x86 body"),
    ];
    let abi = get_current_abi(b"aarch64");
    let plan = plan_file_landing(b"/cache", &abi, &entries);
    assert_eq!(plan.dex_files.len(), 0);
    assert_eq!(plan.lib_files.len(), 1);
    assert_eq!(plan.lib_files[0].path, b"/cache/native_libs/libA.so");
    assert_eq!(plan.lib_files[0].data, b"arm64 body");
    assert!(plan.joined_dex_paths.is_empty());
}

#[test]
fn landing_plan_names_sections_by_payload_position() {
    let entries = vec![
        plain(b"classes.dex", b"one"),
        plain(b"assets/a.txt", b"skip"),
        plain(b"classes2.dex", b"two"),
    ];
    let plan = plan_file_landing(b"/cache", b"arm64-v8a", &entries);
    assert_eq!(plan.dex_files.len(), 2);
    assert_eq!(plan.dex_files[0].path, b"/cache/dex_landing/payload_0.dex");
    assert_eq!(plan.dex_files[0].data, b"one");
    assert_eq!(plan.dex_files[1].path, b"/cache/dex_landing/payload_2.dex");
    assert_eq!(plan.dex_files[1].data, b"two");
    assert_eq!(
        plan.joined_dex_paths,
        b"/cache/dex_landing/payload_0.dex:/cache/dex_landing/payload_2.dex"
    );
}

#[test]
fn assets_archive_holds_stored_assets_only() {
    let entries = vec![
        plain(b"assets/config.json", b"{\"k\":1}"),
        plain(b"classes.dex", b"not an asset"),
    ];
    let bytes = build_assets_archive(&entries).expect("assets archive");
    let mut archive = zip::ZipArchive::new(std::io::Cursor::new(bytes)).expect("valid zip");
    assert_eq!(archive.len(), 1);
    let mut file = archive.by_index(0).expect("entry");
    assert_eq!(file.name(), "assets/config.json");
    assert_eq!(file.compression(), zip::CompressionMethod::Stored);
    let mut data = Vec::new();
    file.read_to_end(&mut data).expect("read");
    assert_eq!(data, b"{\"k\":1}");
}

#[test]
fn assets_zip_lands_under_the_data_directory() {
    assert_eq!(
        assets_zip_path(b"/data/data/com.app"),
        b"/data/data/com.app/files/kapp_assets.zip"
    );
}

#[test]
fn tracer_pid_detection() {
    let attached = b"Name:\tapp\nTracerPid:\t1234\nState:\tS\n";
    let clean = b"Name:\tapp\nTracerPid:\t0\nState:\tS\n";
    let absent = b"Name:\tapp\nState:\tS\n";
    let garbled = b"TracerPid:\nTracerPid: notanumber\n";
    assert!(debugger_detected(attached));
    assert!(!debugger_detected(clean));
    assert!(!debugger_detected(absent));
    assert!(!debugger_detected(garbled));
}

#[test]
fn certificate_check_skips_on_zero_and_compares_otherwise() {
    let cert = b"certificate der bytes";
    assert!(certificate_matches(cert, &[0u8; 32]));
    let expected: [u8; 32] = sha2::Sha256::digest(cert).into();
    assert!(certificate_matches(cert, &expected));
    let mut wrong = expected;
    wrong[0] ^= 1;
    assert!(!certificate_matches(cert, &wrong));
}

#[test]
fn development_key_is_all_zero() {
    assert_eq!(get_aes_key(), [0u8; 32]);
}

#[test]
fn obfuscated_strings_decode_through_the_zero_key() {
    // With the development XOR key the transform is transparent.
    assert_eq!(decrypt(b"TracerPid:"), "TracerPid:");
    assert_eq!(decrypt(b"/proc/self/status"), "/proc/self/status");
    assert_eq!(decrypt(&[0xff, 0xfe]), "ERROR_DECRYPT");
}

#[test]
fn progress_lines_map_to_stages() {
    let p = parse_progress(b"[packer] Phase 1: generating payload").expect("matches");
    assert_eq!(p.stage, b"packing");
    assert_eq!(p.progress, 70);
    assert_eq!(p.message, b"Generating payload...");

    let p = parse_progress(b"Done! Protected file created.").expect("matches");
    assert_eq!(p.stage, b"done");
    assert_eq!(p.progress, 100);

    assert!(parse_progress(b"nothing interesting").is_none());
}

#[test]
fn download_progress_reports_clamped_percentage() {
    let p = parse_progress(b"[toolchain] download-progress tools.zip 17% eta 3s").expect("m");
    assert_eq!(p.stage, b"init");
    assert_eq!(p.progress, 17);
    assert_eq!(p.message, b"Downloading tools.zip (17%)");

    let p = parse_progress(b"[toolchain] download-progress tools.zip 90%").expect("m");
    assert_eq!(p.progress, 30);

    let p = parse_progress(b"[toolchain] download-progress tools.zip").expect("m");
    assert_eq!(p.progress, 5);
    assert_eq!(p.message, b"Downloading tools.zip (5%)");

    let p = parse_progress(b"[toolchain] download-start tools.zip").expect("m");
    assert_eq!(p.message, b"Downloading dependency: tools.zip");
}

#[test]
fn java_path_entries_prefer_and_dedup() {
    let current = b"/usr/bin:/opt/java/bin::/usr/local/bin";
    let preferred = Some(b"/opt/java/bin".to_vec());
    let candidates = vec![b"/usr/bin".to_vec(), b"/opt/other/bin".to_vec()];
    let entries = java_path_entries(current, &preferred, &candidates);
    let expected: Vec<Vec<u8>> = vec![
        b"/opt/java/bin".to_vec(),
        b"/usr/bin".to_vec(),
        b"/usr/local/bin".to_vec(),
        b"/opt/other/bin".to_vec(),
    ];
    assert_eq!(entries, expected);
    assert_eq!(
        join_path_entries(&entries),
        b"/opt/java/bin:/usr/bin:/usr/local/bin:/opt/other/bin"
    );
}

#[test]
fn java_path_entries_without_preference_keep_order() {
    let entries = java_path_entries(b"/a:/b", &None, &vec![b"/b".to_vec(), b"/c".to_vec()]);
    let expected: Vec<Vec<u8>> = vec![b"/a".to_vec(), b"/b".to_vec(), b"/c".to_vec()];
    assert_eq!(entries, expected);
}

#[test]
fn asset_presence_decides_materialization() {
    let with = vec![plain(b"classes.dex", b"x"), plain(b"assets/a.bin", b"y")];
    let without = vec![plain(b"classes.dex", b"x"), plain(b"lib/x86/a.so", b"y")];
    assert!(has_asset_entries(&with));
    assert!(!has_asset_entries(&without));
}
