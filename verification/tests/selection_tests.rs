use crabshell::selection::{
    class_index, dex_name_for_index, is_payload_entry, matches_keep_prefix, should_keep_dex,
    should_keep_lib, to_dex_descriptor, to_prefix_descriptor,
};

#[test]
fn payload_candidates_are_dex_and_so_entries() {
    assert!(is_payload_entry(b"classes.dex"));
    assert!(is_payload_entry(b"classes3.dex"));
    assert!(is_payload_entry(b"classes12.dex"));
    assert!(is_payload_entry(b"lib/arm64-v8a/libfoo.so"));
    assert!(is_payload_entry(b"lib/x86/libbar.so"));
    assert!(!is_payload_entry(b"assets/config.json"));
    assert!(!is_payload_entry(b"AndroidManifest.xml"));
    assert!(!is_payload_entry(b"lib/arm64-v8a/readme.txt"));
    assert!(!is_payload_entry(b"resources.arsc"));
}

#[test]
fn candidate_grammar_is_exact() {
    // the section index is empty or a positive integer, nothing else
    assert!(!is_payload_entry(b"classesX.dex"));
    assert!(!is_payload_entry(b"classes0.dex"));
    assert!(!is_payload_entry(b"classes+2.dex"));
    // native libraries sit under exactly one ABI directory level
    assert!(!is_payload_entry(b"lib/foo.so"));
    assert!(!is_payload_entry(b"lib/arm64-v8a/sub/foo.so"));
    assert!(!is_payload_entry(b"lib//foo.so"));
    assert!(is_payload_entry(b"lib/arm64-v8a/a.so"));
}

#[test]
fn class_name_becomes_descriptor() {
    assert_eq!(to_dex_descriptor(b"com.example.Foo"), b"Lcom/example/Foo;");
    assert_eq!(to_dex_descriptor(b"  com.example.Foo  "), b"Lcom/example/Foo;");
    assert_eq!(to_dex_descriptor(b"Lcom/example/Foo;"), b"Lcom/example/Foo;");
    assert_eq!(to_dex_descriptor(b"Plain"), b"LPlain;");
}

#[test]
fn prefix_becomes_descriptor_prefix() {
    assert_eq!(to_prefix_descriptor(b"com.example"), b"Lcom/example/");
    assert_eq!(to_prefix_descriptor(b" com.example. "), b"Lcom/example/");
}

#[test]
fn keep_class_matches_descriptor_bytes() {
    let descriptors = vec![to_dex_descriptor(b"com.example.Foo")];
    let with = b"...junk...Lcom/example/Foo;...more...".to_vec();
    let without = b"...junk...Lcom/example/Bar;...".to_vec();
    assert!(should_keep_dex(&with, &descriptors));
    assert!(!should_keep_dex(&without, &descriptors));
}

#[test]
fn keep_prefix_matches_any_class_under_it() {
    let prefixes = vec![to_prefix_descriptor(b"com.example")];
    let with = b"xxLcom/example/Anything;yy".to_vec();
    let without = b"xxLcom/other/Anything;yy".to_vec();
    assert!(matches_keep_prefix(&with, &prefixes));
    assert!(!matches_keep_prefix(&without, &prefixes));
}

#[test]
fn keep_lib_matches_three_spellings_only() {
    let keep = vec![b"foo".to_vec()];
    assert!(should_keep_lib(b"lib/arm64-v8a/libfoo.so", &keep));
    assert!(should_keep_lib(b"lib/arm64-v8a/foo.so", &keep));
    assert!(should_keep_lib(b"lib/arm64-v8a/foo", &keep));
    assert!(!should_keep_lib(b"lib/arm64-v8a/libfoobar.so", &keep));
    assert!(!should_keep_lib(b"lib/arm64-v8a/barfoo.so", &keep));
}

#[test]
fn class_index_recovers_section_numbers() {
    assert_eq!(class_index(b"classes.dex"), Some(1));
    assert_eq!(class_index(b"classes2.dex"), Some(2));
    assert_eq!(class_index(b"classes10.dex"), Some(10));
    assert_eq!(class_index(b"classesX.dex"), None);
    assert_eq!(class_index(b"classes+12.dex"), None);
    assert_eq!(class_index(b"other.dex"), None);
    assert_eq!(class_index(b"classes.so"), None);
}

#[test]
fn dex_names_for_indices() {
    assert_eq!(dex_name_for_index(1), b"classes.dex");
    assert_eq!(dex_name_for_index(2), b"classes2.dex");
    assert_eq!(dex_name_for_index(12), b"classes12.dex");
}
