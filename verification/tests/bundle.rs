use smve_asset_pack::file_bundle::{bundle_bytes, CompileStatus, FILE_HEADER};

#[test]
fn header_is_the_file_bundle_magic() {
    assert_eq!(&FILE_HEADER, b"\x00\x00\x69\x42FILEBUNDLEv0.0\x42\x69\x00\x00");
}

#[test]
fn empty_bundle_is_the_header() {
    assert_eq!(bundle_bytes(&vec![]), FILE_HEADER.to_vec());
}

#[test]
fn bundle_layout() {
    let files = vec![("a".to_string(), b"xy".to_vec()), ("bc".to_string(), b"z".to_vec())];
    let out = bundle_bytes(&files);
    let mut expected = FILE_HEADER.to_vec();
    // Table of contents: 22 + (1 + 9) + (2 + 9) = 43 bytes before the records.
    expected.extend_from_slice(b"a\x00");
    expected.extend_from_slice(&43u64.to_be_bytes());
    expected.extend_from_slice(b"bc\x00");
    // The first record is 1 + 1 + 8 + 2 = 12 bytes long.
    expected.extend_from_slice(&55u64.to_be_bytes());
    expected.extend_from_slice(b"a\x00");
    expected.extend_from_slice(&2u64.to_be_bytes());
    expected.extend_from_slice(b"xy");
    expected.extend_from_slice(b"bc\x00");
    expected.extend_from_slice(&1u64.to_be_bytes());
    expected.extend_from_slice(b"z");
    assert_eq!(out, expected);
}

#[test]
fn compile_status_variants() {
    let all = [CompileStatus::Adding, CompileStatus::Added, CompileStatus::SkippedDirectory, CompileStatus::WritingFile];
    assert_eq!(format!("{:?}", all[2]), "SkippedDirectory");
}
