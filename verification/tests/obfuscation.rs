use smve_asset_pack::obfuscation::toggle_obfuscation;

#[test]
fn obfuscation_test() {
    let result = toggle_obfuscation(b"Hello World!");
    let result = toggle_obfuscation(result.as_slice());

    assert!(result == b"Hello World!");
}

#[test]
fn obfuscation_changes_bytes_with_inverted_password() {
    // Each byte is XORed with the bitwise NOT of the password byte at its position.
    let result = toggle_obfuscation(&[0u8, 0, 0xff]);
    assert_eq!(result, vec![!b'i', !b'n', 0xff ^ !b'v']);
}

#[test]
fn obfuscation_wraps_password_after_sixteen_bytes() {
    let input = vec![0u8; 18];
    let result = toggle_obfuscation(&input);
    assert_eq!(result[16], !b'i');
    assert_eq!(result[17], !b'n');
    assert_eq!(result[15], !0u8);
}

#[test]
fn obfuscation_of_empty_is_empty() {
    assert!(toggle_obfuscation(&[]).is_empty());
}
