use replibyte::keys::{
    chunk_key_of, index_key_of, index_prefix_bytes, is_before, is_dump_name_ok, is_name_ok,
    marker_name_bytes, push_decimal, starts_with, version_key_bytes,
};

#[test]
fn keys_follow_the_layout() {
    assert_eq!(chunk_key_of(b"prod-2024", b"users", 0), b"prod-2024/users/0".to_vec());
    assert_eq!(chunk_key_of(b"d", b"t", 1234567890), b"d/t/1234567890".to_vec());
    assert_eq!(
        chunk_key_of(b"d", b"t", u64::MAX),
        b"d/t/18446744073709551615".to_vec()
    );
    assert_eq!(index_key_of(b"prod-2024"), b"metadata/prod-2024".to_vec());
    assert_eq!(version_key_bytes(), b"metadata/__version".to_vec());
    assert_eq!(index_prefix_bytes(), b"metadata/".to_vec());
    assert_eq!(marker_name_bytes(), b"__version".to_vec());
}

#[test]
fn decimal_has_no_leading_zeros() {
    let mut out = b"n=".to_vec();
    push_decimal(&mut out, 0);
    push_decimal(&mut out, 7);
    push_decimal(&mut out, 10);
    push_decimal(&mut out, 905);
    assert_eq!(out, b"n=0710905".to_vec());
}

#[test]
fn names_must_not_be_empty_or_hold_a_slash() {
    assert!(is_name_ok(b"users"));
    assert!(is_name_ok(b"__version"));
    assert!(!is_name_ok(b""));
    assert!(!is_name_ok(b"a/b"));
    assert!(!is_name_ok(b"/"));
}

#[test]
fn dump_names_must_not_be_reserved() {
    assert!(is_dump_name_ok(b"prod-2024"));
    assert!(!is_dump_name_ok(b"__version"));
    assert!(!is_dump_name_ok(b"metadata"));
    assert!(!is_dump_name_ok(b""));
    assert!(!is_dump_name_ok(b"prod/2024"));
    assert!(is_dump_name_ok(b"metadata2"));
}

#[test]
fn dictionary_order_is_that_of_byte_strings() {
    assert!(is_before(b"a", b"b"));
    assert!(is_before(b"a", b"ab"));
    assert!(is_before(b"", b"a"));
    assert!(is_before(b"ab", b"b"));
    assert!(!is_before(b"b", b"a"));
    assert!(!is_before(b"a", b"a"));
    assert!(!is_before(b"", b""));
    assert!(is_before(b"d/t/10", b"d/t/2"));
}

#[test]
fn prefixes_are_told() {
    assert!(starts_with(b"metadata/x", b"metadata/"));
    assert!(starts_with(b"metadata/", b"metadata/"));
    assert!(starts_with(b"abc", b""));
    assert!(!starts_with(b"metadata", b"metadata/"));
    assert!(!starts_with(b"metadatA/x", b"metadata/"));
}
