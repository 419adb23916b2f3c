use replibyte::wire::{append_bytes, bytes_eq, bytes_of, copy_items, pack, unpack, write_frame};

#[test]
fn pack_then_unpack_gives_items_back() {
    let items = vec![b"users".to_vec(), Vec::new(), vec![0u8, 255u8, 7u8]];
    let bytes = pack(&items);
    assert_eq!(bytes.len(), 3 * 8 + 5 + 3);
    assert_eq!(unpack(&bytes), Some(items));
}

#[test]
fn pack_writes_little_endian_lengths() {
    let bytes = pack(&vec![b"ab".to_vec()]);
    assert_eq!(bytes, vec![2u8, 0, 0, 0, 0, 0, 0, 0, b'a', b'b']);
}

#[test]
fn unpack_rejects_truncated_input() {
    let mut bytes = pack(&vec![b"abc".to_vec()]);
    bytes.pop();
    assert_eq!(unpack(&bytes), None);
    assert_eq!(unpack(&[1u8, 0, 0]), None);
}

#[test]
fn unpack_of_nothing_is_no_item() {
    assert_eq!(unpack(&[]), Some(Vec::new()));
}

#[test]
fn byte_helpers_copy_compare_and_append() {
    assert!(bytes_eq(b"abc", b"abc"));
    assert!(bytes_eq(b"", b""));
    assert!(!bytes_eq(b"abc", b"abd"));
    assert!(!bytes_eq(b"abc", b"ab"));
    assert_eq!(bytes_of(b"xyz"), b"xyz".to_vec());
    let mut out = b"ab".to_vec();
    append_bytes(&mut out, b"cd");
    append_bytes(&mut out, b"");
    assert_eq!(out, b"abcd".to_vec());
    write_frame(&mut out, b"e");
    assert_eq!(out, vec![b'a', b'b', b'c', b'd', 1, 0, 0, 0, 0, 0, 0, 0, b'e']);
    let items = vec![b"a".to_vec(), Vec::new(), b"bc".to_vec()];
    assert_eq!(copy_items(&items), items);
}
