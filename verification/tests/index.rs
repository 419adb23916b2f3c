use replibyte::chunk::{ChunkRef, TableEntry};
use replibyte::index::{decode_entry, decode_index, decode_ref, encode_entry, encode_index, encode_ref, Dump};
use replibyte::wire::pack;

fn sample() -> Dump {
    Dump {
        name: b"prod-2024".to_vec(),
        created_at: 1_700_000_000_123,
        compressed: true,
        encrypted: false,
        tables: vec![
            TableEntry {
                table: b"users".to_vec(),
                ruled: vec![b"email".to_vec(), b"phone".to_vec()],
                chunks: vec![
                    ChunkRef { key: b"prod-2024/users/0".to_vec(), size: 4096, rows: 100 },
                    ChunkRef { key: b"prod-2024/users/1".to_vec(), size: 17, rows: 1 },
                ],
            },
            TableEntry { table: b"empty".to_vec(), ruled: Vec::new(), chunks: Vec::new() },
        ],
    }
}

#[test]
fn index_round_trip() {
    let d = sample();
    assert_eq!(decode_index(&encode_index(&d)), Some(d));
}

#[test]
fn index_flags_round_trip() {
    for (compressed, encrypted) in [(false, false), (false, true), (true, false), (true, true)] {
        let d = Dump { compressed, encrypted, ..sample() };
        assert_eq!(decode_index(&encode_index(&d)), Some(d));
    }
}

#[test]
fn entry_and_record_round_trip() {
    let d = sample();
    assert_eq!(decode_entry(&encode_entry(&d.tables[0])), Some(d.tables[0].clone()));
    let r = &d.tables[0].chunks[1];
    assert_eq!(decode_ref(&encode_ref(r)), Some(r.clone()));
}

#[test]
fn record_has_its_known_bytes() {
    let r = ChunkRef { key: b"k".to_vec(), size: 258, rows: 3 };
    assert_eq!(
        encode_ref(&r),
        pack(&vec![b"k".to_vec(), vec![2, 1, 0, 0, 0, 0, 0, 0], vec![3, 0, 0, 0, 0, 0, 0, 0]])
    );
}

#[test]
fn broken_indexes_are_rejected() {
    let bytes = encode_index(&sample());
    assert_eq!(decode_index(&bytes[..bytes.len() - 1]), None);
    assert_eq!(decode_index(&[]), None);
    assert_eq!(decode_index(b"not an index"), None);
    assert_eq!(decode_ref(&pack(&vec![b"k".to_vec(), vec![0; 8]])), None);
    assert_eq!(decode_ref(&pack(&vec![b"k".to_vec(), vec![0; 8], vec![0; 7]])), None);
    assert_eq!(decode_entry(&pack(&vec![b"t".to_vec(), Vec::new()])), None);
}

#[test]
fn index_with_a_flag_that_is_no_flag_is_rejected() {
    let name = b"d".to_vec();
    let time = vec![0u8; 8];
    let tables = pack(&Vec::new());
    assert!(decode_index(&pack(&vec![name.clone(), time.clone(), vec![1, 0], tables.clone()])).is_some());
    assert_eq!(decode_index(&pack(&vec![name.clone(), time.clone(), vec![2, 0], tables.clone()])), None);
    assert_eq!(decode_index(&pack(&vec![name, time, vec![1], tables])), None);
}

#[test]
fn sizes_and_rows_are_added_up() {
    let d = sample();
    assert_eq!(d.tables[0].size(), 4113);
    assert_eq!(d.tables[0].rows(), 101);
    assert_eq!(d.size(), 4113);
    let summary = d.summary();
    assert_eq!(summary.name, b"prod-2024".to_vec());
    assert_eq!(summary.created_at, 1_700_000_000_123);
    assert_eq!(summary.size, 4113);
    assert!(summary.compressed && !summary.encrypted);
}

#[test]
fn sizes_stop_at_the_largest_number() {
    let entry = TableEntry {
        table: b"t".to_vec(),
        ruled: Vec::new(),
        chunks: vec![
            ChunkRef { key: b"a".to_vec(), size: u64::MAX - 1, rows: u64::MAX },
            ChunkRef { key: b"b".to_vec(), size: 5, rows: 1 },
        ],
    };
    assert_eq!(entry.size(), u64::MAX);
    assert_eq!(entry.rows(), u64::MAX);
}
