use replibyte::chunk::{Chunk, ChunkRef, ChunkWriter};
use replibyte::codec::seal;
use replibyte::wire::pack;

fn writer(chunk_size: usize) -> ChunkWriter {
    ChunkWriter::new(b"prod-2024", b"users", vec![b"email".to_vec()], chunk_size, false, None)
}

#[test]
fn rows_below_the_chunk_size_wait_for_the_end() {
    let mut w = writer(1000);
    assert_eq!(w.push_row(b"row-one"), None);
    assert_eq!(w.push_row(b"row-two"), None);
    let (last, entry) = w.finish();
    let payload = pack(&vec![b"row-one".to_vec(), b"row-two".to_vec()]);
    assert_eq!(
        last,
        Some(Chunk { key: b"prod-2024/users/0".to_vec(), payload: payload.clone(), rows: 2 })
    );
    assert_eq!(entry.table, b"users".to_vec());
    assert_eq!(entry.ruled, vec![b"email".to_vec()]);
    assert_eq!(
        entry.chunks,
        vec![ChunkRef { key: b"prod-2024/users/0".to_vec(), size: payload.len() as u64, rows: 2 }]
    );
}

#[test]
fn a_table_without_rows_has_no_chunk() {
    let (last, entry) = writer(10).finish();
    assert_eq!(last, None);
    assert!(entry.chunks.is_empty());
    assert_eq!(entry.size(), 0);
    assert_eq!(entry.rows(), 0);
}

#[test]
fn a_single_small_row_still_makes_a_chunk() {
    let mut w = writer(1 << 20);
    assert_eq!(w.push_row(b""), None);
    let (last, entry) = w.finish();
    assert_eq!(last.unwrap().rows, 1);
    assert_eq!(entry.chunks.len(), 1);
}

#[test]
fn chunks_that_fill_exactly_have_the_chunk_size() {
    // Each row packs into 8 + 12 = 20 bytes: every second row ends on a multiple of 40.
    let mut w = writer(40);
    let mut sizes = Vec::new();
    let mut keys = Vec::new();
    for i in 0..5u8 {
        if let Some(chunk) = w.push_row(&[i; 12]) {
            sizes.push(chunk.payload.len());
            keys.push(chunk.key);
        }
    }
    let (last, entry) = w.finish();
    let last = last.unwrap();
    sizes.push(last.payload.len());
    keys.push(last.key);
    assert_eq!(sizes, vec![40, 40, 20]);
    assert_eq!(
        keys,
        vec![b"prod-2024/users/0".to_vec(), b"prod-2024/users/1".to_vec(), b"prod-2024/users/2".to_vec()]
    );
    assert_eq!(entry.chunks.iter().map(|c| c.rows).collect::<Vec<u64>>(), vec![2, 2, 1]);
    assert_eq!(entry.size(), 100);
    assert_eq!(entry.rows(), 5);
}

#[test]
fn a_row_that_passes_the_chunk_size_is_flushed_with_its_chunk() {
    // Each row packs into 15 bytes, which is past the chunk size of 10.
    let mut w = writer(10);
    let first = w.push_row(&[1; 7]).unwrap();
    assert_eq!(first.payload.len(), 15);
    assert_eq!(first.rows, 1);
    let second = w.push_row(&[2; 7]).unwrap();
    assert_eq!(second.key, b"prod-2024/users/1".to_vec());
    let (last, entry) = w.finish();
    assert_eq!(last, None);
    assert_eq!(entry.chunks.len(), 2);
}

#[test]
fn chunks_keep_the_order_of_the_rows() {
    let mut w = writer(30);
    let rows: Vec<Vec<u8>> = (0..7u8).map(|i| vec![i; 3]).collect();
    let mut payloads = Vec::new();
    for row in &rows {
        if let Some(chunk) = w.push_row(row) {
            payloads.push(chunk.payload);
        }
    }
    if let (Some(chunk), _) = w.finish() {
        payloads.push(chunk.payload);
    }
    let joined: Vec<u8> = payloads.concat();
    assert_eq!(joined, pack(&rows));
}

#[test]
fn chunks_are_sealed_with_the_settings_of_the_writer() {
    let key = Some(b"secret".to_vec());
    let mut w = ChunkWriter::new(b"d", b"t", Vec::new(), 0, true, key.clone());
    let chunk = w.push_row(b"aaaaaaaa").unwrap();
    assert_eq!(chunk.payload, seal(&pack(&vec![b"aaaaaaaa".to_vec()]), true, &key));
    assert_eq!(chunk.key, b"d/t/0".to_vec());
}
