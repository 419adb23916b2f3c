use replibyte::chunk::{ChunkRef, ChunkWriter, DEFAULT_CHUNK_SIZE};
use replibyte::datastore::{Datastore, MemoryStore};
use replibyte::error::RestoreError;
use replibyte::progress::{ProgressEvent, ProgressQueue, ProgressSink};
use replibyte::reader::{read_table, ChunkReader};
use replibyte::restore::read_index;
use replibyte::row::{encode_row, Column, Row};

fn row(i: u8) -> Row {
    Row { columns: vec![Column { name: b"n".to_vec(), value: vec![b'0' + i] }] }
}

fn stored(store: &mut MemoryStore, rows: u8, key: &Option<Vec<u8>>) -> Vec<ChunkRef> {
    let mut writer = ChunkWriter::new(b"d", b"t", Vec::new(), 40, true, key.clone());
    for i in 0..rows {
        if let Some(chunk) = writer.push_row(&encode_row(&row(i))) {
            store.put(&chunk.key, &chunk.payload).unwrap();
        }
    }
    let (last, entry) = writer.finish();
    if let Some(chunk) = last {
        store.put(&chunk.key, &chunk.payload).unwrap();
    }
    entry.chunks
}

#[test]
fn reader_hands_out_the_chunks_in_order_and_then_nothing() {
    let mut store = MemoryStore::new();
    let key = Some(b"k".to_vec());
    let chunks = stored(&mut store, 5, &key);
    assert_eq!(chunks.len(), 3);
    let mut reader = ChunkReader::new(0, &chunks, true, &key);
    assert_eq!(reader.next_rows(&store), Ok(Some(vec![row(0), row(1)])));
    assert_eq!(reader.next_rows(&store), Ok(Some(vec![row(2), row(3)])));
    assert_eq!(reader.position, 2);
    assert_eq!(reader.next_rows(&store), Ok(Some(vec![row(4)])));
    assert_eq!(reader.next_rows(&store), Ok(None));
    assert_eq!(reader.next_rows(&store), Ok(None));
    assert_eq!(reader.position, 3);
}

#[test]
fn reader_stays_at_a_chunk_that_fails() {
    let mut store = MemoryStore::new();
    let chunks = stored(&mut store, 5, &None);
    store.delete(b"d/t/1").unwrap();
    let mut reader = ChunkReader::new(7, &chunks, true, &None);
    assert!(reader.next_rows(&store).unwrap().is_some());
    assert_eq!(reader.next_rows(&store), Err(RestoreError::MissingChunk { table: 7, chunk: 1 }));
    assert_eq!(reader.next_rows(&store), Err(RestoreError::MissingChunk { table: 7, chunk: 1 }));
    assert_eq!(reader.position, 1);
    store.put(b"d/t/1", b"junk!").unwrap();
    assert_eq!(reader.next_rows(&store), Err(RestoreError::CorruptChunk { table: 7, chunk: 1 }));
}

#[test]
fn table_is_read_whole_or_not_at_all() {
    let mut store = MemoryStore::new();
    let chunks = stored(&mut store, 5, &None);
    let mut progress = ProgressQueue::new(8);
    let sizes: Vec<u64> = chunks.iter().map(|c| c.size).collect();
    let all: u64 = sizes.iter().sum();
    assert_eq!(
        read_table(&store, 0, &chunks, true, &None, &mut progress, 100, 999),
        Ok(((0..5).map(row).collect::<Vec<Row>>(), 100 + all))
    );
    assert_eq!(
        progress.waiting,
        vec![
            ProgressEvent { transferred: 100 + sizes[0], total: 999 },
            ProgressEvent { transferred: 100 + sizes[0] + sizes[1], total: 999 },
            ProgressEvent { transferred: 100 + all, total: 999 },
        ]
    );
    assert_eq!(read_table(&store, 0, &Vec::new(), true, &None, &mut progress, 7, 9), Ok((Vec::new(), 7)));
    assert_eq!(progress.waiting.len(), 3);
    store.delete(b"d/t/2").unwrap();
    let mut progress = ProgressQueue::new(8);
    assert_eq!(
        read_table(&store, 3, &chunks, true, &None, &mut progress, u64::MAX - 1, 0),
        Err(RestoreError::MissingChunk { table: 3, chunk: 2 })
    );
    assert_eq!(
        progress.waiting,
        vec![ProgressEvent { transferred: u64::MAX, total: 0 }, ProgressEvent { transferred: u64::MAX, total: 0 }]
    );
}

#[test]
fn index_is_read_by_the_name_of_its_dump() {
    let mut store = MemoryStore::new();
    assert_eq!(read_index(&store, b"d"), Err(RestoreError::NotFound));
    store.put(b"metadata/d", b"junk").unwrap();
    assert_eq!(read_index(&store, b"d"), Err(RestoreError::CorruptIndex));
}

#[test]
fn queue_is_a_sink_for_reports() {
    let mut q = ProgressQueue::new(2);
    q.report(ProgressEvent { transferred: 1, total: 2 });
    assert_eq!(q.try_recv(), Some(ProgressEvent { transferred: 1, total: 2 }));
}

#[test]
fn default_chunk_size_is_100_mebibytes() {
    assert_eq!(DEFAULT_CHUNK_SIZE, 100 * 1024 * 1024);
}
