use replibyte::catalog::{delete, list};
use replibyte::chunk::ChunkRef;
use replibyte::datastore::{Datastore, MemoryStore};
use replibyte::dump::{dump, validate, DumpOptions, Table};
use replibyte::error::{ConfigError, DeleteError, DumpError, RestoreError, StoreError, TransformError};
use replibyte::index::decode_index;
use replibyte::progress::{ProgressEvent, ProgressQueue};
use replibyte::restore::{restore, restore_dump, RestoredTable, Target};
use replibyte::row::{Column, Row};
use replibyte::rules::Rule;
use replibyte::transformer::Transformer;

fn col(name: &str, value: &str) -> Column {
    Column { name: name.as_bytes().to_vec(), value: value.as_bytes().to_vec() }
}

fn user(id: &str, email: &str, city: &str) -> Row {
    Row { columns: vec![col("id", id), col("email", email), col("city", city)] }
}

fn users() -> Table {
    Table {
        name: b"users".to_vec(),
        columns: vec![b"id".to_vec(), b"email".to_vec(), b"city".to_vec()],
        rows: vec![
            user("1", "alice@corp.io", "Paris"),
            user("2", "bob@corp.io", "Lyon"),
            user("3", "carol@corp.io", "Nice"),
        ],
    }
}

fn orders() -> Table {
    Table {
        name: b"orders".to_vec(),
        columns: vec![b"id".to_vec(), b"phone".to_vec()],
        rows: (0..20)
            .map(|i| Row {
                columns: vec![col("id", &format!("{}", i)), col("phone", &format!("+33 6 00 00 {:02}", i))],
            })
            .collect(),
    }
}

fn email_rule() -> Vec<Rule> {
    vec![Rule { table: b"users".to_vec(), column: b"email".to_vec(), transformer: Transformer::Email }]
}

fn options(chunk_size: usize) -> DumpOptions {
    DumpOptions {
        chunk_size,
        compression: false,
        key: None,
        seed: 42,
        created_at: 1_700_000_000_000,
        expected_total: 1000,
    }
}

fn is_email_shaped(value: &[u8]) -> bool {
    let at = value.iter().position(|b| *b == b'@');
    match at {
        None => false,
        Some(at) => {
            let (local, domain) = (&value[..at], &value[at + 1..]);
            !local.is_empty()
                && local.iter().all(|b| b.is_ascii_alphanumeric())
                && domain.contains(&b'.')
                && !domain.starts_with(b".")
                && !domain.ends_with(b".")
                && !domain.contains(&b'@')
        }
    }
}

#[test]
fn one_small_table_makes_one_chunk_and_restores() {
    let mut store = MemoryStore::new();
    let mut progress = ProgressQueue::new(1000);
    let source = users();
    let d = dump(&mut store, b"prod-2024", &vec![source.clone()], &email_rule(), &options(1 << 20), &mut progress)
        .unwrap();
    assert_eq!(d.name, b"prod-2024".to_vec());
    assert_eq!(d.tables.len(), 1);
    assert_eq!(d.tables[0].table, b"users".to_vec());
    assert_eq!(d.tables[0].ruled, vec![b"email".to_vec()]);
    assert_eq!(d.tables[0].chunks.len(), 1);
    assert_eq!(d.tables[0].chunks[0].key, b"prod-2024/users/0".to_vec());
    assert_eq!(d.tables[0].chunks[0].rows, 3);
    assert_eq!(d.tables[0].rows(), 3);
    assert_eq!(
        store.list(b"").unwrap(),
        vec![b"metadata/prod-2024".to_vec(), b"prod-2024/users/0".to_vec()]
    );

    let tables = restore(&store, &Target::Named(b"prod-2024".to_vec()), &None, &mut ProgressQueue::new(8)).unwrap();
    assert_eq!(tables.len(), 1);
    assert_eq!(tables[0].name, b"users".to_vec());
    assert_eq!(tables[0].rows.len(), 3);
    for (restored, given) in tables[0].rows.iter().zip(source.rows.iter()) {
        assert_eq!(restored.columns.len(), 3);
        assert_eq!(restored.columns[0], given.columns[0]);
        assert_eq!(restored.columns[2], given.columns[2]);
        assert_eq!(restored.columns[1].name, b"email".to_vec());
        assert_ne!(restored.columns[1].value, given.columns[1].value);
        assert!(is_email_shaped(&restored.columns[1].value));
    }
}

#[test]
fn round_trip_over_many_chunks_tables_and_settings() {
    let rules = vec![
        Rule { table: b"users".to_vec(), column: b"email".to_vec(), transformer: Transformer::Email },
        Rule { table: b"orders".to_vec(), column: b"phone".to_vec(), transformer: Transformer::Phone },
    ];
    for compression in [false, true] {
        for key in [None, Some(b"secret".to_vec())] {
            for chunk_size in [0usize, 1, 64, 200, 1 << 20] {
                let mut store = MemoryStore::new();
                let mut progress = ProgressQueue::new(8);
                let opts = DumpOptions { chunk_size, compression, key: key.clone(), ..options(0) };
                let source = vec![users(), orders()];
                let d = dump(&mut store, b"snap", &source, &rules, &opts, &mut progress).unwrap();
                assert_eq!(d.compressed, compression);
                assert_eq!(d.encrypted, key.is_some());
                let tables = restore_dump(&store, b"snap", &key, &mut ProgressQueue::new(8)).unwrap();
                assert_eq!(tables.len(), 2);
                for (table, given) in tables.iter().zip(source.iter()) {
                    assert_eq!(table.name, given.name);
                    assert_eq!(table.rows.len(), given.rows.len());
                    for (row, source_row) in table.rows.iter().zip(given.rows.iter()) {
                        assert_eq!(row.columns[0], source_row.columns[0]);
                        assert_eq!(row.columns[1].name, source_row.columns[1].name);
                        assert_ne!(row.columns[1].value, source_row.columns[1].value);
                    }
                }
                assert_eq!(tables[0].rows[0].columns[1].value, b"woouyganew@example.com".to_vec());
                if chunk_size == 0 {
                    assert_eq!(d.tables[1].chunks.len(), 20);
                }
            }
        }
    }
}

#[test]
fn two_dumps_with_one_seed_store_the_same_bytes() {
    let mut first = MemoryStore::new();
    let mut second = MemoryStore::new();
    second.put(b"other", b"object").unwrap();
    let opts = DumpOptions { compression: true, key: Some(b"k".to_vec()), ..options(100) };
    let source = vec![users(), orders()];
    let a = dump(&mut first, b"snap", &source, &email_rule(), &opts, &mut ProgressQueue::new(4)).unwrap();
    let b = dump(&mut second, b"snap", &source, &email_rule(), &opts, &mut ProgressQueue::new(4)).unwrap();
    assert_eq!(a, b);
    for key in first.list(b"").unwrap() {
        assert_eq!(first.get(&key), second.get(&key));
    }
    let other_seed = DumpOptions { seed: 43, ..opts };
    let mut third = MemoryStore::new();
    dump(&mut third, b"snap", &source, &email_rule(), &other_seed, &mut ProgressQueue::new(4)).unwrap();
    assert_ne!(first.get(b"snap/users/0"), third.get(b"snap/users/0"));
    assert_eq!(first.get(b"snap/orders/0"), third.get(b"snap/orders/0"));
}

#[test]
fn failed_dump_is_not_listed_and_does_not_stand_in_the_way() {
    let mut store = MemoryStore::new();
    let source = vec![orders()];
    store.lock(b"prod-2024/orders/2");
    let res = dump(&mut store, b"prod-2024", &source, &Vec::new(), &options(64), &mut ProgressQueue::new(4));
    assert_eq!(res, Err(DumpError::Store(StoreError::Fatal)));
    assert_eq!(
        store.list(b"").unwrap(),
        vec![b"prod-2024/orders/0".to_vec(), b"prod-2024/orders/1".to_vec()]
    );
    assert_eq!(list(&store), Ok(Vec::new()));
    assert_eq!(
        restore(&store, &Target::Named(b"prod-2024".to_vec()), &None, &mut ProgressQueue::new(8)),
        Err(RestoreError::NotFound)
    );

    store.unlock_all();
    store.lock(b"metadata/prod-2024");
    let res = dump(&mut store, b"prod-2024", &source, &Vec::new(), &options(64), &mut ProgressQueue::new(4));
    assert_eq!(res, Err(DumpError::Store(StoreError::Fatal)));
    assert_eq!(list(&store), Ok(Vec::new()));

    store.unlock_all();
    let smaller = vec![Table { rows: orders().rows[..3].to_vec(), ..orders() }];
    let d = dump(&mut store, b"prod-2024", &smaller, &Vec::new(), &options(64), &mut ProgressQueue::new(4))
        .unwrap();
    assert_eq!(list(&store).unwrap().len(), 1);
    let tables = restore_dump(&store, b"prod-2024", &None, &mut ProgressQueue::new(8)).unwrap();
    assert_eq!(tables, vec![RestoredTable { name: b"orders".to_vec(), rows: smaller[0].rows.clone() }]);
    assert!(d.tables[0].chunks.len() < 6);
    assert!(store.contains(b"prod-2024/orders/5").unwrap());
}

#[test]
fn configuration_is_validated_before_the_store_is_touched() {
    let mut store = MemoryStore::new();
    let mut progress = ProgressQueue::new(4);
    let bad_rule = vec![Rule { table: b"users".to_vec(), column: b"nope".to_vec(), transformer: Transformer::Keep }];
    let cases: Vec<(&[u8], Vec<Table>, Vec<Rule>, ConfigError)> = vec![
        (b"", vec![users()], Vec::new(), ConfigError::InvalidDumpName),
        (b"a/b", vec![users()], Vec::new(), ConfigError::InvalidDumpName),
        (b"__version", vec![users()], Vec::new(), ConfigError::InvalidDumpName),
        (b"metadata", vec![users()], Vec::new(), ConfigError::InvalidDumpName),
        (
            b"d",
            vec![users(), Table { name: b"a/b".to_vec(), ..orders() }],
            Vec::new(),
            ConfigError::InvalidTableName { table: 1 },
        ),
        (
            b"d",
            vec![users(), orders(), users()],
            Vec::new(),
            ConfigError::DuplicateTable { first: 0, second: 2 },
        ),
        (b"d", vec![users()], bad_rule, ConfigError::UnknownColumn { rule: 0 }),
    ];
    for (name, tables, rules, expected) in cases {
        assert_eq!(validate(name, &tables, &rules), Err(expected));
        assert_eq!(
            dump(&mut store, name, &tables, &rules, &options(64), &mut progress),
            Err(DumpError::Config(expected))
        );
    }
    assert_eq!(store.write_count(), 0);
    assert_eq!(store.len(), 0);
    assert_eq!(progress.try_recv(), None);
    assert_eq!(validate(b"d", &vec![users(), orders()], &email_rule()), Ok(()));
}

#[test]
fn a_value_that_cannot_be_processed_fails_the_dump() {
    let mut store = MemoryStore::new();
    let mut source = users();
    source.rows[1].columns[1].value = b"no address".to_vec();
    let res = dump(
        &mut store,
        b"d",
        &vec![orders(), source],
        &email_rule(),
        &options(0),
        &mut ProgressQueue::new(4),
    );
    assert_eq!(res, Err(DumpError::Transform(TransformError { table: 1, row: 1, column: 1 })));
    assert_eq!(list(&store), Ok(Vec::new()));
    assert!(store.contains(b"d/orders/19").unwrap());
    assert!(store.contains(b"d/users/0").unwrap());
    assert!(!store.contains(b"d/users/1").unwrap());
}

#[test]
fn progress_is_reported_after_each_chunk_and_at_the_end() {
    let mut store = MemoryStore::new();
    let mut progress = ProgressQueue::new(100);
    let d = dump(&mut store, b"d", &vec![users(), orders()], &Vec::new(), &options(128), &mut progress).unwrap();
    let mut sizes: Vec<u64> = Vec::new();
    for table in &d.tables {
        for chunk in &table.chunks {
            sizes.push(chunk.size);
        }
    }
    let mut expected = Vec::new();
    let mut sum = 0;
    for size in &sizes {
        sum += size;
        expected.push(ProgressEvent { transferred: sum, total: 1000 });
    }
    expected.push(ProgressEvent { transferred: sum, total: sum });
    assert_eq!(progress.waiting, expected);
    assert_eq!(d.size(), sum);
    assert_eq!(store.write_count() as usize, sizes.len() + 1);
}

#[test]
fn list_is_newest_first() {
    let mut store = MemoryStore::new();
    for (name, created_at) in [("b", 20u64), ("a", 30), ("d", 10), ("c", 30), ("e", 20)] {
        let opts = DumpOptions { created_at, ..options(64) };
        dump(&mut store, name.as_bytes(), &vec![users()], &Vec::new(), &opts, &mut ProgressQueue::new(1)).unwrap();
    }
    store.put(b"metadata/__version", &[1, 0, 0, 0, 0, 0, 0, 0]).unwrap();
    let dumps = list(&store).unwrap();
    let names: Vec<Vec<u8>> = dumps.iter().map(|d| d.name.clone()).collect();
    assert_eq!(names, vec![b"a".to_vec(), b"c".to_vec(), b"b".to_vec(), b"e".to_vec(), b"d".to_vec()]);
    assert_eq!(dumps[0].created_at, 30);
    assert!(dumps[0].size > 0);
    assert!(!dumps[0].compressed && !dumps[0].encrypted);
}

#[test]
fn latest_is_the_newest_dump() {
    let mut store = MemoryStore::new();
    assert_eq!(restore(&store, &Target::Latest, &None, &mut ProgressQueue::new(8)), Err(RestoreError::NotFound));
    let old = DumpOptions { created_at: 10, ..options(64) };
    let new = DumpOptions { created_at: 20, ..options(64) };
    dump(&mut store, b"z-old", &vec![orders()], &Vec::new(), &old, &mut ProgressQueue::new(1)).unwrap();
    dump(&mut store, b"a-new", &vec![users()], &Vec::new(), &new, &mut ProgressQueue::new(1)).unwrap();
    let tables = restore(&store, &Target::Latest, &None, &mut ProgressQueue::new(8)).unwrap();
    assert_eq!(tables, vec![RestoredTable { name: b"users".to_vec(), rows: users().rows }]);
}

#[test]
fn list_fails_on_an_object_that_is_no_index() {
    let mut store = MemoryStore::new();
    dump(&mut store, b"d", &vec![users()], &Vec::new(), &options(64), &mut ProgressQueue::new(1)).unwrap();
    store.put(b"metadata/junk", b"junk").unwrap();
    assert_eq!(list(&store), Err(RestoreError::CorruptIndex));
    assert_eq!(restore(&store, &Target::Latest, &None, &mut ProgressQueue::new(8)), Err(RestoreError::CorruptIndex));
    assert_eq!(restore_dump(&store, b"junk", &None, &mut ProgressQueue::new(8)), Err(RestoreError::CorruptIndex));
}

#[test]
fn delete_removes_chunks_then_index() {
    let mut store = MemoryStore::new();
    dump(&mut store, b"keep", &vec![users()], &Vec::new(), &options(64), &mut ProgressQueue::new(1)).unwrap();
    let d = dump(&mut store, b"gone", &vec![users(), orders()], &Vec::new(), &options(64), &mut ProgressQueue::new(1))
        .unwrap();
    let chunks: usize = d.tables.iter().map(|t| t.chunks.len()).sum();
    let writes = store.write_count();
    let kept = store.list(b"keep/").unwrap().len();
    assert_eq!(delete(&mut store, b"gone"), Ok(()));
    assert_eq!(store.write_count(), writes + chunks as u64 + 1);
    assert_eq!(store.list(b"gone/").unwrap(), Vec::<Vec<u8>>::new());
    assert_eq!(store.get(b"metadata/gone"), Ok(None));
    assert_eq!(store.list(b"keep/").unwrap().len(), kept);
    assert_eq!(list(&store).unwrap().len(), 1);
    assert_eq!(delete(&mut store, b"gone"), Err(DeleteError::NotFound));
}

#[test]
fn delete_of_a_broken_index_changes_nothing() {
    let mut store = MemoryStore::new();
    store.put(b"metadata/junk", b"junk").unwrap();
    assert_eq!(delete(&mut store, b"junk"), Err(DeleteError::CorruptIndex));
    assert_eq!(store.get(b"metadata/junk"), Ok(Some(b"junk".to_vec())));
    assert_eq!(store.write_count(), 1);
}

#[test]
fn partial_delete_fails_and_restore_reports_the_missing_chunk() {
    let mut store = MemoryStore::new();
    let d = dump(&mut store, b"prod-2024", &vec![orders()], &Vec::new(), &options(64), &mut ProgressQueue::new(1))
        .unwrap();
    let chunks = d.tables[0].chunks.len();
    assert!(chunks >= 3);
    store.lock(b"prod-2024/orders/0");
    let writes = store.write_count();
    assert_eq!(delete(&mut store, b"prod-2024"), Err(DeleteError::ChunksLeft { failed: 1 }));
    assert_eq!(store.write_count(), writes + chunks as u64);
    assert_eq!(store.list(b"prod-2024/").unwrap(), vec![b"prod-2024/orders/0".to_vec()]);
    assert_eq!(list(&store).unwrap().len(), 1);
    assert_eq!(
        restore(&store, &Target::Named(b"prod-2024".to_vec()), &None, &mut ProgressQueue::new(8)),
        Err(RestoreError::MissingChunk { table: 0, chunk: 1 })
    );
    store.unlock_all();
    assert_eq!(delete(&mut store, b"prod-2024"), Ok(()));
    assert_eq!(store.len(), 0);
}

#[test]
fn delete_fails_where_the_index_cannot_be_removed() {
    let mut store = MemoryStore::new();
    dump(&mut store, b"d", &vec![users()], &Vec::new(), &options(64), &mut ProgressQueue::new(1)).unwrap();
    store.lock(b"metadata/d");
    assert_eq!(delete(&mut store, b"d"), Err(DeleteError::Store(StoreError::Fatal)));
    assert_eq!(store.list(b"").unwrap(), vec![b"metadata/d".to_vec()]);
}

#[test]
fn corrupt_chunks_fail_the_restore() {
    let mut store = MemoryStore::new();
    let opts = DumpOptions { compression: true, ..options(64) };
    dump(&mut store, b"d", &vec![users(), orders()], &Vec::new(), &opts, &mut ProgressQueue::new(1)).unwrap();
    let good = store.get(b"d/orders/1").unwrap().unwrap();
    store.put(b"d/orders/1", &[1, 2, 3]).unwrap();
    assert_eq!(restore_dump(&store, b"d", &None, &mut ProgressQueue::new(8)), Err(RestoreError::CorruptChunk { table: 1, chunk: 1 }));
    let other = store.get(b"d/orders/0").unwrap().unwrap();
    store.put(b"d/orders/1", &other).unwrap();
    assert!(restore_dump(&store, b"d", &None, &mut ProgressQueue::new(8)).is_ok() || good != other);
    store.put(b"d/orders/1", &good).unwrap();
    assert!(restore_dump(&store, b"d", &None, &mut ProgressQueue::new(8)).is_ok());
}

#[test]
fn a_chunk_with_the_wrong_number_of_rows_is_corrupt() {
    let mut store = MemoryStore::new();
    dump(&mut store, b"d", &vec![orders()], &Vec::new(), &options(64), &mut ProgressQueue::new(1)).unwrap();
    let index = decode_index(&store.get(b"metadata/d").unwrap().unwrap()).unwrap();
    let first: &ChunkRef = &index.tables[0].chunks[0];
    let mut payload = store.get(&first.key).unwrap().unwrap();
    let again = payload.clone();
    payload.extend_from_slice(&again);
    store.put(&first.key, &payload).unwrap();
    assert_eq!(restore_dump(&store, b"d", &None, &mut ProgressQueue::new(8)), Err(RestoreError::CorruptChunk { table: 0, chunk: 0 }));
}

#[test]
fn enciphered_dump_needs_its_key() {
    let mut store = MemoryStore::new();
    let opts = DumpOptions { compression: true, key: Some(b"secret".to_vec()), ..options(64) };
    dump(&mut store, b"d", &vec![users()], &Vec::new(), &opts, &mut ProgressQueue::new(1)).unwrap();
    assert_eq!(restore_dump(&store, b"d", &None, &mut ProgressQueue::new(8)), Err(RestoreError::KeyMissing));
    assert_eq!(
        restore_dump(&store, b"d", &Some(b"wrong".to_vec()), &mut ProgressQueue::new(8)),
        Err(RestoreError::CorruptChunk { table: 0, chunk: 0 })
    );
    let tables = restore_dump(&store, b"d", &Some(b"secret".to_vec()), &mut ProgressQueue::new(8)).unwrap();
    assert_eq!(tables[0].rows, users().rows);
}

#[test]
fn a_key_is_ignored_for_a_dump_that_is_not_enciphered() {
    let mut store = MemoryStore::new();
    dump(&mut store, b"d", &vec![users()], &Vec::new(), &options(64), &mut ProgressQueue::new(1)).unwrap();
    let tables = restore_dump(&store, b"d", &Some(b"any".to_vec()), &mut ProgressQueue::new(8)).unwrap();
    assert_eq!(tables[0].rows, users().rows);
}

#[test]
fn dump_of_nothing_is_an_index_without_tables() {
    let mut store = MemoryStore::new();
    let mut progress = ProgressQueue::new(4);
    let d = dump(&mut store, b"d", &Vec::new(), &Vec::new(), &options(64), &mut progress).unwrap();
    assert!(d.tables.is_empty());
    assert_eq!(store.list(b"").unwrap(), vec![b"metadata/d".to_vec()]);
    assert_eq!(progress.waiting, vec![ProgressEvent { transferred: 0, total: 0 }]);
    assert_eq!(restore_dump(&store, b"d", &None, &mut ProgressQueue::new(8)), Ok(Vec::new()));
    let empty = Table { rows: Vec::new(), ..users() };
    let d = dump(&mut store, b"e", &vec![empty], &email_rule(), &options(64), &mut progress).unwrap();
    assert!(d.tables[0].chunks.is_empty());
    assert_eq!(
        restore_dump(&store, b"e", &None, &mut ProgressQueue::new(8)),
        Ok(vec![RestoredTable { name: b"users".to_vec(), rows: Vec::new() }])
    );
}

#[test]
fn restore_reports_after_each_chunk_and_at_the_end() {
    let mut store = MemoryStore::new();
    let d = dump(&mut store, b"d", &vec![users(), orders()], &Vec::new(), &options(128), &mut ProgressQueue::new(1))
        .unwrap();
    let total = d.size();
    let mut expected = Vec::new();
    let mut sum = 0;
    for table in &d.tables {
        for chunk in &table.chunks {
            sum += chunk.size;
            expected.push(ProgressEvent { transferred: sum, total });
        }
    }
    assert_eq!(sum, total);
    expected.push(ProgressEvent { transferred: total, total });
    let mut progress = ProgressQueue::new(100);
    restore(&store, &Target::Latest, &None, &mut progress).unwrap();
    assert_eq!(progress.waiting, expected);
    assert!(expected.len() > 3);
}

#[test]
fn restore_that_fails_reports_the_chunks_that_it_read() {
    let mut store = MemoryStore::new();
    let d = dump(&mut store, b"d", &vec![orders()], &Vec::new(), &options(64), &mut ProgressQueue::new(1)).unwrap();
    store.delete(b"d/orders/2").unwrap();
    let mut progress = ProgressQueue::new(100);
    assert_eq!(
        restore_dump(&store, b"d", &None, &mut progress),
        Err(RestoreError::MissingChunk { table: 0, chunk: 2 })
    );
    let sizes: Vec<u64> = d.tables[0].chunks.iter().map(|c| c.size).collect();
    assert_eq!(
        progress.waiting,
        vec![
            ProgressEvent { transferred: sizes[0], total: d.size() },
            ProgressEvent { transferred: sizes[0] + sizes[1], total: d.size() },
        ]
    );
    let mut silent = ProgressQueue::new(100);
    assert_eq!(restore_dump(&store, b"none", &None, &mut silent), Err(RestoreError::NotFound));
    assert!(silent.waiting.is_empty());
}

#[test]
fn deletion_tries_every_chunk_and_leaves_only_those_that_refuse() {
    let mut store = MemoryStore::new();
    let d = dump(
        &mut store,
        b"prod-2024",
        &vec![users(), orders()],
        &Vec::new(),
        &options(64),
        &mut ProgressQueue::new(1),
    )
    .unwrap();
    let chunks: usize = d.tables.iter().map(|t| t.chunks.len()).sum();
    assert!(d.tables[1].chunks.len() >= 4);
    store.lock(b"prod-2024/orders/1");
    store.lock(b"prod-2024/orders/3");
    let writes = store.write_count();
    assert_eq!(delete(&mut store, b"prod-2024"), Err(DeleteError::ChunksLeft { failed: 2 }));
    assert_eq!(store.write_count(), writes + chunks as u64);
    assert_eq!(
        store.list(b"prod-2024/").unwrap(),
        vec![b"prod-2024/orders/1".to_vec(), b"prod-2024/orders/3".to_vec()]
    );
    assert!(store.contains(b"metadata/prod-2024").unwrap());
    assert_eq!(
        restore_dump(&store, b"prod-2024", &None, &mut ProgressQueue::new(1)),
        Err(RestoreError::MissingChunk { table: 0, chunk: 0 })
    );
}

#[test]
fn targets_are_read_from_the_word_of_the_operator() {
    assert_eq!(Target::parse(b"latest"), Target::Latest);
    assert_eq!(Target::parse(b"prod-2024"), Target::Named(b"prod-2024".to_vec()));
    assert_eq!(Target::parse(b"Latest"), Target::Named(b"Latest".to_vec()));
    assert_eq!(Target::parse(b""), Target::Named(Vec::new()));
}

#[test]
fn a_table_takes_its_columns_from_its_first_row() {
    let table = Table::from_rows(b"users".to_vec(), users().rows);
    assert_eq!(table, users());
    let empty = Table::from_rows(b"none".to_vec(), Vec::new());
    assert_eq!(empty.columns, Vec::<Vec<u8>>::new());
    assert!(empty.rows.is_empty());
}

#[test]
fn the_size_of_the_source_is_that_of_its_packed_rows() {
    let tables = vec![users(), orders()];
    let expected: usize = tables.iter().map(|t| replibyte::row::encode_rows(&t.rows).len()).sum();
    assert_eq!(replibyte::dump::source_size(&tables), expected as u64);
    assert_eq!(replibyte::dump::source_size(&Vec::new()), 0);
    let mut store = MemoryStore::new();
    let opts = DumpOptions { chunk_size: 1 << 20, ..options(0) };
    let d = dump(&mut store, b"d", &tables, &Vec::new(), &opts, &mut ProgressQueue::new(1)).unwrap();
    assert_eq!(d.size(), expected as u64);
}

#[test]
fn a_dump_is_listed_under_the_name_of_its_key() {
    let mut store = MemoryStore::new();
    dump(&mut store, b"first", &vec![users()], &Vec::new(), &options(64), &mut ProgressQueue::new(1)).unwrap();
    let index = store.get(b"metadata/first").unwrap().unwrap();
    store.put(b"metadata/second", &index).unwrap();
    let names: Vec<Vec<u8>> = list(&store).unwrap().into_iter().map(|d| d.name).collect();
    assert_eq!(names, vec![b"first".to_vec(), b"second".to_vec()]);
}

#[test]
fn deletion_asks_for_the_index_only_after_every_chunk_is_gone() {
    let mut store = MemoryStore::new();
    let d = dump(&mut store, b"d", &vec![orders()], &Vec::new(), &options(64), &mut ProgressQueue::new(1)).unwrap();
    let chunks = d.tables[0].chunks.len() as u64;
    store.lock(b"metadata/d");
    store.lock(b"d/orders/0");
    let writes = store.write_count();
    assert_eq!(delete(&mut store, b"d"), Err(DeleteError::ChunksLeft { failed: 1 }));
    assert_eq!(store.write_count(), writes + chunks);
    store.unlock_all();
    store.lock(b"metadata/d");
    let writes = store.write_count();
    assert_eq!(delete(&mut store, b"d"), Err(DeleteError::Store(StoreError::Fatal)));
    assert_eq!(store.write_count(), writes + chunks + 1);
    assert_eq!(store.list(b"d/").unwrap(), Vec::<Vec<u8>>::new());
}
