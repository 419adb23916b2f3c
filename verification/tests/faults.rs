use replibyte::catalog::{delete, list};
use replibyte::datastore::{Datastore, MemoryStore};
use replibyte::dump::{dump, DumpOptions, Table};
use replibyte::error::{DeleteError, DumpError, MigrationError, RestoreError, StoreError};
use replibyte::migration::{migrate, Migration, VersionBump};
use replibyte::progress::ProgressQueue;
use replibyte::restore::{restore, restore_dump, Target};
use replibyte::row::{Column, Row};

/// A store whose reads fail once `reads_left` reads were answered.
struct Flaky {
    inner: MemoryStore,
    reads_left: std::cell::Cell<usize>,
}

impl Flaky {
    fn read(&self) -> Result<(), StoreError> {
        if self.reads_left.get() == 0 {
            return Err(StoreError::Retryable);
        }
        self.reads_left.set(self.reads_left.get() - 1);
        Ok(())
    }
}

impl Datastore for Flaky {
    fn init(&mut self) -> Result<(), StoreError> {
        self.inner.init()
    }

    fn put(&mut self, key: &[u8], bytes: &[u8]) -> Result<(), StoreError> {
        self.inner.put(key, bytes)
    }

    fn get(&self, key: &[u8]) -> Result<Option<Vec<u8>>, StoreError> {
        self.read()?;
        self.inner.get(key)
    }

    fn contains(&self, key: &[u8]) -> Result<bool, StoreError> {
        self.read()?;
        self.inner.contains(key)
    }

    fn list(&self, prefix: &[u8]) -> Result<Vec<Vec<u8>>, StoreError> {
        self.read()?;
        self.inner.list(prefix)
    }

    fn delete(&mut self, key: &[u8]) -> Result<(), StoreError> {
        self.inner.delete(key)
    }
}

/// A step that always fails.
struct Broken {
    from: u64,
}

impl Migration for Broken {
    fn source_version(&self) -> u64 {
        self.from
    }

    fn apply<D: Datastore>(self, _store: &mut D) -> Result<(), StoreError> {
        Err(StoreError::Retryable)
    }
}

fn table() -> Table {
    Table {
        name: b"t".to_vec(),
        columns: vec![b"n".to_vec()],
        rows: (0..10u8)
            .map(|i| Row { columns: vec![Column { name: b"n".to_vec(), value: vec![b'a' + i] }] })
            .collect(),
    }
}

fn options() -> DumpOptions {
    DumpOptions { chunk_size: 40, compression: false, key: None, seed: 1, created_at: 5, expected_total: 0 }
}

fn flaky_with_dump(reads: usize) -> Flaky {
    let mut inner = MemoryStore::new();
    dump(&mut inner, b"d", &vec![table()], &Vec::new(), &options(), &mut ProgressQueue::new(1)).unwrap();
    Flaky { inner, reads_left: std::cell::Cell::new(reads) }
}

#[test]
fn a_store_that_fails_to_answer_fails_the_restore() {
    assert_eq!(restore_dump(&flaky_with_dump(0), b"d", &None, &mut ProgressQueue::new(8)), Err(RestoreError::Store(StoreError::Retryable)));
    assert_eq!(restore_dump(&flaky_with_dump(2), b"d", &None, &mut ProgressQueue::new(8)), Err(RestoreError::Store(StoreError::Retryable)));
    assert_eq!(
        restore(&flaky_with_dump(1), &Target::Latest, &None, &mut ProgressQueue::new(8)),
        Err(RestoreError::Store(StoreError::Retryable))
    );
    assert!(restore_dump(&flaky_with_dump(100), b"d", &None, &mut ProgressQueue::new(8)).is_ok());
}

#[test]
fn a_store_that_fails_to_answer_fails_the_listing() {
    assert_eq!(list(&flaky_with_dump(0)), Err(RestoreError::Store(StoreError::Retryable)));
    assert_eq!(list(&flaky_with_dump(1)), Err(RestoreError::Store(StoreError::Retryable)));
    assert_eq!(list(&flaky_with_dump(2)).unwrap().len(), 1);
}

#[test]
fn a_store_that_fails_to_answer_fails_the_deletion_untouched() {
    let mut store = flaky_with_dump(0);
    let objects = store.inner.len();
    assert_eq!(delete(&mut store, b"d"), Err(DeleteError::Read(StoreError::Retryable)));
    assert_eq!(store.inner.len(), objects);
}

#[test]
fn a_store_that_fails_to_answer_fails_the_migration_untouched() {
    let mut store = Flaky { inner: MemoryStore::new(), reads_left: std::cell::Cell::new(0) };
    assert_eq!(
        migrate(&mut store, 1, vec![VersionBump { from: 0 }]),
        Err(MigrationError::Store(StoreError::Retryable))
    );
    assert_eq!(store.inner.write_count(), 0);
}

#[test]
fn a_failed_step_leaves_the_marker_at_the_last_version_reached() {
    let mut store = MemoryStore::new();
    migrate(&mut store, 1, vec![VersionBump { from: 0 }]).unwrap();
    let writes = store.write_count();
    assert_eq!(
        migrate(&mut store, 3, vec![Broken { from: 1 }, Broken { from: 2 }]),
        Err(MigrationError::StepFailed { version: 1, cause: StoreError::Retryable })
    );
    assert_eq!(store.write_count(), writes);
    assert_eq!(store.get(b"metadata/__version"), Ok(Some(vec![1, 0, 0, 0, 0, 0, 0, 0])));
}

#[test]
fn a_dump_into_a_store_that_refuses_fails_with_the_cause() {
    let mut store = MemoryStore::new();
    store.lock(b"x/t/0");
    assert_eq!(
        dump(&mut store, b"x", &vec![table()], &Vec::new(), &options(), &mut ProgressQueue::new(1)),
        Err(DumpError::Store(StoreError::Fatal))
    );
    assert_eq!(store.len(), 0);
}
