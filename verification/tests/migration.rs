use replibyte::datastore::{Datastore, MemoryStore};
use replibyte::error::{MigrationError, StoreError};
use replibyte::migration::{check_version, find_step, migrate, Migration, MigrationReport, VersionBump};
use replibyte::session::open_store;

fn steps(upto: u64) -> Vec<VersionBump> {
    (0..upto).map(|from| VersionBump { from }).collect()
}

fn marker(store: &MemoryStore) -> Option<Vec<u8>> {
    store.get(b"metadata/__version").unwrap()
}

#[test]
fn fresh_store_is_taken_through_every_step() {
    let mut store = MemoryStore::new();
    let report = migrate(&mut store, 3, steps(3)).unwrap();
    assert_eq!(report, MigrationReport { from: 0, to: 3, steps: 3 });
    assert_eq!(marker(&store), Some(vec![3, 0, 0, 0, 0, 0, 0, 0]));
    assert_eq!(store.write_count(), 3);
}

#[test]
fn second_migration_writes_nothing() {
    let mut store = MemoryStore::new();
    migrate(&mut store, 3, steps(3)).unwrap();
    let writes = store.write_count();
    let before = marker(&store);
    let report = migrate(&mut store, 3, steps(3)).unwrap();
    assert_eq!(report, MigrationReport { from: 3, to: 3, steps: 0 });
    assert_eq!(store.write_count(), writes);
    assert_eq!(marker(&store), before);
}

#[test]
fn store_at_the_current_version_is_not_written_to() {
    let mut store = MemoryStore::new();
    assert_eq!(migrate(&mut store, 0, steps(0)), Ok(MigrationReport { from: 0, to: 0, steps: 0 }));
    assert_eq!(store.write_count(), 0);
    assert_eq!(marker(&store), None);
}

#[test]
fn older_store_is_brought_up_from_its_version() {
    let mut store = MemoryStore::new();
    migrate(&mut store, 2, steps(2)).unwrap();
    let report = migrate(&mut store, 5, steps(5)).unwrap();
    assert_eq!(report, MigrationReport { from: 2, to: 5, steps: 3 });
    assert_eq!(marker(&store), Some(vec![5, 0, 0, 0, 0, 0, 0, 0]));
}

#[test]
fn newer_store_is_refused_untouched() {
    let mut store = MemoryStore::new();
    migrate(&mut store, 4, steps(4)).unwrap();
    let writes = store.write_count();
    assert_eq!(
        migrate(&mut store, 3, steps(3)),
        Err(MigrationError::StoreTooNew { stored: 4, current: 3 })
    );
    assert_eq!(store.write_count(), writes);
    assert_eq!(marker(&store), Some(vec![4, 0, 0, 0, 0, 0, 0, 0]));
}

#[test]
fn corrupt_marker_is_an_error() {
    let mut store = MemoryStore::new();
    store.put(b"metadata/__version", b"three").unwrap();
    assert_eq!(migrate(&mut store, 3, steps(3)), Err(MigrationError::CorruptMarker));
    assert_eq!(marker(&store), Some(b"three".to_vec()));
}

#[test]
fn missing_step_leaves_the_marker_at_the_last_version_reached() {
    let mut store = MemoryStore::new();
    let some = vec![VersionBump { from: 0 }, VersionBump { from: 1 }, VersionBump { from: 3 }];
    assert_eq!(migrate(&mut store, 4, some), Err(MigrationError::MissingStep { version: 2 }));
    assert_eq!(marker(&store), Some(vec![2, 0, 0, 0, 0, 0, 0, 0]));
    assert_eq!(migrate(&mut store, 4, steps(4)), Ok(MigrationReport { from: 2, to: 4, steps: 2 }));
}

#[test]
fn failed_marker_write_stops_the_migration() {
    let mut store = MemoryStore::new();
    store.lock(b"metadata/__version");
    assert_eq!(migrate(&mut store, 2, steps(2)), Err(MigrationError::Store(StoreError::Fatal)));
    assert_eq!(marker(&store), None);
}

#[test]
fn version_check_reads_the_marker() {
    assert_eq!(check_version(&None, 0), Ok(0));
    assert_eq!(check_version(&None, 9), Ok(0));
    assert_eq!(check_version(&Some(vec![1, 1, 0, 0, 0, 0, 0, 0]), 300), Ok(257));
    assert_eq!(check_version(&Some(vec![1, 1, 0, 0, 0, 0, 0, 0]), 257), Ok(257));
    assert_eq!(
        check_version(&Some(vec![1, 1, 0, 0, 0, 0, 0, 0]), 256),
        Err(MigrationError::StoreTooNew { stored: 257, current: 256 })
    );
    assert_eq!(check_version(&Some(vec![1]), 5), Err(MigrationError::CorruptMarker));
    assert_eq!(check_version(&Some(Vec::new()), 5), Err(MigrationError::CorruptMarker));
}

#[test]
fn steps_are_found_by_their_source_version() {
    let some = vec![VersionBump { from: 4 }, VersionBump { from: 1 }, VersionBump { from: 4 }];
    assert_eq!(find_step(&some, 4), Some(0));
    assert_eq!(find_step(&some, 1), Some(1));
    assert_eq!(find_step(&some, 0), None);
    assert_eq!(some[1].source_version(), 1);
}

#[test]
fn a_version_bump_rewrites_nothing() {
    let mut store = MemoryStore::new();
    store.put(b"a", b"one").unwrap();
    assert_eq!(VersionBump { from: 0 }.apply(&mut store), Ok(()));
    assert_eq!(store.write_count(), 1);
    assert_eq!(store.get(b"a"), Ok(Some(b"one".to_vec())));
}

#[test]
fn opening_a_store_migrates_it() {
    let mut store = MemoryStore::new();
    assert_eq!(open_store(&mut store, 2, steps(2)), Ok(MigrationReport { from: 0, to: 2, steps: 2 }));
    assert_eq!(open_store(&mut store, 2, steps(2)), Ok(MigrationReport { from: 2, to: 2, steps: 0 }));
    assert_eq!(
        open_store(&mut store, 1, steps(1)),
        Err(MigrationError::StoreTooNew { stored: 2, current: 1 })
    );
}

#[test]
fn opening_a_store_prepares_it_after_the_migration() {
    let mut store = MemoryStore::new();
    assert!(!store.ready);
    assert!(open_store(&mut store, 1, steps(1)).is_ok());
    assert!(store.ready);
    assert_eq!(marker(&store), Some(vec![1, 0, 0, 0, 0, 0, 0, 0]));

    let mut old = MemoryStore::new();
    assert_eq!(
        open_store(&mut old, 3, vec![VersionBump { from: 0 }]),
        Err(MigrationError::MissingStep { version: 1 })
    );
    assert!(!old.ready);
    assert_eq!(marker(&old), Some(vec![1, 0, 0, 0, 0, 0, 0, 0]));
}

#[test]
fn a_step_that_succeeds_moves_the_marker_on_and_one_that_fails_ends_the_migration() {
    assert_eq!(replibyte::migration::after_step(0, Ok(())), Ok(1));
    assert_eq!(replibyte::migration::after_step(41, Ok(())), Ok(42));
    assert_eq!(
        replibyte::migration::after_step(7, Err(StoreError::Retryable)),
        Err(MigrationError::StepFailed { version: 7, cause: StoreError::Retryable })
    );
}

#[test]
fn a_store_of_a_newer_version_is_not_prepared() {
    let mut store = MemoryStore::new();
    migrate(&mut store, 4, steps(4)).unwrap();
    assert_eq!(
        open_store(&mut store, 3, steps(3)),
        Err(MigrationError::StoreTooNew { stored: 4, current: 3 })
    );
    assert!(!store.ready);
    assert_eq!(store.write_count(), 4);
}

#[test]
fn each_version_takes_the_first_step_that_leads_on_from_it() {
    let mut store = MemoryStore::new();
    let twice = vec![
        VersionBump { from: 1 },
        VersionBump { from: 0 },
        VersionBump { from: 0 },
        VersionBump { from: 1 },
    ];
    assert_eq!(migrate(&mut store, 2, twice), Ok(MigrationReport { from: 0, to: 2, steps: 2 }));
    assert_eq!(store.write_count(), 2);
}
