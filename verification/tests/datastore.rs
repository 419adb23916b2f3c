use replibyte::datastore::{Datastore, MemoryStore};
use replibyte::error::StoreError;

#[test]
fn put_then_get_gives_the_bytes_back() {
    let mut store = MemoryStore::new();
    assert_eq!(store.init(), Ok(()));
    assert_eq!(store.get(b"a"), Ok(None));
    assert_eq!(store.contains(b"a"), Ok(false));
    assert_eq!(store.put(b"a", b"one"), Ok(()));
    assert_eq!(store.get(b"a"), Ok(Some(b"one".to_vec())));
    assert_eq!(store.contains(b"a"), Ok(true));
    assert_eq!(store.len(), 1);
}

#[test]
fn put_replaces_what_was_there() {
    let mut store = MemoryStore::new();
    store.put(b"a", b"one").unwrap();
    store.put(b"b", b"two").unwrap();
    store.put(b"a", b"three").unwrap();
    assert_eq!(store.get(b"a"), Ok(Some(b"three".to_vec())));
    assert_eq!(store.get(b"b"), Ok(Some(b"two".to_vec())));
    assert_eq!(store.len(), 2);
}

#[test]
fn list_is_in_dictionary_order_whatever_the_order_of_writes() {
    let mut store = MemoryStore::new();
    for key in ["m/2", "z", "m/10", "a", "m/1", "m", "m/"] {
        store.put(key.as_bytes(), b"x").unwrap();
    }
    assert_eq!(
        store.list(b"m/"),
        Ok(vec![b"m/".to_vec(), b"m/1".to_vec(), b"m/10".to_vec(), b"m/2".to_vec()])
    );
    assert_eq!(store.list(b"q"), Ok(Vec::new()));
    assert_eq!(store.list(b"").unwrap().len(), 7);
    assert_eq!(store.list(b"").unwrap()[0], b"a".to_vec());
}

#[test]
fn delete_removes_and_succeeds_where_nothing_is() {
    let mut store = MemoryStore::new();
    store.put(b"a", b"one").unwrap();
    store.put(b"b", b"two").unwrap();
    assert_eq!(store.delete(b"a"), Ok(()));
    assert_eq!(store.get(b"a"), Ok(None));
    assert_eq!(store.get(b"b"), Ok(Some(b"two".to_vec())));
    assert_eq!(store.delete(b"a"), Ok(()));
    assert_eq!(store.len(), 1);
}

#[test]
fn locked_keys_refuse_writes_and_keep_their_object() {
    let mut store = MemoryStore::new();
    store.put(b"a", b"one").unwrap();
    store.lock(b"a");
    store.lock(b"c");
    assert!(store.is_locked(b"a"));
    assert!(!store.is_locked(b"b"));
    assert_eq!(store.put(b"a", b"two"), Err(StoreError::Fatal));
    assert_eq!(store.delete(b"a"), Err(StoreError::Fatal));
    assert_eq!(store.put(b"c", b"x"), Err(StoreError::Fatal));
    assert_eq!(store.get(b"a"), Ok(Some(b"one".to_vec())));
    assert_eq!(store.get(b"c"), Ok(None));
    assert_eq!(store.put(b"b", b"ok"), Ok(()));
    store.unlock_all();
    assert_eq!(store.put(b"a", b"two"), Ok(()));
    assert_eq!(store.get(b"a"), Ok(Some(b"two".to_vec())));
}

#[test]
fn writes_are_counted_reads_are_not() {
    let mut store = MemoryStore::new();
    assert_eq!(store.write_count(), 0);
    store.put(b"a", b"one").unwrap();
    store.lock(b"b");
    let _ = store.put(b"b", b"two");
    store.delete(b"zzz").unwrap();
    let _ = store.get(b"a");
    let _ = store.list(b"");
    let _ = store.contains(b"a");
    let _ = store.init();
    assert_eq!(store.write_count(), 3);
}

#[test]
fn listing_filters_sorts_and_drops_repeats() {
    let keys: Vec<Vec<u8>> = ["m/2", "z", "m/10", "a", "m/1", "m", "m/", "m/10", "m/2"]
        .iter()
        .map(|k| k.as_bytes().to_vec())
        .collect();
    assert_eq!(
        replibyte::datastore::listed(&keys, b"m/"),
        vec![b"m/".to_vec(), b"m/1".to_vec(), b"m/10".to_vec(), b"m/2".to_vec()]
    );
    assert_eq!(replibyte::datastore::listed(&keys, b"q"), Vec::<Vec<u8>>::new());
    assert_eq!(replibyte::datastore::listed(&keys, b"").len(), 7);
    assert_eq!(replibyte::datastore::listed(&Vec::new(), b""), Vec::<Vec<u8>>::new());
}
