use kvs_log::kv_log::KvStore;

// The multi-segment engine exercised through the same key-value workload as
// the networked servers drive it with.

fn reopen(store: KvStore) -> KvStore {
    KvStore::open(store.into_segments()).unwrap()
}

fn total_size(store: &KvStore) -> u64 {
    store.segment_sizes().iter().sum()
}

#[test]
fn kvs_get_stored_value() {
    let mut store = KvStore::new();

    store.set("key1".to_owned(), "value1".to_owned()).unwrap();
    store.set("key2".to_owned(), "value2".to_owned()).unwrap();

    assert_eq!(store.get("key1".to_owned()).unwrap(), Some("value1".to_owned()));
    assert_eq!(store.get("key2".to_owned()).unwrap(), Some("value2".to_owned()));

    let store = reopen(store);
    assert_eq!(store.get("key1".to_owned()).unwrap(), Some("value1".to_owned()));
    assert_eq!(store.get("key2".to_owned()).unwrap(), Some("value2".to_owned()));
}

#[test]
fn kvs_overwrite_value() {
    let mut store = KvStore::new();

    store.set("key1".to_owned(), "value1".to_owned()).unwrap();
    assert_eq!(store.get("key1".to_owned()).unwrap(), Some("value1".to_owned()));
    store.set("key1".to_owned(), "value2".to_owned()).unwrap();
    assert_eq!(store.get("key1".to_owned()).unwrap(), Some("value2".to_owned()));

    let mut store = reopen(store);
    assert_eq!(store.get("key1".to_owned()).unwrap(), Some("value2".to_owned()));
    store.set("key1".to_owned(), "value3".to_owned()).unwrap();
    assert_eq!(store.get("key1".to_owned()).unwrap(), Some("value3".to_owned()));
}

#[test]
fn kvs_get_non_existent_value() {
    let mut store = KvStore::new();

    store.set("key1".to_owned(), "value1".to_owned()).unwrap();
    assert_eq!(store.get("key2".to_owned()).unwrap(), None);

    let store = reopen(store);
    assert_eq!(store.get("key2".to_owned()).unwrap(), None);
}

#[test]
fn kvs_remove_non_existent_key() {
    let mut store = KvStore::new();
    assert!(!store.remove("key1".to_owned()).unwrap());
}

#[test]
fn kvs_remove_key() {
    let mut store = KvStore::new();
    store.set("key1".to_owned(), "value1".to_owned()).unwrap();
    assert!(store.remove("key1".to_owned()).is_ok());
    assert_eq!(store.get("key1".to_owned()).unwrap(), None);
}

// Repeatedly overwrite one key until the store rotates and compacts, then
// check the value survives a reopen.
#[test]
fn kvs_compaction() {
    let mut store = KvStore::new();

    let key = "key".to_owned();
    let value = "value".repeat(20000);
    let initial_size = total_size(&store);
    let mut compaction_detected = false;
    let mut last_size = initial_size;
    for _iter in 0..100 {
        store.set(key.clone(), value.clone()).unwrap();
        let new_size = total_size(&store);
        if new_size < last_size {
            compaction_detected = true;
            break;
        }
        last_size = new_size;
    }
    assert!(compaction_detected, "No compaction detected!");

    let store = reopen(store);
    assert_eq!(store.get(key).unwrap(), Some(value));
}
