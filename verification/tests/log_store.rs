use kvs_log::codec::{serialize, Command};
use kvs_log::kv_log::KvStore;

// Reopens a store from its own segments, as a restart would from the
// storage directory.
fn reopen(store: KvStore) -> KvStore {
    KvStore::open(store.into_segments()).unwrap()
}

fn total_size(store: &KvStore) -> u64 {
    store.segment_sizes().iter().sum()
}

// Each write appends exactly the serialized record at the end of the
// active segment: the segment bytes are the concatenation of the records.
#[test]
fn writes_append_exact_records() {
    let mut store = KvStore::new();
    store.set("k1".to_owned(), "v1".to_owned()).unwrap();
    store.set("k2".to_owned(), "v2".to_owned()).unwrap();
    assert!(store.remove("k1".to_owned()).unwrap());

    let mut expected = serialize(&Command::Put { key: "k1".to_owned(), value: "v1".to_owned() });
    expected.extend(serialize(&Command::Put { key: "k2".to_owned(), value: "v2".to_owned() }));
    expected.extend(serialize(&Command::Remove { key: "k1".to_owned() }));

    let segments = store.into_segments();
    assert_eq!(segments.len(), 1);
    assert_eq!(segments[0].file_idx, 1);
    assert_eq!(segments[0].data, expected);
}

// Should get previously stored value.
#[test]
fn get_stored_value() {
    let mut store = KvStore::new();

    store.set("key1".to_owned(), "value1".to_owned()).unwrap();
    store.set("key2".to_owned(), "value2".to_owned()).unwrap();

    assert_eq!(store.get("key1".to_owned()).unwrap(), Some("value1".to_owned()));
    assert_eq!(store.get("key2".to_owned()).unwrap(), Some("value2".to_owned()));

    // Open from the persisted segments again and check the data survives.
    let store = reopen(store);
    assert_eq!(store.get("key1".to_owned()).unwrap(), Some("value1".to_owned()));
    assert_eq!(store.get("key2".to_owned()).unwrap(), Some("value2".to_owned()));
}

// Should overwrite existent value.
#[test]
fn overwrite_value() {
    let mut store = KvStore::new();

    store.set("key1".to_owned(), "value1".to_owned()).unwrap();
    assert_eq!(store.get("key1".to_owned()).unwrap(), Some("value1".to_owned()));
    store.set("key1".to_owned(), "value2".to_owned()).unwrap();
    assert_eq!(store.get("key1".to_owned()).unwrap(), Some("value2".to_owned()));

    // Open from the persisted segments again and check the data survives.
    let mut store = reopen(store);
    assert_eq!(store.get("key1".to_owned()).unwrap(), Some("value2".to_owned()));
    store.set("key1".to_owned(), "value3".to_owned()).unwrap();
    assert_eq!(store.get("key1".to_owned()).unwrap(), Some("value3".to_owned()));
}

// Should get `None` when getting a non-existent key.
#[test]
fn get_non_existent_value() {
    let mut store = KvStore::new();

    store.set("key1".to_owned(), "value1".to_owned()).unwrap();
    assert_eq!(store.get("key2".to_owned()).unwrap(), None);

    // Open from the persisted segments again and check the data survives.
    let store = reopen(store);
    assert_eq!(store.get("key2".to_owned()).unwrap(), None);
}

#[test]
fn remove_non_existent_key() {
    let mut store = KvStore::new();
    assert!(!store.remove("key1".to_owned()).unwrap());
}

#[test]
fn remove_key() {
    let mut store = KvStore::new();
    store.set("key1".to_owned(), "value1".to_owned()).unwrap();
    assert!(store.remove("key1".to_owned()).is_ok());
    assert_eq!(store.get("key1".to_owned()).unwrap(), None);
}

// Insert data until the total size of the segments decreases.
// Test data correctness after compaction.
#[test]
fn compaction() {
    let mut store = KvStore::new();

    let mut current_size = total_size(&store);
    for iter in 0..100 {
        for key_id in 0..10 {
            let key = format!("key{}", key_id);
            let value = format!("value{}-{}", key_id, iter).repeat(10000);
            store.set(key, value).unwrap();
        }

        let new_size = total_size(&store);
        if new_size > current_size {
            current_size = new_size;
            continue;
        }
        // Compaction triggered.

        // Reopen and check content.
        let store = reopen(store);
        for key_id in 0..10 {
            let key = format!("key{}", key_id);
            assert_eq!(
                store.get(key).unwrap(),
                Some(format!("value{}-{}", key_id, iter).repeat(10000))
            );
        }
        return;
    }

    panic!("No compaction detected");
}
