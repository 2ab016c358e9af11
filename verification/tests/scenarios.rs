use kvs_log::errors::KvError;
use kvs_log::kv_log::KvStore;
use kvs_log::kv_log::Segment;

fn reopen(store: KvStore) -> KvStore {
    KvStore::open(store.into_segments()).unwrap()
}

// Missing key: on an empty storage a read finds nothing and a remove
// reports that nothing existed.
#[test]
fn missing_key_empty_store() {
    let mut store = KvStore::open(Vec::new()).unwrap();
    assert_eq!(store.get("absent".to_owned()).unwrap(), None);
    assert_eq!(store.remove("absent".to_owned()).unwrap(), false);
}

// Remove visibility: a removed key stays gone, also across a reopen.
#[test]
fn remove_visibility() {
    let mut store = KvStore::new();
    store.set("k".to_owned(), "v".to_owned()).unwrap();
    assert!(store.remove("k".to_owned()).unwrap());
    assert_eq!(store.get("k".to_owned()).unwrap(), None);

    let store = reopen(store);
    assert_eq!(store.get("k".to_owned()).unwrap(), None);
}

// Oversize record: a value of 5,000,000 bytes exceeds the segment cap, the
// write is rejected, and the key stays unset.
#[test]
fn oversize_record() {
    let mut store = KvStore::new();
    let value = "a".repeat(5_000_000);
    assert_eq!(store.set("big".to_owned(), value).unwrap_err(), KvError::RecordTooLarge);
    assert_eq!(store.get("big".to_owned()).unwrap(), None);
}

// Two resets in a row are equivalent to one.
#[test]
fn reset_twice() {
    let mut store = KvStore::new();
    store.set("k1".to_owned(), "v1".to_owned()).unwrap();
    store.set("k2".to_owned(), "v2".to_owned()).unwrap();

    store.reset().unwrap();
    assert_eq!(store.get("k1".to_owned()).unwrap(), None);
    let sizes_once = store.segment_sizes();

    store.reset().unwrap();
    assert_eq!(store.get("k1".to_owned()).unwrap(), None);
    assert_eq!(store.segment_sizes(), sizes_once);

    // The store keeps working after a reset.
    store.set("k1".to_owned(), "v3".to_owned()).unwrap();
    assert_eq!(store.get("k1".to_owned()).unwrap(), Some("v3".to_owned()));
}

// A reset store persists as an empty directory: reopening finds nothing.
#[test]
fn reset_then_reopen() {
    let mut store = KvStore::new();
    store.set("k".to_owned(), "v".to_owned()).unwrap();
    store.reset().unwrap();
    let segments = store.into_segments();
    assert!(segments.is_empty());
    let store = KvStore::open(segments).unwrap();
    assert_eq!(store.get("k".to_owned()).unwrap(), None);
}

// Unicode keys and values survive the UTF-8 round trip through the log.
#[test]
fn unicode_round_trip() {
    let mut store = KvStore::new();
    store.set("clé".to_owned(), "värde-Ω-𝄞".to_owned()).unwrap();
    let store = reopen(store);
    assert_eq!(store.get("clé".to_owned()).unwrap(), Some("värde-Ω-𝄞".to_owned()));
}

// Distinct keys force a rotation but leave nothing to reclaim: every key
// survives, across segments and across a reopen.
#[test]
fn rotation_keeps_distinct_keys() {
    let mut store = KvStore::new();
    let value = "x".repeat(100_000);
    for i in 0..50 {
        store.set(format!("key{}", i), value.clone()).unwrap();
    }
    assert!(store.segment_sizes().len() > 1, "expected a rotation");
    let store = reopen(store);
    for i in 0..50 {
        assert_eq!(store.get(format!("key{}", i)).unwrap(), Some(value.clone()));
    }
}

// A key set and removed within a sealed segment leaves a tombstone that
// compaction preserves: the key stays gone after a reopen.
#[test]
fn compaction_preserves_tombstones() {
    let mut store = KvStore::new();
    store.set("doomed".to_owned(), "v".to_owned()).unwrap();
    assert!(store.remove("doomed".to_owned()).unwrap());
    // Overwrite one key until the first segment is sealed and compacted.
    let filler = "f".repeat(100_000);
    for _ in 0..50 {
        store.set("filler".to_owned(), filler.clone()).unwrap();
    }
    assert!(store.segment_sizes().len() > 1, "expected a rotation");
    let store = reopen(store);
    assert_eq!(store.get("doomed".to_owned()).unwrap(), None);
    assert_eq!(store.get("filler".to_owned()).unwrap(), Some(filler));
}

// Compacting an already-compact sealed segment on demand is a no-op, and
// the data stays readable.
#[test]
fn compact_on_demand_noop() {
    let mut store = KvStore::new();
    let value = "x".repeat(100_000);
    for i in 0..50 {
        store.set(format!("key{}", i), value.clone()).unwrap();
    }
    assert!(store.segment_sizes().len() > 1, "expected a rotation");
    let sizes_before = store.segment_sizes();
    // The first segment was sealed by the rotation and compacted then;
    // compacting it again finds every record live and changes nothing.
    store.compact_log_file(1);
    assert_eq!(store.segment_sizes(), sizes_before);
    for i in 0..50 {
        assert_eq!(store.get(format!("key{}", i)).unwrap(), Some(value.clone()));
    }
}

// Opening a corrupt segment fails with the segment index and byte offset.
#[test]
fn corrupt_segment_rejected() {
    let segment = Segment { file_idx: 1, data: vec![120u8, 0, 0, 0] };
    match KvStore::open(vec![segment]) {
        Err(KvError::CorruptSegment { file_idx, offset }) => {
            assert_eq!(file_idx, 1);
            assert_eq!(offset, 0);
        },
        other => panic!("expected a corrupt-segment error, got {:?}", other.is_ok()),
    }
}
