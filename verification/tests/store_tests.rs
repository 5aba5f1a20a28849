use kvs::engine::KvStore;
use kvs::error::KvsError;
use kvs::segment::{extract_log_number, segment_file_name, SegmentFile};

const THRESHOLD: u64 = 1024 * 1024;

fn fresh_store() -> KvStore {
    KvStore::open(Vec::new(), THRESHOLD).expect("opening an empty directory must succeed")
}

fn reopen(store: &KvStore) -> KvStore {
    KvStore::open(store.snapshot(), THRESHOLD).expect("reopening a snapshot must succeed")
}

// Should get previously stored value, before and after a reopen.
#[test]
fn get_stored_value() {
    let mut store = fresh_store();

    store.set("key1".to_owned(), "value1".to_owned());
    store.set("key2".to_owned(), "value2".to_owned());

    assert_eq!(store.get("key1".to_owned()), Some("value1".to_owned()));
    assert_eq!(store.get("key2".to_owned()), Some("value2".to_owned()));

    // Open from the persisted image again and check the data survived.
    let store2 = reopen(&store);
    drop(store);
    assert_eq!(store2.get("key1".to_owned()), Some("value1".to_owned()));
    assert_eq!(store2.get("key2".to_owned()), Some("value2".to_owned()));
}

// Should overwrite an existent value, before and after a reopen.
#[test]
fn overwrite_value() {
    let mut store = fresh_store();

    store.set("key1".to_owned(), "value1".to_owned());
    assert_eq!(store.get("key1".to_owned()), Some("value1".to_owned()));
    store.set("key1".to_owned(), "value2".to_owned());
    assert_eq!(store.get("key1".to_owned()), Some("value2".to_owned()));

    // Open from the persisted image again and check the data survived.
    let mut store2 = reopen(&store);
    drop(store);
    assert_eq!(store2.get("key1".to_owned()), Some("value2".to_owned()));
    store2.set("key1".to_owned(), "value3".to_owned());
    assert_eq!(store2.get("key1".to_owned()), Some("value3".to_owned()));
}

// Should get `None` for a non-existent key, before and after a reopen.
#[test]
fn get_non_existent_value() {
    let mut store = fresh_store();

    store.set("key1".to_owned(), "value1".to_owned());
    assert_eq!(store.get("key2".to_owned()), None);

    let store2 = reopen(&store);
    drop(store);
    assert_eq!(store2.get("key2".to_owned()), None);
}

#[test]
fn remove_non_existent_key() {
    let mut store = fresh_store();
    assert!(store.remove("key1".to_owned()).is_err());
}

#[test]
fn remove_key() {
    let mut store = fresh_store();
    store.set("key1".to_owned(), "value1".to_owned());
    assert!(store.remove("key1".to_owned()).is_ok());
    assert_eq!(store.get("key1".to_owned()), None);
}

// Removing an absent key reports KeyNotFound and leaves the index unchanged.
#[test]
fn remove_absent_leaves_index() {
    let mut store = fresh_store();
    store.set("kept".to_owned(), "v".to_owned());
    let size_before = store.log_size();
    assert_eq!(store.remove("missing".to_owned()), Err(KvsError::KeyNotFound));
    assert_eq!(store.get("kept".to_owned()), Some("v".to_owned()));
    assert_eq!(store.log_size(), size_before);
}

// Insert data until the log crosses the compaction threshold, compact, and
// check that no live key is lost and the log did not grow.
#[test]
fn compaction() {
    let mut store = KvStore::open(Vec::new(), 2000).expect("open");

    for iter in 0..1000u32 {
        for key_id in 0..100u32 {
            let key = format!("key{}", key_id);
            let value = format!("{}", iter);
            store.set(key, value);
        }
        if !store.needs_compaction() {
            continue;
        }
        // Compaction triggered.
        let size_before = store.log_size();
        store.compact();
        let size_after = store.log_size();
        assert!(size_after <= size_before);

        for key_id in 0..100u32 {
            let key = format!("key{}", key_id);
            assert_eq!(store.get(key), Some(format!("{}", iter)));
        }

        // Reopen from the compacted image and check the content again.
        let store2 = reopen(&store);
        drop(store);
        for key_id in 0..100u32 {
            let key = format!("key{}", key_id);
            assert_eq!(store2.get(key), Some(format!("{}", iter)));
        }
        return;
    }

    panic!("No compaction detected");
}

// A set after a removal of the same key survives a reopen: the newest record
// wins the replay.
#[test]
fn reopen_after_remove_and_set() {
    let mut store = fresh_store();
    store.set("a".to_owned(), "1".to_owned());
    store.remove("a".to_owned()).unwrap();
    store.set("a".to_owned(), "2".to_owned());
    let store2 = reopen(&store);
    assert_eq!(store2.get("a".to_owned()), Some("2".to_owned()));
}

// A removal survives a reopen.
#[test]
fn reopen_after_remove() {
    let mut store = fresh_store();
    store.set("a".to_owned(), "1".to_owned());
    store.set("b".to_owned(), "2".to_owned());
    store.remove("a".to_owned()).unwrap();
    let store2 = reopen(&store);
    assert_eq!(store2.get("a".to_owned()), None);
    assert_eq!(store2.get("b".to_owned()), Some("2".to_owned()));
}

// A directory entry with a malformed segment aborts the open with a typed
// error; files whose names are not segment names are ignored.
#[test]
fn open_rejects_malformed_segment() {
    let garbage = SegmentFile { name: segment_file_name(1), data: vec![1, 2, 3] };
    match KvStore::open(vec![garbage], THRESHOLD) {
        Err(KvsError::Encoding) => {},
        other => panic!("expected an encoding error, got {:?}", other.map(|_| ())),
    }

    let ignored = SegmentFile { name: b"notes.txt".to_vec(), data: vec![1, 2, 3] };
    let store = KvStore::open(vec![ignored], THRESHOLD).expect("non-segment files are ignored");
    assert_eq!(store.get("a".to_owned()), None);
}

// Segment file names embed the sequence number and parse back to it.
#[test]
fn segment_name_roundtrip() {
    assert_eq!(segment_file_name(0), b"log-0.kvslog".to_vec());
    assert_eq!(segment_file_name(7), b"log-7.kvslog".to_vec());
    assert_eq!(segment_file_name(1234567890), b"log-1234567890.kvslog".to_vec());
    for seq in [0u64, 1, 9, 10, 99, 100, 12345, u64::MAX - 1] {
        assert_eq!(extract_log_number(&segment_file_name(seq)), Some(seq));
    }
}

#[test]
fn extract_log_number_rejects_other_names() {
    assert_eq!(extract_log_number(&b"log-12.kvslog".to_vec()), Some(12));
    assert_eq!(extract_log_number(&b"log-007.kvslog".to_vec()), Some(7));
    assert_eq!(extract_log_number(&b"log-.kvslog".to_vec()), None);
    assert_eq!(extract_log_number(&b"log-1x.kvslog".to_vec()), None);
    assert_eq!(extract_log_number(&b"log-1.kvslo".to_vec()), None);
    assert_eq!(extract_log_number(&b"lag-1.kvslog".to_vec()), None);
    assert_eq!(extract_log_number(&b"x".to_vec()), None);
    // One past u64::MAX overflows and is no segment name.
    assert_eq!(extract_log_number(&b"log-18446744073709551616.kvslog".to_vec()), None);
    assert_eq!(extract_log_number(&segment_file_name(u64::MAX)), Some(u64::MAX));
}

// Sequence numbers grow monotonically: reopening starts a fresh active
// segment after the newest one, and compaction advances past it.
#[test]
fn sequence_numbers_advance() {
    let mut store = fresh_store();
    assert_eq!(store.active.seq, 1);
    store.set("a".to_owned(), "1".to_owned());
    let store2 = reopen(&store);
    assert_eq!(store2.active.seq, 2);
    let mut store3 = reopen(&store2);
    assert_eq!(store3.active.seq, 3);
    store3.compact();
    assert_eq!(store3.active.seq, 5);
    assert_eq!(store3.sealed.len(), 1);
    assert_eq!(store3.get("a".to_owned()), Some("1".to_owned()));
}
