use kvs::store::{KvStore, KvStoreError, COMPACTION_THRESHOLD};

fn s(x: &str) -> String {
    x.to_string()
}

fn reopen(store: &KvStore) -> KvStore {
    KvStore::open(store.log_bytes().clone()).unwrap()
}

#[test]
fn example_scenario() {
    let mut store = KvStore::open(Vec::new()).unwrap();
    store.set(s("a"), s("1")).unwrap();
    store.set(s("b"), s("2")).unwrap();
    store.set(s("a"), s("3")).unwrap();
    assert_eq!(store.get(s("a")), Ok(Some(s("3"))));
    store.remove(s("b")).unwrap();
    assert_eq!(store.get(s("b")), Ok(None));
    let store = reopen(&store);
    assert_eq!(store.get(s("a")), Ok(Some(s("3"))));
    assert_eq!(store.get(s("b")), Ok(None));
}

#[test]
fn set_then_get_round_trip() {
    let mut store = KvStore::open(Vec::new()).unwrap();
    store.set(s("key"), s("value")).unwrap();
    assert_eq!(store.get(s("key")), Ok(Some(s("value"))));
    store.set(s(""), s("")).unwrap();
    assert_eq!(store.get(s("")), Ok(Some(s(""))));
    store.set(s("ключ"), s("значение ✓")).unwrap();
    assert_eq!(store.get(s("ключ")), Ok(Some(s("значение ✓"))));
}

#[test]
fn overwrite_counts_one_garbage() {
    let mut store = KvStore::open(Vec::new()).unwrap();
    store.set(s("k"), s("v1")).unwrap();
    assert_eq!(store.garbage(), 0);
    store.set(s("k"), s("v2")).unwrap();
    assert_eq!(store.garbage(), 1);
    assert_eq!(store.get(s("k")), Ok(Some(s("v2"))));
    store.set(s("other"), s("x")).unwrap();
    assert_eq!(store.garbage(), 1);
}

#[test]
fn tombstone_then_second_remove_fails() {
    let mut store = KvStore::open(Vec::new()).unwrap();
    store.set(s("k"), s("v")).unwrap();
    store.remove(s("k")).unwrap();
    assert_eq!(store.get(s("k")), Ok(None));
    assert_eq!(store.garbage(), 1);
    assert_eq!(store.remove(s("k")), Err(KvStoreError::RmKeyNotFoundError));
    assert_eq!(store.garbage(), 1);
}

#[test]
fn remove_on_empty_store_fails_and_changes_nothing() {
    let mut store = KvStore::open(Vec::new()).unwrap();
    assert_eq!(store.remove(s("missing")), Err(KvStoreError::RmKeyNotFoundError));
    assert!(store.log_bytes().is_empty());
    assert_eq!(store.get(s("missing")), Ok(None));
}

#[test]
fn open_on_empty_log() {
    let store = KvStore::open(Vec::new()).unwrap();
    assert_eq!(store.garbage(), 0);
    assert!(store.log_bytes().is_empty());
    assert_eq!(store.get(s("a")), Ok(None));
}

#[test]
fn record_bytes_are_message_pack() {
    let mut store = KvStore::open(Vec::new()).unwrap();
    store.set(s("a"), s("1")).unwrap();
    assert_eq!(store.log_bytes(), &vec![0x92, 0x00, 0x92, 0xa1, b'a', 0xa1, b'1']);
    store.remove(s("a")).unwrap();
    assert_eq!(
        store.log_bytes(),
        &vec![0x92, 0x00, 0x92, 0xa1, b'a', 0xa1, b'1', 0x92, 0x01, 0x91, 0xa1, b'a']
    );
}

#[test]
fn open_reads_message_pack_records() {
    let bytes = vec![0x92, 0x00, 0x92, 0xa1, b'x', 0xa2, b'4', b'2'];
    let store = KvStore::open(bytes.clone()).unwrap();
    assert_eq!(store.get(s("x")), Ok(Some(s("42"))));
    assert_eq!(store.log_bytes(), &bytes);
}

#[test]
fn replay_counts_garbage() {
    let mut store = KvStore::open(Vec::new()).unwrap();
    store.set(s("a"), s("1")).unwrap();
    store.set(s("a"), s("2")).unwrap();
    store.set(s("b"), s("1")).unwrap();
    store.remove(s("b")).unwrap();
    assert_eq!(store.garbage(), 2);
    let again = reopen(&store);
    assert_eq!(again.garbage(), 2);
    assert_eq!(again.log_bytes(), store.log_bytes());
    assert_eq!(again.get(s("a")), Ok(Some(s("2"))));
    assert_eq!(again.get(s("b")), Ok(None));
}

#[test]
fn compaction_keeps_live_keys_and_resets_garbage() {
    let mut store = KvStore::open(Vec::new()).unwrap();
    for i in 0..5 {
        store.set(format!("key{}", i), s("start")).unwrap();
    }
    let mut compacted = false;
    for round in 0..150 {
        let before = store.garbage();
        store.set(format!("key{}", round % 3), format!("value{}", round)).unwrap();
        if store.garbage() == 0 {
            assert_eq!(before + 1, COMPACTION_THRESHOLD);
            compacted = true;
        } else {
            assert_eq!(store.garbage(), before + 1);
        }
    }
    assert!(compacted);
    assert_eq!(store.get(s("key0")), Ok(Some(s("value147"))));
    assert_eq!(store.get(s("key1")), Ok(Some(s("value148"))));
    assert_eq!(store.get(s("key2")), Ok(Some(s("value149"))));
    assert_eq!(store.get(s("key3")), Ok(Some(s("start"))));
    assert_eq!(store.get(s("key4")), Ok(Some(s("start"))));
    let again = reopen(&store);
    assert_eq!(again.garbage(), store.garbage());
    for i in 0..5 {
        let k = format!("key{}", i);
        assert_eq!(again.get(k.clone()), store.get(k));
    }
}

#[test]
fn compaction_right_after_threshold() {
    let mut store = KvStore::open(Vec::new()).unwrap();
    store.set(s("keep"), s("kept")).unwrap();
    // The first `set` of "k" is live; each later one supersedes a record.
    for i in 0..=COMPACTION_THRESHOLD {
        store.set(s("k"), format!("{}", i)).unwrap();
    }
    assert_eq!(store.garbage(), 0);
    // Two live keys, two records.
    let expected_len = {
        let mut fresh = KvStore::open(Vec::new()).unwrap();
        fresh.set(s("keep"), s("kept")).unwrap();
        fresh.set(s("k"), format!("{}", COMPACTION_THRESHOLD)).unwrap();
        fresh.log_bytes().len()
    };
    assert_eq!(store.log_bytes().len(), expected_len);
    assert_eq!(store.get(s("keep")), Ok(Some(s("kept"))));
    assert_eq!(store.get(s("k")), Ok(Some(format!("{}", COMPACTION_THRESHOLD))));
}

#[test]
fn removes_trigger_compaction() {
    let mut store = KvStore::open(Vec::new()).unwrap();
    for i in 0..COMPACTION_THRESHOLD {
        store.set(format!("{}", i), s("v")).unwrap();
    }
    store.set(s("stay"), s("here")).unwrap();
    for i in 0..COMPACTION_THRESHOLD {
        store.remove(format!("{}", i)).unwrap();
    }
    assert_eq!(store.garbage(), 0);
    assert_eq!(store.get(s("stay")), Ok(Some(s("here"))));
    assert_eq!(store.get(s("0")), Ok(None));
    assert_eq!(reopen(&store).get(s("stay")), Ok(Some(s("here"))));
}

#[test]
fn open_compacts_a_log_with_much_garbage() {
    // A log written without compaction: the same records, concatenated.
    let mut bytes = Vec::new();
    for i in 0..(COMPACTION_THRESHOLD + 5) {
        let mut one = KvStore::open(Vec::new()).unwrap();
        one.set(s("k"), format!("{}", i)).unwrap();
        bytes.extend_from_slice(one.log_bytes());
    }
    let opened = KvStore::open(bytes).unwrap();
    assert_eq!(opened.garbage(), 0);
    assert_eq!(opened.get(s("k")), Ok(Some(format!("{}", COMPACTION_THRESHOLD + 4))));
}

#[test]
fn truncated_tail_is_dropped_on_open() {
    let mut store = KvStore::open(Vec::new()).unwrap();
    store.set(s("a"), s("1")).unwrap();
    store.set(s("b"), s("2")).unwrap();
    let complete = store.log_bytes().len();
    store.set(s("c"), s("a longer value")).unwrap();
    let mut bytes = store.log_bytes().clone();
    bytes.truncate(bytes.len() - 3);
    let opened = KvStore::open(bytes).unwrap();
    assert_eq!(opened.get(s("a")), Ok(Some(s("1"))));
    assert_eq!(opened.get(s("b")), Ok(Some(s("2"))));
    assert_eq!(opened.get(s("c")), Ok(None));
    assert_eq!(opened.log_bytes().len(), complete);
}

#[test]
fn writes_after_a_torn_tail_survive_reopen() {
    let mut store = KvStore::open(Vec::new()).unwrap();
    store.set(s("a"), s("1")).unwrap();
    let mut bytes = store.log_bytes().clone();
    bytes.push(0x92);
    let mut opened = KvStore::open(bytes).unwrap();
    opened.set(s("b"), s("2")).unwrap();
    let again = reopen(&opened);
    assert_eq!(again.get(s("a")), Ok(Some(s("1"))));
    assert_eq!(again.get(s("b")), Ok(Some(s("2"))));
}

#[test]
fn malformed_records_end_the_replay() {
    // A record with an unknown tag, then a valid one.
    let bytes = vec![0x92, 0x07, 0x91, 0xa1, b'a', 0x92, 0x00, 0x92, 0xa1, b'b', 0xa1, b'2'];
    let store = KvStore::open(bytes).unwrap();
    assert_eq!(store.get(s("b")), Ok(None));
    assert!(store.log_bytes().is_empty());
    let junk = KvStore::open(vec![0xc1, 0xff, 0x00]).unwrap();
    assert!(junk.log_bytes().is_empty());
    assert_eq!(junk.garbage(), 0);
}

#[test]
fn replay_of_remove_for_absent_key() {
    let bytes = vec![0x92, 0x01, 0x91, 0xa1, b'z'];
    let store = KvStore::open(bytes).unwrap();
    assert_eq!(store.get(s("z")), Ok(None));
    assert_eq!(store.garbage(), 1);
}
