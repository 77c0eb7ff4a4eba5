use easy_lsm::data_stores::key::Key;
use easy_lsm::data_stores::memtable::Memtable;
use easy_lsm::data_stores::value::Value;
use easy_lsm::write_req::{WaitingToBeQueued, WriteRequest, Writer};

// Helper to create a request using Writer::new
fn create_req(lsn: u64, key: &[u8], val: Value) -> WriteRequest {
    let writer = Writer::<WaitingToBeQueued>::new(lsn, Key::new(key, lsn), val);
    writer.state.req
}

#[test]
fn test_memtable_basics() {
    let mut mem = Memtable::new();

    let req1 = create_req(1, b"key1", Value::Bytes(b"value1".to_vec()));
    let req2 = create_req(2, b"key2", Value::Str("value2".to_string()));

    mem.put_batch(&[req1, req2]);

    // Check finding key1
    let res1 = mem.get(b"key1");
    match res1 {
        Some(Value::Bytes(b)) => assert_eq!(&*b, b"value1"),
        v => panic!("Expected Bytes(value1), got {:?}", v),
    }

    // Check finding key2
    let res2 = mem.get(b"key2");
    match res2 {
        Some(Value::Str(s)) => assert_eq!(&*s, "value2"),
        v => panic!("Expected Str(value2), got {:?}", v),
    }

    // Check not finding key3
    assert!(mem.get(b"key3").is_none());
}

#[test]
fn test_memtable_overwrites() {
    let mut mem = Memtable::new();

    // Write version 1
    let req1 = create_req(100, b"key1", Value::Bytes(b"v1".to_vec()));
    mem.put_batch(&[req1]);

    if let Some(Value::Bytes(b)) = mem.get(b"key1") {
        assert_eq!(&*b, b"v1");
    } else {
        panic!("Should find v1");
    }

    // Write version 2
    let req2 = create_req(200, b"key1", Value::Bytes(b"v2".to_vec()));
    mem.put_batch(&[req2]);

    // Should find v2 (highest lsn)
    if let Some(Value::Bytes(b)) = mem.get(b"key1") {
        assert_eq!(&*b, b"v2");
    } else {
        panic!("Should find v2");
    }

    // Write version 3 (Str)
    let req3 = create_req(300, b"key1", Value::Str("v3".to_string()));
    mem.put_batch(&[req3]);

    if let Some(Value::Str(s)) = mem.get(b"key1") {
        assert_eq!(&*s, "v3");
    } else {
        panic!("Should find v3");
    }
}

#[test]
fn test_memtable_tombstones() {
    let mut mem = Memtable::new();

    // Write version 1
    let req1 = create_req(100, b"keyX", Value::Bytes(b"exist".to_vec()));
    mem.put_batch(&[req1]);
    assert!(mem.get(b"keyX").is_some());

    // Write tombstone
    let req2 = create_req(101, b"keyX", Value::Tombstone);
    mem.put_batch(&[req2]);

    // Should return None
    assert!(mem.get(b"keyX").is_none());
}

#[test]
fn an_older_version_does_not_shadow_a_newer_one() {
    let mut mem = Memtable::new();
    mem.recover(Key::new(b"k", 9), Value::new(b"new"));
    mem.recover(Key::new(b"k", 3), Value::new(b"old"));
    assert!(matches!(mem.get(b"k"), Some(Value::Bytes(b)) if b == b"new"));
    // The same version again takes the place of the first.
    mem.recover(Key::new(b"k", 9), Value::new(b"newer"));
    assert!(matches!(mem.get(b"k"), Some(Value::Bytes(b)) if b == b"newer"));
    assert_eq!(mem.iter().len(), 2);
    assert!(mem.get(b"").is_none());
    assert!(mem.get(b"ka").is_none());
}

#[test]
fn a_tombstone_is_the_latest_version() {
    let mut mem = Memtable::new();
    mem.recover(Key::new(b"k", 1), Value::new(b"v"));
    mem.recover(Key::new(b"k", u64::MAX), Value::Tombstone);
    assert!(mem.get(b"k").is_none());
    assert!(matches!(mem.latest(b"k"), Some(Value::Tombstone)));
    assert!(mem.latest(b"j").is_none());
}

#[test]
fn size_counts_headers_keys_and_values() {
    let mut mem = Memtable::new();
    assert_eq!(mem.size_bytes(), 0);
    mem.recover(Key::new(b"abc", 1), Value::new(b"12345"));
    assert_eq!(mem.size_bytes(), 10 + 3 + 5 + 5);
    mem.recover(Key::new(b"d", 2), Value::Int(1));
    assert_eq!(mem.size_bytes(), 23 + 10 + 1 + 5 + 8);
    mem.recover(Key::new(b"e", 3), Value::Tombstone);
    assert_eq!(mem.size_bytes(), 47 + 16);
    mem.recover(Key::new(b"f", 4), Value::Str("\u{e9}".to_string()));
    assert_eq!(mem.size_bytes(), 63 + 18);
    assert!(mem.del(&Key::new(b"abc", 1)).is_ok());
    assert_eq!(mem.size_bytes(), 81);
    let frozen = mem.freeze();
    assert_eq!(frozen.size_bytes(), 81);
    assert!(frozen.get(b"abc").is_some());
}

#[test]
fn a_batch_grows_the_memtable_by_each_of_its_entries() {
    let mut mem = Memtable::new();
    mem.put_batch(&[
        create_req(1, b"abc", Value::new(b"12345")),
        create_req(2, b"d", Value::Int(1)),
    ]);
    assert_eq!(mem.size_bytes(), 23 + 24);
    // The same version again counts again.
    mem.put_batch(&[create_req(2, b"d", Value::Int(2))]);
    assert_eq!(mem.size_bytes(), 47 + 24);
    mem.put_batch(&[]);
    assert_eq!(mem.size_bytes(), 71);
}

#[test]
fn entries_come_in_the_order_of_the_keys() {
    let mut mem = Memtable::new();
    for (key, lsn) in [(&b"b"[..], 1), (b"a", 5), (b"b", 7), (b"", 2), (b"ab", 3), (b"b", 4)] {
        mem.recover(Key::new(key, lsn), Value::Int(lsn as i64));
    }
    let keys: Vec<Key> = mem.iter().into_iter().map(|(k, _)| k).collect();
    assert_eq!(
        keys,
        vec![
            Key::new(b"", 2),
            Key::new(b"a", 5),
            Key::new(b"ab", 3),
            Key::new(b"b", 7),
            Key::new(b"b", 4),
            Key::new(b"b", 1),
        ]
    );
}
