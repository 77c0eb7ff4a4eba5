use easy_lsm::data_stores::key::Key;
use easy_lsm::data_stores::value::Value;
use easy_lsm::data_stores::wal::{ReadOnly, Wal, Writable, WAL_MAGIC};
use easy_lsm::db::{replay_immutable_wal, replay_mutable_wal};
use easy_lsm::err::{DbError, IoErrorKind};

fn open_and_append(contents: &mut Vec<u8>, id: u32, entries: &[(Key, Value)]) {
    let (wal, header) = Wal::<Writable>::open(contents, id).unwrap();
    assert_eq!(wal.id, id);
    contents.extend_from_slice(&header);
    for (key, value) in entries {
        Wal::<Writable>::encode_entry(contents, key, value).unwrap();
    }
}

#[test]
fn test_wal_write_read_correctness() {
    let mut file = Vec::new();
    let k1 = Key::new(b"key1", 1);
    let v1 = Value::new(b"value1");
    open_and_append(&mut file, 1, &[(k1, v1)]);

    let wal = Wal::<ReadOnly>::open(b"00001", file);
    assert_eq!(wal.id, 1);
    let mut iter = wal.try_iter().unwrap();
    let (rk1, rv1) = iter.next().unwrap().unwrap();

    assert_eq!(rk1.lsn, 1);
    match rv1 {
        Value::Bytes(b) => assert_eq!(&*b, b"value1"),
        _ => panic!("Wrong value type"),
    }
    assert!(iter.next().is_none());
}

#[test]
fn test_wal_crc_mismatch() {
    let mut file = Vec::new();
    let k1 = Key::new(b"key1", 100);
    let v1 = Value::new(b"value1");
    open_and_append(&mut file, 2, &[(k1, v1)]);

    // Corrupt the file
    file[4] = b"\xFF"[0];

    // Try read
    let wal = Wal::<ReadOnly>::open(b"00002", file);
    let mut iter = wal.try_iter().unwrap();
    let res = iter.next().unwrap();
    assert!(matches!(res, Err(DbError::DataCorrupted(msg)) if msg.contains("CRC mismatch")));
}

#[test]
fn test_wal_truncated_entry() {
    let mut file = Vec::new();
    let k1 = Key::new(b"key1", 100);
    let v1 = Value::new(b"value1");
    open_and_append(&mut file, 3, &[(k1, v1)]);

    // Truncate file in the middle of data
    let len = file.len();
    file.truncate(len - 2);

    let wal = Wal::<ReadOnly>::open(b"00003", file);
    let mut iter = wal.try_iter().unwrap();
    assert!(iter.next().is_none());
}

#[test]
fn test_wal_truncated_payload() {
    let mut file = Vec::new();
    let k1 = Key::new(b"key1", 100);
    let v1 = Value::new(b"value1");
    open_and_append(&mut file, 4, &[(k1, v1)]);

    // Cut off last byte of value
    let len = file.len();
    file.truncate(len - 1);

    let wal = Wal::<ReadOnly>::open(b"00004", file);
    let mut iter = wal.try_iter().unwrap();
    // Should be None (treated as incomplete entry = end of log)
    assert!(iter.next().is_none());
}

#[test]
fn test_wal_persistence_across_restarts() {
    let mut file = Vec::new();
    open_and_append(&mut file, 5, &[(Key::new(b"key1", 101), Value::new(b"val1"))]);

    // Re-open as writable (append mode simulation)
    open_and_append(&mut file, 5, &[(Key::new(b"key2", 102), Value::new(b"val2"))]);

    // Read all
    let wal = Wal::<ReadOnly>::open(b"00005", file);
    let mut iter = wal.try_iter().unwrap();

    let (rk1, rv1) = iter.next().unwrap().unwrap();
    assert_eq!(rk1.lsn, 101);
    match rv1 {
        Value::Bytes(b) => assert_eq!(&*b, b"val1"),
        _ => panic!("Wrong value type"),
    }

    let (rk2, rv2) = iter.next().unwrap().unwrap();
    assert_eq!(rk2.lsn, 102);
    match rv2 {
        Value::Bytes(b) => assert_eq!(&*b, b"val2"),
        _ => panic!("Wrong value type"),
    }

    assert!(iter.next().is_none());
}

#[test]
fn an_entry_is_a_checksum_a_key_and_a_value() {
    let mut file = Vec::new();
    open_and_append(&mut file, 6, &[(Key::new(b"k", 0x0102), Value::new(b"vw"))]);
    assert_eq!(&file[0..4], &WAL_MAGIC.to_le_bytes());
    let body = [2, 1, 0, 0, 0, 0, 0, 0, 1, 0, b'k', 0, 2, 0, 0, 0, b'v', b'w'];
    assert_eq!(&file[4..8], &crc32fast::hash(&body).to_le_bytes());
    assert_eq!(&file[8..], &body);
}

#[test]
fn logs_without_the_magic_number_are_refused() {
    let too_short = Wal::<ReadOnly>::open(b"1", vec![0xBE, 0xBA]);
    assert!(matches!(too_short.try_iter(), Err(DbError::Io(IoErrorKind::UnexpectedEof))));
    let other = Wal::<ReadOnly>::open(b"1", vec![1, 2, 3, 4]);
    assert!(matches!(other.try_iter(), Err(DbError::DataCorrupted(m)) if m == "Invalid WAL Magic"));
    assert!(matches!(
        Wal::<Writable>::open(&[0xBE, 0xBA], 1),
        Err(DbError::Io(IoErrorKind::UnexpectedEof))
    ));
    assert!(matches!(
        Wal::<Writable>::open(&[1, 2, 3, 4], 1),
        Err(DbError::DataCorrupted(m)) if m == "Invalid WAL Magic in mutable WAL"
    ));
    assert_eq!(Wal::<ReadOnly>::open(b"x", Vec::new()).id, 0);
}

#[test]
fn a_write_yields_a_receipt_only_where_it_was_synced() {
    let (wal, _) = Wal::<Writable>::open(&[], 1).unwrap();
    assert!(wal.write(Ok(())).is_ok());
    assert!(matches!(wal.write(Err(DbError::WriterPanic)), Err(DbError::WriterPanic)));
}

#[test]
fn every_prefix_of_a_log_replays_its_whole_entries() {
    let mut file = Vec::new();
    let values =
        [Value::new(b"one"), Value::Int(2), Value::Str("three".to_string()), Value::Tombstone];
    let mut ends = vec![4];
    for (i, value) in values.into_iter().enumerate() {
        let key = Key::new(format!("k{}", i).as_bytes(), 10 + i as u64);
        open_and_append(&mut file, 1, &[(key, value)]);
        ends.push(file.len());
    }
    for cut in 4..=file.len() {
        let whole = ends.iter().filter(|end| **end <= cut).count() - 1;
        let wal = Wal::<ReadOnly>::open(b"1", file[..cut].to_vec());
        let (mem, last) = replay_mutable_wal(&wal).unwrap();
        assert_eq!(mem.iter().len(), whole);
        assert_eq!(last, if whole == 0 { 0 } else { 9 + whole as u64 });
        assert_eq!(replay_immutable_wal(&wal).unwrap().iter().len(), whole);
    }
}

#[test]
fn a_damaged_log_fails_to_replay() {
    let mut file = Vec::new();
    open_and_append(&mut file, 1, &[(Key::new(b"k", 1), Value::new(b"v"))]);
    let n = file.len();
    file[n - 1] ^= 1;
    let wal = Wal::<ReadOnly>::open(b"1", file.clone());
    assert!(matches!(
        replay_mutable_wal(&wal),
        Err(DbError::DataCorrupted(m)) if m == "CRC mismatch"
    ));
    assert!(replay_immutable_wal(&wal).is_err());

    // A value of no known type.
    file[8 + 11] = 8;
    let wal = Wal::<ReadOnly>::open(b"1", file);
    let mut iter = wal.try_iter().unwrap();
    assert!(matches!(iter.next(), Some(Err(DbError::ManifestCorrupted))));
    assert!(iter.next().is_none());
}
