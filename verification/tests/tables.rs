use easy_lsm::data_stores::bloom_filter::BloomFilter;
use easy_lsm::data_stores::key::Key;
use easy_lsm::data_stores::sstable::{
    BlockBuilder, BlockIterator, Sstable, SstableIterator, SstableWriter, FILTER_BITS,
    FILTER_PROBES,
};
use easy_lsm::data_stores::table_format::BLOCK_SIZE;
use easy_lsm::data_stores::value::Value;
use easy_lsm::err::{DbError, IoErrorKind};
use siphasher::sip::SipHasher13;
use std::hash::{Hash, Hasher};
use std::sync::Arc;

fn table(entries: &[(&[u8], u64, Value)]) -> Vec<u8> {
    let mut writer = SstableWriter::new();
    for (bytes, lsn, value) in entries {
        writer.write(&Key::new(bytes, *lsn), value).unwrap();
    }
    writer.finalize().unwrap().1
}

fn open(bytes: Vec<u8>) -> Sstable {
    Sstable::new(b"00001", bytes).unwrap()
}

#[test]
fn test_block_iterator() {
    let mut builder = BlockBuilder::new();
    let k1 = Key::new(b"key1", 100);
    let v1 = Value::new(b"val1");
    let k2 = Key::new(b"key2", 90);
    let v2 = Value::Tombstone;

    builder.add(&k1, &v1).unwrap();
    builder.add(&k2, &v2).unwrap();

    let (block_data, _, _) = builder.flush();
    // Block format: [len: u32][crc: u32][data...]
    let payload = &block_data[8..];
    let mut iter = BlockIterator::new(payload.to_vec());

    let (rk1, rv1) = iter.next().unwrap().unwrap();
    assert_eq!(rk1, k1);
    assert_eq!(format!("{:?}", rv1), format!("{:?}", v1));

    let (rk2, rv2) = iter.next().unwrap().unwrap();
    assert_eq!(rk2, k2);
    assert_eq!(format!("{:?}", rv2), format!("{:?}", v2));

    assert!(iter.next().is_none());
}

#[test]
fn test_sstable_iterator() {
    let mut writer = SstableWriter::new();

    // Enough data to span multiple blocks.
    let count = 1000;
    for i in 0..count {
        let key = Key::new(format!("key{:05}", i).as_bytes(), 100);
        let val = Value::new(format!("val{:05}", i).as_bytes());
        writer.write(&key, &val).unwrap();
    }
    let (_, bytes) = writer.finalize().unwrap();

    // Read back
    let sst = Sstable::new(b"00001", bytes).unwrap();
    let mut iter = SstableIterator::new(Arc::new(sst));

    for i in 0..count {
        let (k, v) = iter
            .next()
            .expect("Should have item")
            .expect("Should verify");

        let expected_key_bytes = format!("key{:05}", i).into_bytes();
        assert_eq!(&k.bytes[..], &expected_key_bytes[..]);

        let expected_val_bytes = format!("val{:05}", i).into_bytes();
        match v {
            Value::Bytes(b) => assert_eq!(&b[..], &expected_val_bytes[..]),
            _ => panic!("Expected Value::Bytes"),
        }
    }

    assert!(iter.next().is_none());
}

#[test]
fn builder_flush_frames_the_block_and_starts_over() {
    let mut builder = BlockBuilder::new();
    assert!(builder.is_empty());
    let (nothing, min, max) = builder.flush();
    assert!(nothing.is_empty() && min.is_none() && max.is_none());

    builder.add(&Key::new(b"a", 2), &Value::new(b"x")).unwrap();
    builder.add(&Key::new(b"b", 1), &Value::Tombstone).unwrap();
    assert!(!builder.is_empty() && !builder.is_full());
    let (data, min, max) = builder.flush();
    assert_eq!(min.unwrap(), Key::new(b"a", 2));
    assert_eq!(max.unwrap(), Key::new(b"b", 1));
    assert_eq!(data.len(), 8 + 17 + 16);
    assert_eq!(&data[0..4], &(4 + 33u32).to_le_bytes());
    assert_eq!(&data[4..8], &crc32fast::hash(&data[8..]).to_le_bytes());
    assert!(builder.is_empty());
}

#[test]
fn search_finds_the_newest_version() {
    let sst = open(table(&[
        (b"a", 5, Value::new(b"a5")),
        (b"a", 2, Value::new(b"a2")),
        (b"c", 9, Value::Tombstone),
        (b"c", 1, Value::new(b"c1")),
        (b"e", 3, Value::Int(-7)),
    ]));
    assert!(sst.is_searchable());
    match sst.search(b"a").unwrap() {
        Some(Value::Bytes(b)) => assert_eq!(b, b"a5"),
        other => panic!("{:?}", other),
    }
    assert!(matches!(sst.search(b"c"), Ok(Some(Value::Tombstone))));
    assert!(matches!(sst.search(b"e"), Ok(Some(Value::Int(-7)))));
    for missing in [&b""[..], b"0", b"b", b"d", b"f", b"aa"] {
        assert!(matches!(sst.search(missing), Ok(None)));
    }
    assert_eq!(*sst.min_key(), Key::new(b"a", 5));
    assert_eq!(*sst.max_key(), Key::new(b"e", 3));
}

#[test]
fn search_crosses_blocks() {
    let mut writer = SstableWriter::new();
    for i in 0..1000u32 {
        let key = Key::new(format!("k{:04}", 2 * i).as_bytes(), 7);
        writer.write(&key, &Value::Int(i as i64)).unwrap();
    }
    let sst = open(writer.finalize().unwrap().1);
    assert!(sst.index.len() > 3);
    for i in 0..1000u32 {
        let found = sst.search(format!("k{:04}", 2 * i).as_bytes()).unwrap();
        assert!(matches!(found, Some(Value::Int(n)) if n == i as i64));
        assert!(sst.search(format!("k{:04}", 2 * i + 1).as_bytes()).unwrap().is_none());
    }
}

#[test]
fn keys_out_of_order_are_refused() {
    let mut writer = SstableWriter::new();
    writer.write(&Key::new(b"b", 5), &Value::new(b"1")).unwrap();
    for key in [Key::new(b"b", 5), Key::new(b"b", 6), Key::new(b"a", 1)] {
        match writer.write(&key, &Value::new(b"2")) {
            Err(DbError::DataCorrupted(m)) => assert_eq!(m, "SSTable keys out of order"),
            other => panic!("{:?}", other),
        }
    }
    writer.write(&Key::new(b"b", 4), &Value::new(b"3")).unwrap();
    let mut iter = SstableIterator::new(Arc::new(open(writer.finalize().unwrap().1)));
    assert_eq!(iter.next().unwrap().unwrap().0, Key::new(b"b", 5));
    assert_eq!(iter.next().unwrap().unwrap().0, Key::new(b"b", 4));
    assert!(iter.next().is_none());
}

#[test]
fn an_entry_that_does_not_fit_starts_a_block() {
    let mut writer = SstableWriter::new();
    // 15 bytes of headers, a one-byte key, and the value.
    writer.write(&Key::new(b"a", 1), &Value::Bytes(vec![0; 3000 - 16])).unwrap();
    assert_eq!(writer.current_size().unwrap(), 0);
    writer.write(&Key::new(b"b", 1), &Value::Bytes(vec![0; 1097 - 16])).unwrap();
    // 3000 + 1097 bytes are one too many: the first block was written out.
    assert_eq!(writer.current_size().unwrap(), 3008);
    // 1097 + 2999 bytes fill a block exactly.
    writer.write(&Key::new(b"c", 1), &Value::Bytes(vec![0; 2999 - 16])).unwrap();
    assert_eq!(writer.current_size().unwrap(), 3008 + 8 + BLOCK_SIZE as u64);
    // An entry larger than a block has a block of its own.
    writer.write(&Key::new(b"d", 1), &Value::Bytes(vec![0; 10_000 - 16])).unwrap();
    assert_eq!(writer.current_size().unwrap(), 3008 + 4104 + 10_008);
    let sst = open(writer.finalize().unwrap().1);
    assert_eq!(sst.index.len(), 3);
    assert_eq!(sst.index[0].2, 0);
    assert_eq!(sst.index[1].2, 3008);
    assert_eq!(sst.index[2].2, 3008 + 4104);
    assert_eq!(sst.index[1].0, Key::new(b"b", 1));
    assert_eq!(sst.index[1].1, Key::new(b"c", 1));
}

#[test]
fn metadata_describes_the_table() {
    let mut writer = SstableWriter::new();
    writer.write(&Key::new(b"a", 4), &Value::new(b"1")).unwrap();
    writer.write(&Key::new(b"b", 2), &Value::new(b"2")).unwrap();
    let (meta, bytes) = writer.finalize().unwrap();
    assert_eq!(meta.file_id, 0);
    assert_eq!(meta.file_size as usize, bytes.len());
    assert_eq!(meta.min_key, Key::new(b"a", 4));
    assert_eq!(meta.max_key, Key::new(b"b", 2));
    let n = bytes.len();
    assert_eq!(&bytes[n - 4..], &[0x41, 0x42, 0x43, 0x44]);
    assert_eq!(&bytes[n - 8..n - 4], &crc32fast::hash(&bytes[n - 24..n - 8]).to_le_bytes());
    // One data block of 8 + 34 bytes, an index block of 8 + 22 + 30 bytes, and the filter.
    assert_eq!(&bytes[n - 24..n - 16], &42u64.to_le_bytes());
    assert_eq!(&bytes[n - 16..n - 8], &(42u64 + 60).to_le_bytes());
}

#[test]
fn an_empty_table_cannot_be_opened() {
    let (meta, bytes) = SstableWriter::new().finalize().unwrap();
    assert_eq!(meta.min_key, Key::new(b"", 0));
    assert_eq!(meta.max_key, Key::new(b"", 0));
    match Sstable::new(b"7", bytes) {
        Err(DbError::Io(kind)) => assert_eq!(kind, IoErrorKind::UnexpectedEof),
        _ => panic!("an index without a key range"),
    }
}

#[test]
fn damaged_tables_are_refused() {
    let good = table(&[(b"a", 1, Value::new(b"x")), (b"b", 1, Value::new(b"y"))]);
    let n = good.len();
    let corrupted =
        |bytes: Vec<u8>| matches!(Sstable::new(b"1", bytes), Err(DbError::ManifestCorrupted));

    assert!(corrupted(good[..23].to_vec()));
    let mut magic = good.clone();
    magic[n - 1] = 0;
    assert!(corrupted(magic));
    let mut offsets = good.clone();
    offsets[n - 24] ^= 1;
    assert!(corrupted(offsets));
    let mut filter = good.clone();
    filter[n - 30] ^= 1;
    assert!(corrupted(filter));
    let mut index = good.clone();
    index[42 + 9] ^= 1;
    assert!(corrupted(index));
    assert!(corrupted(good.clone()) == false);
    assert!(matches!(Sstable::new(b"x1", good.clone()), Err(DbError::ManifestCorrupted)));
    assert!(matches!(Sstable::new(b"4294967296", good.clone()), Err(DbError::ManifestCorrupted)));
    assert_eq!(Sstable::new(b"+00042", good.clone()).ok().unwrap().id, 42);

    // A footer that points past the end.
    let mut far = good.clone();
    let offsets = [1_000_000u64.to_le_bytes(), 1_000_000u64.to_le_bytes()].concat();
    far[n - 24..n - 8].copy_from_slice(&offsets);
    far[n - 8..n - 4].copy_from_slice(&crc32fast::hash(&offsets).to_le_bytes());
    assert!(matches!(Sstable::new(b"1", far), Err(DbError::Io(IoErrorKind::UnexpectedEof))));

    // A block whose length leaves no room for its checksum, or runs past the end.
    let mut short = good.clone();
    short[0..4].copy_from_slice(&3u32.to_le_bytes());
    assert!(matches!(open(short).search(b"a"), Err(DbError::ManifestCorrupted)));
    let mut long = good.clone();
    long[0..4].copy_from_slice(&(n as u32 - 3).to_le_bytes());
    assert!(matches!(
        open(long).search(b"a"),
        Err(DbError::Io(IoErrorKind::UnexpectedEof))
    ));
    let mut wrong = good.clone();
    wrong[0..4].copy_from_slice(&4u32.to_le_bytes());
    assert!(matches!(open(wrong).search(b"a"), Err(DbError::ManifestCorrupted)));

    // A data block that was damaged shows when it is read.
    let mut data = good;
    data[12] ^= 1;
    let sst = open(data);
    assert!(matches!(sst.search(b"a"), Err(DbError::ManifestCorrupted)));
    let mut iter = SstableIterator::new(Arc::new(sst));
    assert!(matches!(iter.next(), Some(Err(DbError::ManifestCorrupted))));
    assert!(matches!(iter.next(), Some(Err(DbError::ManifestCorrupted))));
}

#[test]
fn filter_parameters_follow_from_the_error_rate() {
    let ln2: f64 = 0.69314718056;
    let items = 1000.0f64;
    let bits = (items * (-1.0 * 0.01f64.ln() / (ln2 * ln2))).ceil() as u64;
    assert_eq!(bits, FILTER_BITS);
    assert_eq!((ln2 * bits as f64 / items).ceil() as u32, FILTER_PROBES);
}

#[test]
fn filter_sets_the_bits_of_the_hashes() {
    let mut filter = BloomFilter::with_size(9586, 7);
    assert_eq!(filter.bitmap.len(), 150);
    assert!(!filter.check(b"key"));
    filter.set(b"key");
    assert!(filter.check(b"key"));

    let mut expected = vec![0u64; 150];
    let hash = |k0: u64, k1: u64| {
        let mut hasher = SipHasher13::new_with_keys(k0, k1);
        b"key"[..].hash(&mut hasher);
        hasher.finish()
    };
    let h1 = hash(0x5068486940525249, 0x1234567890ABCDEF);
    let h2 = hash(0xFEDCBA0987654321, 0x1029384756102938);
    for i in 0..7u64 {
        let idx = h1.wrapping_add(i.wrapping_mul(h2)) % 9586;
        expected[(idx / 64) as usize] |= 1 << (idx % 64);
    }
    assert_eq!(filter.bitmap, expected);
}

#[test]
fn filter_has_no_false_negatives_and_survives_the_disk() {
    let mut filter = BloomFilter::with_size(9586, 7);
    for i in 0..500u32 {
        filter.set(&i.to_le_bytes());
    }
    let bytes = filter.serialize().unwrap();
    assert_eq!(bytes.len(), 8 + 150 * 8 + 8 + 4 + 32);
    let parts: (Vec<u64>, u64, u32, [(u64, u64); 2]) =
        (filter.bitmap.clone(), 9586, 7, filter.sip_keys);
    assert_eq!(bytes, bincode::serialize(&parts).unwrap());

    let mut longer = bytes.clone();
    longer.extend_from_slice(b"rest");
    for copy in [BloomFilter::deserialize(&bytes), BloomFilter::deserialize(&longer)] {
        let copy = copy.unwrap();
        assert_eq!(copy.bitmap, filter.bitmap);
        assert_eq!((copy.bitmap_bits, copy.k_num, copy.sip_keys), (9586, 7, filter.sip_keys));
        for i in 0..500u32 {
            assert!(copy.check(&i.to_le_bytes()));
        }
    }
    assert!(matches!(
        BloomFilter::deserialize(&bytes[..100]),
        Err(DbError::ManifestCorrupted)
    ));
    let mut invalid = filter;
    invalid.bitmap_bits = 0;
    assert!(!invalid.is_valid());
}

#[test]
fn a_key_sets_its_bits_and_no_others() {
    let mut filter = BloomFilter::with_size(FILTER_BITS, FILTER_PROBES);
    filter.set(b"first");
    let before = filter.bitmap.clone();
    filter.set(b"second");
    let mut probes = Vec::new();
    for i in 0..FILTER_PROBES as u64 {
        let [h1, h2] = filter.sip_keys.map(|(k0, k1)| {
            let mut hasher = SipHasher13::new_with_keys(k0, k1);
            b"second"[..].hash(&mut hasher);
            hasher.finish()
        });
        probes.push(h1.wrapping_add(i.wrapping_mul(h2)) % FILTER_BITS);
    }
    for j in 0..64 * before.len() as u64 {
        let bit = |words: &[u64]| words[j as usize / 64] & (1 << (j % 64)) != 0;
        assert_eq!(bit(&filter.bitmap), bit(&before) || probes.contains(&j));
    }
}

#[test]
fn setting_a_bit_changes_no_other() {
    let mut filter = BloomFilter::with_size(FILTER_BITS, FILTER_PROBES);
    for set in [0, 63, 64, 9585, 64 * 150 - 1] {
        let before = filter.clone();
        filter.set_bit(set);
        assert_eq!(filter.bitmap.len(), before.bitmap.len());
        for j in 0..64 * 150 {
            assert_eq!(filter.get_bit(j), j == set || before.get_bit(j));
        }
    }
}
