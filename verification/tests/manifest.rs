use easy_lsm::data_stores::file_name::{
    file_name, manifest_version, parse_u32, parse_u64, FileKind,
};
use easy_lsm::data_stores::key::Key;
use easy_lsm::data_stores::manifest::{
    latest_manifest, unreadable_manifest, AtomicUpdate, FileMetadata, Level, Manifest,
    MANIFEST_MAGIC,
};
use easy_lsm::data_stores::wal::{Wal, Writable, WAL_MAGIC};
use easy_lsm::data_stores::Loggable;
use easy_lsm::db::logs_to_recover;
use easy_lsm::err::{DbError, IoErrorKind};
use easy_lsm::text::{decimal_string, list_string};

#[test]
fn test_manifest_serialization() {
    let mut m = Manifest::new(1);
    m.wals = vec![1, 2, 3];

    let k1 = Key::new(b"a", 100);
    let k2 = Key::new(b"z", 200);

    m.levels.push(Level {
        files: vec![FileMetadata {
            file_id: 99,
            file_size: 1024,
            min_key: k1.clone(),
            max_key: k2.clone(),
        }],
    });

    let mut buf = Vec::new();
    m.encode(&mut buf);

    let mut reader = &buf[..];
    let decoded = Manifest::decode(&mut reader).unwrap();

    assert_eq!(decoded.wals, vec![1, 2, 3]);
    assert_eq!(decoded.levels.len(), 1);
    assert_eq!(decoded.levels[0].files.len(), 1);
    assert_eq!(decoded.levels[0].files[0].file_id, 99);

    // Verify Magic Number
    let magic_slice = &buf[0..4];
    let magic = u32::from_le_bytes(magic_slice.try_into().unwrap());
    assert_eq!(magic, MANIFEST_MAGIC, "Magic number mismatch");

    // Verify Checksum
    // Header is 6 * 4 = 24 bytes (Magic, Crc, Size, Ver, NumWals, NumLevels)
    // Body starts at 24.
    let body_slice = &buf[24..];
    let computed_crc = crc32fast::hash(body_slice);
    let stored_crc_slice = &buf[4..8];
    let stored_crc = u32::from_le_bytes(stored_crc_slice.try_into().unwrap());
    assert_eq!(stored_crc, computed_crc, "CRC mismatch");
}

#[test]
fn test_invalid_manifest_errors() {
    // A directory with a corrupt manifest file
    let names = vec![b"00001.mf".to_vec()];
    let contents = b"garbage data";

    let found = latest_manifest(&names).unwrap();
    assert_eq!(found, 0);
    let result = match Manifest::try_open(contents, b"00001", "00001.mf") {
        Ok(_) => panic!("Expected ManifestReadError, got Ok"),
        Err(e) => {
            assert!(matches!(e, DbError::ManifestCorrupted));
            unreadable_manifest("\"00001.mf\"", "Manifest corrupted")
        }
    };
    match result {
        DbError::ManifestReadError(msg) => {
            assert!(msg.contains("Failed to open manifest"));
            assert_eq!(
                msg,
                "Failed to open manifest at \"00001.mf\": Manifest corrupted. \
                 Please delete this file and retry."
            );
        }
        e => panic!("Expected ManifestReadError, got {:?}", e),
    }
}

#[test]
fn damaged_manifests_are_refused() {
    let mut m = Manifest::new(5);
    m.levels.push(Level::default());
    let mut good = Vec::new();
    m.encode(&mut good);
    assert_eq!(good.len(), 24 + 8 + 8);
    let decode = |bytes: &[u8]| Manifest::decode(&mut &bytes[..]);

    let decoded = decode(&good).unwrap();
    assert_eq!((decoded.next_wal_id, decoded.next_sstable_id, decoded.version), (0, 0, 0));
    for n in 0..good.len() {
        assert!(matches!(decode(&good[..n]), Err(DbError::Io(IoErrorKind::UnexpectedEof))));
    }
    for (place, wrong) in [(0, 0xFF), (4, 0xFF), (12, 1), (30, 0xFF)] {
        let mut bad = good.clone();
        bad[place] ^= wrong;
        assert!(matches!(decode(&bad), Err(DbError::ManifestCorrupted)));
    }
    // The counts in the header are not looked at.
    let mut counts = good.clone();
    counts[16] = 9;
    counts[20] = 9;
    assert!(decode(&counts).is_ok());
}

#[test]
fn opening_recovers_the_counters() {
    let mut m = Manifest::new(0);
    m.wals = vec![4, 9, 2];
    let file = |id| FileMetadata {
        file_id: id,
        file_size: 1,
        min_key: Key::new(b"a", 1),
        max_key: Key::new(b"b", 1),
    };
    m.levels.push(Level { files: vec![file(3), file(17)] });
    m.levels.push(Level { files: vec![file(5)] });
    let (name, contents) = m.write_to_disk(12);
    assert_eq!(name, b"00012.mf");
    let opened = Manifest::try_open(&contents, b"00012", "p").unwrap().unwrap();
    assert_eq!((opened.version, opened.next_wal_id, opened.next_sstable_id), (12, 10, 18));
    match Manifest::try_open(&contents, b"twelve", "dir/twelve.mf") {
        Err(DbError::ManifestReadError(m)) => {
            assert_eq!(m, "Invalid manifest file name: dir/twelve.mf")
        }
        _ => panic!("the name is no number"),
    }
    m.wals.push(u32::MAX);
    assert!(!m.has_free_ids());
    let (_, contents) = m.write_to_disk(1);
    assert!(Manifest::try_open(&contents, b"1", "p").unwrap().is_none());

    let empty =
        Manifest { wals: vec![], levels: vec![], next_wal_id: 0, next_sstable_id: 0, version: 0 };
    let (_, contents) = empty.write_to_disk(0);
    let opened = Manifest::try_open(&contents, b"0", "p").unwrap().unwrap();
    assert_eq!((opened.next_wal_id, opened.next_sstable_id), (1, 1));
}

#[test]
fn a_pristine_start_has_one_log() {
    let start = Manifest::prepare_pristine_start();
    assert_eq!(start.manifest.wals, vec![0]);
    assert_eq!(start.manifest.next_wal_id(), 1);
    assert_eq!(start.manifest_name, b"00000.mf");
    assert_eq!(start.wal_name, b"00000.wal");
    assert_eq!(start.wal_contents, WAL_MAGIC.to_le_bytes());
    let reopened = Manifest::try_open(&start.manifest_contents, b"00000", "p").unwrap().unwrap();
    assert_eq!(reopened.wals, vec![0]);
    assert_eq!((reopened.next_wal_id, reopened.version), (1, 0));
}

#[test]
fn the_latest_manifest_is_found() {
    let names = |list: &[&str]| list.iter().map(|n| n.as_bytes().to_vec()).collect::<Vec<_>>();
    assert_eq!(latest_manifest(&names(&[])), None);
    assert_eq!(latest_manifest(&names(&["00001.wal", ".mf", "a.mf", "1.mf.tmp"])), None);
    assert_eq!(latest_manifest(&names(&["00002.mf", "00010.mf", "9.mf"])), Some(1));
    // The last of equals.
    assert_eq!(latest_manifest(&names(&["7.mf", "00007.mf", "3.mf"])), Some(1));
    assert_eq!(manifest_version(b"+5.mf"), Some(5));
    assert_eq!(manifest_version(b"4294967296.mf"), None);
    assert_eq!(manifest_version(b"1.2.mf"), None);
}

#[test]
fn names_hold_padded_numbers() {
    assert_eq!(file_name(7, FileKind::Sstable), b"00007.sst");
    assert_eq!(file_name(12345, FileKind::Wal), b"12345.wal");
    assert_eq!(file_name(u32::MAX, FileKind::Manifest), b"4294967295.mf");
    for id in [0, 1, 99_999, 100_000, u32::MAX] {
        let name = file_name(id, FileKind::Manifest);
        assert_eq!(name, format!("{:05}.mf", id).as_bytes());
        assert_eq!(manifest_version(&name), Some(id));
    }
    for text in ["", "+", "-1", "1x", " 1", "+1", "00", "4294967295", "4294967296",
        "18446744073709551615", "18446744073709551616", "99999999999999999999999"] {
        assert_eq!(parse_u32(text.as_bytes()), text.parse::<u32>().ok());
        assert_eq!(parse_u64(text.as_bytes()), text.parse::<u64>().ok());
    }
}

#[test]
fn numbers_read_as_decimal_text() {
    for n in [0, 9, 10, 105, u64::MAX] {
        assert_eq!(decimal_string(n), n.to_string());
    }
    for ids in [vec![], vec![3], vec![1, 20, 300]] {
        assert_eq!(list_string(&ids), format!("{:?}", ids));
    }
}

#[test]
fn a_new_log_counts_as_a_version_only_when_it_is_written() {
    let mut m = Manifest::new(0);
    m.version = 4;
    let (wal, _) = Wal::<Writable>::open(&[], 6).unwrap();
    let (name, contents) = m.prepare_new_wal(&wal);
    assert_eq!(name, b"00005.mf");
    assert_eq!(Manifest::decode(&mut &contents[..]).unwrap().wals, vec![0, 6]);
    assert!(m.commit_new_wal(&wal, Ok(())).is_ok());
    assert_eq!((m.wals.clone(), m.version), (vec![0, 6], 5));
    assert_eq!(m.next_wal_id(), 7);
    let failed = m.commit_new_wal(&wal, Err(DbError::Io(IoErrorKind::NotFound)));
    assert!(matches!(failed, Err(DbError::Io(IoErrorKind::NotFound))));
    assert_eq!((m.wals.clone(), m.version), (vec![0, 6, 6], 5));
}

#[test]
fn no_two_logs_are_given_the_same_number() {
    let mut m = Manifest::new(0);
    for expected in 1..4 {
        let id = m.next_wal_id();
        assert_eq!(id, expected);
        let (wal, _) = Wal::<Writable>::open(&[], id).unwrap();
        m.commit_new_wal(&wal, Ok(())).unwrap();
    }
    assert_eq!(m.wals, vec![0, 1, 2, 3]);
    assert_eq!(m.next_wal_id(), 4);
    // A number below those in use changes nothing, and a log that is listed has its number
    // even where the manifest could not be written.
    let (wal, _) = Wal::<Writable>::open(&[], 2).unwrap();
    m.commit_new_wal(&wal, Ok(())).unwrap();
    assert_eq!(m.next_wal_id(), 4);
    let (wal, _) = Wal::<Writable>::open(&[], 4).unwrap();
    assert!(m.commit_new_wal(&wal, Err(DbError::Io(IoErrorKind::NotFound))).is_err());
    assert_eq!(m.next_wal_id(), 5);
}

#[test]
fn an_update_gives_up_after_three_attempts() {
    let mut update = AtomicUpdate::new();
    for _ in 0..3 {
        assert!(update.start_attempt().is_ok());
    }
    assert!(matches!(
        update.start_attempt(),
        Err(DbError::Io(IoErrorKind::RetriesExceeded))
    ));

    let mut current = Manifest::new(0);
    let mut candidate = current.clone();
    candidate.wals.push(8);
    candidate.advance_version();
    assert!(!current.compare_and_swap(9, &candidate));
    assert_eq!(current.wals, vec![0]);
    assert!(current.compare_and_swap(0, &candidate));
    assert_eq!((current.wals.clone(), current.version), (vec![0, 8], 1));
}

#[test]
fn the_last_log_is_the_active_one() {
    let mut m = Manifest::new(3);
    assert_eq!(logs_to_recover(&m).unwrap(), (vec![], 3));
    m.wals = vec![3, 5, 8];
    assert_eq!(logs_to_recover(&m).unwrap(), (vec![3, 5], 8));
    m.wals.clear();
    assert!(matches!(
        logs_to_recover(&m),
        Err(DbError::DataCorrupted(text)) if text == "Manifest contains no WALs"
    ));
}
