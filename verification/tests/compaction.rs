use easy_lsm::compact::commit::{
    commit_compaction, commit_flush, compact_l0, compact_ln, drop_flushed, number_files,
    open_compacted, open_flushed, prepare_flush, sort_by_min_key, CompactionPlan,
};
use easy_lsm::compact::gc::{find_garbage, prepare_gc_snapshot, scan_manifests};
use easy_lsm::compact::merge::MergeIterator;
use easy_lsm::compact::output::{flush_memtable, write_merged, OutputError};
use easy_lsm::compact::{next_work, Work, TARGET_FILE_SIZE};
use easy_lsm::data_stores::file_name::{file_name, FileKind};
use easy_lsm::data_stores::key::Key;
use easy_lsm::data_stores::manifest::{FileMetadata, Level, Manifest};
use easy_lsm::data_stores::memtable::Memtable;
use easy_lsm::data_stores::sstable::{BlockIterator, Sstable, SstableIterator, SstableWriter};
use easy_lsm::data_stores::value::Value;
use easy_lsm::db::get;
use easy_lsm::err::DbError;
use std::collections::{BTreeMap, HashSet};
use std::sync::Arc;

type Files = BTreeMap<u32, Vec<u8>>;

fn stem(id: u32) -> Vec<u8> {
    format!("{:05}", id).into_bytes()
}

fn create_test_sst(files: &mut Files, id: u32, keys: Vec<(u64, u64)>) -> Sstable {
    let mut writer = SstableWriter::new();
    for (k_suffix, lsn) in keys {
        let key_str = format!("key_{:05}", k_suffix);
        let key = Key::new(key_str.as_bytes(), lsn);
        let val = Value::new(format!("val_{}", k_suffix).as_bytes());
        writer.write(&key, &val).unwrap();
    }
    let (_, bytes) = writer.finalize().unwrap();
    files.insert(id, bytes.clone());
    Sstable::new(&stem(id), bytes).unwrap()
}

fn open_iter(files: &Files, id: u32) -> SstableIterator {
    SstableIterator::new(Arc::new(Sstable::new(&stem(id), files[&id].clone()).unwrap()))
}

/// Runs a planned compaction on files in memory.
fn execute(
    plan: &CompactionPlan,
    manifest: &mut Manifest,
    tables: &mut Vec<Vec<Arc<Sstable>>>,
    files: &mut Files,
    target_file_size: u64,
) {
    let inputs = plan.files_to_merge().iter().map(|meta| open_iter(files, meta.file_id)).collect();
    let output = write_merged(MergeIterator::new(inputs).unwrap(), target_file_size);
    assert!(output.error.is_none() && !output.unfinished);
    let mut new_files = Vec::new();
    let mut new_tables = Vec::new();
    for (mut meta, bytes) in output.tables {
        meta.file_id = manifest.take_sstable_id();
        new_tables.push(Arc::new(Sstable::new(&stem(meta.file_id), bytes.clone()).unwrap()));
        files.insert(meta.file_id, bytes);
        new_files.push(meta);
    }
    let start = manifest.version;
    let mut candidate = manifest.clone();
    commit_compaction(&mut candidate, plan, &new_files);
    candidate.advance_version();
    assert!(manifest.compare_and_swap(start, &candidate));
    open_compacted(tables, plan, new_tables);
}

fn meta(id: u32, size: u32, min: (&[u8], u64), max: (&[u8], u64)) -> FileMetadata {
    FileMetadata {
        file_id: id,
        file_size: size,
        min_key: Key::new(min.0, min.1),
        max_key: Key::new(max.0, max.1),
    }
}

#[test]
fn test_merge_iterator() {
    let mut files = Files::new();

    // SST 1: keys 1, 3, 5 (LSN 10)
    let sst1 = create_test_sst(&mut files, 1, vec![(1, 10), (3, 10), (5, 10)]);

    // SST 2: keys 2, 4, 6 (LSN 10)
    let sst2 = create_test_sst(&mut files, 2, vec![(2, 10), (4, 10), (6, 10)]);

    // SST 3: keys 3 (LSN 20), 4 (LSN 5) - Overlap
    // Key 3 (LSN 20) should come BEFORE Key 3 (LSN 10).
    // Key 4 (LSN 5) should come AFTER Key 4 (LSN 10).
    let sst3 = create_test_sst(&mut files, 3, vec![(3, 20), (4, 5)]);

    let iter1 = SstableIterator::new(Arc::new(sst1));
    let iter2 = SstableIterator::new(Arc::new(sst2));
    let iter3 = SstableIterator::new(Arc::new(sst3));

    let mut merge_iter = MergeIterator::new(vec![iter1, iter2, iter3]).unwrap();

    let expected = vec![
        ("key_00001", 10),
        ("key_00002", 10),
        ("key_00003", 20),
        ("key_00003", 10),
        ("key_00004", 10),
        ("key_00004", 5),
        ("key_00005", 10),
        ("key_00006", 10),
    ];

    for (exp_key, exp_lsn) in expected {
        let (k, _) = merge_iter.next().expect("Should have item").unwrap();
        assert_eq!(&k.bytes[..], exp_key.as_bytes());
        assert_eq!(k.lsn, exp_lsn);
    }

    assert!(merge_iter.next().is_none());
}

#[test]
fn test_compaction_integration() {
    let mut files = Files::new();

    // Create 2 L0 files with MORE data
    let mut keys1 = Vec::new();
    for i in 100..150 {
        keys1.push((i, 10));
    }
    create_test_sst(&mut files, 1, keys1); // 50 keys

    let mut keys2 = Vec::new();
    for i in 200..250 {
        keys2.push((i, 10));
    }
    create_test_sst(&mut files, 2, keys2); // 50 keys

    // Create 1 overlapping L1 file
    let mut keys3 = Vec::new();
    for i in 125..225 {
        keys3.push((i, 5));
    }
    create_test_sst(&mut files, 3, keys3); // 100 keys overlap

    let l0_files = vec![
        meta(1, 1000, (b"key_00100", 10), (b"key_00149", 10)),
        meta(2, 1000, (b"key_00200", 10), (b"key_00249", 10)),
    ];
    let l1_files = vec![meta(3, 2000, (b"key_00125", 5), (b"key_00225", 5))];
    let mut manifest = Manifest {
        wals: vec![],
        levels: vec![Level { files: l0_files }, Level { files: l1_files }],
        next_wal_id: 100,
        next_sstable_id: 4,
        version: 1,
    };
    let mut tables: Vec<Vec<Arc<Sstable>>> = Vec::new();

    // A small target forces a split.
    let plan = compact_l0(&manifest).unwrap();
    execute(&plan, &mut manifest, &mut tables, &mut files, 1024);

    assert!(manifest.levels[0].files.is_empty(), "L0 should be empty");

    // L1 shoud have MULTIPLE files.
    let l1_count = manifest.levels[1].files.len();
    println!("Resulting L1 files: {}", l1_count);
    assert!(
        l1_count > 1,
        "Should have multiple merged L1 files due to splitting"
    );

    // Verify version bump
    assert_eq!(manifest.version, 2);

    // L0 empty
    if !tables.is_empty() {
        assert!(tables[0].is_empty());
    }
    // L1 has files
    assert!(tables.len() > 1);
    assert!(!tables[1].is_empty());
    assert_eq!(tables[1].len(), l1_count);

    // Every entry is there once, in order.
    let mut seen = Vec::new();
    for table in &tables[1] {
        let mut iter = SstableIterator::new(table.clone());
        while let Some(entry) = iter.next() {
            seen.push(entry.unwrap().0);
        }
    }
    assert_eq!(seen.len(), 200);
    assert!(seen.windows(2).all(|pair| pair[0] < pair[1]));
}

#[test]
fn test_compact_l1_to_l2() {
    let mut files = Files::new();

    // Setup L1: 1 file (Keys 100-200)
    let mut keys1 = Vec::new();
    for i in 100..=200 {
        keys1.push((i, 20));
    }
    let sst1 = create_test_sst(&mut files, 1, keys1); // ID 1

    // Setup L2: 2 files (Keys 150-250, 300-400)
    let mut keys2 = Vec::new();
    for i in 150..=250 {
        keys2.push((i, 10));
    }
    let sst2 = create_test_sst(&mut files, 2, keys2); // ID 2

    let mut keys3 = Vec::new();
    for i in 300..=400 {
        keys3.push((i, 10));
    }
    let sst3 = create_test_sst(&mut files, 3, keys3); // ID 3

    let mut manifest = Manifest {
        wals: vec![],
        levels: vec![
            Level::default(),
            Level {
                files: vec![meta(1, 1000, (b"key_00100", 20), (b"key_00200", 20))],
            },
            Level {
                files: vec![
                    meta(2, 1000, (b"key_00150", 10), (b"key_00250", 10)),
                    meta(3, 1000, (b"key_00300", 10), (b"key_00400", 10)),
                ],
            },
        ],
        next_wal_id: 100,
        next_sstable_id: 4,
        version: 1,
    };
    let mut tables = vec![
        Vec::new(),
        vec![Arc::new(sst1)],
        vec![Arc::new(sst2), Arc::new(sst3)],
    ];

    // Compacts L1 to L2 using 64MB target (no split)
    let plan = compact_ln(&manifest, 1).unwrap();
    execute(&plan, &mut manifest, &mut tables, &mut files, 64 * 1024 * 1024);

    // Verify L1 is empty
    assert!(
        manifest.levels[1].files.is_empty(),
        "L1 should be empty after compaction"
    );

    // Verify L2
    let l2_files = &manifest.levels[2].files;
    assert!(
        l2_files.len() >= 2,
        "Should have at least merged file and separate file"
    );

    // Check sorting
    let first = &l2_files[0];
    let second = &l2_files[1];

    // Expected: Merged File First (100...), then File 3 (300...)
    assert!(first.min_key.bytes < second.min_key.bytes);
    assert_eq!(
        second.file_id, 3,
        "Second file should be the untouched ID 3"
    );

    // Verify overlap removal
    assert!(
        !l2_files.iter().any(|f| f.file_id == 1),
        "ID 1 (L1) should be gone"
    );
    assert!(
        !l2_files.iter().any(|f| f.file_id == 2),
        "ID 2 (L2 overlap) should be gone"
    );

    // Verify the open tables
    assert!(tables[1].is_empty());
    assert_eq!(tables[2].len(), l2_files.len());
    assert_eq!(tables[2][0].min_key().bytes, first.min_key.bytes);
    assert_eq!(tables[2][1].id, 3);
}

#[test]
fn a_merge_stops_at_a_damaged_source() {
    let mut files = Files::new();
    create_test_sst(&mut files, 1, vec![(1, 1), (4, 1)]);
    create_test_sst(&mut files, 2, (0..400).map(|i| (2 * i + 2, 2)).collect());
    // Damage the second block of the second table.
    let second = Sstable::new(b"2", files[&2].clone()).unwrap();
    let at = second.index[1].2 as usize;
    let in_first = {
        let len = u32::from_le_bytes(files[&2][0..4].try_into().unwrap()) as usize;
        let mut iter = BlockIterator::new(files[&2][8..4 + len].to_vec());
        let mut n = 0;
        while iter.next().is_some() {
            n += 1;
        }
        n
    };
    files.get_mut(&2).unwrap()[at + 10] ^= 1;

    let mut merge = MergeIterator::new(vec![open_iter(&files, 1), open_iter(&files, 2)]).unwrap();
    let mut given = 0;
    let error = loop {
        match merge.next() {
            Some(Ok(_)) => given += 1,
            Some(Err(e)) => break e,
            None => panic!("the damage was not seen"),
        }
    };
    assert!(matches!(error, DbError::ManifestCorrupted));
    // The last entry of the good block is lost to the error.
    assert_eq!(given, 2 + in_first - 1);
    assert!(merge.next().is_none());

    let merge = MergeIterator::new(vec![open_iter(&files, 1), open_iter(&files, 2)]).unwrap();
    let output = write_merged(merge, TARGET_FILE_SIZE);
    assert!(matches!(output.error, Some(OutputError::Merge(DbError::ManifestCorrupted))));
    assert!(output.unfinished && output.tables.is_empty());

    // A source that fails at once fails the merge.
    files.get_mut(&1).unwrap()[10] ^= 1;
    assert!(matches!(
        MergeIterator::new(vec![open_iter(&files, 2), open_iter(&files, 1)]),
        Err(DbError::ManifestCorrupted)
    ));
}

#[test]
fn a_version_that_is_there_twice_cannot_be_written() {
    let mut files = Files::new();
    create_test_sst(&mut files, 1, vec![(1, 1), (2, 1)]);
    create_test_sst(&mut files, 2, vec![(2, 1), (3, 1)]);
    // Whether there is room for it or not.
    for (target, complete) in [(0, 1), (TARGET_FILE_SIZE, 0)] {
        let inputs = vec![open_iter(&files, 1), open_iter(&files, 2)];
        let output = write_merged(MergeIterator::new(inputs).unwrap(), target);
        assert!(matches!(
            output.error,
            Some(OutputError::Write(DbError::DataCorrupted(m))) if m == "SSTable keys out of order"
        ));
        assert!(output.unfinished);
        assert_eq!(output.tables.len(), complete);
    }
    // Another version of the key can.
    create_test_sst(&mut files, 3, vec![(2, 2), (3, 1)]);
    let inputs = vec![open_iter(&files, 1), open_iter(&files, 3)];
    let output = write_merged(MergeIterator::new(inputs).unwrap(), 0);
    assert!(output.error.is_none() && !output.unfinished);
    assert_eq!(output.tables.len(), 4);
}

#[test]
fn tables_keep_to_the_maximum_size() {
    let mut files = Files::new();
    create_test_sst(&mut files, 1, (0..300).map(|i| (i, 1)).collect());
    // An entry takes 15 bytes, a key of 9 and a value of 5 to 7; a block has 8 more.
    for target in [1, 37, 38, 66, 67, 100, 4096, 4104, 5000, 1 << 20] {
        let merge = MergeIterator::new(vec![open_iter(&files, 1)]).unwrap();
        let output = write_merged(merge, target);
        let mut total = 0;
        for (i, (meta, bytes)) in output.tables.iter().enumerate() {
            let offset = bytes.len() - 24;
            let data = u64::from_le_bytes(bytes[offset..offset + 8].try_into().unwrap());
            let mut iter =
                SstableIterator::new(Arc::new(Sstable::new(b"9", bytes.clone()).unwrap()));
            let mut entries = 0;
            while let Some(entry) = iter.next() {
                entry.unwrap();
                entries += 1;
            }
            assert!(data <= target || entries == 1, "table {} of {}", i, target);
            assert_eq!(entries == 1, meta.min_key == meta.max_key);
            total += entries;
        }
        assert_eq!(total, 300);
        assert_eq!(output.tables.len() == 1, target == 1 << 20);
        assert_eq!(output.tables.len() == 300, target < 66);
    }
}

#[test]
fn an_entry_out_of_order_cannot_be_written() {
    let mut first = SstableWriter::new();
    first.write(&Key::new(b"b", 1), &Value::Int(1)).unwrap();
    assert!(first.ends_with(&Key::new(b"b", 1)));
    assert!(!first.ends_with(&Key::new(b"b", 2)));
    assert!(!SstableWriter::new().ends_with(&Key::new(b"", 0)));
    // The blocks take 8 and 24 bytes for the first entry, and 24 for another.
    assert!(first.has_room(&Key::new(b"c", 1), &Value::Int(2), 56));
    assert!(!first.has_room(&Key::new(b"c", 1), &Value::Int(2), 55));
    assert!(matches!(
        first.write(&Key::new(b"a", 1), &Value::Int(2)),
        Err(DbError::DataCorrupted(m)) if m == "SSTable keys out of order"
    ));
}

#[test]
fn a_target_of_zero_gives_each_entry_its_table() {
    let mut files = Files::new();
    create_test_sst(&mut files, 1, vec![(1, 1), (2, 1), (3, 1)]);
    let merge = MergeIterator::new(vec![open_iter(&files, 1)]).unwrap();
    let output = write_merged(merge, 0);
    assert_eq!(output.tables.len(), 3);
    assert_eq!(output.tables[1].0.min_key, Key::new(b"key_00002", 1));
    assert_eq!(output.tables[1].0.max_key, Key::new(b"key_00002", 1));

    let nothing = write_merged(MergeIterator::new(Vec::new()).unwrap(), 1);
    assert!(nothing.tables.is_empty() && nothing.error.is_none() && !nothing.unfinished);
}

#[test]
fn a_flushed_memtable_answers_from_its_table() {
    let mut mem = Memtable::new();
    mem.recover(Key::new(b"b", 3), Value::new(b"b3"));
    mem.recover(Key::new(b"a", 1), Value::new(b"a1"));
    mem.recover(Key::new(b"b", 9), Value::Tombstone);
    let frozen = mem.freeze();
    let (meta, bytes) = flush_memtable(&frozen).unwrap();
    assert_eq!(meta.min_key, Key::new(b"a", 1));
    assert_eq!(meta.max_key, Key::new(b"b", 3));
    let table = Sstable::new(b"1", bytes).unwrap();
    for key in [&b"a"[..], b"b", b"c"] {
        assert_eq!(
            format!("{:?}", table.search(key).unwrap()),
            format!("{:?}", frozen.latest(key))
        );
    }
}

#[test]
fn a_flush_takes_a_number_for_each_table_and_the_first_logs() {
    let mut manifest = Manifest::new(7);
    manifest.wals = vec![3, 4, 7];
    manifest.next_sstable_id = 12;
    manifest.version = 5;
    assert!(prepare_flush(&mut manifest, 0).unwrap().is_none());
    assert_eq!(manifest.next_sstable_id, 12);
    let plan = prepare_flush(&mut manifest, 2).unwrap().unwrap();
    assert_eq!((plan.start_sst_id, plan.start_version), (12, 5));
    assert_eq!(plan.wals_to_delete, vec![3, 4]);
    assert_eq!(manifest.next_sstable_id, 14);
    match prepare_flush(&mut manifest, 4) {
        Err(DbError::DataCorrupted(m)) => {
            assert_eq!(m, "CRITICAL ERROR: WAL len 3 mismatch Memtable len 4")
        }
        _ => panic!("there are not as many logs"),
    }
    assert_eq!(manifest.next_sstable_id, 18);
    // Where nothing is frozen, no number is needed.
    manifest.next_sstable_id = u32::MAX;
    assert!(prepare_flush(&mut manifest, 0).unwrap().is_none());
}

#[test]
fn a_flush_commits_its_tables_and_drops_its_logs() {
    let mut files = vec![
        meta(0, 10, (b"a", 2), (b"c", 1)),
        meta(0, 11, (b"b", 4), (b"d", 3)),
    ];
    number_files(&mut files, 20);
    assert_eq!((files[0].file_id, files[1].file_id), (20, 21));

    let mut manifest = Manifest::new(3);
    manifest.wals = vec![1, 2, 3];
    commit_flush(&mut manifest, &files, &vec![1, 2]).unwrap();
    assert_eq!(manifest.wals, vec![3]);
    assert_eq!(manifest.levels.len(), 1);
    assert_eq!(manifest.levels[0].files.len(), 2);
    assert_eq!(manifest.levels[0].files[1].file_id, 21);

    match commit_flush(&mut manifest, &Vec::new(), &vec![4, 15]) {
        Err(DbError::DataCorrupted(m)) => assert_eq!(
            m,
            "Manifest mismatch during flush commit. Expected WALs [4, 15], found [3]"
        ),
        other => panic!("{:?}", other),
    }
    assert_eq!(manifest.wals, vec![3]);
    commit_flush(&mut manifest, &files, &Vec::new()).unwrap();
    assert_eq!(manifest.levels[0].files.len(), 4);

    let mut frozen = vec!['a', 'b', 'c'];
    drop_flushed(&mut frozen, 2);
    assert_eq!(frozen, vec!['c']);
    drop_flushed(&mut frozen, 9);
    assert!(frozen.is_empty());

    let mut in_memory = Files::new();
    let mut tables = Vec::new();
    open_flushed(&mut tables, vec![Arc::new(create_test_sst(&mut in_memory, 1, vec![(1, 1)]))]);
    open_flushed(&mut tables, vec![Arc::new(create_test_sst(&mut in_memory, 2, vec![(1, 2)]))]);
    assert_eq!(tables[0].iter().map(|t| t.id).collect::<Vec<_>>(), vec![1, 2]);
}

#[test]
fn plans_pick_what_overlaps() {
    let manifest = Manifest {
        wals: vec![],
        levels: vec![
            Level {
                files: vec![
                    meta(1, 1, (b"f", 9), (b"h", 1)),
                    meta(2, 1, (b"c", 9), (b"g", 1)),
                ],
            },
            Level {
                files: vec![
                    meta(3, 1, (b"a", 9), (b"c", 10)),
                    meta(4, 1, (b"c", 8), (b"e", 1)),
                    meta(5, 1, (b"h", 1), (b"j", 1)),
                    meta(6, 1, (b"k", 1), (b"z", 1)),
                ],
            },
        ],
        next_wal_id: 1,
        next_sstable_id: 7,
        version: 1,
    };
    let plan = compact_l0(&manifest).unwrap();
    assert_eq!(plan.source_level, 0);
    let ids = |files: &Vec<FileMetadata>| files.iter().map(|f| f.file_id).collect::<Vec<_>>();
    assert_eq!(ids(&plan.source_files), vec![1, 2]);
    // The range is from (c, 9) to (h, 1); (c, 10) is before it.
    assert_eq!(ids(&plan.target_files), vec![4, 5]);
    assert_eq!(ids(&plan.files_to_merge()), vec![1, 2, 4, 5]);

    let plan = compact_ln(&manifest, 1).unwrap();
    assert_eq!(plan.source_level, 1);
    assert_eq!(ids(&plan.source_files), vec![3]);
    assert!(plan.target_files.is_empty());
    assert!(compact_ln(&manifest, 2).is_none());
    assert!(compact_l0(&Manifest::new(0)).is_none());

    let mut after = manifest.clone();
    commit_compaction(&mut after, &plan, &vec![meta(9, 1, (b"a", 9), (b"c", 10))]);
    assert_eq!(ids(&after.levels[1].files), vec![4, 5, 6]);
    assert_eq!(ids(&after.levels[2].files), vec![9]);
    assert_eq!(ids(&after.levels[0].files), vec![1, 2]);
}

#[test]
fn sorting_by_smallest_key_keeps_the_order_of_equals() {
    let mut files = vec![
        meta(1, 1, (b"b", 1), (b"z", 1)),
        meta(2, 1, (b"a", 1), (b"z", 1)),
        meta(3, 1, (b"b", 1), (b"c", 1)),
        meta(4, 1, (b"b", 2), (b"c", 1)),
    ];
    sort_by_min_key(&mut files);
    assert_eq!(files.iter().map(|f| f.file_id).collect::<Vec<_>>(), vec![2, 4, 1, 3]);
}

#[test]
fn work_is_chosen_by_the_triggers() {
    const MB: u32 = 1024 * 1024;
    let mut manifest = Manifest::new(0);
    assert_eq!(next_work(&manifest, true), Work::Stop);
    assert_eq!(next_work(&manifest, false), Work::Wait);
    manifest.wals = vec![0, 1, 2, 3];
    assert_eq!(next_work(&manifest, false), Work::Wait);
    manifest.wals.push(4);
    assert_eq!(next_work(&manifest, false), Work::Flush);
    manifest.wals = vec![4];

    let file = |size: u32| meta(1, size, (b"a", 1), (b"b", 1));
    manifest.levels = vec![
        Level { files: (0..4).map(|_| file(u32::MAX)).collect() },
        Level { files: (0..19).map(|_| file(64 * MB)).collect() },
    ];
    assert_eq!(next_work(&manifest, false), Work::Wait);
    manifest.levels[1].files.push(file(64 * MB - 1));
    assert_eq!(next_work(&manifest, false), Work::Wait);
    manifest.levels[1].files.push(file(1));
    assert_eq!(next_work(&manifest, false), Work::CompactLevel(1));
    manifest.levels[0].files.push(file(1));
    assert_eq!(next_work(&manifest, false), Work::CompactL0);
    manifest.levels[0] = Level::default();
    manifest.levels[1] = Level::default();
    manifest.levels.push(Level { files: (0..199).map(|_| file(64 * MB)).collect() });
    manifest.levels.push(Level { files: (0..2000).map(|_| file(64 * MB)).collect() });
    manifest.levels.push(Level { files: (0..20000).map(|_| file(64 * MB)).collect() });
    assert_eq!(next_work(&manifest, false), Work::CompactLevel(3));
    manifest.levels[2].files.push(file(64 * MB));
    assert_eq!(next_work(&manifest, false), Work::CompactLevel(2));
    // The last level is not compacted.
    manifest.levels[2] = Level::default();
    manifest.levels[3] = Level::default();
    assert_eq!(next_work(&manifest, false), Work::Wait);
}

#[test]
fn garbage_is_what_no_manifest_speaks_of() {
    let names: Vec<Vec<u8>> = [
        "00009.mf", "00011.mf", "00010.mf", "x.mf", "00007.mf.mf", "00001.wal", "00002.wal",
        "00003.wal", "00001.sst", "00002.sst", "00003.sst", "00012.mf.tmp", "LOCK", "4.wal.wal",
        "-1.wal", "99999999999.sst",
    ]
    .iter()
    .map(|name| name.as_bytes().to_vec())
    .collect();
    let scan = scan_manifests(&names);
    assert_eq!(scan.kept, vec![1, 2]);
    assert_eq!(scan.obsolete, vec![0, 4]);

    let mut live = Manifest::new(3);
    live.levels.push(Level { files: vec![meta(3, 1, (b"a", 1), (b"b", 1))] });
    let (wals, ssts, manifests) = prepare_gc_snapshot(&live).unwrap();
    assert_eq!(wals, HashSet::from([3]));
    assert_eq!(ssts, HashSet::from([3]));
    assert!(manifests.is_empty());

    let mut previous = Manifest::new(2);
    previous.levels.push(Level { files: vec![meta(2, 1, (b"a", 1), (b"b", 1))] });
    let (_, contents) = previous.write_to_disk(10);
    let garbage = find_garbage(&names, &vec![contents, b"damaged".to_vec()], wals, ssts);
    let gone: Vec<&[u8]> = garbage.iter().map(|i| &names[*i][..]).collect();
    assert_eq!(gone, vec![&b"00001.wal"[..], b"00001.sst", b"4.wal.wal"]);
}

#[test]
fn few_manifests_are_all_kept() {
    let names = vec![file_name(3, FileKind::Manifest), file_name(3, FileKind::Wal)];
    let scan = scan_manifests(&names);
    assert_eq!(scan.kept, vec![0]);
    assert!(scan.obsolete.is_empty());
    let everything = find_garbage(&names, &Vec::new(), HashSet::new(), HashSet::new());
    assert_eq!(everything, vec![1]);
}

/// Writes a table and opens it.
fn add_table(
    manifest: &mut Manifest,
    tables: &mut Vec<Vec<Arc<Sstable>>>,
    files: &mut Files,
    level: usize,
    entries: &[(&[u8], u64, Value)],
) {
    let mut mem = Memtable::new();
    for (key, lsn, value) in entries {
        mem.recover(Key::new(key, *lsn), value.clone());
    }
    let (mut meta, bytes) = flush_memtable(&mem.freeze()).unwrap();
    meta.file_id = manifest.take_sstable_id();
    tables[level].push(Arc::new(Sstable::new(&stem(meta.file_id), bytes.clone()).unwrap()));
    files.insert(meta.file_id, bytes);
    manifest.levels[level].files.push(meta);
}

fn answers(tables: &Vec<Vec<Arc<Sstable>>>) -> Vec<String> {
    (b'a'..=b'h')
        .map(|b| format!("{:?}", get(&Memtable::new(), &Vec::new(), tables, &[b]).unwrap()))
        .collect()
}

/// The open tables are those of the manifest, and below the first level they are apart.
fn assert_in_order(manifest: &Manifest, tables: &Vec<Vec<Arc<Sstable>>>) {
    assert_eq!(manifest.levels.len(), tables.len());
    for (l, (level, open)) in manifest.levels.iter().zip(tables).enumerate() {
        assert_eq!(level.files.len(), open.len());
        for (meta, table) in level.files.iter().zip(open) {
            assert_eq!(meta.file_id, table.id);
            assert_eq!(&meta.min_key, table.min_key());
        }
        if l > 0 {
            for pair in level.files.windows(2) {
                assert!(pair[0].max_key < pair[1].min_key);
            }
        }
    }
}

#[test]
fn compactions_change_no_answer() {
    let mut files = Files::new();
    let mut tables = vec![Vec::new(), Vec::new(), Vec::new()];
    let mut manifest = Manifest {
        wals: vec![],
        levels: vec![Level::default(), Level::default(), Level::default()],
        next_wal_id: 1,
        next_sstable_id: 1,
        version: 1,
    };
    let mut add = |level: usize, entries: &[(&[u8], u64, Value)]| {
        add_table(&mut manifest, &mut tables, &mut files, level, entries)
    };
    add(0, &[(b"a", 30, Value::Int(30)), (b"c", 31, Value::Tombstone)]);
    add(0, &[(b"a", 40, Value::Int(40)), (b"f", 41, Value::Int(41))]);
    add(1, &[(b"a", 20, Value::Int(20)), (b"b", 21, Value::Int(21))]);
    add(1, &[(b"c", 22, Value::Int(22)), (b"d", 23, Value::Tombstone)]);
    add(1, &[(b"g", 24, Value::Int(24))]);
    add(2, &[(b"b", 1, Value::Int(1)), (b"d", 2, Value::Int(2))]);
    add(2, &[(b"e", 3, Value::Int(3)), (b"g", 4, Value::Int(4))]);
    assert_in_order(&manifest, &tables);

    let before = answers(&tables);
    let shown = |value: Option<i64>| format!("{:?}", value.map(Value::Int));
    let expected =
        [Some(40), Some(21), None, None, Some(3), Some(41), Some(24), None].map(shown).to_vec();
    assert_eq!(before, expected);

    let plan = compact_l0(&manifest).unwrap();
    execute(&plan, &mut manifest, &mut tables, &mut files, 64);
    assert!(tables[0].is_empty());
    assert_in_order(&manifest, &tables);
    assert_eq!(answers(&tables), before);

    let plan = compact_l0(&manifest);
    assert!(plan.is_none());
    let plan = compact_ln(&manifest, 2).unwrap();
    execute(&plan, &mut manifest, &mut tables, &mut files, 1 << 20);
    assert_in_order(&manifest, &tables);
    assert_eq!(answers(&tables), before);
}

#[test]
fn flushes_and_compactions_share_no_number() {
    let mut files = Files::new();
    let mut tables: Vec<Vec<Arc<Sstable>>> = Vec::new();
    let mut manifest = Manifest::new(0);
    manifest.wals = vec![0, 1, 2, 3, 4];
    manifest.next_wal_id = 5;
    for round in 0..2u64 {
        let plan = prepare_flush(&mut manifest, 2).unwrap().unwrap();
        let mut new_files = Vec::new();
        let mut contents = Vec::new();
        for i in 0..2 {
            let mut mem = Memtable::new();
            mem.recover(Key::new(b"k", 1 + 2 * round + i), Value::Int(i as i64));
            let (meta, bytes) = flush_memtable(&mem.freeze()).unwrap();
            new_files.push(meta);
            contents.push(bytes);
        }
        number_files(&mut new_files, plan.start_sst_id);
        for (meta, bytes) in new_files.iter().zip(contents) {
            assert!(files.insert(meta.file_id, bytes).is_none());
        }
        commit_flush(&mut manifest, &new_files, &plan.wals_to_delete).unwrap();
        assert!(manifest.levels[0].files.iter().all(|f| f.file_id < manifest.next_sstable_id));
    }
    assert_eq!(manifest.wals, vec![4]);
    let ids: Vec<u32> = manifest.levels[0].files.iter().map(|f| f.file_id).collect();
    assert_eq!(ids, vec![0, 1, 2, 3]);

    let plan = compact_l0(&manifest).unwrap();
    execute(&plan, &mut manifest, &mut tables, &mut files, 0);
    let ids: Vec<u32> = manifest.levels[1].files.iter().map(|f| f.file_id).collect();
    assert_eq!(ids, vec![4, 5, 6, 7]);
    assert_eq!(manifest.next_sstable_id, 8);
}
