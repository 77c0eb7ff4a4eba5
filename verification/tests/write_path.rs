use easy_lsm::compact::output::flush_memtable;
use easy_lsm::data_stores::key::Key;
use easy_lsm::data_stores::manifest::Manifest;
use easy_lsm::data_stores::memtable::{Immutable, Memtable, Mutable};
use easy_lsm::data_stores::sstable::Sstable;
use easy_lsm::data_stores::value::Value;
use easy_lsm::data_stores::wal::{ReadOnly, Wal, Writable};
use easy_lsm::db::{get, logs_to_recover, next_lsn, replay_mutable_wal, search_memory};
use easy_lsm::err::DbError;
use easy_lsm::write_req::{
    CompletionVariant, SeekingMembershipResult, Turn, WaitingToBeQueued, WriteSyncs, Writer,
};
use std::sync::Arc;

/// A store whose files are in memory, and which takes one step at a time.
struct Store {
    syncs: WriteSyncs,
    log: Vec<u8>,
    mem: Memtable<Mutable>,
    next_id: u64,
}

impl Store {
    fn new() -> Store {
        let (_, log) = Wal::<Writable>::open(&[], 0).unwrap();
        Store { syncs: WriteSyncs::new(100), log, mem: Memtable::new(), next_id: 0 }
    }

    fn writer(&mut self, key: &[u8], value: Value) -> Writer<WaitingToBeQueued> {
        self.next_id += 1;
        Writer::new(self.next_id, Key::new(key, 0), value)
    }

    fn append(&mut self, bytes: &[u8]) -> Result<easy_lsm::data_stores::wal::WalReceipt, DbError> {
        let (wal, _) = Wal::<Writable>::open(&self.log, 0).unwrap();
        self.log.extend_from_slice(bytes);
        wal.write(Ok(()))
    }

    fn put(&mut self, key: &[u8], value: Value) -> u64 {
        let w = self.writer(key, value).step(&mut self.syncs);
        let leader = match w.step(None, &mut self.syncs).unwrap() {
            SeekingMembershipResult::Leader(l) => l,
            _ => panic!("alone in the queue"),
        };
        let l = match leader.step(&mut self.syncs) {
            Turn::Now(l) => l,
            Turn::Wait(_) => panic!("the log is free"),
        };
        let (l, bytes) = l.step(&mut self.syncs);
        let receipt = self.append(&bytes);
        let l = l.step(receipt, &mut self.syncs).ok().unwrap();
        let l = match l.step(&self.syncs) {
            Turn::Now(l) => l,
            Turn::Wait(_) => panic!("the memtable is free"),
        };
        let l = l.step(&mut self.mem);
        self.syncs.release_ticket();
        l.step().0.state.lsn
    }
}

#[test]
fn test_writer_state_flow() {
    let mut store = Store::new();
    let writer = store.writer(b"key", Value::new(b"value"));

    // 1. WaitingToBeQueued -> SeekingMembership
    let w = writer.step(&mut store.syncs);
    assert_eq!(store.syncs.write_queue.len(), 1);

    // 2. SeekingMembership -> Leader
    let w = match w.step(None, &mut store.syncs).expect("Step 2 failed") {
        SeekingMembershipResult::Leader(w) => w,
        _ => panic!("Step 2 failed"),
    };
    assert!(store.syncs.write_queue.is_empty());

    // 3. LeaderWaitingToWriteWal -> LeaderWritingWal
    let w = match w.step(&mut store.syncs) {
        Turn::Now(w) => w,
        Turn::Wait(_) => panic!("Step 3 failed"),
    };
    assert!(store.syncs.wal_busy);

    // 4. LeaderWritingWal -> LeaderWaitingToWriteMemtable
    let (w, bytes) = w.step(&mut store.syncs);
    assert_eq!((store.syncs.next_ticket, store.syncs.next_lsn), (1, 101));
    let receipt = store.append(&bytes);
    let w = match w.step(receipt, &mut store.syncs) {
        Ok(w) => w,
        Err(_) => panic!("Step 4 failed"),
    };
    assert!(!store.syncs.wal_busy);

    // 5. LeaderWaitingToWriteMemtable -> LeaderWritingMemtable
    let w = match w.step(&store.syncs) {
        Turn::Now(w) => w,
        Turn::Wait(_) => panic!("Step 5 failed"),
    };

    // 6. LeaderWritingMemtable -> LeaderFinishingWrite
    let w = w.step(&mut store.mem);
    store.syncs.release_ticket();
    assert_eq!(store.syncs.ticket_to_mem, 1);

    // 7. LeaderFinishingWrite -> Success
    let (w, group) = w.step();
    assert!(w.state.lsn > 0);
    assert_eq!(w.state.lsn, 100);
    assert!(matches!(group.completion(), Ok(CompletionVariant::Success(s)) if s.lsn == 100));
    assert!(matches!(store.mem.get(b"key"), Some(Value::Bytes(b)) if b == b"value"));
}

#[test]
fn test_concurrent_writers() {
    let mut store = Store::new();
    let num_writers = 10;

    // All are queued before the first gets to lead.
    let mut seeking = Vec::new();
    for i in 0..num_writers {
        let w = store.writer(format!("key_{}", i).as_bytes(), Value::new(b"val"));
        seeking.push(w.step(&mut store.syncs));
    }
    let first = seeking.remove(0);
    let last = match seeking.pop().unwrap().step(None, &mut store.syncs).unwrap() {
        SeekingMembershipResult::Waiting(w) => w,
        _ => panic!("not at the head of the queue"),
    };
    let leader = match first.step(None, &mut store.syncs).unwrap() {
        SeekingMembershipResult::Leader(l) => l,
        _ => panic!("at the head of the queue"),
    };
    assert_eq!(leader.state.group.reqs.len(), num_writers);
    // The others are told that they follow.
    let mut followers = Vec::new();
    for w in seeking.into_iter().chain([last]) {
        match w.step(Some(Ok(CompletionVariant::Follower)), &mut store.syncs).unwrap() {
            SeekingMembershipResult::Follower(f) => followers.push(f),
            _ => panic!("told to follow"),
        }
    }

    let l = match leader.step(&mut store.syncs) {
        Turn::Now(l) => l,
        Turn::Wait(_) => panic!("the log is free"),
    };
    // A second group has to wait for the log.
    let second = store.writer(b"late", Value::new(b"val")).step(&mut store.syncs);
    let second = match second.step(None, &mut store.syncs).unwrap() {
        SeekingMembershipResult::Leader(l) => l,
        _ => panic!("at the head of the queue"),
    };
    let second = match second.step(&mut store.syncs) {
        Turn::Wait(l) => l,
        Turn::Now(_) => panic!("the log is taken"),
    };

    let (l, bytes) = l.step(&mut store.syncs);
    let receipt = store.append(&bytes);
    let l = l.step(receipt, &mut store.syncs).ok().unwrap();
    let second = match second.step(&mut store.syncs) {
        Turn::Now(l) => l,
        Turn::Wait(_) => panic!("the log is free again"),
    };
    let (second, bytes) = second.step(&mut store.syncs);
    let receipt = store.append(&bytes);
    let second = second.step(receipt, &mut store.syncs).ok().unwrap();
    // The second group logged later, so it waits for the first.
    let second = match second.step(&store.syncs) {
        Turn::Wait(w) => w,
        Turn::Now(_) => panic!("out of turn"),
    };
    let l = match l.step(&store.syncs) {
        Turn::Now(l) => l,
        Turn::Wait(_) => panic!("it is its turn"),
    };
    let l = l.step(&mut store.mem);
    store.syncs.release_ticket();
    let (s, group) = l.step();
    assert!(s.state.lsn > 0);
    for f in followers {
        let f = match f.step(None).unwrap() {
            Turn::Wait(f) => f,
            Turn::Now(_) => panic!("nothing was said yet"),
        };
        match f.step(Some(group.completion())).unwrap() {
            Turn::Now(s) => assert!(s.state.lsn > 0),
            Turn::Wait(_) => panic!("the write is done"),
        }
    }
    assert!(matches!(second.step(&store.syncs), Turn::Now(_)));

    // LSNs are unique and in order, in the log as in memory.
    let lsns: Vec<u64> = group.reqs.iter().map(|r| r.key.lsn).collect();
    assert_eq!(lsns, (100..110).collect::<Vec<_>>());
    let wal = Wal::<ReadOnly>::open(b"0", store.log.clone());
    let mut iter = wal.try_iter().unwrap();
    for lsn in 100..111 {
        assert_eq!(iter.next().unwrap().unwrap().0.lsn, lsn);
    }
    assert!(iter.next().is_none());
    assert_eq!(store.mem.iter().len(), 10);
}

#[test]
fn a_failed_append_fails_the_group_and_frees_the_log() {
    let mut store = Store::new();
    let w = store.writer(b"k", Value::new(b"v")).step(&mut store.syncs);
    let l = match w.step(None, &mut store.syncs).unwrap() {
        SeekingMembershipResult::Leader(l) => l,
        _ => panic!("at the head of the queue"),
    };
    let l = match l.step(&mut store.syncs) {
        Turn::Now(l) => l,
        Turn::Wait(_) => panic!("the log is free"),
    };
    let (l, _) = l.step(&mut store.syncs);
    let failed = match l.step(Err(DbError::ManifestNotFound), &mut store.syncs) {
        Err(failed) => failed,
        Ok(_) => panic!("the append failed"),
    };
    assert!(matches!(failed.error, DbError::ManifestNotFound));
    assert!(matches!(failed.group.completion(), Err(DbError::WriterPanic)));
    assert!(!store.syncs.wal_busy);
    assert_eq!((store.syncs.ticket_to_mem, store.syncs.next_ticket), (1, 1));

    // What a member of the group then makes of it.
    let w = store.writer(b"j", Value::Tombstone).step(&mut store.syncs);
    let told = Some(Err(DbError::WriterPanic));
    assert!(matches!(w.step(told, &mut store.syncs), Err(DbError::WriterPanic)));
    let w = store.writer(b"i", Value::Tombstone).step(&mut store.syncs);
    let done = CompletionVariant::Success(easy_lsm::write_req::Success { lsn: 5 });
    match w.step(Some(Ok(done)), &mut store.syncs) {
        Ok(SeekingMembershipResult::Success(s)) => assert_eq!(s.state.lsn, 5),
        _ => panic!("a leader had written it"),
    }
}

#[test]
fn test_recovery_from_wal() {
    // 1. Write data
    let mut store = Store::new();
    store.put(b"key1", Value::new(b"val1"));
    store.put(b"key2", Value::new(b"val2"));

    // 2. Restart
    let manifest = Manifest::new(0);
    let (frozen, active) = logs_to_recover(&manifest).unwrap();
    assert!(frozen.is_empty());
    assert_eq!(active, 0);
    let wal = Wal::<ReadOnly>::open(b"00000", store.log);
    let (mem, last) = replay_mutable_wal(&wal).unwrap();
    assert_eq!(next_lsn(last), 102);

    // 3. Verify data recovery
    let val1 = get(&mem, &Vec::new(), &Vec::new(), b"key1").unwrap();
    match val1 {
        Some(Value::Bytes(b)) => assert_eq!(&*b, b"val1"),
        _ => panic!("Failed to recover key1"),
    }

    let val2 = get(&mem, &Vec::new(), &Vec::new(), b"key2").unwrap();
    match val2 {
        Some(Value::Bytes(b)) => assert_eq!(&*b, b"val2"),
        _ => panic!("Failed to recover key2"),
    }
}

#[test]
fn test_get_from_frozen() {
    let mut store = Store::new();

    // 1. Create a memtable, put some data, and freeze it
    let mut frozen_mem = Memtable::new();
    frozen_mem.recover(Key::new(b"key_frozen", 100), Value::new(b"val_frozen"));
    let frozen = vec![Arc::new(frozen_mem.freeze())];

    // 3. Test get
    let val = get(&store.mem, &frozen, &Vec::new(), b"key_frozen").unwrap();
    match val {
        Some(Value::Bytes(b)) => assert_eq!(&*b, b"val_frozen"),
        _ => panic!("Failed to get key from frozen memtable"),
    }

    // 4. Test precedence (Mutable > Frozen)
    store.put(b"key_frozen", Value::new(b"val_active"));

    let val = get(&store.mem, &frozen, &Vec::new(), b"key_frozen").unwrap();
    match val {
        Some(Value::Bytes(b)) => assert_eq!(&*b, b"val_active"),
        _ => panic!("Should get active value"),
    }
}

fn frozen(entries: &[(&[u8], u64, Value)]) -> Memtable<Immutable> {
    let mut mem = Memtable::new();
    for (key, lsn, value) in entries {
        mem.recover(Key::new(key, *lsn), value.clone());
    }
    mem.freeze()
}

fn table(id: u32, entries: &[(&[u8], u64, Value)]) -> Arc<Sstable> {
    let (_, bytes) = flush_memtable(&frozen(entries)).unwrap();
    Arc::new(Sstable::new(id.to_string().as_bytes(), bytes).unwrap())
}

#[test]
fn reads_go_from_the_newest_layer_to_the_oldest() {
    let mut active = Memtable::new();
    active.recover(Key::new(b"a", 90), Value::Int(90));
    let memtables = vec![
        Arc::new(frozen(&[(b"a", 70, Value::Int(70)), (b"b", 71, Value::Int(71))])),
        Arc::new(frozen(&[(b"a", 80, Value::Int(80)), (b"b", 81, Value::Int(81))])),
    ];
    let levels = vec![
        vec![
            table(1, &[(b"b", 50, Value::Int(50)), (b"c", 51, Value::Int(51))]),
            table(2, &[(b"c", 60, Value::Int(60)), (b"d", 61, Value::Tombstone)]),
        ],
        vec![
            table(3, &[(b"c", 30, Value::Int(30)), (b"d", 31, Value::Int(31))]),
            table(4, &[(b"e", 32, Value::Int(32))]),
        ],
        vec![table(5, &[(b"e", 10, Value::Int(10)), (b"f", 11, Value::Int(11))])],
    ];
    let read = |key: &[u8]| match get(&active, &memtables, &levels, key).unwrap() {
        Some(Value::Int(n)) => Some(n),
        None => None,
        other => panic!("{:?}", other),
    };
    assert_eq!(read(b"a"), Some(90));
    assert_eq!(read(b"b"), Some(81));
    assert_eq!(read(b"c"), Some(60));
    assert_eq!(read(b"d"), None);
    assert_eq!(read(b"e"), Some(32));
    assert_eq!(read(b"f"), Some(11));
    assert_eq!(read(b"g"), None);
}

#[test]
fn a_delete_hides_older_versions() {
    let mut store = Store::new();
    let old = vec![Arc::new(frozen(&[(b"k", 5, Value::new(b"old"))]))];
    let levels = vec![vec![table(1, &[(b"k", 3, Value::new(b"older"))])]];
    assert!(get(&store.mem, &old, &levels, b"k").unwrap().is_some());
    store.put(b"k", Value::Tombstone);
    assert!(get(&store.mem, &old, &levels, b"k").unwrap().is_none());
    store.put(b"k", Value::new(b"again"));
    assert!(matches!(
        get(&store.mem, &old, &levels, b"k"),
        Ok(Some(Value::Bytes(b))) if b == b"again"
    ));
}

#[test]
fn a_damaged_table_fails_the_read() {
    let (_, mut bytes) = flush_memtable(&frozen(&[(b"k", 3, Value::new(b"v"))])).unwrap();
    bytes[9] ^= 1;
    let levels = vec![vec![Arc::new(Sstable::new(b"1", bytes).unwrap())]];
    let empty = Memtable::new();
    assert!(matches!(
        get(&empty, &Vec::new(), &levels, b"k"),
        Err(DbError::ManifestCorrupted)
    ));
    assert!(matches!(get(&empty, &Vec::new(), &levels, b"z"), Ok(None)));
}

#[test]
fn a_flush_changes_no_answer() {
    let active = Memtable::new();
    let first = frozen(&[(b"a", 1, Value::Int(1)), (b"b", 2, Value::Int(2))]);
    let second = frozen(&[(b"b", 3, Value::Tombstone), (b"c", 4, Value::Int(4))]);
    let tables = [&first, &second].map(|mem| {
        let (_, bytes) = flush_memtable(mem).unwrap();
        Arc::new(Sstable::new(b"1", bytes).unwrap())
    });
    let memtables = vec![Arc::new(first), Arc::new(second)];
    let levels = vec![tables.to_vec()];
    for key in [&b"a"[..], b"b", b"c", b"d"] {
        assert_eq!(
            format!("{:?}", get(&active, &memtables, &Vec::new(), key).unwrap()),
            format!("{:?}", get(&active, &Vec::new(), &levels, key).unwrap()),
        );
    }
}

#[test]
fn freezing_changes_no_answer_and_later_writes_win() {
    let mut store = Store::new();
    store.put(b"a", Value::Int(1));
    store.put(b"b", Value::Int(2));
    let full = std::mem::replace(&mut store.mem, Memtable::new());
    let mut memtables = vec![Arc::new(full.freeze())];
    let read = |store: &Store, memtables: &Vec<Arc<Memtable<Immutable>>>, key: &[u8]| {
        match get(&store.mem, memtables, &Vec::new(), key).unwrap() {
            Some(Value::Int(n)) => Some(n),
            None => None,
            other => panic!("{:?}", other),
        }
    };
    assert_eq!(read(&store, &memtables, b"a"), Some(1));
    assert_eq!(read(&store, &memtables, b"b"), Some(2));

    store.put(b"a", Value::Int(3));
    store.put(b"b", Value::Tombstone);
    assert_eq!(read(&store, &memtables, b"a"), Some(3));
    assert_eq!(read(&store, &memtables, b"b"), None);

    let full = std::mem::replace(&mut store.mem, Memtable::new());
    memtables.push(Arc::new(full.freeze()));
    assert_eq!(read(&store, &memtables, b"a"), Some(3));
    assert_eq!(read(&store, &memtables, b"b"), None);
    store.put(b"b", Value::Int(4));
    assert_eq!(read(&store, &memtables, b"b"), Some(4));
}

#[test]
fn a_leader_tells_its_whole_group_that_it_follows() {
    let mut syncs = WriteSyncs::new(100);
    let mut seeking = Vec::new();
    for id in [7, 3, 9] {
        let writer = Writer::<WaitingToBeQueued>::new(id, Key::new(b"k", 0), Value::Int(1));
        seeking.push(writer.step(&mut syncs));
    }
    let first = seeking.remove(0);
    let leader = match first.step(None, &mut syncs).unwrap() {
        SeekingMembershipResult::Leader(leader) => leader,
        _ => panic!("at the head of the queue"),
    };
    let (ids, told) = leader.state.group.notice();
    assert_eq!(ids, vec![7, 3, 9]);
    assert_eq!(told, CompletionVariant::Follower);
    for writer in seeking {
        assert!(matches!(
            writer.step(Some(Ok(told)), &mut syncs),
            Ok(SeekingMembershipResult::Follower(_))
        ));
    }
}

#[test]
fn a_key_in_memory_needs_no_table() {
    let mut mem = Memtable::new();
    mem.recover(Key::new(b"a", 9), Value::Tombstone);
    let memtables = vec![Arc::new(frozen(&[(b"a", 5, Value::Int(5)), (b"b", 6, Value::Int(6))]))];
    assert!(matches!(search_memory(&mem, &memtables, b"a"), Some(Value::Tombstone)));
    assert!(matches!(search_memory(&mem, &memtables, b"b"), Some(Value::Int(6))));
    assert!(search_memory(&mem, &memtables, b"c").is_none());
}
