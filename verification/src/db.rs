//! The database: recovering its state, and reading through its layers.
//!
//! A read asks the active memtable, then the frozen ones from the newest to the oldest, then the
//! tables from the first level down. The first that knows the key decides, also where all it
//! knows is that the key was deleted.

use crate::data_stores::checksum::crc32;
use crate::data_stores::key::{Key, KeyView, LsnType};
use crate::data_stores::le::le_value;
use crate::data_stores::manifest::Manifest;
use crate::data_stores::memtable::{
    grown_by, insert_all, is_dump, is_newest, lemma_dump_lookup, lemma_newest,
    lemma_write_then_read, live, newest, Immutable, MemView, Memtable, Mutable,
};
use crate::data_stores::sstable::{search_agrees, Sstable};
use crate::data_stores::table_format::{
    entry_bytes, holds_run, lemma_run_search, Entry, TableView,
};
use crate::data_stores::value::{Value, ValueView};
use crate::data_stores::wal::{
    lemma_log_corrupted, lemma_log_truncated, log_body, log_entries, log_entry, log_header,
    log_stream, ReadOnly, Wal, WAL_MAGIC,
};
use crate::data_stores::{le, Loggable};
use crate::err::{DbError, ErrorView};
use crate::write_req::{grouped, lemma_log_and_memory_agree, logged, remembered};
use std::sync::Arc;
use vstd::prelude::*;

verus! {

// --- Recovery ---

/// What replaying a log comes to: its entries, or the error that it ends in.
pub open spec fn replayed(contents: Seq<u8>) -> Result<Seq<Entry>, ErrorView> {
    match log_body(contents) {
        Ok(body) => match log_stream(body) {
            (es, None) => Ok(es),
            (_, Some(e)) => Err(e),
        },
        Err(e) => Err(e),
    }
}

/// The LSN of the last entry, and zero where there is none.
pub open spec fn last_lsn(es: Seq<Entry>) -> u64 {
    if es.len() == 0 {
        0
    } else {
        es.last().0.lsn
    }
}

/// Rebuilds the memtable of the log that is being written to, and finds the last LSN in it.
pub fn replay_mutable_wal(wal: &Wal<ReadOnly>) -> (r: Result<(Memtable<Mutable>, u64), DbError>)
    ensures
        match (r, replayed(wal.state.contents@)) {
            (Ok((mem, lsn)), Ok(es)) => {
                &&& mem@ == insert_all(Map::empty(), es)
                &&& mem.size() == grown_by(0, es)
                &&& lsn == last_lsn(es)
                &&& es.len() > 0 ==> lsn == es[es.len() - 1].0.lsn
                &&& es.len() == 0 ==> lsn == 0
            },
            (Err(e), Err(f)) => e@ == f,
            _ => false,
        },
{
    let mut iter = match wal.try_iter() {
        Ok(iter) => iter,
        Err(e) => {
            return Err(e);
        },
    };
    let ghost (all, error) = log_stream(iter@);
    let ghost mut seen = Seq::<Entry>::empty();
    let mut mem = Memtable::new();
    let mut last: u64 = 0;
    assert(all =~= seen + all);
    loop
        invariant_except_break
            (all, error) == (seen + log_stream(iter@).0, log_stream(iter@).1),
        invariant
            iter.wf(),
            replayed(wal.state.contents@) == (match error {
                None => Ok::<Seq<Entry>, ErrorView>(all),
                Some(e) => Err(e),
            }),
            mem@ == insert_all(Map::empty(), seen),
            mem.size() == grown_by(0, seen),
            last == last_lsn(seen),
            seen.len() > 0 ==> last == seen[seen.len() - 1].0.lsn,
            seen.len() == 0 ==> last == 0,
        ensures
            error is None,
            all == seen,
        decreases log_stream(iter@).0.len(),
    {
        let ghost before = iter@;
        match iter.next() {
            Some(Ok((key, value))) => {
                let ghost e: Entry = (key@, value@);
                last = key.lsn;
                mem.recover(key, value);
                proof {
                    let rest = log_stream(iter@).0;
                    assert(log_stream(before).0 == seq![e] + rest);
                    assert(seen + (seq![e] + rest) =~= seen.push(e) + rest);
                    assert(seen.push(e).drop_last() =~= seen);
                    seen = seen.push(e);
                }
            },
            Some(Err(e)) => {
                return Err(e);
            },
            None => {
                assert(all =~= seen);
                break;
            },
        }
    }
    Ok((mem, last))
}

/// Rebuilds the memtable of an older log.
pub fn replay_immutable_wal(wal: &Wal<ReadOnly>) -> (r: Result<Memtable<Immutable>, DbError>)
    ensures
        match (r, replayed(wal.state.contents@)) {
            (Ok(mem), Ok(es)) => mem@ == insert_all(Map::empty(), es) && mem.size() == grown_by(
                0,
                es,
            ),
            (Err(e), Err(f)) => e@ == f,
            _ => false,
        },
{
    match replay_mutable_wal(wal) {
        Ok((mem, _)) => Ok(mem.freeze()),
        Err(e) => Err(e),
    }
}

/// The logs to replay: all but the last into frozen memtables, the last into the active one.
pub fn logs_to_recover(manifest: &Manifest) -> (r: Result<(Vec<u32>, u32), DbError>)
    ensures
        match r {
            Ok((frozen, active)) => {
                &&& manifest@.wals.len() > 0
                &&& frozen@ == manifest@.wals.drop_last()
                &&& active == manifest@.wals.last()
            },
            Err(e) => manifest@.wals.len() == 0 && e@ == ErrorView::DataCorrupted(
                "Manifest contains no WALs"@,
            ),
        },
{
    assert(manifest.wals.deep_view() =~= manifest.wals@);
    let n: usize = manifest.wals.len();
    if n == 0 {
        return Err(DbError::DataCorrupted(String::from_str("Manifest contains no WALs")));
    }
    let mut frozen: Vec<u32> = Vec::new();
    let mut i: usize = 0;
    while i < n - 1
        invariant
            n == manifest.wals@.len(),
            n > 0,
            i <= n - 1,
            frozen@ == manifest.wals@.take(i as int),
        decreases n - i,
    {
        frozen.push(manifest.wals[i]);
        assert(frozen@ =~= manifest.wals@.take(i + 1));
        i = i + 1;
    }
    assert(frozen@ =~= manifest.wals@.drop_last());
    Ok((frozen, manifest.wals[n - 1]))
}

/// The LSN that comes after the last one in the logs.
pub fn next_lsn(last: LsnType) -> (lsn: LsnType)
    requires
        last < u64::MAX,
    ensures
        lsn == last + 1,
{
    last + 1
}

/// A log that holds some entries brings them all back, also where it was cut short in the
/// middle of the entry after them.
pub proof fn lemma_recovery(es: Seq<Entry>, e: Entry, n: int)
    requires
        forall|i: int|
            0 <= i < es.len() ==> <(Key, Value) as Loggable>::encodable(#[trigger] es[i]),
        <(Key, Value) as Loggable>::encodable(e),
        0 <= n < log_entry(e).len(),
    ensures
        replayed(log_header() + log_entries(es) + log_entry(e).take(n)) == Ok::<
            Seq<Entry>,
            ErrorView,
        >(es),
{
    let tail = log_entry(e).take(n);
    let contents = log_header() + log_entries(es) + tail;
    le::lemma_le_range();
    le::lemma_le_bytes_len(WAL_MAGIC as nat, 4);
    le::lemma_le_round_trip(WAL_MAGIC as nat, 4);
    assert(contents.take(4) =~= log_header());
    assert(contents.skip(4) =~= log_entries(es) + tail);
    lemma_log_truncated(es, e, n);
}

/// A log in which an entry is damaged is not replayed, whatever is before or behind it; nor is
/// a file that is no log.
pub proof fn lemma_no_recovery(es: Seq<Entry>, crc: Seq<u8>, e: Entry, rest: Seq<u8>)
    requires
        forall|i: int|
            0 <= i < es.len() ==> <(Key, Value) as Loggable>::encodable(#[trigger] es[i]),
        <(Key, Value) as Loggable>::encodable(e),
        crc.len() == 4,
        le_value(crc) != crc32(entry_bytes(e)),
    ensures
        replayed(log_header() + log_entries(es) + (crc + entry_bytes(e) + rest)) == Err::<
            Seq<Entry>,
            ErrorView,
        >(ErrorView::DataCorrupted("CRC mismatch"@)),
        rest.len() < 4 ==> replayed(rest) is Err,
        rest.len() >= 4 && rest.take(4) != log_header() ==> replayed(rest) is Err,
{
    let tail = crc + entry_bytes(e) + rest;
    let contents = log_header() + log_entries(es) + tail;
    le::lemma_le_range();
    le::lemma_le_bytes_len(WAL_MAGIC as nat, 4);
    le::lemma_le_round_trip(WAL_MAGIC as nat, 4);
    assert(contents.take(4) =~= log_header());
    assert(contents.skip(4) =~= log_entries(es) + tail);
    lemma_log_corrupted(es, crc, e, rest);
    if rest.len() >= 4 && rest.take(4) != log_header() {
        le::lemma_le_value_round_trip(rest.take(4));
    }
}

/// A restart brings the memtable back: replaying the log of some groups of writes, also one
/// that was cut short in the middle of the entry after them, puts into a memtable what the
/// groups had put there.
pub proof fn lemma_restart(groups: Seq<Seq<Entry>>, e: Entry, n: int)
    requires
        forall|i: int|
            0 <= i < grouped(groups).len() ==> <(Key, Value) as Loggable>::encodable(
                #[trigger] grouped(groups)[i],
            ),
        <(Key, Value) as Loggable>::encodable(e),
        0 <= n < log_entry(e).len(),
    ensures
        replayed(log_header() + logged(groups) + log_entry(e).take(n)) matches Ok(es)
            && insert_all(Map::empty(), es) == remembered(groups),
{
    lemma_log_and_memory_agree(groups);
    lemma_recovery(grouped(groups), e, n);
}

// --- Reading ---

/// The first of some layers that knows a key decides on its version.
pub open spec fn first_version(layers: Seq<MemView>, key: Seq<u8>) -> Option<ValueView>
    decreases layers.len(),
{
    if layers.len() == 0 {
        None
    } else if newest(layers[0], key) is Some {
        newest(layers[0], key)
    } else {
        first_version(layers.skip(1), key)
    }
}

/// Whether `r` is what searching some tables in turn comes to: the first error, or the first
/// version found.
pub open spec fn tables_give(
    tables: Seq<TableView>,
    key: Seq<u8>,
    r: Result<Option<ValueView>, DbError>,
) -> bool
    decreases tables.len(),
{
    if tables.len() == 0 {
        r == Ok::<Option<ValueView>, DbError>(None)
    } else {
        exists|m: Result<Option<ValueView>, DbError>| #[trigger]
            tables[0].is_found(key, m) && match m {
                Ok(None) => tables_give(tables.skip(1), key, r),
                _ => r == m,
            }
    }
}

/// The tables of some levels in the order in which they are searched: the newest of the first
/// level first, then the other levels, each in its own order.
pub open spec fn search_order(levels: Seq<Seq<TableView>>) -> Seq<TableView>
    decreases levels.len(),
{
    if levels.len() == 0 {
        Seq::empty()
    } else if levels.len() == 1 {
        levels[0].reverse()
    } else {
        search_order(levels.drop_last()) + levels.last()
    }
}

/// The tables of some levels of open tables.
pub open spec fn tables_of(levels: Seq<Vec<Arc<Sstable>>>) -> Seq<Seq<TableView>> {
    Seq::new(levels.len(), |l: int| level_tables(levels[l]@))
}

pub open spec fn level_tables(level: Seq<Arc<Sstable>>) -> Seq<TableView> {
    Seq::new(level.len(), |i: int| level[i]@)
}

/// The memtables in the order in which they are searched.
pub open spec fn memory_layers(
    active: MemView,
    frozen: Seq<Arc<Memtable<Immutable>>>,
) -> Seq<MemView> {
    seq![active] + Seq::new(frozen.len(), |i: int| frozen[frozen.len() - 1 - i]@)
}

/// Whether `r` is what a reader is given.
pub open spec fn is_answer(
    active: MemView,
    frozen: Seq<Arc<Memtable<Immutable>>>,
    levels: Seq<Vec<Arc<Sstable>>>,
    key: Seq<u8>,
    r: Result<Option<ValueView>, DbError>,
) -> bool {
    match first_version(memory_layers(active, frozen), key) {
        Some(v) => r == Ok::<Option<ValueView>, DbError>(live(Some(v))),
        None => exists|m: Result<Option<ValueView>, DbError>| #[trigger]
            tables_give(search_order(tables_of(levels)), key, m) && r == (match m {
                Ok(v) => Ok(live(v)),
                Err(e) => Err(e),
            }),
    }
}

fn value_of_version(version: Option<Value>) -> (r: Option<Value>)
    ensures
        r.deep_view() == live(version.deep_view()),
        version is None ==> r is None,
        version matches Some(v) ==> r.deep_view() == (if v is Tombstone {
            None
        } else {
            Some(v@)
        }),
{
    match version {
        Some(Value::Tombstone) => None,
        other => other,
    }
}

/// The newest version of a key in the memtables, also where it says that the key was deleted.
pub fn search_memory(
    active: &Memtable<Mutable>,
    frozen: &Vec<Arc<Memtable<Immutable>>>,
    key: &[u8],
) -> (r: Option<Value>)
    ensures
        r.deep_view() == first_version(memory_layers(active@, frozen@), key@),
        newest(active@, key@) is Some ==> r.deep_view() == newest(active@, key@),
{
    let ghost layers = memory_layers(active@, frozen@);
    proof {
        assert(layers.skip(0) =~= layers);
    }
    match active.latest(key) {
        Some(v) => {
            return Some(v);
        },
        None => {},
    }
    let mut i: usize = frozen.len();
    while i > 0
        invariant
            i <= frozen@.len(),
            layers == memory_layers(active@, frozen@),
            first_version(layers, key@) == first_version(
                layers.skip(frozen@.len() - i + 1),
                key@,
            ),
        decreases i,
    {
        let ghost at = frozen@.len() - i + 1;
        proof {
            assert(layers.skip(at)[0] == layers[at]);
            assert(layers[at] == frozen@[i - 1]@);
            assert(layers.skip(at).skip(1) =~= layers.skip(at + 1));
        }
        match frozen[i - 1].latest(key) {
            Some(v) => {
                return Some(v);
            },
            None => {},
        }
        i = i - 1;
    }
    assert(layers.skip((frozen@.len() + 1) as int) =~= Seq::<MemView>::empty());
    None
}

/// A search that starts with tables that know nothing goes on behind them.
proof fn lemma_tables_skip(
    tables: Seq<TableView>,
    key: Seq<u8>,
    n: int,
    r: Result<Option<ValueView>, DbError>,
)
    requires
        0 <= n <= tables.len(),
        forall|i: int|
            0 <= i < n ==> (#[trigger] tables[i]).is_found(
                key,
                Ok::<Option<ValueView>, DbError>(None),
            ),
        tables_give(tables.skip(n), key, r),
    ensures
        tables_give(tables, key, r),
    decreases n,
{
    if n == 0 {
        assert(tables.skip(0) =~= tables);
    } else {
        let rest = tables.skip(1);
        assert(rest.skip(n - 1) =~= tables.skip(n));
        assert forall|i: int| 0 <= i < n - 1 implies (#[trigger] rest[i]).is_found(
            key,
            Ok::<Option<ValueView>, DbError>(None),
        ) by {
            assert(rest[i] == tables[i + 1]);
        }
        lemma_tables_skip(rest, key, n - 1, r);
        assert(tables[0].is_found(key, Ok::<Option<ValueView>, DbError>(None)));
    }
}

/// Searches some tables, from the first to the last or the other way round.
fn search_level(level: &Vec<Arc<Sstable>>, newest_first: bool, key: &[u8]) -> (r: Result<
    Option<Value>,
    DbError,
>)
    requires
        forall|i: int| 0 <= i < level@.len() ==> (#[trigger] level@[i])@.filter.wf(),
    ensures
        exists|m: Result<Option<ValueView>, DbError>|
            search_agrees(r, m) && #[trigger] tables_give(
                in_order(level_tables(level@), newest_first),
                key@,
                m,
            ),
{
    let ghost tables = in_order(level_tables(level@), newest_first);
    let n: usize = level.len();
    let mut i: usize = 0;
    while i < n
        invariant
            i <= n,
            n == level@.len(),
            tables == in_order(level_tables(level@), newest_first),
            forall|j: int| 0 <= j < level@.len() ==> (#[trigger] level@[j])@.filter.wf(),
            forall|j: int|
                0 <= j < i ==> (#[trigger] tables[j]).is_found(
                    key@,
                    Ok::<Option<ValueView>, DbError>(None),
                ),
        decreases n - i,
    {
        let at: usize = if newest_first {
            n - 1 - i
        } else {
            i
        };
        let r = level[at].search(key);
        let ghost m = choose|m: Result<Option<ValueView>, DbError>|
            search_agrees(r, m) && #[trigger] level@[at as int]@.is_found(key@, m);
        proof {
            assert(tables[i as int] == level@[at as int]@);
            assert(tables.skip(i as int)[0] == tables[i as int]);
            assert(search_agrees(r, m));
            if m != Ok::<Option<ValueView>, DbError>(None) {
                assert(tables.skip(i as int)[0].is_found(key@, m));
                assert(tables_give(tables.skip(i as int), key@, m));
                lemma_tables_skip(tables, key@, i as int, m);
            }
        }
        match r {
            Ok(None) => {},
            found => {
                return found;
            },
        }
        i = i + 1;
    }
    proof {
        let none = Ok::<Option<ValueView>, DbError>(None);
        assert(tables.skip(n as int) =~= Seq::<TableView>::empty());
        lemma_tables_skip(tables, key@, n as int, none);
    }
    Ok(None)
}

/// Tables as they are, or from the last to the first.
pub open spec fn in_order(tables: Seq<TableView>, newest_first: bool) -> Seq<TableView> {
    if newest_first {
        tables.reverse()
    } else {
        tables
    }
}

/// A search that finds nothing in some tables goes on in those behind them; one that finds
/// something does not get there.
proof fn lemma_tables_append(
    a: Seq<TableView>,
    b: Seq<TableView>,
    key: Seq<u8>,
    m: Result<Option<ValueView>, DbError>,
    r: Result<Option<ValueView>, DbError>,
)
    requires
        tables_give(a, key, m),
        m == Ok::<Option<ValueView>, DbError>(None) ==> tables_give(b, key, r),
        m != Ok::<Option<ValueView>, DbError>(None) ==> r == m,
    ensures
        tables_give(a + b, key, r),
    decreases a.len(),
{
    if a.len() == 0 {
        assert(a + b =~= b);
    } else {
        let f = choose|f: Result<Option<ValueView>, DbError>| #[trigger]
            a[0].is_found(key, f) && match f {
                Ok(None) => tables_give(a.skip(1), key, m),
                _ => m == f,
            };
        assert((a + b)[0] == a[0]);
        assert((a + b).skip(1) =~= a.skip(1) + b);
        match f {
            Ok(None) => {
                lemma_tables_append(a.skip(1), b, key, m, r);
            },
            _ => {},
        }
        assert((a + b)[0].is_found(key, f));
    }
}

/// The value of a key, if it is there and was not deleted. The tables are searched only where
/// no memtable knows the key, and their filters have to be usable only then.
pub fn get(
    active: &Memtable<Mutable>,
    frozen: &Vec<Arc<Memtable<Immutable>>>,
    levels: &Vec<Vec<Arc<Sstable>>>,
    key: &[u8],
) -> (r: Result<Option<Value>, DbError>)
    requires
        first_version(memory_layers(active@, frozen@), key@) is None ==> forall|l: int, i: int|
            0 <= l < levels@.len() && 0 <= i < levels@[l]@.len() ==> (
            #[trigger] levels@[l]@[i])@.filter.wf(),
    ensures
        exists|m: Result<Option<ValueView>, DbError>|
            search_agrees(r, m) && #[trigger] is_answer(active@, frozen@, levels@, key@, m),
        r matches Ok(v) ==> is_answer(
            active@,
            frozen@,
            levels@,
            key@,
            Ok::<Option<ValueView>, DbError>(v.deep_view()),
        ),
        r matches Err(e) ==> is_answer(
            active@,
            frozen@,
            levels@,
            key@,
            Err::<Option<ValueView>, DbError>(e),
        ),
{
    let ghost first = first_version(memory_layers(active@, frozen@), key@);
    match search_memory(active, frozen, key) {
        Some(v) => {
            let r = value_of_version(Some(v));
            proof {
                let m = Ok::<Option<ValueView>, DbError>(r.deep_view());
                assert(is_answer(active@, frozen@, levels@, key@, m));
            }
            return Ok(r);
        },
        None => {},
    }
    let ghost views = tables_of(levels@);
    let ghost none = Ok::<Option<ValueView>, DbError>(None);
    let mut l: usize = 0;
    assert(search_order(views.take(0)) =~= Seq::<TableView>::empty());
    while l < levels.len()
        invariant
            l <= levels@.len(),
            views == tables_of(levels@),
            none == Ok::<Option<ValueView>, DbError>(None),
            first == first_version(memory_layers(active@, frozen@), key@),
            first is None,
            forall|k: int, i: int|
                0 <= k < levels@.len() && 0 <= i < levels@[k]@.len() ==> (
                #[trigger] levels@[k]@[i])@.filter.wf(),
            tables_give(search_order(views.take(l as int)), key@, none),
        decreases levels@.len() - l,
    {
        let level = &levels[l];
        assert forall|i: int| 0 <= i < level@.len() implies (#[trigger] level@[i])@.filter.wf() by {
            assert(levels@[l as int]@[i]@.filter.wf());
        }
        let r = search_level(level, l == 0, key);
        let ghost so_far = search_order(views.take(l as int));
        let ghost here = in_order(level_tables(level@), l == 0);
        let ghost m = choose|m: Result<Option<ValueView>, DbError>|
            search_agrees(r, m) && #[trigger] tables_give(here, key@, m);
        proof {
            assert(views.take(l + 1).drop_last() =~= views.take(l as int));
            assert(views.take(l + 1).last() == level_tables(level@));
            assert(tables_give(here, key@, m) && search_agrees(r, m));
            lemma_tables_append(so_far, here, key@, none, m);
            if l == 0 {
                assert(so_far + here =~= here);
            }
            assert(search_order(views.take(l + 1)) == so_far + here);
            if m != none {
                lemma_order_prefix(views, l + 1, key@, m);
                assert(views.take(views.len() as int) =~= views);
            }
        }
        match r {
            Ok(None) => {},
            Ok(v) => {
                let answer = value_of_version(v);
                proof {
                    let w = Ok::<Option<ValueView>, DbError>(answer.deep_view());
                    assert(is_answer(active@, frozen@, levels@, key@, w));
                }
                return Ok(answer);
            },
            Err(e) => {
                proof {
                    assert(is_answer(
                        active@,
                        frozen@,
                        levels@,
                        key@,
                        Err::<Option<ValueView>, DbError>(e),
                    ));
                }
                return Err(e);
            },
        }
        l = l + 1;
    }
    proof {
        assert(views.take(l as int) =~= views);
        assert(is_answer(active@, frozen@, levels@, key@, none));
    }
    Ok(None)
}

/// What is found in the first levels is what is found.
proof fn lemma_order_prefix(
    views: Seq<Seq<TableView>>,
    n: int,
    key: Seq<u8>,
    m: Result<Option<ValueView>, DbError>,
)
    requires
        1 <= n <= views.len(),
        tables_give(search_order(views.take(n)), key, m),
        m != Ok::<Option<ValueView>, DbError>(None),
    ensures
        tables_give(search_order(views), key, m),
    decreases views.len() - n,
{
    if n == views.len() {
        assert(views.take(n) =~= views);
    } else {
        let next = views.take(n + 1);
        assert(next.drop_last() =~= views.take(n));
        lemma_tables_append(search_order(views.take(n)), next.last(), key, m, m);
        lemma_order_prefix(views, n + 1, key, m);
    }
}

// --- What readers are given ---

/// Whether a version of a key is the newest of all layers.
pub open spec fn is_newest_of_all(
    layers: Seq<MemView>,
    key: Seq<u8>,
    i: int,
    lsn: u64,
) -> bool {
    &&& 0 <= i < layers.len()
    &&& layers[i].dom().contains(KeyView { bytes: key, lsn })
    &&& forall|j: int, other: u64|
        0 <= j < layers.len() && #[trigger] layers[j].dom().contains(
            KeyView { bytes: key, lsn: other },
        ) ==> other <= lsn
}

/// Whether every version of a key in a layer is newer than those in the layers behind it.
pub open spec fn newest_layers_first(layers: Seq<MemView>, key: Seq<u8>) -> bool {
    forall|a: int, b: int, x: u64, y: u64|
        0 <= a < b < layers.len() && #[trigger] layers[a].dom().contains(
            KeyView { bytes: key, lsn: x },
        ) && #[trigger] layers[b].dom().contains(KeyView { bytes: key, lsn: y }) ==> x > y
}

/// Where newer versions are in earlier layers, the first layer that knows a key knows its
/// newest version.
pub proof fn lemma_first_is_newest(layers: Seq<MemView>, key: Seq<u8>, i: int, lsn: u64)
    requires
        newest_layers_first(layers, key),
        is_newest_of_all(layers, key, i, lsn),
    ensures
        first_version(layers, key) == Some(layers[i][KeyView { bytes: key, lsn }]),
    decreases layers.len(),
{
    let k = KeyView { bytes: key, lsn };
    if i == 0 {
        assert forall|other: u64| #[trigger]
            layers[0].dom().contains(KeyView { bytes: key, lsn: other }) implies other <= lsn by {}
        assert(is_newest(layers[0], key, lsn));
        lemma_newest(layers[0], key, lsn);
    } else {
        if newest(layers[0], key) is Some {
            let other = choose|o: u64| is_newest(layers[0], key, o);
            assert(layers[0].dom().contains(KeyView { bytes: key, lsn: other }));
            assert(layers[i].dom().contains(k));
        }
        let rest = layers.skip(1);
        assert forall|a: int, b: int, x: u64, y: u64|
            0 <= a < b < rest.len() && #[trigger] rest[a].dom().contains(
                KeyView { bytes: key, lsn: x },
            ) && #[trigger] rest[b].dom().contains(KeyView { bytes: key, lsn: y }) implies x
            > y by {
            assert(layers[a + 1].dom().contains(KeyView { bytes: key, lsn: x }));
            assert(layers[b + 1].dom().contains(KeyView { bytes: key, lsn: y }));
        }
        assert forall|j: int, other: u64|
            0 <= j < rest.len() && #[trigger] rest[j].dom().contains(
                KeyView { bytes: key, lsn: other },
            ) implies other <= lsn by {
            assert(layers[j + 1].dom().contains(KeyView { bytes: key, lsn: other }));
        }
        assert(rest[i - 1] == layers[i]);
        lemma_first_is_newest(rest, key, i - 1, lsn);
    }
}

/// A write to the first layer with an LSN above those there is the version that the next read
/// of its key finds. Other keys read as before.
pub proof fn lemma_write_then_get(layers: Seq<MemView>, k: KeyView, v: ValueView, other: Seq<u8>)
    requires
        layers.len() > 0,
        forall|lsn: u64| #[trigger]
            layers[0].dom().contains(KeyView { bytes: k.bytes, lsn }) ==> lsn <= k.lsn,
    ensures
        ({
            let written = layers.update(0, layers[0].insert(k, v));
            &&& first_version(written, k.bytes) == Some(v)
            &&& other != k.bytes ==> first_version(written, other) == first_version(layers, other)
        }),
{
    lemma_write_then_read(layers[0], k, v, other);
    let written = layers.update(0, layers[0].insert(k, v));
    assert(written.skip(1) =~= layers.skip(1));
}

/// Whether an open table is that of a memtable's contents.
pub open spec fn is_table_of(t: TableView, m: MemView) -> bool {
    exists|es: Seq<Entry>| #[trigger] holds_run(t, es) && is_dump(m, es)
}

/// A flush changes no answer: the layers are the same, with tables in place of the memtables
/// that were flushed.
pub proof fn lemma_flush_keeps_layers(
    active: MemView,
    frozen: Seq<Arc<Memtable<Immutable>>>,
    maps: Seq<MemView>,
    flushed: Seq<MemView>,
)
    requires
        flushed.len() <= frozen.len(),
        forall|i: int| 0 <= i < flushed.len() ==> #[trigger] flushed[i] == frozen[i]@,
    ensures
        memory_layers(active, frozen.skip(flushed.len() as int)) + (flushed.reverse() + maps)
            == memory_layers(active, frozen) + maps,
{
    let n = flushed.len() as int;
    let after = memory_layers(active, frozen.skip(n)) + (flushed.reverse() + maps);
    let before = memory_layers(active, frozen) + maps;
    assert forall|i: int| 0 <= i < before.len() implies #[trigger] after[i] == before[i] by {
        if 1 <= i <= frozen.len() - n {
            assert(frozen.skip(n)[frozen.len() - n - i] == frozen[frozen.len() - i]);
        } else if frozen.len() - n < i <= frozen.len() {
            let k = frozen.len() - i;
            assert(flushed.reverse()[n - 1 - k] == flushed[k]);
        }
    }
    assert(after =~= before);
}

/// The tables of a flush are searched before those that were in the first level.
pub proof fn lemma_flushed_first(levels: Seq<Seq<TableView>>, new: Seq<TableView>)
    requires
        levels.len() > 0,
    ensures
        search_order(levels.update(0, levels[0] + new)) == new.reverse() + search_order(levels),
    decreases levels.len(),
{
    let after = levels.update(0, levels[0] + new);
    if levels.len() == 1 {
        assert((levels[0] + new).reverse() =~= new.reverse() + levels[0].reverse());
    } else {
        lemma_flushed_first(levels.drop_last(), new);
        assert(after.drop_last() =~= levels.drop_last().update(0, levels[0] + new));
        assert(search_order(after) =~= new.reverse() + search_order(levels));
    }
}

/// Searching tables in turn gives what their contents give, layer by layer, and no error.
pub proof fn lemma_tables_answer(
    tables: Seq<TableView>,
    maps: Seq<MemView>,
    key: Seq<u8>,
    r: Result<Option<ValueView>, DbError>,
)
    requires
        tables.len() == maps.len(),
        forall|i: int| 0 <= i < tables.len() ==> is_table_of(#[trigger] tables[i], maps[i]),
        tables_give(tables, key, r),
    ensures
        r == Ok::<Option<ValueView>, DbError>(first_version(maps, key)),
    decreases tables.len(),
{
    if tables.len() > 0 {
        let found = choose|m: Result<Option<ValueView>, DbError>| #[trigger]
            tables[0].is_found(key, m) && match m {
                Ok(None) => tables_give(tables.skip(1), key, r),
                _ => r == m,
            };
        assert(is_table_of(tables[0], maps[0]));
        let es = choose|es: Seq<Entry>| #[trigger]
            holds_run(tables[0], es) && is_dump(maps[0], es);
        lemma_run_search(tables[0], es, key, found);
        lemma_dump_lookup(maps[0], es, key);
        if newest(maps[0], key) is None {
            assert forall|i: int| 0 <= i < tables.len() - 1 implies is_table_of(
                #[trigger] tables.skip(1)[i],
                maps.skip(1)[i],
            ) by {
                assert(is_table_of(tables[i + 1], maps[i + 1]));
            }
            lemma_tables_answer(tables.skip(1), maps.skip(1), key, r);
        }
    }
}

/// A reader of a sound database is given what the first layer that knows a key knows of it.
/// `maps` stands for the contents of the tables.
pub proof fn lemma_get_is_first(
    active: MemView,
    frozen: Seq<Arc<Memtable<Immutable>>>,
    levels: Seq<Vec<Arc<Sstable>>>,
    maps: Seq<MemView>,
    key: Seq<u8>,
    r: Result<Option<ValueView>, DbError>,
)
    requires
        is_answer(active, frozen, levels, key, r),
        search_order(tables_of(levels)).len() == maps.len(),
        forall|i: int|
            0 <= i < maps.len() ==> is_table_of(
                #[trigger] search_order(tables_of(levels))[i],
                maps[i],
            ),
    ensures
        r == Ok::<Option<ValueView>, DbError>(
            live(first_version(memory_layers(active, frozen) + maps, key)),
        ),
{
    let memory = memory_layers(active, frozen);
    lemma_first_version_append(memory, maps, key);
    if first_version(memory, key) is None {
        let m = choose|m: Result<Option<ValueView>, DbError>| #[trigger]
            tables_give(search_order(tables_of(levels)), key, m) && r == (match m {
                Ok(v) => Ok(live(v)),
                Err(e) => Err(e),
            });
        lemma_tables_answer(search_order(tables_of(levels)), maps, key, m);
    }
}

/// The first layers decide; where they know nothing, those behind them do.
proof fn lemma_first_version_append(a: Seq<MemView>, b: Seq<MemView>, key: Seq<u8>)
    ensures
        first_version(a + b, key) == (if first_version(a, key) is Some {
            first_version(a, key)
        } else {
            first_version(b, key)
        }),
    decreases a.len(),
{
    if a.len() == 0 {
        assert(a + b =~= b);
    } else {
        assert((a + b).skip(1) =~= a.skip(1) + b);
        lemma_first_version_append(a.skip(1), b, key);
    }
}

} // verus!
