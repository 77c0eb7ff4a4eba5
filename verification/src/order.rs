//! What every operation keeps: a read finds the newest version of a key.
//!
//! The layers of the database are its memtables, from the active one to the oldest, and behind
//! them its tables, in the order in which they are searched. As long as every version of a key
//! is in front of the older ones, a read finds the newest one. Writes, freezing, flushes and
//! compactions keep that order; flushes and compactions change no answer.

use crate::compact::answers::{
    is_compaction, is_split, lemma_compacted_sound, lemma_compaction_keeps_answers,
    lemma_compaction_keeps_order, lemma_compaction_same_entries,
};
use crate::compact::commit::{compacted, flushed_levels, with_levels, CompactionPlan};
use crate::compact::levels::{
    all_entries, all_sound, by_age, is_held, lemma_all_by_age, lemma_all_entries,
    lemma_concat_contains, lemma_level_run, lemma_search_order_member, lemma_search_order_runs,
    lemma_sorted_by_age, level_holds, level_run, newest_first, run_of, views_of, Open,
};
use crate::data_stores::key::{key_lt, lemma_key_lt_irreflexive, KeyView};
use crate::data_stores::manifest::{file_ids, LevelView};
use crate::data_stores::memtable::{
    insert_all, is_dump, is_newest, live, newest, Immutable, MemView, Memtable,
};
use crate::data_stores::sstable::Sstable;
use crate::data_stores::table_format::{
    concat, holds_run, lemma_holds_run, sorted, Entry, TableView,
};
use crate::data_stores::value::ValueView;
use crate::data_stores::versions::lemma_live;
use crate::db::{
    first_version, is_answer, is_newest_of_all, is_table_of, lemma_first_is_newest,
    lemma_flush_keeps_layers, lemma_flushed_first, lemma_get_is_first, lemma_write_then_get,
    memory_layers, newest_layers_first, search_order, tables_give, tables_of,
};
use crate::err::DbError;
use std::sync::Arc;
use vstd::prelude::*;

verus! {

// --- Memory ---

/// A write to the active memtable with an LSN above those of its key in the layers behind it
/// keeps the order.
pub proof fn lemma_write_keeps_order(layers: Seq<MemView>, k: KeyView, v: ValueView, key: Seq<u8>)
    requires
        layers.len() > 0,
        newest_layers_first(layers, key),
        forall|i: int, lsn: u64|
            0 < i < layers.len() && #[trigger] layers[i].dom().contains(
                KeyView { bytes: k.bytes, lsn },
            ) ==> lsn < k.lsn,
    ensures
        newest_layers_first(layers.update(0, layers[0].insert(k, v)), key),
{
    let after = layers.update(0, layers[0].insert(k, v));
    assert forall|a: int, b: int, x: u64, y: u64|
        0 <= a < b < after.len() && #[trigger] after[a].dom().contains(
            KeyView { bytes: key, lsn: x },
        ) && #[trigger] after[b].dom().contains(KeyView { bytes: key, lsn: y }) implies x > y by {
        assert(layers[b].dom().contains(KeyView { bytes: key, lsn: y }));
        if a > 0 || (KeyView { bytes: key, lsn: x }) != k {
            assert(layers[a].dom().contains(KeyView { bytes: key, lsn: x }));
        } else {
            assert(layers[b].dom().contains(KeyView { bytes: k.bytes, lsn: y }));
        }
    }
}

/// Freezing the active memtable and starting a new one keeps the order and changes no answer.
pub proof fn lemma_freeze_keeps_order(layers: Seq<MemView>, key: Seq<u8>)
    requires
        newest_layers_first(layers, key),
    ensures
        newest_layers_first(seq![MemView::empty()] + layers, key),
        first_version(seq![MemView::empty()] + layers, key) == first_version(layers, key),
{
    let after = seq![MemView::empty()] + layers;
    assert forall|a: int, b: int, x: u64, y: u64|
        0 <= a < b < after.len() && #[trigger] after[a].dom().contains(
            KeyView { bytes: key, lsn: x },
        ) && #[trigger] after[b].dom().contains(KeyView { bytes: key, lsn: y }) implies x > y by {
        assert(layers[a - 1].dom().contains(KeyView { bytes: key, lsn: x }));
        assert(layers[b - 1].dom().contains(KeyView { bytes: key, lsn: y }));
    }
    assert(newest(after[0], key) is None);
    assert(after.skip(1) =~= layers);
}

// --- Tables as layers ---

/// The contents of a table, as a map.
pub open spec fn contents_of(t: TableView) -> MemView {
    insert_all(MemView::empty(), run_of(t))
}

/// The layers of the database.
pub open spec fn layers_of(
    active: MemView,
    frozen: Seq<Arc<Memtable<Immutable>>>,
    levels: Seq<Seq<Open>>,
) -> Seq<MemView> {
    let tables = search_order(views_of(levels));
    memory_layers(active, frozen) + Seq::new(tables.len(), |i: int| contents_of(tables[i]))
}

/// Whether some layer has a version.
pub open spec fn is_in(layers: Seq<MemView>, k: KeyView) -> bool {
    exists|i: int| 0 <= i < layers.len() && #[trigger] layers[i].dom().contains(k)
}

/// Whether every table is one that was written, in order.
pub open spec fn all_levels_sound(levels: Seq<Seq<Open>>) -> bool {
    forall|l: int| 0 <= l < levels.len() ==> all_sound(#[trigger] levels[l])
}

proof fn lemma_insert_all_dump(es: Seq<Entry>)
    requires
        sorted(es),
    ensures
        is_dump(insert_all(MemView::empty(), es), es),
    decreases es.len(),
{
    let m = insert_all(MemView::empty(), es);
    if es.len() > 0 {
        let shorter = es.drop_last();
        let last = es.len() - 1;
        assert forall|i: int, j: int| 0 <= i < j < shorter.len() implies key_lt(
            (#[trigger] shorter[i]).0,
            (#[trigger] shorter[j]).0,
        ) by {
            assert(key_lt(es[i].0, es[j].0));
        }
        lemma_insert_all_dump(shorter);
        let before = insert_all(MemView::empty(), shorter);
        assert forall|k: KeyView| #[trigger] m.dom().contains(k) implies exists|i: int|
            0 <= i < es.len() && (#[trigger] es[i]).0 == k by {
            if k == es[last].0 {
                assert(es[last].0 == k);
            } else {
                assert(before.dom().contains(k));
                let i = choose|i: int| 0 <= i < shorter.len() && (#[trigger] shorter[i]).0 == k;
                assert(es[i].0 == k);
            }
        }
        assert forall|i: int| 0 <= i < es.len() implies m.dom().contains((#[trigger] es[i]).0)
            && m[es[i].0] == es[i].1 by {
            if i < last {
                assert(shorter[i] == es[i]);
                assert(key_lt(es[i].0, es[last].0));
                lemma_key_lt_irreflexive(es[last].0);
            }
        }
    }
}

/// Two maps with the same entries are the same.
proof fn lemma_same_dump(a: MemView, b: MemView, es: Seq<Entry>)
    requires
        is_dump(a, es),
        is_dump(b, es),
    ensures
        a == b,
{
    assert forall|k: KeyView| a.dom().contains(k) == b.dom().contains(k) by {
        if a.dom().contains(k) {
            let i = choose|i: int| 0 <= i < es.len() && (#[trigger] es[i]).0 == k;
            assert(b.dom().contains(es[i].0));
        }
        if b.dom().contains(k) {
            let i = choose|i: int| 0 <= i < es.len() && (#[trigger] es[i]).0 == k;
            assert(a.dom().contains(es[i].0));
        }
    }
    assert forall|k: KeyView| a.dom().contains(k) implies a[k] == b[k] by {
        let i = choose|i: int| 0 <= i < es.len() && (#[trigger] es[i]).0 == k;
        assert(a[es[i].0] == es[i].1 && b[es[i].0] == es[i].1);
    }
    assert(a =~= b);
}

/// A sound table is that of its contents, and of no others.
pub proof fn lemma_contents_of(t: TableView)
    ensures
        holds_run(t, run_of(t)) ==> is_table_of(t, contents_of(t)),
        forall|m: MemView| #[trigger] is_table_of(t, m) ==> m == contents_of(t),
{
    if holds_run(t, run_of(t)) {
        lemma_holds_run(t, run_of(t));
        lemma_insert_all_dump(run_of(t));
    }
    assert forall|m: MemView| #[trigger] is_table_of(t, m) implies m == contents_of(t) by {
        let es = choose|es: Seq<Entry>| #[trigger] holds_run(t, es) && is_dump(m, es);
        lemma_holds_run(t, es);
        lemma_insert_all_dump(es);
        lemma_same_dump(m, contents_of(t), es);
    }
}

/// Whether some maps are the contents of some tables.
pub open spec fn are_contents(tables: Seq<TableView>, maps: Seq<MemView>) -> bool {
    &&& tables.len() == maps.len()
    &&& forall|i: int| 0 <= i < tables.len() ==> is_table_of(#[trigger] tables[i], maps[i])
}

/// Whether the versions of a key in a run are newer than those in the runs behind it.
spec fn newest_runs_first(runs: Seq<Seq<Entry>>, key: Seq<u8>) -> bool {
    forall|i: int, j: int, e: Entry, f: Entry|
        0 <= i < j < runs.len() && (#[trigger] runs[i].contains(e)) && (#[trigger] runs[j].contains(
            f,
        )) && e.0.bytes == key && f.0.bytes == key ==> e.0.lsn > f.0.lsn
}

proof fn lemma_concat_by_age(runs: Seq<Seq<Entry>>, key: Seq<u8>)
    requires
        forall|i: int| 0 <= i < runs.len() ==> newest_first(#[trigger] runs[i], key),
        newest_runs_first(runs, key),
    ensures
        newest_first(concat(runs), key),
    decreases runs.len(),
{
    if runs.len() > 0 {
        let first = runs[0];
        let tail = runs.skip(1);
        assert forall|i: int| 0 <= i < tail.len() implies newest_first(#[trigger] tail[i], key) by {
            assert(newest_first(runs[i + 1], key));
        }
        assert forall|i: int, j: int, e: Entry, f: Entry|
            0 <= i < j < tail.len() && (#[trigger] tail[i].contains(e)) && (
            #[trigger] tail[j].contains(f)) && e.0.bytes == key && f.0.bytes == key implies e.0.lsn
            > f.0.lsn by {
            assert(runs[i + 1].contains(e) && runs[j + 1].contains(f));
        }
        lemma_concat_by_age(tail, key);
        let rest = concat(tail);
        let all = concat(runs);
        let n = first.len();
        assert(newest_first(runs[0], key));
        assert forall|i: int, j: int|
            0 <= i < j < all.len() && (#[trigger] all[i]).0.bytes == key && (
            #[trigger] all[j]).0.bytes == key implies all[i].0.lsn > all[j].0.lsn by {
            if j < n {
                assert(first[i].0.lsn > first[j].0.lsn);
            } else if i >= n {
                assert(rest[i - n].0.lsn > rest[j - n].0.lsn);
            } else {
                assert(first[i] == all[i]);
                assert(rest[j - n] == all[j]);
                assert(rest.contains(all[j]));
                lemma_concat_contains(tail, all[j]);
                let k = choose|k: int|
                    0 <= k < tail.len() && (#[trigger] tail[k]).contains(all[j]);
                assert(runs[0].contains(all[i]));
                assert(runs[k + 1].contains(all[j]));
            }
        }
    }
}

proof fn lemma_runs_by_age(runs: Seq<Seq<Entry>>, key: Seq<u8>)
    requires
        newest_first(concat(runs), key),
    ensures
        newest_runs_first(runs, key),
    decreases runs.len(),
{
    if runs.len() > 0 {
        let first = runs[0];
        let tail = runs.skip(1);
        let rest = concat(tail);
        let all = concat(runs);
        let n = first.len();
        assert forall|i: int, j: int|
            0 <= i < j < rest.len() && (#[trigger] rest[i]).0.bytes == key && (
            #[trigger] rest[j]).0.bytes == key implies rest[i].0.lsn > rest[j].0.lsn by {
            assert(all[n + i] == rest[i] && all[n + j] == rest[j]);
        }
        lemma_runs_by_age(tail, key);
        assert forall|i: int, j: int, e: Entry, f: Entry|
            0 <= i < j < runs.len() && (#[trigger] runs[i].contains(e)) && (
            #[trigger] runs[j].contains(f)) && e.0.bytes == key && f.0.bytes == key implies e.0.lsn
            > f.0.lsn by {
            assert(tail[j - 1].contains(f));
            if i > 0 {
                assert(tail[i - 1].contains(e));
            } else {
                lemma_concat_contains(tail, f);
                assert(rest.contains(f));
                let x = choose|x: int| 0 <= x < first.len() && first[x] == e;
                let y = choose|y: int| 0 <= y < rest.len() && rest[y] == f;
                assert(all[x] == e && all[n + y] == f);
            }
        }
    }
}

proof fn lemma_levels_by_age(levels: Seq<Seq<Open>>, key: Seq<u8>)
    requires
        newest_first(all_entries(levels), key),
    ensures
        by_age(levels, key),
    decreases levels.len(),
{
    if levels.len() > 0 {
        let shorter = levels.drop_last();
        let last = levels.len() - 1;
        let a = all_entries(shorter);
        let b = level_run(levels[last], last == 0);
        let all = all_entries(levels);
        assert(all == a + b);
        assert forall|i: int, j: int|
            0 <= i < j < a.len() && (#[trigger] a[i]).0.bytes == key && (#[trigger] a[j]).0.bytes
                == key implies a[i].0.lsn > a[j].0.lsn by {
            assert(all[i] == a[i] && all[j] == a[j]);
        }
        assert forall|i: int, j: int|
            0 <= i < j < b.len() && (#[trigger] b[i]).0.bytes == key && (#[trigger] b[j]).0.bytes
                == key implies b[i].0.lsn > b[j].0.lsn by {
            assert(all[a.len() + i] == b[i] && all[a.len() + j] == b[j]);
        }
        lemma_levels_by_age(shorter, key);
        assert forall|l: int| 0 <= l < levels.len() implies newest_first(
            level_run(#[trigger] levels[l], l == 0),
            key,
        ) by {
            if l < last {
                assert(shorter[l] == levels[l]);
                assert(newest_first(level_run(shorter[l], l == 0), key));
            }
        }
        assert forall|l: int, m: int, e: Entry, f: Entry|
            0 <= l < m < levels.len() && #[trigger] level_holds(levels[l], e)
                && #[trigger] level_holds(levels[m], f) && e.0.bytes == key && f.0.bytes
                == key implies e.0.lsn > f.0.lsn by {
            assert(level_holds(shorter[l], e));
            if m < last {
                assert(level_holds(shorter[m], f));
            } else {
                assert(is_held(shorter, e));
                lemma_all_entries(shorter, e);
                lemma_level_run(levels[last], last == 0, f);
                let x = choose|x: int| 0 <= x < a.len() && a[x] == e;
                let y = choose|y: int| 0 <= y < b.len() && b[y] == f;
                assert(all[x] == e && all[a.len() + y] == f);
            }
        }
    }
}

/// The versions that a table has are those of its contents.
pub proof fn lemma_contents(t: TableView, m: MemView, k: KeyView)
    requires
        is_table_of(t, m),
    ensures
        holds_run(t, run_of(t)),
        is_dump(m, run_of(t)),
        m.dom().contains(k) <==> exists|e: Entry| #[trigger] run_of(t).contains(e) && e.0 == k,
{
    let es = choose|es: Seq<Entry>| #[trigger] holds_run(t, es) && is_dump(m, es);
    lemma_holds_run(t, es);
    if m.dom().contains(k) {
        let i = choose|i: int| 0 <= i < es.len() && (#[trigger] es[i]).0 == k;
        assert(es.contains(es[i]));
    }
    if exists|e: Entry| #[trigger] es.contains(e) && e.0 == k {
        let e = choose|e: Entry| #[trigger] es.contains(e) && e.0 == k;
        let i = choose|i: int| 0 <= i < es.len() && es[i] == e;
        assert(m.dom().contains(es[i].0));
    }
}

spec fn table_runs(tables: Seq<TableView>) -> Seq<Seq<Entry>> {
    Seq::new(tables.len(), |i: int| run_of(tables[i]))
}

/// The order of the layers is the order of age in the tables.
proof fn lemma_layers_and_age(levels: Seq<Seq<Open>>, maps: Seq<MemView>, key: Seq<u8>)
    requires
        are_contents(search_order(views_of(levels)), maps),
    ensures
        newest_layers_first(maps, key) <==> by_age(levels, key),
{
    let tables = search_order(views_of(levels));
    let runs = table_runs(tables);
    lemma_search_order_runs(levels);
    assert(runs =~= Seq::new(tables.len(), |i: int| run_of(tables[i])));
    if newest_layers_first(maps, key) {
        assert forall|i: int| 0 <= i < runs.len() implies newest_first(#[trigger] runs[i], key) by {
            lemma_contents(tables[i], maps[i], KeyView { bytes: key, lsn: 0 });
            lemma_holds_run(tables[i], runs[i]);
            lemma_sorted_by_age(runs[i], key);
        }
        assert forall|i: int, j: int, e: Entry, f: Entry|
            0 <= i < j < runs.len() && (#[trigger] runs[i].contains(e)) && (
            #[trigger] runs[j].contains(f)) && e.0.bytes == key && f.0.bytes == key implies e.0.lsn
            > f.0.lsn by {
            let x = KeyView { bytes: key, lsn: e.0.lsn };
            let y = KeyView { bytes: key, lsn: f.0.lsn };
            assert(e.0 =~= x && f.0 =~= y);
            lemma_contents(tables[i], maps[i], x);
            lemma_contents(tables[j], maps[j], y);
            assert(maps[i].dom().contains(x));
            assert(maps[j].dom().contains(y));
        }
        lemma_concat_by_age(runs, key);
        lemma_levels_by_age(levels, key);
    }
    if by_age(levels, key) {
        lemma_all_by_age(levels, key);
        lemma_runs_by_age(runs, key);
        assert forall|a: int, b: int, x: u64, y: u64|
            0 <= a < b < maps.len() && #[trigger] maps[a].dom().contains(
                KeyView { bytes: key, lsn: x },
            ) && #[trigger] maps[b].dom().contains(KeyView { bytes: key, lsn: y }) implies x
            > y by {
            let kx = KeyView { bytes: key, lsn: x };
            let ky = KeyView { bytes: key, lsn: y };
            lemma_contents(tables[a], maps[a], kx);
            lemma_contents(tables[b], maps[b], ky);
            let e = choose|e: Entry| #[trigger] run_of(tables[a]).contains(e) && e.0 == kx;
            let f = choose|f: Entry| #[trigger] run_of(tables[b]).contains(f) && f.0 == ky;
            assert(runs[a].contains(e) && runs[b].contains(f));
        }
    }
}

/// A version is in the contents of a table exactly where an open table has it.
proof fn lemma_contents_held(levels: Seq<Seq<Open>>, maps: Seq<MemView>, k: KeyView)
    requires
        are_contents(search_order(views_of(levels)), maps),
    ensures
        (exists|i: int| 0 <= i < maps.len() && #[trigger] maps[i].dom().contains(k)) <==> (exists|
            e: Entry,
        | #[trigger] is_held(levels, e) && e.0 == k),
{
    let tables = search_order(views_of(levels));
    let runs = table_runs(tables);
    lemma_search_order_runs(levels);
    assert(runs =~= Seq::new(tables.len(), |i: int| run_of(tables[i])));
    if exists|i: int| 0 <= i < maps.len() && #[trigger] maps[i].dom().contains(k) {
        let i = choose|i: int| 0 <= i < maps.len() && #[trigger] maps[i].dom().contains(k);
        lemma_contents(tables[i], maps[i], k);
        let e = choose|e: Entry| #[trigger] run_of(tables[i]).contains(e) && e.0 == k;
        assert(runs[i].contains(e));
        lemma_concat_contains(runs, e);
        lemma_all_entries(levels, e);
        assert(is_held(levels, e));
    }
    if exists|e: Entry| #[trigger] is_held(levels, e) && e.0 == k {
        let e = choose|e: Entry| #[trigger] is_held(levels, e) && e.0 == k;
        lemma_all_entries(levels, e);
        lemma_concat_contains(runs, e);
        let i = choose|i: int| 0 <= i < runs.len() && (#[trigger] runs[i]).contains(e);
        lemma_contents(tables[i], maps[i], k);
        assert(maps[i].dom().contains(k));
    }
}

/// The contents of sound tables are their contents as layers.
proof fn lemma_layer_contents(levels: Seq<Seq<Open>>)
    requires
        all_levels_sound(levels),
    ensures
        ({
            let tables = search_order(views_of(levels));
            are_contents(tables, Seq::new(tables.len(), |i: int| contents_of(tables[i])))
        }),
{
    let tables = search_order(views_of(levels));
    assert forall|i: int| 0 <= i < tables.len() implies is_table_of(
        #[trigger] tables[i],
        contents_of(tables[i]),
    ) by {
        lemma_search_order_member(levels, i);
        let (l, j) = choose|l: int, j: int|
            0 <= l < levels.len() && 0 <= j < levels[l].len() && (#[trigger] levels[l][j]).1
                == tables[i];
        assert(all_sound(levels[l]));
        assert(holds_run(levels[l][j].1, run_of(levels[l][j].1)));
        lemma_contents_of(tables[i]);
    }
}

/// The open tables without their numbers are what a read searches.
proof fn lemma_views(levels: Vec<Vec<Arc<Sstable>>>)
    ensures
        views_of(levels.deep_view()) == tables_of(levels@),
{
    let a = views_of(levels.deep_view());
    let b = tables_of(levels@);
    assert forall|l: int| 0 <= l < a.len() implies #[trigger] a[l] == b[l] by {
        assert(a[l] =~= b[l]);
    }
    assert(a =~= b);
}

// --- What readers are given ---

/// What a reader is given once a write is done: its value, or nothing where the write was a
/// delete, as long as no version in the active memtable is newer. A read of any other key is
/// given what it was given before.
pub proof fn lemma_put_then_get(
    active: MemView,
    frozen: Seq<Arc<Memtable<Immutable>>>,
    levels: Seq<Vec<Arc<Sstable>>>,
    k: KeyView,
    v: ValueView,
    key: Seq<u8>,
    r: Result<Option<ValueView>, DbError>,
)
    requires
        forall|lsn: u64| #[trigger]
            active.dom().contains(KeyView { bytes: k.bytes, lsn }) ==> lsn <= k.lsn,
    ensures
        key == k.bytes ==> (is_answer(active.insert(k, v), frozen, levels, key, r) <==> r == Ok::<
            Option<ValueView>,
            DbError,
        >(live(Some(v)))),
        key == k.bytes && is_answer(active.insert(k, v), frozen, levels, key, r) ==> r == Ok::<
            Option<ValueView>,
            DbError,
        >(
            if v is Tombstone {
                None
            } else {
                Some(v)
            },
        ),
        key != k.bytes ==> (is_answer(active.insert(k, v), frozen, levels, key, r) <==> is_answer(
            active,
            frozen,
            levels,
            key,
            r,
        )),
{
    let before = memory_layers(active, frozen);
    let after = memory_layers(active.insert(k, v), frozen);
    assert(after =~= before.update(0, active.insert(k, v)));
    lemma_write_then_get(before, k, v, key);
    lemma_live(v);
}

/// Freezing the active memtable changes no answer.
pub proof fn lemma_freeze_then_get(
    active: Memtable<Immutable>,
    frozen: Seq<Arc<Memtable<Immutable>>>,
    levels: Seq<Vec<Arc<Sstable>>>,
    key: Seq<u8>,
    r: Result<Option<ValueView>, DbError>,
)
    ensures
        is_answer(MemView::empty(), frozen.push(Arc::new(active)), levels, key, r) <==> is_answer(
            active@,
            frozen,
            levels,
            key,
            r,
        ),
{
    let before = memory_layers(active@, frozen);
    let after = memory_layers(MemView::empty(), frozen.push(Arc::new(active)));
    assert(after.skip(1) =~= before);
    assert(newest(after[0], key) is None);
}

/// A key that no layer has a version of is not found.
proof fn lemma_never_written(layers: Seq<MemView>, key: Seq<u8>)
    requires
        forall|k: KeyView| #[trigger] is_in(layers, k) ==> k.bytes != key,
    ensures
        first_version(layers, key) is None,
    decreases layers.len(),
{
    if layers.len() > 0 {
        if newest(layers[0], key) is Some {
            let lsn = choose|lsn: u64| is_newest(layers[0], key, lsn);
            assert(layers[0].dom().contains(KeyView { bytes: key, lsn }));
            assert(is_in(layers, KeyView { bytes: key, lsn }));
        }
        let rest = layers.skip(1);
        assert forall|k: KeyView| #[trigger] is_in(rest, k) implies k.bytes != key by {
            let i = choose|i: int| 0 <= i < rest.len() && #[trigger] rest[i].dom().contains(k);
            assert(layers[i + 1].dom().contains(k));
            assert(is_in(layers, k));
        }
        lemma_never_written(rest, key);
    }
}

/// A reader of a sound database whose layers are in order is given the newest version of a key:
/// its value, or nothing where it was deleted or never written.
pub proof fn lemma_read_is_newest(
    active: MemView,
    frozen: Seq<Arc<Memtable<Immutable>>>,
    levels: Vec<Vec<Arc<Sstable>>>,
    key: Seq<u8>,
    r: Result<Option<ValueView>, DbError>,
)
    requires
        all_levels_sound(levels.deep_view()),
        is_answer(active, frozen, levels@, key, r),
    ensures
        ({
            let layers = layers_of(active, frozen, levels.deep_view());
            &&& r == Ok::<Option<ValueView>, DbError>(live(first_version(layers, key)))
            &&& (forall|k: KeyView| #[trigger] is_in(layers, k) ==> k.bytes != key) ==> r == Ok::<
                Option<ValueView>,
                DbError,
            >(None)
            &&& newest_layers_first(layers, key) ==> forall|i: int, lsn: u64| #[trigger]
                is_newest_of_all(layers, key, i, lsn) ==> r == Ok::<Option<ValueView>, DbError>(
                    live(Some(layers[i][KeyView { bytes: key, lsn }])),
                )
        }),
{
    let tables = search_order(views_of(levels.deep_view()));
    let maps = Seq::new(tables.len(), |i: int| contents_of(tables[i]));
    let layers = layers_of(active, frozen, levels.deep_view());
    lemma_layer_contents(levels.deep_view());
    lemma_views(levels);
    lemma_get_is_first(active, frozen, levels@, maps, key, r);
    if forall|k: KeyView| #[trigger] is_in(layers, k) ==> k.bytes != key {
        lemma_never_written(layers, key);
    }
    if newest_layers_first(layers, key) {
        assert forall|i: int, lsn: u64| #[trigger]
            is_newest_of_all(layers, key, i, lsn) implies r == Ok::<Option<ValueView>, DbError>(
            live(Some(layers[i][KeyView { bytes: key, lsn }])),
        ) by {
            lemma_first_is_newest(layers, key, i, lsn);
        }
    }
}

/// A flush changes no layer, and so no answer: the tables of the memtables that were flushed
/// are in their places.
pub proof fn lemma_flush_changes_nothing(
    active: MemView,
    frozen: Seq<Arc<Memtable<Immutable>>>,
    levels: Seq<Seq<Open>>,
    new: Seq<Open>,
)
    requires
        all_levels_sound(levels),
        new.len() <= frozen.len(),
        forall|i: int| 0 <= i < new.len() ==> is_table_of((#[trigger] new[i]).1, frozen[i]@),
    ensures
        all_levels_sound(flushed_levels(levels, new)),
        layers_of(active, frozen.skip(new.len() as int), flushed_levels(levels, new)) == layers_of(
            active,
            frozen,
            levels,
        ),
{
    let after = flushed_levels(levels, new);
    let tables = search_order(views_of(levels));
    let maps = Seq::new(tables.len(), |i: int| contents_of(tables[i]));
    let flushed = Seq::new(new.len(), |i: int| frozen[i]@);
    assert forall|i: int| 0 <= i < new.len() implies holds_run(
        (#[trigger] new[i]).1,
        run_of(new[i].1),
    ) && contents_of(new[i].1) == frozen[i]@ by {
        assert(is_table_of(new[i].1, frozen[i]@));
        lemma_contents(new[i].1, frozen[i]@, KeyView { bytes: Seq::empty(), lsn: 0 });
        lemma_contents_of(new[i].1);
    }
    lemma_flushed_sound(levels, new);
    lemma_flushed_order(levels, new);
    let after_tables = search_order(views_of(after));
    let after_maps = Seq::new(after_tables.len(), |i: int| contents_of(after_tables[i]));
    assert(after_maps =~= flushed.reverse() + maps) by {
        assert forall|i: int| 0 <= i < after_maps.len() implies #[trigger] after_maps[i] == (
        flushed.reverse() + maps)[i] by {
            if i < new.len() {
                let k = new.len() - 1 - i;
                assert(after_tables[i] == new[k].1);
                assert(contents_of(new[k].1) == frozen[k]@);
            }
        }
    }
    lemma_flush_keeps_layers(active, frozen, maps, flushed);
}

/// A flush of sound tables leaves sound tables.
proof fn lemma_flushed_sound(levels: Seq<Seq<Open>>, new: Seq<Open>)
    requires
        all_levels_sound(levels),
        all_sound(new),
    ensures
        all_levels_sound(flushed_levels(levels, new)),
{
    let after = flushed_levels(levels, new);
    assert forall|l: int| 0 <= l < after.len() implies all_sound(#[trigger] after[l]) by {
        if l < levels.len() {
            assert(all_sound(levels[l]));
        }
        if l == 0 && levels.len() > 0 {
            assert forall|i: int| 0 <= i < after[0].len() implies holds_run(
                (#[trigger] after[0][i]).1,
                run_of(after[0][i].1),
            ) by {
                let had = levels[0].len();
                if i < had {
                    assert(after[0][i] == levels[0][i]);
                } else {
                    assert(after[0][i] == new[i - had]);
                }
            }
        }
    }
}

/// The tables of a flush are searched first, the last of them before the others.
proof fn lemma_flushed_order(levels: Seq<Seq<Open>>, new: Seq<Open>)
    ensures
        search_order(views_of(flushed_levels(levels, new))) == Seq::new(
            new.len(),
            |i: int| new[i].1,
        ).reverse() + search_order(views_of(levels)),
{
    let before = views_of(levels);
    let after = views_of(flushed_levels(levels, new));
    let views = Seq::new(new.len(), |i: int| new[i].1);
    if levels.len() == 0 {
        assert(after[0] =~= views);
        assert(search_order(after) =~= views.reverse() + search_order(before));
    } else {
        lemma_flushed_first(before, views);
        assert(after[0] =~= before[0] + views);
        assert(after =~= before.update(0, before[0] + views));
    }
}

/// A compaction keeps the layers in order and changes no answer, where no version of the key
/// stays in the level while another is merged into the next one.
pub proof fn lemma_compaction_keeps_reads(
    active: MemView,
    frozen: Seq<Arc<Memtable<Immutable>>>,
    files: Seq<LevelView>,
    levels: Vec<Vec<Arc<Sstable>>>,
    after: Vec<Vec<Arc<Sstable>>>,
    plan: CompactionPlan,
    merged: Seq<Open>,
    target_size: u64,
    new_files: LevelView,
    new: Seq<Open>,
    key: Seq<u8>,
    r: Result<Option<ValueView>, DbError>,
    s: Result<Option<ValueView>, DbError>,
)
    requires
        is_compaction(files, levels.deep_view(), plan, merged, target_size, new_files, new),
        after.deep_view() == compacted::<Arc<Sstable>>(levels.deep_view(), plan, new),
        newest_layers_first(layers_of(active, frozen, levels.deep_view()), key),
        plan.source_level > 0 ==> !is_split(
            with_levels(
                levels.deep_view(),
                (plan.source_level + 2) as nat,
            )[plan.source_level as int],
            file_ids(plan.source_files.deep_view()),
            key,
        ),
        is_answer(active, frozen, levels@, key, r),
        is_answer(active, frozen, after@, key, s),
    ensures
        all_levels_sound(after.deep_view()),
        newest_layers_first(layers_of(active, frozen, after.deep_view()), key),
        r == s,
{
    let a = levels.deep_view();
    let b = after.deep_view();
    let memory = memory_layers(active, frozen);
    assert forall|l: int| 0 <= l < b.len() implies all_sound(#[trigger] b[l]) by {
        lemma_compacted_sound(files, a, plan, merged, target_size, new_files, new, l);
    }
    let a_tables = search_order(views_of(a));
    let b_tables = search_order(views_of(b));
    let a_maps = Seq::new(a_tables.len(), |i: int| contents_of(a_tables[i]));
    let b_maps = Seq::new(b_tables.len(), |i: int| contents_of(b_tables[i]));
    lemma_layer_contents(a);
    lemma_layer_contents(b);
    lemma_tail_in_order(memory, a_maps, key);
    lemma_layers_and_age(a, a_maps, key);
    lemma_compaction_keeps_order(files, a, plan, merged, target_size, new_files, new, key);
    lemma_layers_and_age(b, b_maps, key);
    assert forall|k: KeyView| #[trigger] is_in(b_maps, k) implies is_in(a_maps, k) by {
        lemma_contents_held(b, b_maps, k);
        lemma_contents_held(a, a_maps, k);
        let e = choose|e: Entry| #[trigger] is_held(b, e) && e.0 == k;
        lemma_compaction_same_entries(
            files,
            a,
            plan,
            merged,
            target_size,
            new_files,
            new,
            e,
        );
        assert(is_held(a, e));
    }
    lemma_new_tail(memory, a_maps, b_maps, key);
    lemma_views(levels);
    lemma_views(after);
    if first_version(memory, key) is None {
        let m = choose|m: Result<Option<ValueView>, DbError>| #[trigger]
            tables_give(search_order(tables_of(levels@)), key, m) && r == (match m {
                Ok(v) => Ok(live(v)),
                Err(e) => Err(e),
            });
        let w = choose|w: Result<Option<ValueView>, DbError>| #[trigger]
            tables_give(search_order(tables_of(after@)), key, w) && s == (match w {
                Ok(v) => Ok(live(v)),
                Err(e) => Err(e),
            });
        lemma_compaction_keeps_answers(
            files,
            a,
            plan,
            merged,
            target_size,
            new_files,
            new,
            key,
            m,
            w,
        );
    }
}

/// The last layers of layers in order are in order.
proof fn lemma_tail_in_order(head: Seq<MemView>, tail: Seq<MemView>, key: Seq<u8>)
    requires
        newest_layers_first(head + tail, key),
    ensures
        newest_layers_first(tail, key),
{
    let all = head + tail;
    assert forall|a: int, b: int, x: u64, y: u64|
        0 <= a < b < tail.len() && #[trigger] tail[a].dom().contains(
            KeyView { bytes: key, lsn: x },
        ) && #[trigger] tail[b].dom().contains(KeyView { bytes: key, lsn: y }) implies x > y by {
        assert(all[head.len() + a].dom().contains(KeyView { bytes: key, lsn: x }));
        assert(all[head.len() + b].dom().contains(KeyView { bytes: key, lsn: y }));
    }
}

/// Other layers may take the place of the last ones where they are in order and have no other
/// versions.
proof fn lemma_new_tail(
    head: Seq<MemView>,
    tail: Seq<MemView>,
    other: Seq<MemView>,
    key: Seq<u8>,
)
    requires
        newest_layers_first(head + tail, key),
        newest_layers_first(other, key),
        forall|k: KeyView| #[trigger] is_in(other, k) ==> is_in(tail, k),
    ensures
        newest_layers_first(head + other, key),
{
    let before = head + tail;
    let after = head + other;
    let n = head.len() as int;
    assert forall|a: int, b: int, x: u64, y: u64|
        0 <= a < b < after.len() && #[trigger] after[a].dom().contains(
            KeyView { bytes: key, lsn: x },
        ) && #[trigger] after[b].dom().contains(KeyView { bytes: key, lsn: y }) implies x > y by {
        let kx = KeyView { bytes: key, lsn: x };
        let ky = KeyView { bytes: key, lsn: y };
        if b < n {
            assert(before[a].dom().contains(kx) && before[b].dom().contains(ky));
        } else if a >= n {
            assert(other[a - n].dom().contains(kx) && other[b - n].dom().contains(ky));
        } else {
            assert(other[b - n].dom().contains(ky));
            assert(is_in(other, ky));
            let i = choose|i: int| 0 <= i < tail.len() && #[trigger] tail[i].dom().contains(ky);
            assert(before[a].dom().contains(kx) && before[n + i].dom().contains(ky));
        }
    }
}

} // verus!
