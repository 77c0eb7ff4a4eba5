//! The open tables, level by level: what they hold, and how they are searched.
//!
//! A read searches the tables level by level. It finds the newest version of a key as long as
//! the versions lie in the order of their age, so that the newer ones are searched first.

use crate::compact::commit::{
    by_min_key, compacted, kept, placed, with_levels, CompactionPlan,
};
use crate::compact::laws::is_level;
use crate::data_stores::key::{key_lt, lemma_bytes_lt_irreflexive, lemma_key_lt_transitive};
use crate::data_stores::manifest::{file_ids, FileMetadata, FileView, LevelView};
use crate::data_stores::sstable::Sstable;
use crate::data_stores::table_format::{
    concat, holds_run, lemma_holds_run, lemma_lookup_absent, lemma_lookup_append,
    lemma_lookup_finds, lemma_lookup_present, lemma_run_search, lookup, sorted, Entry, TableView,
};
use crate::data_stores::value::ValueView;
use crate::db::{search_order, tables_give};
use crate::err::DbError;
use std::sync::Arc;
use vstd::prelude::*;

verus! {

/// An open table with its number.
pub type Open = (u32, TableView);

// --- The entries of a table, of a level and of all levels ---

/// The entries of a table.
pub open spec fn run_of(t: TableView) -> Seq<Entry> {
    t.walk().stream().0
}

/// Whether every table of a level is one that was written, in order.
pub open spec fn all_sound(tables: Seq<Open>) -> bool {
    forall|i: int|
        0 <= i < tables.len() ==> holds_run((#[trigger] tables[i]).1, run_of(tables[i].1))
}

pub open spec fn runs_of(tables: Seq<Open>) -> Seq<Seq<Entry>> {
    Seq::new(tables.len(), |i: int| run_of(tables[i].1))
}

/// The entries of a level in the order in which they are searched: table by table, and from
/// the last table to the first where that is the order of age.
pub open spec fn level_run(tables: Seq<Open>, newest_last: bool) -> Seq<Entry> {
    concat(
        runs_of(
            if newest_last {
                tables.reverse()
            } else {
                tables
            },
        ),
    )
}

/// The entries of some levels in the order in which they are searched.
pub open spec fn all_entries(levels: Seq<Seq<Open>>) -> Seq<Entry>
    decreases levels.len(),
{
    if levels.len() == 0 {
        Seq::empty()
    } else {
        all_entries(levels.drop_last()) + level_run(levels.last(), levels.len() == 1)
    }
}

/// Whether a table of a level holds an entry.
pub open spec fn level_holds(tables: Seq<Open>, e: Entry) -> bool {
    exists|t: Open| #[trigger] tables.contains(t) && run_of(t.1).contains(e)
}

/// Whether a table of some levels holds an entry.
pub open spec fn is_held(levels: Seq<Seq<Open>>, e: Entry) -> bool {
    exists|l: int| 0 <= l < levels.len() && #[trigger] level_holds(levels[l], e)
}

pub proof fn lemma_concat_append(a: Seq<Seq<Entry>>, b: Seq<Seq<Entry>>)
    ensures
        concat(a + b) == concat(a) + concat(b),
    decreases a.len(),
{
    if a.len() == 0 {
        assert(a + b =~= b);
        assert(concat(a) + concat(b) =~= concat(b));
    } else {
        assert((a + b).skip(1) =~= a.skip(1) + b);
        lemma_concat_append(a.skip(1), b);
        assert(concat(a + b) =~= concat(a) + concat(b));
    }
}

/// The entries of blocks are those of one of them.
pub proof fn lemma_concat_contains(blocks: Seq<Seq<Entry>>, e: Entry)
    ensures
        concat(blocks).contains(e) <==> exists|i: int|
            0 <= i < blocks.len() && (#[trigger] blocks[i]).contains(e),
    decreases blocks.len(),
{
    if blocks.len() > 0 {
        let first = blocks[0];
        let tail = blocks.skip(1);
        let all = concat(blocks);
        lemma_concat_contains(tail, e);
        if all.contains(e) {
            let k = choose|k: int| 0 <= k < all.len() && all[k] == e;
            if k < first.len() {
                assert(first[k] == e);
                assert(blocks[0].contains(e));
            } else {
                assert(concat(tail)[k - first.len()] == e);
                let i = choose|i: int| 0 <= i < tail.len() && (#[trigger] tail[i]).contains(e);
                assert(blocks[i + 1].contains(e));
            }
        }
        if exists|i: int| 0 <= i < blocks.len() && (#[trigger] blocks[i]).contains(e) {
            let i = choose|i: int| 0 <= i < blocks.len() && (#[trigger] blocks[i]).contains(e);
            if i == 0 {
                let k = choose|k: int| 0 <= k < first.len() && first[k] == e;
                assert(all[k] == e);
            } else {
                assert(tail[i - 1].contains(e));
                let k = choose|k: int| 0 <= k < concat(tail).len() && concat(tail)[k] == e;
                assert(all[first.len() + k] == e);
            }
        }
    }
}

pub proof fn lemma_level_run(tables: Seq<Open>, newest_last: bool, e: Entry)
    ensures
        level_run(tables, newest_last).contains(e) <==> level_holds(tables, e),
{
    let order = if newest_last {
        tables.reverse()
    } else {
        tables
    };
    let runs = runs_of(order);
    lemma_concat_contains(runs, e);
    if exists|i: int| 0 <= i < runs.len() && (#[trigger] runs[i]).contains(e) {
        let i = choose|i: int| 0 <= i < runs.len() && (#[trigger] runs[i]).contains(e);
        let at = if newest_last {
            tables.len() - 1 - i
        } else {
            i
        };
        assert(tables[at] == order[i]);
        assert(tables.contains(order[i]));
    }
    if level_holds(tables, e) {
        let t = choose|t: Open| #[trigger] tables.contains(t) && run_of(t.1).contains(e);
        let at = choose|at: int| 0 <= at < tables.len() && tables[at] == t;
        let i = if newest_last {
            tables.len() - 1 - at
        } else {
            at
        };
        assert(order[i] == t);
        assert(runs[i].contains(e));
    }
}

pub proof fn lemma_all_entries(levels: Seq<Seq<Open>>, e: Entry)
    ensures
        all_entries(levels).contains(e) <==> is_held(levels, e),
    decreases levels.len(),
{
    if levels.len() > 0 {
        let shorter = levels.drop_last();
        let last = levels.len() - 1;
        let a = all_entries(shorter);
        let b = level_run(levels.last(), levels.len() == 1);
        lemma_all_entries(shorter, e);
        lemma_level_run(levels.last(), levels.len() == 1, e);
        let all = a + b;
        if all.contains(e) {
            let k = choose|k: int| 0 <= k < all.len() && all[k] == e;
            if k < a.len() {
                assert(a[k] == e);
                let l = choose|l: int|
                    0 <= l < shorter.len() && #[trigger] level_holds(shorter[l], e);
                assert(level_holds(levels[l], e));
            } else {
                assert(b[k - a.len()] == e);
                assert(level_holds(levels[last], e));
            }
        }
        if is_held(levels, e) {
            let l = choose|l: int| 0 <= l < levels.len() && #[trigger] level_holds(levels[l], e);
            if l < last {
                assert(level_holds(shorter[l], e));
                let k = choose|k: int| 0 <= k < a.len() && a[k] == e;
                assert(all[k] == e);
            } else {
                let k = choose|k: int| 0 <= k < b.len() && b[k] == e;
                assert(all[a.len() + k] == e);
            }
        }
    }
}

// --- Searching ---

/// The tables of some levels without their numbers.
pub open spec fn views_of(levels: Seq<Seq<Open>>) -> Seq<Seq<TableView>> {
    Seq::new(levels.len(), |l: int| Seq::new(levels[l].len(), |i: int| levels[l][i].1))
}

/// Searching tables in turn gives the first of their entries with the key, and no error.
pub proof fn lemma_tables_lookup(
    tables: Seq<TableView>,
    key: Seq<u8>,
    r: Result<Option<ValueView>, DbError>,
)
    requires
        forall|i: int| 0 <= i < tables.len() ==> holds_run(#[trigger] tables[i], run_of(tables[i])),
        tables_give(tables, key, r),
    ensures
        r == Ok::<Option<ValueView>, DbError>(
            lookup(concat(Seq::new(tables.len(), |i: int| run_of(tables[i]))), key),
        ),
    decreases tables.len(),
{
    let runs = Seq::new(tables.len(), |i: int| run_of(tables[i]));
    if tables.len() > 0 {
        let tail = tables.skip(1);
        let found = choose|m: Result<Option<ValueView>, DbError>| #[trigger]
            tables[0].is_found(key, m) && match m {
                Ok(None) => tables_give(tables.skip(1), key, r),
                _ => r == m,
            };
        lemma_run_search(tables[0], run_of(tables[0]), key, found);
        lemma_lookup_append(runs[0], concat(runs.skip(1)), key);
        if lookup(runs[0], key) is None {
            assert forall|i: int| 0 <= i < tail.len() implies holds_run(
                #[trigger] tail[i],
                run_of(tail[i]),
            ) by {
                assert(tail[i] == tables[i + 1]);
            }
            lemma_tables_lookup(tail, key, r);
            assert(runs.skip(1) =~= Seq::new(tail.len(), |i: int| run_of(tail[i])));
        }
    }
}

/// The entries of tables in the order in which they are searched.
pub proof fn lemma_search_order_runs(levels: Seq<Seq<Open>>)
    ensures
        ({
            let tables = search_order(views_of(levels));
            concat(Seq::new(tables.len(), |i: int| run_of(tables[i]))) == all_entries(levels)
        }),
    decreases levels.len(),
{
    let views = views_of(levels);
    let tables = search_order(views);
    let runs = Seq::new(tables.len(), |i: int| run_of(tables[i]));
    if levels.len() == 0 {
        assert(concat(runs) =~= all_entries(levels));
    } else if levels.len() == 1 {
        assert(runs =~= runs_of(levels[0].reverse()));
        reveal_with_fuel(all_entries, 2);
        assert(levels.last() == levels[0]);
        assert(all_entries(levels) =~= concat(runs));
    } else {
        let shorter = levels.drop_last();
        lemma_search_order_runs(shorter);
        assert(views.drop_last() =~= views_of(shorter));
        let head = search_order(views_of(shorter));
        let head_runs = Seq::new(head.len(), |i: int| run_of(head[i]));
        assert(runs =~= head_runs + runs_of(levels.last()));
        lemma_concat_append(head_runs, runs_of(levels.last()));
    }
}

pub proof fn lemma_search_order_member(levels: Seq<Seq<Open>>, i: int)
    requires
        0 <= i < search_order(views_of(levels)).len(),
    ensures
        exists|l: int, j: int|
            0 <= l < levels.len() && 0 <= j < levels[l].len() && (#[trigger] levels[l][j]).1
                == search_order(views_of(levels))[i],
    decreases levels.len(),
{
    let views = views_of(levels);
    let tables = search_order(views);
    if levels.len() == 1 {
        assert(levels[0][levels[0].len() - 1 - i].1 == tables[i]);
    } else if levels.len() > 1 {
        let shorter = levels.drop_last();
        assert(views.drop_last() =~= views_of(shorter));
        let head = search_order(views_of(shorter));
        if i < head.len() {
            lemma_search_order_member(shorter, i);
            let (l, j) = choose|l: int, j: int|
                0 <= l < shorter.len() && 0 <= j < shorter[l].len() && (#[trigger] shorter[l][j]).1
                    == head[i];
            assert(levels[l][j].1 == tables[i]);
        } else {
            assert(levels[levels.len() - 1][i - head.len()].1 == tables[i]);
        }
    }
}

/// Searching sound levels for a key gives the first of their entries with it, in the order in
/// which they are searched, and no error.
pub proof fn lemma_levels_lookup(
    levels: Seq<Seq<Open>>,
    key: Seq<u8>,
    r: Result<Option<ValueView>, DbError>,
)
    requires
        forall|l: int| 0 <= l < levels.len() ==> all_sound(#[trigger] levels[l]),
        tables_give(search_order(views_of(levels)), key, r),
    ensures
        r == Ok::<Option<ValueView>, DbError>(lookup(all_entries(levels), key)),
{
    let tables = search_order(views_of(levels));
    assert forall|i: int| 0 <= i < tables.len() implies holds_run(
        #[trigger] tables[i],
        run_of(tables[i]),
    ) by {
        lemma_search_order_member(levels, i);
        let (l, j) = choose|l: int, j: int|
            0 <= l < levels.len() && 0 <= j < levels[l].len() && (#[trigger] levels[l][j]).1
                == tables[i];
        assert(all_sound(levels[l]));
    }
    lemma_tables_lookup(tables, key, r);
    lemma_search_order_runs(levels);
}

// --- The order of age ---

/// Whether of the versions of a key the newer ones come first.
pub open spec fn newest_first(es: Seq<Entry>, key: Seq<u8>) -> bool {
    forall|i: int, j: int|
        0 <= i < j < es.len() && (#[trigger] es[i]).0.bytes == key && (#[trigger] es[j]).0.bytes
            == key ==> es[i].0.lsn > es[j].0.lsn
}

/// Whether the versions of a key lie in the order of their age: those of a level are newer
/// than those of the levels behind it, and within a level the newer ones are searched first.
pub open spec fn by_age(levels: Seq<Seq<Open>>, key: Seq<u8>) -> bool {
    &&& forall|l: int, m: int, e: Entry, f: Entry|
        0 <= l < m < levels.len() && #[trigger] level_holds(levels[l], e) && #[trigger] level_holds(
            levels[m],
            f,
        ) && e.0.bytes == key && f.0.bytes == key ==> e.0.lsn > f.0.lsn
    &&& forall|l: int|
        0 <= l < levels.len() ==> newest_first(level_run(#[trigger] levels[l], l == 0), key)
}

pub proof fn lemma_sorted_by_age(es: Seq<Entry>, key: Seq<u8>)
    requires
        sorted(es),
    ensures
        newest_first(es, key),
{
    assert forall|i: int, j: int|
        0 <= i < j < es.len() && (#[trigger] es[i]).0.bytes == key && (#[trigger] es[j]).0.bytes
            == key implies es[i].0.lsn > es[j].0.lsn by {
        assert(key_lt(es[i].0, es[j].0));
        lemma_bytes_lt_irreflexive(key);
    }
}

pub proof fn lemma_all_by_age(levels: Seq<Seq<Open>>, key: Seq<u8>)
    requires
        by_age(levels, key),
    ensures
        newest_first(all_entries(levels), key),
    decreases levels.len(),
{
    if levels.len() > 0 {
        let shorter = levels.drop_last();
        let last = levels.len() - 1;
        assert forall|l: int, m: int, e: Entry, f: Entry|
            0 <= l < m < shorter.len() && #[trigger] level_holds(shorter[l], e)
                && #[trigger] level_holds(shorter[m], f) && e.0.bytes == key && f.0.bytes
                == key implies e.0.lsn > f.0.lsn by {
            assert(level_holds(levels[l], e) && level_holds(levels[m], f));
        }
        assert forall|l: int| 0 <= l < shorter.len() implies newest_first(
            level_run(#[trigger] shorter[l], l == 0),
            key,
        ) by {
            assert(shorter[l] == levels[l]);
        }
        lemma_all_by_age(shorter, key);
        let a = all_entries(shorter);
        let b = level_run(levels[last], last == 0);
        let all = all_entries(levels);
        assert(newest_first(b, key));
        assert forall|i: int, j: int|
            0 <= i < j < all.len() && (#[trigger] all[i]).0.bytes == key && (#[trigger] all[j]).0.bytes
                == key implies all[i].0.lsn > all[j].0.lsn by {
            if j < a.len() {
                assert(a[i].0.lsn > a[j].0.lsn);
            } else if i >= a.len() {
                assert(b[i - a.len()].0.lsn > b[j - a.len()].0.lsn);
            } else {
                assert(a[i] == all[i] && b[j - a.len()] == all[j]);
                assert(a.contains(all[i]));
                assert(b.contains(all[j]));
                lemma_all_entries(shorter, all[i]);
                lemma_level_run(levels[last], last == 0, all[j]);
                let l = choose|l: int|
                    0 <= l < shorter.len() && #[trigger] level_holds(shorter[l], all[i]);
                assert(level_holds(levels[l], all[i]));
                assert(level_holds(levels[last], all[j]));
            }
        }
    }
}

/// Where the newer versions come first, and the versions are the same, what is found is the
/// same.
pub proof fn lemma_same_lookup(es: Seq<Entry>, fs: Seq<Entry>, key: Seq<u8>)
    requires
        newest_first(es, key),
        newest_first(fs, key),
        forall|e: Entry| e.0.bytes == key ==> (#[trigger] es.contains(e) <==> fs.contains(e)),
    ensures
        lookup(es, key) == lookup(fs, key),
{
    if lookup(es, key) is Some {
        lemma_lookup_present(es, key);
        let i = choose|i: int|
            0 <= i < es.len() && (#[trigger] es[i]).0.bytes == key && lookup(es, key) == Some(
                es[i].1,
            ) && forall|j: int| 0 <= j < i ==> (#[trigger] es[j]).0.bytes != key;
        assert(es.contains(es[i]));
        let n = choose|n: int| 0 <= n < fs.len() && fs[n] == es[i];
        lemma_lookup_finds(fs, key, n);
        lemma_lookup_present(fs, key);
        let k = choose|k: int|
            0 <= k < fs.len() && (#[trigger] fs[k]).0.bytes == key && lookup(fs, key) == Some(
                fs[k].1,
            ) && forall|j: int| 0 <= j < k ==> (#[trigger] fs[j]).0.bytes != key;
        assert(fs.contains(fs[k]));
        assert(es.contains(fs[k]));
        let m = choose|m: int| 0 <= m < es.len() && es[m] == fs[k];
        if k < n {
            assert(fs[k].0.lsn > fs[n].0.lsn);
            if i < m {
                assert(es[i].0.lsn > es[m].0.lsn);
            }
        }
    } else {
        assert forall|j: int| 0 <= j < fs.len() implies (#[trigger] fs[j]).0.bytes != key by {
            if fs[j].0.bytes == key {
                assert(fs.contains(fs[j]));
                assert(es.contains(fs[j]));
                let i = choose|i: int| 0 <= i < es.len() && es[i] == fs[j];
                lemma_lookup_finds(es, key, i);
            }
        }
        lemma_lookup_absent(fs, key);
    }
}

/// Where versions lie in the order of their age, moving them between levels changes no answer.
pub proof fn lemma_same_answer(
    levels: Seq<Seq<Open>>,
    after: Seq<Seq<Open>>,
    key: Seq<u8>,
    r: Result<Option<ValueView>, DbError>,
    s: Result<Option<ValueView>, DbError>,
)
    requires
        forall|l: int| 0 <= l < levels.len() ==> all_sound(#[trigger] levels[l]),
        forall|l: int| 0 <= l < after.len() ==> all_sound(#[trigger] after[l]),
        by_age(levels, key),
        by_age(after, key),
        forall|e: Entry|
            e.0.bytes == key ==> (#[trigger] is_held(levels, e) <==> is_held(after, e)),
        tables_give(search_order(views_of(levels)), key, r),
        tables_give(search_order(views_of(after)), key, s),
    ensures
        r == s,
{
    lemma_levels_lookup(levels, key, r);
    lemma_levels_lookup(after, key, s);
    lemma_all_by_age(levels, key);
    lemma_all_by_age(after, key);
    assert forall|e: Entry| e.0.bytes == key implies (#[trigger] all_entries(levels).contains(e)
        <==> all_entries(after).contains(e)) by {
        lemma_all_entries(levels, e);
        lemma_all_entries(after, e);
        assert(is_held(levels, e) <==> is_held(after, e));
    }
    lemma_same_lookup(all_entries(levels), all_entries(after), key);
}

// --- The open tables and the manifest ---

/// Whether an open table is the one that the manifest speaks of.
pub open spec fn describes(file: FileView, t: Open) -> bool {
    &&& file.file_id == t.0
    &&& file.min_key == t.1.min_key
    &&& file.max_key == t.1.max_key
}

/// Whether the tables of a level are those of the manifest, in the same order.
pub open spec fn level_follows(files: LevelView, tables: Seq<Open>) -> bool {
    &&& files.len() == tables.len()
    &&& forall|i: int| 0 <= i < files.len() ==> describes(#[trigger] files[i], tables[i])
}

/// Whether the open tables are those of the manifest, level by level.
pub open spec fn follows(files: Seq<LevelView>, levels: Seq<Seq<Open>>) -> bool {
    &&& files.len() == levels.len()
    &&& forall|l: int| 0 <= l < files.len() ==> level_follows(#[trigger] files[l], levels[l])
}

pub proof fn lemma_kept_follows(files: LevelView, tables: Seq<Open>, ids: Seq<u32>)
    requires
        level_follows(files, tables),
    ensures
        level_follows(kept::<FileMetadata>(files, ids), kept::<Arc<Sstable>>(tables, ids)),
    decreases files.len(),
{
    if files.len() > 0 {
        let a = files.drop_last();
        let b = tables.drop_last();
        assert forall|i: int| 0 <= i < a.len() implies describes(#[trigger] a[i], b[i]) by {
            assert(describes(files[i], tables[i]));
        }
        lemma_kept_follows(a, b, ids);
        assert(describes(files[files.len() - 1], tables[files.len() - 1]));
    }
}

pub proof fn lemma_placed_follows(files: LevelView, tables: Seq<Open>, file: FileView, t: Open)
    requires
        level_follows(files, tables),
        describes(file, t),
    ensures
        level_follows(placed::<FileMetadata>(files, file), placed::<Arc<Sstable>>(tables, t)),
    decreases files.len(),
{
    if files.len() > 0 {
        let a = files.drop_last();
        let b = tables.drop_last();
        assert forall|i: int| 0 <= i < a.len() implies describes(#[trigger] a[i], b[i]) by {
            assert(describes(files[i], tables[i]));
        }
        lemma_placed_follows(a, b, file, t);
        assert(describes(files[files.len() - 1], tables[files.len() - 1]));
    }
}

pub proof fn lemma_by_min_key_follows(files: LevelView, tables: Seq<Open>)
    requires
        level_follows(files, tables),
    ensures
        level_follows(by_min_key::<FileMetadata>(files), by_min_key::<Arc<Sstable>>(tables)),
    decreases files.len(),
{
    if files.len() > 0 {
        let a = files.drop_last();
        let b = tables.drop_last();
        assert forall|i: int| 0 <= i < a.len() implies describes(#[trigger] a[i], b[i]) by {
            assert(describes(files[i], tables[i]));
        }
        lemma_by_min_key_follows(a, b);
        assert(describes(files[files.len() - 1], tables[files.len() - 1]));
        lemma_placed_follows(
            by_min_key::<FileMetadata>(a),
            by_min_key::<Arc<Sstable>>(b),
            files.last(),
            tables.last(),
        );
    }
}

/// The open tables follow the manifest through a compaction.
pub proof fn lemma_compacted_follows(
    files: Seq<LevelView>,
    levels: Seq<Seq<Open>>,
    plan: CompactionPlan,
    new_files: LevelView,
    new: Seq<Open>,
)
    requires
        follows(files, levels),
        level_follows(new_files, new),
    ensures
        follows(
            compacted::<FileMetadata>(files, plan, new_files),
            compacted::<Arc<Sstable>>(levels, plan, new),
        ),
{
    let n = plan.source_level as int;
    let a = with_levels(files, (n + 2) as nat);
    let b = with_levels(levels, (n + 2) as nat);
    assert forall|l: int| 0 <= l < a.len() implies level_follows(#[trigger] a[l], b[l]) by {
        if l < files.len() {
            assert(level_follows(files[l], levels[l]));
        }
    }
    let source_ids = file_ids(plan.source_files.deep_view());
    let target_ids = file_ids(plan.target_files.deep_view());
    lemma_kept_follows(a[n], b[n], source_ids);
    lemma_kept_follows(a[n + 1], b[n + 1], target_ids);
    let into_files = kept::<FileMetadata>(a[n + 1], target_ids) + new_files;
    let into = kept::<Arc<Sstable>>(b[n + 1], target_ids) + new;
    assert forall|i: int| 0 <= i < into_files.len() implies describes(
        #[trigger] into_files[i],
        into[i],
    ) by {
        let stay = kept::<FileMetadata>(a[n + 1], target_ids);
        if i < stay.len() {
            assert(describes(stay[i], kept::<Arc<Sstable>>(b[n + 1], target_ids)[i]));
        } else {
            assert(describes(new_files[i - stay.len()], new[i - stay.len()]));
        }
    }
    lemma_by_min_key_follows(into_files, into);
}

/// Whether no two tables of a level have the same number.
pub open spec fn numbers_differ(tables: Seq<Open>) -> bool {
    forall|i: int, j: int|
        0 <= i < j < tables.len() ==> (#[trigger] tables[i]).0 != (#[trigger] tables[j]).0
}

pub proof fn lemma_kept_contains(s: Seq<Open>, ids: Seq<u32>, t: Open)
    ensures
        kept::<Arc<Sstable>>(s, ids).contains(t) <==> s.contains(t) && !ids.contains(t.0),
    decreases s.len(),
{
    if s.len() > 0 {
        let shorter = s.drop_last();
        let rest = kept::<Arc<Sstable>>(shorter, ids);
        let r = kept::<Arc<Sstable>>(s, ids);
        lemma_kept_contains(shorter, ids, t);
        lemma_push_contains(shorter, s.last(), t);
        assert(shorter.push(s.last()) =~= s);
        lemma_push_contains(rest, s.last(), t);
    }
}

pub proof fn lemma_push_contains(s: Seq<Open>, v: Open, t: Open)
    ensures
        s.push(v).contains(t) <==> s.contains(t) || t == v,
{
    let more = s.push(v);
    if s.contains(t) {
        let i = choose|i: int| 0 <= i < s.len() && s[i] == t;
        assert(more[i] == t);
    }
    if t == v {
        assert(more[s.len() as int] == t);
    }
    if more.contains(t) {
        let i = choose|i: int| 0 <= i < more.len() && more[i] == t;
        if i < s.len() {
            assert(s[i] == t);
        }
    }
}

pub proof fn lemma_placed_contains(s: Seq<Open>, v: Open, t: Open)
    ensures
        placed::<Arc<Sstable>>(s, v).contains(t) <==> s.contains(t) || t == v,
    decreases s.len(),
{
    lemma_push_contains(s, v, t);
    if s.len() > 0 {
        let shorter = s.drop_last();
        lemma_placed_contains(shorter, v, t);
        lemma_push_contains(placed::<Arc<Sstable>>(shorter, v), s.last(), t);
        lemma_push_contains(shorter, s.last(), t);
        assert(shorter.push(s.last()) =~= s);
    }
}

pub proof fn lemma_by_min_key_contains(s: Seq<Open>, t: Open)
    ensures
        by_min_key::<Arc<Sstable>>(s).contains(t) <==> s.contains(t),
    decreases s.len(),
{
    if s.len() > 0 {
        let shorter = s.drop_last();
        lemma_by_min_key_contains(shorter, t);
        lemma_placed_contains(by_min_key::<Arc<Sstable>>(shorter), s.last(), t);
        lemma_push_contains(shorter, s.last(), t);
        assert(shorter.push(s.last()) =~= s);
    }
}

/// The tables of the level that a compaction merges into.
pub proof fn lemma_into_contains(stay: Seq<Open>, new: Seq<Open>, t: Open)
    ensures
        by_min_key::<Arc<Sstable>>(stay + new).contains(t) <==> stay.contains(t) || new.contains(t),
{
    let into = stay + new;
    lemma_by_min_key_contains(into, t);
    if stay.contains(t) {
        let i = choose|i: int| 0 <= i < stay.len() && stay[i] == t;
        assert(into[i] == t);
    }
    if new.contains(t) {
        let i = choose|i: int| 0 <= i < new.len() && new[i] == t;
        assert(into[stay.len() + i] == t);
    }
    if into.contains(t) {
        let i = choose|i: int| 0 <= i < into.len() && into[i] == t;
        if i < stay.len() {
            assert(stay[i] == t);
        } else {
            assert(new[i - stay.len()] == t);
        }
    }
}

/// In a level, the keys of a table are before those of the tables behind it.
pub proof fn lemma_tables_apart(
    files: LevelView,
    tables: Seq<Open>,
    i: int,
    j: int,
    x: int,
    y: int,
)
    requires
        is_level(files),
        level_follows(files, tables),
        all_sound(tables),
        0 <= i < j < tables.len(),
        0 <= x < run_of(tables[i].1).len(),
        0 <= y < run_of(tables[j].1).len(),
    ensures
        key_lt(run_of(tables[i].1)[x].0, run_of(tables[j].1)[y].0),
{
    let a = run_of(tables[i].1);
    let b = run_of(tables[j].1);
    lemma_holds_run(tables[i].1, a);
    lemma_holds_run(tables[j].1, b);
    assert(describes(files[i], tables[i]));
    assert(describes(files[j], tables[j]));
    assert(key_lt(files[i].max_key, files[j].min_key));
    let last = a[a.len() - 1].0;
    let first = b[0].0;
    if y > 0 {
        assert(key_lt(b[0].0, b[y].0));
        lemma_key_lt_transitive(last, first, b[y].0);
    }
    if x < a.len() - 1 {
        assert(key_lt(a[x].0, a[a.len() - 1].0));
        lemma_key_lt_transitive(a[x].0, last, b[y].0);
    }
}

/// Runs that are in order, each before those behind it, are in order as a whole.
pub proof fn lemma_concat_sorted(runs: Seq<Seq<Entry>>)
    requires
        forall|i: int| 0 <= i < runs.len() ==> sorted(#[trigger] runs[i]),
        forall|i: int, j: int, x: int, y: int|
            0 <= i < j < runs.len() && 0 <= x < runs[i].len() && 0 <= y < runs[j].len() ==> key_lt(
                (#[trigger] runs[i][x]).0,
                (#[trigger] runs[j][y]).0,
            ),
    ensures
        sorted(concat(runs)),
    decreases runs.len(),
{
    if runs.len() > 0 {
        let first = runs[0];
        let tail = runs.skip(1);
        assert forall|i: int| 0 <= i < tail.len() implies sorted(#[trigger] tail[i]) by {
            assert(sorted(runs[i + 1]));
        }
        assert forall|i: int, j: int, x: int, y: int|
            0 <= i < j < tail.len() && 0 <= x < tail[i].len() && 0 <= y
                < tail[j].len() implies key_lt(
            (#[trigger] tail[i][x]).0,
            (#[trigger] tail[j][y]).0,
        ) by {
            assert(key_lt(runs[i + 1][x].0, runs[j + 1][y].0));
        }
        lemma_concat_sorted(tail);
        let rest = concat(tail);
        let all = concat(runs);
        let n = first.len();
        assert(sorted(first)) by {
            assert(sorted(runs[0]));
        }
        assert forall|i: int, j: int| 0 <= i < j < all.len() implies key_lt(
            (#[trigger] all[i]).0,
            (#[trigger] all[j]).0,
        ) by {
            if j < n {
                assert(key_lt(first[i].0, first[j].0));
            } else if i >= n {
                assert(key_lt(rest[i - n].0, rest[j - n].0));
            } else {
                assert(rest[j - n] == all[j]);
                assert(rest.contains(all[j]));
                lemma_concat_contains(tail, all[j]);
                let k = choose|k: int|
                    0 <= k < tail.len() && (#[trigger] tail[k]).contains(all[j]);
                let y = choose|y: int| 0 <= y < tail[k].len() && tail[k][y] == all[j];
                assert(key_lt(runs[0][i].0, runs[k + 1][y].0));
            }
        }
    }
}

/// A level of sound tables is in order from its first entry to its last.
pub proof fn lemma_level_sorted(files: LevelView, tables: Seq<Open>)
    requires
        is_level(files),
        level_follows(files, tables),
        all_sound(tables),
    ensures
        sorted(concat(runs_of(tables))),
{
    let runs = runs_of(tables);
    assert forall|i: int| 0 <= i < runs.len() implies sorted(#[trigger] runs[i]) by {
        lemma_holds_run(tables[i].1, run_of(tables[i].1));
    }
    assert forall|i: int, j: int, x: int, y: int|
        0 <= i < j < runs.len() && 0 <= x < runs[i].len() && 0 <= y < runs[j].len() implies key_lt(
        (#[trigger] runs[i][x]).0,
        (#[trigger] runs[j][y]).0,
    ) by {
        lemma_tables_apart(files, tables, i, j, x, y);
    }
    lemma_concat_sorted(runs);
}

pub proof fn lemma_same_table(tables: Seq<Open>, t: Open, u: Open)
    requires
        numbers_differ(tables),
        tables.contains(t),
        tables.contains(u),
        t.0 == u.0,
    ensures
        t == u,
{
    let i = choose|i: int| 0 <= i < tables.len() && tables[i] == t;
    let j = choose|j: int| 0 <= j < tables.len() && tables[j] == u;
    if i < j {
        assert(tables[i].0 != tables[j].0);
    } else if j < i {
        assert(tables[j].0 != tables[i].0);
    }
}

pub proof fn lemma_sound_member(tables: Seq<Open>, t: Open)
    requires
        all_sound(tables),
        tables.contains(t),
    ensures
        holds_run(t.1, run_of(t.1)),
{
    let i = choose|i: int| 0 <= i < tables.len() && tables[i] == t;
    assert(holds_run(tables[i].1, run_of(tables[i].1)));
}

pub proof fn lemma_empty_level(e: Entry)
    ensures
        !level_holds(Seq::empty(), e),
{
}

/// Empty levels behind the others change no order.
pub proof fn lemma_with_levels_by_age(levels: Seq<Seq<Open>>, n: nat, key: Seq<u8>)
    requires
        by_age(levels, key),
    ensures
        by_age(with_levels(levels, n), key),
{
    let all = with_levels(levels, n);
    assert forall|l: int, m: int, e: Entry, f: Entry|
        0 <= l < m < all.len() && #[trigger] level_holds(all[l], e) && #[trigger] level_holds(
            all[m],
            f,
        ) && e.0.bytes == key && f.0.bytes == key implies e.0.lsn > f.0.lsn by {
        lemma_empty_level(f);
        assert(level_holds(levels[l], e) && level_holds(levels[m], f));
    }
    assert forall|l: int| 0 <= l < all.len() implies newest_first(
        level_run(#[trigger] all[l], l == 0),
        key,
    ) by {
        if l < levels.len() {
            assert(all[l] == levels[l]);
        } else {
            assert(level_run(all[l], l == 0) =~= Seq::<Entry>::empty());
        }
    }
}

} // verus!
