//! What a read gives, in terms of what the memtables and the tables hold.

use crate::compact::levels::run_of;
use crate::data_stores::key::KeyView;
use crate::data_stores::memtable::{insert_all, live, newest, Immutable, MemView, Memtable};
use crate::data_stores::sstable::Sstable;
use crate::data_stores::table_format::{holds_run, Entry, TableView};
use crate::data_stores::value::ValueView;
use crate::data_stores::versions::{
    lemma_group_is_newest, lemma_group_keeps_others, lemma_insert_all_versions, lemma_live,
    lemma_newest_version,
};
use crate::data_stores::wal::{log_entries, log_entry, log_header};
use crate::data_stores::{key::Key, value::Value, Loggable};
use crate::db::{
    first_version, is_answer, is_newest_of_all, is_table_of, last_lsn, lemma_first_is_newest,
    lemma_get_is_first, lemma_recovery, memory_layers, newest_layers_first, replayed,
    search_order, tables_of,
};
use crate::err::DbError;
use crate::order::{contents_of, lemma_contents, lemma_contents_of};
use crate::write_req::{lemma_stamped, stamped, WriteRequest};
use std::sync::Arc;
use vstd::prelude::*;

verus! {

// --- Where versions are ---

/// Whether a memtable has a version of a key.
pub open spec fn mem_has(m: MemView, key: Seq<u8>, lsn: u64) -> bool {
    m.dom().contains(KeyView { bytes: key, lsn })
}

/// Whether a table has a version of a key.
pub open spec fn table_has(t: TableView, key: Seq<u8>, lsn: u64) -> bool {
    exists|e: Entry| #[trigger] run_of(t).contains(e) && e.0 == (KeyView { bytes: key, lsn })
}

/// Whether a value is stored under a version: in the active memtable, a frozen one or a table
/// of some level.
pub open spec fn is_stored(
    active: MemView,
    frozen: Seq<Arc<Memtable<Immutable>>>,
    levels: Seq<Vec<Arc<Sstable>>>,
    k: KeyView,
    v: ValueView,
) -> bool {
    ||| active.dom().contains(k) && active[k] == v
    ||| exists|i: int|
        0 <= i < frozen.len() && (#[trigger] frozen[i])@.dom().contains(k) && frozen[i]@[k] == v
    ||| exists|l: int, i: int|
        0 <= l < levels.len() && 0 <= i < levels[l]@.len() && run_of(
            (#[trigger] levels[l]@[i])@,
        ).contains((k, v))
}

/// Whether the versions of a key lie in the order of their age: the active memtable has newer
/// ones than the frozen ones, of which the later ones have newer ones; these have newer ones
/// than the tables; a level has newer ones than those behind it; in the first level the later
/// tables have newer ones, in the others the earlier tables have.
pub open spec fn lies_by_age(
    active: MemView,
    frozen: Seq<Arc<Memtable<Immutable>>>,
    levels: Seq<Vec<Arc<Sstable>>>,
    key: Seq<u8>,
) -> bool {
    &&& forall|i: int, x: u64, y: u64|
        0 <= i < frozen.len() && #[trigger] mem_has(active, key, x) && #[trigger] mem_has(
            frozen[i]@,
            key,
            y,
        ) ==> x > y
    &&& forall|l: int, i: int, x: u64, y: u64|
        0 <= l < levels.len() && 0 <= i < levels[l]@.len() && #[trigger] mem_has(active, key, x)
            && #[trigger] table_has(levels[l]@[i]@, key, y) ==> x > y
    &&& forall|i: int, j: int, x: u64, y: u64|
        0 <= j < i < frozen.len() && #[trigger] mem_has(frozen[i]@, key, x)
            && #[trigger] mem_has(frozen[j]@, key, y) ==> x > y
    &&& forall|i: int, m: int, j: int, x: u64, y: u64|
        0 <= i < frozen.len() && 0 <= m < levels.len() && 0 <= j < levels[m]@.len()
            && #[trigger] mem_has(frozen[i]@, key, x) && #[trigger] table_has(
            levels[m]@[j]@,
            key,
            y,
        ) ==> x > y
    &&& forall|l: int, i: int, m: int, j: int, x: u64, y: u64|
        {
            &&& 0 <= l < levels.len()
            &&& 0 <= i < levels[l]@.len()
            &&& 0 <= m < levels.len()
            &&& 0 <= j < levels[m]@.len()
            &&& is_searched_before(l, i, m, j)
            &&& #[trigger] table_has(levels[l]@[i]@, key, x)
            &&& #[trigger] table_has(levels[m]@[j]@, key, y)
        } ==> x > y
}

/// Whether table `i` of level `l` is searched before table `j` of level `m`.
pub open spec fn is_searched_before(l: int, i: int, m: int, j: int) -> bool {
    l < m || (l == m && if l == 0 {
        i > j
    } else {
        i < j
    })
}

// --- The order of the search ---

/// Two tables that are searched one after the other, and where they are: a level is searched
/// before those behind it, the first one from its last table to its first, the others from
/// their first table to their last.
pub proof fn lemma_search_order(levels: Seq<Seq<TableView>>, a: int, b: int) -> (p: (
    (int, int),
    (int, int),
))
    requires
        0 <= a < b < search_order(levels).len(),
    ensures
        0 <= p.0.0 < levels.len(),
        0 <= p.0.1 < levels[p.0.0].len(),
        0 <= p.1.0 < levels.len(),
        0 <= p.1.1 < levels[p.1.0].len(),
        search_order(levels)[a] == levels[p.0.0][p.0.1],
        search_order(levels)[b] == levels[p.1.0][p.1.1],
        is_searched_before(p.0.0, p.0.1, p.1.0, p.1.1),
    decreases levels.len(),
{
    if levels.len() == 1 {
        let n = levels[0].len() as int;
        ((0, n - 1 - a), (0, n - 1 - b))
    } else {
        let shorter = levels.drop_last();
        let last = levels.len() - 1;
        let head = search_order(shorter);
        let n = head.len() as int;
        if b < n {
            lemma_search_order(shorter, a, b)
        } else if a >= n {
            ((last, a - n), (last, b - n))
        } else {
            let q = lemma_searched(shorter, a);
            (q, (last, b - n))
        }
    }
}

/// Every table that is searched is in some level.
pub proof fn lemma_searched(levels: Seq<Seq<TableView>>, a: int) -> (p: (int, int))
    requires
        0 <= a < search_order(levels).len(),
    ensures
        0 <= p.0 < levels.len(),
        0 <= p.1 < levels[p.0].len(),
        search_order(levels)[a] == levels[p.0][p.1],
    decreases levels.len(),
{
    if levels.len() == 1 {
        (0, levels[0].len() - 1 - a)
    } else {
        let shorter = levels.drop_last();
        let n = search_order(shorter).len() as int;
        if a < n {
            lemma_searched(shorter, a)
        } else {
            (levels.len() - 1, a - n)
        }
    }
}

/// Every table of every level is searched.
pub proof fn lemma_all_searched(levels: Seq<Seq<TableView>>, l: int, i: int) -> (a: int)
    requires
        0 <= l < levels.len(),
        0 <= i < levels[l].len(),
    ensures
        0 <= a < search_order(levels).len(),
        search_order(levels)[a] == levels[l][i],
    decreases levels.len(),
{
    if levels.len() == 1 {
        levels[0].len() - 1 - i
    } else {
        let shorter = levels.drop_last();
        if l < levels.len() - 1 {
            lemma_all_searched(shorter, l, i)
        } else {
            search_order(shorter).len() + i
        }
    }
}

// --- Reading ---

/// The layers of tables that are searched, as maps.
spec fn table_layers(levels: Seq<Vec<Arc<Sstable>>>) -> Seq<MemView> {
    let tables = search_order(tables_of(levels));
    Seq::new(tables.len(), |i: int| contents_of(tables[i]))
}

/// Whether every table is one that was written, in order.
pub open spec fn all_written(levels: Seq<Vec<Arc<Sstable>>>) -> bool {
    forall|l: int, i: int|
        0 <= l < levels.len() && 0 <= i < levels[l]@.len() ==> holds_run(
            (#[trigger] levels[l]@[i])@,
            run_of(levels[l]@[i]@),
        )
}

proof fn lemma_layer_at(levels: Seq<Vec<Arc<Sstable>>>, a: int, k: KeyView) -> (p: (int, int))
    requires
        all_written(levels),
        0 <= a < search_order(tables_of(levels)).len(),
    ensures
        0 <= p.0 < levels.len(),
        0 <= p.1 < levels[p.0]@.len(),
        search_order(tables_of(levels))[a] == levels[p.0]@[p.1]@,
        is_table_of(search_order(tables_of(levels))[a], table_layers(levels)[a]),
        table_layers(levels)[a].dom().contains(k) <==> table_has(
            levels[p.0]@[p.1]@,
            k.bytes,
            k.lsn,
        ),
{
    let p = lemma_searched(tables_of(levels), a);
    let t = levels[p.0]@[p.1]@;
    assert(holds_run(t, run_of(t)));
    lemma_contents_of(t);
    lemma_contents(t, contents_of(t), k);
    p
}

proof fn lemma_layers_by_age(
    active: MemView,
    frozen: Seq<Arc<Memtable<Immutable>>>,
    levels: Seq<Vec<Arc<Sstable>>>,
    key: Seq<u8>,
)
    requires
        all_written(levels),
        lies_by_age(active, frozen, levels, key),
    ensures
        newest_layers_first(memory_layers(active, frozen) + table_layers(levels), key),
{
    let memory = memory_layers(active, frozen);
    let layers = memory + table_layers(levels);
    let n = memory.len() as int;
    assert forall|a: int, b: int, x: u64, y: u64|
        0 <= a < b < layers.len() && #[trigger] layers[a].dom().contains(
            KeyView { bytes: key, lsn: x },
        ) && #[trigger] layers[b].dom().contains(KeyView { bytes: key, lsn: y }) implies x > y by {
        let kx = KeyView { bytes: key, lsn: x };
        let ky = KeyView { bytes: key, lsn: y };
        if b < n {
            let j = frozen.len() - b;
            assert(mem_has(frozen[j]@, key, y));
            if a == 0 {
                assert(mem_has(active, key, x));
            } else {
                assert(mem_has(frozen[frozen.len() - a]@, key, x));
            }
        } else {
            let q = lemma_layer_at(levels, b - n, ky);
            assert(table_has(levels[q.0]@[q.1]@, key, y));
            if a == 0 {
                assert(mem_has(active, key, x));
            } else if a < n {
                assert(mem_has(frozen[frozen.len() - a]@, key, x));
            } else {
                lemma_tables_by_age(active, frozen, levels, key, a - n, b - n, x, y);
            }
        }
    }
}

proof fn lemma_tables_by_age(
    active: MemView,
    frozen: Seq<Arc<Memtable<Immutable>>>,
    levels: Seq<Vec<Arc<Sstable>>>,
    key: Seq<u8>,
    a: int,
    b: int,
    x: u64,
    y: u64,
)
    requires
        all_written(levels),
        lies_by_age(active, frozen, levels, key),
        0 <= a < b < search_order(tables_of(levels)).len(),
        table_layers(levels)[a].dom().contains(KeyView { bytes: key, lsn: x }),
        table_layers(levels)[b].dom().contains(KeyView { bytes: key, lsn: y }),
    ensures
        x > y,
{
    let p = lemma_layer_at(levels, a, KeyView { bytes: key, lsn: x });
    let q = lemma_layer_at(levels, b, KeyView { bytes: key, lsn: y });
    let (s, t) = lemma_search_order(tables_of(levels), a, b);
    assert(levels[s.0]@[s.1]@ == levels[p.0]@[p.1]@);
    assert(levels[t.0]@[t.1]@ == levels[q.0]@[q.1]@);
    assert(table_has(levels[s.0]@[s.1]@, key, x));
    assert(table_has(levels[t.0]@[t.1]@, key, y));
}

/// The layer in which a value is stored under a version.
proof fn lemma_stored_layer(
    active: MemView,
    frozen: Seq<Arc<Memtable<Immutable>>>,
    levels: Seq<Vec<Arc<Sstable>>>,
    k: KeyView,
    v: ValueView,
) -> (i: int)
    requires
        all_written(levels),
        is_stored(active, frozen, levels, k, v),
    ensures
        ({
            let layers = memory_layers(active, frozen) + table_layers(levels);
            0 <= i < layers.len() && layers[i].dom().contains(k) && layers[i][k] == v
        }),
{
    let memory = memory_layers(active, frozen);
    let layers = memory + table_layers(levels);
    if active.dom().contains(k) && active[k] == v {
        assert(layers[0] == active);
        0
    } else if exists|i: int|
        0 <= i < frozen.len() && (#[trigger] frozen[i])@.dom().contains(k) && frozen[i]@[k] == v {
        let i = choose|i: int|
            0 <= i < frozen.len() && (#[trigger] frozen[i])@.dom().contains(k) && frozen[i]@[k]
                == v;
        assert(layers[frozen.len() - i] == frozen[i]@);
        frozen.len() - i
    } else {
        let (l, i) = choose|l: int, i: int|
            0 <= l < levels.len() && 0 <= i < levels[l]@.len() && run_of(
                (#[trigger] levels[l]@[i])@,
            ).contains((k, v));
        let t = levels[l]@[i]@;
        assert(tables_of(levels)[l][i] == t);
        let a = lemma_all_searched(tables_of(levels), l, i);
        assert(holds_run(t, run_of(t)));
        lemma_contents_of(t);
        lemma_contents(t, contents_of(t), k);
        let run = run_of(t);
        let x = choose|x: int| 0 <= x < run.len() && run[x] == (k, v);
        assert(contents_of(t)[run[x].0] == run[x].1);
        assert(contents_of(t).dom().contains(run[x].0));
        assert(layers[memory.len() + a] == contents_of(t));
        memory.len() + a
    }
}

/// The version of a layer is stored.
proof fn lemma_layer_stored(
    active: MemView,
    frozen: Seq<Arc<Memtable<Immutable>>>,
    levels: Seq<Vec<Arc<Sstable>>>,
    k: KeyView,
    i: int,
)
    requires
        all_written(levels),
        0 <= i < (memory_layers(active, frozen) + table_layers(levels)).len(),
        (memory_layers(active, frozen) + table_layers(levels))[i].dom().contains(k),
    ensures
        exists|v: ValueView| #[trigger] is_stored(active, frozen, levels, k, v),
{
    let memory = memory_layers(active, frozen);
    let layers = memory + table_layers(levels);
    let v = layers[i][k];
    if i == 0 {
        assert(is_stored(active, frozen, levels, k, v));
    } else if i < memory.len() {
        assert(frozen[frozen.len() - i]@ == layers[i]);
        assert(is_stored(active, frozen, levels, k, v));
    } else {
        let p = lemma_layer_at(levels, i - memory.len(), k);
        let e = choose|e: Entry| #[trigger]
            run_of(levels[p.0]@[p.1]@).contains(e) && e.0 == (KeyView {
                bytes: k.bytes,
                lsn: k.lsn,
            });
        assert(e == (k, e.1));
        assert(run_of(levels[p.0]@[p.1]@).contains((k, e.1)));
        assert(is_stored(active, frozen, levels, k, e.1));
    }
}

proof fn lemma_answer(
    active: MemView,
    frozen: Seq<Arc<Memtable<Immutable>>>,
    levels: Seq<Vec<Arc<Sstable>>>,
    key: Seq<u8>,
    r: Result<Option<ValueView>, DbError>,
)
    requires
        all_written(levels),
        is_answer(active, frozen, levels, key, r),
    ensures
        r == Ok::<Option<ValueView>, DbError>(
            live(first_version(memory_layers(active, frozen) + table_layers(levels), key)),
        ),
{
    let maps = table_layers(levels);
    assert forall|i: int| 0 <= i < maps.len() implies is_table_of(
        #[trigger] search_order(tables_of(levels))[i],
        maps[i],
    ) by {
        let p = lemma_layer_at(levels, i, KeyView { bytes: key, lsn: 0 });
    }
    lemma_get_is_first(active, frozen, levels, maps, key, r);
}

/// A read gives the value that is stored under the newest version of the key, wherever that
/// is, or nothing where that version says that the key was deleted.
pub proof fn lemma_get_gives_newest(
    active: MemView,
    frozen: Seq<Arc<Memtable<Immutable>>>,
    levels: Seq<Vec<Arc<Sstable>>>,
    k: KeyView,
    v: ValueView,
    r: Result<Option<ValueView>, DbError>,
)
    requires
        all_written(levels),
        lies_by_age(active, frozen, levels, k.bytes),
        is_stored(active, frozen, levels, k, v),
        forall|other: KeyView, w: ValueView| #[trigger]
            is_stored(active, frozen, levels, other, w) && other.bytes == k.bytes ==> other.lsn
                <= k.lsn,
        is_answer(active, frozen, levels, k.bytes, r),
    ensures
        r == Ok::<Option<ValueView>, DbError>(
            if v is Tombstone {
                None
            } else {
                Some(v)
            },
        ),
{
    let layers = memory_layers(active, frozen) + table_layers(levels);
    let key = k.bytes;
    lemma_layers_by_age(active, frozen, levels, key);
    let i = lemma_stored_layer(active, frozen, levels, k, v);
    assert(k == KeyView { bytes: key, lsn: k.lsn });
    assert forall|j: int, other: u64|
        0 <= j < layers.len() && #[trigger] layers[j].dom().contains(
            KeyView { bytes: key, lsn: other },
        ) implies other <= k.lsn by {
        let o = KeyView { bytes: key, lsn: other };
        lemma_layer_stored(active, frozen, levels, o, j);
        let w = choose|w: ValueView| #[trigger] is_stored(active, frozen, levels, o, w);
        assert(is_stored(active, frozen, levels, o, w) && o.bytes == k.bytes);
    }
    assert(is_newest_of_all(layers, key, i, k.lsn));
    lemma_first_is_newest(layers, key, i, k.lsn);
    lemma_answer(active, frozen, levels, key, r);
    lemma_live(v);
}

/// A read of a key of which nothing is stored gives nothing.
pub proof fn lemma_get_gives_nothing(
    active: MemView,
    frozen: Seq<Arc<Memtable<Immutable>>>,
    levels: Seq<Vec<Arc<Sstable>>>,
    key: Seq<u8>,
    r: Result<Option<ValueView>, DbError>,
)
    requires
        all_written(levels),
        forall|k: KeyView, v: ValueView| #[trigger]
            is_stored(active, frozen, levels, k, v) ==> k.bytes != key,
        is_answer(active, frozen, levels, key, r),
    ensures
        r == Ok::<Option<ValueView>, DbError>(None),
{
    let layers = memory_layers(active, frozen) + table_layers(levels);
    assert forall|i: int, lsn: u64| 0 <= i < layers.len() implies !(
    #[trigger] layers[i].dom().contains(KeyView { bytes: key, lsn })) by {
        if layers[i].dom().contains(KeyView { bytes: key, lsn }) {
            let k = KeyView { bytes: key, lsn };
            lemma_layer_stored(active, frozen, levels, k, i);
            let v = choose|v: ValueView| #[trigger] is_stored(active, frozen, levels, k, v);
            assert(k.bytes != key);
        }
    }
    lemma_not_known(layers, key);
    lemma_answer(active, frozen, levels, key, r);
    lemma_live(ValueView::Tombstone);
}

proof fn lemma_not_known(layers: Seq<MemView>, key: Seq<u8>)
    requires
        forall|i: int, lsn: u64|
            0 <= i < layers.len() ==> !(#[trigger] layers[i].dom().contains(
                KeyView { bytes: key, lsn },
            )),
    ensures
        first_version(layers, key) is None,
    decreases layers.len(),
{
    if layers.len() > 0 {
        lemma_newest_version(layers[0], key);
        if newest(layers[0], key) is Some {
            let lsn = choose|lsn: u64| #[trigger]
                layers[0].dom().contains(KeyView { bytes: key, lsn });
            assert(layers[0].dom().contains(KeyView { bytes: key, lsn }));
        }
        let rest = layers.skip(1);
        assert forall|i: int, lsn: u64| 0 <= i < rest.len() implies !(
        #[trigger] rest[i].dom().contains(KeyView { bytes: key, lsn })) by {
            assert(!layers[i + 1].dom().contains(KeyView { bytes: key, lsn }));
        }
        lemma_not_known(rest, key);
    }
}

// --- Writing and reading ---

/// Once a group is written, a read of a key in it gives the value of the last request for the
/// key, or nothing where that was a delete; a read of any other key gives what it gave before.
pub proof fn lemma_group_then_get(
    active: MemView,
    frozen: Seq<Arc<Memtable<Immutable>>>,
    levels: Seq<Vec<Arc<Sstable>>>,
    reqs: Seq<WriteRequest>,
    start: u64,
    key: Seq<u8>,
    r: Result<Option<ValueView>, DbError>,
)
    requires
        start + reqs.len() <= u64::MAX,
        forall|lsn: u64| mem_has(active, key, lsn) ==> lsn < start,
        is_answer(insert_all(active, stamped(reqs, start)), frozen, levels, key, r),
    ensures
        forall|i: int|
            0 <= i < reqs.len() && (#[trigger] reqs[i]).key.bytes@ == key && (forall|j: int|
                i < j < reqs.len() ==> (#[trigger] reqs[j]).key.bytes@ != key) ==> r == Ok::<
                Option<ValueView>,
                DbError,
            >(
                if reqs[i].value is Tombstone {
                    None
                } else {
                    Some(reqs[i].value@)
                },
            ),
        (forall|j: int| 0 <= j < reqs.len() ==> (#[trigger] reqs[j]).key.bytes@ != key)
            ==> is_answer(active, frozen, levels, key, r),
{
    let after = insert_all(active, stamped(reqs, start));
    let before_layers = memory_layers(active, frozen);
    let layers = memory_layers(after, frozen);
    assert(layers[0] == after && before_layers[0] == active);
    assert(layers.skip(1) =~= before_layers.skip(1));
    assert forall|i: int|
        0 <= i < reqs.len() && (#[trigger] reqs[i]).key.bytes@ == key && (forall|j: int|
            i < j < reqs.len() ==> (#[trigger] reqs[j]).key.bytes@ != key) implies r == Ok::<
        Option<ValueView>,
        DbError,
    >(
        if reqs[i].value is Tombstone {
            None
        } else {
            Some(reqs[i].value@)
        },
    ) by {
        assert forall|lsn: u64| #[trigger]
            active.dom().contains(KeyView { bytes: key, lsn }) implies lsn < start by {
            assert(mem_has(active, key, lsn));
        }
        lemma_group_is_newest(active, reqs, start, key, i);
        assert(first_version(layers, key) == Some(reqs[i].value@));
        lemma_live(reqs[i].value@);
    }
    if forall|j: int| 0 <= j < reqs.len() ==> (#[trigger] reqs[j]).key.bytes@ != key {
        lemma_group_keeps_others(active, reqs, start, key);
        assert(first_version(layers, key) == first_version(before_layers, key));
    }
}

// --- Restarting ---

/// LSNs go on after a restart: where the LSNs of a log increase, the last one that a replay
/// finds is not below that of any entry, and is that of one of them.
pub proof fn lemma_last_lsn(es: Seq<Entry>)
    requires
        forall|i: int, j: int|
            0 <= i < j < es.len() ==> (#[trigger] es[i]).0.lsn < (#[trigger] es[j]).0.lsn,
    ensures
        forall|i: int| 0 <= i < es.len() ==> (#[trigger] es[i]).0.lsn <= last_lsn(es),
        es.len() > 0 ==> exists|i: int|
            0 <= i < es.len() && (#[trigger] es[i]).0.lsn == last_lsn(es),
        es.len() == 0 ==> last_lsn(es) == 0,
        forall|k: KeyView| #[trigger]
            insert_all(MemView::empty(), es).dom().contains(k) ==> k.lsn < last_lsn(es) + 1,
{
    let n = es.len() as int;
    if n > 0 {
        assert(es[n - 1].0.lsn == last_lsn(es));
        assert forall|i: int| 0 <= i < es.len() implies (#[trigger] es[i]).0.lsn <= last_lsn(
            es,
        ) by {
            if i < n - 1 {
                assert(es[i].0.lsn < es[n - 1].0.lsn);
            }
        }
    }
    assert forall|k: KeyView| #[trigger]
        insert_all(MemView::empty(), es).dom().contains(k) implies k.lsn < last_lsn(es) + 1 by {
        lemma_insert_all_versions(MemView::empty(), es, k);
        let i = choose|i: int| 0 <= i < es.len() && (#[trigger] es[i]).0 == k;
        assert(es[i].0.lsn <= last_lsn(es));
    }
}

/// A group that was logged comes back at a restart, also from a log that was cut short behind
/// it: an entry for each request, with its key, its value and the LSN that it was given; and
/// the next LSN is beyond them.
pub proof fn lemma_group_recovers(reqs: Seq<WriteRequest>, start: u64, e: Entry, n: int)
    requires
        start + reqs.len() <= u64::MAX,
        forall|i: int|
            0 <= i < reqs.len() ==> Key::encodable(
                KeyView { bytes: (#[trigger] reqs[i]).key.bytes@, lsn: 0 },
            ) && Value::encodable(reqs[i].value@),
        <(Key, Value) as Loggable>::encodable(e),
        0 <= n < log_entry(e).len(),
    ensures
        replayed(
            log_header() + log_entries(stamped(reqs, start)) + log_entry(e).take(n),
        ) matches Ok(es) && {
            &&& es.len() == reqs.len()
            &&& forall|i: int|
                0 <= i < reqs.len() ==> (#[trigger] es[i]).0.bytes == reqs[i].key.bytes@
                    && es[i].0.lsn == start + i && es[i].1 == reqs[i].value@
            &&& reqs.len() > 0 ==> last_lsn(es) == start + reqs.len() - 1
        },
{
    let es = stamped(reqs, start);
    assert forall|i: int| 0 <= i < es.len() implies <(Key, Value) as Loggable>::encodable(
        #[trigger] es[i],
    ) by {
        lemma_stamped(reqs, start, i);
        assert(reqs[i].key.bytes@.len() <= u16::MAX) by {
            assert(Key::encodable(KeyView { bytes: reqs[i].key.bytes@, lsn: 0 }));
        }
    }
    lemma_recovery(es, e, n);
    assert forall|i: int| 0 <= i < reqs.len() implies (#[trigger] es[i]).0.bytes
        == reqs[i].key.bytes@ && es[i].0.lsn == start + i && es[i].1 == reqs[i].value@ by {
        lemma_stamped(reqs, start, i);
    }
    lemma_last_lsn(es);
    if reqs.len() > 0 {
        let i = choose|i: int| 0 <= i < es.len() && (#[trigger] es[i]).0.lsn == last_lsn(es);
        assert(es[es.len() - 1].0.lsn <= last_lsn(es));
    }
}

} // verus!
