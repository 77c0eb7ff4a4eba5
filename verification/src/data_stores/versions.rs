//! What memtables and tables know of a key, in terms of what was put into them.

use crate::compact::laws::lemma_newest_first;
use crate::data_stores::key::KeyView;
use crate::data_stores::memtable::{
    grown, grown_by, insert_all, is_newest, lemma_newest, live, newest, MemView,
};
use crate::data_stores::table_format::{
    entry_bytes, holds_run, lemma_holds_run, lemma_lookup_absent, lemma_run_search, Entry,
    TableView,
};
use crate::data_stores::value::ValueView;
use crate::data_stores::le;
use crate::err::DbError;
use crate::write_req::{lemma_stamped, stamped, WriteRequest};
use vstd::prelude::*;

verus! {

// --- Memtables ---

/// A memtable holds the versions that it held and those that were put into it, and no others.
pub proof fn lemma_insert_all_versions(m: MemView, es: Seq<Entry>, k: KeyView)
    ensures
        insert_all(m, es).dom().contains(k) <==> m.dom().contains(k) || exists|i: int|
            0 <= i < es.len() && (#[trigger] es[i]).0 == k,
    decreases es.len(),
{
    if es.len() > 0 {
        let shorter = es.drop_last();
        let last = es.len() - 1;
        lemma_insert_all_versions(m, shorter, k);
        if exists|i: int| 0 <= i < shorter.len() && (#[trigger] shorter[i]).0 == k {
            let i = choose|i: int| 0 <= i < shorter.len() && (#[trigger] shorter[i]).0 == k;
            assert(es[i].0 == k);
        }
        if exists|i: int| 0 <= i < es.len() && (#[trigger] es[i]).0 == k {
            let i = choose|i: int| 0 <= i < es.len() && (#[trigger] es[i]).0 == k;
            if i < last {
                assert(shorter[i].0 == k);
            }
        }
        assert(es[last].0 == es.last().0);
    }
}

/// Under a version, a memtable holds what was put there last.
pub proof fn lemma_insert_all_value(m: MemView, es: Seq<Entry>, i: int)
    requires
        0 <= i < es.len(),
        forall|j: int| i < j < es.len() ==> (#[trigger] es[j]).0 != es[i].0,
    ensures
        insert_all(m, es)[es[i].0] == es[i].1,
    decreases es.len(),
{
    let shorter = es.drop_last();
    let last = es.len() - 1;
    if i < last {
        assert(es[last].0 != es[i].0);
        assert(shorter[i] == es[i]);
        assert forall|j: int| i < j < shorter.len() implies (#[trigger] shorter[j]).0
            != shorter[i].0 by {
            assert(es[j].0 != es[i].0);
        }
        lemma_insert_all_value(m, shorter, i);
    }
}

/// Under a version that nothing was put under, a memtable holds what it held.
pub proof fn lemma_insert_all_keeps(m: MemView, es: Seq<Entry>, k: KeyView)
    requires
        forall|i: int| 0 <= i < es.len() ==> (#[trigger] es[i]).0 != k,
    ensures
        insert_all(m, es).dom().contains(k) <==> m.dom().contains(k),
        m.dom().contains(k) ==> insert_all(m, es)[k] == m[k],
    decreases es.len(),
{
    if es.len() > 0 {
        let shorter = es.drop_last();
        assert(es[es.len() - 1].0 != k);
        assert forall|i: int| 0 <= i < shorter.len() implies (#[trigger] shorter[i]).0 != k by {
            assert(es[i].0 != k);
        }
        lemma_insert_all_keeps(m, shorter, k);
    }
}

/// Of versions of which one is at most `bound`, one is the newest among those.
proof fn lemma_has_newest(m: MemView, key: Seq<u8>, bound: u64) -> (newest: u64)
    requires
        exists|lsn: u64|
            lsn <= bound && #[trigger] m.dom().contains(KeyView { bytes: key, lsn }),
    ensures
        newest <= bound,
        m.dom().contains(KeyView { bytes: key, lsn: newest }),
        forall|lsn: u64|
            lsn <= bound && #[trigger] m.dom().contains(KeyView { bytes: key, lsn }) ==> lsn
                <= newest,
    decreases bound,
{
    if m.dom().contains(KeyView { bytes: key, lsn: bound }) {
        bound
    } else {
        let lsn = choose|lsn: u64|
            lsn <= bound && #[trigger] m.dom().contains(KeyView { bytes: key, lsn });
        assert(lsn != bound);
        lemma_has_newest(m, key, (bound - 1) as u64)
    }
}

/// What a memtable knows of a key is the value of the version with the highest LSN; it knows
/// nothing exactly where it holds no version.
pub proof fn lemma_newest_version(m: MemView, key: Seq<u8>)
    ensures
        newest(m, key) is Some <==> exists|lsn: u64| #[trigger]
            m.dom().contains(KeyView { bytes: key, lsn }),
        newest(m, key) matches Some(v) ==> exists|lsn: u64|
            {
                &&& #[trigger] m.dom().contains(KeyView { bytes: key, lsn })
                &&& m[KeyView { bytes: key, lsn }] == v
                &&& forall|other: u64| #[trigger]
                    m.dom().contains(KeyView { bytes: key, lsn: other }) ==> other <= lsn
            },
{
    if exists|lsn: u64| #[trigger] m.dom().contains(KeyView { bytes: key, lsn }) {
        let some = choose|lsn: u64| #[trigger] m.dom().contains(KeyView { bytes: key, lsn });
        assert(some <= u64::MAX);
        let lsn = lemma_has_newest(m, key, u64::MAX);
        assert(is_newest(m, key, lsn));
        lemma_newest(m, key, lsn);
        assert(m.dom().contains(KeyView { bytes: key, lsn }));
    }
}

/// A reader is given a version as it is, unless it says that the key was deleted: then nothing.
pub proof fn lemma_live(v: ValueView)
    ensures
        live(Some(v)) == (if v is Tombstone {
            None::<ValueView>
        } else {
            Some(v)
        }),
        live(None) is None,
{
}

/// A memtable grows by the bytes of each entry, counted modulo the range of the counter.
pub proof fn lemma_grown(size: nat, es: Seq<Entry>, e: Entry)
    ensures
        grown(size, e) == (size + entry_bytes(e).len()) % ((usize::MAX + 1) as nat),
        grown_by(size, es.push(e)) == grown(grown_by(size, es), e),
        grown_by(size, Seq::empty()) == size,
{
    le::lemma_le_bytes_len(e.0.lsn as nat, 8);
    le::lemma_le_bytes_len((e.0.bytes.len() as u16) as nat, 2);
    le::lemma_le_bytes_len(e.1.meta() as nat, 1);
    le::lemma_le_bytes_len((e.1.payload().len() as u32) as nat, 4);
    assert(es.push(e).drop_last() =~= es);
}

/// Once a group is in the memtable, the last request of a key in the group is what the memtable
/// knows of the key, with the value of that request.
pub proof fn lemma_group_is_newest(
    m: MemView,
    reqs: Seq<WriteRequest>,
    start: u64,
    key: Seq<u8>,
    i: int,
)
    requires
        start + reqs.len() <= u64::MAX,
        forall|lsn: u64| #[trigger]
            m.dom().contains(KeyView { bytes: key, lsn }) ==> lsn < start,
        0 <= i < reqs.len(),
        reqs[i].key.bytes@ == key,
        forall|j: int| i < j < reqs.len() ==> (#[trigger] reqs[j]).key.bytes@ != key,
    ensures
        newest(insert_all(m, stamped(reqs, start)), key) == Some(reqs[i].value@),
{
    let es = stamped(reqs, start);
    let after = insert_all(m, es);
    let lsn = (start + i) as u64;
    let k = KeyView { bytes: key, lsn };
    assert forall|j: int| 0 <= j < es.len() implies (#[trigger] es[j]).0.lsn == start + j
        && es[j].0.bytes == reqs[j].key.bytes@ by {
        lemma_stamped(reqs, start, j);
    }
    lemma_stamped(reqs, start, i);
    assert(es[i].0 == k);
    lemma_insert_all_versions(m, es, k);
    lemma_insert_all_value(m, es, i);
    assert forall|other: u64| #[trigger]
        after.dom().contains(KeyView { bytes: key, lsn: other }) implies other <= lsn by {
        let o = KeyView { bytes: key, lsn: other };
        lemma_insert_all_versions(m, es, o);
        if !m.dom().contains(o) {
            let j = choose|j: int| 0 <= j < es.len() && (#[trigger] es[j]).0 == o;
            assert(es[j].0.bytes == reqs[j].key.bytes@);
            assert(reqs[j].key.bytes@ == key);
        }
    }
    assert(is_newest(after, key, lsn));
    lemma_newest(after, key, lsn);
}

/// A group changes nothing that the memtable knows of other keys.
pub proof fn lemma_group_keeps_others(
    m: MemView,
    reqs: Seq<WriteRequest>,
    start: u64,
    key: Seq<u8>,
)
    requires
        start + reqs.len() <= u64::MAX,
        forall|j: int| 0 <= j < reqs.len() ==> (#[trigger] reqs[j]).key.bytes@ != key,
    ensures
        newest(insert_all(m, stamped(reqs, start)), key) == newest(m, key),
{
    let es = stamped(reqs, start);
    let after = insert_all(m, es);
    assert forall|lsn: u64|
        #![trigger after.dom().contains(KeyView { bytes: key, lsn })]
        #![trigger m.dom().contains(KeyView { bytes: key, lsn })]
        (after.dom().contains(KeyView { bytes: key, lsn }) <==> m.dom().contains(
            KeyView { bytes: key, lsn },
        )) && (m.dom().contains(KeyView { bytes: key, lsn }) ==> after[KeyView {
            bytes: key,
            lsn,
        }] == m[KeyView { bytes: key, lsn }]) by {
        let k = KeyView { bytes: key, lsn };
        assert forall|j: int| 0 <= j < es.len() implies (#[trigger] es[j]).0 != k by {
            lemma_stamped(reqs, start, j);
            assert(reqs[j].key.bytes@ != key);
        }
        lemma_insert_all_keeps(m, es, k);
    }
    lemma_newest_version(m, key);
    lemma_newest_version(after, key);
    if newest(m, key) is Some {
        let lsn = choose|lsn: u64| is_newest(m, key, lsn);
        assert(is_newest(m, key, lsn));
        assert(after.dom().contains(KeyView { bytes: key, lsn }));
        assert(is_newest(after, key, lsn));
        lemma_newest(after, key, lsn);
        lemma_newest(m, key, lsn);
    } else if newest(after, key) is Some {
        let lsn = choose|lsn: u64| #[trigger] after.dom().contains(KeyView { bytes: key, lsn });
        assert(m.dom().contains(KeyView { bytes: key, lsn }));
    }
}

// --- Tables ---

/// Searching the table of some entries gives the value of the version of the key with the
/// highest LSN among them, and nothing where they have no version of it.
pub proof fn lemma_table_gives_newest(
    t: TableView,
    es: Seq<Entry>,
    key: Seq<u8>,
    r: Result<Option<ValueView>, DbError>,
)
    requires
        holds_run(t, es),
        t.is_found(key, r),
    ensures
        forall|i: int|
            0 <= i < es.len() && (#[trigger] es[i]).0.bytes == key && (forall|j: int|
                0 <= j < es.len() && (#[trigger] es[j]).0.bytes == key ==> es[j].0.lsn
                    <= es[i].0.lsn) ==> r == Ok::<Option<ValueView>, DbError>(Some(es[i].1)),
        (forall|i: int| 0 <= i < es.len() ==> (#[trigger] es[i]).0.bytes != key) ==> r == Ok::<
            Option<ValueView>,
            DbError,
        >(None),
{
    lemma_holds_run(t, es);
    lemma_run_search(t, es, key, r);
    assert forall|i: int|
        0 <= i < es.len() && (#[trigger] es[i]).0.bytes == key && (forall|j: int|
            0 <= j < es.len() && (#[trigger] es[j]).0.bytes == key ==> es[j].0.lsn
                <= es[i].0.lsn) implies r == Ok::<Option<ValueView>, DbError>(Some(es[i].1)) by {
        lemma_newest_first(es, i);
    }
    if forall|i: int| 0 <= i < es.len() ==> (#[trigger] es[i]).0.bytes != key {
        lemma_lookup_absent(es, key);
    }
}

} // verus!
