//! The in-memory store: every version of every key that was written since the last flush.

use crate::data_stores::key::{
    bytes_lt, key_lt, lemma_bytes_lt_irreflexive, Key, KeyView,
};
use crate::data_stores::table_format::{
    lemma_lookup_finds, lemma_lookup_present, lookup, sorted, Entry,
};
use crate::data_stores::value::{Value, ValueView};
use crate::err::DbError;
use crate::write_req::WriteRequest;
use crossbeam_skiplist::SkipMap;
use std::marker::PhantomData;
use vstd::arithmetic::div_mod::{
    lemma_add_mod_noop_right, lemma_mod_add_multiples_vanish, lemma_small_mod,
};
use vstd::prelude::*;
use vstd::slice::slice_to_vec;

verus! {

/// Designator for an active memtable.
#[derive(Debug)]
pub struct Mutable {}

/// Designator for a memtable that is frozen and does not accept writes.
#[derive(Debug)]
pub struct Immutable {}

// --- The skip list ---

/// The concurrent ordered map of the skip list crate.
#[verifier::external_type_specification]
#[verifier::external_body]
#[verifier::reject_recursive_types(K)]
#[verifier::reject_recursive_types(V)]
pub struct ExSkipMap<K, V>(crossbeam_skiplist::SkipMap<K, V>);

/// The values by their slots. A slot is the bytes of a user key, and what the LSN lacks to the
/// largest one, so that of two versions the newer one comes first.
pub type ListView = Map<(Seq<u8>, u64), ValueView>;

/// What the list holds.
pub uninterp spec fn contents(list: SkipMap<(Vec<u8>, u64), Value>) -> ListView;

/// The order of the slots: that of tuples, and of byte vectors in them.
pub open spec fn slot_lt(a: (Seq<u8>, u64), b: (Seq<u8>, u64)) -> bool {
    bytes_lt(a.0, b.0) || (a.0 == b.0 && a.1 < b.1)
}

pub open spec fn slot_in(a: (Seq<u8>, u64), low: (Seq<u8>, u64), high: (Seq<u8>, u64)) -> bool {
    !slot_lt(a, low) && !slot_lt(high, a)
}

/// `SkipMap::new`: a list that holds nothing.
#[verifier::external_body]
fn list_new() -> (list: SkipMap<(Vec<u8>, u64), Value>)
    ensures
        contents(list) == ListView::empty(),
{
    SkipMap::new()
}

/// `SkipMap::insert`: the slot holds the value afterwards, whatever it held before, and no
/// other slot changes.
#[verifier::external_body]
fn list_insert(list: &mut SkipMap<(Vec<u8>, u64), Value>, slot: (Vec<u8>, u64), value: Value)
    ensures
        contents(*final(list)) == contents(*old(list)).insert((slot.0@, slot.1), value@),
{
    list.insert(slot, value);
}

/// `SkipMap::range` over an inclusive range, and the first entry that it gives: the value in
/// the first slot of the range, if a slot of the range is taken.
#[verifier::external_body]
fn list_first_in(
    list: &SkipMap<(Vec<u8>, u64), Value>,
    low: (Vec<u8>, u64),
    high: (Vec<u8>, u64),
) -> (r: Option<Value>)
    ensures
        match r {
            Some(value) => exists|slot: (Seq<u8>, u64)| #[trigger]
                contents(*list).dom().contains(slot) && slot_in(
                    slot,
                    (low.0@, low.1),
                    (high.0@, high.1),
                ) && contents(*list)[slot] == value@ && forall|other: (Seq<u8>, u64)| #[trigger]
                    contents(*list).dom().contains(other) && slot_in(
                        other,
                        (low.0@, low.1),
                        (high.0@, high.1),
                    ) ==> !slot_lt(other, slot),
            None => forall|slot: (Seq<u8>, u64)| #[trigger]
                contents(*list).dom().contains(slot) ==> !slot_in(
                    slot,
                    (low.0@, low.1),
                    (high.0@, high.1),
                ),
        },
{
    list.range(low..=high).next().map(|entry| entry.value().clone())
}

/// `SkipMap::iter`: every slot that is taken, in order, with its value.
#[verifier::external_body]
fn list_entries(list: &SkipMap<(Vec<u8>, u64), Value>) -> (r: Vec<((Vec<u8>, u64), Value)>)
    ensures
        forall|i: int, j: int|
            0 <= i < j < r@.len() ==> slot_lt(
                (#[trigger] r.deep_view()[i]).0,
                (#[trigger] r.deep_view()[j]).0,
            ),
        forall|i: int|
            0 <= i < r@.len() ==> contents(*list).dom().contains((#[trigger] r.deep_view()[i]).0)
                && contents(*list)[r.deep_view()[i].0] == r.deep_view()[i].1,
        forall|slot: (Seq<u8>, u64)| #[trigger]
            contents(*list).dom().contains(slot) ==> exists|i: int|
                0 <= i < r@.len() && (#[trigger] r.deep_view()[i]).0 == slot,
{
    list.iter().map(|entry| (entry.key().clone(), entry.value().clone())).collect()
}

// --- Memtables ---

/// What a memtable holds: the value of every version of a key.
pub type MemView = Map<KeyView, ValueView>;

/// The slot of a key.
pub open spec fn slot_of(k: KeyView) -> (Seq<u8>, u64) {
    (k.bytes, (u64::MAX - k.lsn) as u64)
}

/// An in-memory table of an LSM tree.
///
/// State: [`Mutable`] or [`Immutable`].
pub struct Memtable<State> {
    store: SkipMap<(Vec<u8>, u64), Value>,
    size_bytes: usize,
    state: PhantomData<State>,
}

impl<State> View for Memtable<State> {
    type V = MemView;

    closed spec fn view(&self) -> MemView {
        Map::new(
            |k: KeyView| contents(self.store).dom().contains(slot_of(k)),
            |k: KeyView| contents(self.store)[slot_of(k)],
        )
    }
}

/// Adding entries one after the other.
pub open spec fn insert_all(m: MemView, es: Seq<Entry>) -> MemView
    decreases es.len(),
{
    if es.len() == 0 {
        m
    } else {
        insert_all(m, es.drop_last()).insert(es.last().0, es.last().1)
    }
}

/// Whether `lsn` is the newest version of a key.
pub open spec fn is_newest(m: MemView, key: Seq<u8>, lsn: u64) -> bool {
    &&& m.dom().contains(KeyView { bytes: key, lsn })
    &&& forall|other: u64| #[trigger]
        m.dom().contains(KeyView { bytes: key, lsn: other }) ==> other <= lsn
}

/// The newest version of a key, a tombstone included.
pub open spec fn newest(m: MemView, key: Seq<u8>) -> Option<ValueView> {
    if exists|lsn: u64| is_newest(m, key, lsn) {
        let lsn = choose|lsn: u64| is_newest(m, key, lsn);
        Some(m[KeyView { bytes: key, lsn }])
    } else {
        None
    }
}

/// What a reader is given for a version: nothing where the key was deleted.
pub open spec fn live(version: Option<ValueView>) -> Option<ValueView> {
    match version {
        Some(ValueView::Tombstone) => None,
        other => other,
    }
}

pub proof fn lemma_newest(m: MemView, key: Seq<u8>, lsn: u64)
    requires
        is_newest(m, key, lsn),
    ensures
        newest(m, key) == Some(m[KeyView { bytes: key, lsn }]),
{
    let other = choose|lsn: u64| is_newest(m, key, lsn);
    assert(is_newest(m, key, other));
    assert(m.dom().contains(KeyView { bytes: key, lsn: other }));
    assert(m.dom().contains(KeyView { bytes: key, lsn }));
}

/// A write with an LSN above all others is what the next read of its key sees, and a
/// read of any other key sees what it saw before.
pub proof fn lemma_write_then_read(m: MemView, k: KeyView, v: ValueView, other: Seq<u8>)
    requires
        forall|lsn: u64| #[trigger]
            m.dom().contains(KeyView { bytes: k.bytes, lsn }) ==> lsn <= k.lsn,
    ensures
        newest(m.insert(k, v), k.bytes) == Some(v),
        other != k.bytes ==> newest(m.insert(k, v), other) == newest(m, other),
{
    let n = m.insert(k, v);
    assert forall|lsn: u64| #[trigger]
        n.dom().contains(KeyView { bytes: k.bytes, lsn }) implies lsn <= k.lsn by {
        if lsn != k.lsn {
            assert(m.dom().contains(KeyView { bytes: k.bytes, lsn }));
        }
    }
    assert(KeyView { bytes: k.bytes, lsn: k.lsn } == k);
    assert(is_newest(n, k.bytes, k.lsn));
    lemma_newest(n, k.bytes, k.lsn);
    if other != k.bytes {
        assert forall|lsn: u64| is_newest(n, other, lsn) == is_newest(m, other, lsn) by {
            assert forall|l: u64|
                n.dom().contains(KeyView { bytes: other, lsn: l }) == #[trigger] m.dom().contains(
                    KeyView { bytes: other, lsn: l },
                ) by {}
            if is_newest(n, other, lsn) {
                assert forall|l: u64| #[trigger]
                    m.dom().contains(KeyView { bytes: other, lsn: l }) implies l <= lsn by {
                    assert(n.dom().contains(KeyView { bytes: other, lsn: l }));
                }
            }
            if is_newest(m, other, lsn) {
                assert forall|l: u64| #[trigger]
                    n.dom().contains(KeyView { bytes: other, lsn: l }) implies l <= lsn by {
                    assert(m.dom().contains(KeyView { bytes: other, lsn: l }));
                }
            }
        }
        if exists|lsn: u64| is_newest(m, other, lsn) {
            let lsn = choose|lsn: u64| is_newest(m, other, lsn);
            lemma_newest(m, other, lsn);
            lemma_newest(n, other, lsn);
        }
    }
}

fn count_up(size: usize, more: usize) -> (r: usize)
    ensures
        r == (size + more) % (usize::MAX + 1),
{
    proof {
        let m = usize::MAX + 1;
        if size + more < m {
            lemma_small_mod((size + more) as nat, m as nat);
        } else {
            lemma_mod_add_multiples_vanish(size + more - m, m);
            lemma_small_mod((size + more - m) as nat, m as nat);
        }
    }
    size.wrapping_add(more)
}

/// Whether some entries are those of a memtable, in order.
pub open spec fn is_dump(m: MemView, es: Seq<Entry>) -> bool {
    &&& sorted(es)
    &&& forall|k: KeyView| #[trigger]
        m.dom().contains(k) ==> exists|i: int| 0 <= i < es.len() && (#[trigger] es[i]).0 == k
    &&& forall|i: int|
        0 <= i < es.len() ==> m.dom().contains((#[trigger] es[i]).0) && m[es[i].0] == es[i].1
}

/// A table of a memtable's entries answers as the memtable does.
pub proof fn lemma_dump_lookup(m: MemView, es: Seq<Entry>, key: Seq<u8>)
    requires
        is_dump(m, es),
    ensures
        lookup(es, key) == newest(m, key),
{
    if lookup(es, key) is Some {
        lemma_lookup_present(es, key);
        let i = choose|i: int|
            0 <= i < es.len() && (#[trigger] es[i]).0.bytes == key && lookup(es, key) == Some(
                es[i].1,
            ) && forall|j: int| 0 <= j < i ==> (#[trigger] es[j]).0.bytes != key;
        let lsn = es[i].0.lsn;
        assert(es[i].0 =~= KeyView { bytes: key, lsn });
        assert forall|other: u64| #[trigger]
            m.dom().contains(KeyView { bytes: key, lsn: other }) implies other <= lsn by {
            let k = KeyView { bytes: key, lsn: other };
            let j = choose|j: int| 0 <= j < es.len() && (#[trigger] es[j]).0 == k;
            if j > i {
                assert(key_lt(es[i].0, es[j].0));
                lemma_bytes_lt_irreflexive(key);
            }
        }
        assert(is_newest(m, key, lsn));
        lemma_newest(m, key, lsn);
    } else {
        assert forall|lsn: u64| !is_newest(m, key, lsn) by {
            let k = KeyView { bytes: key, lsn };
            if m.dom().contains(k) {
                let j = choose|j: int| 0 <= j < es.len() && (#[trigger] es[j]).0 == k;
                lemma_lookup_finds(es, key, j);
            }
        }
    }
}

impl Memtable<Mutable> {
    pub fn new() -> (mem: Memtable<Mutable>)
        ensures
            mem@ == Map::<KeyView, ValueView>::empty(),
            mem.size() == 0,
    {
        let mem = Memtable { store: list_new(), size_bytes: 0, state: PhantomData };
        assert(mem@ =~= Map::<KeyView, ValueView>::empty());
        mem
    }

    /// Inserts a key-value pair.
    pub fn recover(&mut self, key: Key, value: Value)
        ensures
            final(self)@ == old(self)@.insert(key@, value@),
            final(self).size() == grown(old(self).size(), (key@, value@)),
            old(self).size() + 15 + key@.bytes.len() + value@.payload().len() <= usize::MAX
                ==> final(self).size() == old(self).size() + 15 + key@.bytes.len()
                + value@.payload().len(),
    {
        let k_len: usize = key.bytes.len();
        let v_len: usize = value.payload_len();
        let headers: usize = Key::SERIALIZED_HEADER_SIZE + Value::SERIALIZED_HEADER_SIZE;
        let a: usize = count_up(self.size_bytes, headers);
        let b: usize = count_up(a, k_len);
        proof {
            let m = usize::MAX + 1;
            let s = self.size_bytes as int;
            lemma_add_mod_noop_right(k_len as int, s + 15, m);
            lemma_add_mod_noop_right(v_len as int, s + 15 + k_len, m);
        }
        self.size_bytes = count_up(b, v_len);
        let ghost k = key@;
        let ghost before = contents(self.store);
        let rank: u64 = u64::MAX - key.lsn;
        list_insert(&mut self.store, (key.bytes, rank), value);
        proof {
            assert forall|other: KeyView| slot_of(other) == slot_of(k) implies other == k by {
                assert(other =~= k);
            }
            assert(self@ =~= old(self)@.insert(k, value@));
        }
    }

    /// Inserts a batch of write requests.
    pub fn put_batch(&mut self, reqs: &[WriteRequest])
        ensures
            final(self)@ == insert_all(old(self)@, requested(reqs@)),
            final(self).size() == grown_by(old(self).size(), requested(reqs@)),
    {
        let ghost es = requested(reqs@);
        let mut i: usize = 0;
        assert(es.take(0) =~= Seq::<Entry>::empty());
        while i < reqs.len()
            invariant
                i <= reqs.len(),
                es == requested(reqs@),
                self@ == insert_all(old(self)@, es.take(i as int)),
                self.size() == grown_by(old(self).size(), es.take(i as int)),
            decreases reqs.len() - i,
        {
            assert(es.take(i + 1).drop_last() =~= es.take(i as int));
            self.recover(reqs[i].key.clone(), reqs[i].value.clone());
            i = i + 1;
        }
        assert(es.take(i as int) =~= es);
    }

    /// Freezes the memtable: it takes no more writes.
    pub fn freeze(self) -> (frozen: Memtable<Immutable>)
        ensures
            frozen@ == self@,
            frozen.size() == self.size(),
    {
        let frozen = Memtable {
            store: self.store,
            size_bytes: self.size_bytes,
            state: PhantomData,
        };
        assert(frozen@ =~= self@);
        frozen
    }

    /// Takes no version out: a delete is a write of a tombstone.
    pub fn del(&mut self, key: &Key) -> (r: Result<(), DbError>)
        ensures
            r is Ok,
            final(self)@ == old(self)@,
            final(self).size() == old(self).size(),
    {
        Ok(())
    }
}

/// The entries of some requests.
pub open spec fn requested(reqs: Seq<WriteRequest>) -> Seq<Entry> {
    Seq::new(reqs.len(), |i: int| (reqs[i].key@, reqs[i].value@))
}

/// The size of a memtable after an entry: the entry's serialized size more, counted modulo
/// the range of the counter.
pub open spec fn grown(size: nat, e: Entry) -> nat {
    (size + 15 + e.0.bytes.len() + e.1.payload().len()) % ((usize::MAX + 1) as nat)
}

/// The size of a memtable after some entries.
pub open spec fn grown_by(size: nat, es: Seq<Entry>) -> nat
    decreases es.len(),
{
    if es.len() == 0 {
        size
    } else {
        grown(grown_by(size, es.drop_last()), es.last())
    }
}

impl<State> Memtable<State> {
    /// The bytes counted for what was inserted.
    pub closed spec fn size(&self) -> nat {
        self.size_bytes as nat
    }

    pub fn size_bytes(&self) -> (r: usize)
        ensures
            r == self.size(),
    {
        self.size_bytes
    }

    /// The newest version of a key, a tombstone included.
    pub fn latest(&self, key_bytes: &[u8]) -> (r: Option<Value>)
        ensures
            r.deep_view() == newest(self@, key_bytes@),
    {
        let low = (slice_to_vec(key_bytes), 0u64);
        let high = (slice_to_vec(key_bytes), u64::MAX);
        let ghost key = key_bytes@;
        let ghost held = contents(self.store);
        proof {
            lemma_bytes_lt_irreflexive(key);
            assert forall|k: KeyView| #[trigger] slot_in(slot_of(k), (key, 0), (key, u64::MAX))
                == (k.bytes == key) by {
                lemma_same_key(k.bytes, key);
            }
        }
        let r = list_first_in(&self.store, low, high);
        proof {
            match &r {
                Some(value) => {
                    let slot = choose|slot: (Seq<u8>, u64)| #[trigger]
                        held.dom().contains(slot) && slot_in(slot, (key, 0), (key, u64::MAX))
                            && held[slot] == value@ && forall|other: (Seq<u8>, u64)| #[trigger]
                            held.dom().contains(other) && slot_in(
                                other,
                                (key, 0),
                                (key, u64::MAX),
                            ) ==> !slot_lt(other, slot);
                    let lsn = (u64::MAX - slot.1) as u64;
                    let k = KeyView { bytes: slot.0, lsn };
                    assert(slot_of(k) == slot);
                    assert forall|other: u64| #[trigger]
                        self@.dom().contains(KeyView { bytes: key, lsn: other }) implies other
                        <= lsn by {
                        let o = KeyView { bytes: key, lsn: other };
                        assert(held.dom().contains(slot_of(o)));
                        assert(slot_in(slot_of(o), (key, 0), (key, u64::MAX)));
                    }
                    assert(is_newest(self@, key, lsn));
                    lemma_newest(self@, key, lsn);
                },
                None => {
                    assert forall|lsn: u64| !is_newest(self@, key, lsn) by {
                        let k = KeyView { bytes: key, lsn };
                        if self@.dom().contains(k) {
                            assert(held.dom().contains(slot_of(k)));
                            assert(slot_in(slot_of(k), (key, 0), (key, u64::MAX)));
                        }
                    }
                },
            }
        }
        r
    }

    /// The value of a key, if it is there and was not deleted.
    pub fn get(&self, key_bytes: &[u8]) -> (r: Option<Value>)
        ensures
            r.deep_view() == live(newest(self@, key_bytes@)),
            newest(self@, key_bytes@) is None ==> r is None,
            newest(self@, key_bytes@) matches Some(v) ==> r.deep_view() == (if v is Tombstone {
                None
            } else {
                Some(v)
            }),
    {
        match self.latest(key_bytes) {
            Some(Value::Tombstone) => None,
            other => other,
        }
    }

    /// Every version of every key, in the order of the keys.
    pub fn iter(&self) -> (r: Vec<(Key, Value)>)
        ensures
            is_dump(self@, r.deep_view()),
    {
        let mut slots = list_entries(&self.store);
        let ghost all = slots.deep_view();
        let mut r: Vec<(Key, Value)> = Vec::new();
        let n: usize = slots.len();
        let mut i: usize = 0;
        assert(r.deep_view() =~= Seq::<Entry>::empty());
        while i < n
            invariant
                i <= n,
                n == all.len(),
                r@.len() == i,
                slots@.len() == n,
                slots.deep_view() == all,
                forall|j: int|
                    0 <= j < i ==> slot_of((#[trigger] r.deep_view()[j]).0) == all[j].0
                        && r.deep_view()[j].1 == all[j].1,
            decreases n - i,
        {
            let ghost before = r.deep_view();
            let key = Key { lsn: u64::MAX - slots[i].0.1, bytes: slots[i].0.0.clone() };
            let value = slots[i].1.clone();
            proof {
                assert(slots.deep_view()[i as int] == slots@[i as int].deep_view());
                assert(key.bytes@ =~= slots@[i as int].0.0@);
                assert(slots@[i as int].0.0.deep_view() =~= slots@[i as int].0.0@);
            }
            let ghost e: Entry = (key@, value@);
            r.push((key, value));
            assert(r.deep_view() =~= before.push(e));
            i = i + 1;
        }
        proof {
            let es = r.deep_view();
            assert forall|a: int, b: int| 0 <= a < b < es.len() implies key_lt(
                (#[trigger] es[a]).0,
                (#[trigger] es[b]).0,
            ) by {
                assert(slot_lt(all[a].0, all[b].0));
            }
            assert forall|k: KeyView| #[trigger] self@.dom().contains(k) implies exists|j: int|
                0 <= j < r@.len() && (#[trigger] es[j]).0 == k by {
                assert(contents(self.store).dom().contains(slot_of(k)));
                let j = choose|j: int| 0 <= j < n && (#[trigger] all[j]).0 == slot_of(k);
                assert(slot_of(es[j].0) == slot_of(k));
                assert(es[j].0 =~= k);
            }
            assert forall|j: int| 0 <= j < r@.len() implies self@[(#[trigger] es[j]).0] == es[j].1
                && self@.dom().contains(es[j].0) by {
                assert(contents(self.store).dom().contains(all[j].0));
            }
        }
        r
    }
}

proof fn lemma_same_key(a: Seq<u8>, key: Seq<u8>)
    ensures
        (!bytes_lt(a, key) && !bytes_lt(key, a)) == (a == key),
{
    crate::data_stores::key::lemma_bytes_lt_total(a, key);
    lemma_bytes_lt_irreflexive(key);
}

} // verus!
