//! Reading tables, also where they are damaged, and which entries a table can be written of.

use crate::data_stores::key::{bytes_lt, key_lt, Key, KeyView};
use crate::data_stores::layout::lemma_entry_layout;
use crate::data_stores::table_format::{
    block_step, blocks_of, concat, index_of, lemma_blocks_of, lemma_concat_push, payload,
    read_block, scan, writable, Entry, IndexEntry, TableView, WalkView,
};
use crate::data_stores::tuples::decode_run;
use crate::data_stores::value::{Value, ValueView};
use crate::data_stores::{encode_items, le, Loggable};
use crate::err::DbError;
use vstd::prelude::*;

verus! {

// --- Searching ---

/// A value that is scanned for is that of an entry with the key.
proof fn lemma_scan_found(
    es: Seq<Entry>,
    error: Option<DbError>,
    key: Seq<u8>,
    v: ValueView,
) -> (x: int)
    requires
        scan(es, error, key) == Ok::<Option<ValueView>, DbError>(Some(v)),
    ensures
        0 <= x < es.len(),
        es[x].0.bytes == key,
        es[x].1 == v,
    decreases es.len(),
{
    if es[0].0.bytes == key {
        0
    } else {
        lemma_scan_found(es.skip(1), error, key, v) + 1
    }
}

/// What a search of a table finds stands in one of its blocks, under the key that was searched
/// for, also where the table is damaged.
pub proof fn lemma_found_stands_there(t: TableView, key: Seq<u8>, v: ValueView) -> (p: (
    int,
    int,
))
    requires
        t.is_found(key, Ok::<Option<ValueView>, DbError>(Some(v))),
    ensures
        0 <= p.0 < t.index.len(),
        read_block(t.file, t.index[p.0].2 as nat) matches Ok(data) && {
            let es = decode_run::<(Key, Value)>(data).0;
            0 <= p.1 < es.len() && es[p.1].0.bytes == key && es[p.1].1 == v
        },
{
    let r = Ok::<Option<ValueView>, DbError>(Some(v));
    let i = choose|i: int| #[trigger] t.is_place(i, key) && r == t.search_at(i, key);
    let data = read_block(t.file, t.index[i].2 as nat)->Ok_0;
    let (es, error) = decode_run::<(Key, Value)>(data);
    let x = lemma_scan_found(es, error, key, v);
    (i, x)
}

/// A table whose blocks cannot be read gives an error for a key that its filter, its range and
/// its index let it hold: it does not say that the key is not there.
pub proof fn lemma_unreadable_blocks(
    t: TableView,
    key: Seq<u8>,
    r: Result<Option<ValueView>, DbError>,
)
    requires
        t.is_found(key, r),
        t.filter.claims(key),
        !bytes_lt(key, t.min_key.bytes),
        !bytes_lt(t.max_key.bytes, key),
        t.index.len() > 0,
        forall|i: int|
            0 <= i < t.index.len() ==> !bytes_lt(key, (#[trigger] t.index[i]).0.bytes),
        !key_lt(t.index.last().1, KeyView { bytes: key, lsn: u64::MAX }),
        forall|i: int|
            0 <= i < t.index.len() ==> read_block(t.file, (#[trigger] t.index[i]).2 as nat) is Err,
    ensures
        r is Err,
{
    let i = choose|i: int| #[trigger] t.is_place(i, key) && r == t.search_at(i, key);
    if i == t.index.len() {
        assert(t.ends_before(i - 1, key));
    } else {
        assert(read_block(t.file, t.index[i].2 as nat) is Err);
    }
}

/// A table whose filter does not claim a key, or whose range it is outside of, is not read.
pub proof fn lemma_not_searched(
    t: TableView,
    key: Seq<u8>,
    r: Result<Option<ValueView>, DbError>,
)
    requires
        !t.filter.claims(key) || bytes_lt(key, t.min_key.bytes) || bytes_lt(t.max_key.bytes, key),
    ensures
        t.is_found(key, r) <==> r == Ok::<Option<ValueView>, DbError>(None),
{
}

// --- Walking ---

/// A walk goes on from entry to entry and from block to block; it ends in an error where a
/// block, or an entry in it, cannot be read, and without one behind the last block.
pub proof fn lemma_walk(w: WalkView)
    ensures
        w.rest.len() == 0 && w.block >= w.table.index.len() ==> w.stream() == (
            Seq::<Entry>::empty(),
            None::<DbError>,
        ),
        w.rest.len() == 0 && w.block < w.table.index.len() ==> match read_block(
            w.table.file,
            w.table.index[w.block as int].2 as nat,
        ) {
            Err(e) => w.stream() == (Seq::<Entry>::empty(), Some(e)),
            Ok(data) => data.len() > 0 ==> w.stream() == (WalkView {
                block: w.block + 1,
                rest: data,
                ..w
            }).stream(),
        },
        w.rest.len() > 0 ==> match <(Key, Value) as Loggable>::spec_decode(w.rest) {
            (Err(e), _) => w.stream() == (Seq::<Entry>::empty(), Some(e)),
            (Ok(e), used) => {
                let next = WalkView { rest: w.rest.skip(used as int), ..w };
                &&& w.stream().0 == seq![e] + next.stream().0
                &&& w.stream().1 == next.stream().1
            },
        },
{
    reveal(block_step);
    if w.rest.len() == 0 && w.block < w.table.index.len() {
        if let Ok(data) = read_block(w.table.file, w.table.index[w.block as int].2 as nat) {
            let next = WalkView { block: w.block + 1, rest: data, ..w };
            if data.len() > 0 {
                assert(w.step() == next.step());
            }
        }
    }
}

// --- Which entries can be written ---

proof fn lemma_payload_append(a: Seq<Entry>, b: Seq<Entry>)
    ensures
        payload(a + b).len() == payload(a).len() + payload(b).len(),
    decreases b.len(),
{
    if b.len() == 0 {
        assert(a + b =~= a);
    } else {
        assert((a + b).drop_last() =~= a + b.drop_last());
        lemma_payload_append(a, b.drop_last());
    }
}

proof fn lemma_block_in_payload(blocks: Seq<Seq<Entry>>, i: int)
    requires
        0 <= i < blocks.len(),
    ensures
        payload(blocks[i]).len() <= payload(concat(blocks)).len(),
    decreases blocks.len(),
{
    lemma_payload_append(blocks[0], concat(blocks.skip(1)));
    if i > 0 {
        lemma_block_in_payload(blocks.skip(1), i - 1);
    }
}

proof fn lemma_entry_in_payload(es: Seq<Entry>, i: int)
    requires
        0 <= i < es.len(),
    ensures
        15 + es[i].0.bytes.len() <= payload(es).len(),
    decreases es.len(),
{
    lemma_entry_layout(es.last());
    if i < es.len() - 1 {
        lemma_entry_in_payload(es.drop_last(), i);
    }
}

proof fn lemma_key_len(k: KeyView)
    ensures
        Key::spec_encode(k).len() == 10 + k.bytes.len(),
{
    le::lemma_le_bytes_len(k.lsn as nat, 8);
    le::lemma_le_bytes_len((k.bytes.len() as u16) as nat, 2);
}

proof fn lemma_index_len(blocks: Seq<Seq<Entry>>)
    requires
        forall|i: int| 0 <= i < blocks.len() ==> (#[trigger] blocks[i]).len() > 0,
    ensures
        encode_items::<(Key, Key, u64)>(index_of(blocks)).len() <= 2 * payload(
            concat(blocks),
        ).len(),
    decreases blocks.len(),
{
    if blocks.len() > 0 {
        let shorter = blocks.drop_last();
        let last = blocks.last();
        let n = blocks.len() - 1;
        let index = index_of(blocks);
        lemma_index_len(shorter);
        assert forall|i: int| 0 <= i < n implies #[trigger] index[i] == index_of(shorter)[i] by {
            assert(blocks.take(i) =~= shorter.take(i));
        }
        assert(index.drop_last() =~= index_of(shorter));
        let e: IndexEntry = index.last();
        lemma_key_len(e.0);
        lemma_key_len(e.1);
        le::lemma_le_bytes_len(e.2 as nat, 8);
        assert(blocks[n].len() > 0);
        lemma_entry_in_payload(last, 0);
        lemma_entry_in_payload(last, last.len() - 1);
        assert(shorter.push(last) =~= blocks);
        lemma_concat_push(shorter, last);
        lemma_payload_append(concat(shorter), last);
    }
}

/// Entries can be written as a table where their keys have at most 65535 bytes and all of them
/// together take at most a billion bytes.
pub proof fn lemma_writable(es: Seq<Entry>)
    requires
        forall|i: int| 0 <= i < es.len() ==> (#[trigger] es[i]).0.bytes.len() <= 65535,
        payload(es).len() <= 1_000_000_000,
    ensures
        writable(es),
{
    let blocks = blocks_of(es);
    lemma_blocks_of(es);
    lemma_index_len(blocks);
    assert forall|i: int| 0 <= i < es.len() implies <(Key, Value) as Loggable>::encodable(
        #[trigger] es[i],
    ) by {
        lemma_value_in_payload(es, i);
    }
    assert forall|i: int| 0 <= i < blocks.len() implies payload(#[trigger] blocks[i]).len() + 4
        <= u32::MAX by {
        lemma_block_in_payload(blocks, i);
    }
    if es.len() > 0 {
        lemma_key_len(es[0].0);
        lemma_key_len(es.last().0);
        assert(es[es.len() - 1].0.bytes.len() <= 65535);
        assert(es[0].0.bytes.len() <= 65535);
    }
}

proof fn lemma_value_in_payload(es: Seq<Entry>, i: int)
    requires
        0 <= i < es.len(),
    ensures
        es[i].1.payload().len() <= payload(es).len(),
    decreases es.len(),
{
    lemma_entry_layout(es.last());
    if i < es.len() - 1 {
        lemma_value_in_payload(es.drop_last(), i);
    }
}

} // verus!
