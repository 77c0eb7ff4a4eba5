//! What an SSTable file holds: data blocks, an index block, a filter block and a footer.

use crate::data_stores::bloom_filter::{
    is_prefix, lemma_no_false_negatives, lemma_serialized_injective, BloomView,
};
use crate::data_stores::checksum::crc32;
use crate::data_stores::key::{
    bytes_lt, key_lt, lemma_bytes_lt_irreflexive, lemma_bytes_lt_total,
    lemma_bytes_lt_transitive, Key, KeyView,
};
use crate::data_stores::le::{le_bytes, le_value};
use crate::data_stores::tuples::{decode_run, lemma_run_round_trip};
use crate::data_stores::value::{Value, ValueView};
use crate::data_stores::{encode_items, eof, le, lemma_encode_items_first, Loggable};
use crate::err::DbError;
use vstd::prelude::*;

verus! {

/// The size at which a data block is cut.
pub const BLOCK_SIZE: usize = 4096;

/// A key with its value.
pub type Entry = (KeyView, ValueView);

/// The first and the last key of a data block, and where the block starts.
pub type IndexEntry = (KeyView, KeyView, u64);

pub open spec fn entry_bytes(e: Entry) -> Seq<u8> {
    <(Key, Value) as Loggable>::spec_encode(e)
}

/// The entries of a block one after the other.
pub open spec fn payload(es: Seq<Entry>) -> Seq<u8> {
    encode_items::<(Key, Value)>(es)
}

// --- Blocks: [len: u32][crc: u32][data] ---

/// A block: the length of what is left of it behind that field, which is the checksum and the
/// data, then the checksum and the data.
pub open spec fn frame(data: Seq<u8>) -> Seq<u8> {
    le_bytes((data.len() + 4) % 0x1_0000_0000, 4) + le_bytes(crc32(data) as nat, 4) + data
}

/// What reading the block at `offset` of a file comes to.
pub open spec fn read_block(file: Seq<u8>, offset: nat) -> Result<Seq<u8>, DbError> {
    let at = offset as int;
    if file.len() < offset + 8 {
        Err(eof())
    } else {
        let len = le_value(file.subrange(at, at + 4));
        if len < 4 {
            Err(DbError::ManifestCorrupted)
        } else if file.len() < offset + 4 + len {
            Err(eof())
        } else {
            let data = file.subrange(at + 8, at + 4 + len);
            if crc32(data) != le_value(file.subrange(at + 4, at + 8)) {
                Err(DbError::ManifestCorrupted)
            } else {
                Ok(data)
            }
        }
    }
}

/// A block is read back from where it was written.
pub proof fn lemma_read_frame(file: Seq<u8>, before: Seq<u8>, data: Seq<u8>)
    requires
        data.len() + 4 <= u32::MAX,
        is_prefix(before + frame(data), file),
    ensures
        read_block(file, before.len()) == Ok::<Seq<u8>, DbError>(data),
{
    le::lemma_le_range();
    let at = before.len() as int;
    let a = le_bytes(data.len() + 4, 4);
    let b = le_bytes(crc32(data) as nat, 4);
    le::lemma_le_bytes_len(data.len() + 4, 4);
    le::lemma_le_bytes_len(crc32(data) as nat, 4);
    le::lemma_le_round_trip(data.len() + 4, 4);
    le::lemma_le_round_trip(crc32(data) as nat, 4);
    let written = before + frame(data);
    assert(file.take(written.len() as int) == written);
    assert forall|i: int| 0 <= i < written.len() implies #[trigger] file[i] == written[i] by {
        assert(file.take(written.len() as int)[i] == written[i]);
    }
    assert(file.subrange(at, at + 4) =~= a);
    assert(file.subrange(at + 4, at + 8) =~= b);
    assert(file.subrange(at + 8, at + 8 + data.len()) =~= data);
}

// --- Cutting entries into blocks ---

/// How a run of entries is cut: the blocks that are complete, and the entries of the block
/// still open. An entry that does not fit in the open block starts a new one; a block that
/// has reached its size is complete.
pub open spec fn cut(es: Seq<Entry>) -> (Seq<Seq<Entry>>, Seq<Entry>)
    decreases es.len(),
{
    if es.len() == 0 {
        (Seq::empty(), Seq::empty())
    } else {
        cut_step(cut(es.drop_last()), es.last())
    }
}

pub open spec fn cut_step(state: (Seq<Seq<Entry>>, Seq<Entry>), e: Entry) -> (
    Seq<Seq<Entry>>,
    Seq<Entry>,
) {
    let (done, open) = make_room(state, e);
    let more = open.push(e);
    if payload(more).len() >= BLOCK_SIZE {
        (done.push(more), Seq::empty())
    } else {
        (done, more)
    }
}

pub open spec fn make_room(state: (Seq<Seq<Entry>>, Seq<Entry>), e: Entry) -> (
    Seq<Seq<Entry>>,
    Seq<Entry>,
) {
    let (done, open) = state;
    if open.len() > 0 && payload(open).len() + entry_bytes(e).len() > BLOCK_SIZE {
        (done.push(open), Seq::empty())
    } else {
        state
    }
}

/// The blocks of a finished table.
pub open spec fn blocks_of(es: Seq<Entry>) -> Seq<Seq<Entry>> {
    let (done, open) = cut(es);
    if open.len() > 0 {
        done.push(open)
    } else {
        done
    }
}

/// The entries of blocks one block after the other.
pub open spec fn concat(blocks: Seq<Seq<Entry>>) -> Seq<Entry>
    decreases blocks.len(),
{
    if blocks.len() == 0 {
        Seq::empty()
    } else {
        blocks[0] + concat(blocks.skip(1))
    }
}

pub proof fn lemma_concat_push(blocks: Seq<Seq<Entry>>, b: Seq<Entry>)
    ensures
        concat(blocks.push(b)) == concat(blocks) + b,
    decreases blocks.len(),
{
    reveal_with_fuel(concat, 2);
    let more = blocks.push(b);
    if blocks.len() == 0 {
        assert(more.skip(1) =~= Seq::<Seq<Entry>>::empty());
        assert(concat(more) =~= b);
    } else {
        lemma_concat_push(blocks.skip(1), b);
        assert(more.skip(1) =~= blocks.skip(1).push(b));
        assert(concat(more) =~= concat(blocks) + b);
    }
}

/// Cutting loses no entry and changes no order, and no block is empty.
pub proof fn lemma_cut(es: Seq<Entry>)
    ensures
        concat(cut(es).0) + cut(es).1 == es,
        forall|i: int| 0 <= i < cut(es).0.len() ==> (#[trigger] cut(es).0[i]).len() > 0,
    decreases es.len(),
{
    if es.len() > 0 {
        let before = es.drop_last();
        let e = es.last();
        lemma_cut(before);
        let (done, open) = cut(before);
        let (done1, open1) = make_room((done, open), e);
        lemma_concat_push(done, open);
        assert(concat(done1) + open1 =~= before);
        let more = open1.push(e);
        lemma_concat_push(done1, more);
        assert(before.push(e) =~= es);
        assert(concat(done1) + more =~= es);
        assert(concat(cut(es).0) + cut(es).1 =~= es);
    } else {
        assert(es =~= Seq::<Entry>::empty());
        assert(concat(cut(es).0) + cut(es).1 =~= es);
    }
}

pub proof fn lemma_blocks_of(es: Seq<Entry>)
    ensures
        concat(blocks_of(es)) == es,
        forall|i: int| 0 <= i < blocks_of(es).len() ==> (#[trigger] blocks_of(es)[i]).len() > 0,
        es.len() > 0 ==> blocks_of(es).len() > 0,
{
    lemma_cut(es);
    let (done, open) = cut(es);
    if open.len() > 0 {
        lemma_concat_push(done, open);
    } else {
        assert(concat(done) + open =~= concat(done));
    }
}

// --- The parts of a table ---

/// The data blocks one after the other.
pub open spec fn data_bytes(blocks: Seq<Seq<Entry>>) -> Seq<u8>
    decreases blocks.len(),
{
    if blocks.len() == 0 {
        Seq::empty()
    } else {
        data_bytes(blocks.drop_last()) + frame(payload(blocks.last()))
    }
}

/// Of each block: the first and the last key, and where it starts.
pub open spec fn index_of(blocks: Seq<Seq<Entry>>) -> Seq<IndexEntry> {
    Seq::new(
        blocks.len(),
        |i: int|
            (
                blocks[i][0].0,
                blocks[i].last().0,
                data_bytes(blocks.take(i)).len() as u64,
            ),
    )
}

/// The first and the last key of the table, then its index.
pub open spec fn index_payload(es: Seq<Entry>) -> Seq<u8> {
    (if es.len() == 0 {
        Seq::empty()
    } else {
        <(Key, Key) as Loggable>::spec_encode((es[0].0, es.last().0))
    }) + encode_items::<(Key, Key, u64)>(index_of(blocks_of(es)))
}

pub open spec fn magic_number() -> Seq<u8> {
    seq![0x41u8, 0x42u8, 0x43u8, 0x44u8]
}

pub open spec fn footer(index_offset: u64, filter_offset: u64) -> Seq<u8> {
    let offsets = le_bytes(index_offset as nat, 8) + le_bytes(filter_offset as nat, 8);
    offsets + le_bytes(crc32(offsets) as nat, 4) + magic_number()
}

/// The bytes of the table of some entries with a filter.
pub open spec fn table_bytes(es: Seq<Entry>, filter: BloomView) -> Seq<u8> {
    let data = data_bytes(blocks_of(es));
    let index = frame(index_payload(es));
    data + index + frame(filter.serialized()) + footer(
        data.len() as u64,
        (data.len() + index.len()) as u64,
    )
}

// --- Opening a table ---

/// An open table.
#[verifier::ext_equal]
pub struct TableView {
    pub file: Seq<u8>,
    pub index: Seq<IndexEntry>,
    pub filter: BloomView,
    pub min_key: KeyView,
    pub max_key: KeyView,
}

pub open spec fn is_filter_of(bytes: Seq<u8>, f: BloomView) -> bool {
    &&& f.bitmap.len() <= u64::MAX
    &&& f.sip_keys.len() == 2
    &&& is_prefix(f.serialized(), bytes)
}

/// The filter whose serialized form some bytes start with.
pub open spec fn filter_of(bytes: Seq<u8>) -> Option<BloomView> {
    if exists|f: BloomView| #[trigger] is_filter_of(bytes, f) {
        Some(choose|f: BloomView| #[trigger] is_filter_of(bytes, f))
    } else {
        None
    }
}

pub proof fn lemma_filter_of(bytes: Seq<u8>, f: BloomView)
    requires
        is_filter_of(bytes, f),
    ensures
        filter_of(bytes) == Some(f),
{
    let g = choose|g: BloomView| #[trigger] is_filter_of(bytes, g);
    assert(is_filter_of(bytes, g));
    let rest = bytes.skip(f.serialized().len() as int);
    assert(f.serialized() + rest =~= bytes);
    lemma_serialized_injective(g, f, rest);
}

/// What parsing an index block comes to: the first and the last key of the table, and the
/// index.
pub open spec fn parse_index(s: Seq<u8>) -> Result<(KeyView, KeyView, Seq<IndexEntry>), DbError> {
    match <(Key, Key) as Loggable>::spec_decode(s) {
        (Ok(range), used) => match decode_run::<(Key, Key, u64)>(s.skip(used as int)) {
            (index, None) => Ok((range.0, range.1, index)),
            (_, Some(e)) => Err(e),
        },
        (Err(e), _) => Err(e),
    }
}

/// What opening a table file comes to.
pub open spec fn parse_table(file: Seq<u8>) -> Result<TableView, DbError> {
    if file.len() < 24 {
        Err(DbError::ManifestCorrupted)
    } else {
        let foot = file.skip(file.len() - 24);
        if foot.subrange(20, 24) != magic_number() {
            Err(DbError::ManifestCorrupted)
        } else if crc32(foot.subrange(0, 16)) != le_value(foot.subrange(16, 20)) {
            Err(DbError::ManifestCorrupted)
        } else {
            match read_block(file, le_value(foot.subrange(8, 16))) {
                Ok(filter_bytes) => match filter_of(filter_bytes) {
                    Some(filter) => match read_block(file, le_value(foot.subrange(0, 8))) {
                        Ok(index_bytes) => match parse_index(index_bytes) {
                            Ok((min_key, max_key, index)) => Ok(
                                TableView { file, index, filter, min_key, max_key },
                            ),
                            Err(e) => Err(e),
                        },
                        Err(e) => Err(e),
                    },
                    None => Err(DbError::ManifestCorrupted),
                },
                Err(e) => Err(e),
            }
        }
    }
}

// --- Walking through a table ---

/// What one step of a walk gives.
pub type Step = Option<Result<Entry, DbError>>;

/// One step through the entries of a block: the step, and the bytes that are left.
#[verifier::opaque]
pub open spec fn block_step(rest: Seq<u8>) -> (Step, Seq<u8>) {
    if rest.len() == 0 {
        (None, rest)
    } else {
        match <(Key, Value) as Loggable>::spec_decode(rest) {
            (Ok(e), used) => (Some(Ok(e)), rest.skip(used as int)),
            (Err(e), used) => (Some(Err(e)), rest.skip(used as int)),
        }
    }
}

/// A walk through a table: the next block to load, and what is left of the block that was
/// loaded last.
#[verifier::ext_equal]
pub struct WalkView {
    pub table: TableView,
    pub block: nat,
    pub rest: Seq<u8>,
}

impl TableView {
    /// A walk that has not started.
    pub open spec fn walk(self) -> WalkView {
        WalkView { table: self, block: 0, rest: Seq::empty() }
    }
}

impl WalkView {
    /// The next step, and the walk after it. A block that cannot be read is tried again at
    /// the next step.
    pub open spec fn step(self) -> (Step, WalkView) {
        if self.rest.len() > 0 {
            let (step, rest) = block_step(self.rest);
            (step, WalkView { rest, ..self })
        } else if self.block >= self.table.index.len() {
            (None, self)
        } else {
            match read_block(self.table.file, self.table.index[self.block as int].2 as nat) {
                Ok(data) => {
                    let (step, rest) = block_step(data);
                    (step, WalkView { block: self.block + 1, rest, ..self })
                },
                Err(e) => (Some(Err(e)), self),
            }
        }
    }

    /// What the walk gives up to its end or its first error: the entries, and the error.
    pub open spec fn stream(self) -> (Seq<Entry>, Option<DbError>)
        decreases self.table.index.len() - self.block, self.rest.len(),
    {
        proof {
            reveal(block_step);
            <(Key, Value) as Loggable>::lemma_decode_bound(self.rest);
        }
        match self.step() {
            (None, _) => (Seq::empty(), None),
            (Some(Err(e)), _) => (Seq::empty(), Some(e)),
            (Some(Ok(e)), next) => {
                let (es, error) = next.stream();
                (seq![e] + es, error)
            },
        }
    }
}

// --- Searching a table ---

/// Searching some entries for a key, where the entries end in an error or not: the first
/// entry whose key is not smaller decides.
pub open spec fn scan(es: Seq<Entry>, error: Option<DbError>, key: Seq<u8>) -> Result<
    Option<ValueView>,
    DbError,
>
    decreases es.len(),
{
    if es.len() == 0 {
        match error {
            Some(e) => Err(e),
            None => Ok(None),
        }
    } else if es[0].0.bytes == key {
        Ok(Some(es[0].1))
    } else if bytes_lt(key, es[0].0.bytes) {
        Ok(None)
    } else {
        scan(es.skip(1), error, key)
    }
}

impl TableView {
    /// Searching the block at `offset`.
    pub open spec fn search_block(self, key: Seq<u8>, offset: u64) -> Result<
        Option<ValueView>,
        DbError,
    > {
        match read_block(self.file, offset as nat) {
            Ok(data) => {
                let (es, error) = decode_run::<(Key, Value)>(data);
                scan(es, error, key)
            },
            Err(e) => Err(e),
        }
    }

    /// Whether the last key of block `i` is before every version of `key`.
    pub open spec fn ends_before(self, i: int, key: Seq<u8>) -> bool {
        key_lt(self.index[i].1, KeyView { bytes: key, lsn: u64::MAX })
    }

    /// Whether block `i` is the first that does not end before `key`, going by its
    /// neighbour; where the blocks are in order there is one such place.
    pub open spec fn is_place(self, i: int, key: Seq<u8>) -> bool {
        &&& 0 <= i <= self.index.len()
        &&& i > 0 ==> self.ends_before(i - 1, key)
        &&& i < self.index.len() ==> !self.ends_before(i, key)
    }

    /// Searching block `i`, if there is one and it does not start behind the key.
    pub open spec fn search_at(self, i: int, key: Seq<u8>) -> Result<Option<ValueView>, DbError> {
        if i >= self.index.len() || bytes_lt(key, self.index[i].0.bytes) {
            Ok(None)
        } else {
            self.search_block(key, self.index[i].2)
        }
    }

    /// Whether the filter and the key range of the table let it hold a key.
    pub open spec fn may_hold(self, key: Seq<u8>) -> bool {
        &&& self.filter.claims(key)
        &&& !bytes_lt(key, self.min_key.bytes)
        &&& !bytes_lt(self.max_key.bytes, key)
    }

    /// Whether `r` is what searching the table for a key comes to.
    pub open spec fn is_found(self, key: Seq<u8>, r: Result<Option<ValueView>, DbError>) -> bool {
        if self.may_hold(key) {
            exists|i: int| #[trigger] self.is_place(i, key) && r == self.search_at(i, key)
        } else {
            r == Ok::<Option<ValueView>, DbError>(None)
        }
    }
}

// --- What was written is read back ---

/// The entries are in the order of their keys, with no key twice.
pub open spec fn sorted(es: Seq<Entry>) -> bool {
    forall|i: int, j: int|
        0 <= i < j < es.len() ==> key_lt((#[trigger] es[i]).0, (#[trigger] es[j]).0)
}

/// The entries whose lengths fit in the fields of the format.
pub open spec fn writable(es: Seq<Entry>) -> bool {
    &&& forall|i: int|
        0 <= i < es.len() ==> <(Key, Value) as Loggable>::encodable(#[trigger] es[i])
    &&& forall|i: int|
        0 <= i < blocks_of(es).len() ==> payload(#[trigger] blocks_of(es)[i]).len() + 4 <= u32::MAX
    &&& index_payload(es).len() + 4 <= u32::MAX
}

/// The value of the first entry with a key.
pub open spec fn lookup(es: Seq<Entry>, key: Seq<u8>) -> Option<ValueView>
    decreases es.len(),
{
    if es.len() == 0 {
        None
    } else if es[0].0.bytes == key {
        Some(es[0].1)
    } else {
        lookup(es.skip(1), key)
    }
}

/// The bytes of the keys of some entries.
pub open spec fn keys_of(es: Seq<Entry>) -> Seq<Seq<u8>> {
    Seq::new(es.len(), |i: int| es[i].0.bytes)
}

/// The table that opening the file of some entries gives.
pub open spec fn opened(es: Seq<Entry>, filter: BloomView) -> TableView {
    TableView {
        file: table_bytes(es, filter),
        index: index_of(blocks_of(es)),
        filter,
        min_key: es[0].0,
        max_key: es.last().0,
    }
}

proof fn lemma_data_prefix(blocks: Seq<Seq<Entry>>, i: int)
    requires
        0 <= i <= blocks.len(),
    ensures
        is_prefix(data_bytes(blocks.take(i)), data_bytes(blocks)),
    decreases blocks.len(),
{
    let p = data_bytes(blocks.take(i));
    if i == blocks.len() {
        assert(blocks.take(i) =~= blocks);
        assert(p.take(p.len() as int) =~= p);
    } else {
        let head = blocks.drop_last();
        lemma_data_prefix(head, i);
        assert(head.take(i) =~= blocks.take(i));
        assert(data_bytes(blocks).take(p.len() as int) =~= data_bytes(head).take(p.len() as int));
    }
}

/// The keys of entries that can be written can be written themselves.
proof fn lemma_index_encodable(es: Seq<Entry>)
    requires
        writable(es),
    ensures
        forall|i: int|
            0 <= i < blocks_of(es).len() ==> <(Key, Key, u64) as Loggable>::encodable(
                #[trigger] index_of(blocks_of(es))[i],
            ),
{
    let blocks = blocks_of(es);
    lemma_blocks_of(es);
    assert forall|i: int| 0 <= i < blocks.len() implies <(Key, Key, u64) as Loggable>::encodable(
        #[trigger] index_of(blocks)[i],
    ) by {
        lemma_concat_member(blocks, i, 0);
        lemma_concat_member(blocks, i, blocks[i].len() - 1);
    }
}

/// Every entry of a block is one of the whole.
pub proof fn lemma_concat_member(blocks: Seq<Seq<Entry>>, i: int, j: int)
    requires
        0 <= i < blocks.len(),
        0 <= j < blocks[i].len(),
    ensures
        exists|k: int|
            0 <= k < concat(blocks).len() && #[trigger] concat(blocks)[k] == blocks[i][j],
    decreases blocks.len(),
{
    let all = concat(blocks);
    if i == 0 {
        assert(all[j] == blocks[0][j]);
    } else {
        let tail = blocks.skip(1);
        lemma_concat_member(tail, i - 1, j);
        let k = choose|k: int|
            0 <= k < concat(tail).len() && #[trigger] concat(tail)[k] == tail[i - 1][j];
        assert(all[blocks[0].len() + k] == concat(tail)[k]);
    }
}

/// Where each part of a footer stands.
proof fn lemma_footer(io: u64, fo: u64)
    ensures
        ({
            let foot = footer(io, fo);
            &&& foot.len() == 24
            &&& le_value(foot.subrange(0, 8)) == io
            &&& le_value(foot.subrange(8, 16)) == fo
            &&& le_value(foot.subrange(16, 20)) == crc32(foot.subrange(0, 16))
            &&& foot.subrange(20, 24) == magic_number()
        }),
{
    le::lemma_le_range();
    let foot = footer(io, fo);
    let a = le_bytes(io as nat, 8);
    let b = le_bytes(fo as nat, 8);
    let c = le_bytes(crc32(a + b) as nat, 4);
    le::lemma_le_bytes_len(io as nat, 8);
    le::lemma_le_bytes_len(fo as nat, 8);
    le::lemma_le_bytes_len(crc32(a + b) as nat, 4);
    le::lemma_le_round_trip(io as nat, 8);
    le::lemma_le_round_trip(fo as nat, 8);
    le::lemma_le_round_trip(crc32(a + b) as nat, 4);
    assert(foot.subrange(0, 8) =~= a);
    assert(foot.subrange(8, 16) =~= b);
    assert(foot.subrange(0, 16) =~= a + b);
    assert(foot.subrange(16, 20) =~= c);
    assert(foot.subrange(20, 24) =~= magic_number());
}

/// An index that was written parses as what was written.
proof fn lemma_index_parses(es: Seq<Entry>)
    requires
        es.len() > 0,
        writable(es),
    ensures
        parse_index(index_payload(es)) == Ok::<(KeyView, KeyView, Seq<IndexEntry>), DbError>(
            (es[0].0, es.last().0, index_of(blocks_of(es))),
        ),
{
    let range = (es[0].0, es.last().0);
    let index = index_of(blocks_of(es));
    let entries = encode_items::<(Key, Key, u64)>(index);
    assert(<(Key, Value) as Loggable>::encodable(es[0]));
    assert(<(Key, Value) as Loggable>::encodable(es[es.len() - 1]));
    <(Key, Key) as Loggable>::lemma_round_trip(range, entries);
    let head = <(Key, Key) as Loggable>::spec_encode(range);
    assert(index_payload(es) == head + entries);
    assert(index_payload(es).skip(head.len() as int) =~= entries);
    lemma_index_encodable(es);
    lemma_run_round_trip::<(Key, Key, u64)>(index);
}

/// A table that was written opens as what was written.
pub proof fn lemma_table_opens(es: Seq<Entry>, filter: BloomView)
    requires
        es.len() > 0,
        writable(es),
        filter.bitmap.len() <= u64::MAX,
        filter.sip_keys.len() == 2,
        filter.serialized().len() + 4 <= u32::MAX,
        table_bytes(es, filter).len() <= u64::MAX,
    ensures
        parse_table(table_bytes(es, filter)) == Ok::<TableView, DbError>(opened(es, filter)),
{
    let data = data_bytes(blocks_of(es));
    let index = frame(index_payload(es));
    let fs = filter.serialized();
    let io = data.len() as u64;
    let fo = (data.len() + index.len()) as u64;
    let file = table_bytes(es, filter);
    lemma_footer(io, fo);
    assert(file.skip(file.len() - 24) =~= footer(io, fo));
    lemma_table_blocks(data, index_payload(es), fs, footer(io, fo));
    assert(fs.take(fs.len() as int) =~= fs);
    lemma_filter_of(fs, filter);
    lemma_index_parses(es);
}

/// The index block and the filter block of a table are read back.
proof fn lemma_table_blocks(data: Seq<u8>, index: Seq<u8>, fs: Seq<u8>, rest: Seq<u8>)
    requires
        index.len() + 4 <= u32::MAX,
        fs.len() + 4 <= u32::MAX,
    ensures
        read_block(data + frame(index) + frame(fs) + rest, data.len()) == Ok::<Seq<u8>, DbError>(
            index,
        ),
        read_block(data + frame(index) + frame(fs) + rest, data.len() + frame(index).len())
            == Ok::<Seq<u8>, DbError>(fs),
{
    let file = data + frame(index) + frame(fs) + rest;
    let a = data + frame(index);
    let b = data + frame(index) + frame(fs);
    assert(file.take(a.len() as int) =~= a);
    assert(file.take(b.len() as int) =~= b);
    lemma_read_frame(file, data, index);
    lemma_read_frame(file, a, fs);
}

/// Each block of an opened table reads back as its entries.
proof fn lemma_read_data_block(es: Seq<Entry>, filter: BloomView, i: int)
    requires
        writable(es),
        table_bytes(es, filter).len() <= u64::MAX,
        0 <= i < blocks_of(es).len(),
    ensures
        read_block(table_bytes(es, filter), index_of(blocks_of(es))[i].2 as nat) == Ok::<
            Seq<u8>,
            DbError,
        >(payload(blocks_of(es)[i])),
{
    let blocks = blocks_of(es);
    let data = data_bytes(blocks);
    let file = table_bytes(es, filter);
    let before = data_bytes(blocks.take(i));
    let block = payload(blocks[i]);
    lemma_data_prefix(blocks, i);
    lemma_data_prefix(blocks, i + 1);
    assert(blocks.take(i + 1).drop_last() =~= blocks.take(i));
    assert(data_bytes(blocks.take(i + 1)) == before + frame(block));
    let p = before + frame(block);
    assert(file.take(p.len() as int) =~= data.take(p.len() as int));
    lemma_read_frame(file, before, block);
}

/// Whether the blocks of a table hold these entries.
pub open spec fn holds_blocks(t: TableView, blocks: Seq<Seq<Entry>>) -> bool {
    &&& t.index.len() == blocks.len()
    &&& forall|i: int|
        0 <= i < blocks.len() ==> read_block(t.file, (#[trigger] t.index[i]).2 as nat) == Ok::<
            Seq<u8>,
            DbError,
        >(payload(blocks[i]))
    &&& forall|i: int| 0 <= i < blocks.len() ==> (#[trigger] blocks[i]).len() > 0
    &&& forall|i: int, j: int|
        0 <= i < blocks.len() && 0 <= j < blocks[i].len() ==> <(Key, Value) as Loggable>::encodable(
            #[trigger] blocks[i][j],
        )
}

proof fn lemma_stream_step(w: WalkView, e: Entry, next: WalkView)
    requires
        w.step() == (Some(Ok::<Entry, DbError>(e)), next),
    ensures
        w.stream() == (seq![e] + next.stream().0, next.stream().1),
{
}

proof fn lemma_step_inside(t: TableView, block: nat, rest: Seq<Entry>)
    requires
        rest.len() > 0,
        <(Key, Value) as Loggable>::encodable(rest[0]),
    ensures
        (WalkView { table: t, block, rest: payload(rest) }).step() == (
            Some(Ok::<Entry, DbError>(rest[0])),
            WalkView { table: t, block, rest: payload(rest.skip(1)) },
        ),
{
    lemma_walk_entry(rest);
}

proof fn lemma_step_load(t: TableView, block: nat, b: Seq<Entry>)
    requires
        block < t.index.len(),
        read_block(t.file, t.index[block as int].2 as nat) == Ok::<Seq<u8>, DbError>(payload(b)),
        b.len() > 0,
        <(Key, Value) as Loggable>::encodable(b[0]),
    ensures
        (WalkView { table: t, block, rest: Seq::empty() }).step() == (
            Some(Ok::<Entry, DbError>(b[0])),
            WalkView { table: t, block: block + 1, rest: payload(b.skip(1)) },
        ),
{
    lemma_walk_entry(b);
}

/// The rest of a walk: the entries left of the block, then those of the blocks to come.
proof fn lemma_walk_rest(t: TableView, blocks: Seq<Seq<Entry>>, block: nat, rest: Seq<Entry>)
    requires
        holds_blocks(t, blocks),
        block <= blocks.len(),
        forall|i: int|
            0 <= i < rest.len() ==> <(Key, Value) as Loggable>::encodable(#[trigger] rest[i]),
    ensures
        (WalkView { table: t, block, rest: payload(rest) }).stream() == (
            rest + concat(blocks.skip(block as int)),
            None::<DbError>,
        ),
    decreases blocks.len() - block, rest.len(),
{
    let w = WalkView { table: t, block, rest: payload(rest) };
    let tail = blocks.skip(block as int);
    if rest.len() > 0 {
        let next = WalkView { table: t, block, rest: payload(rest.skip(1)) };
        lemma_step_inside(t, block, rest);
        lemma_stream_step(w, rest[0], next);
        lemma_walk_rest(t, blocks, block, rest.skip(1));
        assert(seq![rest[0]] + (rest.skip(1) + concat(tail)) =~= rest + concat(tail));
    } else if block < blocks.len() {
        let b = blocks[block as int];
        let at = t.index[block as int].2;
        let next = WalkView { table: t, block: block + 1, rest: payload(b.skip(1)) };
        assert forall|i: int| 0 <= i < b.len() implies <(Key, Value) as Loggable>::encodable(
            #[trigger] b[i],
        ) by {
            assert(blocks[block as int][i] == b[i]);
        }
        assert(payload(rest) =~= Seq::<u8>::empty());
        lemma_step_load(t, block, b);
        lemma_stream_step(w, b[0], next);
        lemma_walk_rest(t, blocks, block + 1, b.skip(1));
        assert(tail.skip(1) =~= blocks.skip((block + 1) as int));
        assert(tail[0] == b);
        assert(seq![b[0]] + (b.skip(1) + concat(tail.skip(1))) =~= rest + concat(tail));
    } else {
        assert(payload(rest) =~= Seq::<u8>::empty());
        assert(rest + concat(tail) =~= Seq::<Entry>::empty());
    }
}

proof fn lemma_walk_entry(es: Seq<Entry>)
    requires
        es.len() > 0,
        <(Key, Value) as Loggable>::encodable(es[0]),
    ensures
        payload(es).len() > 0,
        block_step(payload(es)) == (
            Some(Ok::<Entry, DbError>(es[0])),
            payload(es.skip(1)),
        ),
{
    reveal(block_step);
    lemma_encode_items_first::<(Key, Value)>(es);
    let first = entry_bytes(es[0]);
    let rest = payload(es.skip(1));
    <(Key, Value) as Loggable>::lemma_round_trip(es[0], rest);
    <(Key, Value) as Loggable>::lemma_decode_bound(payload(es));
    assert(payload(es).skip(first.len() as int) =~= rest);
}

proof fn lemma_holds_blocks(es: Seq<Entry>, filter: BloomView)
    requires
        writable(es),
        table_bytes(es, filter).len() <= u64::MAX,
    ensures
        holds_blocks(opened(es, filter), blocks_of(es)),
{
    let blocks = blocks_of(es);
    let t = opened(es, filter);
    lemma_blocks_of(es);
    assert forall|i: int| 0 <= i < blocks.len() implies read_block(
        t.file,
        (#[trigger] t.index[i]).2 as nat,
    ) == Ok::<Seq<u8>, DbError>(payload(blocks[i])) by {
        lemma_read_data_block(es, filter, i);
    }
    assert forall|i: int, j: int|
        0 <= i < blocks.len() && 0 <= j < blocks[i].len() implies <(
        Key,
        Value,
    ) as Loggable>::encodable(#[trigger] blocks[i][j]) by {
        lemma_concat_member(blocks, i, j);
    }
}

/// Walking through a table that was written gives back every entry, in order, and no error.
pub proof fn lemma_table_walks(es: Seq<Entry>, filter: BloomView)
    requires
        writable(es),
        table_bytes(es, filter).len() <= u64::MAX,
    ensures
        opened(es, filter).walk().stream() == (es, None::<DbError>),
{
    lemma_blocks_of(es);
    lemma_holds_blocks(es, filter);
    lemma_walk_rest(opened(es, filter), blocks_of(es), 0, Seq::empty());
    let blocks = blocks_of(es);
    assert(blocks.skip(0) =~= blocks);
    assert(Seq::<Entry>::empty() + es =~= es);
    assert(payload(Seq::<Entry>::empty()) =~= Seq::<u8>::empty());
}

/// A search through entries goes on in those behind them where it finds nothing.
pub proof fn lemma_lookup_append(a: Seq<Entry>, b: Seq<Entry>, key: Seq<u8>)
    ensures
        lookup(a + b, key) == (if lookup(a, key) is Some {
            lookup(a, key)
        } else {
            lookup(b, key)
        }),
    decreases a.len(),
{
    if a.len() > 0 {
        assert((a + b).skip(1) =~= a.skip(1) + b);
        lemma_lookup_append(a.skip(1), b, key);
    } else {
        assert(a + b =~= b);
    }
}

/// A key that no entry has is not found.
pub proof fn lemma_lookup_absent(es: Seq<Entry>, key: Seq<u8>)
    requires
        forall|i: int| 0 <= i < es.len() ==> (#[trigger] es[i]).0.bytes != key,
    ensures
        lookup(es, key) is None,
    decreases es.len(),
{
    if es.len() > 0 {
        lemma_lookup_absent(es.skip(1), key);
    }
}

/// A key that an entry has is found.
pub proof fn lemma_lookup_finds(es: Seq<Entry>, key: Seq<u8>, i: int)
    requires
        0 <= i < es.len(),
        es[i].0.bytes == key,
    ensures
        lookup(es, key) is Some,
    decreases es.len(),
{
    if i > 0 {
        lemma_lookup_finds(es.skip(1), key, i - 1);
    }
}

/// What is found is an entry, and no entry before it has the key.
pub proof fn lemma_lookup_present(es: Seq<Entry>, key: Seq<u8>)
    requires
        lookup(es, key) is Some,
    ensures
        exists|i: int|
            0 <= i < es.len() && (#[trigger] es[i]).0.bytes == key && lookup(es, key) == Some(
                es[i].1,
            ) && forall|j: int| 0 <= j < i ==> (#[trigger] es[j]).0.bytes != key,
    decreases es.len(),
{
    if es[0].0.bytes == key {
        assert(es[0].0.bytes == key);
    } else {
        let tail = es.skip(1);
        lemma_lookup_present(tail, key);
        let i = choose|i: int|
            0 <= i < tail.len() && (#[trigger] tail[i]).0.bytes == key && lookup(tail, key)
                == Some(tail[i].1) && forall|j: int|
                0 <= j < i ==> (#[trigger] tail[j]).0.bytes != key;
        assert(es[i + 1] == tail[i]);
        assert forall|j: int| 0 <= j < i + 1 implies (#[trigger] es[j]).0.bytes != key by {
            if j > 0 {
                assert(es[j] == tail[j - 1]);
            }
        }
    }
}

/// In entries that are in order, a key before the first one is not there.
proof fn lemma_before_first(es: Seq<Entry>, key: Seq<u8>)
    requires
        sorted(es),
        es.len() > 0,
        bytes_lt(key, es[0].0.bytes),
    ensures
        lookup(es, key) is None,
{
    assert forall|i: int| 0 <= i < es.len() implies (#[trigger] es[i]).0.bytes != key by {
        lemma_bytes_lt_irreflexive(key);
        if i > 0 {
            assert(key_lt(es[0].0, es[i].0));
            if bytes_lt(es[0].0.bytes, es[i].0.bytes) {
                lemma_bytes_lt_transitive(key, es[0].0.bytes, es[i].0.bytes);
            }
        }
    }
    lemma_lookup_absent(es, key);
}

/// In entries that are in order, a key behind the last one is not there.
proof fn lemma_behind_last(es: Seq<Entry>, key: Seq<u8>)
    requires
        sorted(es),
        es.len() > 0,
        bytes_lt(es.last().0.bytes, key),
    ensures
        lookup(es, key) is None,
{
    assert forall|i: int| 0 <= i < es.len() implies (#[trigger] es[i]).0.bytes != key by {
        lemma_bytes_lt_irreflexive(key);
        if i < es.len() - 1 {
            let last = es[es.len() - 1].0;
            assert(key_lt(es[i].0, last));
            if bytes_lt(es[i].0.bytes, last.bytes) {
                lemma_bytes_lt_transitive(es[i].0.bytes, last.bytes, key);
            }
        }
    }
    lemma_lookup_absent(es, key);
}

/// A block that does not end before a key decides for all that follows.
proof fn lemma_scan_sorted(a: Seq<Entry>, b: Seq<Entry>, key: Seq<u8>)
    requires
        sorted(a + b),
        a.len() > 0,
        !bytes_lt(a.last().0.bytes, key),
    ensures
        scan(a, None, key) == Ok::<Option<ValueView>, DbError>(lookup(a + b, key)),
    decreases a.len(),
{
    let all = a + b;
    assert(all[0] == a[0]);
    if a[0].0.bytes == key {
    } else if bytes_lt(key, a[0].0.bytes) {
        lemma_before_first(all, key);
    } else {
        lemma_bytes_lt_total(a[0].0.bytes, key);
        let rest = a.skip(1);
        assert(all.skip(1) =~= rest + b);
        assert forall|i: int, j: int| 0 <= i < j < (rest + b).len() implies key_lt(
            (#[trigger] (rest + b)[i]).0,
            (#[trigger] (rest + b)[j]).0,
        ) by {
            assert(key_lt(all[i + 1].0, all[j + 1].0));
        }
        lemma_scan_sorted(rest, b, key);
    }
}

/// Where the blocks are in order, the first that does not end before a key decides.
proof fn lemma_search_blocks(blocks: Seq<Seq<Entry>>, key: Seq<u8>, k: int)
    requires
        sorted(concat(blocks)),
        forall|i: int| 0 <= i < blocks.len() ==> (#[trigger] blocks[i]).len() > 0,
        0 <= k <= blocks.len(),
        forall|i: int| 0 <= i < k ==> bytes_lt((#[trigger] blocks[i]).last().0.bytes, key),
        k < blocks.len() ==> !bytes_lt(blocks[k].last().0.bytes, key),
    ensures
        k == blocks.len() ==> lookup(concat(blocks), key) is None,
        k < blocks.len() && bytes_lt(key, blocks[k][0].0.bytes) ==> lookup(
            concat(blocks),
            key,
        ) is None,
        k < blocks.len() && !bytes_lt(key, blocks[k][0].0.bytes) ==> scan(blocks[k], None, key)
            == Ok::<Option<ValueView>, DbError>(lookup(concat(blocks), key)),
    decreases blocks.len(),
{
    if blocks.len() > 0 {
        let first = blocks[0];
        let tail = blocks.skip(1);
        let all = concat(blocks);
        if k == 0 {
            assert(all[0] == first[0]);
            if bytes_lt(key, first[0].0.bytes) {
                lemma_before_first(all, key);
            } else {
                lemma_scan_sorted(first, concat(tail), key);
            }
        } else {
            assert forall|i: int, j: int| 0 <= i < j < first.len() implies key_lt(
                (#[trigger] first[i]).0,
                (#[trigger] first[j]).0,
            ) by {
                assert(key_lt(all[i].0, all[j].0));
            }
            assert forall|i: int, j: int| 0 <= i < j < concat(tail).len() implies key_lt(
                (#[trigger] concat(tail)[i]).0,
                (#[trigger] concat(tail)[j]).0,
            ) by {
                assert(key_lt(all[i + first.len()].0, all[j + first.len()].0));
            }
            lemma_behind_last(first, key);
            lemma_lookup_append(first, concat(tail), key);
            assert forall|i: int| 0 <= i < tail.len() implies (#[trigger] tail[i]).len() > 0 by {
                assert(tail[i] == blocks[i + 1]);
            }
            assert forall|i: int| 0 <= i < k - 1 implies bytes_lt(
                (#[trigger] tail[i]).last().0.bytes,
                key,
            ) by {
                assert(tail[i] == blocks[i + 1]);
            }
            lemma_search_blocks(tail, key, k - 1);
        }
    }
}

/// The last keys of blocks that are in order are in order.
proof fn lemma_block_ends_sorted(blocks: Seq<Seq<Entry>>, i: int, j: int)
    requires
        sorted(concat(blocks)),
        forall|n: int| 0 <= n < blocks.len() ==> (#[trigger] blocks[n]).len() > 0,
        0 <= i < j < blocks.len(),
    ensures
        key_lt(blocks[i].last().0, blocks[j].last().0),
    decreases blocks.len(),
{
    let first = blocks[0];
    let tail = blocks.skip(1);
    let all = concat(blocks);
    assert forall|n: int| 0 <= n < tail.len() implies (#[trigger] tail[n]).len() > 0 by {
        assert(tail[n] == blocks[n + 1]);
    }
    if i == 0 {
        lemma_concat_member(tail, j - 1, tail[j - 1].len() - 1);
        let m = choose|m: int|
            0 <= m < concat(tail).len() && #[trigger] concat(tail)[m] == tail[j - 1][tail[j
                - 1].len() - 1];
        assert(all[first.len() - 1] == first.last());
        assert(all[first.len() + m] == concat(tail)[m]);
    } else {
        assert forall|a: int, b: int| 0 <= a < b < concat(tail).len() implies key_lt(
            (#[trigger] concat(tail)[a]).0,
            (#[trigger] concat(tail)[b]).0,
        ) by {
            assert(key_lt(all[a + first.len()].0, all[b + first.len()].0));
        }
        lemma_block_ends_sorted(tail, i - 1, j - 1);
    }
}

/// Searching a table that was written, in order and with a filter of its keys, finds the
/// value of the first entry with the key, and fails on no key.
pub proof fn lemma_table_search(
    es: Seq<Entry>,
    filter: BloomView,
    key: Seq<u8>,
    r: Result<Option<ValueView>, DbError>,
)
    requires
        es.len() > 0,
        sorted(es),
        writable(es),
        table_bytes(es, filter).len() <= u64::MAX,
        filter.wf(),
        filter.holds_exactly(keys_of(es)),
        opened(es, filter).is_found(key, r),
    ensures
        r == Ok::<Option<ValueView>, DbError>(lookup(es, key)),
{
    let t = opened(es, filter);
    let blocks = blocks_of(es);
    lemma_blocks_of(es);
    if !t.may_hold(key) {
        if bytes_lt(key, es[0].0.bytes) {
            lemma_before_first(es, key);
        } else if bytes_lt(es.last().0.bytes, key) {
            lemma_behind_last(es, key);
        } else {
            assert forall|i: int| 0 <= i < es.len() implies (#[trigger] es[i]).0.bytes != key by {
                if es[i].0.bytes == key {
                    lemma_no_false_negatives(filter, keys_of(es), i);
                }
            }
            lemma_lookup_absent(es, key);
        }
    } else {
        let k = choose|i: int| #[trigger] t.is_place(i, key) && r == t.search_at(i, key);
        assert forall|i: int| 0 <= i < k implies bytes_lt(
            (#[trigger] blocks[i]).last().0.bytes,
            key,
        ) by {
            let end = blocks[k - 1].last().0;
            assert(t.index[k - 1].1 == end);
            assert(bytes_lt(end.bytes, key));
            if i < k - 1 {
                lemma_block_ends_sorted(blocks, i, k - 1);
                if bytes_lt(blocks[i].last().0.bytes, end.bytes) {
                    lemma_bytes_lt_transitive(blocks[i].last().0.bytes, end.bytes, key);
                }
            }
        }
        if k < blocks.len() {
            assert(t.index[k].1 == blocks[k].last().0);
            assert(t.index[k].0 == blocks[k][0].0);
            lemma_read_data_block(es, filter, k);
            assert forall|j: int| 0 <= j < blocks[k].len() implies <(
                Key,
                Value,
            ) as Loggable>::encodable(#[trigger] blocks[k][j]) by {
                lemma_concat_member(blocks, k, j);
            }
            lemma_run_round_trip::<(Key, Value)>(blocks[k]);
        }
        lemma_search_blocks(blocks, key, k);
    }
}

// --- Open tables and their entries ---

/// Whether an open table is that of some entries: they are in order, and the filter is that of
/// their keys.
pub open spec fn is_table_with(t: TableView, es: Seq<Entry>, filter: BloomView) -> bool {
    &&& t == opened(es, filter)
    &&& es.len() > 0
    &&& sorted(es)
    &&& writable(es)
    &&& table_bytes(es, filter).len() <= u64::MAX
    &&& filter.wf()
    &&& filter.holds_exactly(keys_of(es))
}

/// Whether an open table is that of some entries.
pub open spec fn holds_run(t: TableView, es: Seq<Entry>) -> bool {
    exists|filter: BloomView| #[trigger] is_table_with(t, es, filter)
}

/// The entries of a table are what walking through it gives; the first and the last of them
/// have its smallest and its largest key.
pub proof fn lemma_holds_run(t: TableView, es: Seq<Entry>)
    requires
        holds_run(t, es),
    ensures
        t.walk().stream() == (es, None::<DbError>),
        es.len() > 0,
        sorted(es),
        t.min_key == es[0].0,
        t.max_key == es.last().0,
{
    let filter = choose|filter: BloomView| #[trigger] is_table_with(t, es, filter);
    lemma_table_walks(es, filter);
}

/// Searching a table gives the value of the first of its entries with the key, and no error.
pub proof fn lemma_run_search(
    t: TableView,
    es: Seq<Entry>,
    key: Seq<u8>,
    r: Result<Option<ValueView>, DbError>,
)
    requires
        holds_run(t, es),
        t.is_found(key, r),
    ensures
        r == Ok::<Option<ValueView>, DbError>(lookup(es, key)),
{
    let filter = choose|filter: BloomView| #[trigger] is_table_with(t, es, filter);
    lemma_table_search(es, filter, key, r);
}

} // verus!
