//! Sorted string tables: immutable files of sorted key-value pairs.
//!
//! A table is written entry by entry, in the order of its keys, by a [`SstableWriter`]:
//! entries are packed into data blocks, behind which come an index of the blocks, a Bloom
//! filter of the keys and a footer. An [`Sstable`] keeps the index and the filter at hand;
//! a search asks the filter, then the index, and reads at most one block.

use crate::data_stores::bloom_filter::{
    filter_bytes, lemma_holds_exactly_push, lemma_no_false_negatives, BloomFilter, BloomView,
};
use crate::data_stores::checksum::{checksum, crc32};
use crate::data_stores::file_name::{number_of, parse_u32};
use crate::data_stores::key::{
    bytes_before, key_lt, lemma_key_lt_transitive, Key, KeyView,
};
use crate::data_stores::le::{get_le, le_bytes};
use crate::data_stores::manifest::{FileMetadata, FileView};
use crate::data_stores::table_format::{
    block_step, blocks_of, cut, data_bytes, entry_bytes, footer, frame, holds_run, index_of,
    index_payload, is_filter_of, is_table_with, keys_of, lemma_filter_of, lemma_table_opens,
    magic_number, make_room, opened, parse_table, payload, read_block, scan, sorted, table_bytes,
    writable, Entry, Step, TableView, WalkView, BLOCK_SIZE,
};
use crate::data_stores::tuples::{decode_run, read_run};
use crate::data_stores::value::{Value, ValueView};
use crate::data_stores::{encode_items, le, Loggable};
use crate::err::{DbError, IoErrorKind};
use std::sync::Arc;
use vstd::prelude::*;
use vstd::slice::{slice_subrange, slice_to_vec};

verus! {

pub const SSTABLE_EXTENSION: &'static str = "sst";

/// The bits and the probes of the filter of a table: room for a thousand keys with one
/// false positive in a hundred.
pub const FILTER_BITS: u64 = 9586;

pub const FILTER_PROBES: u32 = 7;

proof fn lemma_entry_len(e: Entry)
    ensures
        entry_bytes(e).len() == 15 + e.0.bytes.len() + e.1.payload().len(),
{
    le::lemma_le_bytes_len(e.0.lsn as nat, 8);
    le::lemma_le_bytes_len((e.0.bytes.len() as u16) as nat, 2);
    le::lemma_le_bytes_len(e.1.meta() as nat, 1);
    le::lemma_le_bytes_len((e.1.payload().len() as u32) as nat, 4);
}

proof fn lemma_payload_push(es: Seq<Entry>, e: Entry)
    ensures
        payload(es.push(e)) == payload(es) + entry_bytes(e),
        payload(es.push(e)).len() > 0,
{
    lemma_entry_len(e);
    assert(es.push(e).drop_last() =~= es);
}

/// A block that is still open has not reached its size.
proof fn lemma_open_block(es: Seq<Entry>)
    ensures
        payload(cut(es).1).len() < BLOCK_SIZE,
{
}

proof fn lemma_frame_len(data: Seq<u8>)
    ensures
        frame(data).len() == 8 + data.len(),
{
    le::lemma_le_bytes_len((data.len() + 4) % 0x1_0000_0000, 4);
    le::lemma_le_bytes_len(crc32(data) as nat, 4);
}

/// How many bytes the data blocks take once an entry is added: what is written out, the open
/// block and the entry, which may call for a block of its own.
proof fn lemma_size_with(es: Seq<Entry>, e: Entry)
    ensures
        ({
            let (done, open) = cut(es);
            let own = open.len() > 0 && payload(open).len() + entry_bytes(e).len() > BLOCK_SIZE;
            data_bytes(blocks_of(es.push(e))).len() == data_bytes(done).len() + 8 + payload(
                open,
            ).len() + entry_bytes(e).len() + (if own {
                8int
            } else {
                0
            })
        }),
{
    let (done, open) = cut(es);
    let (done1, open1) = make_room((done, open), e);
    let more = open1.push(e);
    assert(es.push(e).drop_last() =~= es);
    assert(blocks_of(es.push(e)) == done1.push(more));
    assert(done1.push(more).drop_last() =~= done1);
    lemma_payload_push(open1, e);
    lemma_frame_len(payload(more));
    if open.len() > 0 && payload(open).len() + entry_bytes(e).len() > BLOCK_SIZE {
        assert(done.push(open).drop_last() =~= done);
        assert(data_bytes(done1) == data_bytes(done) + frame(payload(open)));
        lemma_frame_len(payload(open));
    }
}

/// Collects the entries of a data block.
pub struct BlockBuilder {
    buffer: Vec<u8>,
    min_key: Option<Key>,
    max_key: Option<Key>,
    entries: Ghost<Seq<Entry>>,
}

impl View for BlockBuilder {
    type V = Seq<Entry>;

    closed spec fn view(&self) -> Seq<Entry> {
        self.entries@
    }
}

impl BlockBuilder {
    pub closed spec fn wf(&self) -> bool {
        &&& self.buffer@ == payload(self@)
        &&& self.min_key.deep_view() == (if self@.len() == 0 {
            None
        } else {
            Some(self@[0].0)
        })
        &&& self.max_key.deep_view() == (if self@.len() == 0 {
            None
        } else {
            Some(self@.last().0)
        })
        &&& self@.len() > 0 ==> self.buffer@.len() > 0
    }

    pub fn new() -> (builder: BlockBuilder)
        ensures
            builder.wf(),
            builder@ == Seq::<Entry>::empty(),
    {
        let builder = BlockBuilder {
            buffer: Vec::new(),
            min_key: None,
            max_key: None,
            entries: Ghost(Seq::empty()),
        };
        assert(builder.buffer@ =~= payload(builder@));
        builder
    }

    pub fn add(&mut self, key: &Key, value: &Value) -> (r: Result<(), DbError>)
        requires
            old(self).wf(),
        ensures
            r is Ok,
            final(self).wf(),
            final(self)@ == old(self)@.push((key@, value@)),
    {
        if self.min_key.is_none() {
            self.min_key = Some(key.clone());
        }
        self.max_key = Some(key.clone());
        key.encode(&mut self.buffer);
        value.encode(&mut self.buffer);
        proof {
            let e: Entry = (key@, value@);
            lemma_payload_push(self.entries@, e);
            assert(old(self).buffer@ + Key::spec_encode(key@) + Value::spec_encode(value@)
                =~= old(self).buffer@ + entry_bytes(e));
        }
        self.entries = Ghost(self.entries@.push((key@, value@)));
        Ok(())
    }

    /// Whether an entry fits in what is left of the block.
    fn fits(&self, key: &Key, value: &Value) -> (r: bool)
        requires
            self.wf(),
            payload(self@).len() < BLOCK_SIZE,
        ensures
            r == (payload(self@).len() + entry_bytes((key@, value@)).len() <= BLOCK_SIZE),
    {
        proof {
            lemma_entry_len((key@, value@));
        }
        let key_len: usize = key.bytes.len();
        let value_len: usize = value.payload_len();
        if key_len > BLOCK_SIZE || value_len > BLOCK_SIZE {
            return false;
        }
        self.buffer.len() + Key::SERIALIZED_HEADER_SIZE + key_len + Value::SERIALIZED_HEADER_SIZE
            + value_len <= BLOCK_SIZE
    }

    pub fn is_full(&self) -> (r: bool)
        requires
            self.wf(),
        ensures
            r == (payload(self@).len() >= BLOCK_SIZE),
    {
        self.buffer.len() >= BLOCK_SIZE
    }

    pub fn is_empty(&self) -> (r: bool)
        requires
            self.wf(),
        ensures
            r == (self@.len() == 0),
    {
        self.buffer.len() == 0
    }

    /// The block as it stands in a file, with its first and last key; the builder starts
    /// over.
    pub fn flush(&mut self) -> (r: (Vec<u8>, Option<Key>, Option<Key>))
        requires
            old(self).wf(),
        ensures
            final(self).wf(),
            final(self)@ == Seq::<Entry>::empty(),
            old(self)@.len() == 0 ==> r.0@ == Seq::<u8>::empty() && r.1 is None && r.2 is None,
            old(self)@.len() > 0 ==> {
                &&& r.0@ == frame(payload(old(self)@))
                &&& r.1.deep_view() == Some(old(self)@[0].0)
                &&& r.2.deep_view() == Some(old(self)@.last().0)
            },
    {
        if self.buffer.len() == 0 {
            assert(self@ =~= Seq::<Entry>::empty());
            return (Vec::new(), None, None);
        }
        let block_data = framed(self.buffer.as_slice());
        let min = self.min_key.take();
        let max = self.max_key.take();
        self.buffer = Vec::new();
        self.entries = Ghost(Seq::empty());
        assert(self.buffer@ =~= payload(self@));
        (block_data, min, max)
    }
}

/// A block of a file: the length of the rest, the checksum and the data.
fn framed(data: &[u8]) -> (r: Vec<u8>)
    ensures
        r@ == frame(data@),
{
    let mut r: Vec<u8> = Vec::new();
    let len: u64 = (data.len() as u64 % 0x1_0000_0000 + 4) % 0x1_0000_0000;
    (len as u32).encode(&mut r);
    checksum(data).encode(&mut r);
    r.extend_from_slice(data);
    assert(r@ =~= frame(data@));
    r
}

/// A filter with room for the keys of a table, and no key in it.
pub open spec fn empty_filter() -> BloomView {
    BloomView {
        bitmap: Seq::new(150, |i: int| 0u64),
        bitmap_bits: FILTER_BITS,
        k_num: FILTER_PROBES,
        sip_keys: seq![
            (0x5068486940525249u64, 0x1234567890ABCDEFu64),
            (0xFEDCBA0987654321u64, 0x1029384756102938u64),
        ],
    }
}

/// Whether `f` is the filter of the table of some entries.
pub open spec fn is_table_filter(f: BloomView, es: Seq<Entry>) -> bool {
    &&& empty_filter().same_shape(f)
    &&& f.holds_exactly(keys_of(es))
}

/// Whether some bytes are the table of some entries.
pub open spec fn is_table(bytes: Seq<u8>, es: Seq<Entry>) -> bool {
    exists|f: BloomView| #[trigger] is_table_filter(f, es) && bytes == table_bytes(es, f)
}

proof fn lemma_words_len(words: Seq<u64>)
    ensures
        encode_items::<u64>(words).len() == 8 * words.len(),
    decreases words.len(),
{
    if words.len() > 0 {
        lemma_words_len(words.drop_last());
        le::lemma_le_bytes_len(words.last() as nat, 8);
    }
}

/// The filter of a table has 9586 bits and seven probes, and claims each of its keys.
pub proof fn lemma_table_filter(f: BloomView, es: Seq<Entry>, i: int)
    requires
        is_table_filter(f, es),
        0 <= i < es.len(),
    ensures
        f.bitmap_bits == 9586,
        f.bitmap.len() == 150,
        f.k_num == 7,
        f.claims(es[i].0.bytes),
{
    lemma_no_false_negatives(f, keys_of(es), i);
    assert(keys_of(es)[i] == es[i].0.bytes);
}

/// What was written as a table opens as the table of its entries.
pub proof fn lemma_written_table_opens(bytes: Seq<u8>, es: Seq<Entry>)
    requires
        is_table(bytes, es),
        es.len() > 0,
        sorted(es),
        writable(es),
        bytes.len() <= u64::MAX,
    ensures
        parse_table(bytes) matches Ok(t) && holds_run(t, es),
{
    let f = choose|f: BloomView| #[trigger] is_table_filter(f, es) && bytes == table_bytes(es, f);
    lemma_words_len(f.bitmap);
    le::lemma_le_bytes_len(f.bitmap.len(), 8);
    le::lemma_le_bytes_len(f.bitmap_bits as nat, 8);
    le::lemma_le_bytes_len(f.k_num as nat, 4);
    le::lemma_le_bytes_len(f.sip_keys[0].0 as nat, 8);
    le::lemma_le_bytes_len(f.sip_keys[0].1 as nat, 8);
    le::lemma_le_bytes_len(f.sip_keys[1].0 as nat, 8);
    le::lemma_le_bytes_len(f.sip_keys[1].1 as nat, 8);
    assert(f.serialized() == filter_bytes(f.bitmap, f.bitmap_bits, f.k_num, f.sip_keys));
    assert(f.serialized().len() == 1252);
    lemma_table_opens(es, f);
    assert(is_table_with(opened(es, f), es, f));
}

/// What the manifest is to know of the table of some entries; the number is the caller's to
/// set.
pub open spec fn table_metadata(es: Seq<Entry>, size: nat) -> FileView {
    FileView {
        file_id: 0,
        file_size: size as u32,
        min_key: if es.len() == 0 {
            KeyView { bytes: Seq::empty(), lsn: 0 }
        } else {
            es[0].0
        },
        max_key: if es.len() == 0 {
            KeyView { bytes: Seq::empty(), lsn: 0 }
        } else {
            es.last().0
        },
    }
}

/// Writes a table.
pub struct SstableWriter {
    file: Vec<u8>,
    current_block: BlockBuilder,
    index_entries: Vec<(Key, Key, u64)>,
    bloom_filter: BloomFilter,
    min_key: Option<Key>,
    max_key: Option<Key>,
    entries: Ghost<Seq<Entry>>,
}

impl View for SstableWriter {
    type V = Seq<Entry>;

    closed spec fn view(&self) -> Seq<Entry> {
        self.entries@
    }
}

impl SstableWriter {
    /// The writer holds what its entries call for, up to the blocks written.
    spec fn holds(&self, es: Seq<Entry>, state: (Seq<Seq<Entry>>, Seq<Entry>)) -> bool {
        &&& self.current_block.wf()
        &&& self.file@ == data_bytes(state.0)
        &&& self.current_block@ == state.1
        &&& self.index_entries.deep_view() == index_of(state.0)
        &&& self.bloom_filter@.wf()
        &&& is_table_filter(self.bloom_filter@, es)
        &&& self.min_key.deep_view() == (if es.len() == 0 {
            None
        } else {
            Some(es[0].0)
        })
        &&& self.max_key.deep_view() == (if es.len() == 0 {
            None
        } else {
            Some(es.last().0)
        })
    }

    pub closed spec fn wf(&self) -> bool {
        &&& self.holds(self@, cut(self@))
        &&& sorted(self@)
    }

    pub fn new() -> (writer: SstableWriter)
        ensures
            writer.wf(),
            writer@ == Seq::<Entry>::empty(),
    {
        let bloom_filter = BloomFilter::with_size(FILTER_BITS, FILTER_PROBES);
        let writer = SstableWriter {
            file: Vec::new(),
            current_block: BlockBuilder::new(),
            index_entries: Vec::new(),
            bloom_filter,
            min_key: None,
            max_key: None,
            entries: Ghost(Seq::empty()),
        };
        proof {
            assert(keys_of(writer@) =~= Seq::<Seq<u8>>::empty());
            assert(writer.file@ =~= data_bytes(cut(writer@).0));
            assert(writer.index_entries.deep_view() =~= index_of(cut(writer@).0));
        }
        writer
    }

    /// Adds an entry. Its key must be behind the last one written.
    pub fn write(&mut self, key: &Key, value: &Value) -> (r: Result<(), DbError>)
        requires
            old(self).wf(),
        ensures
            final(self).wf(),
            r is Ok <==> (old(self)@.len() > 0 ==> key_lt(old(self)@.last().0, key@)),
            r is Ok ==> final(self)@ == old(self)@.push((key@, value@)),
            r matches Err(e) ==> final(self)@ == old(self)@ && (e matches DbError::DataCorrupted(
                message,
            ) && message@ == "SSTable keys out of order"@),
    {
        match &self.max_key {
            Some(last) => {
                if !last.before(key) {
                    return Err(
                        DbError::DataCorrupted(String::from_str("SSTable keys out of order")),
                    );
                }
            },
            None => {},
        }
        let ghost es = self@;
        let ghost e: Entry = (key@, value@);
        let ghost more = es.push(e);
        proof {
            lemma_open_block(es);
            lemma_sorted_push(es, e);
            assert(more.drop_last() =~= es);
        }
        let ghost before = self.bloom_filter@;
        self.bloom_filter.set(key.bytes.as_slice());
        proof {
            lemma_holds_exactly_push(before, self.bloom_filter@, keys_of(es), key@.bytes);
            assert(keys_of(more) =~= keys_of(es).push(key@.bytes));
        }
        if self.min_key.is_none() {
            self.min_key = Some(key.clone());
        }
        self.max_key = Some(key.clone());
        self.entries = Ghost(more);
        if !self.current_block.is_empty() && !self.current_block.fits(key, value) {
            self.flush_block(Ghost(cut(es)));
        }
        assert(self.holds(more, make_room(cut(es), e)));
        match self.current_block.add(key, value) {
            Ok(()) => {},
            Err(error) => {
                return Err(error);
            },
        }
        let ghost state = (make_room(cut(es), e).0, make_room(cut(es), e).1.push(e));
        if self.current_block.is_full() {
            self.flush_block(Ghost(state));
        }
        Ok(())
    }

    /// Whether a key is the last one written.
    pub fn ends_with(&self, key: &Key) -> (r: bool)
        requires
            self.wf(),
        ensures
            r == (self@.len() > 0 && self@.last().0 == key@),
    {
        match &self.max_key {
            Some(last) => *last == *key,
            None => false,
        }
    }

    /// Whether the data blocks take no more than `max_size` bytes once an entry is added.
    pub fn has_room(&self, key: &Key, value: &Value, max_size: u64) -> (r: bool)
        requires
            self.wf(),
        ensures
            r == (data_bytes(blocks_of(self@.push((key@, value@)))).len() <= max_size),
    {
        let ghost e: Entry = (key@, value@);
        proof {
            lemma_open_block(self@);
            lemma_entry_len(e);
            lemma_size_with(self@, e);
        }
        let entry_len: u128 = Key::SERIALIZED_HEADER_SIZE as u128 + key.bytes.len() as u128
            + Value::SERIALIZED_HEADER_SIZE as u128 + value.payload_len() as u128;
        let open_len: u128 = self.current_block.buffer.len() as u128;
        let mut size: u128 = self.file.len() as u128 + 8 + open_len + entry_len;
        if !self.current_block.is_empty() && !self.current_block.fits(key, value) {
            size = size + 8;
        }
        size <= max_size as u128
    }

    /// Writes the open block out and notes it in the index.
    fn flush_block(&mut self, Ghost(state): Ghost<(Seq<Seq<Entry>>, Seq<Entry>)>)
        requires
            old(self).holds(old(self)@, state),
            state.1.len() > 0,
        ensures
            final(self)@ == old(self)@,
            final(self).holds(final(self)@, (state.0.push(state.1), Seq::empty())),
    {
        let (block_data, min, max) = self.current_block.flush();
        let offset: u64 = self.file.len() as u64;
        let ghost (done, open) = state;
        let ghost more = done.push(open);
        self.file.extend_from_slice(block_data.as_slice());
        match (min, max) {
            (Some(min), Some(max)) => {
                let ghost before = self.index_entries.deep_view();
                self.index_entries.push((min, max, offset));
                proof {
                    assert(self.index_entries.deep_view() =~= before.push(
                        (open[0].0, open.last().0, offset),
                    ));
                    assert forall|i: int| 0 <= i < done.len() implies #[trigger] more.take(i)
                        == done.take(i) by {
                        assert(more.take(i) =~= done.take(i));
                    }
                    assert(more.take(done.len() as int) =~= done);
                    assert(self.index_entries.deep_view() =~= index_of(more));
                }
            },
            _ => {
                assert(false);
            },
        }
        proof {
            assert(more.drop_last() =~= done);
            assert(more.last() == open);
            assert(self.file@ =~= data_bytes(more));
        }
    }

    /// How many bytes have been written out; the open block is not counted.
    pub fn current_size(&self) -> (r: Result<u64, DbError>)
        requires
            self.wf(),
        ensures
            r is Ok,
            r->Ok_0 == data_bytes(cut(self@).0).len(),
    {
        Ok(self.file.len() as u64)
    }

    /// The bytes of the index block.
    fn index_data(&self) -> (r: Vec<u8>)
        requires
            self.holds(self@, (blocks_of(self@), Seq::empty())),
        ensures
            r@ == index_payload(self@),
    {
        let mut data: Vec<u8> = Vec::new();
        match (&self.min_key, &self.max_key) {
            (Some(min), Some(max)) => {
                min.encode(&mut data);
                max.encode(&mut data);
            },
            _ => {},
        }
        let ghost head = data@;
        let ghost index = self.index_entries.deep_view();
        let mut i: usize = 0;
        assert(head + encode_items::<(Key, Key, u64)>(index.take(0)) =~= head);
        while i < self.index_entries.len()
            invariant
                i <= self.index_entries.len(),
                index == self.index_entries.deep_view(),
                data@ == head + encode_items::<(Key, Key, u64)>(index.take(i as int)),
            decreases self.index_entries.len() - i,
        {
            proof {
                assert(index.take(i + 1).drop_last() =~= index.take(i as int));
            }
            let ghost before = data@;
            self.index_entries[i].encode(&mut data);
            proof {
                let e = self.index_entries[i as int].deep_view();
                assert(e == index[i as int]);
                assert(data@ =~= head + (encode_items::<(Key, Key, u64)>(index.take(i as int)) + <(
                    Key,
                    Key,
                    u64,
                ) as Loggable>::spec_encode(e)));
            }
            i = i + 1;
        }
        proof {
            assert(index.take(i as int) =~= index);
            if self@.len() == 0 {
                assert(head =~= Seq::<u8>::empty());
            } else {
                assert(head =~= <(Key, Key) as Loggable>::spec_encode(
                    (self@[0].0, self@.last().0),
                ));
            }
        }
        data
    }

    /// Completes the table: what the manifest is to know of it, and its bytes.
    pub fn finalize(self) -> (r: Result<(FileMetadata, Vec<u8>), DbError>)
        requires
            self.wf(),
        ensures
            r is Ok,
            sorted(self@),
            is_table(r->Ok_0.1@, self@),
            r->Ok_0.0@ == table_metadata(self@, r->Ok_0.1@.len()),
            r->Ok_0.1@.len() <= u32::MAX ==> r->Ok_0.0@.file_size == r->Ok_0.1@.len(),
            self@.len() > 0 ==> r->Ok_0.0@.min_key == self@[0].0 && r->Ok_0.0@.max_key
                == self@[self@.len() - 1].0,
    {
        let ghost es = self@;
        let mut writer = self;
        if !writer.current_block.is_empty() {
            writer.flush_block(Ghost(cut(es)));
        }
        assert(cut(es).1.len() == 0 ==> cut(es).1 =~= Seq::<Entry>::empty());
        assert(writer.holds(es, (blocks_of(es), Seq::empty())));
        let index_data = writer.index_data();
        let index_offset: u64 = writer.file.len() as u64;
        let index_block = framed(index_data.as_slice());
        writer.file.extend_from_slice(index_block.as_slice());
        let bloom_offset: u64 = writer.file.len() as u64;
        let bloom_data = match writer.bloom_filter.serialize() {
            Ok(data) => data,
            Err(e) => {
                return Err(e);
            },
        };
        let bloom_block = framed(bloom_data.as_slice());
        writer.file.extend_from_slice(bloom_block.as_slice());
        let mut footer_data: Vec<u8> = Vec::new();
        index_offset.encode(&mut footer_data);
        bloom_offset.encode(&mut footer_data);
        let ghost offsets = footer_data@;
        let crc: u32 = checksum(footer_data.as_slice());
        crc.encode(&mut footer_data);
        footer_data.push(0x41);
        footer_data.push(0x42);
        footer_data.push(0x43);
        footer_data.push(0x44);
        proof {
            assert(offsets =~= le_bytes(index_offset as nat, 8) + le_bytes(
                bloom_offset as nat,
                8,
            ));
            assert(footer_data@ =~= footer(index_offset, bloom_offset));
        }
        writer.file.extend_from_slice(footer_data.as_slice());
        proof {
            let f = writer.bloom_filter@;
            assert(writer.file@ =~= table_bytes(es, f));
            assert(is_table_filter(f, es));
        }
        let min_key = match writer.min_key {
            Some(key) => key,
            None => Key::new(&[], 0),
        };
        let max_key = match writer.max_key {
            Some(key) => key,
            None => Key::new(&[], 0),
        };
        let metadata = FileMetadata {
            file_id: 0,
            file_size: writer.file.len() as u32,
            min_key,
            max_key,
        };
        assert(metadata@ =~= table_metadata(es, writer.file@.len()));
        Ok((metadata, writer.file))
    }
}

pub proof fn lemma_sorted_push(es: Seq<Entry>, e: Entry)
    requires
        sorted(es),
        es.len() > 0 ==> key_lt(es.last().0, e.0),
    ensures
        sorted(es.push(e)),
{
    let more = es.push(e);
    assert forall|i: int, j: int| 0 <= i < j < more.len() implies key_lt(
        (#[trigger] more[i]).0,
        (#[trigger] more[j]).0,
    ) by {
        if j == es.len() && i < es.len() - 1 {
            assert(key_lt(es[i].0, es[es.len() - 1].0));
            lemma_key_lt_transitive(es[i].0, es.last().0, e.0);
        }
    }
}

/// An open table.
pub struct Sstable {
    pub id: u32,
    pub file: Vec<u8>,
    pub index: Vec<(Key, Key, u64)>,
    pub bloom_filter: BloomFilter,
    pub min_key: Key,
    pub max_key: Key,
}

impl View for Sstable {
    type V = TableView;

    open spec fn view(&self) -> TableView {
        TableView {
            file: self.file@,
            index: self.index.deep_view(),
            filter: self.bloom_filter@,
            min_key: self.min_key@,
            max_key: self.max_key@,
        }
    }
}

impl DeepView for Sstable {
    type V = (u32, TableView);

    open spec fn deep_view(&self) -> (u32, TableView) {
        (self.id, self@)
    }
}

/// Reads the block at `offset` and checks it.
fn read_block_with_crc_at(file: &[u8], offset: u64) -> (r: Result<Vec<u8>, DbError>)
    ensures
        match (r, read_block(file@, offset as nat)) {
            (Ok(data), Ok(v)) => data@ == v,
            (Err(e), Err(f)) => e == f,
            _ => false,
        },
{
    let size: usize = file.len();
    if size < 8 || offset > (size - 8) as u64 {
        return Err(DbError::Io(IoErrorKind::UnexpectedEof));
    }
    let at: usize = offset as usize;
    let len_bytes = slice_subrange(file, at, at + 4);
    let crc_bytes = slice_subrange(file, at + 4, at + 8);
    proof {
        le::lemma_le_range();
        le::lemma_le_value_bound(len_bytes@);
        assert(len_bytes@ =~= file@.subrange(at as int, at + 4));
        assert(crc_bytes@ =~= file@.subrange(at + 4, at + 8));
    }
    let len: u64 = get_le(len_bytes);
    let stored_crc: u64 = get_le(crc_bytes);
    if len < 4 {
        return Err(DbError::ManifestCorrupted);
    }
    if len - 4 > (size - 8 - at) as u64 {
        return Err(DbError::Io(IoErrorKind::UnexpectedEof));
    }
    let data = slice_subrange(file, at + 8, at + 4 + len as usize);
    assert(data@ =~= file@.subrange(at + 8, at + 4 + len));
    if checksum(data) as u64 != stored_crc {
        return Err(DbError::ManifestCorrupted);
    }
    Ok(slice_to_vec(data))
}

/// Whether what a search returned is what a model gives.
pub open spec fn search_agrees(
    r: Result<Option<Value>, DbError>,
    model: Result<Option<ValueView>, DbError>,
) -> bool {
    match (r, model) {
        (Ok(v), Ok(m)) => v.deep_view() == m,
        (Err(e), Err(f)) => e == f,
        _ => false,
    }
}

impl Sstable {
    /// Opens a table: the number is the stem of the file's name, `file` the file's contents.
    pub fn new(file_stem: &[u8], file: Vec<u8>) -> (r: Result<Sstable, DbError>)
        ensures
            match number_of(file_stem@, u32::MAX as nat) {
                Some(id) => match (r, parse_table(file@)) {
                    (Ok(table), Ok(v)) => table@ == v && table.id == id,
                    (Err(e), Err(f)) => e == f,
                    _ => false,
                },
                None => r matches Err(e) && e == DbError::ManifestCorrupted,
            },
    {
        let id: u32 = match parse_u32(file_stem) {
            Some(id) => id,
            None => {
                return Err(DbError::ManifestCorrupted);
            },
        };
        let size: usize = file.len();
        if size < 24 {
            return Err(DbError::ManifestCorrupted);
        }
        let ghost foot = file@.skip(file@.len() - 24);
        let footer_data = slice_subrange(file.as_slice(), size - 24, size);
        let offsets = slice_subrange(footer_data, 0, 16);
        let index_offset_bytes = slice_subrange(footer_data, 0, 8);
        let bloom_offset_bytes = slice_subrange(footer_data, 8, 16);
        let crc_bytes = slice_subrange(footer_data, 16, 20);
        proof {
            le::lemma_le_range();
            assert(footer_data@ =~= foot);
            assert(offsets@ =~= foot.subrange(0, 16));
            assert(index_offset_bytes@ =~= foot.subrange(0, 8));
            assert(bloom_offset_bytes@ =~= foot.subrange(8, 16));
            assert(crc_bytes@ =~= foot.subrange(16, 20));
        }
        let index_offset: u64 = get_le(index_offset_bytes);
        let bloom_offset: u64 = get_le(bloom_offset_bytes);
        let stored_checksum: u64 = get_le(crc_bytes);
        let has_magic: bool = footer_data[20] == 0x41 && footer_data[21] == 0x42
            && footer_data[22] == 0x43 && footer_data[23] == 0x44;
        proof {
            let m = foot.subrange(20, 24);
            if has_magic {
                assert(m =~= magic_number());
            } else if m == magic_number() {
                assert(m[0] == foot[20] && m[1] == foot[21] && m[2] == foot[22] && m[3]
                    == foot[23]);
            }
        }
        if !has_magic {
            return Err(DbError::ManifestCorrupted);
        }
        if checksum(offsets) as u64 != stored_checksum {
            return Err(DbError::ManifestCorrupted);
        }
        let bloom_data = match read_block_with_crc_at(file.as_slice(), bloom_offset) {
            Ok(data) => data,
            Err(e) => {
                return Err(e);
            },
        };
        let bloom_filter = match BloomFilter::deserialize(bloom_data.as_slice()) {
            Ok(filter) => filter,
            Err(e) => {
                return Err(e);
            },
        };
        proof {
            assert(bloom_filter@.bitmap.len() <= u64::MAX);
            assert(is_filter_of(bloom_data@, bloom_filter@));
            lemma_filter_of(bloom_data@, bloom_filter@);
        }
        let index_data = match read_block_with_crc_at(file.as_slice(), index_offset) {
            Ok(data) => data,
            Err(e) => {
                return Err(e);
            },
        };
        let mut reader: &[u8] = index_data.as_slice();
        let (min_key, max_key) = match <(Key, Key) as Loggable>::decode(&mut reader) {
            Ok(range) => range,
            Err(e) => {
                return Err(e);
            },
        };
        let index = match read_run::<(Key, Key, u64)>(reader) {
            Ok(index) => index,
            Err(e) => {
                return Err(e);
            },
        };
        Ok(Sstable { id, file, index, bloom_filter, min_key, max_key })
    }

    /// Whether the filter of the table can be asked: its probes fall inside its bits.
    pub fn is_searchable(&self) -> (r: bool)
        ensures
            r == self@.filter.wf(),
    {
        self.bloom_filter.is_valid()
    }

    /// The first block that does not end before `key`.
    fn find_block(&self, key: &[u8]) -> (idx: usize)
        ensures
            self@.is_place(idx as int, key@),
    {
        let target = Key::new(key, u64::MAX);
        let mut low: usize = 0;
        let mut high: usize = self.index.len();
        while low < high
            invariant
                low <= high <= self.index.len(),
                target@ == (KeyView { bytes: key@, lsn: u64::MAX }),
                low > 0 ==> self@.ends_before(low - 1, key@),
                high < self.index.len() ==> !self@.ends_before(high as int, key@),
            decreases high - low,
        {
            let mid: usize = low + (high - low) / 2;
            if self.index[mid].1.before(&target) {
                low = mid + 1;
            } else {
                high = mid;
            }
        }
        low
    }

    /// The latest value of a key, as far as the table knows it; a tombstone where the key
    /// was deleted.
    pub fn search(&self, key_bytes: &[u8]) -> (r: Result<Option<Value>, DbError>)
        requires
            self@.filter.wf(),
        ensures
            exists|model: Result<Option<ValueView>, DbError>|
                search_agrees(r, model) && #[trigger] self@.is_found(key_bytes@, model),
            r matches Ok(v) ==> self@.is_found(
                key_bytes@,
                Ok::<Option<ValueView>, DbError>(v.deep_view()),
            ),
            r matches Err(e) ==> self@.is_found(
                key_bytes@,
                Err::<Option<ValueView>, DbError>(e),
            ),
    {
        let ghost none = Ok::<Option<ValueView>, DbError>(None);
        if !self.bloom_filter.check(key_bytes) {
            assert(self@.is_found(key_bytes@, none));
            return Ok(None);
        }
        if bytes_before(key_bytes, self.min_key.bytes.as_slice()) || bytes_before(
            self.max_key.bytes.as_slice(),
            key_bytes,
        ) {
            assert(self@.is_found(key_bytes@, none));
            return Ok(None);
        }
        let idx: usize = self.find_block(key_bytes);
        let ghost model = self@.search_at(idx as int, key_bytes@);
        assert(self@.is_found(key_bytes@, model));
        if idx >= self.index.len() {
            return Ok(None);
        }
        if bytes_before(key_bytes, self.index[idx].0.bytes.as_slice()) {
            return Ok(None);
        }
        self.search_block(key_bytes, self.index[idx].2)
    }

    fn search_block(&self, key_bytes: &[u8], offset: u64) -> (r: Result<Option<Value>, DbError>)
        ensures
            search_agrees(r, self@.search_block(key_bytes@, offset)),
    {
        let block_data = match read_block_with_crc_at(self.file.as_slice(), offset) {
            Ok(data) => data,
            Err(e) => {
                return Err(e);
            },
        };
        let mut reader: &[u8] = block_data.as_slice();
        let ghost model = self@.search_block(key_bytes@, offset);
        while reader.len() > 0
            invariant
                ({
                    let (es, error) = decode_run::<(Key, Value)>(reader@);
                    model == scan(es, error, key_bytes@)
                }),
                model == self@.search_block(key_bytes@, offset),
            decreases reader@.len(),
        {
            proof {
                <(Key, Value) as Loggable>::lemma_decode_bound(reader@);
            }
            let ghost (es, error) = decode_run::<(Key, Value)>(reader@);
            let (key, value) = match <(Key, Value) as Loggable>::decode(&mut reader) {
                Ok(entry) => entry,
                Err(e) => {
                    return Err(e);
                },
            };
            proof {
                let (rest, _) = decode_run::<(Key, Value)>(reader@);
                assert(es =~= seq![(key@, value@)] + rest);
                assert(es.skip(1) =~= rest);
            }
            if bytes_before(key_bytes, key.bytes.as_slice()) {
                proof {
                    crate::data_stores::key::lemma_bytes_lt_irreflexive(key_bytes@);
                }
                return Ok(None);
            }
            if !bytes_before(key.bytes.as_slice(), key_bytes) {
                proof {
                    crate::data_stores::key::lemma_bytes_lt_total(key@.bytes, key_bytes@);
                }
                return Ok(Some(value));
            }
            proof {
                crate::data_stores::key::lemma_bytes_lt_irreflexive(key_bytes@);
            }
        }
        Ok(None)
    }

    pub fn min_key(&self) -> (key: &Key)
        ensures
            key@ == self@.min_key,
    {
        &self.min_key
    }

    pub fn max_key(&self) -> (key: &Key)
        ensures
            key@ == self@.max_key,
    {
        &self.max_key
    }
}

/// What a step of an iterator returned, as a step of a model.
pub open spec fn step_view(r: Option<Result<(Key, Value), DbError>>) -> Step {
    match r {
        Some(Ok(entry)) => Some(Ok(entry.deep_view())),
        Some(Err(e)) => Some(Err(e)),
        None => None,
    }
}

/// Walks through the entries of a data block.
pub struct BlockIterator {
    data: Vec<u8>,
    pos: usize,
}

impl View for BlockIterator {
    type V = Seq<u8>;

    /// The bytes not yet read.
    closed spec fn view(&self) -> Seq<u8> {
        self.data@.skip(self.pos as int)
    }
}

impl BlockIterator {
    pub closed spec fn wf(&self) -> bool {
        self.pos <= self.data.len()
    }

    pub fn new(data: Vec<u8>) -> (iter: BlockIterator)
        ensures
            iter.wf(),
            iter@ == data@,
    {
        let iter = BlockIterator { data, pos: 0 };
        assert(iter@ =~= data@);
        iter
    }

    fn at_end(&self) -> (r: bool)
        requires
            self.wf(),
        ensures
            r == (self@.len() == 0),
    {
        self.pos >= self.data.len()
    }

    pub fn next(&mut self) -> (r: Option<Result<(Key, Value), DbError>>)
        requires
            old(self).wf(),
        ensures
            final(self).wf(),
            (step_view(r), final(self)@) == block_step(old(self)@),
    {
        proof {
            reveal(block_step);
        }
        if self.pos >= self.data.len() {
            return None;
        }
        let size: usize = self.data.len();
        let whole = slice_subrange(self.data.as_slice(), self.pos, size);
        assert(whole@ =~= self@);
        let mut reader: &[u8] = whole;
        proof {
            <(Key, Value) as Loggable>::lemma_decode_bound(reader@);
        }
        let result = <(Key, Value) as Loggable>::decode(&mut reader);
        let left: usize = reader.len();
        let ghost rest = reader@;
        self.pos = size - left;
        assert(self@ =~= rest);
        match result {
            Ok(entry) => Some(Ok(entry)),
            Err(e) => Some(Err(e)),
        }
    }
}

/// Walks through the entries of a table, block by block.
pub struct SstableIterator {
    sstable: Arc<Sstable>,
    current_block_idx: usize,
    current_block_iter: Option<BlockIterator>,
}

impl View for SstableIterator {
    type V = WalkView;

    closed spec fn view(&self) -> WalkView {
        WalkView {
            table: self.sstable@,
            block: self.current_block_idx as nat,
            rest: match self.current_block_iter {
                Some(iter) => iter@,
                None => Seq::empty(),
            },
        }
    }
}

impl SstableIterator {
    pub closed spec fn wf(&self) -> bool {
        self.current_block_iter matches Some(iter) ==> iter.wf()
    }

    pub fn new(sstable: Arc<Sstable>) -> (iter: SstableIterator)
        ensures
            iter.wf(),
            iter@ == sstable@.walk(),
    {
        SstableIterator { sstable, current_block_idx: 0, current_block_iter: None }
    }

    /// Loads the next block where the current one is used up; `false` at the end.
    fn ensure_block_loaded(&mut self) -> (r: Result<bool, DbError>)
        requires
            old(self).wf(),
        ensures
            final(self).wf(),
            final(self)@.table == old(self)@.table,
            old(self)@.rest.len() > 0 ==> r == Ok::<bool, DbError>(true) && final(self)@ == old(
                self,
            )@ && final(self).current_block_iter is Some,
            old(self)@.rest.len() == 0 && old(self)@.block >= old(self)@.table.index.len() ==> r
                == Ok::<bool, DbError>(false) && final(self)@ == old(self)@,
            old(self)@.rest.len() == 0 && old(self)@.block < old(self)@.table.index.len()
                ==> match read_block(
                old(self)@.table.file,
                old(self)@.table.index[old(self)@.block as int].2 as nat,
            ) {
                Ok(data) => {
                    &&& r == Ok::<bool, DbError>(true)
                    &&& final(self)@.block == old(self)@.block + 1
                    &&& final(self)@.rest == data
                    &&& final(self).current_block_iter is Some
                },
                Err(e) => r == Err::<bool, DbError>(e) && final(self)@ == old(self)@,
            },
    {
        let used_up: bool = match &self.current_block_iter {
            Some(iter) => iter.at_end(),
            None => true,
        };
        if used_up {
            if self.current_block_idx >= self.sstable.index.len() {
                return Ok(false);
            }
            let offset: u64 = self.sstable.index[self.current_block_idx].2;
            match read_block_with_crc_at(self.sstable.file.as_slice(), offset) {
                Ok(data) => {
                    self.current_block_iter = Some(BlockIterator::new(data));
                    self.current_block_idx = self.current_block_idx + 1;
                },
                Err(e) => {
                    return Err(e);
                },
            }
        }
        Ok(true)
    }

    pub fn next(&mut self) -> (r: Option<Result<(Key, Value), DbError>>)
        requires
            old(self).wf(),
        ensures
            final(self).wf(),
            (step_view(r), final(self)@) == old(self)@.step(),
    {
        match self.ensure_block_loaded() {
            Ok(has_more) => {
                if !has_more {
                    return None;
                }
            },
            Err(e) => {
                return Some(Err(e));
            },
        }
        match &mut self.current_block_iter {
            Some(iter) => iter.next(),
            None => None,
        }
    }
}

} // verus!
