//! The byte formats: where the parts of a number, a key, a value, an entry, a block and a table
//! stand, and what is checked when they are read.

use crate::data_stores::bloom_filter::BloomView;
use crate::data_stores::checksum::crc32;
use crate::data_stores::key::{bytes_lt, key_lt, lemma_bytes_lt_irreflexive, Key, KeyView};
use crate::data_stores::le::{le_bytes, le_value};
use crate::data_stores::table_format::{
    blocks_of, cut, data_bytes, entry_bytes, filter_of, footer, frame, index_payload,
    is_filter_of, make_room, parse_table, payload, read_block, table_bytes, Entry,
};
use crate::data_stores::value::{twos_complement, Value, ValueView};
use crate::data_stores::wal::{log_body, log_entry, log_header, log_step};
use crate::data_stores::tuples::decode_run;
use crate::data_stores::{
    decode_items, encode_items, le, lemma_blob_is_byte_vector, lemma_encode_items_first, Loggable,
};
use crate::err::{DbError, ErrorView, IoErrorKind};
use vstd::prelude::*;
use vstd::utf8::{decode_utf8, encode_utf8, valid_utf8};

verus! {

// --- Numbers ---

/// The least significant byte of a number comes first.
pub proof fn lemma_numbers(s: Seq<u8>)
    ensures
        s.len() == 1 ==> le_value(s) == s[0],
        s.len() == 2 ==> le_value(s) == s[0] + 0x100 * s[1],
        s.len() == 4 ==> le_value(s) == s[0] + 0x100 * s[1] + 0x1_0000 * s[2] + 0x100_0000 * s[3],
        s.len() == 8 ==> le_value(s) == s[0] + 0x100 * s[1] + 0x1_0000 * s[2] + 0x100_0000 * s[3]
            + 0x1_0000_0000 * s[4] + 0x100_0000_0000 * s[5] + 0x1_0000_0000_0000 * s[6]
            + 0x100_0000_0000_0000 * s[7],
{
    reveal_with_fuel(le_value, 9);
    assert forall|i: int, j: int| 0 <= i && 0 <= j && i + j <= s.len() implies #[trigger] s.skip(
        i,
    ).skip(j) == s.skip(i + j) by {
        assert(s.skip(i).skip(j) =~= s.skip(i + j));
    }
}

// --- Keys and values ---

/// A key stands as its LSN in eight bytes, its length in two, and its bytes.
pub proof fn lemma_key_layout(k: KeyView)
    requires
        k.bytes.len() <= 65535,
    ensures
        Key::encodable(k),
        ({
            let s = Key::spec_encode(k);
            &&& s.len() == 10 + k.bytes.len()
            &&& le_value(s.subrange(0, 8)) == k.lsn
            &&& le_value(s.subrange(8, 10)) == k.bytes.len()
            &&& s.skip(10) == k.bytes
        }),
{
    le::lemma_le_range();
    let s = Key::spec_encode(k);
    le::lemma_le_bytes_len(k.lsn as nat, 8);
    le::lemma_le_bytes_len(k.bytes.len(), 2);
    le::lemma_le_round_trip(k.lsn as nat, 8);
    le::lemma_le_round_trip(k.bytes.len(), 2);
    assert(s.subrange(0, 8) =~= le_bytes(k.lsn as nat, 8));
    assert(s.subrange(8, 10) =~= le_bytes(k.bytes.len(), 2));
    assert(s.skip(10) =~= k.bytes);
}

/// A key that is read has the LSN and the bytes that stand there, as many as its length says;
/// it cannot be read where there are fewer.
pub proof fn lemma_key_read(s: Seq<u8>)
    ensures
        ({
            let len = le_value(s.subrange(8, 10));
            &&& Key::spec_decode(s).0 is Ok <==> s.len() >= 10 && s.len() >= 10 + len
            &&& Key::spec_decode(s).0 matches Ok(k) ==> {
                &&& k.lsn == le_value(s.subrange(0, 8))
                &&& k.bytes == s.subrange(10, (10 + len) as int)
                &&& Key::spec_decode(s).1 == 10 + len
            }
            &&& Key::spec_decode(s).0 matches Err(e) ==> e == DbError::Io(
                IoErrorKind::UnexpectedEof,
            ) && Key::spec_decode(s).1 == s.len()
        }),
{
    le::lemma_le_range();
    if s.len() >= 10 {
        assert(s.take(8) =~= s.subrange(0, 8));
        assert(s.skip(8).take(2) =~= s.subrange(8, 10));
        le::lemma_le_value_bound(s.take(8));
        let len = le_value(s.subrange(8, 10));
        if s.len() >= 10 + len {
            assert(s.skip(10).take(len as int) =~= s.subrange(10, (10 + len) as int));
        }
    }
}

/// A value stands as a byte for its type, the length of what follows in four bytes, and its
/// bytes: 0 for bytes, 2 for text, 4 for a number in eight bytes and 1 for a delete.
pub proof fn lemma_value_layout(v: ValueView)
    requires
        v matches ValueView::Bytes(b) ==> b.len() <= u32::MAX,
        v matches ValueView::Str(t) ==> encode_utf8(t).len() <= u32::MAX,
    ensures
        Value::encodable(v),
        ({
            let s = Value::spec_encode(v);
            &&& s.len() >= 5
            &&& le_value(s.subrange(1, 5)) == s.len() - 5
            &&& match v {
                ValueView::Bytes(b) => s[0] == 0 && s.skip(5) == b,
                ValueView::Str(t) => s[0] == 2 && s.skip(5) == encode_utf8(t),
                ValueView::Int(i) => {
                    &&& s[0] == 4
                    &&& s.len() == 13
                    &&& i >= 0 ==> le_value(s.skip(5)) == i
                    &&& i < 0 ==> le_value(s.skip(5)) == i + 0x1_0000_0000_0000_0000
                },
                ValueView::Tombstone => s[0] == 1 && s.len() == 5,
            }
        }),
{
    le::lemma_le_range();
    let s = Value::spec_encode(v);
    let p = v.payload();
    if let ValueView::Int(i) = v {
        le::lemma_le_bytes_len(twos_complement(i), 8);
        le::lemma_le_round_trip(twos_complement(i), 8);
    }
    le::lemma_le_bytes_len(v.meta() as nat, 1);
    le::lemma_le_bytes_len(p.len(), 4);
    le::lemma_le_round_trip(v.meta() as nat, 1);
    le::lemma_le_round_trip(p.len(), 4);
    lemma_numbers(le_bytes(v.meta() as nat, 1));
    assert(s[0] == le_bytes(v.meta() as nat, 1)[0]);
    assert(s.subrange(1, 5) =~= le_bytes(p.len(), 4));
    assert(s.skip(5) =~= p);
}

/// What a value reads as: any odd type is a delete; of the even ones 0 is bytes, 2 is text, which
/// is empty where it is not UTF-8, 4 is a number, which needs eight bytes, and the others
/// cannot be read.
pub proof fn lemma_value_read(s: Seq<u8>)
    ensures
        s.len() < 5 || s.len() < 5 + le_value(s.subrange(1, 5)) ==> (
        Value::spec_decode(s).0 matches Err(e) && e == DbError::Io(IoErrorKind::UnexpectedEof)),
        s.len() >= 5 && s.len() >= 5 + le_value(s.subrange(1, 5)) ==> {
            let len = le_value(s.subrange(1, 5));
            let p = s.subrange(5, (5 + len) as int);
            let r = Value::spec_decode(s).0;
            &&& Value::spec_decode(s).1 == 5 + len
            &&& s[0] % 2 == 1 ==> r == Ok::<ValueView, DbError>(ValueView::Tombstone)
            &&& s[0] == 0 ==> r == Ok::<ValueView, DbError>(ValueView::Bytes(p))
            &&& s[0] == 2 && valid_utf8(p) ==> r == Ok::<ValueView, DbError>(
                ValueView::Str(decode_utf8(p)),
            )
            &&& s[0] == 2 && !valid_utf8(p) ==> r == Ok::<ValueView, DbError>(
                ValueView::Str(Seq::empty()),
            )
            &&& s[0] == 4 && len >= 8 ==> (r matches Ok(v) && v matches ValueView::Int(i) && (i
                == le_value(p.take(8)) || i == le_value(p.take(8)) - 0x1_0000_0000_0000_0000))
            &&& s[0] == 4 && len < 8 ==> r == Err::<ValueView, DbError>(
                DbError::ManifestCorrupted,
            )
            &&& s[0] % 2 == 0 && s[0] > 4 ==> r == Err::<ValueView, DbError>(
                DbError::ManifestCorrupted,
            )
        },
{
    le::lemma_le_range();
    if s.len() >= 1 {
        assert(s.take(1)[0] == s[0]);
        lemma_numbers(s.take(1));
        if s.len() >= 5 {
            assert(s.skip(1).take(4) =~= s.subrange(1, 5));
            let len = le_value(s.subrange(1, 5));
            if s.len() >= 5 + len {
                let p = s.subrange(5, (5 + len) as int);
                assert(s.skip(1).skip(4).take(len as int) =~= p);
                if len >= 8 {
                    le::lemma_le_value_bound(p.take(8));
                }
            }
        }
    }
}

/// How long the bytes of a value are.
pub proof fn lemma_payload_len(v: ValueView)
    ensures
        match v {
            ValueView::Bytes(b) => v.payload().len() == b.len(),
            ValueView::Str(t) => v.payload().len() == encode_utf8(t).len(),
            ValueView::Int(_) => v.payload().len() == 8,
            ValueView::Tombstone => v.payload().len() == 0,
        },
{
    if let ValueView::Int(i) = v {
        le::lemma_le_bytes_len(twos_complement(i), 8);
    }
}

/// An entry is its key and then its value.
pub proof fn lemma_entry_layout(e: Entry)
    ensures
        entry_bytes(e) == Key::spec_encode(e.0) + Value::spec_encode(e.1),
        entry_bytes(e).len() == 15 + e.0.bytes.len() + e.1.payload().len(),
{
    le::lemma_le_bytes_len(e.0.lsn as nat, 8);
    le::lemma_le_bytes_len((e.0.bytes.len() as u16) as nat, 2);
    le::lemma_le_bytes_len(e.1.meta() as nat, 1);
    le::lemma_le_bytes_len((e.1.payload().len() as u32) as nat, 4);
}

// --- The order of keys ---

/// Of two byte strings, one is before the other where it has the smaller byte at the first
/// place at which they differ, or where it ends and the other goes on.
pub proof fn lemma_bytes_order(a: Seq<u8>, b: Seq<u8>, n: int)
    requires
        0 <= n <= a.len(),
        n <= b.len(),
        forall|i: int| 0 <= i < n ==> a[i] == b[i],
    ensures
        n < a.len() && n < b.len() && a[n] != b[n] ==> (bytes_lt(a, b) <==> a[n] < b[n]),
        n == a.len() ==> (bytes_lt(a, b) <==> n < b.len()),
        n == b.len() ==> !bytes_lt(a, b),
    decreases n,
{
    if n > 0 {
        assert forall|i: int| 0 <= i < n - 1 implies a.skip(1)[i] == b.skip(1)[i] by {
            assert(a[i + 1] == b[i + 1]);
        }
        lemma_bytes_order(a.skip(1), b.skip(1), n - 1);
    }
}

/// Keys are in the order of their bytes; of two versions of a key, the newer one is before the
/// older one.
pub proof fn lemma_key_order(a: KeyView, b: KeyView)
    ensures
        a.bytes != b.bytes ==> (key_lt(a, b) <==> bytes_lt(a.bytes, b.bytes)),
        a.bytes == b.bytes ==> (key_lt(a, b) <==> a.lsn > b.lsn),
{
    lemma_bytes_lt_irreflexive(a.bytes);
}

// --- Logs ---

/// A log starts with four bytes that are always the same.
pub proof fn lemma_log_header()
    ensures
        log_header() == seq![0xBEu8, 0xBAu8, 0xFEu8, 0xCAu8],
{
    reveal_with_fuel(le_bytes, 5);
    assert(log_header() =~= seq![0xBEu8, 0xBAu8, 0xFEu8, 0xCAu8]);
}

/// A log can be read where it starts with those bytes, and only there; what follows them is
/// its entries.
pub proof fn lemma_log_checked(contents: Seq<u8>)
    ensures
        log_body(contents) is Ok <==> contents.len() >= 4 && contents[0] == 0xBE && contents[1]
            == 0xBA && contents[2] == 0xFE && contents[3] == 0xCA,
        log_body(contents) matches Ok(body) ==> body == contents.skip(4),
{
    if contents.len() >= 4 {
        lemma_numbers(contents.take(4));
    }
}

/// An entry of a log is a checksum in four bytes and then the bytes that it is of: those of
/// the entry.
pub proof fn lemma_log_entry_layout(e: Entry)
    ensures
        log_entry(e).len() == 4 + entry_bytes(e).len(),
        log_entry(e).skip(4) == entry_bytes(e),
        le_value(log_entry(e).take(4)) == crc32(entry_bytes(e)),
{
    le::lemma_le_range();
    let crc = crc32(entry_bytes(e)) as nat;
    le::lemma_le_bytes_len(crc, 4);
    le::lemma_le_round_trip(crc, 4);
    assert(log_entry(e).skip(4) =~= entry_bytes(e));
    assert(log_entry(e).take(4) =~= le_bytes(crc, 4));
}

/// An entry is read from a log only where the checksum before it is that of its bytes, and it
/// is read from all of these bytes; where the checksum is another, the log is corrupted.
pub proof fn lemma_log_entry_checked(s: Seq<u8>)
    ensures
        log_step(s).0 matches Some(Ok(e)) ==> {
            let used = <(Key, Value) as Loggable>::spec_decode(s.skip(4)).1;
            &&& s.len() >= 4 + used
            &&& le_value(s.take(4)) == crc32(s.subrange(4, (4 + used) as int))
            &&& <(Key, Value) as Loggable>::spec_decode(s.skip(4)).0 == Ok::<Entry, DbError>(e)
            &&& log_step(s).1 == s.skip((4 + used) as int)
        },
        s.len() >= 4 && <(Key, Value) as Loggable>::spec_decode(s.skip(4)).0 is Ok ==> {
            let used = <(Key, Value) as Loggable>::spec_decode(s.skip(4)).1;
            if le_value(s.take(4)) == crc32(s.subrange(4, (4 + used) as int)) {
                log_step(s).0 matches Some(Ok(_))
            } else {
                log_step(s).0 == Some(
                    Err::<Entry, ErrorView>(ErrorView::DataCorrupted("CRC mismatch"@)),
                )
            }
        },
        s.len() >= 4 && (<(Key, Value) as Loggable>::spec_decode(s.skip(4)).0 matches Err(e) && e
            != DbError::Io(IoErrorKind::UnexpectedEof)) ==> (log_step(s).0 matches Some(Err(_))),
        s.len() < 4 ==> log_step(s).0 is None,
{
    reveal(log_step);
    if s.len() >= 4 {
        <(Key, Value) as Loggable>::lemma_decode_bound(s.skip(4));
    }
}

// --- Blocks ---

/// A block is a length in four bytes, which is that of all that follows it, a checksum in four
/// bytes, and the data that it is of.
pub proof fn lemma_frame_layout(data: Seq<u8>)
    requires
        data.len() + 4 <= u32::MAX,
    ensures
        frame(data).len() == 8 + data.len(),
        le_value(frame(data).subrange(0, 4)) == frame(data).len() - 4,
        le_value(frame(data).subrange(4, 8)) == crc32(data),
        frame(data).skip(8) == data,
{
    le::lemma_le_range();
    let s = frame(data);
    le::lemma_le_bytes_len(data.len() + 4, 4);
    le::lemma_le_bytes_len(crc32(data) as nat, 4);
    le::lemma_le_round_trip(data.len() + 4, 4);
    le::lemma_le_round_trip(crc32(data) as nat, 4);
    assert(s.subrange(0, 4) =~= le_bytes(data.len() + 4, 4));
    assert(s.subrange(4, 8) =~= le_bytes(crc32(data) as nat, 4));
    assert(s.skip(8) =~= data);
}

/// A block is read only where its checksum is that of its data.
pub proof fn lemma_block_checked(file: Seq<u8>, offset: nat)
    ensures
        read_block(file, offset) matches Ok(data) ==> {
            let at = offset as int;
            &&& file.len() >= offset + 8 + data.len()
            &&& le_value(file.subrange(at, at + 4)) == data.len() + 4
            &&& le_value(file.subrange(at + 4, at + 8)) == crc32(data)
            &&& data == file.subrange(at + 8, at + 8 + data.len())
        },
{
}

// --- Cutting entries into blocks ---

spec fn full(b: Seq<Entry>, e: Entry) -> bool {
    payload(b).len() >= 4096 || payload(b).len() + entry_bytes(e).len() > 4096
}

proof fn lemma_cut_blocks(es: Seq<Entry>)
    ensures
        forall|i: int|
            0 <= i < cut(es).0.len() ==> payload(#[trigger] cut(es).0[i]).len() <= 4096
                || cut(es).0[i].len() == 1,
        payload(cut(es).1).len() < 4096,
        forall|i: int|
            0 <= i < cut(es).0.len() - 1 ==> full(
                #[trigger] cut(es).0[i],
                cut(es).0[i + 1][0],
            ),
        cut(es).0.len() > 0 && cut(es).1.len() > 0 ==> full(cut(es).0.last(), cut(es).1[0]),
        cut(es).0.len() > 0 && cut(es).1.len() == 0 ==> payload(cut(es).0.last()).len() >= 4096,
        forall|i: int| 0 <= i < cut(es).0.len() ==> (#[trigger] cut(es).0[i]).len() > 0,
    decreases es.len(),
{
    if es.len() > 0 {
        let before = es.drop_last();
        let e = es.last();
        lemma_cut_blocks(before);
        let (done, open) = cut(before);
        let (done1, open1) = make_room((done, open), e);
        let more = open1.push(e);
        assert(more.drop_last() =~= open1);
        assert(payload(more) == payload(open1) + entry_bytes(e));
        let (done2, open2) = cut(es);
        assert forall|i: int| 0 <= i < done1.len() - 1 implies full(
            #[trigger] done1[i],
            done1[i + 1][0],
        ) by {
            if i < done.len() - 1 {
                assert(full(done[i], done[i + 1][0]));
            }
        }
        assert(done1.len() > 0 ==> full(done1.last(), more[0]));
        assert forall|i: int| 0 <= i < done2.len() - 1 implies full(
            #[trigger] done2[i],
            done2[i + 1][0],
        ) by {
            if i < done1.len() - 1 {
                assert(full(done1[i], done1[i + 1][0]));
            }
        }
    }
}

/// Blocks are cut at 4096 bytes: a block holds no more, unless it holds a single entry, and it
/// ends only where the entry that comes next would make it larger, or where it is full.
pub proof fn lemma_block_sizes(es: Seq<Entry>, i: int)
    requires
        0 <= i < blocks_of(es).len(),
    ensures
        payload(blocks_of(es)[i]).len() <= 4096 || blocks_of(es)[i].len() == 1,
        i < blocks_of(es).len() - 1 ==> payload(blocks_of(es)[i]).len() >= 4096 || payload(
            blocks_of(es)[i],
        ).len() + entry_bytes(blocks_of(es)[i + 1][0]).len() > 4096,
{
    lemma_cut_blocks(es);
    let (done, open) = cut(es);
    if i < done.len() - 1 {
        assert(full(done[i], done[i + 1][0]));
    } else if i == done.len() - 1 && open.len() > 0 {
        assert(full(done.last(), open[0]));
    }
    if i < done.len() {
        assert(payload(done[i]).len() <= 4096 || done[i].len() == 1);
    }
}

/// The data blocks take eight bytes each, and their entries.
pub proof fn lemma_data_size(blocks: Seq<Seq<Entry>>, b: Seq<Entry>)
    ensures
        data_bytes(blocks.push(b)).len() == data_bytes(blocks).len() + 8 + payload(b).len(),
        data_bytes(Seq::empty()).len() == 0,
{
    assert(blocks.push(b).drop_last() =~= blocks);
    le::lemma_le_bytes_len((payload(b).len() + 4) % 0x1_0000_0000, 4);
    le::lemma_le_bytes_len(crc32(payload(b)) as nat, 4);
}

// --- Tables ---

/// A table ends in 24 bytes: where its index and its filter start, a checksum of the two, and
/// four bytes that are always the same. The data blocks are in front, then the index, then
/// the filter.
pub proof fn lemma_table_layout(es: Seq<Entry>, filter: BloomView)
    requires
        table_bytes(es, filter).len() <= u64::MAX,
    ensures
        ({
            let s = table_bytes(es, filter);
            let n = s.len() as int;
            let data = data_bytes(blocks_of(es));
            let index = frame(index_payload(es));
            let bloom = frame(filter.serialized());
            &&& n == data.len() + index.len() + bloom.len() + 24
            &&& s.take(data.len() as int) == data
            &&& le_value(s.subrange(n - 24, n - 16)) == data.len()
            &&& s.subrange(data.len() as int, (data.len() + index.len()) as int) == index
            &&& le_value(s.subrange(n - 16, n - 8)) == data.len() + index.len()
            &&& s.subrange((data.len() + index.len()) as int, n - 24) == bloom
            &&& le_value(s.subrange(n - 8, n - 4)) == crc32(s.subrange(n - 24, n - 8))
            &&& s[n - 4] == 0x41
            &&& s[n - 3] == 0x42
            &&& s[n - 2] == 0x43
            &&& s[n - 1] == 0x44
        }),
{
    le::lemma_le_range();
    let s = table_bytes(es, filter);
    let n = s.len() as int;
    let data = data_bytes(blocks_of(es));
    let index = frame(index_payload(es));
    let bloom = frame(filter.serialized());
    let a = le_bytes((data.len() as u64) as nat, 8);
    let b = le_bytes(((data.len() + index.len()) as u64) as nat, 8);
    let crc = crc32(a + b) as nat;
    le::lemma_le_bytes_len((data.len() as u64) as nat, 8);
    le::lemma_le_bytes_len(((data.len() + index.len()) as u64) as nat, 8);
    le::lemma_le_bytes_len(crc, 4);
    assert(footer(data.len() as u64, (data.len() + index.len()) as u64).len() == 24);
    le::lemma_le_round_trip(data.len(), 8);
    le::lemma_le_round_trip(data.len() + index.len(), 8);
    le::lemma_le_round_trip(crc, 4);
    assert(s.take(data.len() as int) =~= data);
    assert(s.subrange(n - 24, n - 16) =~= a);
    assert(s.subrange(n - 16, n - 8) =~= b);
    assert(s.subrange(n - 24, n - 8) =~= a + b);
    assert(s.subrange(n - 8, n - 4) =~= le_bytes(crc, 4));
    assert(s.subrange(data.len() as int, (data.len() + index.len()) as int) =~= index);
    assert(s.subrange((data.len() + index.len()) as int, n - 24) =~= bloom);
}

/// A file is opened as a table only where it ends in those four bytes, where the checksum
/// before them is that of the two places, and where blocks can be read at both.
pub proof fn lemma_table_checked(file: Seq<u8>)
    requires
        parse_table(file) is Ok,
    ensures
        ({
            let n = file.len() as int;
            &&& n >= 24
            &&& file[n - 4] == 0x41
            &&& file[n - 3] == 0x42
            &&& file[n - 2] == 0x43
            &&& file[n - 1] == 0x44
            &&& le_value(file.subrange(n - 8, n - 4)) == crc32(file.subrange(n - 24, n - 8))
            &&& read_block(file, le_value(file.subrange(n - 24, n - 16))) is Ok
            &&& read_block(file, le_value(file.subrange(n - 16, n - 8))) is Ok
            &&& parse_table(file)->Ok_0.file == file
        }),
        ({
            let n = file.len() as int;
            let t = parse_table(file)->Ok_0;
            let index = read_block(file, le_value(file.subrange(n - 24, n - 16)))->Ok_0;
            let bloom = read_block(file, le_value(file.subrange(n - 16, n - 8)))->Ok_0;
            let (range, used) = <(Key, Key) as Loggable>::spec_decode(index);
            &&& range == Ok::<(KeyView, KeyView), DbError>((t.min_key, t.max_key))
            &&& decode_run::<(Key, Key, u64)>(index.skip(used as int)) == (
                t.index,
                None::<DbError>,
            )
            &&& t.filter.serialized().len() <= bloom.len()
            &&& bloom.take(t.filter.serialized().len() as int) == t.filter.serialized()
        }),
{
    let n = file.len() as int;
    let foot = file.skip(n - 24);
    let magic = foot.subrange(20, 24);
    assert(magic[0] == file[n - 4] && magic[1] == file[n - 3] && magic[2] == file[n - 2]
        && magic[3] == file[n - 1]);
    assert(foot.subrange(0, 16) =~= file.subrange(n - 24, n - 8));
    assert(foot.subrange(16, 20) =~= file.subrange(n - 8, n - 4));
    assert(foot.subrange(0, 8) =~= file.subrange(n - 24, n - 16));
    assert(foot.subrange(8, 16) =~= file.subrange(n - 16, n - 8));
    let bloom = read_block(file, le_value(file.subrange(n - 16, n - 8)))->Ok_0;
    assert(exists|f: BloomView| #[trigger] is_filter_of(bloom, f));
    assert(is_filter_of(bloom, filter_of(bloom)->0));
}

// --- Integers, pairs and text ---

/// An integer is read from as many bytes as it is wide, least significant first.
pub proof fn lemma_integers_read(s: Seq<u8>)
    ensures
        u8::spec_decode(s).0 is Ok <==> s.len() >= 1,
        u16::spec_decode(s).0 is Ok <==> s.len() >= 2,
        u32::spec_decode(s).0 is Ok <==> s.len() >= 4,
        u64::spec_decode(s).0 is Ok <==> s.len() >= 8,
        u8::spec_decode(s).0 matches Ok(x) ==> x == s[0] && u8::spec_decode(s).1 == 1,
        u16::spec_decode(s).0 matches Ok(x) ==> x == le_value(s.take(2)) && u16::spec_decode(s).1
            == 2,
        u32::spec_decode(s).0 matches Ok(x) ==> x == le_value(s.take(4)) && u32::spec_decode(s).1
            == 4,
        u64::spec_decode(s).0 matches Ok(x) ==> x == le_value(s.take(8)) && u64::spec_decode(s).1
            == 8,
{
    le::lemma_le_range();
    if s.len() >= 1 {
        lemma_numbers(s.take(1));
    }
    if s.len() >= 2 {
        le::lemma_le_value_bound(s.take(2));
    }
    if s.len() >= 4 {
        le::lemma_le_value_bound(s.take(4));
    }
    if s.len() >= 8 {
        le::lemma_le_value_bound(s.take(8));
    }
}

/// A pair is read where both of its parts can be read, the second behind the first; the error
/// is that of the first part that cannot be.
pub proof fn lemma_pair_read<A: Loggable, B: Loggable>(s: Seq<u8>)
    ensures
        ({
            let (a, m) = A::spec_decode(s);
            let (b, n) = B::spec_decode(s.skip(m as int));
            let (r, used) = <(A, B) as Loggable>::spec_decode(s);
            &&& r is Ok <==> a is Ok && b is Ok
            &&& r is Ok ==> r->Ok_0.0 == a->Ok_0 && r->Ok_0.1 == b->Ok_0 && used == m + n
            &&& a is Err ==> r is Err && r->Err_0 == a->Err_0
            &&& a is Ok && b is Err ==> r is Err && r->Err_0 == b->Err_0
        }),
{
}

/// Text is read from a list of bytes that are UTF-8.
pub proof fn lemma_text_read(s: Seq<u8>)
    ensures
        ({
            let (b, m) = <Vec<u8> as Loggable>::spec_decode(s);
            let (t, n) = String::spec_decode(s);
            &&& n == m
            &&& t is Ok <==> b is Ok && valid_utf8(b->Ok_0)
            &&& t is Ok ==> t->Ok_0 == decode_utf8(b->Ok_0)
            &&& b is Ok && !valid_utf8(b->Ok_0) ==> t == Err::<Seq<char>, DbError>(
                DbError::ManifestCorrupted,
            )
            &&& b is Err ==> t == Err::<Seq<char>, DbError>(b->Err_0)
        }),
{
    lemma_blob_is_byte_vector(Seq::empty(), s);
}

// --- Lists ---

/// Reading some items is reading the first ones and then the others; where one of them cannot be
/// read, none is given, and the error is that of the first that cannot be.
pub proof fn lemma_items_read<T: Loggable>(a: nat, b: nat, s: Seq<u8>)
    ensures
        ({
            let (x, m) = decode_items::<T>(a, s);
            let (y, n) = decode_items::<T>(b, s.skip(m as int));
            let (z, used) = decode_items::<T>(a + b, s);
            &&& z is Ok <==> x is Ok && y is Ok
            &&& z is Ok ==> z->Ok_0 == x->Ok_0 + y->Ok_0 && used == m + n
            &&& x is Err ==> z is Err && z->Err_0 == x->Err_0
            &&& x is Ok && y is Err ==> z is Err && z->Err_0 == y->Err_0
        }),
        T::spec_decode(s).0 is Ok <==> decode_items::<T>(1, s).0 is Ok,
        T::spec_decode(s).0 matches Ok(v) ==> decode_items::<T>(1, s).0 == Ok::<
            Seq<T::V>,
            DbError,
        >(seq![v]),
        decode_items::<T>(a, s).0 matches Ok(vs) ==> vs.len() == a,
    decreases a,
{
    reveal_with_fuel(decode_items, 2);
    lemma_items_count::<T>(a, s);
    assert(T::spec_decode(s).0 is Ok ==> seq![T::spec_decode(s).0->Ok_0] + Seq::<T::V>::empty()
        =~= seq![T::spec_decode(s).0->Ok_0]);
    if a == 0 {
        assert(s.skip(0) =~= s);
        let (y, n) = decode_items::<T>(b, s);
        if y is Ok {
            assert(Seq::<T::V>::empty() + y->Ok_0 =~= y->Ok_0);
        }
    } else {
        let (v, used) = T::spec_decode(s);
        T::lemma_decode_bound(s);
        if v is Ok {
            let rest = s.skip(used as int);
            lemma_items_read::<T>((a - 1) as nat, b, rest);
            let (x, m) = decode_items::<T>((a - 1) as nat, rest);
            lemma_items_used::<T>((a - 1) as nat, rest);
            assert(rest.skip(m as int) =~= s.skip((used + m) as int));
            let (y, n) = decode_items::<T>(b, rest.skip(m as int));
            if x is Ok && y is Ok {
                assert(seq![v->Ok_0] + (x->Ok_0 + y->Ok_0) =~= (seq![v->Ok_0] + x->Ok_0)
                    + y->Ok_0);
            }
        }
    }
}

proof fn lemma_items_used<T: Loggable>(n: nat, s: Seq<u8>)
    ensures
        decode_items::<T>(n, s).1 <= s.len(),
    decreases n,
{
    if n > 0 {
        T::lemma_decode_bound(s);
        lemma_items_used::<T>((n - 1) as nat, s.skip(T::spec_decode(s).1 as int));
    }
}

proof fn lemma_items_count<T: Loggable>(n: nat, s: Seq<u8>)
    ensures
        decode_items::<T>(n, s).0 matches Ok(vs) ==> vs.len() == n,
    decreases n,
{
    if n > 0 {
        lemma_items_count::<T>((n - 1) as nat, s.skip(T::spec_decode(s).1 as int));
    }
}

/// Items that fill their space are read to the first that cannot be; what was written before
/// it is read in any case.
pub proof fn lemma_run_read<T: Loggable>(items: Seq<T::V>, rest: Seq<u8>)
    requires
        forall|i: int| 0 <= i < items.len() ==> T::encodable(#[trigger] items[i]),
    ensures
        decode_run::<T>(encode_items::<T>(items) + rest) == (
            items + decode_run::<T>(rest).0,
            decode_run::<T>(rest).1,
        ),
        rest.len() == 0 ==> decode_run::<T>(rest) == (Seq::<T::V>::empty(), None::<DbError>),
        rest.len() > 0 ==> (T::spec_decode(rest).0 matches Err(e) ==> decode_run::<T>(rest) == (
            Seq::<T::V>::empty(),
            Some(e),
        )),
    decreases items.len(),
{
    let s = encode_items::<T>(items) + rest;
    if items.len() == 0 {
        assert(s =~= rest);
        assert(items + decode_run::<T>(rest).0 =~= decode_run::<T>(rest).0);
    } else {
        let tail = items.skip(1);
        let first = T::spec_encode(items[0]);
        let after = encode_items::<T>(tail) + rest;
        lemma_encode_items_first::<T>(items);
        assert(s =~= first + after);
        T::lemma_round_trip(items[0], after);
        T::lemma_decode_bound(s);
        assert(s.skip(first.len() as int) =~= after);
        lemma_run_read::<T>(tail, rest);
        assert(seq![items[0]] + (tail + decode_run::<T>(rest).0) =~= items + decode_run::<T>(
            rest,
        ).0);
    }
}

/// A list is its length in four bytes, and its items one after the other.
pub proof fn lemma_list_layout<T: Loggable>(items: Seq<T::V>, more: Seq<T::V>)
    ensures
        encode_items::<T>(items + more) == encode_items::<T>(items) + encode_items::<T>(more),
        items.len() == 1 ==> encode_items::<T>(items) == T::spec_encode(items[0]),
        items.len() <= u32::MAX ==> {
            let s = <Vec<T> as Loggable>::spec_encode(items);
            &&& s.len() >= 4
            &&& le_value(s.take(4)) == items.len()
            &&& s.skip(4) == encode_items::<T>(items)
        },
        <Vec<T> as Loggable>::encodable(items) <==> items.len() <= u32::MAX && forall|i: int|
            0 <= i < items.len() ==> T::encodable(#[trigger] items[i]),
    decreases more.len(),
{
    reveal_with_fuel(encode_items, 2);
    if more.len() == 0 {
        assert(items + more =~= items);
        assert(encode_items::<T>(items) + encode_items::<T>(more) =~= encode_items::<T>(items));
    } else {
        assert((items + more).drop_last() =~= items + more.drop_last());
        lemma_list_layout::<T>(items, more.drop_last());
        assert(encode_items::<T>(items + more) =~= encode_items::<T>(items) + encode_items::<T>(
            more,
        ));
    }
    if items.len() == 1 {
        assert(items.drop_last() =~= Seq::<T::V>::empty());
        assert(encode_items::<T>(items) =~= T::spec_encode(items[0]));
    }
    if items.len() <= u32::MAX {
        le::lemma_le_range();
        le::lemma_le_bytes_len(items.len(), 4);
        le::lemma_le_round_trip(items.len(), 4);
        let s = <Vec<T> as Loggable>::spec_encode(items);
        assert(s.take(4) =~= le_bytes(items.len(), 4));
        assert(s.skip(4) =~= encode_items::<T>(items));
    }
}

} // verus!
