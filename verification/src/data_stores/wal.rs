//! The write-ahead log: every write is on disk before it is in memory.
//!
//! A log is a magic number and then entries: a checksum, a key and a value. A log that was
//! cut short in the middle of an entry ends before that entry.

use crate::data_stores::checksum::{checksum, crc32};
use crate::data_stores::file_name::{number_of, parse_u32};
use crate::data_stores::key::{Key, KeyView};
use crate::data_stores::le::{get_le, le_bytes, le_value};
use crate::data_stores::table_format::{entry_bytes, Entry};
use crate::data_stores::value::{Value, ValueView};
use crate::data_stores::{eof, le, Loggable};
use crate::err::{DbError, ErrorView, IoErrorKind};
use vstd::prelude::*;
use vstd::slice::{slice_subrange, slice_to_vec};

verus! {

pub const WAL_EXTENSION: &'static str = ".wal";

pub const WAL_MAGIC: u32 = 0xCAFE_BABE;

/// State of a log that is being written to.
#[derive(Debug)]
pub struct Writable {}

/// State of a log that is old and only read for recovery.
#[derive(Debug)]
pub struct ReadOnly {
    /// What the log's file holds.
    pub contents: Vec<u8>,
}

#[derive(Debug)]
pub struct Wal<S = Writable> {
    pub state: S,
    pub id: u32,
}

/// A proof that bytes were written to a log: only [`Wal::write`] makes one.
#[derive(Debug)]
pub struct WalReceipt {
    written: (),
}

// --- What a log holds ---

/// An entry as it stands in a log.
pub open spec fn log_entry(e: Entry) -> Seq<u8> {
    le_bytes(crc32(entry_bytes(e)) as nat, 4) + entry_bytes(e)
}

/// Entries one after the other.
pub open spec fn log_entries(es: Seq<Entry>) -> Seq<u8>
    decreases es.len(),
{
    if es.len() == 0 {
        Seq::empty()
    } else {
        log_entries(es.drop_last()) + log_entry(es.last())
    }
}

pub open spec fn log_header() -> Seq<u8> {
    le_bytes(WAL_MAGIC as nat, 4)
}

/// What one step of reading a log gives.
pub type LogStep = Option<Result<Entry, ErrorView>>;

/// Reading the entry at the front of `s`: the step, and what is left. An entry that is cut
/// short is the end of the log.
#[verifier::opaque]
pub open spec fn log_step(s: Seq<u8>) -> (LogStep, Seq<u8>) {
    if s.len() < 4 {
        (None, Seq::empty())
    } else {
        match <(Key, Value) as Loggable>::spec_decode(s.skip(4)) {
            (Ok(e), used) => {
                let rest = s.skip((4 + used) as int);
                if crc32(s.subrange(4, (4 + used) as int)) != le_value(s.take(4)) {
                    (Some(Err(ErrorView::DataCorrupted("CRC mismatch"@))), rest)
                } else {
                    (Some(Ok(e)), rest)
                }
            },
            (Err(e), used) => (
                if e == eof() {
                    None
                } else {
                    Some(Err(e@))
                },
                s.skip((4 + used) as int),
            ),
        }
    }
}

/// What reading a log gives up to its end or its first error: the entries, and the error.
pub open spec fn log_stream(s: Seq<u8>) -> (Seq<Entry>, Option<ErrorView>)
    decreases s.len(),
{
    proof {
        reveal(log_step);
        <(Key, Value) as Loggable>::lemma_decode_bound(s.skip(4));
    }
    match log_step(s) {
        (None, _) => (Seq::empty(), None),
        (Some(Err(e)), _) => (Seq::empty(), Some(e)),
        (Some(Ok(e)), rest) => {
            let (es, error) = log_stream(rest);
            (seq![e] + es, error)
        },
    }
}

/// What opening a log for reading comes to: what follows the magic number.
pub open spec fn log_body(contents: Seq<u8>) -> Result<Seq<u8>, ErrorView> {
    if contents.len() < 4 {
        Err(ErrorView::Io(IoErrorKind::UnexpectedEof))
    } else if le_value(contents.take(4)) != WAL_MAGIC {
        Err(ErrorView::DataCorrupted("Invalid WAL Magic"@))
    } else {
        Ok(contents.skip(4))
    }
}

// --- What was logged is read back ---

proof fn lemma_log_entries_first(es: Seq<Entry>)
    requires
        es.len() > 0,
    ensures
        log_entries(es) == log_entry(es[0]) + log_entries(es.skip(1)),
    decreases es.len(),
{
    reveal_with_fuel(log_entries, 2);
    if es.len() == 1 {
        assert(es.drop_last() =~= Seq::<Entry>::empty());
        assert(es.skip(1) =~= Seq::<Entry>::empty());
        assert(log_entries(es) =~= log_entry(es[0]) + log_entries(es.skip(1)));
    } else {
        lemma_log_entries_first(es.drop_last());
        assert(es.drop_last().skip(1) =~= es.skip(1).drop_last());
        assert(log_entries(es) =~= log_entry(es[0]) + log_entries(es.skip(1)));
    }
}

/// An entry is read back, whatever follows it.
pub proof fn lemma_log_step(e: Entry, rest: Seq<u8>)
    requires
        <(Key, Value) as Loggable>::encodable(e),
    ensures
        log_step(log_entry(e) + rest) == (Some(Ok::<Entry, ErrorView>(e)), rest),
        log_entry(e).len() > 4,
{
    reveal(log_step);
    le::lemma_le_range();
    let b = entry_bytes(e);
    let crc = crc32(b);
    let s = log_entry(e) + rest;
    le::lemma_le_bytes_len(crc as nat, 4);
    le::lemma_le_round_trip(crc as nat, 4);
    <(Key, Value) as Loggable>::lemma_round_trip(e, rest);
    assert(s.take(4) =~= le_bytes(crc as nat, 4));
    assert(s.skip(4) =~= b + rest);
    assert(s.subrange(4, (4 + b.len()) as int) =~= b);
    assert(s.skip((4 + b.len()) as int) =~= rest);
    <(Key, Value) as Loggable>::lemma_decode_bound(b + rest);
}

proof fn lemma_log_stream_step(s: Seq<u8>, e: Entry, rest: Seq<u8>)
    requires
        log_step(s) == (Some(Ok::<Entry, ErrorView>(e)), rest),
    ensures
        log_stream(s) == (seq![e] + log_stream(rest).0, log_stream(rest).1),
{
}

/// Reading a log gives back every entry that was logged, in order; what follows them is
/// read as if it stood alone.
pub proof fn lemma_log_reads_back(es: Seq<Entry>, rest: Seq<u8>)
    requires
        forall|i: int|
            0 <= i < es.len() ==> <(Key, Value) as Loggable>::encodable(#[trigger] es[i]),
    ensures
        log_stream(log_entries(es) + rest) == (es + log_stream(rest).0, log_stream(rest).1),
    decreases es.len(),
{
    let s = log_entries(es) + rest;
    if es.len() == 0 {
        assert(s =~= rest);
        assert(es + log_stream(rest).0 =~= log_stream(rest).0);
    } else {
        let tail = es.skip(1);
        let after = log_entries(tail) + rest;
        lemma_log_entries_first(es);
        assert(s =~= log_entry(es[0]) + after);
        lemma_log_step(es[0], after);
        lemma_log_stream_step(s, es[0], after);
        lemma_log_reads_back(tail, rest);
        assert(seq![es[0]] + (tail + log_stream(rest).0) =~= es + log_stream(rest).0);
    }
}

/// A key that is cut short cannot be read.
proof fn lemma_key_truncated(k: KeyView, n: int)
    requires
        Key::encodable(k),
        0 <= n < Key::spec_encode(k).len(),
    ensures
        Key::spec_decode(Key::spec_encode(k).take(n)).0 == Err::<KeyView, DbError>(eof()),
{
    le::lemma_le_range();
    let len = k.bytes.len();
    le::lemma_le_bytes_len(k.lsn as nat, 8);
    le::lemma_le_bytes_len(len, 2);
    le::lemma_le_round_trip(len, 2);
    let s = Key::spec_encode(k).take(n);
    if n >= 10 {
        assert(s.skip(8).take(2) =~= le_bytes(len, 2));
    }
}

/// A value that is cut short cannot be read.
proof fn lemma_value_truncated(v: ValueView, n: int)
    requires
        Value::encodable(v),
        0 <= n < Value::spec_encode(v).len(),
    ensures
        Value::spec_decode(Value::spec_encode(v).take(n)).0 == Err::<ValueView, DbError>(eof()),
{
    le::lemma_le_range();
    let len = v.payload().len();
    le::lemma_le_bytes_len(v.meta() as nat, 1);
    le::lemma_le_bytes_len(len, 4);
    le::lemma_le_round_trip(len, 4);
    let s = Value::spec_encode(v).take(n);
    if n >= 5 {
        assert(s.skip(1).take(4) =~= le_bytes(len, 4));
    }
}

/// An entry that is cut short ends the log.
proof fn lemma_log_step_truncated(e: Entry, n: int)
    requires
        <(Key, Value) as Loggable>::encodable(e),
        0 <= n < log_entry(e).len(),
    ensures
        log_step(log_entry(e).take(n)).0 is None,
{
    reveal(log_step);
    let k = Key::spec_encode(e.0);
    let v = Value::spec_encode(e.1);
    let s = log_entry(e).take(n);
    le::lemma_le_bytes_len(crc32(entry_bytes(e)) as nat, 4);
    if n >= 4 {
        let m = n - 4;
        if m < k.len() {
            assert(s.skip(4) =~= k.take(m));
            lemma_key_truncated(e.0, m);
        } else {
            assert(s.skip(4) =~= k + v.take(m - k.len()));
            Key::lemma_round_trip(e.0, v.take(m - k.len()));
            assert((k + v.take(m - k.len())).skip(k.len() as int) =~= v.take(m - k.len()));
            lemma_value_truncated(e.1, m - k.len());
        }
    }
}

/// A log that was cut short in the middle of an entry gives back the entries before it, and
/// no error.
pub proof fn lemma_log_truncated(es: Seq<Entry>, e: Entry, n: int)
    requires
        forall|i: int|
            0 <= i < es.len() ==> <(Key, Value) as Loggable>::encodable(#[trigger] es[i]),
        <(Key, Value) as Loggable>::encodable(e),
        0 <= n < log_entry(e).len(),
    ensures
        log_stream(log_entries(es) + log_entry(e).take(n)) == (es, None::<ErrorView>),
{
    lemma_log_step_truncated(e, n);
    lemma_log_reads_back(es, log_entry(e).take(n));
    assert(es + Seq::<Entry>::empty() =~= es);
}

/// Reading a log ends at its first error: the entries before it are given, and then the error.
pub proof fn lemma_log_damaged(es: Seq<Entry>, rest: Seq<u8>, e: ErrorView)
    requires
        forall|i: int|
            0 <= i < es.len() ==> <(Key, Value) as Loggable>::encodable(#[trigger] es[i]),
        log_step(rest).0 == Some(Err::<Entry, ErrorView>(e)),
    ensures
        log_stream(log_entries(es) + rest) == (es, Some(e)),
{
    lemma_log_reads_back(es, rest);
    assert(es + Seq::<Entry>::empty() =~= es);
}

/// A checksum that is not that of the entry behind it is an error, also where the entry can be
/// read: the entries before it are given, and then the error.
pub proof fn lemma_log_corrupted(es: Seq<Entry>, crc: Seq<u8>, e: Entry, rest: Seq<u8>)
    requires
        forall|i: int|
            0 <= i < es.len() ==> <(Key, Value) as Loggable>::encodable(#[trigger] es[i]),
        <(Key, Value) as Loggable>::encodable(e),
        crc.len() == 4,
        le_value(crc) != crc32(entry_bytes(e)),
    ensures
        log_stream(log_entries(es) + (crc + entry_bytes(e) + rest)) == (
            es,
            Some(ErrorView::DataCorrupted("CRC mismatch"@)),
        ),
{
    reveal(log_step);
    let b = entry_bytes(e);
    let bad = crc + b + rest;
    assert(bad.take(4) =~= crc);
    assert(bad.skip(4) =~= b + rest);
    <(Key, Value) as Loggable>::lemma_round_trip(e, rest);
    assert(bad.subrange(4, (4 + b.len()) as int) =~= b);
    lemma_log_damaged(es, bad, ErrorView::DataCorrupted("CRC mismatch"@));
}

impl Wal<Writable> {
    /// Opens a log for appending, given what its file holds: also the bytes to append first.
    /// A file that is empty is given the magic number; any other is checked for it.
    pub fn open(contents: &[u8], wal_id: u32) -> (r: Result<(Wal<Writable>, Vec<u8>), DbError>)
        ensures
            match r {
                Ok((wal, header)) => {
                    &&& wal.id == wal_id
                    &&& contents@.len() == 0 || (contents@.len() >= 4 && le_value(
                        contents@.take(4),
                    ) == WAL_MAGIC)
                    &&& header@ == (if contents@.len() == 0 {
                        log_header()
                    } else {
                        Seq::empty()
                    })
                },
                Err(e) => {
                    &&& contents@.len() > 0
                    &&& contents@.len() < 4 ==> e@ == ErrorView::Io(IoErrorKind::UnexpectedEof)
                    &&& contents@.len() >= 4 ==> le_value(contents@.take(4)) != WAL_MAGIC && e@
                        == ErrorView::DataCorrupted("Invalid WAL Magic in mutable WAL"@)
                },
            },
    {
        let wal = Wal { state: Writable {  }, id: wal_id };
        if contents.len() == 0 {
            let mut header: Vec<u8> = Vec::new();
            WAL_MAGIC.encode(&mut header);
            assert(header@ =~= log_header());
            return Ok((wal, header));
        }
        if contents.len() < 4 {
            return Err(DbError::Io(IoErrorKind::UnexpectedEof));
        }
        let magic = slice_subrange(contents, 0, 4);
        proof {
            assert(magic@ =~= contents@.take(4));
            le::lemma_le_range();
        }
        if get_le(magic) != WAL_MAGIC as u64 {
            return Err(
                DbError::DataCorrupted(String::from_str("Invalid WAL Magic in mutable WAL")),
            );
        }
        Ok((wal, Vec::new()))
    }

    /// What a write to the log comes to, given how writing and syncing its file went.
    pub fn write(&self, synced: Result<(), DbError>) -> (r: Result<WalReceipt, DbError>)
        ensures
            r is Ok <==> synced is Ok,
            r matches Err(e) ==> e == synced->Err_0,
    {
        match synced {
            Ok(()) => Ok(WalReceipt { written: () }),
            Err(e) => Err(e),
        }
    }

    /// Appends an entry to `writer`: a checksum, the key and the value.
    pub fn encode_entry(writer: &mut Vec<u8>, key: &Key, value: &Value) -> (r: Result<(), DbError>)
        ensures
            r is Ok,
            final(writer)@ == old(writer)@ + log_entry((key@, value@)),
    {
        let mut entry: Vec<u8> = Vec::new();
        key.encode(&mut entry);
        value.encode(&mut entry);
        assert(entry@ =~= entry_bytes((key@, value@)));
        checksum(entry.as_slice()).encode(writer);
        writer.extend_from_slice(entry.as_slice());
        assert(writer@ =~= old(writer)@ + log_entry((key@, value@)));
        Ok(())
    }
}

impl Wal<ReadOnly> {
    /// Opens a log for reading, given the stem of its file's name and what the file holds. A
    /// name that is no number counts as zero.
    pub fn open(file_stem: &[u8], contents: Vec<u8>) -> (wal: Wal<ReadOnly>)
        ensures
            wal.state.contents == contents,
            wal.id == match number_of(file_stem@, u32::MAX as nat) {
                Some(id) => id,
                None => 0,
            },
    {
        let id: u32 = match parse_u32(file_stem) {
            Some(id) => id,
            None => 0,
        };
        Wal { state: ReadOnly { contents }, id }
    }

    pub fn try_iter(&self) -> (r: Result<WalIterator, DbError>)
        ensures
            match (r, log_body(self.state.contents@)) {
                (Ok(iter), Ok(body)) => iter.wf() && iter@ == body,
                (Err(e), Err(f)) => e@ == f,
                _ => false,
            },
    {
        let contents = self.state.contents.as_slice();
        if contents.len() < 4 {
            return Err(DbError::Io(IoErrorKind::UnexpectedEof));
        }
        let magic = slice_subrange(contents, 0, 4);
        proof {
            assert(magic@ =~= contents@.take(4));
            le::lemma_le_range();
        }
        if get_le(magic) != WAL_MAGIC as u64 {
            return Err(DbError::DataCorrupted(String::from_str("Invalid WAL Magic")));
        }
        let body = slice_subrange(contents, 4, contents.len());
        assert(body@ =~= contents@.skip(4));
        let iter = WalIterator { data: slice_to_vec(body), pos: 0 };
        assert(iter@ =~= body@);
        Ok(iter)
    }
}

/// Whether what a step of an iterator returned is what the model gives.
pub open spec fn log_step_agrees(r: Option<Result<(Key, Value), DbError>>, model: LogStep) -> bool {
    match (r, model) {
        (Some(Ok(entry)), Some(Ok(e))) => entry.deep_view() == e,
        (Some(Err(e)), Some(Err(f))) => e@ == f,
        (None, None) => true,
        _ => false,
    }
}

/// Walks through the entries of a log.
pub struct WalIterator {
    data: Vec<u8>,
    pos: usize,
}

impl View for WalIterator {
    type V = Seq<u8>;

    /// The bytes not yet read.
    closed spec fn view(&self) -> Seq<u8> {
        self.data@.skip(self.pos as int)
    }
}

impl WalIterator {
    pub closed spec fn wf(&self) -> bool {
        self.pos <= self.data.len()
    }

    pub fn next(&mut self) -> (r: Option<Result<(Key, Value), DbError>>)
        requires
            old(self).wf(),
        ensures
            final(self).wf(),
            log_step_agrees(r, log_step(old(self)@).0),
            final(self)@ == log_step(old(self)@).1,
    {
        proof {
            reveal(log_step);
        }
        let size: usize = self.data.len();
        let whole = slice_subrange(self.data.as_slice(), self.pos, size);
        let ghost s = self@;
        assert(whole@ =~= s);
        if whole.len() < 4 {
            self.pos = size;
            assert(self@ =~= Seq::<u8>::empty());
            return None;
        }
        let crc_bytes = slice_subrange(whole, 0, 4);
        let body = slice_subrange(whole, 4, whole.len());
        proof {
            assert(crc_bytes@ =~= s.take(4));
            assert(body@ =~= s.skip(4));
            le::lemma_le_range();
            <(Key, Value) as Loggable>::lemma_decode_bound(body@);
        }
        let stored_crc: u64 = get_le(crc_bytes);
        let ghost used = <(Key, Value) as Loggable>::spec_decode(body@).1;
        let mut reader: &[u8] = body;
        let result = <(Key, Value) as Loggable>::decode(&mut reader);
        let left: usize = reader.len();
        let consumed = slice_subrange(body, 0, body.len() - left);
        proof {
            assert(consumed@ =~= s.subrange(4, (4 + used) as int));
        }
        let calculated_crc: u32 = checksum(consumed);
        self.pos = size - left;
        assert(self@ =~= s.skip((4 + used) as int));
        match result {
            Ok(entry) => {
                if calculated_crc as u64 != stored_crc {
                    Some(Err(DbError::DataCorrupted(String::from_str("CRC mismatch"))))
                } else {
                    Some(Ok(entry))
                }
            },
            Err(DbError::Io(IoErrorKind::UnexpectedEof)) => None,
            Err(e) => Some(Err(e)),
        }
    }
}

} // verus!
