//! The data stores and the byte format that they share.

use crate::data_stores::le::{get_le, le_bytes, le_range, le_value, put_le};
use crate::data_stores::utf8::string_from_utf8;
use crate::err::{DbError, IoErrorKind};
use vstd::prelude::*;
use vstd::slice::{slice_subrange, slice_to_vec};
use vstd::utf8::{decode_utf8, encode_utf8, valid_utf8};

pub mod block;
pub mod bloom_filter;
pub mod checksum;
pub mod file_name;
pub mod key;
pub mod layout;
pub mod le;
pub mod manifest;
pub mod memtable;
pub mod sstable;
pub mod table_format;
pub mod tables;
pub mod tuples;
pub mod utf8;
pub mod value;
pub mod versions;
pub mod views;
pub mod wal;

verus! {

/// The error of a read that runs past the end of the input.
pub open spec fn eof() -> DbError {
    DbError::Io(IoErrorKind::UnexpectedEof)
}

/// What decoding a byte sequence comes to: the value or the error, and how many
/// bytes were consumed. A read past the end consumes everything.
pub type Decoded<V> = (Result<V, DbError>, nat);

/// Whether an executable result is the one that the model gives.
pub open spec fn agrees<T: DeepView>(r: Result<T, DbError>, model: Result<T::V, DbError>) -> bool {
    match (r, model) {
        (Ok(x), Ok(v)) => x.deep_view() == v,
        (Err(e), Err(f)) => e == f,
        _ => false,
    }
}

/// A type that can be written to a log (WAL, manifest, SSTable block): everything
/// on disk is a byte sequence.
pub trait Loggable: DeepView + Sized {
    /// The bytes that stand for a value.
    spec fn spec_encode(v: Self::V) -> Seq<u8>;

    /// What reading a value from the front of `s` comes to.
    spec fn spec_decode(s: Seq<u8>) -> Decoded<Self::V>;

    /// The values whose length fields have room for their lengths.
    spec fn encodable(v: Self::V) -> bool;

    /// Decoding never consumes more than there is, and a value takes up at least a byte.
    proof fn lemma_decode_bound(s: Seq<u8>)
        ensures
            Self::spec_decode(s).1 <= s.len(),
            Self::spec_decode(s).0 is Ok ==> Self::spec_decode(s).1 > 0,
    ;

    /// Decoding what was encoded gives the value back, whatever follows it.
    proof fn lemma_round_trip(v: Self::V, rest: Seq<u8>)
        requires
            Self::encodable(v),
        ensures
            Self::spec_decode(Self::spec_encode(v) + rest) == (
                Ok::<Self::V, DbError>(v),
                Self::spec_encode(v).len(),
            ),
    ;

    /// Appends the value to `writer`.
    fn encode(&self, writer: &mut Vec<u8>)
        ensures
            final(writer)@ == old(writer)@ + Self::spec_encode(self.deep_view()),
    ;

    /// Reads a value from the front of `reader` and advances it.
    fn decode(reader: &mut &[u8]) -> (r: Result<Self, DbError>)
        ensures
            agrees(r, Self::spec_decode(old(reader)@).0),
            final(reader)@ == old(reader)@.skip(Self::spec_decode(old(reader)@).1 as int),
    ;
}

// --- Integers ---

/// Reading `width` raw bytes from the front of `s`.
pub open spec fn decode_raw(s: Seq<u8>, width: nat) -> Decoded<Seq<u8>> {
    if s.len() < width {
        (Err(eof()), s.len())
    } else {
        (Ok(s.take(width as int)), width)
    }
}

/// Reading a little-endian number of `width` bytes from the front of `s`.
pub open spec fn decode_le(s: Seq<u8>, width: nat) -> Decoded<nat> {
    match decode_raw(s, width) {
        (Ok(b), n) => (Ok(le_value(b)), n),
        (Err(e), n) => (Err(e), n),
    }
}

pub proof fn lemma_decode_le_bound(s: Seq<u8>, width: nat)
    ensures
        decode_le(s, width).1 <= s.len(),
        decode_le(s, width).0 matches Ok(x) ==> x < le_range(width),
{
    if s.len() >= width {
        le::lemma_le_value_bound(s.take(width as int));
    }
}

pub proof fn lemma_decode_le_round_trip(x: nat, width: nat, rest: Seq<u8>)
    requires
        x < le_range(width),
    ensures
        decode_le(le_bytes(x, width) + rest, width) == (Ok::<nat, DbError>(x), width),
{
    le::lemma_le_bytes_len(x, width);
    le::lemma_le_round_trip(x, width);
    assert((le_bytes(x, width) + rest).take(width as int) =~= le_bytes(x, width));
}

/// Takes `width` bytes off the front of `reader`.
pub fn read_exact<'a>(reader: &mut &'a [u8], width: usize) -> (r: Result<&'a [u8], DbError>)
    ensures
        match (r, decode_raw(old(reader)@, width as nat).0) {
            (Ok(b), Ok(v)) => b@ == v,
            (Err(e), Err(f)) => e == f,
            _ => false,
        },
        final(reader)@ == old(reader)@.skip(decode_raw(old(reader)@, width as nat).1 as int),
{
    let whole: &'a [u8] = *reader;
    let len: usize = whole.len();
    if len < width {
        *reader = slice_subrange(whole, len, len);
        assert(reader@ =~= old(reader)@.skip(len as int));
        Err(DbError::Io(IoErrorKind::UnexpectedEof))
    } else {
        *reader = slice_subrange(whole, width, len);
        assert(reader@ =~= old(reader)@.skip(width as int));
        let head: &'a [u8] = slice_subrange(whole, 0, width);
        assert(head@ =~= old(reader)@.take(width as int));
        Ok(head)
    }
}

/// Takes a little-endian number of `width` bytes off the front of `reader`.
pub fn read_le(reader: &mut &[u8], width: usize) -> (r: Result<u64, DbError>)
    requires
        width <= 8,
    ensures
        match (r, decode_le(old(reader)@, width as nat).0) {
            (Ok(x), Ok(v)) => x == v && x < le_range(width as nat),
            (Err(e), Err(f)) => e == f,
            _ => false,
        },
        final(reader)@ == old(reader)@.skip(decode_le(old(reader)@, width as nat).1 as int),
{
    proof {
        lemma_decode_le_bound(reader@, width as nat);
    }
    match read_exact(reader, width) {
        Ok(b) => Ok(get_le(b)),
        Err(e) => Err(e),
    }
}

impl Loggable for u8 {
    open spec fn spec_encode(v: u8) -> Seq<u8> {
        le_bytes(v as nat, 1)
    }

    open spec fn spec_decode(s: Seq<u8>) -> Decoded<u8> {
        match decode_le(s, 1) {
            (Ok(x), n) => (Ok(x as u8), n),
            (Err(e), n) => (Err(e), n),
        }
    }

    open spec fn encodable(v: u8) -> bool {
        true
    }

    proof fn lemma_decode_bound(s: Seq<u8>) {
        lemma_decode_le_bound(s, 1);
    }

    proof fn lemma_round_trip(v: u8, rest: Seq<u8>) {
        le::lemma_le_range();
        le::lemma_le_bytes_len(v as nat, 1);
        lemma_decode_le_round_trip(v as nat, 1, rest);
    }

    fn encode(&self, writer: &mut Vec<u8>) {
        put_le(writer, *self as u64, 1);
    }

    fn decode(reader: &mut &[u8]) -> (r: Result<Self, DbError>) {
        let ghost s = reader@;
        let result = read_le(reader, 1);
        proof {
            le::lemma_le_range();
            assert(reader@ == s.skip(Self::spec_decode(s).1 as int));
        }
        match result {
            Ok(x) => {
                assert(Self::spec_decode(s).0 == Ok::<u8, DbError>(x as u8));
                Ok(x as u8)
            },
            Err(e) => Err(e),
        }
    }
}

impl Loggable for u16 {
    open spec fn spec_encode(v: u16) -> Seq<u8> {
        le_bytes(v as nat, 2)
    }

    open spec fn spec_decode(s: Seq<u8>) -> Decoded<u16> {
        match decode_le(s, 2) {
            (Ok(x), n) => (Ok(x as u16), n),
            (Err(e), n) => (Err(e), n),
        }
    }

    open spec fn encodable(v: u16) -> bool {
        true
    }

    proof fn lemma_decode_bound(s: Seq<u8>) {
        lemma_decode_le_bound(s, 2);
    }

    proof fn lemma_round_trip(v: u16, rest: Seq<u8>) {
        le::lemma_le_range();
        le::lemma_le_bytes_len(v as nat, 2);
        lemma_decode_le_round_trip(v as nat, 2, rest);
    }

    fn encode(&self, writer: &mut Vec<u8>) {
        put_le(writer, *self as u64, 2);
    }

    fn decode(reader: &mut &[u8]) -> (r: Result<Self, DbError>) {
        let ghost s = reader@;
        let result = read_le(reader, 2);
        proof {
            le::lemma_le_range();
            assert(reader@ == s.skip(Self::spec_decode(s).1 as int));
        }
        match result {
            Ok(x) => {
                assert(Self::spec_decode(s).0 == Ok::<u16, DbError>(x as u16));
                Ok(x as u16)
            },
            Err(e) => Err(e),
        }
    }
}

impl Loggable for u32 {
    open spec fn spec_encode(v: u32) -> Seq<u8> {
        le_bytes(v as nat, 4)
    }

    open spec fn spec_decode(s: Seq<u8>) -> Decoded<u32> {
        match decode_le(s, 4) {
            (Ok(x), n) => (Ok(x as u32), n),
            (Err(e), n) => (Err(e), n),
        }
    }

    open spec fn encodable(v: u32) -> bool {
        true
    }

    proof fn lemma_decode_bound(s: Seq<u8>) {
        lemma_decode_le_bound(s, 4);
    }

    proof fn lemma_round_trip(v: u32, rest: Seq<u8>) {
        le::lemma_le_range();
        le::lemma_le_bytes_len(v as nat, 4);
        lemma_decode_le_round_trip(v as nat, 4, rest);
    }

    fn encode(&self, writer: &mut Vec<u8>) {
        put_le(writer, *self as u64, 4);
    }

    fn decode(reader: &mut &[u8]) -> (r: Result<Self, DbError>) {
        let ghost s = reader@;
        let result = read_le(reader, 4);
        proof {
            le::lemma_le_range();
            assert(reader@ == s.skip(Self::spec_decode(s).1 as int));
        }
        match result {
            Ok(x) => {
                assert(Self::spec_decode(s).0 == Ok::<u32, DbError>(x as u32));
                Ok(x as u32)
            },
            Err(e) => Err(e),
        }
    }
}

impl Loggable for u64 {
    open spec fn spec_encode(v: u64) -> Seq<u8> {
        le_bytes(v as nat, 8)
    }

    open spec fn spec_decode(s: Seq<u8>) -> Decoded<u64> {
        match decode_le(s, 8) {
            (Ok(x), n) => (Ok(x as u64), n),
            (Err(e), n) => (Err(e), n),
        }
    }

    open spec fn encodable(v: u64) -> bool {
        true
    }

    proof fn lemma_decode_bound(s: Seq<u8>) {
        lemma_decode_le_bound(s, 8);
    }

    proof fn lemma_round_trip(v: u64, rest: Seq<u8>) {
        le::lemma_le_range();
        le::lemma_le_bytes_len(v as nat, 8);
        lemma_decode_le_round_trip(v as nat, 8, rest);
    }

    fn encode(&self, writer: &mut Vec<u8>) {
        put_le(writer, *self, 8);
    }

    fn decode(reader: &mut &[u8]) -> (r: Result<Self, DbError>) {
        proof {
            le::lemma_le_range();
        }
        read_le(reader, 8)
    }
}

// --- Vectors: [len: u32][item 0]...[item n - 1] ---

/// The items one after the other.
pub open spec fn encode_items<T: Loggable>(items: Seq<T::V>) -> Seq<u8>
    decreases items.len(),
{
    if items.len() == 0 {
        Seq::empty()
    } else {
        encode_items::<T>(items.drop_last()) + T::spec_encode(items.last())
    }
}

/// Reading `n` items from the front of `s`.
pub open spec fn decode_items<T: Loggable>(n: nat, s: Seq<u8>) -> Decoded<Seq<T::V>>
    decreases n,
{
    if n == 0 {
        (Ok(Seq::empty()), 0)
    } else {
        match T::spec_decode(s) {
            (Ok(v), used) => match decode_items::<T>((n - 1) as nat, s.skip(used as int)) {
                (Ok(vs), more) => (Ok(seq![v] + vs), used + more),
                (Err(e), more) => (Err(e), used + more),
            },
            (Err(e), used) => (Err(e), used),
        }
    }
}

proof fn lemma_decode_items_bound<T: Loggable>(n: nat, s: Seq<u8>)
    ensures
        decode_items::<T>(n, s).1 <= s.len(),
        decode_items::<T>(n, s).0 matches Ok(vs) ==> vs.len() == n,
    decreases n,
{
    if n > 0 {
        T::lemma_decode_bound(s);
        lemma_decode_items_bound::<T>((n - 1) as nat, s.skip(T::spec_decode(s).1 as int));
    }
}

/// The encoding of a sequence starts with that of its first item.
pub proof fn lemma_encode_items_first<T: Loggable>(items: Seq<T::V>)
    requires
        items.len() > 0,
    ensures
        encode_items::<T>(items) == T::spec_encode(items[0]) + encode_items::<T>(items.skip(1)),
    decreases items.len(),
{
    if items.len() == 1 {
        assert(items.drop_last() =~= Seq::<T::V>::empty());
        assert(items.skip(1) =~= Seq::<T::V>::empty());
        assert(encode_items::<T>(items) =~= T::spec_encode(items[0]) + encode_items::<T>(
            items.skip(1),
        ));
    } else {
        lemma_encode_items_first::<T>(items.drop_last());
        assert(items.drop_last().skip(1) =~= items.skip(1).drop_last());
        assert(encode_items::<T>(items) =~= T::spec_encode(items[0]) + encode_items::<T>(
            items.skip(1),
        ));
    }
}

pub proof fn lemma_items_round_trip<T: Loggable>(items: Seq<T::V>, rest: Seq<u8>)
    requires
        forall|i: int| 0 <= i < items.len() ==> T::encodable(#[trigger] items[i]),
    ensures
        decode_items::<T>(items.len(), encode_items::<T>(items) + rest) == (
            Ok::<Seq<T::V>, DbError>(items),
            encode_items::<T>(items).len(),
        ),
    decreases items.len(),
{
    if items.len() > 0 {
        let tail = items.skip(1);
        let first = T::spec_encode(items[0]);
        lemma_encode_items_first::<T>(items);
        let after = encode_items::<T>(tail) + rest;
        assert(encode_items::<T>(items) + rest =~= first + after);
        T::lemma_round_trip(items[0], after);
        assert((first + after).skip(first.len() as int) =~= after);
        lemma_items_round_trip::<T>(tail, rest);
        assert(seq![items[0]] + tail =~= items);
    } else {
        assert(encode_items::<T>(items) + rest =~= rest);
        assert(items =~= Seq::<T::V>::empty());
    }
}

impl<T: Loggable> Loggable for Vec<T> {
    open spec fn spec_encode(v: Seq<T::V>) -> Seq<u8> {
        le_bytes((v.len() as u32) as nat, 4) + encode_items::<T>(v)
    }

    open spec fn spec_decode(s: Seq<u8>) -> Decoded<Seq<T::V>> {
        match decode_le(s, 4) {
            (Ok(len), used) => match decode_items::<T>(len, s.skip(used as int)) {
                (Ok(vs), more) => (Ok(vs), used + more),
                (Err(e), more) => (Err(e), used + more),
            },
            (Err(e), used) => (Err(e), used),
        }
    }

    open spec fn encodable(v: Seq<T::V>) -> bool {
        &&& v.len() <= u32::MAX
        &&& forall|i: int| 0 <= i < v.len() ==> T::encodable(#[trigger] v[i])
    }

    proof fn lemma_decode_bound(s: Seq<u8>) {
        lemma_decode_le_bound(s, 4);
        if let (Ok(len), used) = decode_le(s, 4) {
            lemma_decode_items_bound::<T>(len, s.skip(used as int));
        }
    }

    proof fn lemma_round_trip(v: Seq<T::V>, rest: Seq<u8>) {
        le::lemma_le_range();
        let head = le_bytes(v.len(), 4);
        let body = encode_items::<T>(v) + rest;
        lemma_decode_le_round_trip(v.len(), 4, body);
        le::lemma_le_bytes_len(v.len(), 4);
        assert(Self::spec_encode(v) + rest =~= head + body);
        assert((head + body).skip(4) =~= body);
        lemma_items_round_trip::<T>(v, rest);
    }

    fn encode(&self, writer: &mut Vec<u8>) {
        let ghost items = self.deep_view();
        let ghost start = writer@;
        let len: u32 = self.len() as u32;
        len.encode(writer);
        let ghost head = writer@;
        let mut i: usize = 0;
        while i < self.len()
            invariant
                i <= self.len(),
                items == self.deep_view(),
                writer@ == head + encode_items::<T>(items.take(i as int)),
            decreases self.len() - i,
        {
            let ghost before = writer@;
            self[i].encode(writer);
            proof {
                let taken = items.take(i + 1);
                assert(taken.drop_last() =~= items.take(i as int));
                assert(taken.last() == self[i as int].deep_view());
                assert(writer@ =~= head + encode_items::<T>(taken));
            }
            i = i + 1;
        }
        assert(items.take(i as int) =~= items);
        assert(writer@ =~= start + Self::spec_encode(items));
    }

    fn decode(reader: &mut &[u8]) -> (r: Result<Self, DbError>) {
        let ghost s = reader@;
        proof {
            le::lemma_le_range();
            lemma_decode_le_bound(s, 4);
        }
        let len: u32 = match u32::decode(reader) {
            Ok(len) => len,
            Err(e) => {
                return Err(e);
            },
        };
        let ghost body = reader@;
        let mut items: Vec<T> = Vec::new();
        let mut i: u32 = 0;
        let ghost mut used: nat = 0;
        while i < len
            invariant
                i <= len,
                used <= body.len(),
                reader@ == body.skip(used as int),
                decode_items::<T>(len as nat, body) == match decode_items::<T>(
                    (len - i) as nat,
                    reader@,
                ) {
                    (Ok(vs), more) => (
                        Ok::<Seq<T::V>, DbError>(items.deep_view() + vs),
                        used + more,
                    ),
                    (Err(e), more) => (Err(e), used + more),
                },
                body == s.skip(4),
                decode_le(s, 4) == (Ok::<nat, DbError>(len as nat), 4nat),
                s == old(reader)@,
            decreases len - i,
        {
            let ghost before = reader@;
            let ghost so_far = items.deep_view();
            proof {
                T::lemma_decode_bound(before);
            }
            match T::decode(reader) {
                Ok(item) => {
                    items.push(item);
                    proof {
                        let step = T::spec_decode(before).1;
                        assert(before.skip(step as int) =~= body.skip((used + step) as int));
                        used = used + step;
                        assert(items.deep_view() =~= so_far.push(item.deep_view()));
                        if let (Ok(vs), more) = decode_items::<T>((len - i - 1) as nat, reader@) {
                            assert(so_far + (seq![item.deep_view()] + vs) =~= items.deep_view()
                                + vs);
                        }
                    }
                },
                Err(e) => {
                    proof {
                        let step = T::spec_decode(before).1;
                        assert(before.skip(step as int) =~= s.skip((4 + used + step) as int));
                    }
                    return Err(e);
                },
            }
            i = i + 1;
        }
        proof {
            assert(items.deep_view() + Seq::<T::V>::empty() =~= items.deep_view());
            assert(body.skip(used as int) =~= s.skip((4 + used) as int));
        }
        Ok(items)
    }
}

// --- Byte strings: what a vector of bytes comes to ---

/// A byte string behind its length.
pub open spec fn encode_blob(b: Seq<u8>) -> Seq<u8> {
    le_bytes((b.len() as u32) as nat, 4) + b
}

/// Reading a byte string behind its length.
pub open spec fn decode_blob(s: Seq<u8>) -> Decoded<Seq<u8>> {
    match decode_le(s, 4) {
        (Ok(len), used) => match decode_raw(s.skip(used as int), len) {
            (Ok(b), more) => (Ok(b), used + more),
            (Err(e), more) => (Err(e), used + more),
        },
        (Err(e), used) => (Err(e), used),
    }
}

pub proof fn lemma_decode_blob_bound(s: Seq<u8>)
    ensures
        decode_blob(s).1 <= s.len(),
        decode_blob(s).0 matches Ok(b) ==> b.len() <= u32::MAX,
{
    le::lemma_le_range();
    lemma_decode_le_bound(s, 4);
}

pub proof fn lemma_blob_round_trip(b: Seq<u8>, rest: Seq<u8>)
    requires
        b.len() <= u32::MAX,
    ensures
        decode_blob(encode_blob(b) + rest) == (Ok::<Seq<u8>, DbError>(b), encode_blob(b).len()),
{
    le::lemma_le_range();
    le::lemma_le_bytes_len(b.len(), 4);
    let head = le_bytes(b.len(), 4);
    assert(encode_blob(b) + rest =~= head + (b + rest));
    lemma_decode_le_round_trip(b.len(), 4, b + rest);
    assert((head + (b + rest)).skip(4) =~= b + rest);
    assert((b + rest).take(b.len() as int) =~= b);
}

proof fn lemma_encode_byte_items(b: Seq<u8>)
    ensures
        encode_items::<u8>(b) == b,
    decreases b.len(),
{
    reveal_with_fuel(le_bytes, 2);
    if b.len() > 0 {
        lemma_encode_byte_items(b.drop_last());
        assert(encode_items::<u8>(b) =~= b);
    } else {
        assert(encode_items::<u8>(b) =~= b);
    }
}

proof fn lemma_decode_byte_items(n: nat, s: Seq<u8>)
    ensures
        decode_items::<u8>(n, s) == decode_raw(s, n),
    decreases n,
{
    reveal_with_fuel(le_value, 2);
    if n == 0 {
        assert(s.take(0) =~= Seq::<u8>::empty());
    } else {
        if s.len() > 0 {
            assert(u8::spec_decode(s) == (Ok::<u8, DbError>(s[0]), 1nat));
            lemma_decode_byte_items((n - 1) as nat, s.skip(1));
            if s.len() >= n {
                assert(seq![s[0]] + s.skip(1).take(n - 1) =~= s.take(n as int));
            }
        }
    }
}

/// A byte string and a vector of bytes have one format.
pub proof fn lemma_blob_is_byte_vector(b: Seq<u8>, s: Seq<u8>)
    ensures
        encode_blob(b) == <Vec<u8> as Loggable>::spec_encode(b),
        decode_blob(s) == <Vec<u8> as Loggable>::spec_decode(s),
{
    lemma_encode_byte_items(b);
    if let (Ok(len), used) = decode_le(s, 4) {
        lemma_decode_byte_items(len, s.skip(used as int));
    }
}

/// Appends `b` behind its length.
pub fn write_blob(writer: &mut Vec<u8>, b: &[u8])
    ensures
        final(writer)@ == old(writer)@ + encode_blob(b@),
{
    put_le(writer, (b.len() as u32) as u64, 4);
    writer.extend_from_slice(b);
    assert(writer@ =~= old(writer)@ + encode_blob(b@));
}

/// Takes a byte string behind its length off the front of `reader`.
pub fn read_blob<'a>(reader: &mut &'a [u8]) -> (r: Result<&'a [u8], DbError>)
    ensures
        match (r, decode_blob(old(reader)@).0) {
            (Ok(b), Ok(v)) => b@ == v,
            (Err(e), Err(f)) => e == f,
            _ => false,
        },
        final(reader)@ == old(reader)@.skip(decode_blob(old(reader)@).1 as int),
{
    let ghost s = reader@;
    proof {
        le::lemma_le_range();
        lemma_decode_le_bound(s, 4);
        lemma_decode_blob_bound(s);
    }
    let len: u32 = match u32::decode(reader) {
        Ok(len) => len,
        Err(e) => {
            return Err(e);
        },
    };
    let ghost used = decode_raw(reader@, len as nat).1;
    let r = read_exact(reader, len as usize);
    assert(s.skip(4).skip(used as int) =~= s.skip((4 + used) as int));
    r
}

// --- Text ---

impl Loggable for String {
    open spec fn spec_encode(v: Seq<char>) -> Seq<u8> {
        encode_blob(encode_utf8(v))
    }

    open spec fn spec_decode(s: Seq<u8>) -> Decoded<Seq<char>> {
        match decode_blob(s) {
            (Ok(b), n) => if valid_utf8(b) {
                (Ok(decode_utf8(b)), n)
            } else {
                (Err(DbError::ManifestCorrupted), n)
            },
            (Err(e), n) => (Err(e), n),
        }
    }

    open spec fn encodable(v: Seq<char>) -> bool {
        encode_utf8(v).len() <= u32::MAX
    }

    proof fn lemma_decode_bound(s: Seq<u8>) {
        lemma_decode_blob_bound(s);
    }

    proof fn lemma_round_trip(v: Seq<char>, rest: Seq<u8>) {
        lemma_blob_round_trip(encode_utf8(v), rest);
        vstd::utf8::encode_utf8_valid_utf8(v);
        vstd::utf8::encode_utf8_decode_utf8(v);
    }

    fn encode(&self, writer: &mut Vec<u8>) {
        write_blob(writer, self.as_str().as_bytes());
    }

    fn decode(reader: &mut &[u8]) -> (r: Result<Self, DbError>) {
        match read_blob(reader) {
            Ok(b) => match string_from_utf8(slice_to_vec(b)) {
                Some(text) => Ok(text),
                None => Err(DbError::ManifestCorrupted),
            },
            Err(e) => Err(e),
        }
    }
}

} // verus!
