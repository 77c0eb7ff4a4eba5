//! Values and their on-disk form.

use crate::data_stores::le::{get_le, le_bytes, le_value, put_le};
use crate::data_stores::utf8::string_from_utf8;
use crate::data_stores::{decode_blob, decode_le, encode_blob, read_blob, write_blob};
use crate::data_stores::{lemma_blob_round_trip, lemma_decode_blob_bound};
use crate::data_stores::{le, lemma_decode_le_bound, lemma_decode_le_round_trip};
use crate::data_stores::{Decoded, Loggable};
use crate::err::DbError;
use vstd::prelude::*;
use vstd::slice::{slice_subrange, slice_to_vec};
use vstd::utf8::{decode_utf8, encode_utf8, valid_utf8};

verus! {

/// What is stored under a key. A delete is a write of `Tombstone`.
#[derive(Debug)]
pub enum Value {
    Bytes(Vec<u8>),
    Str(String),
    Int(i64),
    Tombstone,
}

/// The mathematical value of a [`Value`].
#[verifier::ext_equal]
pub enum ValueView {
    Bytes(Seq<u8>),
    Str(Seq<char>),
    Int(i64),
    Tombstone,
}

impl View for Value {
    type V = ValueView;

    open spec fn view(&self) -> ValueView {
        match self {
            Value::Bytes(b) => ValueView::Bytes(b@),
            Value::Str(s) => ValueView::Str(s@),
            Value::Int(i) => ValueView::Int(*i),
            Value::Tombstone => ValueView::Tombstone,
        }
    }
}

impl DeepView for Value {
    type V = ValueView;

    open spec fn deep_view(&self) -> ValueView {
        self@
    }
}

/// The two's complement of `i` in 64 bits.
pub open spec fn twos_complement(i: i64) -> nat {
    if i >= 0 {
        i as nat
    } else {
        (i + 0x1_0000_0000_0000_0000) as nat
    }
}

/// The number whose two's complement in 64 bits is `x`.
pub open spec fn from_twos_complement(x: nat) -> i64 {
    if x < 0x8000_0000_0000_0000 {
        x as i64
    } else {
        (x - 0x1_0000_0000_0000_0000) as i64
    }
}

impl ValueView {
    /// The meta byte: bit 0 marks a tombstone, the bits above it are the type.
    pub open spec fn meta(self) -> u8 {
        match self {
            ValueView::Bytes(_) => Value::WAL_TYPE_BYTES,
            ValueView::Str(_) => Value::WAL_TYPE_STR,
            ValueView::Int(_) => Value::WAL_TYPE_INT,
            ValueView::Tombstone => Value::WAL_ID_TOMBSTONE,
        }
    }

    /// The bytes behind the meta byte and the length.
    pub open spec fn payload(self) -> Seq<u8> {
        match self {
            ValueView::Bytes(b) => b,
            ValueView::Str(s) => encode_utf8(s),
            ValueView::Int(i) => le_bytes(twos_complement(i), 8),
            ValueView::Tombstone => Seq::empty(),
        }
    }

    /// The value that a type and its payload stand for: text that is not UTF-8 reads as
    /// the empty text, and an integer needs eight bytes.
    pub open spec fn from_payload(meta: u8, payload: Seq<u8>) -> Result<ValueView, DbError> {
        if meta % 2 == 1 {
            Ok(ValueView::Tombstone)
        } else if meta == Value::WAL_TYPE_BYTES {
            Ok(ValueView::Bytes(payload))
        } else if meta == Value::WAL_TYPE_STR {
            Ok(
                ValueView::Str(
                    if valid_utf8(payload) {
                        decode_utf8(payload)
                    } else {
                        Seq::empty()
                    },
                ),
            )
        } else if meta == Value::WAL_TYPE_INT && payload.len() >= 8 {
            Ok(ValueView::Int(from_twos_complement(le_value(payload.take(8)))))
        } else {
            Err(DbError::ManifestCorrupted)
        }
    }
}

fn int_to_bits(i: i64) -> (x: u64)
    ensures
        x == twos_complement(i),
{
    if i >= 0 {
        i as u64
    } else {
        u64::MAX - (-(i + 1)) as u64
    }
}

fn int_from_bits(x: u64) -> (i: i64)
    ensures
        i == from_twos_complement(x as nat),
{
    if x < 0x8000_0000_0000_0000 {
        x as i64
    } else {
        -1 - (u64::MAX - x) as i64
    }
}

impl Value {
    pub const WAL_ID_TOMBSTONE: u8 = 1;

    pub const WAL_TYPE_BYTES: u8 = 0;

    pub const WAL_TYPE_STR: u8 = 2;

    pub const WAL_TYPE_INT: u8 = 4;

    /// The bytes of a serialized value in front of the payload: meta byte and length.
    pub const SERIALIZED_HEADER_SIZE: usize = 5;

    pub fn new(bytes: &[u8]) -> (value: Value)
        ensures
            value@ == ValueView::Bytes(bytes@),
    {
        Value::Bytes(slice_to_vec(bytes))
    }

    pub fn is_tombstone(&self) -> (r: bool)
        ensures
            r == (self@ == ValueView::Tombstone),
    {
        match self {
            Value::Tombstone => true,
            _ => false,
        }
    }

    /// The length of the payload.
    pub fn payload_len(&self) -> (len: usize)
        ensures
            len == self@.payload().len(),
    {
        proof {
            le::lemma_le_bytes_len(0, 8);
        }
        match self {
            Value::Bytes(b) => b.len(),
            Value::Str(s) => s.as_str().as_bytes().len(),
            Value::Int(i) => {
                proof {
                    le::lemma_le_bytes_len(twos_complement(*i), 8);
                }
                8
            },
            Value::Tombstone => 0,
        }
    }
}

impl Clone for Value {
    fn clone(&self) -> (r: Value)
        ensures
            r@ == self@,
    {
        match self {
            Value::Bytes(b) => Value::Bytes(slice_to_vec(b.as_slice())),
            Value::Str(s) => Value::Str(s.clone()),
            Value::Int(i) => Value::Int(*i),
            Value::Tombstone => Value::Tombstone,
        }
    }
}

// --- On disk: [meta: u8][len: u32][payload] ---

impl Loggable for Value {
    open spec fn spec_encode(v: ValueView) -> Seq<u8> {
        le_bytes(v.meta() as nat, 1) + encode_blob(v.payload())
    }

    open spec fn spec_decode(s: Seq<u8>) -> Decoded<ValueView> {
        match decode_le(s, 1) {
            (Ok(meta), a) => match decode_blob(s.skip(a as int)) {
                (Ok(payload), b) => (ValueView::from_payload(meta as u8, payload), a + b),
                (Err(e), b) => (Err(e), a + b),
            },
            (Err(e), a) => (Err(e), a),
        }
    }

    open spec fn encodable(v: ValueView) -> bool {
        v.payload().len() <= u32::MAX
    }

    proof fn lemma_decode_bound(s: Seq<u8>) {
        lemma_decode_le_bound(s, 1);
        if s.len() >= 1 {
            lemma_decode_blob_bound(s.skip(1));
        }
    }

    proof fn lemma_round_trip(v: ValueView, rest: Seq<u8>) {
        le::lemma_le_range();
        let head = le_bytes(v.meta() as nat, 1);
        let body = encode_blob(v.payload());
        le::lemma_le_bytes_len(v.meta() as nat, 1);
        assert(Self::spec_encode(v) + rest =~= head + (body + rest));
        lemma_decode_le_round_trip(v.meta() as nat, 1, body + rest);
        assert((head + (body + rest)).skip(1) =~= body + rest);
        lemma_blob_round_trip(v.payload(), rest);
        match v {
            ValueView::Bytes(b) => {},
            ValueView::Str(s) => {
                vstd::utf8::encode_utf8_valid_utf8(s);
                vstd::utf8::encode_utf8_decode_utf8(s);
            },
            ValueView::Int(i) => {
                le::lemma_le_bytes_len(twos_complement(i), 8);
                le::lemma_le_round_trip(twos_complement(i), 8);
                assert(v.payload().take(8) =~= v.payload());
            },
            ValueView::Tombstone => {},
        }
    }

    fn encode(&self, writer: &mut Vec<u8>) {
        match self {
            Value::Bytes(b) => {
                put_le(writer, Self::WAL_TYPE_BYTES as u64, 1);
                write_blob(writer, b.as_slice());
            },
            Value::Str(s) => {
                put_le(writer, Self::WAL_TYPE_STR as u64, 1);
                write_blob(writer, s.as_str().as_bytes());
            },
            Value::Int(i) => {
                put_le(writer, Self::WAL_TYPE_INT as u64, 1);
                let mut bits: Vec<u8> = Vec::new();
                put_le(&mut bits, int_to_bits(*i), 8);
                assert(bits@ =~= self@.payload());
                write_blob(writer, bits.as_slice());
            },
            Value::Tombstone => {
                put_le(writer, Self::WAL_ID_TOMBSTONE as u64, 1);
                let empty: Vec<u8> = Vec::new();
                write_blob(writer, empty.as_slice());
            },
        }
        assert(writer@ =~= old(writer)@ + Self::spec_encode(self@));
    }

    fn decode(reader: &mut &[u8]) -> (r: Result<Self, DbError>) {
        let ghost s = reader@;
        proof {
            le::lemma_le_range();
            lemma_decode_le_bound(s, 1);
        }
        let meta: u8 = match u8::decode(reader) {
            Ok(meta) => meta,
            Err(e) => {
                return Err(e);
            },
        };
        let ghost used = decode_blob(s.skip(1)).1;
        proof {
            lemma_decode_blob_bound(s.skip(1));
            assert(s.skip(1).skip(used as int) =~= s.skip((1 + used) as int));
        }
        let payload = match read_blob(reader) {
            Ok(payload) => payload,
            Err(e) => {
                return Err(e);
            },
        };
        assert((meta & 1 != 0) == (meta % 2 == 1)) by (bit_vector);
        if meta & Self::WAL_ID_TOMBSTONE != 0 {
            return Ok(Value::Tombstone);
        }
        assert(meta & !1u8 == meta) by (bit_vector)
            requires
                meta & 1 == 0,
        ;
        let val_type: u8 = meta & !Self::WAL_ID_TOMBSTONE;
        if val_type == Self::WAL_TYPE_BYTES {
            Ok(Value::Bytes(slice_to_vec(payload)))
        } else if val_type == Self::WAL_TYPE_STR {
            match string_from_utf8(slice_to_vec(payload)) {
                Some(text) => Ok(Value::Str(text)),
                None => Ok(Value::Str(String::new())),
            }
        } else if val_type == Self::WAL_TYPE_INT {
            if payload.len() >= 8 {
                let bits = slice_subrange(payload, 0, 8);
                assert(bits@ =~= payload@.take(8));
                Ok(Value::Int(int_from_bits(get_le(bits))))
            } else {
                Err(DbError::ManifestCorrupted)
            }
        } else {
            Err(DbError::ManifestCorrupted)
        }
    }
}

} // verus!
