//! A block of a fixed size: a header, then keys and values with two-byte lengths.

use crate::data_stores::le;
use crate::data_stores::le::{get_le, le_bytes, le_value};
use vstd::array::array_as_slice;
use vstd::prelude::*;
use vstd::slice::slice_subrange;

verus! {

pub struct Key<'a> {
    pub key_len: u16,
    pub key_data: &'a [u8],
}

pub struct Value<'a> {
    pub value_len: u16,
    pub value_data: &'a [u8],
}

pub struct Header {
    pub checksum: u32,
    pub entries: u32,
}

/// The length that stands at the front of some bytes.
pub open spec fn field_len(s: Seq<u8>) -> nat {
    le_value(s.take(2))
}

/// Whether a length and as many bytes stand at the front of some bytes.
pub open spec fn has_field(s: Seq<u8>) -> bool {
    s.len() >= 2 && s.len() >= 2 + field_len(s)
}

/// The bytes behind the length at the front of some bytes.
pub open spec fn field_data(s: Seq<u8>) -> Seq<u8> {
    s.subrange(2, (2 + field_len(s)) as int)
}

/// A field that was written as a length in two bytes and as many bytes is read back.
pub proof fn lemma_field(data: Seq<u8>, rest: Seq<u8>)
    requires
        data.len() <= u16::MAX,
    ensures
        ({
            let s = le_bytes(data.len(), 2) + data + rest;
            &&& has_field(s)
            &&& field_len(s) == data.len()
            &&& field_data(s) == data
        }),
{
    let s = le_bytes(data.len(), 2) + data + rest;
    le::lemma_le_range();
    le::lemma_le_bytes_len(data.len(), 2);
    le::lemma_le_round_trip(data.len(), 2);
    assert(s.take(2) =~= le_bytes(data.len(), 2));
    assert(field_data(s) =~= data);
}

/// Reads a length and as many bytes.
fn read_field<'a>(bytes: &'a [u8]) -> (r: (u16, &'a [u8]))
    requires
        has_field(bytes@),
    ensures
        r.0 == field_len(bytes@),
        r.1@ == field_data(bytes@),
{
    let len_bytes = slice_subrange(bytes, 0, 2);
    proof {
        assert(len_bytes@ =~= bytes@.take(2));
        le::lemma_le_range();
        le::lemma_le_value_bound(len_bytes@);
    }
    let len: u16 = get_le(len_bytes) as u16;
    (len, slice_subrange(bytes, 2, 2 + len as usize))
}

impl<'a> Key<'a> {
    pub fn from_bytes(bytes: &'a [u8]) -> (key: Key<'a>)
        requires
            has_field(bytes@),
        ensures
            key.key_len == field_len(bytes@),
            key.key_data@ == field_data(bytes@),
    {
        let (key_len, key_data) = read_field(bytes);
        Key { key_len, key_data }
    }

    /// The bytes that the key takes up, its length field included.
    pub fn size(&self) -> (r: usize)
        ensures
            r == 2 + self.key_len,
    {
        2 + self.key_len as usize
    }
}

impl<'a> Value<'a> {
    pub fn from_bytes(bytes: &'a [u8]) -> (value: Value<'a>)
        requires
            has_field(bytes@),
        ensures
            value.value_len == field_len(bytes@),
            value.value_data@ == field_data(bytes@),
    {
        let (value_len, value_data) = read_field(bytes);
        Value { value_len, value_data }
    }

    /// The bytes that the value takes up, its length field included.
    pub fn size(&self) -> (r: usize)
        ensures
            r == 2 + self.value_len,
    {
        2 + self.value_len as usize
    }
}

impl Header {
    pub const SIZE: usize = 8;

    pub fn from_bytes(bytes: &[u8]) -> (header: Header)
        requires
            bytes.len() >= Header::SIZE,
        ensures
            header.checksum == le_value(bytes@.subrange(0, 4)),
            header.entries == le_value(bytes@.subrange(4, 8)),
    {
        let a = slice_subrange(bytes, 0, 4);
        let b = slice_subrange(bytes, 4, 8);
        proof {
            le::lemma_le_range();
            le::lemma_le_value_bound(a@);
            le::lemma_le_value_bound(b@);
        }
        Header { checksum: get_le(a) as u32, entries: get_le(b) as u32 }
    }
}

/// A block is a collection of key and value pairs stored together.
pub struct Block<'a, const BLOCK_SIZE: usize> {
    pub buffer: &'a [u8; BLOCK_SIZE],
}

impl<'a, const BLOCK_SIZE: usize> Block<'a, BLOCK_SIZE> {
    pub fn iter(&self) -> (iter: BlockIterator<'a>)
        requires
            BLOCK_SIZE >= Header::SIZE,
        ensures
            iter.buffer@ == self.buffer@.skip(Header::SIZE as int),
            iter.position == 0,
            iter.index == 0,
            iter.entries == le_value(self.buffer@.subrange(4, 8)),
    {
        let bytes: &'a [u8] = array_as_slice(self.buffer);
        let header = Header::from_bytes(bytes);
        let buffer = slice_subrange(bytes, Header::SIZE, bytes.len());
        assert(buffer@ =~= self.buffer@.skip(Header::SIZE as int));
        BlockIterator { buffer, position: 0, index: 0, entries: header.entries as usize }
    }
}

pub struct BlockIterator<'a> {
    pub buffer: &'a [u8],
    pub position: usize,
    /// Which entry comes next, out of all of them.
    pub index: usize,
    pub entries: usize,
}

impl<'a> BlockIterator<'a> {
    /// Whether all entries have been read, or all bytes.
    pub open spec fn at_end(&self) -> bool {
        self.position >= self.buffer@.len() || self.index >= self.entries
    }

    /// The bytes from the key that comes next.
    pub open spec fn key_bytes(&self) -> Seq<u8> {
        self.buffer@.skip(self.position as int)
    }

    /// The bytes from the value behind that key.
    pub open spec fn value_bytes(&self) -> Seq<u8> {
        self.key_bytes().skip((2 + field_len(self.key_bytes())) as int)
    }

    pub fn next(&mut self) -> (r: Option<(Key<'a>, Value<'a>)>)
        requires
            !old(self).at_end() ==> has_field(old(self).key_bytes()) && has_field(
                old(self).value_bytes(),
            ),
        ensures
            final(self).buffer == old(self).buffer,
            final(self).entries == old(self).entries,
            r is None <==> old(self).at_end(),
            r is None ==> *final(self) == *old(self),
            r matches Some((key, value)) ==> {
                &&& key.key_len == field_len(old(self).key_bytes())
                &&& key.key_data@ == field_data(old(self).key_bytes())
                &&& value.value_len == field_len(old(self).value_bytes())
                &&& value.value_data@ == field_data(old(self).value_bytes())
                &&& final(self).index == old(self).index + 1
                &&& final(self).position == old(self).position + 4 + key.key_len + value.value_len
            },
    {
        if self.position >= self.buffer.len() {
            None
        } else if self.index >= self.entries {
            None
        } else {
            let key_bytes = slice_subrange(self.buffer, self.position, self.buffer.len());
            assert(key_bytes@ =~= self.key_bytes());
            let key = Key::from_bytes(key_bytes);
            let value_start: usize = self.position + key.size();
            let value_bytes = slice_subrange(self.buffer, value_start, self.buffer.len());
            assert(value_bytes@ =~= self.value_bytes());
            let value = Value::from_bytes(value_bytes);
            self.position = value_start + value.size();
            self.index = self.index + 1;
            Some((key, value))
        }
    }
}

} // verus!
