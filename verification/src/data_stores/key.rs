//! Versioned keys: a user key and the log sequence number of one write to it.

use crate::data_stores::le::{le_bytes, put_le};
use crate::data_stores::{decode_le, decode_raw, lemma_decode_le_bound, lemma_decode_le_round_trip};
use crate::data_stores::{le, read_exact, read_le, Decoded, Loggable};
use crate::err::DbError;
use std::cmp::Ordering;
use vstd::prelude::*;
use vstd::slice::slice_to_vec;

verus! {

pub type LsnType = u64;

/// One version of a user key.
#[derive(Debug)]
pub struct Key {
    pub lsn: LsnType,
    pub bytes: Vec<u8>,
}

/// The mathematical value of a [`Key`].
#[verifier::ext_equal]
pub struct KeyView {
    pub bytes: Seq<u8>,
    pub lsn: LsnType,
}

impl View for Key {
    type V = KeyView;

    open spec fn view(&self) -> KeyView {
        KeyView { bytes: self.bytes@, lsn: self.lsn }
    }
}

impl DeepView for Key {
    type V = KeyView;

    open spec fn deep_view(&self) -> KeyView {
        self@
    }
}

// --- Order: bytes ascending, then LSN descending, so the latest version comes first ---

/// The lexicographic order of byte strings.
pub open spec fn bytes_lt(a: Seq<u8>, b: Seq<u8>) -> bool
    decreases a.len(),
{
    if b.len() == 0 {
        false
    } else if a.len() == 0 {
        true
    } else if a[0] == b[0] {
        bytes_lt(a.skip(1), b.skip(1))
    } else {
        a[0] < b[0]
    }
}

/// The order of keys.
pub open spec fn key_lt(a: KeyView, b: KeyView) -> bool {
    bytes_lt(a.bytes, b.bytes) || (a.bytes == b.bytes && a.lsn > b.lsn)
}

pub proof fn lemma_bytes_lt_irreflexive(a: Seq<u8>)
    ensures
        !bytes_lt(a, a),
    decreases a.len(),
{
    if a.len() > 0 {
        lemma_bytes_lt_irreflexive(a.skip(1));
    }
}

pub proof fn lemma_bytes_lt_transitive(a: Seq<u8>, b: Seq<u8>, c: Seq<u8>)
    requires
        bytes_lt(a, b),
        bytes_lt(b, c),
    ensures
        bytes_lt(a, c),
    decreases a.len(),
{
    if a.len() > 0 && a[0] == b[0] && b[0] == c[0] {
        lemma_bytes_lt_transitive(a.skip(1), b.skip(1), c.skip(1));
    }
}

pub proof fn lemma_bytes_lt_total(a: Seq<u8>, b: Seq<u8>)
    ensures
        bytes_lt(a, b) || bytes_lt(b, a) || a == b,
    decreases a.len(),
{
    if a.len() > 0 && b.len() > 0 && a[0] == b[0] {
        lemma_bytes_lt_total(a.skip(1), b.skip(1));
        if a.skip(1) == b.skip(1) {
            assert(a =~= seq![a[0]] + a.skip(1));
            assert(b =~= seq![b[0]] + b.skip(1));
        }
    } else if a.len() == 0 && b.len() == 0 {
        assert(a =~= b);
    }
}

/// The key order is a strict total order: no key comes before itself.
pub proof fn lemma_key_lt_irreflexive(a: KeyView)
    ensures
        !key_lt(a, a),
{
    lemma_bytes_lt_irreflexive(a.bytes);
}

/// The key order is a strict total order: it is transitive.
pub proof fn lemma_key_lt_transitive(a: KeyView, b: KeyView, c: KeyView)
    requires
        key_lt(a, b),
        key_lt(b, c),
    ensures
        key_lt(a, c),
{
    if bytes_lt(a.bytes, b.bytes) && bytes_lt(b.bytes, c.bytes) {
        lemma_bytes_lt_transitive(a.bytes, b.bytes, c.bytes);
    }
}

/// The key order is a strict total order: two different keys are ordered, one way only.
pub proof fn lemma_key_lt_total(a: KeyView, b: KeyView)
    ensures
        key_lt(a, b) || key_lt(b, a) || a == b,
        !(key_lt(a, b) && key_lt(b, a)),
        key_lt(a, b) ==> a != b,
{
    lemma_bytes_lt_total(a.bytes, b.bytes);
    lemma_key_lt_irreflexive(a);
    if a.bytes == b.bytes && a.lsn == b.lsn {
        assert(a =~= b);
    }
    if key_lt(a, b) && key_lt(b, a) {
        lemma_key_lt_transitive(a, b, a);
    }
}

/// Compares two byte strings lexicographically.
pub fn compare_bytes(a: &[u8], b: &[u8]) -> (r: Ordering)
    ensures
        r == Ordering::Less <==> bytes_lt(a@, b@),
        r == Ordering::Equal <==> a@ == b@,
        r == Ordering::Greater <==> bytes_lt(b@, a@),
{
    let mut i: usize = 0;
    proof {
        assert(a@.skip(0) =~= a@);
        assert(b@.skip(0) =~= b@);
    }
    while i < a.len() && i < b.len() && a[i] == b[i]
        invariant
            i <= a.len(),
            i <= b.len(),
            a@.take(i + 0) == b@.take(i + 0),
            bytes_lt(a@, b@) == bytes_lt(a@.skip(i + 0), b@.skip(i + 0)),
            bytes_lt(b@, a@) == bytes_lt(b@.skip(i + 0), a@.skip(i + 0)),
        decreases a.len() - i,
    {
        proof {
            assert(a@.take(i + 1) =~= a@.take(i + 0).push(a@[i + 0]));
            assert(b@.take(i + 1) =~= b@.take(i + 0).push(b@[i + 0]));
            assert(a@.skip(i + 0).skip(1) =~= a@.skip(i + 1));
            assert(b@.skip(i + 0).skip(1) =~= b@.skip(i + 1));
        }
        i = i + 1;
    }
    proof {
        lemma_bytes_lt_irreflexive(a@);
        if bytes_lt(a@, b@) && bytes_lt(b@, a@) {
            lemma_bytes_lt_transitive(a@, b@, a@);
        }
    }
    if i < a.len() {
        if i < b.len() {
            if a[i] < b[i] {
                Ordering::Less
            } else {
                Ordering::Greater
            }
        } else {
            Ordering::Greater
        }
    } else if i < b.len() {
        Ordering::Less
    } else {
        proof {
            assert(a@.take(i + 0) =~= a@);
            assert(b@.take(i + 0) =~= b@);
        }
        Ordering::Equal
    }
}

/// Whether `a` is before `b` in the order of byte strings.
pub fn bytes_before(a: &[u8], b: &[u8]) -> (r: bool)
    ensures
        r == bytes_lt(a@, b@),
{
    match compare_bytes(a, b) {
        Ordering::Less => true,
        _ => false,
    }
}

impl Key {
    /// The bytes of a serialized key in front of the user key: LSN and length.
    pub const SERIALIZED_HEADER_SIZE: usize = 10;

    pub fn new(bytes: &[u8], lsn: LsnType) -> (key: Key)
        ensures
            key@ == (KeyView { bytes: bytes@, lsn }),
    {
        Key { lsn, bytes: slice_to_vec(bytes) }
    }

    /// Gives the key the LSN of the write that carries it.
    pub fn update_lsn(&mut self, lsn: u64)
        ensures
            final(self)@ == (KeyView { bytes: old(self)@.bytes, lsn }),
    {
        self.lsn = lsn;
    }

    pub fn cmp(&self, other: &Key) -> (r: Ordering)
        ensures
            r == Ordering::Less <==> key_lt(self@, other@),
            r == Ordering::Equal <==> self@ == other@,
            r == Ordering::Greater <==> key_lt(other@, self@),
    {
        proof {
            lemma_key_lt_total(self@, other@);
            lemma_bytes_lt_irreflexive(self@.bytes);
            if self.bytes@ == other.bytes@ && self.lsn == other.lsn {
                assert(self@ =~= other@);
            }
        }
        match compare_bytes(self.bytes.as_slice(), other.bytes.as_slice()) {
            Ordering::Equal => if self.lsn > other.lsn {
                Ordering::Less
            } else if self.lsn < other.lsn {
                Ordering::Greater
            } else {
                Ordering::Equal
            },
            unequal => unequal,
        }
    }
}

impl Key {
    /// Whether the key is before `other` in the order of keys.
    pub fn before(&self, other: &Key) -> (r: bool)
        ensures
            r == key_lt(self@, other@),
    {
        match self.cmp(other) {
            Ordering::Less => true,
            _ => false,
        }
    }
}

impl Clone for Key {
    fn clone(&self) -> (r: Key)
        ensures
            r@ == self@,
    {
        Key { lsn: self.lsn, bytes: slice_to_vec(self.bytes.as_slice()) }
    }
}

impl PartialEq for Key {
    fn eq(&self, other: &Key) -> (r: bool) {
        match self.cmp(other) {
            Ordering::Equal => true,
            _ => false,
        }
    }
}

impl vstd::std_specs::cmp::PartialEqSpecImpl for Key {
    open spec fn obeys_eq_spec() -> bool {
        true
    }

    open spec fn eq_spec(&self, other: &Key) -> bool {
        self@ == other@
    }
}

impl Eq for Key {

}

impl PartialOrd for Key {
    fn partial_cmp(&self, other: &Key) -> (r: Option<Ordering>) {
        Some(self.cmp(other))
    }
}

impl vstd::std_specs::cmp::PartialOrdSpecImpl for Key {
    open spec fn obeys_partial_cmp_spec() -> bool {
        true
    }

    open spec fn partial_cmp_spec(&self, other: &Key) -> Option<Ordering> {
        if key_lt(self@, other@) {
            Some(Ordering::Less)
        } else if self@ == other@ {
            Some(Ordering::Equal)
        } else {
            Some(Ordering::Greater)
        }
    }
}

// --- On disk: [lsn: u64][len: u16][bytes] ---

impl Loggable for Key {
    open spec fn spec_encode(v: KeyView) -> Seq<u8> {
        le_bytes(v.lsn as nat, 8) + le_bytes((v.bytes.len() as u16) as nat, 2) + v.bytes
    }

    open spec fn spec_decode(s: Seq<u8>) -> Decoded<KeyView> {
        match decode_le(s, 8) {
            (Ok(lsn), a) => match decode_le(s.skip(a as int), 2) {
                (Ok(len), b) => match decode_raw(s.skip((a + b) as int), len) {
                    (Ok(bytes), c) => (Ok(KeyView { bytes, lsn: lsn as u64 }), a + b + c),
                    (Err(e), c) => (Err(e), a + b + c),
                },
                (Err(e), b) => (Err(e), a + b),
            },
            (Err(e), a) => (Err(e), a),
        }
    }

    open spec fn encodable(v: KeyView) -> bool {
        v.bytes.len() <= u16::MAX
    }

    proof fn lemma_decode_bound(s: Seq<u8>) {
        lemma_decode_le_bound(s, 8);
        if s.len() >= 8 {
            lemma_decode_le_bound(s.skip(8), 2);
        }
    }

    proof fn lemma_round_trip(v: KeyView, rest: Seq<u8>) {
        le::lemma_le_range();
        let head = le_bytes(v.lsn as nat, 8);
        let mid = le_bytes(v.bytes.len(), 2);
        le::lemma_le_bytes_len(v.lsn as nat, 8);
        le::lemma_le_bytes_len(v.bytes.len(), 2);
        let whole = Self::spec_encode(v) + rest;
        assert(whole =~= head + (mid + (v.bytes + rest)));
        lemma_decode_le_round_trip(v.lsn as nat, 8, mid + (v.bytes + rest));
        assert(whole.skip(8) =~= mid + (v.bytes + rest));
        lemma_decode_le_round_trip(v.bytes.len(), 2, v.bytes + rest);
        assert(whole.skip(10) =~= v.bytes + rest);
        assert((v.bytes + rest).take(v.bytes.len() as int) =~= v.bytes);
    }

    fn encode(&self, writer: &mut Vec<u8>) {
        put_le(writer, self.lsn, 8);
        put_le(writer, (self.bytes.len() as u16) as u64, 2);
        writer.extend_from_slice(self.bytes.as_slice());
        assert(writer@ =~= old(writer)@ + Self::spec_encode(self@));
    }

    fn decode(reader: &mut &[u8]) -> (r: Result<Self, DbError>) {
        let ghost s = reader@;
        proof {
            le::lemma_le_range();
            lemma_decode_le_bound(s, 8);
            if s.len() >= 8 {
                lemma_decode_le_bound(s.skip(8), 2);
                if s.len() >= 10 {
                    assert(s.skip(8).skip(2) =~= s.skip(10));
                }
                assert(s.skip(8).skip(s.len() - 8) =~= s.skip(s.len() as int));
            }
        }
        let lsn: u64 = match read_le(reader, 8) {
            Ok(x) => x,
            Err(e) => {
                return Err(e);
            },
        };
        let len: u64 = match read_le(reader, 2) {
            Ok(x) => x,
            Err(e) => {
                return Err(e);
            },
        };
        let ghost used = decode_raw(reader@, len as nat).1;
        proof {
            assert(s.skip(10).skip(used as int) =~= s.skip((10 + used) as int));
        }
        match read_exact(reader, len as usize) {
            Ok(b) => Ok(Key { lsn, bytes: slice_to_vec(b) }),
            Err(e) => Err(e),
        }
    }
}

} // verus!
