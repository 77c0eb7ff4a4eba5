//! A Bloom filter: it may claim a key that was never set, but never misses one that was.

use crate::data_stores::le::{le_bytes, put_le};
use crate::data_stores::{decode_items, encode_items, le, lemma_items_round_trip};
use crate::err::DbError;
use siphasher::sip::SipHasher13;
use vstd::prelude::*;

verus! {

/// The SipHash-1-3 of `message` under the key `(k0, k1)`.
pub uninterp spec fn sip13(k0: u64, k1: u64, message: Seq<u8>) -> u64;

/// `SipHasher13::new_with_keys(k0, k1).hash(message)`: the hash is a function of the two
/// halves of the key and the message alone.
#[verifier::external_body]
fn sip_hash(k0: u64, k1: u64, message: &[u8]) -> (h: u64)
    ensures
        h == sip13(k0, k1, message@),
{
    SipHasher13::new_with_keys(k0, k1).hash(message)
}

#[verifier::external_type_specification]
#[verifier::external_body]
pub struct ExBincodeErrorKind(bincode::ErrorKind);

/// What a serialized filter consists of: the bitmap, its size in bits, the number of
/// probes and the two SipHash keys.
pub type FilterParts = (Vec<u64>, u64, u32, [(u64, u64); 2]);

/// The serialized form: the number of words, the words, the size in bits, the number of
/// probes and the two keys, all little-endian and of fixed width.
pub open spec fn filter_bytes(
    bitmap: Seq<u64>,
    bitmap_bits: u64,
    k_num: u32,
    sip_keys: Seq<(u64, u64)>,
) -> Seq<u8> {
    le_bytes(bitmap.len(), 8) + encode_items::<u64>(bitmap) + le_bytes(bitmap_bits as nat, 8)
        + le_bytes(k_num as nat, 4) + le_bytes(sip_keys[0].0 as nat, 8) + le_bytes(
        sip_keys[0].1 as nat,
        8,
    ) + le_bytes(sip_keys[1].0 as nat, 8) + le_bytes(sip_keys[1].1 as nat, 8)
}

pub open spec fn is_prefix(p: Seq<u8>, s: Seq<u8>) -> bool {
    p.len() <= s.len() && s.take(p.len() as int) == p
}

/// `bincode::serialize` on a vector, two integers and an array of pairs: each integer in
/// its own width, little-endian, the vector behind its length as a `u64`, and nothing
/// around the tuples and the array. With no size limit it cannot fail.
#[verifier::external_body]
fn bincode_serialize(
    bitmap: &Vec<u64>,
    bitmap_bits: u64,
    k_num: u32,
    sip_keys: [(u64, u64); 2],
) -> (r: Result<Vec<u8>, Box<bincode::ErrorKind>>)
    ensures
        r is Ok,
        r->Ok_0@ == filter_bytes(bitmap@, bitmap_bits, k_num, sip_keys@),
{
    bincode::serialize(&(bitmap, bitmap_bits, k_num, sip_keys))
}

/// `bincode::deserialize` to a vector, two integers and an array of pairs: the value whose
/// serialized form the input starts with; it ignores what follows, and fails where the
/// input starts with no serialized form.
#[verifier::external_body]
fn bincode_deserialize(bytes: &[u8]) -> (r: Result<FilterParts, Box<bincode::ErrorKind>>)
    ensures
        match r {
            Ok(v) => is_prefix(filter_bytes(v.0@, v.1, v.2, v.3@), bytes@),
            Err(_) => forall|bitmap: Seq<u64>, bits: u64, k: u32, keys: Seq<(u64, u64)>|
                keys.len() == 2 ==> !is_prefix(
                    #[trigger] filter_bytes(bitmap, bits, k, keys),
                    bytes@,
                ),
        },
{
    bincode::deserialize(bytes)
}

/// A Bloom filter over byte strings.
#[derive(Debug, Clone)]
pub struct BloomFilter {
    pub bitmap: Vec<u64>,
    pub bitmap_bits: u64,
    pub k_num: u32,
    pub sip_keys: [(u64, u64); 2],
}

/// The mathematical value of a [`BloomFilter`].
#[verifier::ext_equal]
pub struct BloomView {
    pub bitmap: Seq<u64>,
    pub bitmap_bits: u64,
    pub k_num: u32,
    pub sip_keys: Seq<(u64, u64)>,
}

impl View for BloomFilter {
    type V = BloomView;

    open spec fn view(&self) -> BloomView {
        BloomView {
            bitmap: self.bitmap@,
            bitmap_bits: self.bitmap_bits,
            k_num: self.k_num,
            sip_keys: self.sip_keys@,
        }
    }
}

/// What is hashed for a key: its length as a `u64`, then its bytes.
pub open spec fn hash_input(key: Seq<u8>) -> Seq<u8> {
    le_bytes(key.len(), 8) + key
}

/// Bit `b` of a word.
pub open spec fn bit_of(word: u64, b: u64) -> bool {
    word & (1u64 << b) != 0
}

impl BloomView {
    pub open spec fn h1(self, key: Seq<u8>) -> u64 {
        sip13(self.sip_keys[0].0, self.sip_keys[0].1, hash_input(key))
    }

    pub open spec fn h2(self, key: Seq<u8>) -> u64 {
        sip13(self.sip_keys[1].0, self.sip_keys[1].1, hash_input(key))
    }

    /// The bit that the `i`-th probe for `key` looks at (double hashing).
    pub open spec fn probe(self, key: Seq<u8>, i: int) -> int {
        ((self.h1(key) + i * self.h2(key)) % 0x1_0000_0000_0000_0000) % (self.bitmap_bits as int)
    }

    /// Bit `j` of the bitmap.
    pub open spec fn bit(self, j: int) -> bool {
        bit_of(self.bitmap[j / 64], (j % 64) as u64)
    }

    /// The filter with bit `j` set.
    pub open spec fn with_bit(self, j: int) -> BloomView {
        BloomView {
            bitmap: self.bitmap.update(
                j / 64,
                self.bitmap[j / 64] | (1u64 << ((j % 64) as u64)),
            ),
            ..self
        }
    }

    /// Every probe falls inside the bitmap.
    pub open spec fn wf(self) -> bool {
        &&& self.sip_keys.len() == 2
        &&& self.k_num > 0 ==> 0 < self.bitmap_bits <= 64 * self.bitmap.len()
    }

    /// Whether the filter claims `key`: all its bits are set.
    pub open spec fn claims(self, key: Seq<u8>) -> bool {
        forall|i: int| 0 <= i < self.k_num ==> self.bit(#[trigger] self.probe(key, i))
    }

    pub open spec fn probed(self, key: Seq<u8>, j: int) -> bool {
        exists|i: int| 0 <= i < self.k_num && #[trigger] self.probe(key, i) == j
    }

    /// The bits that are set are those of `keys`, and no others.
    pub open spec fn holds_exactly(self, keys: Seq<Seq<u8>>) -> bool {
        forall|j: int|
            0 <= j < 64 * self.bitmap.len() ==> (#[trigger] self.bit(j) <==> exists|n: int|
                0 <= n < keys.len() && self.probed(#[trigger] keys[n], j))
    }

    pub open spec fn same_shape(self, other: BloomView) -> bool {
        &&& self.bitmap.len() == other.bitmap.len()
        &&& self.bitmap_bits == other.bitmap_bits
        &&& self.k_num == other.k_num
        &&& self.sip_keys == other.sip_keys
    }

    pub open spec fn serialized(self) -> Seq<u8> {
        filter_bytes(self.bitmap, self.bitmap_bits, self.k_num, self.sip_keys)
    }
}

proof fn lemma_set_bit(w: u64, b: u64, c: u64)
    requires
        b < 64,
        c < 64,
    ensures
        bit_of(w | (1u64 << b), c) == (c == b || bit_of(w, c)),
{
    assert(((w | (1u64 << b)) & (1u64 << c) != 0) == (c == b || (w & (1u64 << c) != 0)))
        by (bit_vector)
        requires
            b < 64,
            c < 64,
    ;
}

/// Setting a bit sets that one and changes no other.
pub proof fn lemma_with_bit(f: BloomView, i: int, j: int)
    requires
        0 <= i < 64 * f.bitmap.len(),
        0 <= j < 64 * f.bitmap.len(),
    ensures
        f.with_bit(i).bit(j) <==> j == i || f.bit(j),
        f.same_shape(f.with_bit(i)),
{
    lemma_set_bit(f.bitmap[i / 64], (i % 64) as u64, (j % 64) as u64);
}

proof fn lemma_probe_range(f: BloomView, key: Seq<u8>, i: int)
    requires
        f.bitmap_bits > 0,
    ensures
        0 <= f.probe(key, i) < f.bitmap_bits,
{
}

/// No false negatives: a filter that holds exactly some keys claims each of them.
pub proof fn lemma_no_false_negatives(f: BloomView, keys: Seq<Seq<u8>>, n: int)
    requires
        f.wf(),
        f.holds_exactly(keys),
        0 <= n < keys.len(),
    ensures
        f.claims(keys[n]),
{
    assert forall|i: int| 0 <= i < f.k_num implies f.bit(#[trigger] f.probe(keys[n], i)) by {
        lemma_probe_range(f, keys[n], i);
        assert(f.probed(keys[n], f.probe(keys[n], i)));
    }
}

/// A filter that holds exactly some keys claims a key only where each of its bits is a bit of
/// one of them; where there are none, it claims nothing.
pub proof fn lemma_claims(f: BloomView, keys: Seq<Seq<u8>>, key: Seq<u8>)
    requires
        f.wf(),
        f.k_num > 0,
        f.holds_exactly(keys),
    ensures
        f.claims(key) <==> forall|i: int|
            0 <= i < f.k_num ==> exists|n: int, m: int|
                0 <= n < keys.len() && 0 <= m < f.k_num && #[trigger] f.probe(keys[n], m)
                    == #[trigger] f.probe(key, i),
        keys.len() == 0 ==> !f.claims(key),
{
    assert forall|i: int| 0 <= i < f.k_num implies (f.bit(f.probe(key, i)) <==> exists|
        n: int,
        m: int,
    |
        0 <= n < keys.len() && 0 <= m < f.k_num && #[trigger] f.probe(keys[n], m)
            == #[trigger] f.probe(key, i)) by {
        lemma_probe_range(f, key, i);
        let j = f.probe(key, i);
        if f.bit(j) {
            let n = choose|n: int| 0 <= n < keys.len() && f.probed(#[trigger] keys[n], j);
            let m = choose|m: int| 0 <= m < f.k_num && #[trigger] f.probe(keys[n], m) == j;
            assert(f.probe(keys[n], m) == f.probe(key, i));
        }
        if exists|n: int, m: int|
            0 <= n < keys.len() && 0 <= m < f.k_num && #[trigger] f.probe(keys[n], m)
                == #[trigger] f.probe(key, i) {
            let (n, m) = choose|n: int, m: int|
                0 <= n < keys.len() && 0 <= m < f.k_num && #[trigger] f.probe(keys[n], m)
                    == #[trigger] f.probe(key, i);
            assert(f.probed(keys[n], j));
        }
    }
    if f.claims(key) {
        assert forall|i: int| 0 <= i < f.k_num implies exists|n: int, m: int|
            0 <= n < keys.len() && 0 <= m < f.k_num && #[trigger] f.probe(keys[n], m)
                == #[trigger] f.probe(key, i) by {
            assert(f.bit(f.probe(key, i)));
        }
        if keys.len() == 0 {
            assert(f.bit(f.probe(key, 0)));
        }
    }
    if forall|i: int|
        0 <= i < f.k_num ==> exists|n: int, m: int|
            0 <= n < keys.len() && 0 <= m < f.k_num && #[trigger] f.probe(keys[n], m)
                == #[trigger] f.probe(key, i) {
        assert forall|i: int| 0 <= i < f.k_num implies f.bit(#[trigger] f.probe(key, i)) by {}
    }
}

/// The bits of a key are found by double hashing: from a hash of its length and its bytes, in
/// steps of a second one, on 64 bits and then on the size of the filter.
pub proof fn lemma_probes(f: BloomView, key: Seq<u8>, i: int)
    requires
        f.bitmap_bits > 0,
    ensures
        ({
            let message = le_bytes(key.len(), 8) + key;
            let a = sip13(f.sip_keys[0].0, f.sip_keys[0].1, message);
            let b = sip13(f.sip_keys[1].0, f.sip_keys[1].1, message);
            &&& f.probe(key, 0) == a % f.bitmap_bits
            &&& f.probe(key, i) == ((a + i * b) % 0x1_0000_0000_0000_0000) % (
            f.bitmap_bits as int)
            &&& 0 <= f.probe(key, i) < f.bitmap_bits
        }),
{
    assert(0 * f.h2(key) == 0);
}

/// Setting one more key keeps the filter exact.
pub proof fn lemma_holds_exactly_push(f: BloomView, g: BloomView, keys: Seq<Seq<u8>>, key: Seq<u8>)
    requires
        f.holds_exactly(keys),
        f.same_shape(g),
        forall|j: int|
            0 <= j < 64 * f.bitmap.len() ==> (#[trigger] g.bit(j) <==> f.bit(j) || f.probed(
                key,
                j,
            )),
    ensures
        g.holds_exactly(keys.push(key)),
{
    let more = keys.push(key);
    assert forall|j: int| 0 <= j < 64 * g.bitmap.len() implies (#[trigger] g.bit(j)
        <==> exists|n: int| 0 <= n < more.len() && g.probed(#[trigger] more[n], j)) by {
        assert forall|k: Seq<u8>| #[trigger] g.probed(k, j) == f.probed(k, j) by {
            if g.probed(k, j) {
                let i = choose|i: int| 0 <= i < g.k_num && #[trigger] g.probe(k, i) == j;
                assert(f.probe(k, i) == j);
            }
            if f.probed(k, j) {
                let i = choose|i: int| 0 <= i < f.k_num && #[trigger] f.probe(k, i) == j;
                assert(g.probe(k, i) == j);
            }
        }
        if f.probed(key, j) {
            assert(more[keys.len() as int] == key);
        }
        if f.bit(j) {
            let n = choose|n: int| 0 <= n < keys.len() && f.probed(#[trigger] keys[n], j);
            assert(more[n] == keys[n]);
        }
        if exists|n: int| 0 <= n < more.len() && g.probed(#[trigger] more[n], j) {
            let n = choose|n: int| 0 <= n < more.len() && g.probed(#[trigger] more[n], j);
            if n < keys.len() {
                assert(f.probed(keys[n], j));
            }
        }
    }
}

/// A serialized filter starts with no other filter's serialized form.
pub proof fn lemma_serialized_injective(f: BloomView, g: BloomView, rest: Seq<u8>)
    requires
        f.bitmap.len() <= u64::MAX,
        g.bitmap.len() <= u64::MAX,
        f.sip_keys.len() == 2,
        g.sip_keys.len() == 2,
        is_prefix(f.serialized(), g.serialized() + rest),
    ensures
        f == g,
{
    let fs = f.serialized();
    let gs = g.serialized();
    let tail = (gs + rest).skip(fs.len() as int);
    assert(fs + tail =~= gs + rest);
    lemma_serialized_layout(f, tail);
    lemma_serialized_layout(g, rest);
    let s = gs + rest;
    let fw = encode_items::<u64>(f.bitmap).len();
    let gw = encode_items::<u64>(g.bitmap).len();
    assert(f.bitmap.len() == g.bitmap.len());
    assert(decode_items::<u64>(f.bitmap.len(), s.skip(8)) == (
        Ok::<Seq<u64>, DbError>(f.bitmap),
        fw,
    ));
    assert(f.bitmap == g.bitmap);
    assert(f.sip_keys =~= g.sip_keys);
    assert(f =~= g);
}

/// Where each part of a serialized filter stands.
proof fn lemma_serialized_layout(f: BloomView, rest: Seq<u8>)
    requires
        f.bitmap.len() <= u64::MAX,
        f.sip_keys.len() == 2,
    ensures
        ({
            let s = f.serialized() + rest;
            let w = encode_items::<u64>(f.bitmap).len();
            &&& f.serialized().len() == 52 + w
            &&& le::le_value(s.subrange(0, 8)) == f.bitmap.len()
            &&& decode_items::<u64>(f.bitmap.len(), s.skip(8)) == (
                Ok::<Seq<u64>, DbError>(f.bitmap),
                w,
            )
            &&& le::le_value(s.subrange((8 + w) as int, (16 + w) as int)) == f.bitmap_bits
            &&& le::le_value(s.subrange((16 + w) as int, (20 + w) as int)) == f.k_num
            &&& le::le_value(s.subrange((20 + w) as int, (28 + w) as int)) == f.sip_keys[0].0
            &&& le::le_value(s.subrange((28 + w) as int, (36 + w) as int)) == f.sip_keys[0].1
            &&& le::le_value(s.subrange((36 + w) as int, (44 + w) as int)) == f.sip_keys[1].0
            &&& le::le_value(s.subrange((44 + w) as int, (52 + w) as int)) == f.sip_keys[1].1
        }),
{
    le::lemma_le_range();
    let s = f.serialized() + rest;
    let words = encode_items::<u64>(f.bitmap);
    let w = words.len() as int;
    let a = le_bytes(f.bitmap.len(), 8);
    let b = le_bytes(f.bitmap_bits as nat, 8);
    let c = le_bytes(f.k_num as nat, 4);
    let k0 = le_bytes(f.sip_keys[0].0 as nat, 8);
    let k1 = le_bytes(f.sip_keys[0].1 as nat, 8);
    let k2 = le_bytes(f.sip_keys[1].0 as nat, 8);
    let k3 = le_bytes(f.sip_keys[1].1 as nat, 8);
    le::lemma_le_bytes_len(f.bitmap.len(), 8);
    le::lemma_le_bytes_len(f.bitmap_bits as nat, 8);
    le::lemma_le_bytes_len(f.k_num as nat, 4);
    le::lemma_le_bytes_len(f.sip_keys[0].0 as nat, 8);
    le::lemma_le_bytes_len(f.sip_keys[0].1 as nat, 8);
    le::lemma_le_bytes_len(f.sip_keys[1].0 as nat, 8);
    le::lemma_le_bytes_len(f.sip_keys[1].1 as nat, 8);
    le::lemma_le_round_trip(f.bitmap.len(), 8);
    le::lemma_le_round_trip(f.bitmap_bits as nat, 8);
    le::lemma_le_round_trip(f.k_num as nat, 4);
    le::lemma_le_round_trip(f.sip_keys[0].0 as nat, 8);
    le::lemma_le_round_trip(f.sip_keys[0].1 as nat, 8);
    le::lemma_le_round_trip(f.sip_keys[1].0 as nat, 8);
    le::lemma_le_round_trip(f.sip_keys[1].1 as nat, 8);
    assert(s.subrange(0, 8) =~= a);
    assert(s.subrange(8 + w, 16 + w) =~= b);
    assert(s.subrange(16 + w, 20 + w) =~= c);
    assert(s.subrange(20 + w, 28 + w) =~= k0);
    assert(s.subrange(28 + w, 36 + w) =~= k1);
    assert(s.subrange(36 + w, 44 + w) =~= k2);
    assert(s.subrange(44 + w, 52 + w) =~= k3);
    let after = s.skip(8 + w);
    assert(s.skip(8) =~= words + after);
    lemma_items_round_trip::<u64>(f.bitmap, after);
}

impl BloomFilter {
    /// An empty filter of `num_bits` bits with `k_num` probes per key.
    pub fn with_size(num_bits: u64, k_num: u32) -> (filter: BloomFilter)
        requires
            num_bits <= u64::MAX - 63,
            (num_bits + 63) / 64 <= usize::MAX,
        ensures
            filter.bitmap@ == Seq::new(((num_bits + 63) / 64) as nat, |i: int| 0u64),
            filter.bitmap_bits == num_bits,
            filter.k_num == k_num,
            filter.sip_keys@ == seq![
                (0x5068486940525249u64, 0x1234567890ABCDEFu64),
                (0xFEDCBA0987654321u64, 0x1029384756102938u64),
            ],
            num_bits > 0 ==> filter@.wf(),
            filter@.holds_exactly(Seq::empty()),
    {
        let bitmap_size: usize = ((num_bits + 63) / 64) as usize;
        let mut bitmap: Vec<u64> = Vec::new();
        bitmap.resize(bitmap_size, 0);
        let filter = BloomFilter {
            bitmap,
            bitmap_bits: num_bits,
            k_num,
            sip_keys: [
                (0x5068486940525249, 0x1234567890ABCDEF),
                (0xFEDCBA0987654321, 0x1029384756102938),
            ],
        };
        proof {
            assert forall|b: u64| !bit_of(0, b) by {
                assert(0u64 & (1u64 << b) == 0) by (bit_vector);
            }
            assert(filter.bitmap@ =~= Seq::new(bitmap_size as nat, |i: int| 0u64));
        }
        filter
    }

    /// Adds `key` to the filter.
    pub fn set(&mut self, key: &[u8])
        requires
            old(self)@.wf(),
        ensures
            final(self)@.wf(),
            old(self)@.same_shape(final(self)@),
            forall|j: int|
                0 <= j < 64 * old(self)@.bitmap.len() ==> (#[trigger] final(self)@.bit(j) <==> old(
                    self,
                )@.bit(j) || old(self)@.probed(key@, j)),
    {
        let (h1, h2) = self.hash_kernel(key);
        let ghost start = self@;
        let mut i: u32 = 0;
        while i < self.k_num
            invariant
                i <= self.k_num,
                start == old(self)@,
                start.wf(),
                start.same_shape(self@),
                h1 == start.h1(key@),
                h2 == start.h2(key@),
                forall|j: int|
                    0 <= j < 64 * start.bitmap.len() ==> (#[trigger] self@.bit(j) <==> start.bit(j)
                        || exists|n: int| 0 <= n < i && #[trigger] start.probe(key@, n) == j),
            decreases self.k_num - i,
        {
            let idx: u64 = probe_index(h1, h2, i, self.bitmap_bits);
            let ghost before = self@;
            self.set_bit(idx);
            proof {
                assert forall|j: int| 0 <= j < 64 * start.bitmap.len() implies (#[trigger] self@.bit(
                    j,
                ) <==> start.bit(j) || exists|n: int|
                    0 <= n < i + 1 && #[trigger] start.probe(key@, n) == j) by {
                    assert(start.probe(key@, i as int) == idx);
                    lemma_with_bit(before, idx as int, j);
                }
            }
            i = i + 1;
        }
        proof {
            assert forall|j: int| 0 <= j < 64 * start.bitmap.len() implies (#[trigger] self@.bit(j)
                <==> start.bit(j) || start.probed(key@, j)) by {}
        }
    }

    /// Whether the filter claims `key`.
    pub fn check(&self, key: &[u8]) -> (r: bool)
        requires
            self@.wf(),
        ensures
            r == self@.claims(key@),
    {
        let (h1, h2) = self.hash_kernel(key);
        let mut i: u32 = 0;
        while i < self.k_num
            invariant
                i <= self.k_num,
                self@.wf(),
                h1 == self@.h1(key@),
                h2 == self@.h2(key@),
                forall|n: int| 0 <= n < i ==> self@.bit(#[trigger] self@.probe(key@, n)),
            decreases self.k_num - i,
        {
            let idx: u64 = probe_index(h1, h2, i, self.bitmap_bits);
            assert(self@.probe(key@, i as int) == idx);
            if !self.get_bit(idx) {
                return false;
            }
            i = i + 1;
        }
        true
    }

    fn hash_kernel(&self, key: &[u8]) -> (h: (u64, u64))
        requires
            self@.wf(),
        ensures
            h.0 == self@.h1(key@),
            h.1 == self@.h2(key@),
    {
        let mut message: Vec<u8> = Vec::new();
        put_le(&mut message, key.len() as u64, 8);
        message.extend_from_slice(key);
        assert(message@ =~= hash_input(key@));
        let h1: u64 = sip_hash(self.sip_keys[0].0, self.sip_keys[0].1, message.as_slice());
        let h2: u64 = sip_hash(self.sip_keys[1].0, self.sip_keys[1].1, message.as_slice());
        (h1, h2)
    }

    /// Sets a bit.
    pub fn set_bit(&mut self, idx: u64)
        requires
            idx < 64 * old(self)@.bitmap.len(),
        ensures
            final(self)@ == old(self)@.with_bit(idx as int),
    {
        assert(idx / 64 < self.bitmap.len());
        let word_idx: usize = (idx / 64) as usize;
        let bit_idx: u64 = idx % 64;
        let word: u64 = self.bitmap[word_idx];
        self.bitmap.set(word_idx, word | (1u64 << bit_idx));
        assert(self@ =~= old(self)@.with_bit(idx as int));
    }

    /// Whether a bit is set.
    pub fn get_bit(&self, idx: u64) -> (r: bool)
        requires
            idx < 64 * self@.bitmap.len(),
        ensures
            r == self@.bit(idx as int),
    {
        assert(idx / 64 < self.bitmap.len());
        let word_idx: usize = (idx / 64) as usize;
        let bit_idx: u64 = idx % 64;
        (self.bitmap[word_idx] & (1u64 << bit_idx)) != 0
    }

    /// Whether every probe falls inside the bitmap, as it must before [`Self::check`].
    pub fn is_valid(&self) -> (r: bool)
        ensures
            r == self@.wf(),
    {
        if self.k_num == 0 {
            true
        } else if self.bitmap_bits == 0 {
            false
        } else {
            (self.bitmap_bits - 1) / 64 < self.bitmap.len() as u64
        }
    }

    /// The filter as bytes.
    pub fn serialize(&self) -> (r: Result<Vec<u8>, DbError>)
        ensures
            r matches Ok(bytes) && bytes@ == self@.serialized(),
    {
        match bincode_serialize(&self.bitmap, self.bitmap_bits, self.k_num, self.sip_keys) {
            Ok(bytes) => Ok(bytes),
            Err(_) => Err(DbError::ManifestCorrupted),
        }
    }

    /// The filter whose bytes `bytes` start with.
    pub fn deserialize(bytes: &[u8]) -> (r: Result<BloomFilter, DbError>)
        ensures
            match r {
                Ok(f) => f@.sip_keys.len() == 2 && f@.bitmap.len() <= u64::MAX && is_prefix(
                    f@.serialized(),
                    bytes@,
                ),
                Err(e) => e == DbError::ManifestCorrupted && forall|f: BloomView|
                    f.sip_keys.len() == 2 ==> !is_prefix(#[trigger] f.serialized(), bytes@),
            },
    {
        match bincode_deserialize(bytes) {
            Ok((bitmap, bitmap_bits, k_num, sip_keys)) => {
                assert(sip_keys@.len() == 2);
                assert(bitmap.len() <= u64::MAX);
                Ok(BloomFilter { bitmap, bitmap_bits, k_num, sip_keys })
            },
            Err(_) => Err(DbError::ManifestCorrupted),
        }
    }
}

fn probe_index(h1: u64, h2: u64, i: u32, bits: u64) -> (idx: u64)
    requires
        bits > 0,
    ensures
        idx == ((h1 + i * h2) % 0x1_0000_0000_0000_0000) % (bits as int),
        idx < bits,
{
    let step: u64 = (i as u64).wrapping_mul(h2);
    let at: u64 = h1.wrapping_add(step);
    proof {
        let r = 0x1_0000_0000_0000_0000int;
        let p = i as nat * h2 as nat;
        assert(p == i * h2);
        assert(0 <= (p as int) % r < r);
        assert(step == (p as int) % r);
        assert(at == (h1 + step) % r);
        vstd::arithmetic::div_mod::lemma_add_mod_noop_right(h1 as int, p as int, r);
        assert(at == (h1 + i * h2) % r);
    }
    at % bits
}

} // verus!
