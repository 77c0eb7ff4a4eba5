//! Records of two or three fields, and runs of records that fill their space.

use crate::data_stores::{encode_items, lemma_encode_items_first, Decoded, Loggable};
use crate::err::DbError;
use vstd::prelude::*;

verus! {

// --- Pairs and triples: the fields one after the other ---

impl<A: Loggable, B: Loggable> Loggable for (A, B) {
    open spec fn spec_encode(v: (A::V, B::V)) -> Seq<u8> {
        A::spec_encode(v.0) + B::spec_encode(v.1)
    }

    open spec fn spec_decode(s: Seq<u8>) -> Decoded<(A::V, B::V)> {
        match A::spec_decode(s) {
            (Ok(a), m) => match B::spec_decode(s.skip(m as int)) {
                (Ok(b), n) => (Ok((a, b)), m + n),
                (Err(e), n) => (Err(e), m + n),
            },
            (Err(e), m) => (Err(e), m),
        }
    }

    open spec fn encodable(v: (A::V, B::V)) -> bool {
        A::encodable(v.0) && B::encodable(v.1)
    }

    proof fn lemma_decode_bound(s: Seq<u8>) {
        let (a, m) = A::spec_decode(s);
        A::lemma_decode_bound(s);
        let (b, n) = B::spec_decode(s.skip(m as int));
        B::lemma_decode_bound(s.skip(m as int));
        if a is Ok {
            assert(Self::spec_decode(s).1 == m + n);
            assert(Self::spec_decode(s).0 is Ok == b is Ok);
        } else {
            assert(Self::spec_decode(s).1 == m);
        }
    }

    proof fn lemma_round_trip(v: (A::V, B::V), rest: Seq<u8>) {
        let a = A::spec_encode(v.0);
        let b = B::spec_encode(v.1);
        let s = Self::spec_encode(v) + rest;
        assert(s =~= a + (b + rest));
        A::lemma_round_trip(v.0, b + rest);
        assert(s.skip(a.len() as int) =~= b + rest);
        B::lemma_round_trip(v.1, rest);
    }

    fn encode(&self, writer: &mut Vec<u8>) {
        self.0.encode(writer);
        self.1.encode(writer);
        assert(writer@ =~= old(writer)@ + Self::spec_encode(self.deep_view()));
    }

    fn decode(reader: &mut &[u8]) -> (r: Result<Self, DbError>) {
        let ghost s = reader@;
        let ghost m = A::spec_decode(s).1;
        let ghost n = B::spec_decode(s.skip(m as int)).1;
        proof {
            A::lemma_decode_bound(s);
            B::lemma_decode_bound(s.skip(m as int));
            assert(s.skip(m as int).skip(n as int) =~= s.skip((m + n) as int));
        }
        let a = match A::decode(reader) {
            Ok(a) => a,
            Err(e) => {
                return Err(e);
            },
        };
        let b = match B::decode(reader) {
            Ok(b) => b,
            Err(e) => {
                return Err(e);
            },
        };
        Ok((a, b))
    }
}

impl<A: Loggable, B: Loggable, C: Loggable> Loggable for (A, B, C) {
    open spec fn spec_encode(v: (A::V, B::V, C::V)) -> Seq<u8> {
        <(A, B) as Loggable>::spec_encode((v.0, v.1)) + C::spec_encode(v.2)
    }

    open spec fn spec_decode(s: Seq<u8>) -> Decoded<(A::V, B::V, C::V)> {
        match <(A, B) as Loggable>::spec_decode(s) {
            (Ok(ab), m) => match C::spec_decode(s.skip(m as int)) {
                (Ok(c), n) => (Ok((ab.0, ab.1, c)), m + n),
                (Err(e), n) => (Err(e), m + n),
            },
            (Err(e), m) => (Err(e), m),
        }
    }

    open spec fn encodable(v: (A::V, B::V, C::V)) -> bool {
        A::encodable(v.0) && B::encodable(v.1) && C::encodable(v.2)
    }

    proof fn lemma_decode_bound(s: Seq<u8>) {
        let (ab, m) = <(A, B) as Loggable>::spec_decode(s);
        <(A, B) as Loggable>::lemma_decode_bound(s);
        let (c, n) = C::spec_decode(s.skip(m as int));
        C::lemma_decode_bound(s.skip(m as int));
        if ab is Ok {
            assert(Self::spec_decode(s).1 == m + n);
            assert(Self::spec_decode(s).0 is Ok == c is Ok);
        } else {
            assert(Self::spec_decode(s).1 == m);
        }
    }

    proof fn lemma_round_trip(v: (A::V, B::V, C::V), rest: Seq<u8>) {
        let ab = <(A, B) as Loggable>::spec_encode((v.0, v.1));
        let c = C::spec_encode(v.2);
        let s = Self::spec_encode(v) + rest;
        assert(s =~= ab + (c + rest));
        <(A, B) as Loggable>::lemma_round_trip((v.0, v.1), c + rest);
        assert(s.skip(ab.len() as int) =~= c + rest);
        C::lemma_round_trip(v.2, rest);
    }

    fn encode(&self, writer: &mut Vec<u8>) {
        self.0.encode(writer);
        self.1.encode(writer);
        self.2.encode(writer);
        assert(writer@ =~= old(writer)@ + Self::spec_encode(self.deep_view()));
    }

    fn decode(reader: &mut &[u8]) -> (r: Result<Self, DbError>) {
        let ghost s = reader@;
        let ghost m = <(A, B) as Loggable>::spec_decode(s).1;
        let ghost n = C::spec_decode(s.skip(m as int)).1;
        proof {
            <(A, B) as Loggable>::lemma_decode_bound(s);
            C::lemma_decode_bound(s.skip(m as int));
            assert(s.skip(m as int).skip(n as int) =~= s.skip((m + n) as int));
        }
        let (a, b) = match <(A, B) as Loggable>::decode(reader) {
            Ok(ab) => ab,
            Err(e) => {
                return Err(e);
            },
        };
        let c = match C::decode(reader) {
            Ok(c) => c,
            Err(e) => {
                return Err(e);
            },
        };
        Ok((a, b, c))
    }
}

// --- Runs: as many items as fill the space ---

/// What reading items to the end of `s` comes to: the items before the first that cannot
/// be read, and why it cannot.
pub open spec fn decode_run<T: Loggable>(s: Seq<u8>) -> (Seq<T::V>, Option<DbError>)
    decreases s.len(),
{
    if s.len() == 0 {
        (Seq::empty(), None)
    } else {
        proof {
            T::lemma_decode_bound(s);
        }
        match T::spec_decode(s) {
            (Ok(v), used) => {
                let (vs, e) = decode_run::<T>(s.skip(used as int));
                (seq![v] + vs, e)
            },
            (Err(e), _) => (Seq::empty(), Some(e)),
        }
    }
}

/// Items that were written one after the other are read to the last.
pub proof fn lemma_run_round_trip<T: Loggable>(items: Seq<T::V>)
    requires
        forall|i: int| 0 <= i < items.len() ==> T::encodable(#[trigger] items[i]),
    ensures
        decode_run::<T>(encode_items::<T>(items)) == (items, None::<DbError>),
    decreases items.len(),
{
    let s = encode_items::<T>(items);
    if items.len() > 0 {
        let tail = items.skip(1);
        let first = T::spec_encode(items[0]);
        lemma_encode_items_first::<T>(items);
        T::lemma_round_trip(items[0], encode_items::<T>(tail));
        T::lemma_decode_bound(s);
        assert(s.skip(first.len() as int) =~= encode_items::<T>(tail));
        lemma_run_round_trip::<T>(tail);
        assert(seq![items[0]] + tail =~= items);
    } else {
        assert(items =~= Seq::<T::V>::empty());
    }
}

/// Reads items to the end of `s`.
pub fn read_run<T: Loggable>(s: &[u8]) -> (r: Result<Vec<T>, DbError>)
    ensures
        match (r, decode_run::<T>(s@)) {
            (Ok(items), (vs, None)) => items.deep_view() == vs,
            (Err(e), (_, Some(f))) => e == f,
            _ => false,
        },
{
    let mut items: Vec<T> = Vec::new();
    let mut reader: &[u8] = s;
    assert(items.deep_view() =~= Seq::<T::V>::empty());
    assert(Seq::<T::V>::empty() + decode_run::<T>(s@).0 =~= decode_run::<T>(s@).0);
    while reader.len() > 0
        invariant
            decode_run::<T>(s@) == (
                items.deep_view() + decode_run::<T>(reader@).0,
                decode_run::<T>(reader@).1,
            ),
        decreases reader@.len(),
    {
        let ghost before = reader@;
        let ghost had = items.deep_view();
        proof {
            T::lemma_decode_bound(before);
        }
        match T::decode(&mut reader) {
            Ok(item) => {
                let ghost v = item.deep_view();
                items.push(item);
                proof {
                    let rest = decode_run::<T>(reader@).0;
                    assert(items.deep_view() =~= had.push(v));
                    assert(had + (seq![v] + rest) =~= had.push(v) + rest);
                }
            },
            Err(e) => {
                return Err(e);
            },
        }
    }
    assert(items.deep_view() + Seq::<T::V>::empty() =~= items.deep_view());
    Ok(items)
}

} // verus!
