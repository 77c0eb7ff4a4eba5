//! Merging sorted tables into one sorted run.

use crate::compact::laws::lemma_entries_member;
use crate::data_stores::key::{
    key_lt, lemma_key_lt_irreflexive, lemma_key_lt_total, lemma_key_lt_transitive, Key,
};
use crate::data_stores::sstable::{step_view, SstableIterator};
use crate::data_stores::table_format::{sorted, Entry, Step, WalkView};
use crate::data_stores::value::Value;
use crate::err::DbError;
use vstd::multiset::Multiset;
use vstd::prelude::*;

verus! {

/// What is left of a source: the entries to come, and the error that they end in, if any.
pub type Stream = (Seq<Entry>, Option<DbError>);

/// The source whose next entry has the smallest key, and the first of equals.
pub open spec fn min_source(sources: Seq<Stream>) -> Option<int>
    decreases sources.len(),
{
    if sources.len() == 0 {
        None
    } else {
        let last = sources.len() - 1;
        let best = min_source(sources.drop_last());
        if sources[last].0.len() == 0 {
            best
        } else {
            match best {
                Some(i) => if key_lt(sources[last].0[0].0, sources[i].0[0].0) {
                    Some(last)
                } else {
                    best
                },
                None => Some(last),
            }
        }
    }
}

/// One step of a merge: the smallest entry of all sources, and what is left of them. Where
/// the source that it came from then turns out to end in an error, the error is given in
/// place of the entry.
pub open spec fn merge_step(sources: Seq<Stream>) -> (Step, Seq<Stream>) {
    match min_source(sources) {
        Some(i) => {
            let (es, error) = sources[i];
            let rest = es.skip(1);
            if rest.len() == 0 && error is Some {
                (Some(Err(error->0)), sources.update(i, (Seq::empty(), None)))
            } else {
                (Some(Ok(es[0])), sources.update(i, (rest, error)))
            }
        },
        None => (None, sources),
    }
}

/// How many entries are left in all sources.
pub open spec fn total(sources: Seq<Stream>) -> nat
    decreases sources.len(),
{
    if sources.len() == 0 {
        0
    } else {
        total(sources.drop_last()) + sources.last().0.len()
    }
}

pub proof fn lemma_total_update(sources: Seq<Stream>, i: int, s: Stream)
    requires
        0 <= i < sources.len(),
    ensures
        total(sources.update(i, s)) == total(sources) - sources[i].0.len() + s.0.len(),
    decreases sources.len(),
{
    let updated = sources.update(i, s);
    if i == sources.len() - 1 {
        assert(updated.drop_last() =~= sources.drop_last());
    } else {
        lemma_total_update(sources.drop_last(), i, s);
        assert(updated.drop_last() =~= sources.drop_last().update(i, s));
    }
}

/// The source that is found has an entry, no entry of another source is smaller, and those
/// before it are larger.
pub proof fn lemma_min_source(sources: Seq<Stream>)
    ensures
        match min_source(sources) {
            Some(i) => {
                &&& 0 <= i < sources.len()
                &&& sources[i].0.len() > 0
                &&& forall|j: int|
                    0 <= j < sources.len() && (#[trigger] sources[j]).0.len() > 0 ==> !key_lt(
                        sources[j].0[0].0,
                        sources[i].0[0].0,
                    )
            },
            None => forall|j: int|
                0 <= j < sources.len() ==> (#[trigger] sources[j]).0.len() == 0,
        },
    decreases sources.len(),
{
    if sources.len() > 0 {
        let shorter = sources.drop_last();
        let last = sources.len() - 1;
        lemma_min_source(shorter);
        assert forall|j: int| 0 <= j < last implies #[trigger] sources[j] == shorter[j] by {}
        if sources[last].0.len() > 0 {
            let e = sources[last].0[0].0;
            lemma_key_lt_irreflexive(e);
            match min_source(shorter) {
                Some(i) => {
                    let b = sources[i].0[0].0;
                    if key_lt(e, b) {
                        assert forall|j: int|
                            0 <= j < sources.len() && (#[trigger] sources[j]).0.len()
                                > 0 implies !key_lt(sources[j].0[0].0, e) by {
                            if j < last && key_lt(sources[j].0[0].0, e) {
                                lemma_key_lt_transitive(sources[j].0[0].0, e, b);
                            }
                        }
                    }
                },
                None => {},
            }
        }
    }
}

/// Of sources whose next entries have the same key, the first one is found: the entries of all
/// sources before it are larger.
pub proof fn lemma_first_of_equals(sources: Seq<Stream>, j: int)
    ensures
        min_source(sources) matches Some(i) ==> (0 <= j < i && sources[j].0.len() > 0 ==> key_lt(
            sources[i].0[0].0,
            sources[j].0[0].0,
        )),
    decreases sources.len(),
{
    if sources.len() > 0 {
        let shorter = sources.drop_last();
        let last = sources.len() - 1;
        lemma_first_of_equals(shorter, j);
        lemma_min_source(shorter);
        lemma_min_source(sources);
        if min_source(sources) == Some(last as int) && 0 <= j < last && sources[j].0.len() > 0 {
            assert(shorter[j].0.len() > 0);
            let b = min_source(shorter)->0;
            let e = sources[last].0[0].0;
            assert(key_lt(e, sources[b].0[0].0));
            lemma_key_lt_total(sources[j].0[0].0, sources[b].0[0].0);
            if key_lt(sources[b].0[0].0, sources[j].0[0].0) {
                lemma_key_lt_transitive(e, sources[b].0[0].0, sources[j].0[0].0);
            }
        }
    }
}

/// What a merge gives up to its end or its first error: the entries, and the error.
pub open spec fn merge_all(sources: Seq<Stream>) -> Stream
    decreases total(sources),
{
    proof {
        lemma_min_source(sources);
        match min_source(sources) {
            Some(i) => {
                lemma_total_update(sources, i, (sources[i].0.skip(1), sources[i].1));
            },
            None => {},
        }
    }
    match merge_step(sources) {
        (None, _) => (Seq::empty(), None),
        (Some(Err(e)), _) => (Seq::empty(), Some(e)),
        (Some(Ok(e)), next) => {
            let (es, error) = merge_all(next);
            (seq![e] + es, error)
        },
    }
}

/// The streams of some walks.
pub open spec fn streams(walks: Seq<WalkView>) -> Seq<Stream> {
    Seq::new(walks.len(), |i: int| walks[i].stream())
}

/// Whether a source fails before its first entry.
pub open spec fn fails_at_once(s: Stream) -> bool {
    s.0.len() == 0 && s.1 is Some
}

/// The walks of some iterators.
pub open spec fn walks_of(iters: Seq<SstableIterator>) -> Seq<WalkView> {
    Seq::new(iters.len(), |i: int| iters[i]@)
}

/// Merges the entries of some tables.
pub struct MergeIterator {
    heads: Vec<Option<(Key, Value)>>,
    iters: Vec<SstableIterator>,
}

/// What is left of a source whose next entry has been read ahead.
pub open spec fn source(head: Option<Entry>, walk: WalkView) -> Stream {
    match head {
        Some(e) => (seq![e] + walk.stream().0, walk.stream().1),
        None => (Seq::empty(), None),
    }
}

impl View for MergeIterator {
    type V = Seq<Stream>;

    closed spec fn view(&self) -> Seq<Stream> {
        Seq::new(
            self.heads@.len(),
            |i: int| source(self.heads@[i].deep_view(), self.iters@[i]@),
        )
    }
}

impl MergeIterator {
    pub closed spec fn wf(&self) -> bool {
        &&& self.heads@.len() == self.iters@.len()
        &&& forall|i: int| 0 <= i < self.iters@.len() ==> (#[trigger] self.iters@[i]).wf()
    }

    pub fn new(iters: Vec<SstableIterator>) -> (r: Result<MergeIterator, DbError>)
        requires
            forall|i: int| 0 <= i < iters@.len() ==> (#[trigger] iters@[i]).wf(),
        ensures
            match r {
                Ok(merge) => {
                    &&& merge.wf()
                    &&& merge@ == streams(walks_of(iters@))
                    &&& forall|i: int|
                        0 <= i < iters@.len() ==> !fails_at_once(#[trigger] iters@[i]@.stream())
                    &&& merge@.len() == iters@.len()
                    &&& forall|i: int|
                        0 <= i < iters@.len() ==> #[trigger] merge@[i] == iters@[i]@.stream()
                },
                Err(e) => exists|i: int|
                    {
                        &&& 0 <= i < iters@.len()
                        &&& fails_at_once((#[trigger] iters@[i])@.stream())
                        &&& iters@[i]@.stream().1 == Some(e)
                        &&& forall|j: int|
                            0 <= j < i ==> !fails_at_once(#[trigger] iters@[j]@.stream())
                    },
            },
    {
        let ghost start = iters@;
        let mut read = iters;
        let mut heads: Vec<Option<(Key, Value)>> = Vec::new();
        let mut i: usize = 0;
        while i < read.len()
            invariant
                start == iters@,
                i <= read@.len(),
                heads@.len() == i,
                read@.len() == start.len(),
                forall|j: int| 0 <= j < read@.len() ==> (#[trigger] read@[j]).wf(),
                forall|j: int| i <= j < read@.len() ==> #[trigger] read@[j] == start[j],
                forall|j: int|
                    0 <= j < i ==> source(
                        (#[trigger] heads@[j]).deep_view(),
                        read@[j]@,
                    ) == start[j]@.stream(),
                forall|j: int| 0 <= j < i ==> !fails_at_once(#[trigger] start[j]@.stream()),
            decreases read@.len() - i,
        {
            let ghost walk = read@[i as int]@;
            let step = read[i].next();
            assert((step_view(step), read@[i as int]@) == walk.step());
            match step {
                Some(Ok(entry)) => {
                    heads.push(Some(entry));
                },
                Some(Err(e)) => {
                    proof {
                        let failed = start[i as int]@;
                        assert(failed.stream() == (Seq::<Entry>::empty(), Some(e)));
                        assert(fails_at_once(start[i as int]@.stream()));
                    }
                    return Err(e);
                },
                None => {
                    heads.push(None);
                },
            }
            i = i + 1;
        }
        let merge = MergeIterator { heads, iters: read };
        assert(merge@ =~= streams(walks_of(start)));
        Ok(merge)
    }

    /// The source whose head is smallest.
    fn find_min(&self) -> (r: Option<usize>)
        requires
            self.wf(),
        ensures
            match (r, min_source(self@)) {
                (Some(i), Some(j)) => {
                    i == j && i < self.heads@.len() && self.heads@[i as int] is Some
                },
                (None, None) => true,
                _ => false,
            },
    {
        let mut best: Option<usize> = None;
        let mut i: usize = 0;
        let ghost sources = self@;
        while i < self.heads.len()
            invariant
                self.wf(),
                sources == self@,
                i <= self.heads@.len(),
                match (best, min_source(sources.take(i as int))) {
                    (Some(b), Some(j)) => b == j && b < i && self.heads@[b as int] is Some,
                    (None, None) => true,
                    _ => false,
                },
            decreases self.heads@.len() - i,
        {
            proof {
                assert(sources.take(i + 1).drop_last() =~= sources.take(i as int));
                assert(sources.take(i + 1)[i as int] == sources[i as int]);
                lemma_min_source(sources.take(i as int));
            }
            match &self.heads[i] {
                Some(head) => match best {
                    Some(b) => match &self.heads[b] {
                        Some(least) => {
                            proof {
                                assert(sources.take(i + 1)[b as int] == sources[b as int]);
                            }
                            if head.0.before(&least.0) {
                                best = Some(i);
                            }
                        },
                        None => {},
                    },
                    None => {
                        best = Some(i);
                    },
                },
                None => {},
            }
            i = i + 1;
        }
        assert(sources.take(i as int) =~= sources);
        best
    }

    pub fn next(&mut self) -> (r: Option<Result<(Key, Value), DbError>>)
        requires
            old(self).wf(),
        ensures
            final(self).wf(),
            (step_view(r), final(self)@) == merge_step(old(self)@),
    {
        let i: usize = match self.find_min() {
            Some(i) => i,
            None => {
                return None;
            },
        };
        let ghost sources = self@;
        let ghost walk = self.iters@[i as int]@;
        let step = self.iters[i].next();
        assert((step_view(step), self.iters@[i as int]@) == walk.step());
        let item = self.heads.remove(i);
        let ghost e = item.deep_view()->0;
        assert(sources[i as int] == (seq![e] + walk.stream().0, walk.stream().1));
        assert(sources[i as int].0.skip(1) =~= walk.stream().0);
        match step {
            Some(Ok(entry)) => {
                self.heads.insert(i, Some(entry));
                assert(self@ =~= merge_step(sources).1);
            },
            Some(Err(error)) => {
                self.heads.insert(i, None);
                assert(self@ =~= merge_step(sources).1);
                return Some(Err(error));
            },
            None => {
                self.heads.insert(i, None);
                assert(self@ =~= merge_step(sources).1);
            },
        }
        match item {
            Some(entry) => Some(Ok(entry)),
            None => None,
        }
    }
}

// --- What a merge comes to ---

/// No error is lost: where a source ends in one, and none fails before its first entry, the
/// merge ends in an error of one of them; where none does, it ends in none.
pub proof fn lemma_merge_errors(sources: Seq<Stream>)
    requires
        forall|i: int| 0 <= i < sources.len() ==> !fails_at_once(#[trigger] sources[i]),
    ensures
        merge_all(sources).1 is Some <==> exists|i: int|
            0 <= i < sources.len() && (#[trigger] sources[i]).1 is Some,
        merge_all(sources).1 is Some ==> exists|i: int|
            0 <= i < sources.len() && (#[trigger] sources[i]).1 == merge_all(sources).1,
    decreases total(sources),
{
    lemma_min_source(sources);
    match min_source(sources) {
        Some(i) => {
            let (es, error) = sources[i];
            let rest = es.skip(1);
            if rest.len() == 0 && error is Some {
                assert(sources[i].1 == merge_all(sources).1);
            } else {
                let next = sources.update(i, (rest, error));
                lemma_total_update(sources, i, (rest, error));
                assert forall|j: int| 0 <= j < next.len() implies !fails_at_once(
                    #[trigger] next[j],
                ) by {
                    assert(!fails_at_once(sources[j]));
                }
                lemma_merge_errors(next);
                assert forall|j: int| 0 <= j < sources.len() implies (#[trigger] sources[j]).1
                    == next[j].1 by {}
                if exists|j: int| 0 <= j < sources.len() && (#[trigger] sources[j]).1 is Some {
                    let j = choose|j: int|
                        0 <= j < sources.len() && (#[trigger] sources[j]).1 is Some;
                    assert(next[j].1 is Some);
                }
                if merge_all(next).1 is Some {
                    let j = choose|j: int|
                        0 <= j < next.len() && (#[trigger] next[j]).1 == merge_all(next).1;
                    assert(sources[j].1 == merge_all(sources).1);
                }
            }
        },
        None => {
            assert forall|j: int| 0 <= j < sources.len() implies (#[trigger] sources[j]).1 is None by {
                assert(!fails_at_once(sources[j]));
            }
        },
    }
}

/// Sources that are in order and end in no error.
pub open spec fn sound(sources: Seq<Stream>) -> bool {
    forall|i: int|
        0 <= i < sources.len() ==> sorted((#[trigger] sources[i]).0) && sources[i].1 is None
}

/// The entries are in the order of their keys; a key may come more than once.
pub open spec fn ordered(es: Seq<Entry>) -> bool {
    forall|i: int, j: int|
        0 <= i < j < es.len() ==> !key_lt((#[trigger] es[j]).0, (#[trigger] es[i]).0)
}

/// The entries of all sources.
pub open spec fn entries_of(sources: Seq<Stream>) -> Multiset<Entry>
    decreases sources.len(),
{
    if sources.len() == 0 {
        Multiset::empty()
    } else {
        entries_of(sources.drop_last()).add(sources.last().0.to_multiset())
    }
}

/// No two entries of the sources have the same key.
pub open spec fn distinct_keys(sources: Seq<Stream>) -> bool {
    forall|a: int, x: int, b: int, y: int|
        0 <= a < sources.len() && 0 <= x < sources[a].0.len() && 0 <= b < sources.len() && 0 <= y
            < sources[b].0.len() && (a != b || x != y) ==> (#[trigger] sources[a].0[x]).0 != (
        #[trigger] sources[b].0[y]).0
}

/// Whether the smallest entry was taken off the front of source `i`.
spec fn taken(sources: Seq<Stream>, i: int, next: Seq<Stream>) -> bool {
    &&& 0 <= i < sources.len()
    &&& sources[i].0.len() > 0
    &&& next == sources.update(i, (sources[i].0.skip(1), sources[i].1))
    &&& forall|j: int|
        0 <= j < sources.len() && (#[trigger] sources[j]).0.len() > 0 ==> !key_lt(
            sources[j].0[0].0,
            sources[i].0[0].0,
        )
}

proof fn lemma_taken(sources: Seq<Stream>)
    requires
        sound(sources),
    ensures
        match min_source(sources) {
            Some(i) => {
                let next = sources.update(i, (sources[i].0.skip(1), sources[i].1));
                &&& taken(sources, i, next)
                &&& sound(next)
                &&& total(next) < total(sources)
                &&& merge_all(sources) == (
                    seq![sources[i].0[0]] + merge_all(next).0,
                    merge_all(next).1,
                )
            },
            None => total(sources) == 0 && merge_all(sources) == (
                Seq::<Entry>::empty(),
                None::<DbError>,
            ),
        },
{
    lemma_min_source(sources);
    match min_source(sources) {
        Some(i) => {
            let s = (sources[i].0.skip(1), sources[i].1);
            let next = sources.update(i, s);
            lemma_total_update(sources, i, s);
            assert(sorted(sources[i].0));
            assert forall|j: int| 0 <= j < next.len() implies sorted((#[trigger] next[j]).0)
                && next[j].1 is None by {
                assert(sorted(sources[j].0) && sources[j].1 is None);
                if j == i {
                    lemma_sorted_skip(sources[i].0);
                }
            }
        },
        None => {
            lemma_total_zero(sources);
        },
    }
}

proof fn lemma_total_zero(sources: Seq<Stream>)
    requires
        forall|j: int| 0 <= j < sources.len() ==> (#[trigger] sources[j]).0.len() == 0,
    ensures
        total(sources) == 0,
        entries_of(sources) == Multiset::<Entry>::empty(),
    decreases sources.len(),
{
    broadcast use vstd::seq_lib::group_to_multiset_ensures;

    if sources.len() > 0 {
        lemma_total_zero(sources.drop_last());
        assert(sources.last().0 =~= Seq::<Entry>::empty());
        assert(entries_of(sources) =~= Multiset::<Entry>::empty());
    }
}

proof fn lemma_sorted_skip(es: Seq<Entry>)
    requires
        sorted(es),
        es.len() > 0,
    ensures
        sorted(es.skip(1)),
{
    let rest = es.skip(1);
    assert forall|i: int, j: int| 0 <= i < j < rest.len() implies key_lt(
        (#[trigger] rest[i]).0,
        (#[trigger] rest[j]).0,
    ) by {
        assert(key_lt(es[i + 1].0, es[j + 1].0));
    }
}

/// No entry that is left is smaller than the one taken.
proof fn lemma_rest_not_smaller(sources: Seq<Stream>, i: int, next: Seq<Stream>, j: int, x: int)
    requires
        sound(sources),
        taken(sources, i, next),
        0 <= j < next.len(),
        0 <= x < next[j].0.len(),
    ensures
        !key_lt(next[j].0[x].0, sources[i].0[0].0),
{
    let e = sources[i].0[0].0;
    let k = next[j].0[x].0;
    if key_lt(k, e) {
        assert(sorted(sources[j].0));
        if j == i {
            assert(k == sources[i].0[x + 1].0);
            assert(key_lt(sources[i].0[0].0, sources[i].0[x + 1].0));
            lemma_key_lt_transitive(e, k, e);
            lemma_key_lt_irreflexive(e);
        } else {
            assert(next[j] == sources[j]);
            if x > 0 {
                assert(key_lt(sources[j].0[0].0, sources[j].0[x].0));
                lemma_key_lt_transitive(sources[j].0[0].0, k, e);
            }
        }
    }
}

/// A bound on the keys of all sources is one on the keys of the merge.
proof fn lemma_merge_bounded(sources: Seq<Stream>, bound: Entry, strict: bool)
    requires
        sound(sources),
        forall|j: int, x: int|
            0 <= j < sources.len() && 0 <= x < sources[j].0.len() ==> !key_lt(
                (#[trigger] sources[j].0[x]).0,
                bound.0,
            ),
        strict ==> forall|j: int, x: int|
            0 <= j < sources.len() && 0 <= x < sources[j].0.len() ==> (#[trigger] sources[j].0[x]).0
                != bound.0,
    ensures
        forall|n: int|
            0 <= n < merge_all(sources).0.len() ==> !key_lt(
                (#[trigger] merge_all(sources).0[n]).0,
                bound.0,
            ),
        strict ==> forall|n: int|
            0 <= n < merge_all(sources).0.len() ==> (#[trigger] merge_all(sources).0[n]).0
                != bound.0,
    decreases total(sources),
{
    lemma_taken(sources);
    match min_source(sources) {
        Some(i) => {
            let next = sources.update(i, (sources[i].0.skip(1), sources[i].1));
            assert forall|j: int, x: int| 0 <= j < next.len() && 0 <= x < next[j].0.len() implies {
                &&& !key_lt((#[trigger] next[j].0[x]).0, bound.0)
                &&& strict ==> next[j].0[x].0 != bound.0
            } by {
                if j == i {
                    assert(next[j].0[x] == sources[i].0[x + 1]);
                } else {
                    assert(next[j].0[x] == sources[j].0[x]);
                }
            }
            lemma_merge_bounded(next, bound, strict);
            let first = sources[i].0[0];
            let rest = merge_all(next).0;
            assert forall|n: int| 0 <= n < merge_all(sources).0.len() implies {
                &&& !key_lt((#[trigger] merge_all(sources).0[n]).0, bound.0)
                &&& strict ==> merge_all(sources).0[n].0 != bound.0
            } by {
                if n > 0 {
                    assert(merge_all(sources).0[n] == rest[n - 1]);
                } else {
                    assert(merge_all(sources).0[0] == first);
                }
            }
        },
        None => {},
    }
}

proof fn lemma_entries_taken(sources: Seq<Stream>, i: int)
    requires
        0 <= i < sources.len(),
        sources[i].0.len() > 0,
    ensures
        entries_of(sources) == entries_of(
            sources.update(i, (sources[i].0.skip(1), sources[i].1)),
        ).insert(sources[i].0[0]),
    decreases sources.len(),
{
    broadcast use vstd::seq_lib::group_to_multiset_ensures;

    let es = sources[i].0;
    let next = sources.update(i, (es.skip(1), sources[i].1));
    if i == sources.len() - 1 {
        assert(next.drop_last() =~= sources.drop_last());
        assert(es =~= seq![es[0]] + es.skip(1));
        vstd::seq_lib::lemma_multiset_commutative(seq![es[0]], es.skip(1));
        assert(seq![es[0]] =~= Seq::<Entry>::empty().push(es[0]));
        assert(seq![es[0]].to_multiset() =~= Multiset::<Entry>::empty().insert(es[0]));
        assert(entries_of(sources) =~= entries_of(next).insert(es[0]));
    } else {
        lemma_entries_taken(sources.drop_last(), i);
        assert(next.drop_last() =~= sources.drop_last().update(i, (es.skip(1), sources[i].1)));
        assert(entries_of(sources) =~= entries_of(next).insert(es[0]));
    }
}

/// Merging tables that are in order gives their entries, each as often as it is there, in
/// the order of the keys, and no error. Where no key is there twice, none is there twice in
/// the merge.
pub proof fn lemma_merge(sources: Seq<Stream>)
    requires
        sound(sources),
    ensures
        merge_all(sources).1 is None,
        merge_all(sources).0.to_multiset() == entries_of(sources),
        ordered(merge_all(sources).0),
        distinct_keys(sources) ==> sorted(merge_all(sources).0),
    decreases total(sources),
{
    broadcast use vstd::seq_lib::group_to_multiset_ensures;

    lemma_taken(sources);
    match min_source(sources) {
        Some(i) => {
            let next = sources.update(i, (sources[i].0.skip(1), sources[i].1));
            let first = sources[i].0[0];
            let rest = merge_all(next).0;
            let all = merge_all(sources).0;
            lemma_merge(next);
            lemma_entries_taken(sources, i);
            vstd::seq_lib::lemma_multiset_commutative(seq![first], rest);
            assert(seq![first] =~= Seq::<Entry>::empty().push(first));
            assert(seq![first].to_multiset() =~= Multiset::<Entry>::empty().insert(first));
            assert(all.to_multiset() =~= entries_of(sources));
            assert forall|j: int, x: int|
                0 <= j < next.len() && 0 <= x < next[j].0.len() implies !key_lt(
                (#[trigger] next[j].0[x]).0,
                first.0,
            ) by {
                lemma_rest_not_smaller(sources, i, next, j, x);
            }
            let strict = distinct_keys(sources);
            if strict {
                assert forall|j: int, x: int|
                    0 <= j < next.len() && 0 <= x < next[j].0.len() implies (
                #[trigger] next[j].0[x]).0 != first.0 by {
                    if j == i {
                        assert(next[j].0[x] == sources[i].0[x + 1]);
                        assert(sources[i].0[x + 1].0 != sources[i].0[0].0);
                    } else {
                        assert(next[j].0[x] == sources[j].0[x]);
                        assert(sources[j].0[x].0 != sources[i].0[0].0);
                    }
                }
                assert forall|a: int, x: int, b: int, y: int|
                    0 <= a < next.len() && 0 <= x < next[a].0.len() && 0 <= b < next.len() && 0 <= y
                        < next[b].0.len() && (a != b || x != y) implies (
                #[trigger] next[a].0[x]).0 != (#[trigger] next[b].0[y]).0 by {
                    let xx = if a == i {
                        x + 1
                    } else {
                        x
                    };
                    let yy = if b == i {
                        y + 1
                    } else {
                        y
                    };
                    assert(next[a].0[x] == sources[a].0[xx]);
                    assert(next[b].0[y] == sources[b].0[yy]);
                    assert(sources[a].0[xx].0 != sources[b].0[yy].0);
                }
            }
            lemma_merge_bounded(next, first, strict);
            assert forall|a: int, b: int| 0 <= a < b < all.len() implies !key_lt(
                (#[trigger] all[b]).0,
                (#[trigger] all[a]).0,
            ) by {
                assert(all[b] == rest[b - 1]);
                if a > 0 {
                    assert(all[a] == rest[a - 1]);
                }
            }
            if strict {
                assert forall|a: int, b: int| 0 <= a < b < all.len() implies key_lt(
                    (#[trigger] all[a]).0,
                    (#[trigger] all[b]).0,
                ) by {
                    assert(all[b] == rest[b - 1]);
                    if a > 0 {
                        assert(all[a] == rest[a - 1]);
                    } else {
                        lemma_key_lt_total(first.0, rest[b - 1].0);
                    }
                }
            }
        },
        None => {
            lemma_min_source(sources);
            lemma_total_zero(sources);
        },
    }
}

/// A merge in which no version is there twice comes from sources in which none is.
pub proof fn lemma_sorted_is_distinct(sources: Seq<Stream>)
    requires
        sound(sources),
        sorted(merge_all(sources).0),
    ensures
        distinct_keys(sources),
    decreases total(sources),
{
    lemma_taken(sources);
    match min_source(sources) {
        Some(i) => {
            let next = sources.update(i, (sources[i].0.skip(1), sources[i].1));
            let first = sources[i].0[0];
            let rest = merge_all(next).0;
            let all = merge_all(sources).0;
            assert forall|a: int, b: int| 0 <= a < b < rest.len() implies key_lt(
                (#[trigger] rest[a]).0,
                (#[trigger] rest[b]).0,
            ) by {
                assert(all[a + 1] == rest[a] && all[b + 1] == rest[b]);
            }
            lemma_sorted_is_distinct(next);
            assert forall|j: int, x: int|
                0 <= j < next.len() && 0 <= x < next[j].0.len() implies (
            #[trigger] next[j].0[x]).0 != first.0 by {
                lemma_in_merge(next, j, x);
                let k = choose|k: int| 0 <= k < rest.len() && rest[k] == next[j].0[x];
                assert(all[0] == first && all[k + 1] == rest[k]);
                assert(key_lt(all[0].0, all[k + 1].0));
                lemma_key_lt_irreflexive(first.0);
            }
            assert forall|a: int, x: int, b: int, y: int|
                0 <= a < sources.len() && 0 <= x < sources[a].0.len() && 0 <= b < sources.len()
                    && 0 <= y < sources[b].0.len() && (a != b || x != y) implies (
            #[trigger] sources[a].0[x]).0 != (#[trigger] sources[b].0[y]).0 by {
                let xx = if a == i {
                    x - 1
                } else {
                    x
                };
                let yy = if b == i {
                    y - 1
                } else {
                    y
                };
                if xx >= 0 {
                    assert(next[a].0[xx] == sources[a].0[x]);
                }
                if yy >= 0 {
                    assert(next[b].0[yy] == sources[b].0[y]);
                }
                if xx >= 0 && yy >= 0 {
                    assert(next[a].0[xx].0 != next[b].0[yy].0);
                }
            }
        },
        None => {
            lemma_min_source(sources);
        },
    }
}

/// An entry of a source is in the merge.
proof fn lemma_in_merge(sources: Seq<Stream>, j: int, x: int)
    requires
        sound(sources),
        0 <= j < sources.len(),
        0 <= x < sources[j].0.len(),
    ensures
        merge_all(sources).0.contains(sources[j].0[x]),
{
    broadcast use vstd::seq_lib::group_to_multiset_ensures;

    let e = sources[j].0[x];
    lemma_merge(sources);
    assert(sources[j].0.contains(e));
    lemma_entries_member(sources, e);
    assert(merge_all(sources).0.to_multiset().count(e) > 0);
}

} // verus!
