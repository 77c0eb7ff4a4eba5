//! What a flush and a compaction change in the levels, file by file, and what they leave as it
//! is.

use crate::compact::commit::{
    by_min_key, compacted, flushed, flushed_levels, kept, largest_key, level_of, numbered,
    overlapping, placed, smallest_key, with_flushed, with_levels, CompactionPlan, Ranged,
};
use crate::compact::levels::{describes, follows, level_follows, Open};
use crate::data_stores::key::{
    key_lt, lemma_key_lt_irreflexive, lemma_key_lt_total, lemma_key_lt_transitive, KeyView,
};
use crate::data_stores::manifest::{file_ids, FileView, LevelView, ManifestView};
use vstd::prelude::*;

verus! {

// --- Flushes ---

/// A flush adds its files behind those of the first level, in their order, and takes the first
/// logs off the manifest; every other file, log and number stays.
pub proof fn lemma_flush_changes(m: ManifestView, new: LevelView, n: nat)
    requires
        n <= m.wals.len(),
    ensures
        ({
            let after = flushed(m, new, n);
            let had = level_of(m.levels, 0);
            &&& m.levels.len() > 0 ==> after.levels.len() == m.levels.len()
            &&& m.levels.len() == 0 && new.len() > 0 ==> after.levels.len() == 1
            &&& m.levels.len() == 0 && new.len() == 0 ==> after.levels.len() == 0
            &&& after.levels.len() > 0 ==> after.levels[0].len() == had.len() + new.len()
            &&& forall|i: int|
                0 <= i < had.len() ==> #[trigger] after.levels[0][i] == m.levels[0][i]
            &&& forall|i: int|
                0 <= i < new.len() ==> after.levels[0][had.len() + i] == #[trigger] new[i]
            &&& forall|l: int|
                1 <= l < m.levels.len() ==> #[trigger] after.levels[l] == m.levels[l]
            &&& after.wals.len() == m.wals.len() - n
            &&& forall|i: int|
                0 <= i < after.wals.len() ==> #[trigger] after.wals[i] == m.wals[i + n]
            &&& after.next_wal_id == m.next_wal_id
            &&& after.next_sstable_id == m.next_sstable_id
            &&& after.version == m.version
        }),
{
}

/// The files of a flush are numbered one after the other, and nothing else in them changes.
pub proof fn lemma_numbered(files: LevelView, start: u32, i: int)
    requires
        0 <= i < files.len(),
        start + files.len() <= u32::MAX + 1,
    ensures
        numbered(files, start).len() == files.len(),
        numbered(files, start)[i].file_id == start + i,
        numbered(files, start)[i].file_size == files[i].file_size,
        numbered(files, start)[i].min_key == files[i].min_key,
        numbered(files, start)[i].max_key == files[i].max_key,
{
}

/// The open tables follow the manifest through a flush.
pub proof fn lemma_flushed_follows(
    m: ManifestView,
    levels: Seq<Seq<Open>>,
    new_files: LevelView,
    new: Seq<Open>,
    n: nat,
)
    requires
        follows(m.levels, levels),
        level_follows(new_files, new),
        new.len() > 0,
    ensures
        follows(flushed(m, new_files, n).levels, flushed_levels(levels, new)),
{
    let files = with_flushed(m.levels, new_files);
    let after = flushed_levels(levels, new);
    assert forall|l: int| 0 <= l < files.len() implies level_follows(
        #[trigger] files[l],
        after[l],
    ) by {
        if l < m.levels.len() {
            assert(level_follows(m.levels[l], levels[l]));
        }
        if l == 0 {
            let had = level_of(m.levels, 0);
            assert forall|i: int| 0 <= i < files[0].len() implies describes(
                #[trigger] files[0][i],
                after[0][i],
            ) by {
                if i < had.len() {
                    assert(describes(m.levels[0][i], levels[0][i]));
                } else {
                    assert(describes(new_files[i - had.len()], new[i - had.len()]));
                }
            }
        }
    }
}

// --- One level ---

/// Taking files out of a level leaves exactly those of other numbers.
pub proof fn lemma_kept<T: Ranged>(s: Seq<T::V>, ids: Seq<u32>, v: T::V)
    ensures
        kept::<T>(s, ids).contains(v) <==> s.contains(v) && !ids.contains(T::id_of(v)),
        kept::<T>(s, ids).len() <= s.len(),
        (forall|i: int| 0 <= i < s.len() ==> !ids.contains(T::id_of(#[trigger] s[i]))) ==> kept::<
            T,
        >(s, ids) == s,
    decreases s.len(),
{
    if s.len() > 0 {
        let shorter = s.drop_last();
        let rest = kept::<T>(shorter, ids);
        let all = kept::<T>(s, ids);
        lemma_kept::<T>(shorter, ids, v);
        if all.contains(v) {
            let i = choose|i: int| 0 <= i < all.len() && all[i] == v;
            if i < rest.len() {
                assert(rest[i] == v);
                let j = choose|j: int| 0 <= j < shorter.len() && shorter[j] == v;
                assert(s[j] == v);
            } else {
                assert(s[s.len() - 1] == v);
            }
        }
        if s.contains(v) && !ids.contains(T::id_of(v)) {
            let j = choose|j: int| 0 <= j < s.len() && s[j] == v;
            if j < shorter.len() {
                assert(shorter[j] == v);
                let i = choose|i: int| 0 <= i < rest.len() && rest[i] == v;
                assert(all[i] == v);
            } else {
                assert(all[all.len() - 1] == v);
            }
        }
        if forall|i: int| 0 <= i < s.len() ==> !ids.contains(T::id_of(#[trigger] s[i])) {
            assert forall|i: int| 0 <= i < shorter.len() implies !ids.contains(
                T::id_of(#[trigger] shorter[i]),
            ) by {
                assert(!ids.contains(T::id_of(s[i])));
            }
            assert(!ids.contains(T::id_of(s[s.len() - 1])));
            assert(all =~= s);
        }
    }
}

/// The files that stay in a level stay in their order.
pub proof fn lemma_kept_in_order<T: Ranged>(s: Seq<T::V>, ids: Seq<u32>, a: int, b: int) -> (p: (
    int,
    int,
))
    requires
        0 <= a < b < kept::<T>(s, ids).len(),
    ensures
        0 <= p.0 < p.1 < s.len(),
        s[p.0] == kept::<T>(s, ids)[a],
        s[p.1] == kept::<T>(s, ids)[b],
    decreases s.len(),
{
    let shorter = s.drop_last();
    let rest = kept::<T>(shorter, ids);
    if b < rest.len() {
        lemma_kept_in_order::<T>(shorter, ids, a, b)
    } else {
        lemma_kept::<T>(shorter, ids, rest[a]);
        assert(rest.contains(rest[a]));
        let i = choose|i: int| 0 <= i < shorter.len() && shorter[i] == rest[a];
        (i, s.len() - 1)
    }
}

proof fn lemma_placed<T: Ranged>(s: Seq<T::V>, v: T::V)
    ensures
        placed::<T>(s, v).to_multiset() == s.to_multiset().insert(v),
        placed::<T>(s, v).len() == s.len() + 1,
    decreases s.len(),
{
    broadcast use vstd::seq_lib::group_to_multiset_ensures;

    if s.len() > 0 && key_lt(T::min_of(v), T::min_of(s.last())) {
        lemma_placed::<T>(s.drop_last(), v);
        assert(s =~= s.drop_last().push(s.last()));
        assert(placed::<T>(s, v).to_multiset() =~= s.to_multiset().insert(v));
    }
}

/// Putting a level in order changes nothing but the order: every file is still there, as often
/// as it was.
pub proof fn lemma_by_min_key<T: Ranged>(s: Seq<T::V>)
    ensures
        by_min_key::<T>(s).to_multiset() == s.to_multiset(),
        by_min_key::<T>(s).len() == s.len(),
    decreases s.len(),
{
    broadcast use vstd::seq_lib::group_to_multiset_ensures;

    if s.len() > 0 {
        lemma_by_min_key::<T>(s.drop_last());
        lemma_placed::<T>(by_min_key::<T>(s.drop_last()), s.last());
        assert(s =~= s.drop_last().push(s.last()));
    }
}

spec fn in_order<T: Ranged>(s: Seq<T::V>) -> bool {
    forall|i: int, j: int|
        0 <= i < j < s.len() ==> !key_lt(
            T::min_of(#[trigger] s[j]),
            T::min_of(#[trigger] s[i]),
        )
}

/// A file that is put in its place lies at some place of the level, with those before it
/// before it, and those behind it behind it.
proof fn lemma_placed_place<T: Ranged>(s: Seq<T::V>, v: T::V) -> (p: int)
    ensures
        0 <= p <= s.len(),
        placed::<T>(s, v) == s.insert(p, v),
        p > 0 ==> !key_lt(T::min_of(v), T::min_of(s[p - 1])),
        forall|i: int| p <= i < s.len() ==> key_lt(T::min_of(v), T::min_of(#[trigger] s[i])),
    decreases s.len(),
{
    if s.len() > 0 && key_lt(T::min_of(v), T::min_of(s.last())) {
        let p = lemma_placed_place::<T>(s.drop_last(), v);
        assert(s.drop_last().insert(p, v).push(s.last()) =~= s.insert(p, v));
        assert forall|i: int| p <= i < s.len() implies key_lt(
            T::min_of(v),
            T::min_of(#[trigger] s[i]),
        ) by {
            if i < s.len() - 1 {
                assert(s.drop_last()[i] == s[i]);
            }
        }
        p
    } else {
        assert(s.push(v) =~= s.insert(s.len() as int, v));
        s.len() as int
    }
}

proof fn lemma_sorted<T: Ranged>(s: Seq<T::V>)
    ensures
        in_order::<T>(by_min_key::<T>(s)),
    decreases s.len(),
{
    if s.len() > 0 {
        let shorter = by_min_key::<T>(s.drop_last());
        let v = s.last();
        lemma_sorted::<T>(s.drop_last());
        let p = lemma_placed_place::<T>(shorter, v);
        let all = by_min_key::<T>(s);
        assert forall|i: int, j: int| 0 <= i < j < all.len() implies !key_lt(
            T::min_of(#[trigger] all[j]),
            T::min_of(#[trigger] all[i]),
        ) by {
            let x = if i < p {
                i
            } else {
                i - 1
            };
            let y = if j < p {
                j
            } else {
                j - 1
            };
            if i == p {
                assert(key_lt(T::min_of(v), T::min_of(shorter[y])));
                if key_lt(T::min_of(shorter[y]), T::min_of(v)) {
                    lemma_key_lt_transitive(
                        T::min_of(v),
                        T::min_of(shorter[y]),
                        T::min_of(v),
                    );
                    lemma_key_lt_irreflexive(T::min_of(v));
                }
            } else if j == p {
                if key_lt(T::min_of(v), T::min_of(shorter[i])) {
                    // Then the last one before it would not be smaller either.
                    if i < p - 1 {
                        assert(!key_lt(T::min_of(shorter[p - 1]), T::min_of(shorter[i])));
                        lemma_not_smaller(
                            T::min_of(v),
                            T::min_of(shorter[i]),
                            T::min_of(shorter[p - 1]),
                        );
                    }
                }
            } else {
                assert(!key_lt(T::min_of(shorter[y]), T::min_of(shorter[x])));
            }
        }
    }
}

proof fn lemma_not_smaller(
    a: KeyView,
    b: KeyView,
    c: KeyView,
)
    requires
        key_lt(a, b),
        !key_lt(c, b),
    ensures
        key_lt(a, c),
{
    lemma_key_lt_total(b, c);
    if key_lt(b, c) {
        lemma_key_lt_transitive(a, b, c);
    }
}

/// Once a level is put in order, no file has a smaller smallest key than one before it.
pub proof fn lemma_by_min_key_sorted<T: Ranged>(s: Seq<T::V>, i: int, j: int)
    requires
        0 <= i < j < s.len(),
    ensures
        !key_lt(T::min_of(by_min_key::<T>(s)[j]), T::min_of(by_min_key::<T>(s)[i])),
{
    lemma_sorted::<T>(s);
    lemma_by_min_key::<T>(s);
}

/// A level that is in order is left as it is, also where smallest keys are equal.
pub proof fn lemma_by_min_key_stable<T: Ranged>(s: Seq<T::V>)
    requires
        forall|i: int, j: int|
            0 <= i < j < s.len() ==> !key_lt(
                T::min_of(#[trigger] s[j]),
                T::min_of(#[trigger] s[i]),
            ),
    ensures
        by_min_key::<T>(s) == s,
    decreases s.len(),
{
    if s.len() > 0 {
        let shorter = s.drop_last();
        assert forall|i: int, j: int| 0 <= i < j < shorter.len() implies !key_lt(
            T::min_of(#[trigger] shorter[j]),
            T::min_of(#[trigger] shorter[i]),
        ) by {
            assert(!key_lt(T::min_of(s[j]), T::min_of(s[i])));
        }
        lemma_by_min_key_stable::<T>(shorter);
        if s.len() > 1 {
            assert(!key_lt(T::min_of(s[s.len() - 1]), T::min_of(s[s.len() - 2])));
        }
        assert(shorter.push(s.last()) =~= s);
    }
}

// --- Compactions ---

/// A compaction takes the files that it merged out of their two levels, and puts the new ones
/// into the second; every other file stays where it is.
pub proof fn lemma_compaction_changes<T: Ranged>(
    levels: Seq<Seq<T::V>>,
    plan: CompactionPlan,
    new: Seq<T::V>,
    v: T::V,
)
    ensures
        ({
            let after = compacted::<T>(levels, plan, new);
            let n = plan.source_level as int;
            let sources = plan.source_files.deep_view();
            let targets = plan.target_files.deep_view();
            &&& after.len() == if levels.len() < n + 2 {
                (n + 2) as nat
            } else {
                levels.len()
            }
            &&& after[n].contains(v) <==> n < levels.len() && levels[n].contains(v) && (forall|
                i: int,
            |
                0 <= i < sources.len() ==> (#[trigger] sources[i]).file_id != T::id_of(v))
            &&& after[n + 1].contains(v) <==> new.contains(v) || (n + 1 < levels.len()
                && levels[n + 1].contains(v) && (forall|i: int|
                0 <= i < targets.len() ==> (#[trigger] targets[i]).file_id != T::id_of(v)))
            &&& forall|l: int|
                0 <= l < levels.len() && l != n && l != n + 1 ==> #[trigger] after[l] == levels[l]
            &&& forall|l: int| levels.len() <= l < n ==> (#[trigger] after[l]).len() == 0
        }),
{
    let n = plan.source_level as int;
    let all = with_levels(levels, (n + 2) as nat);
    let sources = plan.source_files.deep_view();
    let targets = plan.target_files.deep_view();
    lemma_has_id(sources, T::id_of(v));
    lemma_has_id(targets, T::id_of(v));
    lemma_kept::<T>(all[n], file_ids(sources), v);
    lemma_kept::<T>(all[n + 1], file_ids(targets), v);
    let stay = kept::<T>(all[n + 1], file_ids(targets));
    lemma_by_min_key::<T>(stay + new);
    lemma_same_members(by_min_key::<T>(stay + new), stay + new, v);
    if stay.contains(v) {
        let i = choose|i: int| 0 <= i < stay.len() && stay[i] == v;
        assert((stay + new)[i] == v);
    }
    if new.contains(v) {
        let i = choose|i: int| 0 <= i < new.len() && new[i] == v;
        assert((stay + new)[stay.len() + i] == v);
    }
    if (stay + new).contains(v) && !stay.contains(v) {
        let i = choose|i: int| 0 <= i < (stay + new).len() && (stay + new)[i] == v;
        if i < stay.len() {
            assert(stay[i] == v);
        } else {
            assert(new[i - stay.len()] == v);
        }
    }
}

proof fn lemma_has_id(files: LevelView, id: u32)
    ensures
        file_ids(files).contains(id) <==> exists|i: int|
            0 <= i < files.len() && (#[trigger] files[i]).file_id == id,
{
    if file_ids(files).contains(id) {
        let i = choose|i: int| 0 <= i < file_ids(files).len() && file_ids(files)[i] == id;
        assert(files[i].file_id == id);
    }
    if exists|i: int| 0 <= i < files.len() && (#[trigger] files[i]).file_id == id {
        let i = choose|i: int| 0 <= i < files.len() && (#[trigger] files[i]).file_id == id;
        assert(file_ids(files)[i] == id);
    }
}

proof fn lemma_same_members<V>(a: Seq<V>, b: Seq<V>, v: V)
    requires
        a.to_multiset() == b.to_multiset(),
    ensures
        a.contains(v) <==> b.contains(v),
{
    broadcast use vstd::seq_lib::group_to_multiset_ensures;

    assert(a.contains(v) <==> a.to_multiset().count(v) > 0);
    assert(b.contains(v) <==> b.to_multiset().count(v) > 0);
}

/// A plan merges exactly those files of the next level that are not wholly before all the
/// files of the source, nor wholly behind all of them.
pub proof fn lemma_plan_targets(
    plan: CompactionPlan,
    levels: Seq<LevelView>,
    source: LevelView,
    f: FileView,
)
    requires
        source.len() > 0,
        plan.merges(levels, plan.source_level as int, source),
    ensures
        plan.target_files.deep_view().contains(f) <==> {
            &&& plan.source_level + 1 < levels.len()
            &&& levels[plan.source_level + 1].contains(f)
            &&& exists|i: int|
                0 <= i < source.len() && !key_lt(f.max_key, (#[trigger] source[i]).min_key)
            &&& exists|i: int|
                0 <= i < source.len() && !key_lt((#[trigger] source[i]).max_key, f.min_key)
        },
{
    let next = level_of(levels, plan.source_level + 1);
    let min = smallest_key(source);
    let max = largest_key(source);
    lemma_smallest(source, f.max_key);
    lemma_largest(source, f.min_key);
    lemma_overlapping_member(next, min, max, f);
}

proof fn lemma_overlapping_member(
    s: LevelView,
    min: KeyView,
    max: KeyView,
    f: FileView,
)
    ensures
        overlapping(s, min, max).contains(f) <==> s.contains(f) && !key_lt(f.max_key, min)
            && !key_lt(max, f.min_key),
    decreases s.len(),
{
    if s.len() > 0 {
        let shorter = s.drop_last();
        let rest = overlapping(shorter, min, max);
        let all = overlapping(s, min, max);
        lemma_overlapping_member(shorter, min, max, f);
        if all.contains(f) {
            let i = choose|i: int| 0 <= i < all.len() && all[i] == f;
            if i < rest.len() {
                assert(rest[i] == f);
                let j = choose|j: int| 0 <= j < shorter.len() && shorter[j] == f;
                assert(s[j] == f);
            } else {
                assert(s[s.len() - 1] == f);
            }
        }
        if s.contains(f) && !key_lt(f.max_key, min) && !key_lt(max, f.min_key) {
            let j = choose|j: int| 0 <= j < s.len() && s[j] == f;
            if j < shorter.len() {
                assert(shorter[j] == f);
                let i = choose|i: int| 0 <= i < rest.len() && rest[i] == f;
                assert(all[i] == f);
            } else {
                assert(all[all.len() - 1] == f);
            }
        }
    }
}

/// The files that a plan merges from the next level are in the order in which they are there.
pub proof fn lemma_overlapping_in_order(
    s: LevelView,
    min: KeyView,
    max: KeyView,
    a: int,
    b: int,
) -> (p: (int, int))
    requires
        0 <= a < b < overlapping(s, min, max).len(),
    ensures
        0 <= p.0 < p.1 < s.len(),
        s[p.0] == overlapping(s, min, max)[a],
        s[p.1] == overlapping(s, min, max)[b],
    decreases s.len(),
{
    let shorter = s.drop_last();
    let rest = overlapping(shorter, min, max);
    if b < rest.len() {
        lemma_overlapping_in_order(shorter, min, max, a, b)
    } else {
        lemma_overlapping_member(shorter, min, max, rest[a]);
        assert(rest.contains(rest[a]));
        let i = choose|i: int| 0 <= i < shorter.len() && shorter[i] == rest[a];
        (i, s.len() - 1)
    }
}

/// A key is not before the smallest key of some files where it is not before that of one.
proof fn lemma_smallest(files: LevelView, k: KeyView)
    requires
        files.len() > 0,
    ensures
        !key_lt(k, smallest_key(files)) <==> exists|i: int|
            0 <= i < files.len() && !key_lt(k, (#[trigger] files[i]).min_key),
    decreases files.len(),
{
    if files.len() == 1 {
        assert(!key_lt(k, files[0].min_key) == !key_lt(k, smallest_key(files)));
    } else {
        let shorter = files.drop_last();
        let last = files[files.len() - 1].min_key;
        let m = smallest_key(shorter);
        lemma_smallest(shorter, k);
        if !key_lt(k, m) {
            let i = choose|i: int|
                0 <= i < shorter.len() && !key_lt(k, (#[trigger] shorter[i]).min_key);
            assert(!key_lt(k, files[i].min_key));
        }
        if !key_lt(k, last) {
            assert(!key_lt(k, files[files.len() - 1].min_key));
        }
        if exists|i: int| 0 <= i < files.len() && !key_lt(k, (#[trigger] files[i]).min_key) {
            let i = choose|i: int|
                0 <= i < files.len() && !key_lt(k, (#[trigger] files[i]).min_key);
            if i < shorter.len() {
                assert(!key_lt(k, shorter[i].min_key));
            }
        }
        // Of two keys, one is not before the other, and the smaller one counts.
        if key_lt(last, m) {
            if key_lt(k, last) {
                lemma_key_lt_transitive(k, last, m);
            }
        } else if key_lt(k, m) {
            lemma_not_smaller(k, m, last);
        }
    }
}

proof fn lemma_largest(files: LevelView, k: KeyView)
    requires
        files.len() > 0,
    ensures
        !key_lt(largest_key(files), k) <==> exists|i: int|
            0 <= i < files.len() && !key_lt((#[trigger] files[i]).max_key, k),
    decreases files.len(),
{
    if files.len() == 1 {
        assert(!key_lt(files[0].max_key, k) == !key_lt(largest_key(files), k));
    } else {
        let shorter = files.drop_last();
        let last = files[files.len() - 1].max_key;
        let m = largest_key(shorter);
        lemma_largest(shorter, k);
        if !key_lt(m, k) {
            let i = choose|i: int|
                0 <= i < shorter.len() && !key_lt((#[trigger] shorter[i]).max_key, k);
            assert(!key_lt(files[i].max_key, k));
        }
        if !key_lt(last, k) {
            assert(!key_lt(files[files.len() - 1].max_key, k));
        }
        if exists|i: int| 0 <= i < files.len() && !key_lt((#[trigger] files[i]).max_key, k) {
            let i = choose|i: int|
                0 <= i < files.len() && !key_lt((#[trigger] files[i]).max_key, k);
            if i < shorter.len() {
                assert(!key_lt(shorter[i].max_key, k));
            }
        }
        if key_lt(m, last) {
            if key_lt(last, k) {
                lemma_key_lt_transitive(m, last, k);
            }
        } else if key_lt(m, k) {
            lemma_key_lt_total(m, last);
            if key_lt(last, m) {
                lemma_key_lt_transitive(last, m, k);
            }
        }
    }
}

} // verus!
