//! What compaction keeps.

use crate::compact::commit::{
    by_min_key, compacted, kept, largest_key, level_of, overlapping, overlaps, placed,
    smallest_key, with_levels, CompactionPlan,
};
use crate::compact::merge::{
    distinct_keys, entries_of, lemma_merge, lemma_sorted_is_distinct, merge_all, sound, Stream,
};
use crate::compact::output::{lemma_split, split};
use crate::data_stores::key::{
    key_lt, lemma_bytes_lt_irreflexive, lemma_key_lt_irreflexive, lemma_key_lt_total,
    lemma_key_lt_transitive, KeyView,
};
use crate::data_stores::manifest::{file_ids, FileMetadata, FileView, LevelView};
use crate::data_stores::table_format::{
    concat, lemma_concat_member, lemma_lookup_absent, lemma_lookup_finds, lemma_lookup_present,
    lookup, sorted, Entry,
};
use vstd::prelude::*;

verus! {

/// A file whose range is not upside down.
pub open spec fn has_range(f: FileView) -> bool {
    !key_lt(f.max_key, f.min_key)
}

/// Two files whose ranges have no key in common.
pub open spec fn apart(f: FileView, g: FileView) -> bool {
    key_lt(f.max_key, g.min_key) || key_lt(g.max_key, f.min_key)
}

/// A level as compaction keeps it: the files in the order of their keys, and no two ranges
/// with a key in common.
pub open spec fn is_level(files: LevelView) -> bool {
    &&& forall|i: int| 0 <= i < files.len() ==> has_range(#[trigger] files[i])
    &&& forall|i: int, j: int|
        0 <= i < j < files.len() ==> key_lt(
            (#[trigger] files[i]).max_key,
            (#[trigger] files[j]).min_key,
        )
}

spec fn all_apart(files: LevelView) -> bool {
    &&& forall|i: int| 0 <= i < files.len() ==> has_range(#[trigger] files[i])
    &&& forall|i: int, j: int|
        0 <= i < files.len() && 0 <= j < files.len() && i != j ==> apart(
            #[trigger] files[i],
            #[trigger] files[j],
        )
}

proof fn lemma_le_lt(a: KeyView, b: KeyView, c: KeyView)
    requires
        !key_lt(b, a),
        key_lt(b, c),
    ensures
        key_lt(a, c),
{
    lemma_key_lt_total(a, b);
    if key_lt(a, b) {
        lemma_key_lt_transitive(a, b, c);
    }
}

proof fn lemma_lt_le(a: KeyView, b: KeyView, c: KeyView)
    requires
        key_lt(a, b),
        !key_lt(c, b),
    ensures
        key_lt(a, c),
{
    lemma_key_lt_total(b, c);
    if key_lt(b, c) {
        lemma_key_lt_transitive(a, b, c);
    }
}

proof fn lemma_not_both(a: KeyView, b: KeyView)
    requires
        key_lt(a, b),
    ensures
        !key_lt(b, a),
{
    if key_lt(b, a) {
        lemma_key_lt_transitive(a, b, a);
        lemma_key_lt_irreflexive(a);
    }
}

proof fn lemma_placed_member(s: LevelView, v: FileView, i: int)
    requires
        0 <= i < placed::<FileMetadata>(s, v).len(),
    ensures
        placed::<FileMetadata>(s, v)[i] == v || exists|j: int|
            0 <= j < s.len() && #[trigger] s[j] == placed::<FileMetadata>(s, v)[i],
    decreases s.len(),
{
    if s.len() > 0 && key_lt(v.min_key, s.last().min_key) {
        let shorter = s.drop_last();
        let p = placed::<FileMetadata>(shorter, v);
        if i < p.len() {
            lemma_placed_member(shorter, v, i);
            if p[i] != v {
                let j = choose|j: int| 0 <= j < shorter.len() && #[trigger] shorter[j] == p[i];
                assert(s[j] == p[i]);
            }
        } else {
            assert(s[s.len() - 1] == placed::<FileMetadata>(s, v)[i]);
        }
    } else if i < s.len() {
        assert(s[i] == placed::<FileMetadata>(s, v)[i]);
    }
}

proof fn lemma_placed_level(s: LevelView, v: FileView)
    requires
        is_level(s),
        has_range(v),
        forall|i: int| 0 <= i < s.len() ==> apart(v, #[trigger] s[i]),
    ensures
        is_level(placed::<FileMetadata>(s, v)),
    decreases s.len(),
{
    let r = placed::<FileMetadata>(s, v);
    if s.len() > 0 {
        let last = s[s.len() - 1];
        assert(apart(v, last));
        if key_lt(v.min_key, last.min_key) {
            let shorter = s.drop_last();
            let p = placed::<FileMetadata>(shorter, v);
            assert forall|i: int| 0 <= i < shorter.len() implies apart(
                v,
                #[trigger] shorter[i],
            ) by {
                assert(apart(v, s[i]));
            }
            assert forall|i: int, j: int| 0 <= i < j < shorter.len() implies key_lt(
                (#[trigger] shorter[i]).max_key,
                (#[trigger] shorter[j]).min_key,
            ) by {
                assert(key_lt(s[i].max_key, s[j].min_key));
            }
            assert forall|i: int| 0 <= i < shorter.len() implies has_range(
                #[trigger] shorter[i],
            ) by {
                assert(has_range(s[i]));
            }
            lemma_placed_level(shorter, v);
            if key_lt(last.max_key, v.min_key) {
                assert(has_range(last));
                lemma_le_lt(last.min_key, last.max_key, v.min_key);
                lemma_not_both(last.min_key, v.min_key);
            }
            assert forall|i: int| 0 <= i < p.len() implies key_lt(
                (#[trigger] p[i]).max_key,
                last.min_key,
            ) by {
                lemma_placed_member(shorter, v, i);
                if p[i] != v {
                    let j = choose|j: int| 0 <= j < shorter.len() && #[trigger] shorter[j] == p[i];
                    assert(key_lt(s[j].max_key, s[s.len() - 1].min_key));
                }
            }
            assert forall|i: int, j: int| 0 <= i < j < r.len() implies key_lt(
                (#[trigger] r[i]).max_key,
                (#[trigger] r[j]).min_key,
            ) by {
                assert(r[i] == p[i]);
                if j < p.len() {
                    assert(r[j] == p[j]);
                }
            }
            assert forall|i: int| 0 <= i < r.len() implies has_range(#[trigger] r[i]) by {
                if i < p.len() {
                    assert(r[i] == p[i]);
                } else {
                    assert(has_range(last));
                }
            }
        } else {
            if key_lt(v.max_key, last.min_key) {
                lemma_le_lt(v.min_key, v.max_key, last.min_key);
            }
            assert(key_lt(last.max_key, v.min_key));
            assert(has_range(last));
            assert forall|i: int, j: int| 0 <= i < j < r.len() implies key_lt(
                (#[trigger] r[i]).max_key,
                (#[trigger] r[j]).min_key,
            ) by {
                assert(r[i] == s[i]);
                if j < s.len() {
                    assert(r[j] == s[j]);
                } else if i < s.len() - 1 {
                    assert(key_lt(s[i].max_key, s[s.len() - 1].min_key));
                    lemma_lt_le(s[i].max_key, last.min_key, last.max_key);
                    lemma_key_lt_transitive(s[i].max_key, last.max_key, v.min_key);
                }
            }
            assert forall|i: int| 0 <= i < r.len() implies has_range(#[trigger] r[i]) by {
                if i < s.len() {
                    assert(r[i] == s[i]);
                }
            }
        }
    }
}

pub proof fn lemma_sorted_member(s: LevelView, i: int)
    requires
        0 <= i < by_min_key::<FileMetadata>(s).len(),
    ensures
        exists|j: int| 0 <= j < s.len() && #[trigger] s[j] == by_min_key::<FileMetadata>(s)[i],
    decreases s.len(),
{
    if s.len() > 0 {
        let shorter = s.drop_last();
        let b = by_min_key::<FileMetadata>(shorter);
        let x = by_min_key::<FileMetadata>(s)[i];
        lemma_placed_member(b, s.last(), i);
        if x == s.last() {
            assert(s[s.len() - 1] == x);
        } else {
            let k = choose|k: int| 0 <= k < b.len() && #[trigger] b[k] == x;
            lemma_sorted_member(shorter, k);
            let j = choose|j: int| 0 <= j < shorter.len() && #[trigger] shorter[j] == b[k];
            assert(s[j] == x);
        }
    }
}

proof fn lemma_sorted_level(s: LevelView)
    requires
        all_apart(s),
    ensures
        is_level(by_min_key::<FileMetadata>(s)),
    decreases s.len(),
{
    if s.len() > 0 {
        let shorter = s.drop_last();
        let v = s[s.len() - 1];
        assert forall|i: int, j: int|
            0 <= i < shorter.len() && 0 <= j < shorter.len() && i != j implies apart(
            #[trigger] shorter[i],
            #[trigger] shorter[j],
        ) by {
            assert(apart(s[i], s[j]));
        }
        assert forall|i: int| 0 <= i < shorter.len() implies has_range(#[trigger] shorter[i]) by {
            assert(has_range(s[i]));
        }
        lemma_sorted_level(shorter);
        let b = by_min_key::<FileMetadata>(shorter);
        assert forall|i: int| 0 <= i < b.len() implies apart(v, #[trigger] b[i]) by {
            lemma_sorted_member(shorter, i);
            let j = choose|j: int| 0 <= j < shorter.len() && #[trigger] shorter[j] == b[i];
            assert(apart(s[j], s[s.len() - 1]));
        }
        assert(has_range(v));
        lemma_placed_level(b, v);
    }
}

/// What is kept of a level is in it, and its numbers are not among those removed.
pub proof fn lemma_kept_member(s: LevelView, ids: Seq<u32>, i: int)
    requires
        0 <= i < kept::<FileMetadata>(s, ids).len(),
    ensures
        !ids.contains(kept::<FileMetadata>(s, ids)[i].file_id),
        exists|j: int|
            0 <= j < s.len() && #[trigger] s[j] == kept::<FileMetadata>(s, ids)[i],
    decreases s.len(),
{
    if s.len() > 0 {
        let shorter = s.drop_last();
        let rest = kept::<FileMetadata>(shorter, ids);
        let x = kept::<FileMetadata>(s, ids)[i];
        if i < rest.len() {
            lemma_kept_member(shorter, ids, i);
            let j = choose|j: int| 0 <= j < shorter.len() && #[trigger] shorter[j] == rest[i];
            assert(s[j] == x);
        } else {
            assert(s[s.len() - 1] == x);
        }
    }
}

proof fn lemma_kept_apart(s: LevelView, ids: Seq<u32>)
    requires
        is_level(s),
    ensures
        all_apart(kept::<FileMetadata>(s, ids)),
    decreases s.len(),
{
    if s.len() > 0 {
        let shorter = s.drop_last();
        assert forall|i: int, j: int| 0 <= i < j < shorter.len() implies key_lt(
            (#[trigger] shorter[i]).max_key,
            (#[trigger] shorter[j]).min_key,
        ) by {
            assert(key_lt(s[i].max_key, s[j].min_key));
        }
        assert forall|i: int| 0 <= i < shorter.len() implies has_range(#[trigger] shorter[i]) by {
            assert(has_range(s[i]));
        }
        lemma_kept_apart(shorter, ids);
        let rest = kept::<FileMetadata>(shorter, ids);
        let r = kept::<FileMetadata>(s, ids);
        assert forall|i: int| 0 <= i < rest.len() implies apart(
            #[trigger] rest[i],
            s[s.len() - 1],
        ) by {
            lemma_kept_member(shorter, ids, i);
            let j = choose|j: int| 0 <= j < shorter.len() && #[trigger] shorter[j] == rest[i];
            assert(key_lt(s[j].max_key, s[s.len() - 1].min_key));
        }
        assert(has_range(s[s.len() - 1]));
        assert forall|i: int, j: int|
            0 <= i < r.len() && 0 <= j < r.len() && i != j implies apart(
            #[trigger] r[i],
            #[trigger] r[j],
        ) by {
            if i < rest.len() {
                assert(r[i] == rest[i]);
            }
            if j < rest.len() {
                assert(r[j] == rest[j]);
            }
        }
        assert forall|i: int| 0 <= i < r.len() implies has_range(#[trigger] r[i]) by {
            if i < rest.len() {
                assert(r[i] == rest[i]);
            }
        }
    }
}

/// What is kept of a level is a level.
pub proof fn lemma_kept_level(s: LevelView, ids: Seq<u32>)
    requires
        is_level(s),
    ensures
        is_level(kept::<FileMetadata>(s, ids)),
    decreases s.len(),
{
    if s.len() > 0 {
        let shorter = s.drop_last();
        assert forall|i: int, j: int| 0 <= i < j < shorter.len() implies key_lt(
            (#[trigger] shorter[i]).max_key,
            (#[trigger] shorter[j]).min_key,
        ) by {
            assert(key_lt(s[i].max_key, s[j].min_key));
        }
        assert forall|i: int| 0 <= i < shorter.len() implies has_range(#[trigger] shorter[i]) by {
            assert(has_range(s[i]));
        }
        lemma_kept_level(shorter, ids);
        let rest = kept::<FileMetadata>(shorter, ids);
        let r = kept::<FileMetadata>(s, ids);
        assert(has_range(s[s.len() - 1]));
        assert forall|i: int, j: int| 0 <= i < j < r.len() implies key_lt(
            (#[trigger] r[i]).max_key,
            (#[trigger] r[j]).min_key,
        ) by {
            assert(r[i] == rest[i]);
            if j < rest.len() {
                assert(r[j] == rest[j]);
            } else {
                lemma_kept_member(shorter, ids, i);
                let k = choose|k: int| 0 <= k < shorter.len() && #[trigger] shorter[k] == rest[i];
                assert(key_lt(s[k].max_key, s[s.len() - 1].min_key));
            }
        }
        assert forall|i: int| 0 <= i < r.len() implies has_range(#[trigger] r[i]) by {
            if i < rest.len() {
                assert(r[i] == rest[i]);
            }
        }
    }
}

/// The files that overlap a range are those of the level that do.
pub proof fn lemma_overlapping(s: LevelView, min: KeyView, max: KeyView)
    ensures
        forall|i: int|
            0 <= i < s.len() && overlaps(#[trigger] s[i], min, max) ==> exists|j: int|
                0 <= j < overlapping(s, min, max).len() && #[trigger] overlapping(s, min, max)[j]
                    == s[i],
        forall|j: int|
            0 <= j < overlapping(s, min, max).len() ==> overlaps(
                #[trigger] overlapping(s, min, max)[j],
                min,
                max,
            ) && exists|i: int|
                0 <= i < s.len() && #[trigger] s[i] == overlapping(s, min, max)[j],
    decreases s.len(),
{
    if s.len() > 0 {
        let shorter = s.drop_last();
        lemma_overlapping(shorter, min, max);
        let rest = overlapping(shorter, min, max);
        let r = overlapping(s, min, max);
        assert forall|i: int| 0 <= i < s.len() && overlaps(#[trigger] s[i], min, max) implies exists|
            j: int,
        | 0 <= j < r.len() && #[trigger] r[j] == s[i] by {
            if i < shorter.len() {
                assert(shorter[i] == s[i]);
                let j = choose|j: int| 0 <= j < rest.len() && #[trigger] rest[j] == shorter[i];
                assert(r[j] == s[i]);
            } else {
                assert(r[r.len() - 1] == s[i]);
            }
        }
        assert forall|j: int| 0 <= j < r.len() implies overlaps(#[trigger] r[j], min, max)
            && exists|i: int| 0 <= i < s.len() && #[trigger] s[i] == r[j] by {
            if j < rest.len() {
                assert(r[j] == rest[j]);
                let i = choose|i: int| 0 <= i < shorter.len() && #[trigger] shorter[i] == rest[j];
                assert(s[i] == r[j]);
            } else {
                assert(s[s.len() - 1] == r[j]);
            }
        }
    }
}

/// The smallest and the largest key of some files are keys of theirs, and bound all others.
pub proof fn lemma_key_bounds(files: LevelView)
    requires
        files.len() > 0,
    ensures
        exists|i: int|
            0 <= i < files.len() && (#[trigger] files[i]).min_key == smallest_key(files),
        exists|i: int|
            0 <= i < files.len() && (#[trigger] files[i]).max_key == largest_key(files),
        forall|i: int|
            0 <= i < files.len() ==> !key_lt((#[trigger] files[i]).min_key, smallest_key(files))
                && !key_lt(largest_key(files), files[i].max_key),
    decreases files.len(),
{
    let last = files[files.len() - 1];
    lemma_key_lt_irreflexive(last.min_key);
    lemma_key_lt_irreflexive(last.max_key);
    if files.len() == 1 {
        assert(files[0].min_key == smallest_key(files));
        assert(files[0].max_key == largest_key(files));
    } else {
        let shorter = files.drop_last();
        lemma_key_bounds(shorter);
        let a = choose|i: int|
            0 <= i < shorter.len() && (#[trigger] shorter[i]).min_key == smallest_key(shorter);
        let b = choose|i: int|
            0 <= i < shorter.len() && (#[trigger] shorter[i]).max_key == largest_key(shorter);
        assert(files[a] == shorter[a]);
        assert(files[b] == shorter[b]);
        assert forall|i: int| 0 <= i < files.len() implies !key_lt(
            (#[trigger] files[i]).min_key,
            smallest_key(files),
        ) && !key_lt(largest_key(files), files[i].max_key) by {
            if i < shorter.len() {
                assert(files[i] == shorter[i]);
                if key_lt(files[i].min_key, smallest_key(files)) && key_lt(
                    last.min_key,
                    smallest_key(shorter),
                ) {
                    lemma_key_lt_transitive(
                        files[i].min_key,
                        last.min_key,
                        smallest_key(shorter),
                    );
                }
                if key_lt(largest_key(files), files[i].max_key) && key_lt(
                    largest_key(shorter),
                    last.max_key,
                ) {
                    lemma_key_lt_transitive(
                        largest_key(shorter),
                        last.max_key,
                        files[i].max_key,
                    );
                }
            }
        }
    }
}

/// A file that stays in the level does not lie within the range of what is merged: it lies
/// before it or behind it.
proof fn lemma_kept_outside(
    target: LevelView,
    source_files: LevelView,
    k: int,
)
    requires
        is_level(target),
        source_files.len() > 0,
        0 <= k < target.len(),
        !overlaps(target[k], smallest_key(source_files), largest_key(source_files)),
        !key_lt(largest_key(source_files), smallest_key(source_files)),
    ensures
        ({
            let inputs = source_files + overlapping(
                target,
                smallest_key(source_files),
                largest_key(source_files),
            );
            ||| key_lt(target[k].max_key, smallest_key(inputs))
            ||| key_lt(largest_key(inputs), target[k].min_key)
        }),
{
    let min = smallest_key(source_files);
    let max = largest_key(source_files);
    let over = overlapping(target, min, max);
    let inputs = source_files + over;
    let f = target[k];
    assert(has_range(f));
    lemma_overlapping(target, min, max);
    lemma_key_bounds(source_files);
    lemma_key_bounds(inputs);
    if key_lt(f.max_key, min) {
        let a = choose|i: int|
            0 <= i < inputs.len() && (#[trigger] inputs[i]).min_key == smallest_key(inputs);
        if a < source_files.len() {
            assert(inputs[a] == source_files[a]);
            lemma_lt_le(f.max_key, min, inputs[a].min_key);
        } else {
            let g = over[a - source_files.len()];
            assert(inputs[a] == g);
            let j = choose|i: int|
                0 <= i < target.len() && #[trigger] target[i] == over[a - source_files.len()];
            assert(overlaps(g, min, max));
            if j < k {
                assert(key_lt(target[j].max_key, target[k].min_key));
                lemma_lt_le(g.max_key, f.min_key, f.max_key);
                lemma_key_lt_transitive(g.max_key, f.max_key, min);
            } else {
                assert(j > k);
                assert(key_lt(target[k].max_key, target[j].min_key));
            }
        }
    } else {
        let b = choose|i: int|
            0 <= i < inputs.len() && (#[trigger] inputs[i]).max_key == largest_key(inputs);
        if b < source_files.len() {
            assert(inputs[b] == source_files[b]);
            lemma_le_lt(inputs[b].max_key, max, f.min_key);
        } else {
            let g = over[b - source_files.len()];
            assert(inputs[b] == g);
            let j = choose|i: int|
                0 <= i < target.len() && #[trigger] target[i] == over[b - source_files.len()];
            assert(overlaps(g, min, max));
            if j > k {
                assert(key_lt(target[k].max_key, target[j].min_key));
                lemma_le_lt(f.min_key, f.max_key, g.min_key);
                lemma_key_lt_transitive(max, f.min_key, g.min_key);
            } else {
                assert(j < k);
                assert(key_lt(target[j].max_key, target[k].min_key));
            }
        }
    }
}

/// A compaction leaves the level that it merges into as a level should be, where the new
/// files are apart from each other and lie within the range of what was merged.
pub proof fn lemma_compaction_keeps_level(
    levels: Seq<LevelView>,
    plan: CompactionPlan,
    source_files: LevelView,
    new: LevelView,
)
    requires
        plan.merges(levels, plan.source_level as int, source_files),
        source_files.len() > 0,
        !key_lt(largest_key(source_files), smallest_key(source_files)),
        is_level(level_of(levels, plan.source_level + 1)),
        is_level(new),
        forall|i: int|
            0 <= i < new.len() ==> {
                let inputs = source_files + plan.target_files.deep_view();
                &&& !key_lt((#[trigger] new[i]).min_key, smallest_key(inputs))
                &&& !key_lt(largest_key(inputs), new[i].max_key)
            },
    ensures
        is_level(compacted::<FileMetadata>(levels, plan, new)[plan.source_level + 1]),
{
    let source = plan.source_level as int;
    let all = with_levels(levels, (source + 2) as nat);
    let target = all[source + 1];
    assert(target =~= level_of(levels, source + 1));
    let min = smallest_key(source_files);
    let max = largest_key(source_files);
    let over = overlapping(target, min, max);
    let inputs = source_files + over;
    let ids = file_ids(over);
    let stay = kept::<FileMetadata>(target, ids);
    let into = stay + new;
    lemma_kept_apart(target, ids);
    lemma_overlapping(target, min, max);
    assert forall|i: int, j: int| 0 <= i < stay.len() && 0 <= j < new.len() implies apart(
        #[trigger] stay[i],
        #[trigger] new[j],
    ) by {
        lemma_kept_member(target, ids, i);
        let k = choose|k: int| 0 <= k < target.len() && #[trigger] target[k] == stay[i];
        if overlaps(target[k], min, max) {
            let o = choose|o: int| 0 <= o < over.len() && #[trigger] over[o] == target[k];
            assert(ids[o] == stay[i].file_id);
        }
        lemma_kept_outside(target, source_files, k);
        if key_lt(stay[i].max_key, smallest_key(inputs)) {
            lemma_lt_le(stay[i].max_key, smallest_key(inputs), new[j].min_key);
        } else {
            lemma_le_lt(new[j].max_key, largest_key(inputs), stay[i].min_key);
        }
    }
    assert forall|i: int, j: int|
        0 <= i < into.len() && 0 <= j < into.len() && i != j implies apart(
        #[trigger] into[i],
        #[trigger] into[j],
    ) by {
        let n = stay.len();
        if i < n && j < n {
            assert(apart(stay[i], stay[j]));
        } else if i < n {
            assert(apart(stay[i], new[j - n]));
        } else if j < n {
            assert(apart(stay[j], new[i - n]));
        } else if i < j {
            assert(key_lt(new[i - n].max_key, new[j - n].min_key));
        } else {
            assert(key_lt(new[j - n].max_key, new[i - n].min_key));
        }
    }
    assert forall|i: int| 0 <= i < into.len() implies has_range(#[trigger] into[i]) by {
        let n = stay.len();
        if i < n {
            assert(has_range(stay[i]));
        } else {
            assert(has_range(new[i - n]));
        }
    }
    lemma_sorted_level(into);
}

/// In blocks that are in order, what comes later is larger.
proof fn lemma_concat_order(blocks: Seq<Seq<Entry>>, i: int, x: int, j: int, y: int)
    requires
        sorted(concat(blocks)),
        0 <= i <= j < blocks.len(),
        0 <= x < blocks[i].len(),
        0 <= y < blocks[j].len(),
        i == j ==> x < y,
    ensures
        key_lt(blocks[i][x].0, blocks[j][y].0),
    decreases blocks.len(),
{
    let first = blocks[0];
    let tail = blocks.skip(1);
    let all = concat(blocks);
    if i == 0 {
        assert(all[x] == first[x]);
        if j == 0 {
            assert(all[y] == first[y]);
        } else {
            lemma_concat_member(tail, j - 1, y);
            let m = choose|m: int|
                0 <= m < concat(tail).len() && #[trigger] concat(tail)[m] == tail[j - 1][y];
            assert(all[first.len() + m] == concat(tail)[m]);
        }
    } else {
        assert forall|a: int, b: int| 0 <= a < b < concat(tail).len() implies key_lt(
            (#[trigger] concat(tail)[a]).0,
            (#[trigger] concat(tail)[b]).0,
        ) by {
            assert(key_lt(all[a + first.len()].0, all[b + first.len()].0));
        }
        lemma_concat_order(tail, i - 1, x, j - 1, y);
    }
}

/// The tables that a sorted run is cut into make a level, within the range of the run.
pub proof fn lemma_output_is_level(es: Seq<Entry>, target: u64, new: LevelView)
    requires
        sorted(es),
        new.len() == split(es, target).0.len(),
        forall|i: int|
            0 <= i < new.len() ==> (#[trigger] new[i]).min_key == split(es, target).0[i][0].0
                && new[i].max_key == split(es, target).0[i].last().0,
    ensures
        is_level(new),
        forall|i: int|
            0 <= i < new.len() ==> !key_lt((#[trigger] new[i]).min_key, es[0].0) && !key_lt(
                es.last().0,
                new[i].max_key,
            ),
{
    let groups = split(es, target).0;
    lemma_split(es, target);
    assert forall|i: int| 0 <= i < new.len() implies has_range(#[trigger] new[i]) by {
        let g = groups[i];
        assert(g.len() > 0);
        if g.len() > 1 {
            lemma_concat_order(groups, i, 0, i, g.len() - 1);
            lemma_not_both(g[0].0, g.last().0);
        } else {
            lemma_key_lt_irreflexive(g[0].0);
        }
    }
    assert forall|i: int, j: int| 0 <= i < j < new.len() implies key_lt(
        (#[trigger] new[i]).max_key,
        (#[trigger] new[j]).min_key,
    ) by {
        assert(groups[i].len() > 0);
        assert(groups[j].len() > 0);
        lemma_concat_order(groups, i, groups[i].len() - 1, j, 0);
    }
    assert forall|i: int| 0 <= i < new.len() implies !key_lt((#[trigger] new[i]).min_key, es[0].0)
        && !key_lt(es.last().0, new[i].max_key) by {
        let g = groups[i];
        assert(g.len() > 0);
        lemma_concat_member(groups, i, 0);
        lemma_concat_member(groups, i, g.len() - 1);
        let a = choose|k: int| 0 <= k < es.len() && #[trigger] es[k] == g[0];
        let b = choose|k: int| 0 <= k < es.len() && #[trigger] es[k] == g[g.len() - 1];
        lemma_key_lt_irreflexive(es[0].0);
        lemma_key_lt_irreflexive(es.last().0);
        if a > 0 {
            assert(key_lt(es[0].0, es[a].0));
            lemma_not_both(es[0].0, es[a].0);
        }
        if b < es.len() - 1 {
            assert(key_lt(es[b].0, es[es.len() - 1].0));
            lemma_not_both(es[b].0, es.last().0);
        }
    }
}

/// A compaction of sorted tables can be written exactly where no version is there twice in
/// them. What it writes are then the entries of theirs, each once, and no other, in the order
/// of the keys: none is lost, added, changed or merged away.
pub proof fn lemma_compaction_keeps_entries(sources: Seq<Stream>, target: u64)
    requires
        sound(sources),
    ensures
        ({
            let (run, error) = merge_all(sources);
            let (groups, ok) = split(run, target);
            &&& error is None
            &&& ok <==> distinct_keys(sources)
            &&& ok ==> sorted(concat(groups)) && concat(groups).to_multiset() == entries_of(
                sources,
            )
        }),
{
    let run = merge_all(sources).0;
    lemma_merge(sources);
    lemma_split(run, target);
    if split(run, target).1 {
        lemma_sorted_is_distinct(sources);
    }
}

/// In sorted entries the first version of a key is the one with the highest LSN.
pub proof fn lemma_newest_first(es: Seq<Entry>, i: int)
    requires
        sorted(es),
        0 <= i < es.len(),
        forall|j: int|
            0 <= j < es.len() && (#[trigger] es[j]).0.bytes == es[i].0.bytes ==> es[j].0.lsn
                <= es[i].0.lsn,
    ensures
        lookup(es, es[i].0.bytes) == Some(es[i].1),
{
    let key = es[i].0.bytes;
    lemma_lookup_finds(es, key, i);
    lemma_lookup_present(es, key);
    let f = choose|f: int|
        0 <= f < es.len() && (#[trigger] es[f]).0.bytes == key && lookup(es, key) == Some(es[f].1)
            && forall|j: int| 0 <= j < f ==> (#[trigger] es[j]).0.bytes != key;
    if f < i {
        assert(key_lt(es[f].0, es[i].0));
        lemma_bytes_lt_irreflexive(key);
    }
}

/// The entries of all sources are those of one of them.
pub proof fn lemma_entries_member(sources: Seq<Stream>, e: Entry)
    ensures
        entries_of(sources).count(e) > 0 <==> exists|i: int|
            0 <= i < sources.len() && (#[trigger] sources[i]).0.contains(e),
    decreases sources.len(),
{
    broadcast use vstd::seq_lib::group_to_multiset_ensures;

    if sources.len() > 0 {
        let shorter = sources.drop_last();
        let last = sources.len() - 1;
        lemma_entries_member(shorter, e);
        assert(sources[last].0.contains(e) <==> sources[last].0.to_multiset().count(e) > 0);
        if entries_of(shorter).count(e) > 0 {
            let i = choose|i: int| 0 <= i < shorter.len() && (#[trigger] shorter[i]).0.contains(e);
            assert(sources[i].0.contains(e));
        }
        if exists|i: int| 0 <= i < sources.len() && (#[trigger] sources[i]).0.contains(e) {
            let i = choose|i: int| 0 <= i < sources.len() && (#[trigger] sources[i]).0.contains(e);
            if i < last {
                assert(shorter[i].0.contains(e));
            }
        }
    }
}

/// Reading a merged run gives the newest version of a key that any of the inputs has.
pub proof fn lemma_merge_reads_newest(sources: Seq<Stream>, a: int, x: int)
    requires
        sound(sources),
        distinct_keys(sources),
        0 <= a < sources.len(),
        0 <= x < sources[a].0.len(),
        forall|b: int, y: int|
            0 <= b < sources.len() && 0 <= y < sources[b].0.len() && (
            #[trigger] sources[b].0[y]).0.bytes == sources[a].0[x].0.bytes ==> sources[b].0[y].0.lsn
                <= sources[a].0[x].0.lsn,
    ensures
        lookup(merge_all(sources).0, sources[a].0[x].0.bytes) == Some(sources[a].0[x].1),
{
    broadcast use vstd::seq_lib::group_to_multiset_ensures;

    lemma_merge(sources);
    let run = merge_all(sources).0;
    let e = sources[a].0[x];
    assert(sources[a].0.contains(e));
    lemma_entries_member(sources, e);
    assert(run.to_multiset().count(e) > 0);
    assert(run.contains(e));
    let i = choose|i: int| 0 <= i < run.len() && run[i] == e;
    assert forall|j: int|
        0 <= j < run.len() && (#[trigger] run[j]).0.bytes == run[i].0.bytes implies run[j].0.lsn
        <= run[i].0.lsn by {
        let f = run[j];
        assert(run.contains(f));
        assert(run.to_multiset().count(f) > 0);
        lemma_entries_member(sources, f);
        let b = choose|b: int| 0 <= b < sources.len() && (#[trigger] sources[b]).0.contains(f);
        let y = choose|y: int| 0 <= y < sources[b].0.len() && sources[b].0[y] == f;
        assert(sources[b].0[y].0.bytes == e.0.bytes);
    }
    lemma_newest_first(run, i);
}

/// A key that no input has is not in the merged run.
pub proof fn lemma_merge_reads_nothing(sources: Seq<Stream>, key: Seq<u8>)
    requires
        sound(sources),
        forall|b: int, y: int|
            0 <= b < sources.len() && 0 <= y < sources[b].0.len() ==> (
            #[trigger] sources[b].0[y]).0.bytes != key,
    ensures
        lookup(merge_all(sources).0, key) is None,
{
    broadcast use vstd::seq_lib::group_to_multiset_ensures;

    lemma_merge(sources);
    let run = merge_all(sources).0;
    assert forall|j: int| 0 <= j < run.len() implies (#[trigger] run[j]).0.bytes != key by {
        let f = run[j];
        assert(run.contains(f));
        assert(run.to_multiset().count(f) > 0);
        lemma_entries_member(sources, f);
        let b = choose|b: int| 0 <= b < sources.len() && (#[trigger] sources[b]).0.contains(f);
        let y = choose|y: int| 0 <= y < sources[b].0.len() && sources[b].0[y] == f;
        assert(sources[b].0[y].0.bytes != key);
    }
    lemma_lookup_absent(run, key);
}

} // verus!
