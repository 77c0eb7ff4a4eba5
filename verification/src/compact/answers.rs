//! Compaction changes no answer: it keeps the levels in order, loses no version and keeps the
//! newer ones in front of the older ones.

use crate::compact::commit::{
    by_min_key, compacted, kept, largest_key, level_of, smallest_key, with_levels, CompactionPlan,
};
use crate::compact::laws::{
    is_level, lemma_compaction_keeps_level, lemma_entries_member, lemma_kept_level,
    lemma_key_bounds, lemma_output_is_level,
};
use crate::compact::levels::{
    all_sound, by_age, describes, follows, is_held, lemma_compacted_follows, lemma_concat_contains,
    lemma_empty_level, lemma_into_contains, lemma_kept_contains, lemma_level_sorted,
    lemma_levels_lookup, lemma_same_answer, lemma_same_table, lemma_sorted_by_age,
    lemma_sound_member, lemma_with_levels_by_age, level_follows, level_holds, level_run,
    newest_first, numbers_differ, run_of, runs_of, views_of, Open,
};
use crate::compact::merge::{lemma_merge, merge_all, sound, Stream};
use crate::compact::output::{lemma_split, split};
use crate::data_stores::key::{
    key_lt, lemma_key_lt_irreflexive, lemma_key_lt_total, lemma_key_lt_transitive, KeyView,
};
use crate::data_stores::manifest::{file_ids, FileMetadata, LevelView};
use crate::data_stores::sstable::Sstable;
use crate::data_stores::table_format::{holds_run, lemma_holds_run, sorted, Entry, TableView};
use crate::data_stores::value::ValueView;
use crate::db::{search_order, tables_give};
use crate::err::DbError;
use std::sync::Arc;
use vstd::prelude::*;

verus! {

/// The streams of some tables.
pub open spec fn streams_of(tables: Seq<Open>) -> Seq<Stream> {
    Seq::new(tables.len(), |i: int| tables[i].1.walk().stream())
}

/// Whether `merged` are the tables of the files that a plan is to merge.
pub open spec fn are_merged(
    levels: Seq<Seq<Open>>,
    plan: CompactionPlan,
    merged: Seq<Open>,
) -> bool {
    let n = plan.source_level as int;
    let all = with_levels(levels, (n + 2) as nat);
    let source = plan.source_files.deep_view();
    let target = plan.target_files.deep_view();
    &&& merged.len() == source.len() + target.len()
    &&& forall|i: int|
        0 <= i < source.len() ==> all[n].contains(#[trigger] merged[i]) && describes(
            source[i],
            merged[i],
        )
    &&& forall|i: int|
        source.len() <= i < merged.len() ==> all[n + 1].contains(#[trigger] merged[i])
            && describes(target[i - source.len()], merged[i])
}

/// Whether every entry could be written, and new tables, and what the manifest is to know of
/// them, are those of the groups that the entries were cut into.
pub open spec fn are_written(
    new_files: LevelView,
    new: Seq<Open>,
    cut: (Seq<Seq<Entry>>, bool),
) -> bool {
    let (groups, ok) = cut;
    &&& ok
    &&& new.len() == groups.len()
    &&& level_follows(new_files, new)
    &&& forall|i: int| 0 <= i < new.len() ==> holds_run((#[trigger] new[i]).1, groups[i])
}

/// Whether new tables are what a plan comes to on a sound database: files of a level, all of
/// them in the first one, are merged with those of the next level that they overlap, and all
/// of what is merged could be written.
pub open spec fn is_compaction(
    files: Seq<LevelView>,
    levels: Seq<Seq<Open>>,
    plan: CompactionPlan,
    merged: Seq<Open>,
    target_size: u64,
    new_files: LevelView,
    new: Seq<Open>,
) -> bool {
    let n = plan.source_level as int;
    let all = with_levels(levels, (n + 2) as nat);
    let source = plan.source_files.deep_view();
    &&& follows(files, levels)
    &&& forall|l: int| 0 <= l < levels.len() ==> all_sound(#[trigger] levels[l])
    &&& numbers_differ(all[n])
    &&& numbers_differ(all[n + 1])
    &&& source.len() > 0
    &&& plan.merges(files, n, source)
    &&& n == 0 ==> source == level_of(files, 0)
    &&& n > 0 ==> is_level(level_of(files, n))
    &&& is_level(level_of(files, n + 1))
    &&& are_merged(levels, plan, merged)
    &&& are_written(new_files, new, split(merge_all(streams_of(merged)).0, target_size))
}

/// Whether a table has a version of a key.
pub open spec fn knows(t: TableView, key: Seq<u8>) -> bool {
    exists|e: Entry| #[trigger] run_of(t).contains(e) && e.0.bytes == key
}

/// Whether versions of a key are both in tables of some numbers and in other tables of a
/// level.
pub open spec fn is_split(tables: Seq<Open>, ids: Seq<u32>, key: Seq<u8>) -> bool {
    exists|t: Open, u: Open|
        {
            &&& #[trigger] tables.contains(t)
            &&& #[trigger] tables.contains(u)
            &&& ids.contains(t.0)
            &&& !ids.contains(u.0)
            &&& knows(t.1, key)
            &&& knows(u.1, key)
        }
}

/// What was merged is what was written.
proof fn lemma_written_holds(
    merged: Seq<Open>,
    target_size: u64,
    new_files: LevelView,
    new: Seq<Open>,
    e: Entry,
)
    requires
        all_sound(merged),
        are_written(new_files, new, split(merge_all(streams_of(merged)).0, target_size)),
    ensures
        level_holds(new, e) <==> level_holds(merged, e),
{
    let run = merge_all(streams_of(merged)).0;
    let groups = split(run, target_size).0;
    lemma_split(run, target_size);
    lemma_run_holds(merged, e);
    lemma_concat_contains(groups, e);
    if level_holds(new, e) {
        let t = choose|t: Open| #[trigger] new.contains(t) && run_of(t.1).contains(e);
        let i = choose|i: int| 0 <= i < new.len() && new[i] == t;
        lemma_holds_run(new[i].1, groups[i]);
        assert(groups[i].contains(e));
    }
    if level_holds(merged, e) {
        let i = choose|i: int| 0 <= i < groups.len() && (#[trigger] groups[i]).contains(e);
        lemma_holds_run(new[i].1, groups[i]);
        assert(new.contains(new[i]));
        assert(run_of(new[i].1).contains(e));
    }
}

/// A merge has the entries of the tables that are merged.
proof fn lemma_run_holds(merged: Seq<Open>, e: Entry)
    requires
        all_sound(merged),
    ensures
        merge_all(streams_of(merged)).0.contains(e) <==> level_holds(merged, e),
{
    broadcast use vstd::seq_lib::group_to_multiset_ensures;

    let sources = streams_of(merged);
    lemma_streams_sound(merged);
    lemma_merge(sources);
    let run = merge_all(sources).0;
    lemma_entries_member(sources, e);
    assert(run.contains(e) <==> run.to_multiset().count(e) > 0);
    if run.contains(e) {
        let k = choose|k: int| 0 <= k < sources.len() && (#[trigger] sources[k]).0.contains(e);
        assert(merged.contains(merged[k]));
        assert(run_of(merged[k].1).contains(e));
    }
    if level_holds(merged, e) {
        let t = choose|t: Open| #[trigger] merged.contains(t) && run_of(t.1).contains(e);
        let k = choose|k: int| 0 <= k < merged.len() && merged[k] == t;
        assert(sources[k].0.contains(e));
    }
}

proof fn lemma_streams_sound(merged: Seq<Open>)
    requires
        all_sound(merged),
    ensures
        sound(streams_of(merged)),
{
    let sources = streams_of(merged);
    assert forall|i: int| 0 <= i < sources.len() implies sorted((#[trigger] sources[i]).0)
        && sources[i].1 is None by {
        lemma_holds_run(merged[i].1, run_of(merged[i].1));
    }
}

/// Whether a table of some numbers in a level holds an entry.
spec fn numbered_hold(tables: Seq<Open>, ids: Seq<u32>, e: Entry) -> bool {
    exists|t: Open| #[trigger] tables.contains(t) && ids.contains(t.0) && run_of(t.1).contains(e)
}

/// The entries of a level are those of the tables that stay and those of the tables that go.
proof fn lemma_level_parts(tables: Seq<Open>, ids: Seq<u32>, e: Entry)
    ensures
        level_holds(tables, e) <==> numbered_hold(tables, ids, e) || level_holds(
            kept::<Arc<Sstable>>(tables, ids),
            e,
        ),
        level_holds(kept::<Arc<Sstable>>(tables, ids), e) ==> level_holds(tables, e),
{
    let stay = kept::<Arc<Sstable>>(tables, ids);
    if level_holds(tables, e) {
        let t = choose|t: Open| #[trigger] tables.contains(t) && run_of(t.1).contains(e);
        if !ids.contains(t.0) {
            lemma_kept_contains(tables, ids, t);
        }
    }
    if level_holds(stay, e) {
        let t = choose|t: Open| #[trigger] stay.contains(t) && run_of(t.1).contains(e);
        lemma_kept_contains(tables, ids, t);
    }
}

proof fn lemma_merged_holds(
    levels: Seq<Seq<Open>>,
    plan: CompactionPlan,
    merged: Seq<Open>,
    e: Entry,
)
    requires
        are_merged(levels, plan, merged),
        numbers_differ(
            with_levels(levels, (plan.source_level + 2) as nat)[plan.source_level as int],
        ),
        numbers_differ(with_levels(levels, (plan.source_level + 2) as nat)[plan.source_level + 1]),
    ensures
        ({
            let n = plan.source_level as int;
            let all = with_levels(levels, (n + 2) as nat);
            level_holds(merged, e) <==> numbered_hold(
                all[n],
                file_ids(plan.source_files.deep_view()),
                e,
            ) || numbered_hold(all[n + 1], file_ids(plan.target_files.deep_view()), e)
        }),
{
    let n = plan.source_level as int;
    let all = with_levels(levels, (n + 2) as nat);
    let source = plan.source_files.deep_view();
    let target = plan.target_files.deep_view();
    let source_ids = file_ids(source);
    let target_ids = file_ids(target);
    if level_holds(merged, e) {
        let t = choose|t: Open| #[trigger] merged.contains(t) && run_of(t.1).contains(e);
        let i = choose|i: int| 0 <= i < merged.len() && merged[i] == t;
        if i < source.len() {
            assert(source_ids[i] == merged[i].0);
            assert(all[n].contains(merged[i]));
        } else {
            assert(target_ids[i - source.len()] == merged[i].0);
            assert(all[n + 1].contains(merged[i]));
        }
    }
    if numbered_hold(all[n], source_ids, e) {
        let t = choose|t: Open| #[trigger]
            all[n].contains(t) && source_ids.contains(t.0) && run_of(t.1).contains(e);
        let i = choose|i: int| 0 <= i < source_ids.len() && source_ids[i] == t.0;
        lemma_same_table(all[n], t, merged[i]);
        assert(merged.contains(merged[i]));
    }
    if numbered_hold(all[n + 1], target_ids, e) {
        let t = choose|t: Open| #[trigger]
            all[n + 1].contains(t) && target_ids.contains(t.0) && run_of(t.1).contains(e);
        let i = choose|i: int| 0 <= i < target_ids.len() && target_ids[i] == t.0;
        let m = merged[source.len() + i];
        lemma_same_table(all[n + 1], t, m);
        assert(merged.contains(m));
    }
}

proof fn lemma_merged_sound(levels: Seq<Seq<Open>>, plan: CompactionPlan, merged: Seq<Open>)
    requires
        forall|l: int| 0 <= l < levels.len() ==> all_sound(#[trigger] levels[l]),
        are_merged(levels, plan, merged),
    ensures
        all_sound(merged),
{
    let n = plan.source_level as int;
    let all = with_levels(levels, (n + 2) as nat);
    let source = plan.source_files.deep_view();
    assert forall|i: int| 0 <= i < merged.len() implies holds_run(
        (#[trigger] merged[i]).1,
        run_of(merged[i].1),
    ) by {
        let l = if i < source.len() {
            n
        } else {
            n + 1
        };
        assert(all[l].contains(merged[i]));
        assert(l < levels.len());
        assert(all_sound(levels[l]));
        lemma_sound_member(all[l], merged[i]);
    }
}

/// The range of the new files lies within that of the files that were merged.
proof fn lemma_written_range(
    merged: Seq<Open>,
    inputs: LevelView,
    target_size: u64,
    new_files: LevelView,
    new: Seq<Open>,
)
    requires
        all_sound(merged),
        level_follows(inputs, merged),
        are_written(new_files, new, split(merge_all(streams_of(merged)).0, target_size)),
    ensures
        is_level(new_files),
        forall|i: int|
            0 <= i < new_files.len() ==> !key_lt(
                (#[trigger] new_files[i]).min_key,
                smallest_key(inputs),
            ) && !key_lt(largest_key(inputs), new_files[i].max_key),
{
    let sources = streams_of(merged);
    lemma_streams_sound(merged);
    lemma_merge(sources);
    let run = merge_all(sources).0;
    let groups = split(run, target_size).0;
    assert forall|i: int| 0 <= i < new_files.len() implies (#[trigger] new_files[i]).min_key
        == groups[i][0].0 && new_files[i].max_key == groups[i].last().0 by {
        assert(describes(new_files[i], new[i]));
        lemma_holds_run(new[i].1, groups[i]);
    }
    lemma_split(run, target_size);
    lemma_output_is_level(run, target_size, new_files);
    if new_files.len() > 0 {
        assert(groups[0].len() > 0);
        lemma_concat_contains(groups, groups[0][0]);
        assert(groups[0].contains(groups[0][0]));
        assert(run.len() > 0);
        lemma_run_bounds(merged, inputs, run[0]);
        lemma_run_bounds(merged, inputs, run[run.len() - 1]);
        assert forall|i: int| 0 <= i < new_files.len() implies !key_lt(
            (#[trigger] new_files[i]).min_key,
            smallest_key(inputs),
        ) && !key_lt(largest_key(inputs), new_files[i].max_key) by {
            let lo = smallest_key(inputs);
            let hi = largest_key(inputs);
            lemma_not_before(lo, run[0].0, new_files[i].min_key);
            lemma_not_before(new_files[i].max_key, run.last().0, hi);
        }
    }
}

/// Of three keys, where the second is not before the first nor the third before the second,
/// the third is not before the first.
proof fn lemma_not_before(a: KeyView, b: KeyView, c: KeyView)
    requires
        !key_lt(b, a),
        !key_lt(c, b),
    ensures
        !key_lt(c, a),
{
    if key_lt(c, a) {
        lemma_key_lt_total(b, c);
        if key_lt(b, c) {
            lemma_key_lt_transitive(b, c, a);
        }
    }
}

/// Every entry of a merge lies within the range of the files that were merged.
proof fn lemma_run_bounds(merged: Seq<Open>, inputs: LevelView, e: Entry)
    requires
        all_sound(merged),
        level_follows(inputs, merged),
        merge_all(streams_of(merged)).0.contains(e),
    ensures
        inputs.len() > 0,
        !key_lt(e.0, smallest_key(inputs)),
        !key_lt(largest_key(inputs), e.0),
{
    lemma_run_holds(merged, e);
    let t = choose|t: Open| #[trigger] merged.contains(t) && run_of(t.1).contains(e);
    let k = choose|k: int| 0 <= k < merged.len() && merged[k] == t;
    lemma_table_bounds(merged[k], e);
    assert(describes(inputs[k], merged[k]));
    lemma_key_bounds(inputs);
    lemma_not_before(smallest_key(inputs), inputs[k].min_key, e.0);
    lemma_not_before(e.0, inputs[k].max_key, largest_key(inputs));
}

/// Every entry of a table lies within its range.
proof fn lemma_table_bounds(t: Open, e: Entry)
    requires
        holds_run(t.1, run_of(t.1)),
        run_of(t.1).contains(e),
    ensures
        !key_lt(e.0, t.1.min_key),
        !key_lt(t.1.max_key, e.0),
{
    let es = run_of(t.1);
    lemma_holds_run(t.1, es);
    let x = choose|x: int| 0 <= x < es.len() && es[x] == e;
    lemma_key_lt_irreflexive(e.0);
    if x > 0 {
        assert(key_lt(es[0].0, es[x].0));
        lemma_key_lt_total(es[0].0, es[x].0);
    }
    if x < es.len() - 1 {
        assert(key_lt(es[x].0, es[es.len() - 1].0));
        lemma_key_lt_total(es[x].0, es[es.len() - 1].0);
    }
}

/// A compaction keeps the levels as they should be: in the levels behind the first one the
/// files are in the order of their keys, and no two ranges have a key in common. The open
/// tables follow.
pub proof fn lemma_compaction_keeps_levels(
    files: Seq<LevelView>,
    levels: Seq<Seq<Open>>,
    plan: CompactionPlan,
    merged: Seq<Open>,
    target_size: u64,
    new_files: LevelView,
    new: Seq<Open>,
)
    requires
        is_compaction(files, levels, plan, merged, target_size, new_files, new),
    ensures
        ({
            let n = plan.source_level as int;
            let after = compacted::<FileMetadata>(files, plan, new_files);
            &&& is_level(after[n + 1])
            &&& n > 0 ==> is_level(after[n])
            &&& forall|l: int| 0 <= l < files.len() && l != n && l != n + 1 ==> #[trigger] after[l]
                == files[l]
            &&& follows(after, compacted::<Arc<Sstable>>(levels, plan, new))
        }),
{
    let n = plan.source_level as int;
    let source = plan.source_files.deep_view();
    let target = plan.target_files.deep_view();
    let inputs = source + target;
    lemma_compacted_follows(files, levels, plan, new_files, new);
    lemma_merged_sound(levels, plan, merged);
    assert forall|i: int| 0 <= i < inputs.len() implies describes(
        #[trigger] inputs[i],
        merged[i],
    ) by {
        if i < source.len() {
            assert(describes(source[i], merged[i]));
        } else {
            assert(describes(target[i - source.len()], merged[i]));
        }
    }
    lemma_written_range(merged, inputs, target_size, new_files, new);
    lemma_source_range(merged, source);
    lemma_compaction_keeps_level(files, plan, source, new_files);
    if n > 0 {
        let all = with_levels(files, (n + 2) as nat);
        assert(all[n] =~= level_of(files, n));
        lemma_kept_level(all[n], file_ids(source));
    }
}

proof fn lemma_source_range(merged: Seq<Open>, source: LevelView)
    requires
        all_sound(merged),
        0 < source.len() <= merged.len(),
        forall|i: int| 0 <= i < source.len() ==> describes(#[trigger] source[i], merged[i]),
    ensures
        !key_lt(largest_key(source), smallest_key(source)),
{
    let es = run_of(merged[0].1);
    lemma_holds_run(merged[0].1, es);
    assert(describes(source[0], merged[0]));
    lemma_key_bounds(source);
    if es.len() > 1 {
        assert(key_lt(es[0].0, es[es.len() - 1].0));
        lemma_key_lt_total(es[0].0, es[es.len() - 1].0);
    } else {
        lemma_key_lt_irreflexive(es[0].0);
    }
    lemma_not_before(smallest_key(source), source[0].min_key, source[0].max_key);
    lemma_not_before(smallest_key(source), source[0].max_key, largest_key(source));
}

/// What the two levels of a compaction hold before it and after it.
proof fn lemma_compacted_holds(
    files: Seq<LevelView>,
    levels: Seq<Seq<Open>>,
    plan: CompactionPlan,
    merged: Seq<Open>,
    target_size: u64,
    new_files: LevelView,
    new: Seq<Open>,
    e: Entry,
)
    requires
        is_compaction(files, levels, plan, merged, target_size, new_files, new),
    ensures
        ({
            let n = plan.source_level as int;
            let all = with_levels(levels, (n + 2) as nat);
            let after = compacted::<Arc<Sstable>>(levels, plan, new);
            let ids = file_ids(plan.source_files.deep_view());
            let stay = kept::<Arc<Sstable>>(all[n], ids);
            &&& after[n] == stay
            &&& level_holds(all[n], e) <==> numbered_hold(all[n], ids, e) || level_holds(stay, e)
            &&& level_holds(after[n + 1], e) <==> level_holds(all[n + 1], e) || numbered_hold(
                all[n],
                ids,
                e,
            )
        }),
{
    let n = plan.source_level as int;
    let all = with_levels(levels, (n + 2) as nat);
    let after = compacted::<Arc<Sstable>>(levels, plan, new);
    let source_ids = file_ids(plan.source_files.deep_view());
    let target_ids = file_ids(plan.target_files.deep_view());
    let stay = kept::<Arc<Sstable>>(all[n + 1], target_ids);
    lemma_level_parts(all[n], source_ids, e);
    lemma_level_parts(all[n + 1], target_ids, e);
    lemma_merged_sound(levels, plan, merged);
    lemma_written_holds(merged, target_size, new_files, new, e);
    lemma_merged_holds(levels, plan, merged, e);
    assert(after[n + 1] == by_min_key::<Arc<Sstable>>(stay + new));
    if level_holds(after[n + 1], e) {
        let t = choose|t: Open| #[trigger] after[n + 1].contains(t) && run_of(t.1).contains(e);
        lemma_into_contains(stay, new, t);
        if stay.contains(t) {
            assert(level_holds(stay, e));
        } else {
            assert(level_holds(new, e));
        }
    }
    if level_holds(stay, e) {
        let t = choose|t: Open| #[trigger] stay.contains(t) && run_of(t.1).contains(e);
        lemma_into_contains(stay, new, t);
        assert(level_holds(after[n + 1], e));
    }
    if level_holds(new, e) {
        let t = choose|t: Open| #[trigger] new.contains(t) && run_of(t.1).contains(e);
        lemma_into_contains(stay, new, t);
        assert(level_holds(after[n + 1], e));
    }
}

/// The tables of a level after a compaction are sound.
pub proof fn lemma_compacted_sound(
    files: Seq<LevelView>,
    levels: Seq<Seq<Open>>,
    plan: CompactionPlan,
    merged: Seq<Open>,
    target_size: u64,
    new_files: LevelView,
    new: Seq<Open>,
    l: int,
)
    requires
        is_compaction(files, levels, plan, merged, target_size, new_files, new),
        0 <= l < compacted::<Arc<Sstable>>(levels, plan, new).len(),
    ensures
        all_sound(compacted::<Arc<Sstable>>(levels, plan, new)[l]),
{
    let n = plan.source_level as int;
    let all = with_levels(levels, (n + 2) as nat);
    let after = compacted::<Arc<Sstable>>(levels, plan, new);
    let source_ids = file_ids(plan.source_files.deep_view());
    let target_ids = file_ids(plan.target_files.deep_view());
    let stay = kept::<Arc<Sstable>>(all[n + 1], target_ids);
    let groups = split(merge_all(streams_of(merged)).0, target_size).0;
    assert forall|k: int| 0 <= k < all.len() implies all_sound(#[trigger] all[k]) by {
        if k < levels.len() {
            assert(all_sound(levels[k]));
        }
    }
    assert forall|i: int| 0 <= i < after[l].len() implies holds_run(
        (#[trigger] after[l][i]).1,
        run_of(after[l][i].1),
    ) by {
        let t = after[l][i];
        assert(after[l].contains(t));
        if l == n {
            lemma_kept_contains(all[n], source_ids, t);
            lemma_sound_member(all[n], t);
        } else if l == n + 1 {
            lemma_into_contains(stay, new, t);
            if stay.contains(t) {
                lemma_kept_contains(all[n + 1], target_ids, t);
                lemma_sound_member(all[n + 1], t);
            } else {
                let k = choose|k: int| 0 <= k < new.len() && new[k] == t;
                lemma_holds_run(new[k].1, groups[k]);
            }
        } else {
            lemma_sound_member(all[l], t);
        }
    }
}

/// In a compaction of the first level no table stays.
proof fn lemma_first_level_empty(
    files: Seq<LevelView>,
    levels: Seq<Seq<Open>>,
    plan: CompactionPlan,
)
    requires
        follows(files, levels),
        plan.source_level == 0,
        plan.source_files.deep_view() == level_of(files, 0),
    ensures
        kept::<Arc<Sstable>>(
            with_levels(levels, 2)[0],
            file_ids(plan.source_files.deep_view()),
        ).len() == 0,
{
    let all = with_levels(levels, 2);
    let ids = file_ids(plan.source_files.deep_view());
    let stay = kept::<Arc<Sstable>>(all[0], ids);
    if stay.len() > 0 {
        let t = stay[0];
        assert(stay.contains(t));
        lemma_kept_contains(all[0], ids, t);
        let i = choose|i: int| 0 <= i < all[0].len() && all[0][i] == t;
        assert(levels.len() > 0);
        assert(level_follows(files[0], levels[0]));
        assert(describes(files[0][i], levels[0][i]));
        assert(ids[i] == t.0);
    }
}

/// A version that stays in the level of a compaction is newer than one of the same key that
/// is merged, as no key has both.
proof fn lemma_stay_newer(tables: Seq<Open>, ids: Seq<u32>, key: Seq<u8>, e: Entry, f: Entry)
    requires
        !is_split(tables, ids, key),
        e.0.bytes == key,
        f.0.bytes == key,
        level_holds(kept::<Arc<Sstable>>(tables, ids), e),
    ensures
        !numbered_hold(tables, ids, f),
{
    if numbered_hold(tables, ids, f) {
        let stay = kept::<Arc<Sstable>>(tables, ids);
        let u = choose|u: Open| #[trigger] stay.contains(u) && run_of(u.1).contains(e);
        let t = choose|t: Open| #[trigger]
            tables.contains(t) && ids.contains(t.0) && run_of(t.1).contains(f);
        lemma_kept_contains(tables, ids, u);
        assert(knows(t.1, key));
        assert(knows(u.1, key));
        assert(tables.contains(t) && tables.contains(u));
    }
}

/// A compaction loses no entry and adds none.
pub proof fn lemma_compaction_same_entries(
    files: Seq<LevelView>,
    levels: Seq<Seq<Open>>,
    plan: CompactionPlan,
    merged: Seq<Open>,
    target_size: u64,
    new_files: LevelView,
    new: Seq<Open>,
    e: Entry,
)
    requires
        is_compaction(files, levels, plan, merged, target_size, new_files, new),
    ensures
        is_held(levels, e) <==> is_held(compacted::<Arc<Sstable>>(levels, plan, new), e),
{
    let after = compacted::<Arc<Sstable>>(levels, plan, new);
    lemma_compacted_holds(files, levels, plan, merged, target_size, new_files, new, e);
    lemma_held_alike(levels, after, plan.source_level as int, e);
}

/// Levels of which two were changed hold the same, where the two together do.
proof fn lemma_held_alike(levels: Seq<Seq<Open>>, after: Seq<Seq<Open>>, n: int, e: Entry)
    requires
        0 <= n,
        after.len() == with_levels(levels, (n + 2) as nat).len(),
        forall|l: int|
            0 <= l < after.len() && l != n && l != n + 1 ==> #[trigger] after[l] == with_levels(
                levels,
                (n + 2) as nat,
            )[l],
        level_holds(after[n], e) || level_holds(after[n + 1], e) <==> level_holds(
            with_levels(levels, (n + 2) as nat)[n],
            e,
        ) || level_holds(with_levels(levels, (n + 2) as nat)[n + 1], e),
    ensures
        is_held(levels, e) <==> is_held(after, e),
{
    let all = with_levels(levels, (n + 2) as nat);
    if is_held(levels, e) {
        let l = choose|l: int| 0 <= l < levels.len() && #[trigger] level_holds(levels[l], e);
        assert(all[l] == levels[l]);
        if l != n && l != n + 1 {
            assert(level_holds(after[l], e));
        }
    }
    if is_held(after, e) {
        let l = choose|l: int| 0 <= l < after.len() && #[trigger] level_holds(after[l], e);
        let k = if l != n && l != n + 1 {
            l
        } else if level_holds(all[n], e) {
            n
        } else {
            n + 1
        };
        lemma_empty_level(e);
        assert(level_holds(all[k], e));
        assert(all[k] == levels[k]);
    }
}

/// Of two versions of a key that are in different levels after a compaction, the one in the
/// level before is the newer one.
proof fn lemma_compacted_versions(
    files: Seq<LevelView>,
    levels: Seq<Seq<Open>>,
    plan: CompactionPlan,
    merged: Seq<Open>,
    target_size: u64,
    new_files: LevelView,
    new: Seq<Open>,
    key: Seq<u8>,
    l: int,
    m: int,
    e: Entry,
    f: Entry,
)
    requires
        is_compaction(files, levels, plan, merged, target_size, new_files, new),
        by_age(with_levels(levels, (plan.source_level + 2) as nat), key),
        plan.source_level > 0 ==> !is_split(
            with_levels(levels, (plan.source_level + 2) as nat)[plan.source_level as int],
            file_ids(plan.source_files.deep_view()),
            key,
        ),
        0 <= l < m < compacted::<Arc<Sstable>>(levels, plan, new).len(),
        level_holds(compacted::<Arc<Sstable>>(levels, plan, new)[l], e),
        level_holds(compacted::<Arc<Sstable>>(levels, plan, new)[m], f),
        e.0.bytes == key,
        f.0.bytes == key,
    ensures
        e.0.lsn > f.0.lsn,
{
    let n = plan.source_level as int;
    let all = with_levels(levels, (n + 2) as nat);
    let after = compacted::<Arc<Sstable>>(levels, plan, new);
    let ids = file_ids(plan.source_files.deep_view());
    lemma_compacted_holds(files, levels, plan, merged, target_size, new_files, new, e);
    lemma_compacted_holds(files, levels, plan, merged, target_size, new_files, new, f);
    if l == n && m == n + 1 && !level_holds(all[n + 1], f) {
        if n == 0 {
            lemma_first_level_empty(files, levels, plan);
            assert(after[0] =~= Seq::<Open>::empty());
            lemma_empty_level(e);
        } else {
            lemma_stay_newer(all[n], ids, key, e, f);
        }
    }
    // Where each of the two was before.
    let a = if l == n + 1 && !level_holds(all[n + 1], e) {
        n
    } else {
        l
    };
    let b = if m == n + 1 && !level_holds(all[n + 1], f) {
        n
    } else {
        m
    };
    assert(level_holds(all[a], e));
    assert(level_holds(all[b], f));
    assert(a < b);
}

/// In each level after a compaction the newer versions are searched first.
proof fn lemma_compacted_runs(
    files: Seq<LevelView>,
    levels: Seq<Seq<Open>>,
    plan: CompactionPlan,
    merged: Seq<Open>,
    target_size: u64,
    new_files: LevelView,
    new: Seq<Open>,
    key: Seq<u8>,
    l: int,
)
    requires
        is_compaction(files, levels, plan, merged, target_size, new_files, new),
        by_age(with_levels(levels, (plan.source_level + 2) as nat), key),
        0 <= l < compacted::<Arc<Sstable>>(levels, plan, new).len(),
    ensures
        newest_first(level_run(compacted::<Arc<Sstable>>(levels, plan, new)[l], l == 0), key),
{
    let n = plan.source_level as int;
    let all = with_levels(levels, (n + 2) as nat);
    let after = compacted::<Arc<Sstable>>(levels, plan, new);
    let files_after = compacted::<FileMetadata>(files, plan, new_files);
    if l == n + 1 || (l == n && n > 0) {
        lemma_compaction_keeps_levels(files, levels, plan, merged, target_size, new_files, new);
        lemma_compacted_sound(files, levels, plan, merged, target_size, new_files, new, l);
        assert(level_follows(files_after[l], after[l]));
        lemma_level_sorted(files_after[l], after[l]);
        lemma_sorted_by_age(level_run(after[l], false), key);
    } else if l == n {
        lemma_first_level_empty(files, levels, plan);
        assert(runs_of(after[l].reverse()) =~= Seq::<Seq<Entry>>::empty());
        assert(level_run(after[l], true) =~= Seq::<Entry>::empty());
    } else {
        assert(after[l] == all[l]);
        assert(newest_first(level_run(all[l], l == 0), key));
    }
}

/// A compaction keeps versions in the order of their age, where no version of a key stays in
/// the level while another is merged into the next one.
pub proof fn lemma_compaction_keeps_order(
    files: Seq<LevelView>,
    levels: Seq<Seq<Open>>,
    plan: CompactionPlan,
    merged: Seq<Open>,
    target_size: u64,
    new_files: LevelView,
    new: Seq<Open>,
    key: Seq<u8>,
)
    requires
        is_compaction(files, levels, plan, merged, target_size, new_files, new),
        by_age(levels, key),
        plan.source_level > 0 ==> !is_split(
            with_levels(levels, (plan.source_level + 2) as nat)[plan.source_level as int],
            file_ids(plan.source_files.deep_view()),
            key,
        ),
    ensures
        by_age(compacted::<Arc<Sstable>>(levels, plan, new), key),
{
    let after = compacted::<Arc<Sstable>>(levels, plan, new);
    lemma_with_levels_by_age(levels, (plan.source_level + 2) as nat, key);
    assert forall|l: int, m: int, e: Entry, f: Entry|
        0 <= l < m < after.len() && #[trigger] level_holds(after[l], e) && #[trigger] level_holds(
            after[m],
            f,
        ) && e.0.bytes == key && f.0.bytes == key implies e.0.lsn > f.0.lsn by {
        lemma_compacted_versions(
            files,
            levels,
            plan,
            merged,
            target_size,
            new_files,
            new,
            key,
            l,
            m,
            e,
            f,
        );
    }
    assert forall|l: int| 0 <= l < after.len() implies newest_first(
        level_run(#[trigger] after[l], l == 0),
        key,
    ) by {
        lemma_compacted_runs(files, levels, plan, merged, target_size, new_files, new, key, l);
    }
}

/// Compaction changes no answer: searching the tables for a key gives the same before and
/// after, where no version of the key stays in the level while another is merged into the next
/// one. In the first level all tables are merged.
pub proof fn lemma_compaction_keeps_answers(
    files: Seq<LevelView>,
    levels: Seq<Seq<Open>>,
    plan: CompactionPlan,
    merged: Seq<Open>,
    target_size: u64,
    new_files: LevelView,
    new: Seq<Open>,
    key: Seq<u8>,
    r: Result<Option<ValueView>, DbError>,
    s: Result<Option<ValueView>, DbError>,
)
    requires
        is_compaction(files, levels, plan, merged, target_size, new_files, new),
        by_age(levels, key),
        plan.source_level > 0 ==> !is_split(
            with_levels(levels, (plan.source_level + 2) as nat)[plan.source_level as int],
            file_ids(plan.source_files.deep_view()),
            key,
        ),
        tables_give(search_order(views_of(levels)), key, r),
        tables_give(
            search_order(views_of(compacted::<Arc<Sstable>>(levels, plan, new))),
            key,
            s,
        ),
    ensures
        r == s,
        r is Ok,
{
    let after = compacted::<Arc<Sstable>>(levels, plan, new);
    lemma_compaction_keeps_order(
        files,
        levels,
        plan,
        merged,
        target_size,
        new_files,
        new,
        key,
    );
    assert forall|l: int| 0 <= l < after.len() implies all_sound(#[trigger] after[l]) by {
        lemma_compacted_sound(files, levels, plan, merged, target_size, new_files, new, l);
    }
    assert forall|e: Entry| e.0.bytes == key implies (#[trigger] is_held(levels, e) <==> is_held(
        after,
        e,
    )) by {
        lemma_compaction_same_entries(
            files,
            levels,
            plan,
            merged,
            target_size,
            new_files,
            new,
            e,
        );
    }
    lemma_same_answer(levels, after, key, r, s);
    lemma_levels_lookup(levels, key, r);
}

} // verus!
