//! The numbers of files: no table or log is given a number that is in use.

use crate::compact::commit::{
    compacted_manifest, flushed, kept, numbered, with_levels, with_reserved,
    CompactionPlan,
};
use crate::compact::laws::{lemma_kept_member, lemma_sorted_member};
use crate::data_stores::manifest::{
    file_ids, ids_are_fresh, FileMetadata, FileView, LevelView, ManifestView,
};
use vstd::prelude::*;

verus! {

/// Whether a number is that of a table in a manifest.
pub open spec fn is_in_use(m: ManifestView, id: u32) -> bool {
    exists|l: int, i: int|
        0 <= l < m.levels.len() && 0 <= i < m.levels[l].len() && (
        #[trigger] m.levels[l][i]).file_id == id
}

/// The numbers that are reserved for some tables are not in use, and those that come next are
/// beyond them. Taking one number is reserving it.
pub proof fn lemma_reserved_ids_fresh(m: ManifestView, n: nat, id: u32)
    requires
        ids_are_fresh(m),
        m.next_sstable_id + n <= u32::MAX,
    ensures
        ids_are_fresh(with_reserved(m, n)),
        m.next_sstable_id <= id < m.next_sstable_id + n ==> !is_in_use(m, id) && id
            < with_reserved(m, n).next_sstable_id,
{
}

/// A flush leaves the numbers that come next beyond those in use: its tables have the numbers
/// that were reserved when it was prepared, in `prepared`, and since then others may have
/// changed the manifest, as long as they gave no number back.
pub proof fn lemma_flush_ids_fresh(
    prepared: ManifestView,
    m: ManifestView,
    files: LevelView,
    n: nat,
)
    requires
        ids_are_fresh(m),
        prepared.next_sstable_id + files.len() <= u32::MAX,
        with_reserved(prepared, files.len()).next_sstable_id <= m.next_sstable_id,
        n <= m.wals.len(),
    ensures
        ids_are_fresh(flushed(m, numbered(files, prepared.next_sstable_id), n)),
{
    let new = numbered(files, prepared.next_sstable_id);
    let after = flushed(m, new, n);
    assert forall|i: int| 0 <= i < after.wals.len() implies #[trigger] after.wals[i]
        < after.next_wal_id by {
        assert(m.wals[i + n] < m.next_wal_id);
    }
    assert forall|l: int, i: int|
        0 <= l < after.levels.len() && 0 <= i < after.levels[l].len() implies (
    #[trigger] after.levels[l][i]).file_id < after.next_sstable_id by {
        let had = if l < m.levels.len() {
            m.levels[l].len() as int
        } else {
            0
        };
        if i < had {
            assert(after.levels[l][i] == m.levels[l][i]);
        } else {
            assert(after.levels[l][i] == new[i - had]);
        }
    }
}

/// A compaction leaves the numbers that come next beyond those in use, where its tables have
/// numbers that were taken.
pub proof fn lemma_compaction_ids_fresh(m: ManifestView, plan: CompactionPlan, new: LevelView)
    requires
        ids_are_fresh(m),
        forall|i: int|
            0 <= i < new.len() ==> (#[trigger] new[i]).file_id < m.next_sstable_id,
    ensures
        ids_are_fresh(compacted_manifest(m, plan, new)),
{
    let after = compacted_manifest(m, plan, new);
    let source = plan.source_level as int;
    let all = with_levels(m.levels, (source + 2) as nat);
    let ids = file_ids(plan.source_files.deep_view());
    let stay = kept::<FileMetadata>(all[source + 1], file_ids(plan.target_files.deep_view()));
    let into = stay + new;
    assert forall|l: int, i: int|
        0 <= l < after.levels.len() && 0 <= i < after.levels[l].len() implies (
    #[trigger] after.levels[l][i]).file_id < after.next_sstable_id by {
        let f: FileView = after.levels[l][i];
        if l == source {
            lemma_kept_member(all[l], ids, i);
            lemma_level_fresh(m, l, (source + 2) as nat, f);
        } else if l == source + 1 {
            lemma_sorted_member(into, i);
            let j = choose|j: int| 0 <= j < into.len() && #[trigger] into[j] == f;
            if j < stay.len() {
                lemma_kept_member(all[l], file_ids(plan.target_files.deep_view()), j);
                lemma_level_fresh(m, l, (source + 2) as nat, f);
            } else {
                assert(new[j - stay.len()] == f);
            }
        } else {
            assert(all[l][i] == f);
            lemma_level_fresh(m, l, (source + 2) as nat, f);
        }
    }
}

proof fn lemma_level_fresh(m: ManifestView, l: int, n: nat, f: FileView)
    requires
        ids_are_fresh(m),
        0 <= l < with_levels(m.levels, n).len(),
        exists|j: int|
            0 <= j < with_levels(m.levels, n)[l].len() && #[trigger] with_levels(m.levels, n)[l][j]
                == f,
    ensures
        f.file_id < m.next_sstable_id,
{
    let level = with_levels(m.levels, n)[l];
    let j = choose|j: int| 0 <= j < level.len() && #[trigger] level[j] == f;
    assert(l < m.levels.len());
    assert(m.levels[l][j] == f);
}

} // verus!
