//! Compaction: flushing memtables to tables, and merging tables down the levels.
//!
//! A flush writes each frozen memtable out as a table of the first level. When that level has
//! too many tables, all of them are merged with the tables of the next level that their keys
//! overlap; when a deeper level is too large, one of its tables is.

use crate::data_stores::manifest::{
    FileMetadata, FileView, LevelView, Manifest, ManifestView,
};
use vstd::prelude::*;

pub mod answers;
pub mod changes;
pub mod commit;
pub mod gc;
pub mod laws;
pub mod levels;
pub mod merge;
pub mod numbers;
pub mod output;

verus! {

/// Memtables are flushed when there are more logs than this.
pub const FLUSH_TRIGGER: usize = 4;

/// The first level is compacted when it has more files than this.
pub const L0_FILE_TRIGGER: usize = 4;

/// A deeper level is compacted when its size reaches this, times ten for each level.
pub const LEVEL_SIZE_TRIGGER: u64 = 134_217_728;

/// The most bytes that the data blocks of a file take that a compaction writes.
pub const TARGET_FILE_SIZE: u64 = 67_108_864;

/// The levels that are compacted are those before this one.
pub const MAX_LEVELS: usize = 4;

/// What the compactor is to do next.
#[derive(Clone, Copy, Debug, PartialEq, Eq, Structural)]
pub enum Work {
    Stop,
    Flush,
    CompactL0,
    CompactLevel(usize),
    Wait,
}

/// The sum of the sizes of some files.
pub open spec fn total_size(files: LevelView) -> nat
    decreases files.len(),
{
    if files.len() == 0 {
        0
    } else {
        total_size(files.drop_last()) + files.last().file_size as nat
    }
}

/// The size at which a level is compacted.
pub open spec fn size_limit(level: nat) -> nat
    decreases level,
{
    if level == 0 {
        LEVEL_SIZE_TRIGGER as nat
    } else {
        10 * size_limit((level - 1) as nat)
    }
}

/// Whether a level behind the first one is too large.
pub open spec fn is_oversized(levels: Seq<LevelView>, level: int) -> bool {
    1 <= level < MAX_LEVELS && level < levels.len() && total_size(levels[level]) >= size_limit(
        level as nat,
    )
}

/// What there is to do: the first that applies.
pub open spec fn work_for(m: ManifestView, shutdown: bool) -> Work {
    if shutdown {
        Work::Stop
    } else if m.wals.len() > FLUSH_TRIGGER {
        Work::Flush
    } else if m.levels.len() > 0 && m.levels[0].len() > L0_FILE_TRIGGER {
        Work::CompactL0
    } else if is_oversized(m.levels, 1) {
        Work::CompactLevel(1)
    } else if is_oversized(m.levels, 2) {
        Work::CompactLevel(2)
    } else if is_oversized(m.levels, 3) {
        Work::CompactLevel(3)
    } else {
        Work::Wait
    }
}

/// The size of some files is the sum of theirs, however they are parted.
pub proof fn lemma_total_size(a: LevelView, b: LevelView)
    ensures
        total_size(a + b) == total_size(a) + total_size(b),
        a.len() == 1 ==> total_size(a) == a[0].file_size,
    decreases b.len(),
{
    reveal_with_fuel(total_size, 2);
    if b.len() == 0 {
        assert(a + b =~= a);
    } else {
        assert((a + b).drop_last() =~= a + b.drop_last());
        lemma_total_size(a, b.drop_last());
    }
    if a.len() == 1 {
        assert(a.drop_last() =~= Seq::<FileView>::empty());
    }
}

/// Where there is nothing to flush and the first level has few files, the first of the next
/// three levels that has reached its size is compacted: 1280 MiB, and ten times as much for
/// each level behind it. Where none has, there is nothing to do.
pub proof fn lemma_deeper_work(m: ManifestView)
    requires
        m.wals.len() <= 4,
        m.levels.len() > 0 ==> m.levels[0].len() <= 4,
    ensures
        ({
            let big1 = m.levels.len() > 1 && total_size(m.levels[1]) >= 1_342_177_280;
            let big2 = m.levels.len() > 2 && total_size(m.levels[2]) >= 13_421_772_800;
            let big3 = m.levels.len() > 3 && total_size(m.levels[3]) >= 134_217_728_000;
            let work = work_for(m, false);
            &&& work == Work::CompactLevel(1) <==> big1
            &&& work == Work::CompactLevel(2) <==> !big1 && big2
            &&& work == Work::CompactLevel(3) <==> !big1 && !big2 && big3
            &&& work == Work::Wait <==> !big1 && !big2 && !big3
        }),
{
    reveal_with_fuel(size_limit, 4);
}

proof fn lemma_total_size_grows(files: LevelView, n: int)
    requires
        0 <= n <= files.len(),
    ensures
        total_size(files.take(n)) <= total_size(files),
    decreases files.len() - n,
{
    if n < files.len() {
        lemma_total_size_grows(files, n + 1);
        assert(files.take(n + 1).drop_last() =~= files.take(n));
    } else {
        assert(files.take(n) =~= files);
    }
}

/// Whether the sizes of some files add up to a limit.
fn reaches(files: &Vec<FileMetadata>, limit: u64) -> (r: bool)
    requires
        limit <= 0x1000_0000_0000_0000,
    ensures
        r == (total_size(files.deep_view()) >= limit),
{
    let ghost all = files.deep_view();
    let mut sum: u64 = 0;
    let mut i: usize = 0;
    while i < files.len() && sum < limit
        invariant
            i <= files@.len(),
            all == files.deep_view(),
            limit <= 0x1000_0000_0000_0000,
            sum == total_size(all.take(i as int)),
            sum < limit + 0x1_0000_0000,
        decreases files@.len() - i,
    {
        proof {
            assert(all.take(i + 1).drop_last() =~= all.take(i as int));
            assert(all.take(i + 1).last() == all[i as int]);
        }
        sum = sum + files[i].file_size as u64;
        i = i + 1;
    }
    proof {
        lemma_total_size_grows(all, i as int);
        if i == all.len() {
            assert(all.take(i as int) =~= all);
        }
    }
    sum >= limit
}

/// What the compactor is to do next, given the manifest and whether it was told to stop.
pub fn next_work(manifest: &Manifest, shutdown: bool) -> (work: Work)
    ensures
        work == work_for(manifest@, shutdown),
        shutdown <==> work == Work::Stop,
        work == Work::Flush <==> !shutdown && manifest@.wals.len() > 4,
        work == Work::CompactL0 <==> !shutdown && manifest@.wals.len() <= 4
            && manifest@.levels.len() > 0 && manifest@.levels[0].len() > 4,
{
    if shutdown {
        return Work::Stop;
    }
    if manifest.wals.len() > FLUSH_TRIGGER {
        return Work::Flush;
    }
    let ghost levels = manifest@.levels;
    if manifest.levels.len() > 0 {
        assert(levels[0] == manifest.levels@[0].deep_view());
        if manifest.levels[0].files.len() > L0_FILE_TRIGGER {
            return Work::CompactL0;
        }
    }
    let mut level: usize = 1;
    let mut limit: u64 = LEVEL_SIZE_TRIGGER;
    proof {
        reveal_with_fuel(size_limit, 4);
    }
    while level < MAX_LEVELS && level < manifest.levels.len()
        invariant
            1 <= level <= MAX_LEVELS,
            levels == manifest@.levels,
            limit == size_limit((level - 1) as nat),
            level == 1 ==> limit == LEVEL_SIZE_TRIGGER,
            level == 2 ==> limit == 10 * LEVEL_SIZE_TRIGGER,
            level == 3 ==> limit == 100 * LEVEL_SIZE_TRIGGER,
            forall|l: int| 1 <= l < level ==> !is_oversized(levels, l),
            work_for(manifest@, shutdown) == (if is_oversized(levels, 1) {
                Work::CompactLevel(1)
            } else if is_oversized(levels, 2) {
                Work::CompactLevel(2)
            } else if is_oversized(levels, 3) {
                Work::CompactLevel(3)
            } else {
                Work::Wait
            }),
        decreases MAX_LEVELS - level,
    {
        limit = 10 * limit;
        assert(levels[level as int] == manifest.levels@[level as int].deep_view());
        if reaches(&manifest.levels[level].files, limit) {
            assert(is_oversized(levels, level as int));
            return Work::CompactLevel(level);
        }
        level = level + 1;
    }
    Work::Wait
}

} // verus!
