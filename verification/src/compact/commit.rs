//! Changing the levels: what a flush and a compaction do to the manifest and to the tables
//! that are open.

use crate::data_stores::key::{key_lt, Key, KeyView};
use crate::data_stores::manifest::{
    clone_files, file_ids, FileMetadata, FileView, Level, LevelView, Manifest, ManifestView,
};
use crate::data_stores::sstable::Sstable;
use crate::data_stores::table_format::TableView;
use crate::err::{DbError, ErrorView};
use crate::text::{decimal_string, decimal_text, list_string, list_text};
use std::sync::Arc;
use vstd::prelude::*;

verus! {

/// What stands in a level: it has a number, and a smallest key.
pub trait Ranged: DeepView + Sized {
    spec fn id_of(v: Self::V) -> u32;

    spec fn min_of(v: Self::V) -> KeyView;

    fn id(&self) -> (id: u32)
        ensures
            id == Self::id_of(self.deep_view()),
    ;

    fn smallest(&self) -> (key: &Key)
        ensures
            key@ == Self::min_of(self.deep_view()),
    ;
}

impl Ranged for FileMetadata {
    open spec fn id_of(v: FileView) -> u32 {
        v.file_id
    }

    open spec fn min_of(v: FileView) -> KeyView {
        v.min_key
    }

    fn id(&self) -> (id: u32) {
        self.file_id
    }

    fn smallest(&self) -> (key: &Key) {
        &self.min_key
    }
}

impl Ranged for Arc<Sstable> {
    open spec fn id_of(v: (u32, TableView)) -> u32 {
        v.0
    }

    open spec fn min_of(v: (u32, TableView)) -> KeyView {
        v.1.min_key
    }

    fn id(&self) -> (id: u32) {
        self.id
    }

    fn smallest(&self) -> (key: &Key) {
        self.min_key()
    }
}

// --- One level ---

/// What is left of a level without the files of some numbers.
pub open spec fn kept<T: Ranged>(s: Seq<T::V>, ids: Seq<u32>) -> Seq<T::V>
    decreases s.len(),
{
    if s.len() == 0 {
        s
    } else {
        let rest = kept::<T>(s.drop_last(), ids);
        if ids.contains(T::id_of(s.last())) {
            rest
        } else {
            rest.push(s.last())
        }
    }
}

/// Putting a file in its place: behind those whose smallest key is not larger.
pub open spec fn placed<T: Ranged>(s: Seq<T::V>, v: T::V) -> Seq<T::V>
    decreases s.len(),
{
    if s.len() > 0 && key_lt(T::min_of(v), T::min_of(s.last())) {
        placed::<T>(s.drop_last(), v).push(s.last())
    } else {
        s.push(v)
    }
}

/// A level in the order of the smallest keys; of equals, what came first stays first.
pub open spec fn by_min_key<T: Ranged>(s: Seq<T::V>) -> Seq<T::V>
    decreases s.len(),
{
    if s.len() == 0 {
        s
    } else {
        placed::<T>(by_min_key::<T>(s.drop_last()), s.last())
    }
}

fn contains_id(files: &Vec<FileMetadata>, id: u32) -> (r: bool)
    ensures
        r == file_ids(files.deep_view()).contains(id),
{
    let ghost ids = file_ids(files.deep_view());
    let mut i: usize = 0;
    while i < files.len()
        invariant
            i <= files@.len(),
            ids == file_ids(files.deep_view()),
            forall|j: int| 0 <= j < i ==> #[trigger] ids[j] != id,
        decreases files@.len() - i,
    {
        if files[i].file_id == id {
            assert(ids[i as int] == id);
            return true;
        }
        i = i + 1;
    }
    false
}

/// Takes the files of some numbers out of a level.
pub fn remove_files<T: Ranged>(files: &mut Vec<T>, removed: &Vec<FileMetadata>)
    ensures
        final(files).deep_view() == kept::<T>(
            old(files).deep_view(),
            file_ids(removed.deep_view()),
        ),
{
    let ghost all = files.deep_view();
    let ghost ids = file_ids(removed.deep_view());
    let ghost mut seen: int = 0;
    let mut i: usize = 0;
    proof {
        assert(all.take(0) =~= Seq::<T::V>::empty());
        assert(all =~= kept::<T>(all.take(0), ids) + all.skip(0));
    }
    while i < files.len()
        invariant
            0 <= seen <= all.len(),
            i <= files@.len(),
            ids == file_ids(removed.deep_view()),
            files.deep_view() == kept::<T>(all.take(seen), ids) + all.skip(seen),
            i == kept::<T>(all.take(seen), ids).len(),
        decreases files@.len() - i,
    {
        let ghost before = files.deep_view();
        let ghost rest = kept::<T>(all.take(seen), ids);
        proof {
            assert(seen < all.len());
            assert(all.take(seen + 1).drop_last() =~= all.take(seen));
            assert(all.take(seen + 1).last() == all[seen]);
            assert(before[i as int] == all[seen]);
            assert(files@[i as int].deep_view() == before[i as int]);
        }
        if contains_id(removed, files[i].id()) {
            files.remove(i);
            proof {
                assert(files.deep_view() =~= before.remove(i as int));
                assert(before.remove(i as int) =~= rest + all.skip(seen + 1));
            }
        } else {
            i = i + 1;
            proof {
                assert(before =~= rest.push(all[seen]) + all.skip(seen + 1));
            }
        }
        proof {
            seen = seen + 1;
        }
    }
    proof {
        assert(kept::<T>(all.take(seen), ids).len() + (all.len() - seen)
            == files.deep_view().len());
        assert(all.take(seen) =~= all);
        assert(files.deep_view() =~= kept::<T>(all, ids));
    }
}

proof fn lemma_placed_at<T: Ranged>(s: Seq<T::V>, v: T::V, p: int)
    requires
        0 <= p <= s.len(),
        forall|i: int| p <= i < s.len() ==> key_lt(T::min_of(v), T::min_of(#[trigger] s[i])),
        p > 0 ==> !key_lt(T::min_of(v), T::min_of(s[p - 1])),
    ensures
        placed::<T>(s, v) == s.insert(p, v),
    decreases s.len(),
{
    if p == s.len() {
        assert(s.insert(p, v) =~= s.push(v));
    } else {
        lemma_placed_at::<T>(s.drop_last(), v, p);
        assert(s.drop_last().insert(p, v).push(s.last()) =~= s.insert(p, v));
    }
}

/// Puts a level in the order of the smallest keys.
pub fn sort_by_min_key<T: Ranged>(files: &mut Vec<T>)
    ensures
        final(files).deep_view() == by_min_key::<T>(old(files).deep_view()),
{
    let ghost all = files.deep_view();
    let mut done: usize = 0;
    proof {
        assert(all.take(0) =~= Seq::<T::V>::empty());
        assert(all =~= by_min_key::<T>(all.take(0)) + all.skip(0));
    }
    while done < files.len()
        invariant
            done <= files@.len(),
            files@.len() == all.len(),
            files.deep_view() == by_min_key::<T>(all.take(done as int)) + all.skip(done as int),
            by_min_key::<T>(all.take(done as int)).len() == done,
        decreases files@.len() - done,
    {
        let ghost sorted_part = by_min_key::<T>(all.take(done as int));
        let ghost before = files.deep_view();
        let ghost v = all[done as int];
        proof {
            assert(all.take(done + 1).drop_last() =~= all.take(done as int));
            assert(all.take(done + 1).last() == v);
            assert(before[done as int] == v);
        }
        let file = files.remove(done);
        proof {
            assert(files.deep_view() =~= before.remove(done as int));
            assert(files.deep_view() =~= sorted_part + all.skip(done + 1));
            assert(file.deep_view() == v);
        }
        let ghost rest = files.deep_view();
        let mut p: usize = done;
        while p > 0 && file.smallest().before(files[p - 1].smallest())
            invariant
                p <= done,
                done < all.len(),
                files@.len() == all.len() - 1,
                files.deep_view() == rest,
                rest == sorted_part + all.skip(done + 1),
                sorted_part.len() == done,
                file.deep_view() == v,
                forall|i: int|
                    p <= i < done ==> key_lt(T::min_of(v), T::min_of(#[trigger] sorted_part[i])),
            decreases p,
        {
            proof {
                assert(files@[p - 1].deep_view() == rest[p - 1]);
                assert(rest[p - 1] == sorted_part[p - 1]);
            }
            p = p - 1;
        }
        proof {
            if p > 0 {
                assert(files@[p - 1].deep_view() == rest[p - 1]);
                assert(rest[p - 1] == sorted_part[p - 1]);
            }
            lemma_placed_at::<T>(sorted_part, v, p as int);
        }
        files.insert(p, file);
        proof {
            assert(files.deep_view() =~= rest.insert(p as int, v));
            assert(rest.insert(p as int, v) =~= sorted_part.insert(p as int, v) + all.skip(
                done + 1,
            ));
        }
        done = done + 1;
    }
    proof {
        assert(all.take(done as int) =~= all);
        assert(files.deep_view() =~= by_min_key::<T>(all));
    }
}

// --- Flushes ---

/// What a flush is to do.
pub struct FlushPlan {
    /// The number of the first table.
    pub start_sst_id: u32,
    pub start_version: u32,
    /// The logs of the memtables.
    pub wals_to_delete: Vec<u32>,
}

/// The manifest with the numbers of `n` tables reserved.
pub open spec fn with_reserved(m: ManifestView, n: nat) -> ManifestView {
    ManifestView { next_sstable_id: (m.next_sstable_id + n) as u32, ..m }
}

/// Starts a flush of `frozen` memtables: reserves a number for the table of each, and notes
/// the logs that go with them. There is nothing to do where there are none.
pub fn prepare_flush(manifest: &mut Manifest, frozen: usize) -> (r: Result<
    Option<FlushPlan>,
    DbError,
>)
    requires
        frozen > 0 ==> old(manifest)@.next_sstable_id + frozen <= u32::MAX,
    ensures
        frozen == 0 ==> final(manifest)@ == old(manifest)@ && (r matches Ok(plan) && plan is None),
        frozen > 0 ==> final(manifest)@ == with_reserved(old(manifest)@, frozen as nat),
        frozen > 0 ==> final(manifest)@.next_sstable_id == old(manifest)@.next_sstable_id + frozen,
        final(manifest)@.levels == old(manifest)@.levels,
        final(manifest)@.wals == old(manifest)@.wals,
        final(manifest)@.next_wal_id == old(manifest)@.next_wal_id,
        final(manifest)@.version == old(manifest)@.version,
        frozen > 0 && old(manifest)@.wals.len() >= frozen ==> (r matches Ok(plan)
            && plan matches Some(plan) && plan.start_sst_id == old(manifest)@.next_sstable_id
            && plan.start_version == old(manifest)@.version && plan.wals_to_delete@ == old(
            manifest,
        )@.wals.take(frozen as int)),
        frozen > 0 && old(manifest)@.wals.len() < frozen ==> (r matches Err(e) && e@
            == ErrorView::DataCorrupted(
            "CRITICAL ERROR: WAL len "@ + decimal_text(old(manifest)@.wals.len())
                + " mismatch Memtable len "@ + decimal_text(frozen as nat),
        )),
{
    if frozen == 0 {
        return Ok(None);
    }
    assert(manifest.wals.deep_view() =~= manifest.wals@);
    let start_sst_id: u32 = manifest.next_sstable_id;
    manifest.next_sstable_id = manifest.next_sstable_id + frozen as u32;
    if manifest.wals.len() < frozen {
        let mut message = String::from_str("CRITICAL ERROR: WAL len ");
        message.append(decimal_string(manifest.wals.len() as u64).as_str());
        message.append(" mismatch Memtable len ");
        message.append(decimal_string(frozen as u64).as_str());
        return Err(DbError::DataCorrupted(message));
    }
    let wals_to_delete = first_ids(&manifest.wals, frozen);
    Ok(
        Some(
            FlushPlan {
                start_sst_id,
                start_version: manifest.version,
                wals_to_delete,
            },
        ),
    )
}

/// The first `n` numbers, or all where there are fewer.
fn first_ids(ids: &Vec<u32>, n: usize) -> (r: Vec<u32>)
    ensures
        r@ == (if n <= ids@.len() {
            ids@.take(n as int)
        } else {
            ids@
        }),
{
    let mut r: Vec<u32> = Vec::new();
    let mut i: usize = 0;
    while i < ids.len() && i < n
        invariant
            i <= ids@.len(),
            i <= n,
            r@ == ids@.take(i as int),
        decreases ids@.len() - i,
    {
        r.push(ids[i]);
        assert(r@ =~= ids@.take(i + 1));
        i = i + 1;
    }
    assert(i == ids@.len() ==> ids@.take(i as int) =~= ids@);
    r
}

fn same_ids(a: &Vec<u32>, b: &Vec<u32>) -> (r: bool)
    ensures
        r == (a@ == b@),
{
    if a.len() != b.len() {
        return false;
    }
    let mut i: usize = 0;
    while i < a.len()
        invariant
            i <= a@.len(),
            a@.len() == b@.len(),
            forall|j: int| 0 <= j < i ==> a@[j] == b@[j],
        decreases a@.len() - i,
    {
        if a[i] != b[i] {
            assert(a@[i as int] != b@[i as int]);
            return false;
        }
        i = i + 1;
    }
    assert(a@ =~= b@);
    true
}

/// The levels with more files in the first one.
pub open spec fn with_flushed<V>(levels: Seq<Seq<V>>, new: Seq<V>) -> Seq<Seq<V>> {
    if new.len() == 0 {
        levels
    } else if levels.len() == 0 {
        seq![new]
    } else {
        levels.update(0, levels[0] + new)
    }
}

/// The logs at the front of the manifest, as many as a flush is to delete, if there are as
/// many.
pub open spec fn leading(wals: Seq<u32>, n: nat) -> Seq<u32> {
    if n <= wals.len() {
        wals.take(n as int)
    } else {
        wals
    }
}

fn push_flushed(levels: &mut Vec<Level>, new_files: &Vec<FileMetadata>)
    ensures
        final(levels).deep_view() == with_flushed(old(levels).deep_view(), new_files.deep_view()),
{
    let ghost before = levels.deep_view();
    let ghost new = new_files.deep_view();
    if new_files.len() == 0 {
        return ;
    }
    if levels.len() == 0 {
        let level = Level { files: clone_files(new_files) };
        assert(level.deep_view() == new);
        levels.push(level);
        assert(levels.deep_view() =~= seq![new]);
        return ;
    }
    let mut level = Level { files: Vec::new() };
    std::mem::swap(&mut level, &mut levels[0]);
    let ghost first = level.files.deep_view();
    assert(first == before[0]);
    append_all(&mut level.files, clone_files(new_files));
    std::mem::swap(&mut level, &mut levels[0]);
    assert(levels@[0].deep_view() == first + new);
    assert(levels.deep_view() =~= before.update(0, first + new));
}

/// The manifest after a flush: more files in the first level, and the first `n` logs gone.
pub open spec fn flushed(m: ManifestView, new: LevelView, n: nat) -> ManifestView {
    ManifestView {
        levels: with_flushed(m.levels, new),
        wals: m.wals.skip(n as int),
        ..m
    }
}

/// Commits a flush: adds its tables to the first level, and drops the logs of the memtables.
/// It fails where those are not the first logs of the manifest.
pub fn commit_flush(
    manifest: &mut Manifest,
    new_files: &Vec<FileMetadata>,
    wals_to_delete: &Vec<u32>,
) -> (r: Result<(), DbError>)
    ensures
        r is Ok <==> leading(old(manifest)@.wals, wals_to_delete@.len()) == wals_to_delete@,
        r is Ok <==> wals_to_delete@.len() <= old(manifest)@.wals.len() && forall|i: int|
            0 <= i < wals_to_delete@.len() ==> #[trigger] wals_to_delete@[i] == old(
                manifest,
            )@.wals[i],
        final(manifest)@ == flushed(
            old(manifest)@,
            new_files.deep_view(),
            if r is Ok {
                wals_to_delete@.len()
            } else {
                0
            },
        ),
        new_files@.len() == 0 ==> final(manifest)@.levels == old(manifest)@.levels,
        new_files@.len() > 0 && old(manifest)@.levels.len() == 0 ==> {
            &&& final(manifest)@.levels.len() == 1
            &&& final(manifest)@.levels[0] == new_files.deep_view()
        },
        new_files@.len() > 0 && old(manifest)@.levels.len() > 0 ==> {
            &&& final(manifest)@.levels.len() == old(manifest)@.levels.len()
            &&& final(manifest)@.levels[0] == old(manifest)@.levels[0] + new_files.deep_view()
            &&& forall|l: int|
                1 <= l < old(manifest)@.levels.len() ==> #[trigger] final(manifest)@.levels[l]
                    == old(manifest)@.levels[l]
        },
        r is Ok ==> old(manifest)@.wals == wals_to_delete@ + final(manifest)@.wals,
        r is Err ==> final(manifest)@.wals == old(manifest)@.wals,
        final(manifest)@.next_wal_id == old(manifest)@.next_wal_id,
        final(manifest)@.next_sstable_id == old(manifest)@.next_sstable_id,
        final(manifest)@.version == old(manifest)@.version,
        r matches Err(e) ==> e@ == ErrorView::DataCorrupted(
            "Manifest mismatch during flush commit. Expected WALs "@ + list_text(wals_to_delete@)
                + ", found "@ + list_text(leading(old(manifest)@.wals, wals_to_delete@.len())),
        ),
{
    let ghost before = manifest@;
    assert(manifest.wals.deep_view() =~= manifest.wals@);
    push_flushed(&mut manifest.levels, new_files);
    assert(manifest@ =~= ManifestView {
        levels: with_flushed(before.levels, new_files.deep_view()),
        ..before
    });
    let current_wals = first_ids(&manifest.wals, wals_to_delete.len());
    assert(manifest.wals.deep_view() =~= manifest.wals@);
    proof {
        let n = wals_to_delete@.len() as int;
        if n <= before.wals.len() && forall|i: int|
            0 <= i < n ==> #[trigger] wals_to_delete@[i] == before.wals[i] {
            assert(before.wals.take(n) =~= wals_to_delete@);
        }
        if n <= before.wals.len() && before.wals.take(n) == wals_to_delete@ {
            assert forall|i: int| 0 <= i < n implies #[trigger] wals_to_delete@[i]
                == before.wals[i] by {
                assert(before.wals.take(n)[i] == before.wals[i]);
            }
        }
    }
    if !same_ids(&current_wals, wals_to_delete) {
        let mut message = String::from_str(
            "Manifest mismatch during flush commit. Expected WALs ",
        );
        message.append(list_string(wals_to_delete).as_str());
        message.append(", found ");
        message.append(list_string(&current_wals).as_str());
        assert(before.wals.skip(0) =~= before.wals);
        return Err(DbError::DataCorrupted(message));
    }
    drop_flushed(&mut manifest.wals, wals_to_delete.len());
    assert(manifest.wals.deep_view() =~= manifest.wals@);
    assert(before.wals =~= before.wals.take(wals_to_delete@.len() as int) + manifest@.wals);
    Ok(())
}

/// The open tables after a flush: the new ones are the last of the first level.
pub open spec fn flushed_levels<A>(levels: Seq<Seq<A>>, new: Seq<A>) -> Seq<Seq<A>> {
    if levels.len() == 0 {
        seq![new]
    } else {
        levels.update(0, levels[0] + new)
    }
}

/// Adds tables that were flushed to the open tables.
pub fn open_flushed(levels: &mut Vec<Vec<Arc<Sstable>>>, new_tables: Vec<Arc<Sstable>>)
    ensures
        final(levels).deep_view() == flushed_levels(
            old(levels).deep_view(),
            new_tables.deep_view(),
        ),
        old(levels)@.len() == 0 ==> final(levels)@.len() == 1 && final(levels).deep_view()[0]
            == new_tables.deep_view(),
        old(levels)@.len() > 0 ==> {
            &&& final(levels)@.len() == old(levels)@.len()
            &&& final(levels).deep_view()[0] == old(levels).deep_view()[0]
                + new_tables.deep_view()
            &&& forall|l: int|
                1 <= l < old(levels)@.len() ==> #[trigger] final(levels).deep_view()[l] == old(
                    levels,
                ).deep_view()[l]
        },
{
    let ghost before = levels.deep_view();
    let ghost new = new_tables.deep_view();
    if levels.len() == 0 {
        levels.push(new_tables);
        assert(levels.deep_view() =~= seq![new]);
        return ;
    }
    let mut level: Vec<Arc<Sstable>> = Vec::new();
    std::mem::swap(&mut level, &mut levels[0]);
    let ghost first = level.deep_view();
    assert(first == before[0]);
    append_all(&mut level, new_tables);
    std::mem::swap(&mut level, &mut levels[0]);
    assert(levels.deep_view() =~= before.update(0, first + new));
}

/// Appends items one by one.
fn append_all<T: DeepView>(items: &mut Vec<T>, more: Vec<T>)
    ensures
        final(items).deep_view() == old(items).deep_view() + more.deep_view(),
{
    let ghost first = items.deep_view();
    let ghost new = more.deep_view();
    let mut more = more;
    items.append(&mut more);
    assert(items.deep_view() =~= first + new);
}

/// Drops the memtables that were flushed: the first `n`.
pub fn drop_flushed<T>(frozen: &mut Vec<T>, n: usize)
    ensures
        final(frozen)@ == (if n <= old(frozen)@.len() {
            old(frozen)@.skip(n as int)
        } else {
            Seq::empty()
        }),
{
    let ghost all = frozen@;
    let mut i: usize = 0;
    assert(all.skip(0) =~= all);
    while i < n && frozen.len() > 0
        invariant
            i <= n,
            i <= all.len(),
            frozen@ == all.skip(i as int),
        decreases n - i,
    {
        frozen.remove(0);
        assert(frozen@ =~= all.skip(i + 1));
        i = i + 1;
    }
    assert(i == all.len() ==> all.skip(i as int) =~= Seq::<T>::empty());
}

/// Gives the tables of a flush their numbers, one after the other.
pub fn number_files(files: &mut Vec<FileMetadata>, start: u32)
    requires
        start + old(files)@.len() <= u32::MAX + 1,
    ensures
        final(files).deep_view() == numbered(old(files).deep_view(), start),
        final(files)@.len() == old(files)@.len(),
        forall|i: int|
            0 <= i < old(files)@.len() ==> {
                let before = old(files).deep_view()[i];
                let after = #[trigger] final(files).deep_view()[i];
                &&& after.file_id == start + i
                &&& after.file_size == before.file_size
                &&& after.min_key == before.min_key
                &&& after.max_key == before.max_key
            },
{
    let ghost all = files.deep_view();
    let mut i: usize = 0;
    let n: usize = files.len();
    while i < n
        invariant
            i <= n,
            n == all.len(),
            files@.len() == n,
            start + n <= u32::MAX + 1,
            forall|j: int|
                0 <= j < i ==> #[trigger] files.deep_view()[j] == numbered(all, start)[j],
            forall|j: int| i <= j < n ==> #[trigger] files.deep_view()[j] == all[j],
        decreases n - i,
    {
        let ghost before = files.deep_view();
        let mut file = files.remove(i);
        assert(file.deep_view() == before[i as int]);
        file.file_id = start + i as u32;
        files.insert(i, file);
        assert(files.deep_view() =~= before.update(i as int, numbered(all, start)[i as int]));
        i = i + 1;
    }
    assert(files.deep_view() =~= numbered(all, start));
}

/// Files with numbers from `start` on.
pub open spec fn numbered(files: LevelView, start: u32) -> LevelView {
    Seq::new(files.len(), |i: int| FileView { file_id: (start + i) as u32, ..files[i] })
}

// --- Compactions ---

/// What a compaction is to do: merge files of a level with files of the next one.
pub struct CompactionPlan {
    pub source_level: usize,
    pub source_files: Vec<FileMetadata>,
    pub target_files: Vec<FileMetadata>,
}

/// The smallest of the smallest keys of some files.
pub open spec fn smallest_key(files: LevelView) -> KeyView
    decreases files.len(),
{
    if files.len() <= 1 {
        files[0].min_key
    } else {
        let m = smallest_key(files.drop_last());
        if key_lt(files.last().min_key, m) {
            files.last().min_key
        } else {
            m
        }
    }
}

/// The largest of the largest keys of some files.
pub open spec fn largest_key(files: LevelView) -> KeyView
    decreases files.len(),
{
    if files.len() <= 1 {
        files[0].max_key
    } else {
        let m = largest_key(files.drop_last());
        if key_lt(m, files.last().max_key) {
            files.last().max_key
        } else {
            m
        }
    }
}

/// Whether the key range of a file and a range have a key in common.
pub open spec fn overlaps(f: FileView, min: KeyView, max: KeyView) -> bool {
    !key_lt(f.max_key, min) && !key_lt(max, f.min_key)
}

/// The files of a level whose ranges overlap a range.
pub open spec fn overlapping(files: LevelView, min: KeyView, max: KeyView) -> LevelView
    decreases files.len(),
{
    if files.len() == 0 {
        files
    } else {
        let rest = overlapping(files.drop_last(), min, max);
        if overlaps(files.last(), min, max) {
            rest.push(files.last())
        } else {
            rest
        }
    }
}

/// The files of a level, and none where there is no such level.
pub open spec fn level_of(levels: Seq<LevelView>, i: int) -> LevelView {
    if 0 <= i < levels.len() {
        levels[i]
    } else {
        Seq::empty()
    }
}

impl CompactionPlan {
    /// Whether the plan is to merge some files of a level with those of the next level whose
    /// ranges overlap theirs.
    pub open spec fn merges(
        &self,
        levels: Seq<LevelView>,
        source_level: int,
        source_files: LevelView,
    ) -> bool {
        &&& self.source_level == source_level
        &&& self.source_files.deep_view() == source_files
        &&& self.target_files.deep_view() == overlapping(
            level_of(levels, source_level + 1),
            smallest_key(source_files),
            largest_key(source_files),
        )
    }
}

fn find_overlapping(files: &Vec<FileMetadata>, min: &Key, max: &Key) -> (r: Vec<FileMetadata>)
    ensures
        r.deep_view() == overlapping(files.deep_view(), min@, max@),
{
    let ghost all = files.deep_view();
    let mut r: Vec<FileMetadata> = Vec::new();
    let mut i: usize = 0;
    assert(r.deep_view() =~= overlapping(all.take(0), min@, max@));
    while i < files.len()
        invariant
            i <= files@.len(),
            all == files.deep_view(),
            r.deep_view() == overlapping(all.take(i as int), min@, max@),
        decreases files@.len() - i,
    {
        let ghost before = r.deep_view();
        proof {
            assert(all.take(i + 1).drop_last() =~= all.take(i as int));
            assert(all.take(i + 1).last() == all[i as int]);
        }
        let file = &files[i];
        if !file.max_key.before(min) && !max.before(&file.min_key) {
            r.push(file.clone());
            assert(r.deep_view() =~= before.push(all[i as int]));
        }
        i = i + 1;
    }
    assert(all.take(i as int) =~= all);
    r
}

/// Plans the merge of some files of a level into the next one.
fn plan_merge(manifest: &Manifest, source_level: usize, source_files: Vec<FileMetadata>) -> (plan:
    CompactionPlan)
    requires
        source_level < usize::MAX,
        source_files@.len() > 0,
    ensures
        plan.merges(manifest@.levels, source_level as int, source_files.deep_view()),
{
    let ghost all = source_files.deep_view();
    let mut min = source_files[0].min_key.clone();
    let mut max = source_files[0].max_key.clone();
    let mut i: usize = 1;
    assert(all.take(1)[0] == all[0]);
    while i < source_files.len()
        invariant
            1 <= i <= source_files@.len(),
            all == source_files.deep_view(),
            min@ == smallest_key(all.take(i as int)),
            max@ == largest_key(all.take(i as int)),
        decreases source_files@.len() - i,
    {
        proof {
            assert(all.take(i + 1).drop_last() =~= all.take(i as int));
            assert(all.take(i + 1).last() == all[i as int]);
        }
        if source_files[i].min_key.before(&min) {
            min = source_files[i].min_key.clone();
        }
        if max.before(&source_files[i].max_key) {
            max = source_files[i].max_key.clone();
        }
        i = i + 1;
    }
    assert(all.take(i as int) =~= all);
    let target: usize = source_level + 1;
    let target_files = if target < manifest.levels.len() {
        find_overlapping(&manifest.levels[target].files, &min, &max)
    } else {
        let none: Vec<FileMetadata> = Vec::new();
        assert(none.deep_view() =~= Seq::<FileView>::empty());
        none
    };
    CompactionPlan { source_level, source_files, target_files }
}

/// Plans the compaction of the first level: all its files.
pub fn compact_l0(manifest: &Manifest) -> (r: Option<CompactionPlan>)
    ensures
        match r {
            Some(plan) => {
                &&& level_of(manifest@.levels, 0).len() > 0
                &&& plan.merges(manifest@.levels, 0, manifest@.levels[0])
                &&& manifest@.levels.len() > 0 && manifest@.levels[0].len() > 0
                &&& plan.source_level == 0
                &&& plan.source_files.deep_view() == manifest@.levels[0]
            },
            None => {
                &&& level_of(manifest@.levels, 0).len() == 0
                &&& manifest@.levels.len() == 0 || manifest@.levels[0].len() == 0
            },
        },
{
    if manifest.levels.len() == 0 || manifest.levels[0].files.len() == 0 {
        assert(manifest@.levels.len() > 0 ==> manifest@.levels[0]
            == manifest.levels@[0].deep_view());
        return None;
    }
    assert(manifest@.levels[0] == manifest.levels@[0].deep_view());
    let files = clone_files(&manifest.levels[0].files);
    assert(files.deep_view().len() == files@.len());
    Some(plan_merge(manifest, 0, files))
}

/// Plans the compaction of a deeper level: its first file.
pub fn compact_ln(manifest: &Manifest, level_idx: usize) -> (r: Option<CompactionPlan>)
    ensures
        match r {
            Some(plan) => {
                &&& level_of(manifest@.levels, level_idx as int).len() > 0
                &&& plan.merges(
                    manifest@.levels,
                    level_idx as int,
                    seq![manifest@.levels[level_idx as int][0]],
                )
                &&& level_idx < manifest@.levels.len()
                &&& manifest@.levels[level_idx as int].len() > 0
                &&& plan.source_level == level_idx
                &&& plan.source_files@.len() == 1
                &&& plan.source_files.deep_view()[0] == manifest@.levels[level_idx as int][0]
            },
            None => {
                &&& level_of(manifest@.levels, level_idx as int).len() == 0
                &&& level_idx >= manifest@.levels.len() || manifest@.levels[level_idx as int].len()
                    == 0
            },
        },
{
    if manifest.levels.len() <= level_idx {
        return None;
    }
    assert(manifest@.levels[level_idx as int] == manifest.levels@[level_idx as int].deep_view());
    if manifest.levels[level_idx].files.len() == 0 {
        return None;
    }
    let candidate = vec![manifest.levels[level_idx].files[0].clone()];
    assert(candidate.deep_view() =~= seq![manifest@.levels[level_idx as int][0]]);
    Some(plan_merge(manifest, level_idx, candidate))
}

impl CompactionPlan {
    /// The files to merge: those of the level, then those of the next one.
    pub fn files_to_merge(&self) -> (r: Vec<FileMetadata>)
        ensures
            r.deep_view() == self.source_files.deep_view() + self.target_files.deep_view(),
    {
        let mut r = clone_files(&self.source_files);
        append_all(&mut r, clone_files(&self.target_files));
        r
    }
}

/// Some levels, with as many empty ones behind them as make `n`.
pub open spec fn with_levels<V>(levels: Seq<Seq<V>>, n: nat) -> Seq<Seq<V>> {
    if levels.len() >= n {
        levels
    } else {
        levels + Seq::new((n - levels.len()) as nat, |i: int| Seq::<V>::empty())
    }
}

/// The levels after a compaction: the files merged are gone, and the new ones are in the next
/// level, in the order of their smallest keys.
pub open spec fn compacted<T: Ranged>(
    levels: Seq<Seq<T::V>>,
    plan: CompactionPlan,
    new: Seq<T::V>,
) -> Seq<Seq<T::V>> {
    let source = plan.source_level as int;
    let all = with_levels(levels, (source + 2) as nat);
    let from = kept::<T>(all[source], file_ids(plan.source_files.deep_view()));
    let into = kept::<T>(all[source + 1], file_ids(plan.target_files.deep_view())) + new;
    all.update(source, from).update(source + 1, by_min_key::<T>(into))
}

/// The manifest after a compaction.
pub open spec fn compacted_manifest(
    m: ManifestView,
    plan: CompactionPlan,
    new: LevelView,
) -> ManifestView {
    ManifestView { levels: compacted::<FileMetadata>(m.levels, plan, new), ..m }
}

/// Commits a compaction to the manifest.
pub fn commit_compaction(
    manifest: &mut Manifest,
    plan: &CompactionPlan,
    new_files: &Vec<FileMetadata>,
)
    requires
        plan.source_level < usize::MAX - 1,
    ensures
        final(manifest)@ == compacted_manifest(old(manifest)@, *plan, new_files.deep_view()),
        forall|l: int|
            0 <= l < old(manifest)@.levels.len() && l != plan.source_level && l
                != plan.source_level + 1 ==> #[trigger] final(manifest)@.levels[l] == old(
                manifest,
            )@.levels[l],
        final(manifest)@.wals == old(manifest)@.wals,
        final(manifest)@.next_wal_id == old(manifest)@.next_wal_id,
        final(manifest)@.next_sstable_id == old(manifest)@.next_sstable_id,
        final(manifest)@.version == old(manifest)@.version,
{
    let ghost before = manifest@;
    let source: usize = plan.source_level;
    let target: usize = source + 1;
    let ghost all = with_levels(before.levels, (source + 2) as nat);
    while manifest.levels.len() <= target
        invariant
            target == source + 1,
            source < usize::MAX - 1,
            before.levels.len() <= manifest.levels@.len(),
            manifest.levels@.len() <= target + 1 || manifest.levels@.len() == before.levels.len(),
            manifest.levels.deep_view() == with_levels(before.levels, manifest.levels@.len()),
            manifest@ == (ManifestView { levels: manifest.levels.deep_view(), ..before }),
        decreases target + 1 - manifest.levels@.len(),
    {
        let ghost had = manifest.levels.deep_view();
        manifest.levels.push(Level::default());
        proof {
            assert(manifest.levels.deep_view() =~= had.push(Seq::empty()));
            assert(had.push(Seq::empty()) =~= with_levels(
                before.levels,
                manifest.levels@.len(),
            ));
        }
    }
    proof {
        assert(manifest.levels.deep_view() =~= all);
    }
    let mut from = Level { files: Vec::new() };
    std::mem::swap(&mut from, &mut manifest.levels[source]);
    assert(from.deep_view() == all[source as int]);
    remove_files(&mut from.files, &plan.source_files);
    let ghost from_view = from.deep_view();
    std::mem::swap(&mut from, &mut manifest.levels[source]);
    assert(manifest.levels@[source as int].deep_view() == from_view);
    assert(manifest.levels.deep_view() =~= all.update(source as int, from_view));
    let mut into = Level { files: Vec::new() };
    std::mem::swap(&mut into, &mut manifest.levels[target]);
    assert(into.deep_view() == all[target as int]);
    remove_files(&mut into.files, &plan.target_files);
    append_all(&mut into.files, clone_files(new_files));
    sort_by_min_key(&mut into.files);
    let ghost into_view = into.deep_view();
    std::mem::swap(&mut into, &mut manifest.levels[target]);
    proof {
        assert(manifest.levels@[target as int].deep_view() == into_view);
        assert(manifest.levels.deep_view() =~= all.update(source as int, from_view).update(
            target as int,
            into_view,
        ));
    }
}

/// Makes the open tables follow a compaction.
pub fn open_compacted(
    levels: &mut Vec<Vec<Arc<Sstable>>>,
    plan: &CompactionPlan,
    new_tables: Vec<Arc<Sstable>>,
)
    requires
        plan.source_level < usize::MAX - 1,
    ensures
        final(levels).deep_view() == compacted::<Arc<Sstable>>(
            old(levels).deep_view(),
            *plan,
            new_tables.deep_view(),
        ),
        forall|l: int|
            0 <= l < old(levels)@.len() && l != plan.source_level && l != plan.source_level + 1
                ==> #[trigger] final(levels).deep_view()[l] == old(levels).deep_view()[l],
{
    let ghost before = levels.deep_view();
    let source: usize = plan.source_level;
    let target: usize = source + 1;
    let ghost all = with_levels(before, (source + 2) as nat);
    while levels.len() <= target
        invariant
            target == source + 1,
            source < usize::MAX - 1,
            before.len() <= levels@.len(),
            levels@.len() <= target + 1 || levels@.len() == before.len(),
            levels.deep_view() == with_levels(before, levels@.len()),
        decreases target + 1 - levels@.len(),
    {
        let ghost had = levels.deep_view();
        let empty: Vec<Arc<Sstable>> = Vec::new();
        assert(empty.deep_view() =~= Seq::<(u32, TableView)>::empty());
        levels.push(empty);
        proof {
            assert(levels.deep_view() =~= had.push(Seq::empty()));
            assert(had.push(Seq::empty()) =~= with_levels(before, levels@.len()));
        }
    }
    proof {
        assert(levels.deep_view() =~= all);
    }
    let mut from: Vec<Arc<Sstable>> = Vec::new();
    std::mem::swap(&mut from, &mut levels[source]);
    assert(from.deep_view() == all[source as int]);
    remove_files(&mut from, &plan.source_files);
    let ghost from_view = from.deep_view();
    std::mem::swap(&mut from, &mut levels[source]);
    assert(levels@[source as int].deep_view() == from_view);
    assert(levels.deep_view() =~= all.update(source as int, from_view));
    let mut into: Vec<Arc<Sstable>> = Vec::new();
    std::mem::swap(&mut into, &mut levels[target]);
    assert(into.deep_view() == all[target as int]);
    remove_files(&mut into, &plan.target_files);
    append_all(&mut into, new_tables);
    sort_by_min_key(&mut into);
    let ghost into_view = into.deep_view();
    std::mem::swap(&mut into, &mut levels[target]);
    proof {
        assert(levels@[target as int].deep_view() == into_view);
        assert(levels.deep_view() =~= all.update(source as int, from_view).update(
            target as int,
            into_view,
        ));
    }
}

} // verus!
