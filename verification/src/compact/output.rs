//! Writing a sorted run out as tables.

use crate::compact::merge::{merge_all, merge_step, ordered, MergeIterator, Stream};
use crate::data_stores::key::{key_lt, lemma_key_lt_irreflexive, lemma_key_lt_total};
use crate::data_stores::manifest::FileMetadata;
use crate::data_stores::memtable::{is_dump, Immutable, Memtable};
use crate::data_stores::sstable::{
    is_table, lemma_sorted_push, step_view, table_metadata, SstableWriter,
};
use crate::data_stores::table_format::{
    blocks_of, concat, data_bytes, lemma_concat_push, sorted, Entry,
};
use crate::err::DbError;
use vstd::prelude::*;

verus! {

/// What went wrong while a merge was written out.
#[derive(Debug)]
pub enum OutputError {
    /// Reading the inputs failed.
    Merge(DbError),
    /// An entry could not be written.
    Write(DbError),
    /// A table could not be completed.
    Finalize(DbError),
}

/// A table that is complete: what the manifest is to know of it, and its bytes.
pub type Table = (FileMetadata, Vec<u8>);

/// Whether an entry can be added to a table without its data blocks taking more than `target`
/// bytes.
pub open spec fn has_room(es: Seq<Entry>, e: Entry, target: u64) -> bool {
    data_bytes(blocks_of(es.push(e))).len() <= target
}

/// How a run of entries is cut into tables, and whether every entry could be written: one
/// that is not behind the last of its table cannot, nor can a version that comes again. No
/// table takes more than the target but one of a single entry.
pub open spec fn split(es: Seq<Entry>, target: u64) -> (Seq<Seq<Entry>>, bool)
    decreases es.len(),
{
    if es.len() == 0 {
        (Seq::empty(), true)
    } else {
        split_step(split(es.drop_last(), target), es.last(), target)
    }
}

pub open spec fn split_step(state: (Seq<Seq<Entry>>, bool), e: Entry, target: u64) -> (
    Seq<Seq<Entry>>,
    bool,
) {
    let (tables, ok) = state;
    if !ok {
        state
    } else if tables.len() == 0 {
        (tables.push(seq![e]), true)
    } else if tables.last().last().0 == e.0 {
        (tables, false)
    } else if !has_room(tables.last(), e, target) {
        (tables.push(seq![e]), true)
    } else if key_lt(tables.last().last().0, e.0) {
        (tables.drop_last().push(tables.last().push(e)), true)
    } else {
        (tables, false)
    }
}

/// Once an entry could not be written, nothing more is.
proof fn lemma_split_stuck(es: Seq<Entry>, n: int, target: u64)
    requires
        0 <= n <= es.len(),
        !split(es.take(n), target).1,
    ensures
        split(es, target) == split(es.take(n), target),
    decreases es.len() - n,
{
    if n == es.len() {
        assert(es.take(n) =~= es);
    } else {
        assert(es.take(n + 1).drop_last() =~= es.take(n));
        lemma_split_stuck(es, n + 1, target);
    }
}

/// Cutting a run into tables loses no entry and changes no order; no table is empty. A run in
/// order can be written exactly where no version is there twice.
pub proof fn lemma_split(es: Seq<Entry>, target: u64)
    ensures
        split(es, target).1 ==> concat(split(es, target).0) == es,
        forall|i: int|
            0 <= i < split(es, target).0.len() ==> (#[trigger] split(es, target).0[i]).len() > 0,
        sorted(es) ==> split(es, target).1,
        ordered(es) && split(es, target).1 ==> sorted(es),
    decreases es.len(),
{
    if es.len() > 0 {
        let before = es.drop_last();
        let e = es.last();
        let n = es.len() - 1;
        lemma_split(before, target);
        let (tables, ok) = split(before, target);
        assert(before.push(e) =~= es);
        if sorted(es) {
            assert forall|i: int, j: int| 0 <= i < j < before.len() implies key_lt(
                (#[trigger] before[i]).0,
                (#[trigger] before[j]).0,
            ) by {
                assert(key_lt(es[i].0, es[j].0));
            }
        }
        if ordered(es) {
            assert forall|i: int, j: int| 0 <= i < j < before.len() implies !key_lt(
                (#[trigger] before[j]).0,
                (#[trigger] before[i]).0,
            ) by {
                assert(!key_lt(es[j].0, es[i].0));
            }
        }
        if ok && tables.len() > 0 {
            let head = tables.drop_last();
            let last = tables.last();
            lemma_concat_push(head, last);
            assert(head.push(last) =~= tables);
            assert(last.len() > 0);
            assert((concat(head) + last).last() == last.last());
            assert(n > 0 && es[n - 1] == last.last());
            lemma_concat_push(tables, seq![e]);
            assert(concat(tables) + seq![e] =~= es);
            lemma_concat_push(head, last.push(e));
            assert(concat(head) + last.push(e) =~= (concat(head) + last).push(e));
            if sorted(es) {
                assert(key_lt(es[n - 1].0, es[n].0));
                lemma_key_lt_irreflexive(e.0);
            }
            if ordered(es) && split(es, target).1 {
                assert(!key_lt(es[n].0, es[n - 1].0));
                lemma_key_lt_total(es[n - 1].0, e.0);
                lemma_sorted_push(before, e);
            }
        } else if ok {
            lemma_concat_push(tables, seq![e]);
            assert(concat(tables) + seq![e] =~= es);
            if ordered(es) {
                assert(before =~= Seq::<Entry>::empty());
            }
        }
    } else {
        assert(concat(split(es, target).0) =~= es);
    }
}

/// The maximum size is kept: no table of more than one entry has data blocks of more than
/// the target.
pub proof fn lemma_split_sizes(es: Seq<Entry>, target: u64)
    ensures
        forall|i: int|
            0 <= i < split(es, target).0.len() ==> (#[trigger] split(es, target).0[i]).len() == 1
                || data_bytes(blocks_of(split(es, target).0[i])).len() <= target,
    decreases es.len(),
{
    if es.len() > 0 {
        let before = split(es.drop_last(), target).0;
        let after = split(es, target).0;
        lemma_split_sizes(es.drop_last(), target);
        assert forall|i: int| 0 <= i < after.len() implies (#[trigger] after[i]).len() == 1
            || data_bytes(blocks_of(after[i])).len() <= target by {
            if i < before.len() && after[i] == before[i] {
                assert(before[i].len() == 1 || data_bytes(blocks_of(before[i])).len() <= target);
            }
        }
    }
}

/// A table is followed by another only where it has no room for the first entry of that one.
pub proof fn lemma_split_fills(es: Seq<Entry>, target: u64, i: int)
    requires
        0 <= i < split(es, target).0.len() - 1,
    ensures
        data_bytes(
            blocks_of(split(es, target).0[i].push(split(es, target).0[i + 1][0])),
        ).len() > target,
    decreases es.len(),
{
    let before = split(es.drop_last(), target).0;
    let after = split(es, target).0;
    lemma_split(es.drop_last(), target);
    if i < before.len() - 1 {
        lemma_split_fills(es.drop_last(), target, i);
        assert(before[i + 1].len() > 0);
    }
}

/// What writing a merge out comes to: where the merge ends in no error and is in order with no
/// version twice, its entries are in the tables, in order, and there is no error. Where it
/// ends in an error, that is the error, if nothing was wrong before.
pub proof fn lemma_output(output: MergeOutput, stream: Stream, target: u64) -> (groups: Seq<
    Seq<Entry>,
>)
    requires
        output.is_output(stream, target),
    ensures
        sorted(stream.0) && stream.1 is None ==> {
            &&& output.error is None
            &&& !output.unfinished
            &&& concat(groups) == stream.0
            &&& output.tables@.len() == groups.len()
            &&& forall|i: int|
                0 <= i < groups.len() ==> (#[trigger] groups[i]).len() > 0 && is_table(
                    output.tables@[i].1@,
                    groups[i],
                ) && output.tables@[i].0@.min_key == groups[i][0].0
                    && output.tables@[i].0@.max_key == groups[i].last().0
        },
        output.error is None ==> stream.1 is None && concat(groups) == stream.0
            && output.tables@.len() == groups.len() && (forall|i: int|
            0 <= i < groups.len() ==> is_table(
                output.tables@[i].1@,
                #[trigger] groups[i],
            )),
        sorted(stream.0) ==> (stream.1 matches Some(e) ==> (
        output.error matches Some(OutputError::Merge(f)) && f == e)),
{
    let groups = split(stream.0, target).0;
    lemma_split(stream.0, target);
    if split(stream.0, target).1 && stream.1 is None {
        assert forall|i: int| 0 <= i < groups.len() implies (#[trigger] groups[i]).len() > 0
            && is_table(output.tables@[i].1@, groups[i]) && output.tables@[i].0@.min_key
            == groups[i][0].0 && output.tables@[i].0@.max_key == groups[i].last().0 by {
            assert(table_holds(output.tables@[i], groups[i]));
        }
    }
    groups
}

/// What writing a merge out came to.
pub struct MergeOutput {
    /// The tables that are complete.
    pub tables: Vec<Table>,
    /// Whether a table was begun and not completed.
    pub unfinished: bool,
    pub error: Option<OutputError>,
}

/// Whether a table is that of some entries.
pub open spec fn table_holds(t: Table, es: Seq<Entry>) -> bool {
    is_table(t.1@, es) && t.0@ == table_metadata(es, t.1@.len())
}

pub open spec fn tables_hold(tables: Seq<Table>, groups: Seq<Seq<Entry>>) -> bool {
    &&& tables.len() == groups.len()
    &&& forall|i: int|
        0 <= i < tables.len() ==> table_holds(#[trigger] tables[i], groups[i])
}

impl MergeOutput {
    /// Whether this is what writing out a stream comes to.
    pub open spec fn is_output(&self, stream: Stream, target: u64) -> bool {
        let (groups, ok) = split(stream.0, target);
        if ok && stream.1 is None {
            self.error is None && !self.unfinished && tables_hold(self.tables@, groups)
        } else {
            &&& self.unfinished <==> groups.len() > 0
            &&& groups.len() == 0 ==> self.tables@.len() == 0
            &&& groups.len() > 0 ==> tables_hold(self.tables@, groups.drop_last())
            &&& if ok {
                self.error matches Some(OutputError::Merge(e)) && Some(e) == stream.1
            } else {
                self.error matches Some(OutputError::Write(e)) && (
                e matches DbError::DataCorrupted(message) && message@
                    == "SSTable keys out of order"@)
            }
        }
    }
}

/// Completes a table, the last of some groups of entries.
fn complete(
    writer: SstableWriter,
    tables: &mut Vec<Table>,
    Ghost(groups): Ghost<Seq<Seq<Entry>>>,
) -> (r: Result<(), DbError>)
    requires
        writer.wf(),
        groups.len() > 0,
        writer@ == groups.last(),
        tables_hold(old(tables)@, groups.drop_last()),
    ensures
        r is Ok,
        tables_hold(final(tables)@, groups),
{
    let table = match writer.finalize() {
        Ok(table) => table,
        Err(error) => {
            return Err(error);
        },
    };
    tables.push(table);
    assert forall|i: int| 0 <= i < tables@.len() implies table_holds(
        #[trigger] tables@[i],
        groups[i],
    ) by {
        if i < groups.len() - 1 {
            assert(groups.drop_last()[i] == groups[i]);
        }
    }
    Ok(())
}

/// Writes a merge out as tables of at most `target_file_size` bytes of data blocks, but for
/// an entry that takes more alone. A version that comes again cannot be written.
pub fn write_merged(merge: MergeIterator, target_file_size: u64) -> (r: MergeOutput)
    requires
        merge.wf(),
    ensures
        r.is_output(merge_all(merge@), target_file_size),
{
    let ghost stream = merge_all(merge@);
    let mut iter = merge;
    let mut tables: Vec<Table> = Vec::new();
    let mut current: Option<SstableWriter> = None;
    let ghost mut consumed = Seq::<Entry>::empty();
    proof {
        assert(stream.0 =~= consumed + stream.0);
    }
    loop
        invariant
            iter.wf(),
            stream == merge_all(merge@),
            stream == (consumed + merge_all(iter@).0, merge_all(iter@).1),
            split(consumed, target_file_size).1,
            match current {
                Some(writer) => {
                    let groups = split(consumed, target_file_size).0;
                    &&& writer.wf()
                    &&& groups.len() > 0
                    &&& writer@ == groups.last()
                    &&& tables_hold(tables@, groups.drop_last())
                },
                None => split(consumed, target_file_size).0.len() == 0 && tables@.len() == 0,
            },
        ensures
            stream.0 == consumed,
            stream.1 is None,
        decreases merge_all(iter@).0.len(),
    {
        let ghost groups = split(consumed, target_file_size).0;
        let ghost before = iter@;
        let step = iter.next();
        assert((step_view(step), iter@) == merge_step(before));
        let (key, value) = match step {
            Some(Ok(entry)) => entry,
            Some(Err(e)) => {
                proof {
                    assert(stream.0 =~= consumed);
                }
                return MergeOutput {
                    tables,
                    unfinished: current.is_some(),
                    error: Some(OutputError::Merge(e)),
                };
            },
            None => {
                proof {
                    assert(stream.0 =~= consumed);
                }
                break;
            },
        };
        let ghost e: Entry = (key@, value@);
        let ghost more = consumed.push(e);
        proof {
            let rest = merge_all(iter@).0;
            assert(merge_all(before).0 == seq![e] + rest);
            assert(stream.0 =~= more + rest);
            assert(more.drop_last() =~= consumed);
            assert(more.last() == e);
            assert(stream.0.take(more.len() as int) =~= more);
            lemma_split(consumed, target_file_size);
        }
        let mut writer = match current {
            Some(writer) => {
                if !writer.ends_with(&key) && !writer.has_room(&key, &value, target_file_size) {
                    match complete(writer, &mut tables, Ghost(groups)) {
                        Ok(()) => {},
                        Err(error) => {
                            return MergeOutput {
                                tables,
                                unfinished: true,
                                error: Some(OutputError::Finalize(error)),
                            };
                        },
                    }
                    proof {
                        assert(split(more, target_file_size) == (groups.push(seq![e]), true));
                        assert(groups.push(seq![e]).drop_last() =~= groups);
                    }
                    SstableWriter::new()
                } else {
                    proof {
                        lemma_key_lt_irreflexive(e.0);
                        if key_lt(groups.last().last().0, e.0) {
                            let next = groups.drop_last().push(groups.last().push(e));
                            assert(split(more, target_file_size) == (next, true));
                            assert(next.drop_last() =~= groups.drop_last());
                        } else {
                            assert(split(more, target_file_size) == (groups, false));
                            lemma_split_stuck(stream.0, more.len() as int, target_file_size);
                        }
                    }
                    writer
                }
            },
            None => {
                proof {
                    assert(split(more, target_file_size) == (groups.push(seq![e]), true));
                    assert(groups.push(seq![e]).drop_last() =~= groups);
                    assert(tables_hold(tables@, groups));
                }
                SstableWriter::new()
            },
        };
        match writer.write(&key, &value) {
            Ok(()) => {},
            Err(error) => {
                return MergeOutput {
                    tables,
                    unfinished: true,
                    error: Some(OutputError::Write(error)),
                };
            },
        }
        proof {
            assert(Seq::<Entry>::empty().push(e) =~= seq![e]);
            consumed = more;
        }
        current = Some(writer);
    }
    let ghost groups = split(consumed, target_file_size).0;
    match current {
        Some(writer) => match complete(writer, &mut tables, Ghost(groups)) {
            Ok(()) => {},
            Err(error) => {
                return MergeOutput {
                    tables,
                    unfinished: true,
                    error: Some(OutputError::Finalize(error)),
                };
            },
        },
        None => {},
    }
    MergeOutput { tables, unfinished: false, error: None }
}

/// Writes a frozen memtable out as a table.
pub fn flush_memtable(mem: &Memtable<Immutable>) -> (r: Result<Table, OutputError>)
    ensures
        r is Ok,
        exists|es: Seq<Entry>| is_dump(mem@, es) && table_holds(r->Ok_0, es),
{
    let entries = mem.iter();
    let ghost es = entries.deep_view();
    let mut writer = SstableWriter::new();
    let mut i: usize = 0;
    assert(es.take(0) =~= Seq::<Entry>::empty());
    while i < entries.len()
        invariant
            i <= entries@.len(),
            es == entries.deep_view(),
            sorted(es),
            writer.wf(),
            writer@ == es.take(i as int),
        decreases entries@.len() - i,
    {
        proof {
            assert(es.take(i + 1) =~= es.take(i as int).push(es[i as int]));
            if i > 0 {
                assert(key_lt(es[i - 1].0, es[i as int].0));
            }
        }
        match writer.write(&entries[i].0, &entries[i].1) {
            Ok(()) => {},
            Err(e) => {
                return Err(OutputError::Write(e));
            },
        }
        i = i + 1;
    }
    assert(es.take(i as int) =~= es);
    match writer.finalize() {
        Ok(table) => {
            assert(table_holds(table, es));
            Ok(table)
        },
        Err(e) => Err(OutputError::Finalize(e)),
    }
}

} // verus!
