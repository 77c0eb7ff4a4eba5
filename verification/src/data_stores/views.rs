//! The mathematical values of what the stores hold: they leave nothing out, and results that
//! are said to agree with a model are what the model gives.

use crate::data_stores::agrees;
use crate::data_stores::key::Key;
use crate::data_stores::manifest::{FileMetadata, Manifest};
use crate::data_stores::sstable::{search_agrees, step_view, Sstable};
use crate::data_stores::value::{Value, ValueView};
use crate::data_stores::wal::{log_step_agrees, LogStep};
use crate::err::DbError;
use vstd::prelude::*;

verus! {

/// Values with the same view are of the same kind and hold the same.
pub proof fn lemma_value_view(a: Value, b: Value)
    requires
        a@ == b@,
    ensures
        match a {
            Value::Bytes(x) => b matches Value::Bytes(y) && x@ == y@,
            Value::Str(x) => b matches Value::Str(y) && x@ == y@,
            Value::Int(x) => b matches Value::Int(y) && x == y,
            Value::Tombstone => b is Tombstone,
        },
{
}

/// The view of a value is of its kind and holds what it holds.
pub proof fn lemma_value_kind(a: Value)
    ensures
        a@ is Tombstone <==> a is Tombstone,
        a matches Value::Int(i) ==> (a@ matches ValueView::Int(j) && j == i),
        a matches Value::Bytes(b) ==> (a@ matches ValueView::Bytes(c) && c == b@),
        a matches Value::Str(t) ==> (a@ matches ValueView::Str(u) && u == t@),
{
}

/// Keys with the same view have the same bytes and the same LSN.
pub proof fn lemma_key_view(a: Key, b: Key)
    ensures
        a@ == b@ <==> a.bytes@ == b.bytes@ && a.lsn == b.lsn,
        a.deep_view() == a@,
{
}

/// Files with the same view agree in all that the manifest knows of them.
pub proof fn lemma_file_view(a: FileMetadata, b: FileMetadata)
    ensures
        a@ == b@ <==> {
            &&& a.file_id == b.file_id
            &&& a.file_size == b.file_size
            &&& a.min_key.bytes@ == b.min_key.bytes@
            &&& a.min_key.lsn == b.min_key.lsn
            &&& a.max_key.bytes@ == b.max_key.bytes@
            &&& a.max_key.lsn == b.max_key.lsn
        },
{
    lemma_key_view(a.min_key, b.min_key);
    lemma_key_view(a.max_key, b.max_key);
}

/// The view of a manifest has every log, every file of every level, and the numbers.
pub proof fn lemma_manifest_view(m: Manifest, l: int, i: int)
    ensures
        m@.wals == m.wals@,
        m@.levels.len() == m.levels@.len(),
        0 <= l < m.levels@.len() ==> m@.levels[l].len() == m.levels@[l].files@.len(),
        0 <= l < m.levels@.len() && 0 <= i < m.levels@[l].files@.len() ==> m@.levels[l][i]
            == m.levels@[l].files@[i]@,
        m@.next_wal_id == m.next_wal_id,
        m@.next_sstable_id == m.next_sstable_id,
        m@.version == m.version,
{
    assert(m.wals.deep_view() =~= m.wals@);
    if 0 <= l < m.levels@.len() {
        assert(m@.levels[l] == m.levels@[l].deep_view());
    }
}

/// The view of an open table has its file, its index, its filter and its range.
pub proof fn lemma_table_view(t: Sstable, i: int)
    ensures
        t@.file == t.file@,
        t@.index.len() == t.index@.len(),
        0 <= i < t.index@.len() ==> t@.index[i].0 == t.index@[i].0@ && t@.index[i].1
            == t.index@[i].1@ && t@.index[i].2 == t.index@[i].2,
        t@.min_key == t.min_key@,
        t@.max_key == t.max_key@,
        t@.filter.bitmap == t.bloom_filter.bitmap@,
        t@.filter.bitmap_bits == t.bloom_filter.bitmap_bits,
        t@.filter.k_num == t.bloom_filter.k_num,
        t@.filter.sip_keys == t.bloom_filter.sip_keys@,
        t.deep_view().0 == t.id,
        t.deep_view().1 == t@,
{
    if 0 <= i < t.index@.len() {
        assert(t.index.deep_view()[i] == t.index@[i].deep_view());
    }
}

/// Errors with the same view are of the same kind and have the same text.
pub proof fn lemma_error_view(a: DbError, b: DbError)
    requires
        a@ == b@,
    ensures
        match a {
            DbError::Io(x) => b matches DbError::Io(y) && x == y,
            DbError::KeyNotFound(x) => b matches DbError::KeyNotFound(y) && x@ == y@,
            DbError::DirectoryNotFound(x) => b matches DbError::DirectoryNotFound(y) && x@ == y@,
            DbError::ManifestNotFound => b is ManifestNotFound,
            DbError::ManifestReadError(x) => b matches DbError::ManifestReadError(y) && x@ == y@,
            DbError::ManifestCorrupted => b is ManifestCorrupted,
            DbError::WriterPanic => b is WriterPanic,
            DbError::DataCorrupted(x) => b matches DbError::DataCorrupted(y) && x@ == y@,
        },
{
}

/// A result that agrees with a model succeeds where the model does, with its value, and fails
/// where it does, with its error.
pub proof fn lemma_agrees<T: DeepView>(r: Result<T, DbError>, model: Result<T::V, DbError>)
    requires
        agrees(r, model),
    ensures
        r is Ok <==> model is Ok,
        r matches Ok(x) ==> model == Ok::<T::V, DbError>(x.deep_view()),
        r matches Err(e) ==> model == Err::<T::V, DbError>(e),
{
}

/// The same of a search.
pub proof fn lemma_search_agrees(
    r: Result<Option<Value>, DbError>,
    model: Result<Option<ValueView>, DbError>,
)
    requires
        search_agrees(r, model),
    ensures
        r is Ok <==> model is Ok,
        r matches Ok(Some(v)) ==> model == Ok::<Option<ValueView>, DbError>(Some(v@)),
        r matches Ok(None) ==> model == Ok::<Option<ValueView>, DbError>(None),
        r matches Err(e) ==> model == Err::<Option<ValueView>, DbError>(e),
{
}

/// The same of a step through a log.
pub proof fn lemma_log_step_agrees(r: Option<Result<(Key, Value), DbError>>, model: LogStep)
    requires
        log_step_agrees(r, model),
    ensures
        r is None <==> model is None,
        r matches Some(Ok((k, v))) ==> (model matches Some(Ok(e)) && e.0 == k@ && e.1 == v@),
        r matches Some(Err(e)) ==> (model matches Some(Err(f)) && f == e@),
{
}

/// A step through a table is what it returned.
pub proof fn lemma_step_view(r: Option<Result<(Key, Value), DbError>>)
    ensures
        r is None <==> step_view(r) is None,
        r matches Some(Ok((k, v))) ==> (step_view(r) matches Some(Ok(e)) && e.0 == k@ && e.1
            == v@),
        r matches Some(Err(e)) ==> (step_view(r) matches Some(Err(f)) && f == e),
{
}

} // verus!
