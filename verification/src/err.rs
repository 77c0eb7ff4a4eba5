//! The errors of the store.

use vstd::prelude::*;

verus! {

/// What went wrong below the store: the part of an I/O error that the store acts on.
#[derive(Clone, Copy, Debug, PartialEq, Eq, Structural)]
pub enum IoErrorKind {
    /// The input ended before the value that was being read.
    UnexpectedEof,
    /// The file is not there.
    NotFound,
    /// A manifest commit kept losing to other commits and gave up.
    RetriesExceeded,
}

#[derive(Clone, Debug)]
pub enum DbError {
    Io(IoErrorKind),
    KeyNotFound(String),
    DirectoryNotFound(String),
    ManifestNotFound,
    ManifestReadError(String),
    ManifestCorrupted,
    WriterPanic,
    DataCorrupted(String),
}

/// The mathematical value of a [`DbError`].
#[verifier::ext_equal]
pub enum ErrorView {
    Io(IoErrorKind),
    KeyNotFound(Seq<char>),
    DirectoryNotFound(Seq<char>),
    ManifestNotFound,
    ManifestReadError(Seq<char>),
    ManifestCorrupted,
    WriterPanic,
    DataCorrupted(Seq<char>),
}

impl View for DbError {
    type V = ErrorView;

    open spec fn view(&self) -> ErrorView {
        match self {
            DbError::Io(kind) => ErrorView::Io(*kind),
            DbError::KeyNotFound(s) => ErrorView::KeyNotFound(s@),
            DbError::DirectoryNotFound(s) => ErrorView::DirectoryNotFound(s@),
            DbError::ManifestNotFound => ErrorView::ManifestNotFound,
            DbError::ManifestReadError(s) => ErrorView::ManifestReadError(s@),
            DbError::ManifestCorrupted => ErrorView::ManifestCorrupted,
            DbError::WriterPanic => ErrorView::WriterPanic,
            DbError::DataCorrupted(s) => ErrorView::DataCorrupted(s@),
        }
    }
}

impl From<IoErrorKind> for DbError {
    fn from(kind: IoErrorKind) -> (e: DbError) {
        DbError::Io(kind)
    }
}

impl vstd::std_specs::convert::FromSpecImpl<IoErrorKind> for DbError {
    open spec fn obeys_from_spec() -> bool {
        true
    }

    open spec fn from_spec(kind: IoErrorKind) -> DbError {
        DbError::Io(kind)
    }
}

} // verus!
