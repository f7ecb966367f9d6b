//! The document store's view of the pages: which kinds there are and what
//! can go wrong when one is read.

use vstd::prelude::*;
use crate::doc_store::pages::PageKind;
use crate::page_store::StorageError;

pub mod pages;

verus! {

/// What is wrong with the format of a page.
#[derive(Debug, Clone, Copy, PartialEq, Eq, Structural)]
pub enum PageFormatError {
    /// A page number is zero where a page has to be named.
    InvalidPageNumber,
}

/// The errors of the document store.
#[derive(Debug, Clone, Copy, PartialEq, Eq, Structural)]
pub enum DatabaseError {
    /// The page store failed; its error is handed on.
    Storage(StorageError),
    /// The page's first byte stands for no kind of page.
    UnknownPageKind(u8),
    /// The page is of another kind than the one that was asked for.
    UnexpectedPageKind { expected: PageKind, received: PageKind },
    /// The page holds what its format does not allow.
    PageFormat(PageFormatError),
    /// An index lies beyond the end of the page.
    PageIndexOutOfBounds,
}

impl DatabaseError {
    /// Hands a storage error on as an error of the document store.
    pub fn from_storage_error(error: StorageError) -> (res: Self)
        ensures
            res == DatabaseError::Storage(error),
    {
        DatabaseError::Storage(error)
    }

    /// The error in words. A wrong page kind is named without the kinds;
    /// an error of the page store gives the words of that error.
    pub open spec fn text(self) -> Seq<char> {
        match self {
            DatabaseError::Storage(error) => error.text(),
            DatabaseError::UnknownPageKind(_) => "Unknown page kind"@,
            DatabaseError::UnexpectedPageKind { .. } => "Unexpected page kind"@,
            DatabaseError::PageFormat(_) => "Found invalid page number '0'!"@,
            DatabaseError::PageIndexOutOfBounds => "Page index out of bounds"@,
        }
    }

    /// The error in words.
    pub fn message(&self) -> (text: String)
        ensures
            text@ == self.text(),
    {
        match self {
            DatabaseError::Storage(error) => error.message(),
            DatabaseError::UnknownPageKind(_) => "Unknown page kind".to_owned(),
            DatabaseError::UnexpectedPageKind { .. } => "Unexpected page kind".to_owned(),
            DatabaseError::PageFormat(_) => "Found invalid page number '0'!".to_owned(),
            DatabaseError::PageIndexOutOfBounds => "Page index out of bounds".to_owned(),
        }
    }
}

} // verus!
