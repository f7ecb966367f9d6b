//! The layout of the pages of a segment.

use vstd::prelude::*;

pub mod pages;

verus! {

/// Why a page could not be used.
#[derive(Debug, Clone, Copy, PartialEq, Eq, Structural)]
pub enum Error {
    /// The page holds what no operation of the engine leaves behind.
    Corrupted,
}

} // verus!
