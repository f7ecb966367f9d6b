//! The kinds of pages.

pub mod freelist;
