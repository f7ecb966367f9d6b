//! Acorn: the transactional page store core of an embedded storage engine.

pub mod cache;
pub mod doc_store;
pub mod files;
pub mod format;
pub mod index;
pub mod page_store;
pub mod segment;
pub mod storage;
pub mod utils;
pub mod wal;
