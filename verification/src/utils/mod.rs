//! Building blocks that several parts of the engine share.

pub mod byte_order;
pub mod cache;
