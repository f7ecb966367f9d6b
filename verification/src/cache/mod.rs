//! The buffer cache's bookkeeping.

pub mod manager;
