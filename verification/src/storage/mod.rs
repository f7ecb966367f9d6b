//! Plain byte stores.

pub mod file;
