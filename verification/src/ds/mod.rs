//! Data structures of the store.

pub mod stack;
