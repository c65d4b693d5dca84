//! A versioned key-value store on a log-structured page cache.
//!
//! Every logical page is the fold of an append-only chain of fragments that
//! are persisted to a segmented log. Blocks of committed mutations sit on
//! top of the page cache and form a chain of versions rooted at a genesis
//! block.

pub mod block;
pub mod bytes;
pub mod codec;
pub mod config;
pub mod context;
pub mod crc;
pub mod database;
pub mod ds;
pub mod hasher;
pub mod iter;
pub mod keymap;
pub mod node;
pub mod pagecache;
pub mod promise;
pub mod tree;

use vstd::prelude::*;
use crate::bytes::copy_bytes;
use crate::keymap::Duplicate;

pub use crate::config::Config;
pub use crate::database::Database;
pub use crate::tree::TreeBlock;

verus! {

/// Identifier of a table.
pub type TableID = usize;

/// Identifier of a block.
pub type BlockID = usize;

/// A key of the store.
pub type Key = Vec<u8>;

/// A value of the store.
pub type Value = Vec<u8>;

/// An index.
pub type Idx = usize;

/// What the store reports when an operation fails.
#[derive(Clone, Copy, Debug, PartialEq, Eq, Structural)]
pub enum Error {
    /// Reading or writing the files of the store failed.
    IOError,
    /// The page cache failed.
    PCError(pagecache::Error),
    /// The block is committed and cannot be changed.
    CommitedState,
}

/// The result of an operation of the store.
pub type IResult<T> = Result<T, Error>;

/// The result of an operation that may find nothing.
pub type DBResult<T> = Result<Option<T>, Error>;

impl Error {
    /// The text that stands for every error.
    pub fn to_text(&self) -> (r: String)
        ensures
            r@ == "error"@,
    {
        "error".to_owned()
    }
}

/// What a block holds for a key: a value, or the note that the key was
/// deleted.
#[derive(Debug)]
pub enum Entry {
    Value { value: Value },
    Deletion,
}

impl View for Entry {
    type V = Option<Seq<u8>>;

    open spec fn view(&self) -> Option<Seq<u8>> {
        match self {
            Entry::Value { value } => Some(value@),
            Entry::Deletion => None,
        }
    }
}

impl Duplicate for Entry {
    fn duplicate(&self) -> (r: Self) {
        match self {
            Entry::Value { value } => Entry::Value { value: copy_bytes(value.as_slice()) },
            Entry::Deletion => Entry::Deletion,
        }
    }
}

} // verus!
