//! The page cache: page histories on a segmented, append-only log.

pub mod cache;
pub mod config;
pub mod crash;
pub mod entry;
pub mod files;
pub mod laws;
pub mod layout;
pub mod log;
pub mod materializer;
pub mod meta;
pub mod metrics;
pub mod model;
pub mod pagetable;
pub mod record;
pub mod snapshot;
pub mod steps;

use vstd::prelude::*;

pub use crate::pagecache::cache::{Guard, PageCache};
pub use crate::pagecache::config::{Config, ConfigBuilder};
pub use crate::pagecache::materializer::Materializer;
pub use crate::pagecache::meta::Meta;
pub use crate::pagecache::snapshot::Snapshot;

verus! {

/// The stable identifier of a page.
pub type PageId = u64;

/// A byte offset into the log.
pub type LogId = u64;

/// What the page cache reports when an operation fails.
#[derive(Clone, Copy, Debug, PartialEq, Eq, Structural)]
pub enum Error {
    /// The storage under the log failed for good or is exhausted.
    Io,
    /// What is on disk is not sound: before the last segment of the log
    /// stand bytes that are no record, a fragment of a page cannot be read,
    /// or a snapshot does not fit the log. `at` is the offset of what is not
    /// sound.
    Corruption { at: LogId },
    /// The configuration or the size of a value is not supported.
    Unsupported,
    /// The caller broke a rule of the page cache.
    ReportableBug,
    /// Another writer came first; `head` is the key of the page now.
    CasFailed { head: LogId },
}

} // verus!
