//! The options of a page cache.

use vstd::prelude::*;
use vstd::bytes::{spec_u64_to_le_bytes, u64_to_le_bytes};
use crate::bytes::{extend_bytes, same_bytes};
use crate::pagecache::Error;

verus! {

/// The size of a segment unless another is asked for: 8 MiB.
pub const DEFAULT_SEGMENT_SIZE: u64 = 8388608;

/// The length at which a chain is rewritten unless another is asked for.
pub const DEFAULT_CONSOLIDATION_THRESHOLD: u64 = 10;

/// The number of operations between two snapshots unless another is asked
/// for.
pub const DEFAULT_SNAPSHOT_AFTER_OPS: u64 = 1000000;

/// The options of a page cache.
#[derive(Debug)]
pub struct Config {
    /// The directory of the store.
    pub path: String,
    /// Whether the directory is deleted when the store is dropped.
    pub temporary: bool,
    /// The bytes of a segment of the log.
    pub segment_size: u64,
    /// The length of a chain at which the next link rewrites the page.
    pub page_consolidation_threshold: u64,
    /// The number of operations between two snapshots.
    pub snapshot_after_ops: u64,
    /// The milliseconds between two flushes in the background, if any.
    pub flush_every_ms: Option<u64>,
}

/// The bytes of the file `conf`: the size of a segment, the threshold of
/// consolidation, the number of operations between two snapshots, and the
/// milliseconds between two flushes behind a tag that says whether there
/// are any.
pub open spec fn conf_bytes(
    segment_size: u64,
    threshold: u64,
    snapshot_after_ops: u64,
    flush_every_ms: Option<u64>,
) -> Seq<u8> {
    spec_u64_to_le_bytes(segment_size) + spec_u64_to_le_bytes(threshold) + spec_u64_to_le_bytes(
        snapshot_after_ops,
    ) + (match flush_every_ms {
        Some(ms) => seq![1u8] + spec_u64_to_le_bytes(ms),
        None => seq![0u8] + spec_u64_to_le_bytes(0),
    })
}

/// The bytes of the file `conf` for the options `c`.
pub open spec fn conf_encoding(c: Config) -> Seq<u8> {
    conf_bytes(
        c.segment_size,
        c.page_consolidation_threshold,
        c.snapshot_after_ops,
        c.flush_every_ms,
    )
}

impl Config {
    /// The bytes of the file `conf`.
    pub fn encode(&self) -> (r: Vec<u8>)
        ensures
            r@ == conf_encoding(*self),
    {
        let mut out: Vec<u8> = Vec::new();
        extend_bytes(&mut out, u64_to_le_bytes(self.segment_size).as_slice());
        extend_bytes(&mut out, u64_to_le_bytes(self.page_consolidation_threshold).as_slice());
        extend_bytes(&mut out, u64_to_le_bytes(self.snapshot_after_ops).as_slice());
        match self.flush_every_ms {
            Some(ms) => {
                out.push(1u8);
                extend_bytes(&mut out, u64_to_le_bytes(ms).as_slice());
            },
            None => {
                out.push(0u8);
                extend_bytes(&mut out, u64_to_le_bytes(0).as_slice());
            },
        }
        proof {
            assert(out@ =~= conf_encoding(*self));
        }
        out
    }

    /// Checks the options against the file `conf` of the directory: a
    /// directory without the file takes any options; one with the file takes
    /// only the options that the file holds.
    pub fn check(&self, stored: Option<&[u8]>) -> (r: Result<(), Error>)
        ensures
            r is Ok <==> (stored is Some ==> stored->0@ == conf_encoding(*self)),
            r is Err ==> r->Err_0 == Error::Unsupported,
    {
        match stored {
            None => Ok(()),
            Some(bytes) => {
                let own = self.encode();
                if same_bytes(own.as_slice(), bytes) {
                    Ok(())
                } else {
                    Err(Error::Unsupported)
                }
            },
        }
    }

    /// A copy of the options.
    pub fn duplicate(&self) -> (r: Config)
        ensures
            r.path@ == self.path@,
            r.temporary == self.temporary,
            r.segment_size == self.segment_size,
            r.page_consolidation_threshold == self.page_consolidation_threshold,
            r.snapshot_after_ops == self.snapshot_after_ops,
            r.flush_every_ms == self.flush_every_ms,
    {
        Config {
            path: self.path.clone(),
            temporary: self.temporary,
            segment_size: self.segment_size,
            page_consolidation_threshold: self.page_consolidation_threshold,
            snapshot_after_ops: self.snapshot_after_ops,
            flush_every_ms: self.flush_every_ms,
        }
    }
}

/// Builds the options of a page cache, beginning with the defaults.
#[derive(Debug)]
pub struct ConfigBuilder {
    config: Config,
}

impl ConfigBuilder {
    /// The options that are built.
    pub closed spec fn view(&self) -> Config {
        self.config
    }

    /// The defaults: an empty path, not temporary, segments of 8 MiB, a
    /// rewrite after 10 links, a snapshot every million operations, a flush
    /// every 500 ms.
    pub fn new() -> (r: ConfigBuilder)
        ensures
            r@.path@ == Seq::<char>::empty(),
            !r@.temporary,
            r@.segment_size == DEFAULT_SEGMENT_SIZE,
            r@.page_consolidation_threshold == DEFAULT_CONSOLIDATION_THRESHOLD,
            r@.snapshot_after_ops == DEFAULT_SNAPSHOT_AFTER_OPS,
            r@.flush_every_ms == Some(500u64),
    {
        ConfigBuilder {
            config: Config {
                path: String::new(),
                temporary: false,
                segment_size: DEFAULT_SEGMENT_SIZE,
                page_consolidation_threshold: DEFAULT_CONSOLIDATION_THRESHOLD,
                snapshot_after_ops: DEFAULT_SNAPSHOT_AFTER_OPS,
                flush_every_ms: Some(500),
            },
        }
    }

    /// Sets the directory of the store.
    pub fn path(self, path: String) -> (r: ConfigBuilder)
        ensures
            r@ == (Config { path, ..self@ }),
    {
        let mut config = self.config;
        config.path = path;
        ConfigBuilder { config }
    }

    /// Sets whether the directory is deleted when the store is dropped.
    pub fn temporary(self, temporary: bool) -> (r: ConfigBuilder)
        ensures
            r@ == (Config { temporary, ..self@ }),
    {
        let mut config = self.config;
        config.temporary = temporary;
        ConfigBuilder { config }
    }

    /// Sets the bytes of a segment of the log.
    pub fn segment_size(self, segment_size: u64) -> (r: ConfigBuilder)
        ensures
            r@ == (Config { segment_size, ..self@ }),
    {
        let mut config = self.config;
        config.segment_size = segment_size;
        ConfigBuilder { config }
    }

    /// Sets the length of a chain at which the next link rewrites the page.
    pub fn page_consolidation_threshold(self, threshold: u64) -> (r: ConfigBuilder)
        ensures
            r@ == (Config { page_consolidation_threshold: threshold, ..self@ }),
    {
        let mut config = self.config;
        config.page_consolidation_threshold = threshold;
        ConfigBuilder { config }
    }

    /// Sets the number of operations between two snapshots.
    pub fn snapshot_after_ops(self, ops: u64) -> (r: ConfigBuilder)
        ensures
            r@ == (Config { snapshot_after_ops: ops, ..self@ }),
    {
        let mut config = self.config;
        config.snapshot_after_ops = ops;
        ConfigBuilder { config }
    }

    /// Sets the milliseconds between two flushes in the background.
    pub fn flush_every_ms(self, every: Option<u64>) -> (r: ConfigBuilder)
        ensures
            r@ == (Config { flush_every_ms: every, ..self@ }),
    {
        let mut config = self.config;
        config.flush_every_ms = every;
        ConfigBuilder { config }
    }

    /// The options.
    pub fn build(self) -> (r: Config)
        ensures
            r == self@,
    {
        self.config
    }
}

} // verus!
