//! What a store works on: its configuration and its page cache.

use vstd::prelude::*;
use crate::config::Config;
use crate::node::{Node, NodeView};
use crate::pagecache;
use crate::pagecache::{LogId, PageId};
use crate::pagecache::cache::PageCache;
use crate::pagecache::steps::{empty_meta, started, CacheView};
use crate::pagecache::config::{
    ConfigBuilder, DEFAULT_CONSOLIDATION_THRESHOLD, DEFAULT_SEGMENT_SIZE,
};
use crate::pagecache::layout::Placed;
use crate::pagecache::model::{empty_table, fold_page};
use crate::pagecache::snapshot::Snapshot;
use crate::{Error, IResult};

verus! {

/// The configuration of a store and the page cache that holds its blocks.
pub struct Context {
    /// The configuration.
    pub config: Config,
    /// The page cache.
    pub pagecache: PageCache<Node>,
}

/// The page `pid` of a page cache, or the error of reading it.
pub open spec fn page_at(v: CacheView, pid: PageId) -> Result<NodeView, Error> {
    if !v.table.chains.contains_key(pid) {
        Err(Error::PCError(pagecache::Error::ReportableBug))
    } else {
        match fold_page::<Node>(v.log, v.table.chains[pid]) {
            Ok(n) => Ok(n),
            Err(lsn) => Err(Error::PCError(pagecache::Error::Corruption { at: lsn })),
        }
    }
}

/// The options of the page cache of a store with the configuration
/// `config`: the defaults, with the directory of the store or, where it has
/// none, as a temporary store.
pub fn cache_options(config: &Config) -> (r: pagecache::config::Config)
    ensures
        r.segment_size == DEFAULT_SEGMENT_SIZE,
        r.page_consolidation_threshold == DEFAULT_CONSOLIDATION_THRESHOLD,
        r.snapshot_after_ops == crate::pagecache::config::DEFAULT_SNAPSHOT_AFTER_OPS,
        r.flush_every_ms == Some(500u64),
        r.temporary == config.path_of() is None,
        config.path_of() is Some ==> r.path@ == config.path_of()->0@,
{
    match &config.inner().path {
        Some(path) => ConfigBuilder::new().path(path.clone()).build(),
        None => ConfigBuilder::new().temporary(true).build(),
    }
}

impl Context {
    /// The model of the page cache.
    pub open spec fn view(&self) -> CacheView {
        self.pagecache@
    }

    /// The invariant of the page cache.
    pub open spec fn wf(&self) -> bool {
        self.pagecache.wf()
    }

    /// The context of an empty store.
    pub fn new(config: Config) -> (r: IResult<Self>)
        ensures
            r is Ok,
            r->Ok_0.wf(),
            r->Ok_0.config == config,
            r->Ok_0@.log == Seq::<Placed>::empty(),
            r->Ok_0@.table == empty_table(),
            r->Ok_0@.meta == empty_meta(),
            r->Ok_0@.seg == DEFAULT_SEGMENT_SIZE,
            r->Ok_0@.threshold == DEFAULT_CONSOLIDATION_THRESHOLD,
    {
        let options = cache_options(&config);
        match PageCache::new(options) {
            Ok(pagecache) => Ok(Context { config, pagecache }),
            Err(e) => Err(Error::PCError(e)),
        }
    }

    /// The context of a store whose directory holds the log `log` and,
    /// where there is one, the snapshot `snapshot`.
    pub fn recover(config: Config, snapshot: Option<&Snapshot>, log: &[u8]) -> (r: IResult<Self>)
        ensures
            match started(
                DEFAULT_SEGMENT_SIZE as int,
                DEFAULT_CONSOLIDATION_THRESHOLD as int,
                match snapshot {
                    Some(s) => Some(s@),
                    None => None,
                },
                log@,
            ) {
                Ok(v) => r is Ok && r->Ok_0.wf() && r->Ok_0@ == v && r->Ok_0.config == config,
                Err(e) => r is Err && r->Err_0 == Error::PCError(e),
            },
    {
        let options = cache_options(&config);
        match PageCache::start(options, snapshot, log) {
            Ok(pagecache) => Ok(Context { config, pagecache }),
            Err(e) => Err(Error::PCError(e)),
        }
    }

    /// Reads the page `pid`: the key of its head and the page.
    pub fn page(&mut self, pid: PageId) -> (r: IResult<(LogId, Node)>)
        requires
            old(self).wf(),
        ensures
            final(self).wf(),
            final(self)@ == old(self)@,
            final(self).config == old(self).config,
            match page_at(old(self)@, pid) {
                Ok(n) => r is Ok && r->Ok_0.1@ == n && r->Ok_0.0 == old(
                    self,
                )@.table.chains[pid].last(),
                Err(e) => r is Err && r->Err_0 == e,
            },
    {
        match self.pagecache.get(pid) {
            Ok((key, node, _)) => Ok((key, node)),
            Err(e) => Err(Error::PCError(e)),
        }
    }
}

} // verus!
