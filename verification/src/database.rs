//! The store: a page cache with the blocks that were committed to it.

use vstd::prelude::*;
use crate::config::Config;
use crate::context::Context;
use crate::node::{Node, NodeView};
use crate::pagecache;
use crate::pagecache::steps::{
    after, allocate_record, can_write, empty_meta, next_pid, reusable, started, write_error,
    CacheView,
};
use crate::pagecache::config::{
    conf_bytes, DEFAULT_CONSOLIDATION_THRESHOLD, DEFAULT_SEGMENT_SIZE,
};
use crate::pagecache::layout::{image_of, log_end, Placed};
use crate::pagecache::model::empty_table;
use crate::pagecache::snapshot::{snapshot_ok, snapshot_table, Snapshot};
use crate::tree::TreeBlock;
use crate::{DBResult, Error, IResult};

verus! {

/// What the directory of a store holds: the options with which the store
/// was made, where they were written; the newest snapshot, where one was
/// written; and the bytes of the log.
#[derive(Debug)]
pub struct Stored {
    pub conf: Option<Vec<u8>>,
    pub snapshot: Option<Snapshot>,
    pub log: Vec<u8>,
}

/// The bytes of the file `conf` of every store: those of the default
/// options of a page cache.
pub open spec fn store_conf() -> Seq<u8> {
    conf_bytes(
        DEFAULT_SEGMENT_SIZE,
        DEFAULT_CONSOLIDATION_THRESHOLD,
        crate::pagecache::config::DEFAULT_SNAPSHOT_AFTER_OPS,
        Some(500u64),
    )
}

/// The store.
pub struct Database {
    /// The configuration of the store.
    pub config: Config,
    /// The page cache of the store.
    pub context: Context,
}

impl Database {
    /// The model of the page cache of the store.
    pub open spec fn view(&self) -> CacheView {
        self.context@
    }

    /// The invariant of the store.
    pub open spec fn wf(&self) -> bool {
        self.context.wf()
    }

    /// The directory of the store, if it has one.
    pub open spec fn path_of(&self) -> Option<String> {
        self.config.path_of()
    }

    /// Opens the store in the directory `path`, which holds `stored`. A
    /// directory that was made with other options is not opened.
    pub fn open(path: String, stored: &Stored) -> (r: IResult<Self>)
        ensures
            stored.conf is Some && stored.conf->0@ != store_conf() ==> r is Err
                && r->Err_0 == Error::PCError(pagecache::Error::Unsupported),
            stored.conf is None || stored.conf->0@ == store_conf() ==> match started(
                DEFAULT_SEGMENT_SIZE as int,
                DEFAULT_CONSOLIDATION_THRESHOLD as int,
                match stored.snapshot {
                    Some(s) => Some(s@),
                    None => None,
                },
                stored.log@,
            ) {
                Ok(v) => r is Ok && r->Ok_0.wf() && r->Ok_0@ == v && r->Ok_0.path_of() is Some
                    && r->Ok_0.path_of()->0@ == path@,
                Err(e) => r is Err && r->Err_0 == Error::PCError(e),
            },
    {
        let config = Config::new(Some(path));
        let options = crate::context::cache_options(&config);
        let conf: Option<&[u8]> = match &stored.conf {
            Some(bytes) => Some(bytes.as_slice()),
            None => None,
        };
        match options.check(conf) {
            Ok(()) => {},
            Err(e) => {
                return Err(Error::PCError(e));
            },
        }
        let context = match Context::recover(
            config.duplicate(),
            stored.snapshot.as_ref(),
            stored.log.as_slice(),
        ) {
            Ok(context) => context,
            Err(e) => {
                return Err(e);
            },
        };
        Ok(Database { config, context })
    }

    /// An empty store with the configuration `config`.
    pub fn new(config: Config) -> (r: IResult<Self>)
        ensures
            r is Ok,
            r->Ok_0.wf(),
            r->Ok_0@.log == Seq::<Placed>::empty(),
            r->Ok_0@.table == empty_table(),
            r->Ok_0@.meta == empty_meta(),
            r->Ok_0.path_of() is Some == config.path_of() is Some,
            config.path_of() is Some ==> r->Ok_0.path_of()->0@ == config.path_of()->0@,
    {
        let context = match Context::new(config.duplicate()) {
            Ok(context) => context,
            Err(e) => {
                return Err(e);
            },
        };
        Ok(Database { config, context })
    }

    /// A new block on top of the committed block with the hash `hash`, if
    /// there is such a block.
    pub fn open_block(&mut self, hash: &crate::hasher::Hash) -> (r: DBResult<TreeBlock>)
        requires
            old(self).wf(),
        ensures
            final(self).wf(),
            final(self).path_of() == old(self).path_of(),
            ({
                let v = old(self)@;
                if !v.meta.blocks.contains_key(hash@) {
                    r is Ok && r->Ok_0 is None && final(self)@ == v
                } else {
                    let prev = Some(v.meta.blocks[hash@]);
                    let anchor = NodeView { prev, hash: None, inner: Map::empty() };
                    let rec = allocate_record::<Node>(v, anchor);
                    if (reusable(v) || v.table.size < usize::MAX) && can_write(v, rec) {
                        &&& r is Ok
                        &&& r->Ok_0 is Some
                        &&& r->Ok_0->0.id == next_pid(v)
                        &&& r->Ok_0->0.hash is None
                        &&& r->Ok_0->0.cookie@ == Map::<Seq<u8>, Option<Seq<u8>>>::empty()
                        &&& final(self)@ == (CacheView {
                            free: if reusable(v) {
                                v.free.drop_first()
                            } else {
                                v.free
                            },
                            ..after(v, rec)
                        })
                    } else {
                        &&& r is Err
                        &&& final(self)@ == v
                        &&& r->Err_0 == Error::PCError(
                            if !(reusable(v) || v.table.size < usize::MAX) {
                                pagecache::Error::Io
                            } else {
                                write_error(v, rec)
                            },
                        )
                    }
                }
            }),
    {
        match self.context.pagecache.meta().get_block(hash.as_slice()) {
            Some(id) => match TreeBlock::new(&mut self.context, Some(id)) {
                Ok(block) => Ok(Some(block)),
                Err(e) => Err(e),
            },
            None => Ok(None),
        }
    }

    /// A new block that follows no other.
    pub fn genesis(&mut self) -> (r: IResult<TreeBlock>)
        requires
            old(self).wf(),
        ensures
            final(self).wf(),
            final(self).path_of() == old(self).path_of(),
            ({
                let v = old(self)@;
                let anchor = NodeView { prev: None, hash: None, inner: Map::empty() };
                let rec = allocate_record::<Node>(v, anchor);
                if (reusable(v) || v.table.size < usize::MAX) && can_write(v, rec) {
                    &&& r is Ok
                    &&& r->Ok_0.id == next_pid(v)
                    &&& r->Ok_0.hash is None
                    &&& r->Ok_0.cookie@ == Map::<Seq<u8>, Option<Seq<u8>>>::empty()
                    &&& final(self)@ == (CacheView {
                        free: if reusable(v) {
                            v.free.drop_first()
                        } else {
                            v.free
                        },
                        ..after(v, rec)
                    })
                } else {
                    &&& r is Err
                    &&& final(self)@ == v
                    &&& r->Err_0 == Error::PCError(
                        if !(reusable(v) || v.table.size < usize::MAX) {
                            pagecache::Error::Io
                        } else {
                            write_error(v, rec)
                        },
                    )
                }
            }),
    {
        TreeBlock::new(&mut self.context, None)
    }

    /// The directory of the store; the empty path for a store without one.
    pub fn path(&self) -> (r: String)
        ensures
            match self.path_of() {
                Some(p) => r@ == p@,
                None => r@ == Seq::<char>::empty(),
            },
    {
        match &self.config.inner().path {
            Some(p) => p.clone(),
            None => String::new(),
        }
    }

    /// What the directory of the store holds once the store is written: the
    /// options, the bytes of the log and a snapshot at its end.
    pub fn stored(&self) -> (r: Stored)
        requires
            self.wf(),
        ensures
            r.conf is Some,
            r.conf->0@ == store_conf(),
            r.log@ == image_of(self@.log, self@.seg),
            r.snapshot is Some,
            snapshot_ok(r.snapshot->0@),
            snapshot_table(r.snapshot->0@) == self@.table,
            r.snapshot->0@.last_lsn == log_end(self@.log, self@.seg),
    {
        let options = crate::context::cache_options(&self.config);
        Stored {
            conf: Some(options.encode()),
            snapshot: Some(self.context.pagecache.snapshot()),
            log: self.context.pagecache.image(),
        }
    }
}

impl Default for Database {
    /// An empty store without a directory.
    fn default() -> (r: Self)
        ensures
            r.wf(),
            r@.log == Seq::<Placed>::empty(),
            r@.table == empty_table(),
            r@.meta == empty_meta(),
            r.path_of() is None,
    {
        let config = Config::default();
        let context = match Context::new(config.duplicate()) {
            Ok(context) => context,
            Err(_) => vstd::pervasive::unreached(),
        };
        Database { config, context }
    }
}

} // verus!
