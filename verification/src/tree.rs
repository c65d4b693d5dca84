//! A block of the store: the changes that were made since the block before
//! it, on top of the chain of committed blocks.

use vstd::prelude::*;
use crate::block::{Bound, BoundView, KeyRange};
use crate::bytes::copy_bytes;
use crate::iter::{chain_keys, keys_in, Iter, IterView};
use crate::context::{page_at, Context};
use crate::hasher::{blake3_digest, calc_root, root_input};
use crate::keymap::KeyMap;
use crate::node::{Node, NodeView};
use crate::pagecache;
use crate::pagecache::{LogId, PageId};
use crate::pagecache::steps::{
    after, allocate_record, can_write, link_record, meta_record, next_pid, reusable, write_error,
    CacheView,
};
use crate::pagecache::layout::log_end;
use crate::pagecache::log::lemma_appended;
use crate::pagecache::model::{fold_page, lemma_fold_page_appended};
use crate::pagecache::meta::{applied, MetaDiffView};

use crate::{DBResult, Entry, Error, IResult, Key, Value};

verus! {

/// A block of the store.
pub struct TreeBlock {
    /// The hash of the block, once it is committed.
    pub hash: Option<crate::hasher::Hash>,
    /// The page of the block.
    pub id: PageId,
    /// The changes that are not committed yet.
    pub cookie: KeyMap<Entry>,
}

/// What a lookup in the committed blocks finds for `key`, beginning at the
/// page `pid` and going back through at most `fuel` blocks: the value of
/// the newest block that has the key, nothing where that block deleted it
/// or no block has it, or the error of reading a page.
pub open spec fn chain_lookup(v: CacheView, pid: PageId, key: Seq<u8>, fuel: nat) -> Result<
    Option<Seq<u8>>,
    Error,
>
    decreases fuel,
{
    if fuel == 0 {
        Err(Error::PCError(pagecache::Error::ReportableBug))
    } else {
        match page_at(v, pid) {
            Err(e) => Err(e),
            Ok(node) => if node.inner.contains_key(key) {
                Ok(node.inner[key])
            } else {
                match node.prev {
                    Some(p) => chain_lookup(v, p, key, (fuel - 1) as nat),
                    None => Ok(None),
                }
            },
        }
    }
}

/// What a block with the uncommitted changes `cookie` at the page `id`
/// holds for `key`: what the changes say, else what the committed blocks
/// hold.
pub open spec fn block_lookup(
    cookie: Map<Seq<u8>, Option<Seq<u8>>>,
    v: CacheView,
    id: PageId,
    key: Seq<u8>,
) -> Result<Option<Seq<u8>>, Error> {
    if cookie.contains_key(key) {
        Ok(cookie[key])
    } else {
        chain_lookup(v, id, key, v.table.size as nat)
    }
}

/// The views of the values in a result.
pub open spec fn value_view(r: DBResult<Value>) -> Result<Option<Seq<u8>>, Error> {
    match r {
        Ok(Some(v)) => Ok(Some(v@)),
        Ok(None) => Ok(None),
        Err(e) => Err(e),
    }
}

/// The hash of the block before the block with the fragment `node`, or the
/// error of reading its page.
pub open spec fn prev_hash(v: CacheView, node: NodeView) -> Result<Option<Seq<u8>>, Error> {
    match node.prev {
        None => Ok(None),
        Some(p) => match page_at(v, p) {
            Ok(n) => Ok(n.hash),
            Err(e) => Err(e),
        },
    }
}

/// The model of the page cache after a commit, and what the commit returns:
/// the fragment of the block, with its hash and its changes, is linked to
/// the page of the block; the hash is entered into the metadata page, unless
/// it is there already; and the log is flushed. A block that is committed
/// already changes nothing.
pub open spec fn commit_outcome(
    v: CacheView,
    hash: Option<Seq<u8>>,
    id: PageId,
    cookie: Map<Seq<u8>, Option<Seq<u8>>>,
    ks: Seq<Seq<u8>>,
    vs: Seq<Option<Seq<u8>>>,
) -> (CacheView, Result<Seq<u8>, Error>) {
    match hash {
        Some(h) => (v, Ok(h)),
        None => match page_at(v, id) {
            Err(e) => (v, Err(e)),
            Ok(node) => match prev_hash(v, node) {
                Err(e) => (v, Err(e)),
                Ok(ph) => {
                    let digest = blake3_digest(root_input(ph, ks, vs));
                    let new = NodeView { prev: node.prev, hash: Some(digest), inner: cookie };
                    let rec = link_record::<Node>(v, id, new);
                    if !can_write(v, rec) {
                        (v, Err(Error::PCError(write_error(v, rec))))
                    } else {
                        let v1 = after(v, rec);
                        let diff = MetaDiffView::SetBlock { name: digest, pid: id };
                        let mrec = meta_record(diff);
                        if v1.meta.blocks.contains_key(digest) {
                            (
                                CacheView { stable: log_end(v1.log, v1.seg) as LogId, ..v1 },
                                Ok(digest),
                            )
                        } else if !can_write(v1, mrec) {
                            (v1, Err(Error::PCError(write_error(v1, mrec))))
                        } else {
                            let v2 = CacheView {
                                meta: applied(v1.meta, diff),
                                ..after(v1, mrec)
                            };
                            (
                                CacheView { stable: log_end(v2.log, v2.seg) as LogId, ..v2 },
                                Ok(digest),
                            )
                        }
                    }
                },
            },
        },
    }
}

impl TreeBlock {
    /// A new block on a new page, which follows the block at the page
    /// `prev`.
    pub fn new(context: &mut Context, prev: Option<PageId>) -> (r: IResult<Self>)
        requires
            old(context).wf(),
        ensures
            final(context).wf(),
            final(context).config == old(context).config,
            ({
                let v = old(context)@;
                let anchor = NodeView { prev, hash: None, inner: Map::empty() };
                let rec = allocate_record::<Node>(v, anchor);
                if (reusable(v) || v.table.size < usize::MAX) && can_write(v, rec) {
                    &&& r is Ok
                    &&& r->Ok_0.id == next_pid(v)
                    &&& r->Ok_0.hash is None
                    &&& r->Ok_0.cookie@ == Map::<Seq<u8>, Option<Seq<u8>>>::empty()
                    &&& final(context)@ == (CacheView {
                        free: if reusable(v) {
                            v.free.drop_first()
                        } else {
                            v.free
                        },
                        ..after(v, rec)
                    })
                } else {
                    &&& r is Err
                    &&& final(context)@ == v
                    &&& r->Err_0 == Error::PCError(
                        if !(reusable(v) || v.table.size < usize::MAX) {
                            pagecache::Error::Io
                        } else {
                            write_error(v, rec)
                        },
                    )
                }
            }),
    {
        match context.pagecache.allocate(Node::new(prev)) {
            Ok((id, _)) => Ok(TreeBlock { hash: None, id, cookie: KeyMap::new() }),
            Err(e) => Err(Error::PCError(e)),
        }
    }

    /// The block before this one, if there is one: a block without changes
    /// at the page before, with the hash of this block's page.
    pub fn prev(&self, context: &mut Context) -> (r: DBResult<Self>)
        requires
            old(context).wf(),
        ensures
            final(context).wf(),
            final(context)@ == old(context)@,
            final(context).config == old(context).config,
            match page_at(old(context)@, self.id) {
                Ok(node) => match node.prev {
                    Some(p) => r is Ok && r->Ok_0 is Some && r->Ok_0->0.id == p && (match r->Ok_0->0
                        .hash {
                        Some(h) => Some(h@),
                        None => None,
                    }) == node.hash && r->Ok_0->0.cookie@ == Map::<
                        Seq<u8>,
                        Option<Seq<u8>>,
                    >::empty(),
                    None => r is Ok && r->Ok_0 is None,
                },
                Err(e) => if e == Error::PCError(pagecache::Error::ReportableBug) {
                    r is Ok && r->Ok_0 is None
                } else {
                    r is Err && r->Err_0 == e
                },
            },
    {
        match context.page(self.id) {
            Ok((_, node)) => match node.prev {
                Some(id) => Ok(Some(TreeBlock { hash: node.hash, id, cookie: KeyMap::new() })),
                None => Ok(None),
            },
            Err(Error::PCError(pagecache::Error::ReportableBug)) => Ok(None),
            Err(e) => Err(e),
        }
    }

    /// The value of `key` in the block.
    pub fn get(&self, context: &mut Context, key: &[u8]) -> (r: DBResult<Value>)
        requires
            old(context).wf(),
        ensures
            final(context).wf(),
            final(context)@ == old(context)@,
            final(context).config == old(context).config,
            value_view(r) == block_lookup(self.cookie@, old(context)@, self.id, key@),
    {
        self.get_inner(context, key)
    }

    /// The value of `key` in the block: what the uncommitted changes say,
    /// else what the newest committed block that has the key says.
    pub fn get_inner(&self, context: &mut Context, key: &[u8]) -> (r: DBResult<Value>)
        requires
            old(context).wf(),
        ensures
            final(context).wf(),
            final(context)@ == old(context)@,
            final(context).config == old(context).config,
            value_view(r) == block_lookup(self.cookie@, old(context)@, self.id, key@),
    {
        match self.cookie.get(key) {
            Some(Entry::Value { value }) => {
                return Ok(Some(copy_bytes(value.as_slice())));
            },
            Some(Entry::Deletion) => {
                return Ok(None);
            },
            None => {},
        }
        let ghost v = context@;
        let mut fuel: u64 = context.pagecache.max_pid();
        let mut pid = self.id;
        while fuel > 0
            invariant
                context.wf(),
                context@ == v,
                v == old(context)@,
                !self.cookie@.contains_key(key@),
                context.config == old(context).config,
                chain_lookup(v, self.id, key@, v.table.size as nat) == chain_lookup(
                    v,
                    pid,
                    key@,
                    fuel as nat,
                ),
            decreases fuel,
        {
            let (_, node) = match context.page(pid) {
                Ok(found) => found,
                Err(e) => {
                    return Err(e);
                },
            };
            match node.inner.get(key) {
                Some(Entry::Value { value }) => {
                    return Ok(Some(copy_bytes(value.as_slice())));
                },
                Some(Entry::Deletion) => {
                    return Ok(None);
                },
                None => {},
            }
            match node.prev {
                Some(p) => {
                    pid = p;
                },
                None => {
                    return Ok(None);
                },
            }
            fuel -= 1;
        }
        Err(Error::PCError(pagecache::Error::ReportableBug))
    }

    /// The hash of the block: the hash with which it was committed, or the
    /// hash that its changes have on top of the block before it.
    pub fn hash(&self, context: &mut Context) -> (r: IResult<crate::hasher::Hash>)
        requires
            old(context).wf(),
        ensures
            final(context).wf(),
            final(context)@ == old(context)@,
            final(context).config == old(context).config,
            match self.hash {
                Some(h) => r is Ok && r->Ok_0 == h,
                None => match page_at(old(context)@, self.id) {
                    Err(e) => r is Err && r->Err_0 == e,
                    Ok(node) => match prev_hash(old(context)@, node) {
                        Err(e) => r is Err && r->Err_0 == e,
                        Ok(ph) => r is Ok && r->Ok_0@ == blake3_digest(
                            root_input(ph, self.cookie.keys(), self.cookie.values()),
                        ),
                    },
                },
            },
    {
        match self.hash {
            Some(h) => {
                return Ok(h);
            },
            None => {},
        }
        let (_, node) = match context.page(self.id) {
            Ok(found) => found,
            Err(e) => {
                return Err(e);
            },
        };
        let before: Option<crate::hasher::Hash> = match node.prev {
            Some(p) => match context.page(p) {
                Ok((_, n)) => n.hash,
                Err(e) => {
                    return Err(e);
                },
            },
            None => None,
        };
        Ok(calc_root(before.as_ref(), &self.cookie))
    }

    /// Commits the block: links its changes to its page, enters its hash
    /// into the metadata page and flushes the log. Returns the hash.
    pub fn commit(self, context: &mut Context) -> (r: IResult<crate::hasher::Hash>)
        requires
            old(context).wf(),
        ensures
            final(context).wf(),
            final(context).config == old(context).config,
            ({
                let out = commit_outcome(
                    old(context)@,
                    match self.hash {
                        Some(h) => Some(h@),
                        None => None,
                    },
                    self.id,
                    self.cookie@,
                    self.cookie.keys(),
                    self.cookie.values(),
                );
                &&& final(context)@ == out.0
                &&& match out.1 {
                    Ok(h) => r is Ok && r->Ok_0@ == h,
                    Err(e) => r is Err && r->Err_0 == e,
                }
            }),
    {
        match self.hash {
            Some(h) => {
                return Ok(h);
            },
            None => {},
        }
        let id = self.id;
        let (key, node) = match context.page(id) {
            Ok(found) => found,
            Err(e) => {
                return Err(e);
            },
        };
        let before: Option<crate::hasher::Hash> = match node.prev {
            Some(p) => match context.page(p) {
                Ok((_, n)) => n.hash,
                Err(e) => {
                    return Err(e);
                },
            },
            None => None,
        };
        let hash = calc_root(before.as_ref(), &self.cookie);
        let fragment = Node { prev: node.prev, hash: Some(hash), inner: self.cookie };
        match context.pagecache.link(id, key, fragment) {
            Ok(_) => {},
            Err(e) => {
                return Err(Error::PCError(e));
            },
        }
        match context.pagecache.cas_block_in_meta(hash.as_slice(), None, Some(id)) {
            Ok(_) => {},
            Err(e) => {
                return Err(Error::PCError(e));
            },
        }
        context.pagecache.flush();
        Ok(hash)
    }

    /// Whether the block is committed.
    pub fn commited(&self) -> (r: bool)
        ensures
            r == self.hash is Some,
    {
        self.hash.is_some()
    }

    /// Sets the value of `key` and returns the value that the changes of
    /// the block held for it.
    pub fn insert(&mut self, key: Key, value: Value) -> (r: DBResult<Value>)
        ensures
            final(self).id == old(self).id,
            final(self).hash == old(self).hash,
            old(self).hash is Some ==> r == Err::<Option<Value>, Error>(Error::CommitedState)
                && final(self).cookie@ == old(self).cookie@,
            old(self).hash is None ==> final(self).cookie@ == old(self).cookie@.insert(
                key@,
                Some(value@),
            ) && value_view(r) == Ok::<Option<Seq<u8>>, Error>(
                if old(self).cookie@.contains_key(key@) {
                    old(self).cookie@[key@]
                } else {
                    None
                },
            ),
    {
        self.insert_inner(key, Entry::Value { value })
    }

    /// Deletes `key` and returns the value that the changes of the block
    /// held for it.
    pub fn delete(&mut self, key: Key) -> (r: DBResult<Value>)
        ensures
            final(self).id == old(self).id,
            final(self).hash == old(self).hash,
            old(self).hash is Some ==> r == Err::<Option<Value>, Error>(Error::CommitedState)
                && final(self).cookie@ == old(self).cookie@,
            old(self).hash is None ==> final(self).cookie@ == old(self).cookie@.insert(key@, None)
                && value_view(r) == Ok::<Option<Seq<u8>>, Error>(
                if old(self).cookie@.contains_key(key@) {
                    old(self).cookie@[key@]
                } else {
                    None
                },
            ),
    {
        self.insert_inner(key, Entry::Deletion)
    }

    /// Enters a change of `key` into the block, which must not be
    /// committed, and returns the value that the changes held for it.
    pub fn insert_inner(&mut self, key: Key, entry: Entry) -> (r: DBResult<Value>)
        ensures
            final(self).id == old(self).id,
            final(self).hash == old(self).hash,
            old(self).hash is Some ==> r == Err::<Option<Value>, Error>(Error::CommitedState)
                && final(self).cookie@ == old(self).cookie@,
            old(self).hash is None ==> final(self).cookie@ == old(self).cookie@.insert(
                key@,
                entry@,
            ) && value_view(r) == Ok::<Option<Seq<u8>>, Error>(
                if old(self).cookie@.contains_key(key@) {
                    old(self).cookie@[key@]
                } else {
                    None
                },
            ),
    {
        if self.commited() {
            return Err(Error::CommitedState);
        }
        match self.cookie.insert(key, entry) {
            Some(Entry::Deletion) => Ok(None),
            Some(Entry::Value { value }) => Ok(Some(value)),
            None => Ok(None),
        }
    }
}

/// The least byte string above all byte strings that begin with `key`:
/// `key` without its last bytes `0xff` and with the byte before them raised
/// by one. There is none where `key` holds no other byte.
pub open spec fn prefix_upper(key: Seq<u8>) -> Option<Seq<u8>>
    decreases key.len(),
{
    if key.len() == 0 {
        None
    } else if key.last() < 255 {
        Some(key.drop_last().push((key.last() + 1) as u8))
    } else {
        prefix_upper(key.drop_last())
    }
}

/// The range of the keys that begin with `key`: from `key` up to the least
/// byte string above all of them, or without an upper end where there is
/// none.
pub fn prefix_range(key: &Key) -> (r: KeyRange)
    ensures
        r.lo@ == BoundView::Included(key@),
        r.hi@ == (match prefix_upper(key@) {
            Some(u) => BoundView::Excluded(u),
            None => BoundView::Unbounded,
        }),
{
    let mut upper = copy_bytes(key.as_slice());
    while upper.len() > 0
        invariant
            prefix_upper(key@) == prefix_upper(upper@),
        decreases upper.len(),
    {
        let ghost before = upper@;
        let last = upper[upper.len() - 1];
        upper.pop();
        proof {
            assert(upper@ =~= before.drop_last());
        }
        if last < 255 {
            upper.push(last + 1);
            return KeyRange {
                lo: Bound::Included(copy_bytes(key.as_slice())),
                hi: Bound::Excluded(upper),
            };
        }
    }
    KeyRange { lo: Bound::Included(copy_bytes(key.as_slice())), hi: Bound::Unbounded }
}

impl TreeBlock {
    /// An iterator over all keys of the block.
    pub fn iter(&self, context: &mut Context) -> (r: IResult<Iter>)
        requires
            old(context).wf(),
        ensures
            final(context).wf(),
            final(context)@ == old(context)@,
            final(context).config == old(context).config,
            match chain_keys(
                old(context)@,
                self.id,
                BoundView::Unbounded,
                BoundView::Unbounded,
                old(context)@.table.size as nat,
            ) {
                Ok(m) => r is Ok && r->Ok_0@ == (IterView {
                    items: keys_in(
                        self.cookie.keys(),
                        BoundView::Unbounded,
                        BoundView::Unbounded,
                    ).add(m),
                    prev: None,
                    lo: BoundView::Unbounded,
                    hi: BoundView::Unbounded,
                }),
                Err(e) => r is Err && r->Err_0 == e,
            },
    {
        self.range(context, KeyRange::full())
    }

    /// An iterator over the keys of the block that begin with `key`.
    pub fn scan_prefix(&self, context: &mut Context, key: &Key) -> (r: IResult<Iter>)
        requires
            old(context).wf(),
        ensures
            final(context).wf(),
            final(context)@ == old(context)@,
            final(context).config == old(context).config,
            ({
                let lo = BoundView::Included(key@);
                let hi = match prefix_upper(key@) {
                    Some(u) => BoundView::Excluded(u),
                    None => BoundView::Unbounded,
                };
                match chain_keys(old(context)@, self.id, lo, hi, old(context)@.table.size as nat) {
                    Ok(m) => r is Ok && r->Ok_0@ == (IterView {
                        items: keys_in(self.cookie.keys(), lo, hi).add(m),
                        prev: None,
                        lo,
                        hi,
                    }),
                    Err(e) => r is Err && r->Err_0 == e,
                }
            }),
    {
        self.range(context, prefix_range(key))
    }

    /// An iterator over the keys of the block in `range`.
    pub fn range(&self, context: &mut Context, range: KeyRange) -> (r: IResult<Iter>)
        requires
            old(context).wf(),
        ensures
            final(context).wf(),
            final(context)@ == old(context)@,
            final(context).config == old(context).config,
            match chain_keys(
                old(context)@,
                self.id,
                range.lo@,
                range.hi@,
                old(context)@.table.size as nat,
            ) {
                Ok(m) => r is Ok && r->Ok_0@ == (IterView {
                    items: keys_in(self.cookie.keys(), range.lo@, range.hi@).add(m),
                    prev: None,
                    lo: range.lo@,
                    hi: range.hi@,
                }),
                Err(e) => r is Err && r->Err_0 == e,
            },
    {
        Iter::new(self, context, range)
    }
}

/// What is committed is read back: after a commit the page of the block
/// holds every change of the block, the metadata page holds the hash of the
/// block, and a lookup that begins at the page finds for every changed key
/// what the change says.
pub proof fn law_commit_read_back(
    v: CacheView,
    id: PageId,
    cookie: Map<Seq<u8>, Option<Seq<u8>>>,
    ks: Seq<Seq<u8>>,
    vs: Seq<Option<Seq<u8>>>,
    key: Seq<u8>,
    fuel: nat,
)
    requires
        crate::pagecache::laws::view_ok(v),
        commit_outcome(v, None, id, cookie, ks, vs).1 is Ok,
        cookie.contains_key(key),
        fuel > 0,
        ({
            let node = page_at(v, id)->Ok_0;
            let digest = blake3_digest(root_input(prev_hash(v, node)->Ok_0, ks, vs));
            let fragment = NodeView { prev: node.prev, hash: Some(digest), inner: cookie };
            &&& crate::node::node_encodable(fragment)
            &&& crate::node::node_encodable(crate::node::node_merged(node, fragment))
        }),
    ensures
        ({
            let out = commit_outcome(v, None, id, cookie, ks, vs);
            &&& out.0.meta.blocks.contains_key(out.1->Ok_0)
            &&& page_at(out.0, id) is Ok
            &&& page_at(out.0, id)->Ok_0.hash == Some(out.1->Ok_0)
            &&& page_at(out.0, id)->Ok_0.inner == page_at(v, id)->Ok_0.inner.union_prefer_right(
                cookie,
            )
            &&& chain_lookup(out.0, id, key, fuel) == Ok::<Option<Seq<u8>>, Error>(cookie[key])
        }),
{
    let node = page_at(v, id)->Ok_0;
    let digest = blake3_digest(root_input(prev_hash(v, node)->Ok_0, ks, vs));
    let fragment = NodeView { prev: node.prev, hash: Some(digest), inner: cookie };
    let rec = link_record::<Node>(v, id, fragment);
    let chain = v.table.chains[id];
    let v1 = after(v, rec);
    crate::pagecache::laws::law_link_merges::<Node>(v, id, chain.last(), fragment);
    let chain1 = v1.table.chains[id];
    assert(fold_page::<Node>(v1.log, chain1) == Ok::<NodeView, LogId>(
        crate::node::node_merged(node, fragment),
    ));
    let diff = MetaDiffView::SetBlock { name: digest, pid: id };
    let mrec = meta_record(diff);
    if !v1.meta.blocks.contains_key(digest) {
        // the change of the metadata page leaves the chains as they are
        let v2 = after(v1, mrec);
        lemma_appended(v.log, rec, v.seg);
        crate::pagecache::layout::lemma_log_end(v1.log, v1.seg);
        crate::pagecache::model::lemma_table_ok_later(
            v.table,
            log_end(v.log, v.seg),
            crate::pagecache::steps::added_entry(v.log, rec, v.seg).lsn as int,
        );
        crate::pagecache::model::lemma_apply_ok(
            v.table,
            crate::pagecache::steps::added_entry(v.log, rec, v.seg),
            log_end(v1.log, v1.seg),
        );
        assert(v2.table.chains == v1.table.chains);
        assert forall|i: int| 0 <= i < chain1.len() implies (#[trigger] chain1[i]) < log_end(
            v1.log,
            v1.seg,
        ) by {
            assert(v1.table.chains[id][i] < log_end(v1.log, v1.seg));
        }
        lemma_fold_page_appended::<Node>(v1.log, mrec, v1.seg, chain1);
    }
}

} // verus!
