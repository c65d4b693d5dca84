//! The model of a page cache, and what its operations make of it.

use vstd::prelude::*;
use crate::pagecache::{Error, LogId, PageId};
use crate::pagecache::layout::{log_end, need_of, Placed};
use crate::pagecache::log::{appended, can_append, opened, record_at};
use crate::pagecache::materializer::Materializer;
use crate::pagecache::meta::{diff_encoding, MetaDiffView, MetaView};
use crate::pagecache::model::{
    apply, count_below, empty_table, fold_meta, fold_page, frag_at, replay, table_sound, Table,
};
use crate::pagecache::record::{RecordKind, RecordView};
use crate::pagecache::snapshot::{snapshot_ok, snapshot_table, SnapshotView};

verus! {

/// The metadata of a store without blocks and buckets.
pub open spec fn empty_meta() -> MetaView {
    MetaView { blocks: Map::empty(), bucket: Map::empty() }
}

/// The bytes that the records at the offsets of `chain` take in the log.
pub open spec fn chain_bytes(log: Seq<Placed>, chain: Seq<LogId>) -> int
    decreases chain.len(),
{
    if chain.len() == 0 {
        0
    } else {
        chain_bytes(log, chain.drop_last()) + (match record_at(log, chain.last()) {
            Some(r) => need_of(r),
            None => 0,
        })
    }
}

/// The mathematical model of a page cache.
pub struct CacheView {
    /// The entries of the log.
    pub log: Seq<Placed>,
    /// The size of a segment.
    pub seg: int,
    /// The offset up to which the log is known to be on disk.
    pub stable: LogId,
    /// The length of a chain at which the next link rewrites the page.
    pub threshold: int,
    /// The page table.
    pub table: Table,
    /// The page table with which the cache was started.
    pub base: Table,
    /// The number of entries of the log that `base` accounts for.
    pub from: int,
    /// The freed pages, each with the epoch in which it was freed, the one
    /// freed first in front.
    pub free: Seq<(PageId, u64)>,
    /// The current epoch.
    pub epoch: u64,
    /// The epochs of the guards that are held.
    pub pins: Seq<u64>,
    /// The metadata page.
    pub meta: MetaView,
    /// The number of changes since the last snapshot, up to `u64::MAX`.
    pub ops: u64,
    /// Whether the cache was poisoned: writing the log failed for good, and
    /// every change fails until the store is opened again.
    pub poisoned: bool,
}

/// Where the fragments of a chain are read one by one and the first offset
/// without a fragment is at place `j`, the page is that offset's error.
pub proof fn lemma_fold_page_err<T: Materializer>(log: Seq<Placed>, chain: Seq<LogId>, j: int)
    requires
        0 <= j < chain.len(),
        frag_at::<T>(log, chain[j]) is None,
        forall|i: int| 0 <= i < j ==> frag_at::<T>(log, #[trigger] chain[i]) is Some,
    ensures
        fold_page::<T>(log, chain) == Err::<T::V, LogId>(chain[j]),
    decreases chain.len(),
{
    if chain.len() == 1 {
    } else if j == chain.len() - 1 {
        lemma_fold_page_some::<T>(log, chain.drop_last());
    } else {
        assert(chain.drop_last()[j] == chain[j]);
        assert forall|i: int| 0 <= i < j implies frag_at::<T>(
            log,
            #[trigger] chain.drop_last()[i],
        ) is Some by {
            assert(chain.drop_last()[i] == chain[i]);
        }
        lemma_fold_page_err::<T>(log, chain.drop_last(), j);
    }
}

/// Where every offset of a chain holds a fragment, the chain stands for a
/// page.
pub proof fn lemma_fold_page_some<T: Materializer>(log: Seq<Placed>, chain: Seq<LogId>)
    requires
        chain.len() > 0,
        forall|i: int| 0 <= i < chain.len() ==> frag_at::<T>(log, #[trigger] chain[i]) is Some,
    ensures
        fold_page::<T>(log, chain) is Ok,
    decreases chain.len(),
{
    if chain.len() > 1 {
        assert forall|i: int| 0 <= i < chain.drop_last().len() implies frag_at::<T>(
            log,
            #[trigger] chain.drop_last()[i],
        ) is Some by {
            assert(chain.drop_last()[i] == chain[i]);
        }
        lemma_fold_page_some::<T>(log, chain.drop_last());
        assert(chain.last() == chain[chain.len() - 1]);
    } else {
        assert(chain[0] == chain[0]);
    }
}

/// `x`, or `u64::MAX` where `x` is more.
pub open spec fn saturated(x: int) -> u64 {
    if x > u64::MAX {
        u64::MAX
    } else if x < 0 {
        0
    } else {
        x as u64
    }
}

/// The error of reading the page `pid`: the page is not live, or an offset
/// of its chain holds no fragment.
pub open spec fn get_error<T: Materializer>(v: CacheView, pid: PageId) -> Error {
    if !v.table.chains.contains_key(pid) {
        Error::ReportableBug
    } else {
        Error::Corruption { at: fold_page::<T>(v.log, v.table.chains[pid])->Err_0 }
    }
}

/// The entry that the log holds last after `r` was added.
pub open spec fn added_entry(log: Seq<Placed>, r: RecordView, seg: int) -> Placed {
    Placed { lsn: appended(log, r, seg).last().lsn, rec: r }
}

/// The number of changes after one more, up to `u64::MAX`.
pub open spec fn counted(n: u64) -> u64 {
    if n == u64::MAX {
        n
    } else {
        (n + 1) as u64
    }
}

/// The model after the record `rec` was written and the page table was
/// changed as it says.
pub open spec fn after(v: CacheView, rec: RecordView) -> CacheView {
    CacheView {
        log: appended(v.log, rec, v.seg),
        table: apply(v.table, added_entry(v.log, rec, v.seg)),
        ops: counted(v.ops),
        ..v
    }
}

/// Whether the record `rec` can be written: the cache is not poisoned, and
/// the log takes the record.
pub open spec fn can_write(v: CacheView, rec: RecordView) -> bool {
    !v.poisoned && can_append(v.log, rec, v.seg)
}

/// The error of an operation that cannot write its record `rec`.
pub open spec fn write_error(v: CacheView, rec: RecordView) -> Error {
    if v.poisoned {
        Error::Io
    } else {
        append_error(rec, v.seg)
    }
}

/// Whether the page that was freed first can be given out again: every
/// guard that is held was taken after the page was freed.
pub open spec fn reusable(v: CacheView) -> bool {
    v.free.len() > 0 && forall|i: int| 0 <= i < v.pins.len() ==> v.free[0].1 < #[trigger] v.pins[i]
}

/// The identifier that the next allocation gives out: that of the page
/// freed first, where it can be given out again; else the first that was
/// never in use.
pub open spec fn next_pid(v: CacheView) -> PageId {
    if reusable(v) {
        v.free[0].0
    } else {
        v.table.size as PageId
    }
}

/// The record that an allocation with the anchor `anchor` writes.
pub open spec fn allocate_record<T: Materializer>(v: CacheView, anchor: T::V) -> RecordView {
    RecordView { kind: RecordKind::Allocate, pid: next_pid(v), payload: T::encoding(anchor) }
}

/// The error of an operation that cannot write its record.
pub open spec fn append_error(r: RecordView, seg: int) -> Error {
    if crate::pagecache::layout::fits(r, seg) {
        Error::Io
    } else {
        Error::Unsupported
    }
}

/// The state of a page.
#[derive(Clone, Copy, Debug, PartialEq, Eq, Structural)]
pub enum PageState {
    /// The page was allocated and has its first anchor alone.
    Allocated,
    /// The page has an anchor and so many links behind it.
    Chained(usize),
    /// The page was replaced and has the new anchor alone.
    Replaced,
    /// No page has the identifier.
    Freed,
}

/// The state of the page `pid`.
pub open spec fn state_of(v: CacheView, pid: PageId) -> PageState {
    if !v.table.chains.contains_key(pid) {
        PageState::Freed
    } else if v.table.chains[pid].len() > 1 {
        PageState::Chained((v.table.chains[pid].len() - 1) as usize)
    } else if record_at(v.log, v.table.chains[pid][0])->0.kind == RecordKind::Allocate {
        PageState::Allocated
    } else {
        PageState::Replaced
    }
}

/// The error of a change of the page `pid` that names the key `key`: the
/// page is not live, or its head is another.
pub open spec fn cas_error(v: CacheView, pid: PageId, key: LogId) -> Option<Error> {
    if !v.table.chains.contains_key(pid) {
        Some(Error::ReportableBug)
    } else if v.table.chains[pid].last() != key {
        Some(Error::CasFailed { head: v.table.chains[pid].last() })
    } else {
        None
    }
}

/// The record that a replacement of the page `pid` by `anchor` writes.
pub open spec fn replace_record<T: Materializer>(pid: PageId, anchor: T::V) -> RecordView {
    RecordView { kind: RecordKind::Replace, pid, payload: T::encoding(anchor) }
}

/// Whether the chain of the page `pid` has as many links as the threshold
/// allows, so that the next link rewrites the page.
pub open spec fn promoted(v: CacheView, pid: PageId) -> bool {
    v.table.chains[pid].len() > v.threshold
}

/// The record that a link of `frag` to the page `pid` writes: the link, or,
/// where the chain is rewritten, the page with `frag` merged into it.
pub open spec fn link_record<T: Materializer>(v: CacheView, pid: PageId, frag: T::V) -> RecordView {
    if promoted(v, pid) {
        replace_record::<T>(
            pid,
            T::merged(fold_page::<T>(v.log, v.table.chains[pid])->Ok_0, frag),
        )
    } else {
        RecordView { kind: RecordKind::Link, pid, payload: T::encoding(frag) }
    }
}

/// The error of a link of `frag` to the page `pid`, if the link fails.
pub open spec fn link_error<T: Materializer>(
    v: CacheView,
    pid: PageId,
    key: LogId,
    frag: T::V,
) -> Error {
    match cas_error(v, pid, key) {
        Some(e) => e,
        None => if promoted(v, pid) && fold_page::<T>(v.log, v.table.chains[pid]) is Err {
            Error::Corruption { at: fold_page::<T>(v.log, v.table.chains[pid])->Err_0 }
        } else {
            write_error(v, link_record::<T>(v, pid, frag))
        },
    }
}

/// The record that the release of the page `pid` writes.
pub open spec fn free_record(pid: PageId) -> RecordView {
    RecordView { kind: RecordKind::Free, pid, payload: Seq::empty() }
}

/// The record that a change of the metadata page writes.
pub open spec fn meta_record(diff: MetaDiffView) -> RecordView {
    RecordView { kind: RecordKind::Meta, pid: 0, payload: diff_encoding(diff) }
}

/// The number of offsets of `chain` that lie in the segment `k`.
pub open spec fn count_in(chain: Seq<LogId>, k: int, seg: int) -> int
    decreases chain.len(),
{
    if chain.len() == 0 {
        0
    } else {
        count_in(chain.drop_last(), k, seg) + if chain.last() as int / seg == k {
            1int
        } else {
            0int
        }
    }
}

/// The number of offsets in the segment `k` that the chains of the live
/// pages below `n` name.
pub open spec fn count_chains(chains: Map<PageId, Seq<LogId>>, k: int, seg: int, n: int) -> int
    decreases n,
{
    if n <= 1 {
        0
    } else {
        count_chains(chains, k, seg, n - 1) + if chains.contains_key((n - 1) as PageId) {
            count_in(chains[(n - 1) as PageId], k, seg)
        } else {
            0
        }
    }
}

/// The reference count of the segment `k`: the number of offsets in it that
/// the page table names, in the chains of the live pages and in that of the
/// metadata page.
pub open spec fn reference_count(t: Table, k: int, seg: int) -> int {
    count_chains(t.chains, k, seg, t.size) + count_in(t.meta, k, seg)
}

/// A chain has no offset in a segment exactly if it counts none there.
pub proof fn lemma_count_in(chain: Seq<LogId>, k: int, seg: int)
    ensures
        0 <= count_in(chain, k, seg),
        count_in(chain, k, seg) == 0 <==> !in_segment(chain, k, seg),
    decreases chain.len(),
{
    if chain.len() > 0 {
        lemma_count_in(chain.drop_last(), k, seg);
        if in_segment(chain, k, seg) {
            let i = choose|i: int| 0 <= i < chain.len() && (#[trigger] chain[i]) as int / seg == k;
            if i < chain.len() - 1 {
                assert(chain.drop_last()[i] == chain[i]);
            }
        }
        if in_segment(chain.drop_last(), k, seg) {
            let i = choose|i: int|
                0 <= i < chain.drop_last().len() && (#[trigger] chain.drop_last()[i]) as int / seg
                    == k;
            assert(chain[i] == chain.drop_last()[i]);
        }
        if chain.last() as int / seg == k {
            assert(chain[chain.len() - 1] as int / seg == k);
        }
    }
}

/// The chains of the live pages below `n` have no offset in a segment
/// exactly if they count none there.
pub proof fn lemma_count_chains(chains: Map<PageId, Seq<LogId>>, k: int, seg: int, n: int)
    requires
        n <= u64::MAX,
    ensures
        0 <= count_chains(chains, k, seg, n),
        count_chains(chains, k, seg, n) == 0 <==> forall|pid: PageId|
            1 <= pid < n && #[trigger] chains.contains_key(pid) ==> !in_segment(chains[pid], k, seg),
    decreases n,
{
    if n > 1 {
        lemma_count_chains(chains, k, seg, n - 1);
        let last = (n - 1) as PageId;
        if chains.contains_key(last) {
            lemma_count_in(chains[last], k, seg);
        }
        if count_chains(chains, k, seg, n) == 0 {
            assert forall|pid: PageId| 1 <= pid < n && #[trigger] chains.contains_key(
                pid,
            ) implies !in_segment(chains[pid], k, seg) by {
                if pid < n - 1 {
                } else {
                    assert(pid == last);
                }
            }
        }
    }
}

/// Whether the page table names an offset in the segment `k`: in the chain
/// of a live page or in that of the metadata page.
pub open spec fn references(t: Table, k: int, seg: int) -> bool {
    ||| exists|pid: PageId|
        #[trigger] t.chains.contains_key(pid) && in_segment(t.chains[pid], k, seg)
    ||| in_segment(t.meta, k, seg)
}

/// Whether the segment `k` can be used again: the log has gone on behind
/// it, the page table names no offset in it, and no guard is held.
pub open spec fn segment_free(v: CacheView, k: int) -> bool {
    &&& (k + 1) * v.seg <= log_end(v.log, v.seg)
    &&& !references(v.table, k, v.seg)
    &&& v.pins.len() == 0
}

/// Whether an offset of `chain` lies in the segment `k`.
pub open spec fn in_segment(chain: Seq<LogId>, k: int, seg: int) -> bool {
    exists|i: int| 0 <= i < chain.len() && (#[trigger] chain[i]) as int / seg == k
}

/// The live pages below `n` that have a fragment in the segment `k`, in
/// ascending order.
pub open spec fn owners(t: Table, k: int, seg: int, n: int) -> Seq<PageId>
    decreases n,
{
    if n <= 1 {
        Seq::empty()
    } else if t.chains.contains_key((n - 1) as PageId) && in_segment(
        t.chains[(n - 1) as PageId],
        k,
        seg,
    ) {
        owners(t, k, seg, n - 1).push((n - 1) as PageId)
    } else {
        owners(t, k, seg, n - 1)
    }
}

/// The segment `k` ends at or before `tail` exactly if `k` is below the
/// number of whole segments in `tail`.
pub proof fn lemma_segment_complete(k: int, seg: int, tail: int)
    requires
        0 <= k,
        0 < seg,
        0 <= tail,
    ensures
        (k + 1) * seg <= tail <==> k < tail / seg,
{
    vstd::arithmetic::div_mod::lemma_fundamental_div_mod(tail, seg);
    vstd::arithmetic::div_mod::lemma_mod_pos_bound(tail, seg);
    let q = tail / seg;
    if k < q {
        assert((k + 1) * seg <= q * seg) by (nonlinear_arith)
            requires
                k + 1 <= q,
                0 < seg,
        ;
        assert(seg * q == q * seg) by (nonlinear_arith);
    } else {
        assert((k + 1) * seg >= (q + 1) * seg) by (nonlinear_arith)
            requires
                k >= q,
                0 < seg,
        ;
        assert((q + 1) * seg == seg * q + seg) by (nonlinear_arith);
    }
}

/// The free pages below `n`, in ascending order, as pages that were freed
/// before any guard was taken.
pub open spec fn free_pages(chains: Map<PageId, Seq<LogId>>, n: int) -> Seq<(PageId, u64)>
    decreases n,
{
    if n <= 1 {
        Seq::empty()
    } else if chains.contains_key((n - 1) as PageId) {
        free_pages(chains, n - 1)
    } else {
        free_pages(chains, n - 1).push(((n - 1) as PageId, 0u64))
    }
}

/// Where the changes of the metadata page are read one by one and the first
/// offset without a change is at place `j`, the metadata is that offset's
/// error.
pub proof fn lemma_fold_meta_err(log: Seq<Placed>, lsns: Seq<LogId>, j: int)
    requires
        0 <= j < lsns.len(),
        fold_meta(log, empty_meta(), lsns.take(j)) is Ok,
        fold_meta(log, empty_meta(), lsns.take(j + 1)) is Err,
    ensures
        fold_meta(log, empty_meta(), lsns) == Err::<MetaView, LogId>(lsns[j]),
    decreases lsns.len(),
{
    assert(lsns.take(j + 1).drop_last() =~= lsns.take(j));
    assert(lsns.take(j + 1).last() == lsns[j]);
    if j == lsns.len() - 1 {
        assert(lsns.take(j + 1) =~= lsns);
    } else {
        assert(lsns.drop_last().take(j) =~= lsns.take(j));
        assert(lsns.drop_last().take(j + 1) =~= lsns.take(j + 1));
        lemma_fold_meta_err(log, lsns.drop_last(), j);
    }
}

/// What a start of a cache from a snapshot and the bytes of a log yields:
/// the model of the cache, or the reason why it cannot start.
pub open spec fn started(
    seg: int,
    threshold: int,
    snapshot: Option<SnapshotView>,
    bytes: Seq<u8>,
) -> Result<CacheView, Error> {
    match opened(bytes, seg) {
        Err(e) => Err(e),
        Ok(log) => {
            let base = match snapshot {
                Some(s) => snapshot_table(s),
                None => empty_table(),
            };
            let last: LogId = match snapshot {
                Some(s) => s.last_lsn,
                None => 0,
            };
            let from = count_below(log, last);
            let table = replay(base, log.skip(from));
            if snapshot is Some && !(snapshot_ok(snapshot->0) && last <= log_end(log, seg)
                && table_sound(log, base)) {
                Err(Error::Corruption { at: last })
            } else {
                match fold_meta(log, empty_meta(), table.meta) {
                    Err(lsn) => Err(Error::Corruption { at: lsn }),
                    Ok(meta) => Ok(
                        CacheView {
                            log,
                            seg,
                            stable: log_end(
                                crate::pagecache::layout::scan(bytes, seg, 0).entries,
                                seg,
                            ) as LogId,
                            threshold,
                            table,
                            base,
                            from,
                            free: free_pages(table.chains, table.size),
                            epoch: 1,
                            pins: Seq::empty(),
                            meta,
                            ops: 0,
                            poisoned: false,
                        },
                    ),
                }
            }
        },
    }
}

} // verus!
