//! The entries of the page table: the chain of a page in memory or as the
//! offsets of its fragments in the log.

use vstd::prelude::*;
use crate::ds::stack::{Node, Stack};
use crate::pagecache::{LogId, PageId};
use crate::pagecache::layout::{log_end, seg_ok, well_placed, Placed, lemma_log_end};
use crate::pagecache::log::{appended, can_append, record_at, Log, LogEntry, lemma_appended};
use crate::pagecache::materializer::{fold_chain, Materializer};
use crate::pagecache::meta::{Meta, MetaDiff, MetaView};
use crate::pagecache::model::{
    anchor_kind, apply, chain_sound, fold_meta, frag_at, meta_sound, replay, table_ok, table_sound,
    Table, lemma_apply_ok, lemma_fold_meta_appended, lemma_record_at_appended, lemma_record_fits,
    lemma_replay_push, lemma_sound_applied, lemma_sound_appended, lemma_table_ok_later,
};
use crate::pagecache::pagetable::PageTable;
use crate::pagecache::record::{frame_size, RecordKind, RecordView};
use crate::pagecache::steps::{
    added_entry, chain_bytes, count_in, empty_meta, in_segment, saturated, lemma_fold_meta_err,
};

verus! {

/// The state of a page in the page table.
pub enum PageEntry<T> {
    /// No page has this identifier.
    Free,
    /// The chain of the page is in memory.
    Present { stack: Stack<T> },
    /// Only the offsets of the fragments are in memory.
    PagedOut { offsets: Vec<LogId> },
}

/// The identifiers of the nodes `nodes`.
pub open spec fn ids<T>(nodes: Seq<Node<T>>) -> Seq<LogId> {
    Seq::new(nodes.len(), |i: int| nodes[i].id)
}

/// The fragments that the nodes `nodes` hold.
pub open spec fn frags<T: View>(nodes: Seq<Node<T>>) -> Seq<T::V> {
    Seq::new(nodes.len(), |i: int| nodes[i].inner@)
}

/// The offsets of the fragments of a page, the oldest first.
pub open spec fn chain_of<T>(e: PageEntry<T>) -> Seq<LogId> {
    match e {
        PageEntry::Free => Seq::empty(),
        PageEntry::Present { stack } => ids(stack@),
        PageEntry::PagedOut { offsets } => offsets@,
    }
}

/// The chains of the live pages of a page table.
pub open spec fn slot_chains<T>(slots: Seq<PageEntry<T>>) -> Map<PageId, Seq<LogId>> {
    Map::new(
        |pid: PageId| 1 <= pid < slots.len() && !(slots[pid as int] is Free),
        |pid: PageId| chain_of(slots[pid as int]),
    )
}

/// Every fragment that is in memory is the one that the log holds at its
/// offset.
pub open spec fn present_ok<T: Materializer>(log: Seq<Placed>, e: PageEntry<T>) -> bool {
    match e {
        PageEntry::Present { stack } => forall|i: int|
            0 <= i < stack@.len() ==> frag_at::<T>(log, (#[trigger] stack@[i]).id) == Some(
                stack@[i].inner@,
            ),
        _ => true,
    }
}

/// The freed pages: each a free page below the size of the table, freed
/// before the current epoch, and none twice.
pub open spec fn free_ok<T>(
    free: Seq<(PageId, u64)>,
    slots: Seq<PageEntry<T>>,
    epoch: u64,
) -> bool {
    &&& forall|i: int|
        0 <= i < free.len() ==> 1 <= (#[trigger] free[i]).0 < slots.len() && slots[free[i].0 as int]
            is Free && free[i].1 < epoch
    &&& forall|i: int, j: int|
        0 <= i < j < free.len() ==> (#[trigger] free[i]).0 != (#[trigger] free[j]).0
}

/// Reads the fragments at `offsets` into a stack.
pub(crate) fn pull<T: Materializer>(log: &Log, offsets: &Vec<LogId>) -> (r: Result<Stack<T>, LogId>)
    ensures
        match r {
            Ok(stack) => ids(stack@) == offsets@ && present_ok::<T>(
                log@,
                PageEntry::Present { stack },
            ),
            Err(lsn) => exists|j: int|
                0 <= j < offsets@.len() && offsets@[j] == lsn && frag_at::<T>(log@, lsn) is None
                    && forall|i: int| 0 <= i < j ==> frag_at::<T>(log@, #[trigger] offsets@[i]) is Some,
        },
{
    let mut stack: Stack<T> = Stack::new();
    let mut i: usize = 0;
    while i < offsets.len()
        invariant
            i <= offsets.len(),
            stack@.len() == i,
            ids(stack@) == offsets@.take(i as int),
            forall|k: int|
                0 <= k < stack@.len() ==> frag_at::<T>(log@, (#[trigger] stack@[k]).id) == Some(
                    stack@[k].inner@,
                ),
        decreases offsets.len() - i,
    {
        let lsn = offsets[i];
        let ghost before = stack@;
        let frag = match log.read(lsn) {
            Some(record) => T::decode(record.payload.as_slice()),
            None => None,
        };
        match frag {
            Some(inner) => {
                stack.push(inner, lsn);
                proof {
                    assert(ids(stack@) =~= offsets@.take(i + 1)) by {
                        assert forall|k: int| 0 <= k < i + 1 implies ids(stack@)[k] == offsets@.take(
                            i + 1,
                        )[k] by {
                            if k < i {
                                assert(ids(before)[k] == offsets@.take(i as int)[k]);
                            }
                        }
                    }
                    assert forall|k: int| 0 <= k < stack@.len() implies frag_at::<T>(
                        log@,
                        (#[trigger] stack@[k]).id,
                    ) == Some(stack@[k].inner@) by {
                        if k < i {
                            assert(stack@[k] == before[k]);
                        }
                    }
                }
            },
            None => {
                proof {
                    assert forall|k: int| 0 <= k < i implies frag_at::<T>(
                        log@,
                        #[trigger] offsets@[k],
                    ) is Some by {
                        assert(ids(stack@)[k] == offsets@.take(i as int)[k]);
                        assert(stack@[k].id == offsets@[k]);
                    }
                }
                return Err(lsn);
            },
        }
        i += 1;
    }
    proof {
        assert(offsets@.take(i as int) =~= offsets@);
    }
    Ok(stack)
}

/// Merges the fragments of a stack into a copy of its oldest.
pub(crate) fn fold_stack<T: Materializer>(stack: &Stack<T>) -> (r: T)
    requires
        stack@.len() > 0,
    ensures
        r@ == fold_chain::<T>(frags(stack@)),
{
    let mut acc = stack.node(0).inner.duplicate();
    let mut i: usize = 1;
    let ghost all = frags(stack@);
    proof {
        assert(all.take(1).len() == 1);
        assert(all.take(1)[0] == all[0]);
    }
    while i < stack.len()
        invariant
            1 <= i <= stack@.len(),
            all == frags(stack@),
            acc@ == fold_chain::<T>(all.take(i as int)),
        decreases stack@.len() - i,
    {
        proof {
            assert(all.take(i + 1).drop_last() =~= all.take(i as int));
            assert(all.take(i + 1).last() == all[i as int]);
        }
        acc.merge(&stack.node(i).inner);
        i += 1;
    }
    proof {
        assert(all.take(i as int) =~= all);
    }
    acc
}

/// The bytes that the fragments of a stack take in the log, or `u64::MAX`
/// where they are more.
pub(crate) fn stack_bytes<T: Materializer>(log: &Log, stack: &Stack<T>) -> (r: u64)
    requires
        well_placed(log@, log.seg()),
    ensures
        r == saturated(chain_bytes(log@, ids(stack@))),
{
    let mut sum: u64 = 0;
    let mut i: usize = 0;
    let ghost chain = ids(stack@);
    proof {
        assert(chain.take(0) =~= Seq::<LogId>::empty());
    }
    while i < stack.len()
        invariant
            i <= stack@.len(),
            chain == ids(stack@),
            well_placed(log@, log.seg()),
            0 <= chain_bytes(log@, chain.take(i as int)),
            sum == saturated(chain_bytes(log@, chain.take(i as int))),
        decreases stack@.len() - i,
    {
        proof {
            assert(chain.take(i + 1).drop_last() =~= chain.take(i as int));
            assert(chain.take(i + 1).last() == stack@[i as int].id);
            lemma_record_fits(log@, log.seg(), stack@[i as int].id);
        }
        let size: u64 = match log.read(stack.node(i).id) {
            Some(record) => {
                if record.payload.len() as u64 > crate::pagecache::record::MAX_PAYLOAD {
                    u64::MAX
                } else {
                    frame_size(record.payload.len() as u64)
                }
            },
            None => 0,
        };
        sum = sum.saturating_add(size);
        i += 1;
    }
    proof {
        assert(chain.take(i as int) =~= chain);
    }
    sum
}

/// The page table that the slots `slots` and the chain `meta` of the
/// metadata page stand for.
pub open spec fn table_of<T>(slots: Seq<PageEntry<T>>, meta: Seq<LogId>) -> Table {
    Table { chains: slot_chains(slots), meta, size: slots.len() as int }
}

/// After a record was added to the log and the page table was changed as
/// the record says, the table is sound again, what is in memory is still
/// what the log holds, and the table is still what the log makes of the
/// table that the cache was started with.
pub proof fn lemma_after_append<T: Materializer>(
    log: Seq<Placed>,
    seg: int,
    r: RecordView,
    slots: Seq<PageEntry<T>>,
    slots2: Seq<PageEntry<T>>,
    meta: Seq<LogId>,
    meta2: Seq<LogId>,
    base: Table,
    from: int,
)
    requires
        seg_ok(seg),
        well_placed(log, seg),
        can_append(log, r, seg),
        slots.len() >= 1,
        slots[0] is Free,
        table_ok(table_of(slots, meta), log_end(log, seg)),
        table_sound(log, table_of(slots, meta)),
        forall|p: int| 0 <= p < slots.len() ==> present_ok::<T>(log, #[trigger] slots[p]),
        0 <= from <= log.len(),
        table_of(slots, meta) == replay(base, log.skip(from)),
        table_of(slots2, meta2) == apply(table_of(slots, meta), added_entry(log, r, seg)),
        slots.len() <= slots2.len(),
        forall|p: int| 0 <= p < slots.len() && p != r.pid ==> #[trigger] slots2[p] == slots[p],
        forall|p: int| slots.len() <= p < slots2.len() && p != r.pid ==> #[trigger] slots2[p] is Free,
        0 <= r.pid < slots2.len() ==> present_ok::<T>(appended(log, r, seg), slots2[r.pid as int]),
    ensures
        well_placed(appended(log, r, seg), seg),
        table_ok(table_of(slots2, meta2), log_end(appended(log, r, seg), seg)),
        table_sound(appended(log, r, seg), table_of(slots2, meta2)),
        forall|p: int|
            0 <= p < slots2.len() ==> present_ok::<T>(appended(log, r, seg), #[trigger] slots2[p]),
        table_of(slots2, meta2) == replay(base, appended(log, r, seg).skip(from)),
        forall|start: MetaView|
            fold_meta(appended(log, r, seg), start, meta) == #[trigger] fold_meta(log, start, meta),
{
    let log2 = appended(log, r, seg);
    let e = added_entry(log, r, seg);
    let t = table_of(slots, meta);
    lemma_appended(log, r, seg);
    lemma_log_end(log, seg);
    lemma_log_end(log2, seg);
    lemma_table_ok_later(t, log_end(log, seg), e.lsn as int);
    lemma_apply_ok(t, e, log_end(log2, seg));
    lemma_sound_appended(log, r, seg, t);
    lemma_record_at_appended(log, r, seg, e.lsn);
    lemma_sound_applied(log2, t, e);
    assert forall|p: int| 0 <= p < slots2.len() implies present_ok::<T>(
        log2,
        #[trigger] slots2[p],
    ) by {
        if p != r.pid {
            if p < slots.len() {
                assert(slots2[p] == slots[p]);
                assert(present_ok::<T>(log, slots[p]));
                match slots[p] {
                    PageEntry::Present { stack } => {
                        assert forall|i: int| 0 <= i < stack@.len() implies frag_at::<T>(
                            log2,
                            (#[trigger] stack@[i]).id,
                        ) == Some(stack@[i].inner@) by {
                            assert(t.chains.contains_key(p as PageId));
                            assert(t.chains[p as PageId][i] == stack@[i].id);
                            assert(t.chains[p as PageId][i] < log_end(log, seg));
                            lemma_record_at_appended(log, r, seg, stack@[i].id);
                        }
                    },
                    _ => {},
                }
            }
        }
    }
    assert(log2.skip(from) =~= if log2.len() == log.len() + 1 {
        log.skip(from).push(e)
    } else {
        log.skip(from).push(log2[log.len() as int]).push(e)
    });
    if log2.len() == log.len() + 1 {
        lemma_replay_push(base, log.skip(from), e);
    } else {
        let pad = log2[log.len() as int];
        lemma_replay_push(base, log.skip(from), pad);
        lemma_replay_push(base, log.skip(from).push(pad), e);
    }
    assert forall|start: MetaView|
        fold_meta(log2, start, meta) == #[trigger] fold_meta(log, start, meta) by {
        assert forall|i: int| 0 <= i < meta.len() implies (#[trigger] meta[i]) < log_end(
            log,
            seg,
        ) by {
            assert(t.meta[i] < log_end(log, seg));
        }
        lemma_fold_meta_appended(log, r, seg, start, meta);
    }
}

/// A page table has finitely many live pages.
pub proof fn lemma_chains_finite<T>(slots: Seq<PageEntry<T>>)
    ensures
        slot_chains(slots).dom().finite(),
{
    let n = slots.len() as int;
    let all = Set::new(|pid: PageId| 0 <= pid < n);
    assert(all.finite()) by {
        lemma_below_finite(n);
    }
    assert(slot_chains(slots).dom().subset_of(all));
    vstd::set_lib::lemma_len_subset(slot_chains(slots).dom(), all);
}

/// There are finitely many page identifiers below `n`.
pub proof fn lemma_below_finite(n: int)
    ensures
        Set::new(|pid: PageId| 0 <= pid < n).finite(),
    decreases n,
{
    let s = Set::new(|pid: PageId| 0 <= pid < n);
    if n <= 0 {
        assert(s =~= Set::<PageId>::empty());
    } else if n > u64::MAX {
        lemma_below_finite(u64::MAX as int);
        let below = Set::new(|pid: PageId| 0 <= pid < u64::MAX as int);
        assert(s =~= below.insert(u64::MAX));
    } else {
        lemma_below_finite(n - 1);
        let below = Set::new(|pid: PageId| 0 <= pid < n - 1);
        assert(s =~= below.insert((n - 1) as PageId));
    }
}

/// The number of offsets of `chain` that lie in the segment `k`, or
/// `u64::MAX` where they are more.
pub(crate) fn count_offsets(chain: &Vec<LogId>, k: u64, seg: u64) -> (r: u64)
    requires
        seg > 0,
    ensures
        r == saturated(count_in(chain@, k as int, seg as int)),
        0 <= count_in(chain@, k as int, seg as int),
{
    let mut n: u64 = 0;
    let mut i: usize = 0;
    proof {
        assert(chain@.take(0) =~= Seq::<LogId>::empty());
    }
    while i < chain.len()
        invariant
            i <= chain.len(),
            seg > 0,
            0 <= count_in(chain@.take(i as int), k as int, seg as int),
            n == saturated(count_in(chain@.take(i as int), k as int, seg as int)),
        decreases chain.len() - i,
    {
        proof {
            assert(chain@.take(i + 1).drop_last() =~= chain@.take(i as int));
            assert(chain@.take(i + 1).last() == chain@[i as int]);
        }
        if chain[i] / seg == k {
            n = n.saturating_add(1);
        }
        i += 1;
    }
    proof {
        assert(chain@.take(i as int) =~= chain@);
    }
    n
}

/// Whether an offset of `chain` lies in the segment `k`.
pub(crate) fn chain_in_segment(chain: &Vec<LogId>, k: u64, seg: u64) -> (r: bool)
    requires
        seg > 0,
    ensures
        r == in_segment(chain@, k as int, seg as int),
{
    let mut i: usize = 0;
    while i < chain.len()
        invariant
            i <= chain.len(),
            seg > 0,
            forall|j: int| 0 <= j < i ==> (#[trigger] chain@[j]) / seg != k,
        decreases chain.len() - i,
    {
        if chain[i] / seg == k {
            assert(chain@[i as int] as int / (seg as int) == k);
            return true;
        }
        i += 1;
    }
    false
}

/// Whether the identifier of a node of `stack` lies in the segment `k`.
pub(crate) fn stack_in_segment<T>(stack: &Stack<T>, k: u64, seg: u64) -> (r: bool)
    requires
        seg > 0,
    ensures
        r == in_segment(ids(stack@), k as int, seg as int),
{
    let mut i: usize = 0;
    while i < stack.len()
        invariant
            i <= stack@.len(),
            seg > 0,
            forall|j: int| 0 <= j < i ==> (#[trigger] ids(stack@)[j]) / seg != k,
        decreases stack@.len() - i,
    {
        if stack.node(i).id / seg == k {
            assert(ids(stack@)[i as int] / seg == k);
            return true;
        }
        i += 1;
    }
    false
}

/// No chain of the page table is in memory.
pub open spec fn paged_only<T>(slots: Seq<PageEntry<T>>) -> bool {
    forall|p: int| 0 <= p < slots.len() ==> !(#[trigger] slots[p] is Present)
}

/// Changes the page table as one entry of the log says.
pub(crate) fn apply_entry<T>(slots: &mut PageTable<PageEntry<T>>, meta: &mut Vec<LogId>, e: &LogEntry)
    requires
        old(slots).wf(),
        old(slots)@.len() >= 1,
        old(slots)@[0] is Free,
        paged_only(old(slots)@),
    ensures
        table_of(final(slots)@, final(meta)@) == apply(table_of(old(slots)@, old(meta)@), e@),
        final(slots)@[0] is Free,
        paged_only(final(slots)@),
        final(slots).wf(),
{
    let pid = e.record.pid;
    let n = slots.len();
    let ghost t0 = table_of(slots@, meta@);
    let live = 1 <= pid && pid < n as u64 && !is_free(slots.get(pid as usize));
    assert(live == t0.chains.contains_key(pid));
    match e.record.kind {
        RecordKind::Pad => {},
        RecordKind::Allocate => {
            if 1 <= pid && pid <= n as u64 && pid < usize::MAX as u64 && !live {
                let mut offsets: Vec<LogId> = Vec::new();
                offsets.push(e.lsn);
                if pid == n as u64 {
                    slots.push(PageEntry::PagedOut { offsets });
                } else {
                    slots.set(pid as usize, PageEntry::PagedOut { offsets });
                }
                proof {
                    assert(table_of(slots@, meta@).chains =~= apply(t0, e@).chains);
                }
            }
        },
        RecordKind::Link => {
            if live {
                let slot = slots.get_mut(pid as usize);
                match slot {
                    PageEntry::PagedOut { offsets } => {
                        offsets.push(e.lsn);
                    },
                    _ => {},
                }
                proof {
                    assert(table_of(slots@, meta@).chains =~= apply(t0, e@).chains);
                }
            }
        },
        RecordKind::Replace => {
            if live {
                let mut offsets: Vec<LogId> = Vec::new();
                offsets.push(e.lsn);
                slots.set(pid as usize, PageEntry::PagedOut { offsets });
                proof {
                    assert(table_of(slots@, meta@).chains =~= apply(t0, e@).chains);
                }
            }
        },
        RecordKind::Free => {
            if live {
                slots.set(pid as usize, PageEntry::Free);
                proof {
                    assert(table_of(slots@, meta@).chains =~= apply(t0, e@).chains);
                }
            }
        },
        RecordKind::Meta => {
            meta.push(e.lsn);
        },
    }
}

/// Whether no page has the identifier of this slot.
pub(crate) fn is_free<T>(slot: &PageEntry<T>) -> (r: bool)
    ensures
        r == (*slot is Free),
{
    match slot {
        PageEntry::Free => true,
        _ => false,
    }
}

/// Whether `chain` is a sound chain of the page `pid`.
pub(crate) fn chain_is_sound(log: &Log, pid: PageId, chain: &Vec<LogId>) -> (r: bool)
    ensures
        r == chain_sound(log@, pid, chain@),
{
    if chain.len() == 0 {
        return false;
    }
    let mut i: usize = 0;
    while i < chain.len()
        invariant
            i <= chain.len(),
            chain@.len() > 0,
            forall|k: int|
                0 <= k < i ==> {
                    let r = record_at(log@, #[trigger] chain@[k]);
                    &&& r is Some
                    &&& r->0.pid == pid
                    &&& if k == 0 {
                        anchor_kind(r->0.kind)
                    } else {
                        r->0.kind == RecordKind::Link
                    }
                },
            forall|a: int, b: int| 0 <= a < b < i ==> chain@[a] < chain@[b],
        decreases chain.len() - i,
    {
        let lsn = chain[i];
        let good = match log.read(lsn) {
            None => false,
            Some(record) => record.pid == pid && (match record.kind {
                RecordKind::Allocate => i == 0,
                RecordKind::Replace => i == 0,
                RecordKind::Link => i > 0,
                _ => false,
            }),
        };
        if !good {
            assert(!chain_sound(log@, pid, chain@)) by {
                let r = record_at(log@, chain@[i as int]);
            }
            return false;
        }
        if i > 0 && chain[i - 1] >= lsn {
            assert(!(chain@[i - 1] < chain@[i as int]));
            return false;
        }
        proof {
            assert forall|a: int, b: int| 0 <= a < b < i + 1 implies chain@[a] < chain@[b] by {
                if b == i && a < i - 1 {
                    assert(chain@[a] < chain@[i - 1]);
                }
            }
        }
        i += 1;
    }
    true
}

/// Whether `meta` is a sound chain of the metadata page.
pub(crate) fn meta_is_sound(log: &Log, meta: &Vec<LogId>) -> (r: bool)
    ensures
        r == meta_sound(log@, meta@),
{
    let mut i: usize = 0;
    while i < meta.len()
        invariant
            i <= meta.len(),
            forall|k: int|
                0 <= k < i ==> {
                    let r = record_at(log@, #[trigger] meta@[k]);
                    r is Some && r->0.kind == RecordKind::Meta
                },
            forall|a: int, b: int| 0 <= a < b < i ==> meta@[a] < meta@[b],
        decreases meta.len() - i,
    {
        let lsn = meta[i];
        let good = match log.read(lsn) {
            None => false,
            Some(record) => match record.kind {
                RecordKind::Meta => true,
                _ => false,
            },
        };
        if !good {
            assert(!meta_sound(log@, meta@)) by {
                let r = record_at(log@, meta@[i as int]);
            }
            return false;
        }
        if i > 0 && meta[i - 1] >= lsn {
            assert(!(meta@[i - 1] < meta@[i as int]));
            return false;
        }
        proof {
            assert forall|a: int, b: int| 0 <= a < b < i + 1 implies meta@[a] < meta@[b] by {
                if b == i && a < i - 1 {
                    assert(meta@[a] < meta@[i - 1]);
                }
            }
        }
        i += 1;
    }
    true
}

/// Whether the chains of a page table that holds no chain in memory are
/// sound.
pub(crate) fn chains_are_sound<T>(log: &Log, slots: &PageTable<PageEntry<T>>, meta: &Vec<LogId>) -> (r: bool)
    requires
        slots.wf(),
        slots@.len() >= 1,
        paged_only(slots@),
    ensures
        r == table_sound(log@, table_of(slots@, meta@)),
{
    if !meta_is_sound(log, meta) {
        return false;
    }
    let ghost t = table_of(slots@, meta@);
    let mut p: usize = 1;
    while p < slots.len()
        invariant
            slots.wf(),
            paged_only(slots@),
            1 <= p <= slots@.len(),
            t == table_of(slots@, meta@),
            forall|pid: PageId|
                #[trigger] t.chains.contains_key(pid) && pid < p ==> chain_sound(
                    log@,
                    pid,
                    t.chains[pid],
                ),
        decreases slots@.len() - p,
    {
        match slots.get(p) {
            PageEntry::PagedOut { offsets } => {
                assert(t.chains.contains_key(p as PageId));
                assert(t.chains[p as PageId] == offsets@);
                if !chain_is_sound(log, p as u64, offsets) {
                    return false;
                }
            },
            _ => {
                assert(!(slots@[p as int] is Present));
                assert(!t.chains.contains_key(p as PageId));
            },
        }
        p += 1;
    }
    true
}

/// Reads the metadata page from the changes at the offsets `lsns`.
pub(crate) fn load_meta(log: &Log, lsns: &Vec<LogId>) -> (r: Result<Meta, LogId>)
    ensures
        match r {
            Ok(m) => fold_meta(log@, empty_meta(), lsns@) == Ok::<MetaView, LogId>(m@),
            Err(lsn) => fold_meta(log@, empty_meta(), lsns@) == Err::<MetaView, LogId>(lsn),
        },
{
    let mut meta = Meta::new();
    let mut i: usize = 0;
    proof {
        assert(lsns@.take(0) =~= Seq::<LogId>::empty());
        assert(meta@ == empty_meta());
    }
    while i < lsns.len()
        invariant
            i <= lsns.len(),
            fold_meta(log@, empty_meta(), lsns@.take(i as int)) == Ok::<MetaView, LogId>(meta@),
        decreases lsns.len() - i,
    {
        proof {
            assert(lsns@.take(i + 1).drop_last() =~= lsns@.take(i as int));
            assert(lsns@.take(i + 1).last() == lsns@[i as int]);
        }
        let diff = match log.read(lsns[i]) {
            Some(record) => MetaDiff::decode(record.payload.as_slice()),
            None => None,
        };
        match diff {
            Some(diff) => {
                meta.apply(&diff);
            },
            None => {
                proof {
                    lemma_fold_meta_err(log@, lsns@, i as int);
                }
                return Err(lsns[i]);
            },
        }
        i += 1;
    }
    proof {
        assert(lsns@.take(i as int) =~= lsns@);
    }
    Ok(meta)
}

} // verus!
