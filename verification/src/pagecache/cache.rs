//! The page cache: allocation, linking, replacement, reading and release of
//! pages over the log.

use vstd::prelude::*;
use crate::ds::stack::{Node, Stack};
use crate::pagecache::{Error, LogId, PageId};
use crate::pagecache::config::Config;
use crate::pagecache::entry::{
    apply_entry, chain_in_segment, chain_of, chains_are_sound, count_offsets, fold_stack, free_ok,
    frags, ids, is_free, load_meta, paged_only, present_ok, pull, slot_chains, stack_bytes,
    stack_in_segment, table_of, PageEntry, lemma_after_append, lemma_chains_finite,
};
use crate::pagecache::layout::{log_end, seg_ok, well_placed, Placed, lemma_log_end};
use crate::pagecache::log::{appended, Log, lemma_ascending_lsn, lemma_record_at_index};
use crate::pagecache::materializer::Materializer;
use crate::pagecache::meta::{applied, Meta, MetaDiff, MetaDiffView, MetaView, lemma_diff_decoding};
use crate::pagecache::model::{
    apply, count_below, empty_table, fold_meta, fold_page, frag_at, replay, table_ok, table_sound,
    Table, lemma_apply_ok, lemma_count_below, lemma_fold_page, lemma_record_at_appended,
    lemma_sound_applied, lemma_table_ok_later,
};
use crate::pagecache::pagetable::PageTable;
use crate::pagecache::record::RecordKind;
use crate::pagecache::snapshot::{copy_offsets, snapshot_ok, snapshot_table, Snapshot};
use crate::pagecache::steps::{
    added_entry, after, allocate_record, can_write, cas_error, chain_bytes, count_chains, count_in,
    counted, empty_meta, free_pages, free_record, get_error, in_segment, link_error, link_record,
    meta_record, next_pid, owners, promoted, reference_count, replace_record, reusable, saturated,
    segment_free, started, state_of, write_error, CacheView, PageState, lemma_count_in,
    lemma_fold_page_err, lemma_segment_complete,
};

verus! {

/// A reader's registration: while it is held, no page that is freed is
/// given out again.
#[derive(Debug)]
pub struct Guard {
    epoch: u64,
}

impl Guard {
    /// The epoch in which the guard was taken.
    pub closed spec fn view(&self) -> u64 {
        self.epoch
    }
}

/// The page cache.
pub struct PageCache<T: Materializer> {
    config: Config,
    log: Log,
    slots: PageTable<PageEntry<T>>,
    meta: Meta,
    meta_lsns: Vec<LogId>,
    free: Vec<(PageId, u64)>,
    epoch: u64,
    pins: Vec<u64>,
    ops: u64,
    poisoned: bool,
    base: Ghost<Table>,
    from: Ghost<int>,
}

/// The number of changes after one more, up to `u64::MAX`.
fn bump_ops(n: u64) -> (r: u64)
    ensures
        r == counted(n),
{
    if n == u64::MAX {
        n
    } else {
        n + 1
    }
}

impl<T: Materializer> PageCache<T> {
    /// The mathematical model of the cache.
    pub closed spec fn view(&self) -> CacheView {
        CacheView {
            log: self.log@,
            seg: self.log.seg(),
            stable: self.log.stable_lsn(),
            threshold: self.config.page_consolidation_threshold as int,
            table: Table {
                chains: slot_chains(self.slots@),
                meta: self.meta_lsns@,
                size: self.slots@.len() as int,
            },
            base: self.base@,
            from: self.from@,
            free: self.free@,
            epoch: self.epoch,
            pins: self.pins@,
            meta: self.meta@,
            ops: self.ops,
            poisoned: self.poisoned,
        }
    }

    /// The options of the cache.
    pub closed spec fn options(&self) -> Config {
        self.config
    }

    /// The invariant of the cache: the log is well placed; the page table
    /// is sound and is what the log makes of the table that the cache was
    /// started with; what is in memory is what the log holds; and the freed
    /// pages are free.
    pub closed spec fn wf(&self) -> bool {
        &&& seg_ok(self.log.seg())
        &&& self.log.seg() == self.config.segment_size
        &&& well_placed(self.log@, self.log.seg())
        &&& self.slots.wf()
        &&& self.slots@.len() >= 1
        &&& self.slots@[0] is Free
        &&& table_ok(self@.table, log_end(self.log@, self.log.seg()))
        &&& table_sound(self.log@, self@.table)
        &&& forall|pid: int|
            0 <= pid < self.slots@.len() ==> present_ok::<T>(self.log@, #[trigger] self.slots@[pid])
        &&& fold_meta(self.log@, empty_meta(), self.meta_lsns@) == Ok::<MetaView, LogId>(self.meta@)
        &&& free_ok(self.free@, self.slots@, self.epoch)
        &&& 0 <= self.from@ <= self.log@.len()
        &&& self@.table == replay(self.base@, self.log@.skip(self.from@))
        &&& forall|i: int| 0 <= i < self.pins@.len() ==> (#[trigger] self.pins@[i]) <= self.epoch
    }

    /// What the invariant says of the model: the log is well placed; the
    /// page table is sound, with a chain for every live page that begins
    /// with an anchor of the page and goes on with its links in the order of
    /// the log, and is what the log makes of the table that the cache was
    /// started with; the freed pages are free pages, each once; and no guard
    /// is of a later epoch than the current one.
    pub proof fn lemma_wf(&self)
        requires
            self.wf(),
        ensures
            seg_ok(self@.seg),
            well_placed(self@.log, self@.seg),
            table_ok(self@.table, log_end(self@.log, self@.seg)),
            table_sound(self@.log, self@.table),
            0 <= self@.from <= self@.log.len(),
            self@.table == replay(self@.base, self@.log.skip(self@.from)),
            fold_meta(self@.log, empty_meta(), self@.table.meta) == Ok::<MetaView, LogId>(
                self@.meta,
            ),
            forall|i: int|
                0 <= i < self@.free.len() ==> 1 <= (#[trigger] self@.free[i]).0 < self@.table.size
                    && !self@.table.chains.contains_key(self@.free[i].0) && self@.free[i].1
                    < self@.epoch,
            forall|a: int, b: int|
                0 <= a < b < self@.free.len() ==> (#[trigger] self@.free[a]).0 != (
                #[trigger] self@.free[b]).0,
            forall|i: int| 0 <= i < self@.pins.len() ==> (#[trigger] self@.pins[i]) <= self@.epoch,
    {
    }

    /// A cache over an empty log.
    pub fn new(config: Config) -> (r: Result<PageCache<T>, Error>)
        ensures
            r is Ok <==> seg_ok(config.segment_size as int),
            r is Err ==> r->Err_0 == Error::Unsupported,
            r is Ok ==> {
                let c = r->Ok_0;
                &&& c.wf()
                &&& c.options() == config
                &&& c@.log == Seq::<Placed>::empty()
                &&& c@.seg == config.segment_size
                &&& c@.stable == 0
                &&& c@.threshold == config.page_consolidation_threshold
                &&& c@.table == empty_table()
                &&& c@.base == empty_table()
                &&& c@.from == 0
                &&& c@.free == Seq::<(PageId, u64)>::empty()
                &&& c@.epoch == 1
                &&& c@.pins == Seq::<u64>::empty()
                &&& c@.meta == empty_meta()
                &&& c@.ops == 0
                &&& !c@.poisoned
            },
    {
        let log = match Log::new(config.segment_size) {
            Ok(log) => log,
            Err(e) => {
                return Err(e);
            },
        };
        let mut slots: PageTable<PageEntry<T>> = PageTable::new();
        slots.push(PageEntry::Free);
        let c = PageCache {
            config,
            log,
            slots,
            meta: Meta::new(),
            meta_lsns: Vec::new(),
            free: Vec::new(),
            epoch: 1,
            pins: Vec::new(),
            ops: 0,
            poisoned: false,
            base: Ghost(empty_table()),
            from: Ghost(0),
        };
        proof {
            assert(slot_chains(c.slots@) =~= Map::<PageId, Seq<LogId>>::empty());
            assert(c.log@.skip(0) =~= c.log@);
            assert(c@.table.meta =~= Seq::<LogId>::empty());
            assert(c@.table == empty_table());
            assert(c.meta@ == empty_meta());
        }
        Ok(c)
    }

    /// The snapshot of the cache at the end of its log.
    pub fn snapshot(&self) -> (r: Snapshot)
        requires
            self.wf(),
        ensures
            snapshot_ok(r@),
            snapshot_table(r@) == self@.table,
            r@.last_lsn == log_end(self@.log, self@.seg),
    {
        let mut pt: Vec<Vec<LogId>> = Vec::new();
        pt.push(copy_offsets(&self.meta_lsns));
        let mut p: usize = 1;
        let ghost chains = self@.table.chains;
        let ghost end = log_end(self.log@, self.log.seg());
        proof {
            assert forall|k: int| 0 <= k < self.meta_lsns@.len() implies self.meta_lsns@[k]
                < end by {
                assert(self@.table.meta[k] < end);
            }
        }
        while p < self.slots.len()
            invariant
                self.slots.wf(),
                1 <= p <= self.slots@.len(),
                pt@.len() == p,
                pt@[0]@ == self.meta_lsns@,
                chains == slot_chains(self.slots@),
                table_ok(self@.table, end),
                forall|q: int| 1 <= q < p ==> (#[trigger] pt@[q])@ == chain_of(self.slots@[q]),
                forall|q: int, k: int|
                    0 <= q < p && 0 <= k < pt@[q]@.len() ==> (#[trigger] pt@[q]@[k]) < end,
            decreases self.slots@.len() - p,
        {
            let chain: Vec<LogId> = match self.slots.get(p) {
                PageEntry::Free => Vec::new(),
                PageEntry::PagedOut { offsets } => copy_offsets(offsets),
                PageEntry::Present { stack } => {
                    let mut chain: Vec<LogId> = Vec::new();
                    let mut k: usize = 0;
                    while k < stack.len()
                        invariant
                            k <= stack@.len(),
                            chain@ == ids(stack@).take(k as int),
                        decreases stack@.len() - k,
                    {
                        chain.push(stack.node(k).id);
                        proof {
                            assert(chain@ =~= ids(stack@).take(k + 1));
                        }
                        k += 1;
                    }
                    proof {
                        assert(ids(stack@).take(k as int) =~= ids(stack@));
                    }
                    chain
                },
            };
            proof {
                assert forall|k: int| 0 <= k < chain@.len() implies (#[trigger] chain@[k])
                    < end by {
                    assert(chains.contains_key(p as PageId));
                    assert(chains[p as PageId][k] < end);
                }
            }
            let ghost before = pt@;
            pt.push(chain);
            proof {
                assert forall|q: int| 1 <= q < p + 1 implies (#[trigger] pt@[q])@ == chain_of(
                    self.slots@[q],
                ) by {
                    if q < p {
                        assert(pt@[q] == before[q]);
                    }
                }
                assert forall|q: int, k: int|
                    0 <= q < p + 1 && 0 <= k < pt@[q]@.len() implies (#[trigger] pt@[q]@[k])
                    < end by {
                    if q < p {
                        assert(pt@[q] == before[q]);
                        assert(before[q]@[k] < end);
                    }
                }
            }
            p += 1;
        }
        let r = Snapshot { last_lsn: self.log.tail(), max_pid: self.slots.len() as u64, pt };
        proof {
            assert(snapshot_table(r@).chains =~= chains) by {
                assert forall|pid: PageId| snapshot_table(r@).chains.contains_key(pid)
                    == chains.contains_key(pid) by {
                    if 1 <= pid < self.slots@.len() {
                        assert(r@.pt[pid as int] == chain_of(self.slots@[pid as int]));
                        if chains.contains_key(pid) {
                            assert(chains[pid].len() > 0);
                        }
                    }
                }
                assert forall|pid: PageId| snapshot_table(r@).chains.contains_key(
                    pid,
                ) implies #[trigger] snapshot_table(r@).chains[pid] == chains[pid] by {
                    assert(r@.pt[pid as int] == chain_of(self.slots@[pid as int]));
                }
            }
            assert(snapshot_table(r@).meta == self@.table.meta);
        }
        r
    }

    /// Starts a cache from the bytes of a log and, where there is one, from
    /// a snapshot: the page table of the snapshot is taken, and the entries
    /// of the log at or behind the offset of the snapshot change it in their
    /// order. All chains are left in the log until they are read.
    pub fn start(config: Config, snapshot: Option<&Snapshot>, bytes: &[u8]) -> (r: Result<
        PageCache<T>,
        Error,
    >)
        ensures
            match started(
                config.segment_size as int,
                config.page_consolidation_threshold as int,
                match snapshot {
                    Some(s) => Some(s@),
                    None => None,
                },
                bytes@,
            ) {
                Ok(v) => r is Ok && r->Ok_0.wf() && r->Ok_0@ == v && r->Ok_0.options() == config,
                Err(e) => r is Err && r->Err_0 == e,
            },
            r is Ok ==> forall|q: PageId| !r->Ok_0.resident(q),
    {
        let log = match Log::open(bytes, config.segment_size) {
            Ok(log) => log,
            Err(e) => {
                return Err(e);
            },
        };
        let seg = log.segment_size();
        let tail = log.tail();
        let ghost es = log@;
        let mut slots: PageTable<PageEntry<T>> = PageTable::new();
        let mut meta_lsns: Vec<LogId> = Vec::new();
        let last: LogId;
        match snapshot {
            None => {
                slots.push(PageEntry::Free);
                last = 0;
                proof {
                    assert(slot_chains(slots@) =~= Map::<PageId, Seq<LogId>>::empty());
                }
            },
            Some(s) => {
                last = s.last_lsn;
                if !s.validate() || last > tail {
                    return Err(Error::Corruption { at: last });
                }
                meta_lsns = copy_offsets(&s.pt[0]);
                slots.push(PageEntry::Free);
                let mut p: usize = 1;
                while p < s.pt.len()
                    invariant
                        slots.wf(),
                        1 <= p <= s.pt.len(),
                        slots@.len() == p,
                        slots@[0] is Free,
                        paged_only(slots@),
                        s@.pt.len() == s.pt.len(),
                        forall|q: int|
                            1 <= q < p ==> chain_of(#[trigger] slots@[q]) == s@.pt[q] && (slots@[q]
                                is Free <==> s@.pt[q].len() == 0),
                    decreases s.pt.len() - p,
                {
                    let ghost before = slots@;
                    if s.pt[p].len() == 0 {
                        slots.push(PageEntry::Free);
                    } else {
                        slots.push(PageEntry::PagedOut { offsets: copy_offsets(&s.pt[p]) });
                    }
                    proof {
                        assert forall|q: int| 1 <= q < p + 1 implies chain_of(
                            #[trigger] slots@[q],
                        ) == s@.pt[q] && (slots@[q] is Free <==> s@.pt[q].len() == 0) by {
                            if q < p {
                                assert(slots@[q] == before[q]);
                            } else {
                                assert(s@.pt[q] == s.pt@[q]@);
                                if s.pt@[q]@.len() == 0 {
                                    assert(chain_of(slots@[q]) =~= s@.pt[q]);
                                }
                            }
                        }
                        assert forall|q: int| 0 <= q < slots@.len() implies !(
                        #[trigger] slots@[q] is Present) by {
                            if q < p {
                                assert(slots@[q] == before[q]);
                            }
                        }
                    }
                    p += 1;
                }
                proof {
                    assert(slot_chains(slots@) =~= snapshot_table(s@).chains) by {
                        assert forall|pid: PageId| slot_chains(slots@).contains_key(pid) implies
                            #[trigger] slot_chains(slots@)[pid] == snapshot_table(
                            s@,
                        ).chains[pid] by {
                            assert(chain_of(slots@[pid as int]) == s@.pt[pid as int]);
                        }
                        assert forall|pid: PageId| slot_chains(slots@).contains_key(pid)
                            == snapshot_table(s@).chains.contains_key(pid) by {
                            if 1 <= pid < slots@.len() {
                                assert(chain_of(slots@[pid as int]) == s@.pt[pid as int]);
                            }
                        }
                    }
                    assert(s@.pt[0] == s.pt@[0]@);
                }
            },
        }
        let ghost base = table_of(slots@, meta_lsns@);
        if !chains_are_sound(&log, &slots, &meta_lsns) {
            return Err(Error::Corruption { at: last });
        }
        // the first entry at or behind the offset of the snapshot
        let n = log.len();
        let mut from: usize = n;
        proof {
            assert(es.take(n as int) =~= es);
        }
        while from > 0 && log.entry(from - 1).lsn >= last
            invariant
                from <= n,
                n == es.len(),
                es == log@,
                count_below(es, last) == count_below(es.take(from as int), last),
            decreases from,
        {
            proof {
                assert(es.take(from as int).drop_last() =~= es.take(from - 1));
                assert(es.take(from as int).last() == es[from - 1]);
            }
            from -= 1;
        }
        proof {
            if from > 0 {
                assert(es.take(from as int).last() == es[from - 1]);
            }
            assert(from == count_below(es, last));
            lemma_count_below(es, seg as int, last);
            crate::pagecache::model::lemma_lsn_below_end(es, seg as int);
            lemma_log_end(es, seg as int);
        }
        let mut i: usize = from;
        proof {
            assert(es.subrange(from as int, from as int) =~= Seq::<Placed>::empty());
            match snapshot {
                Some(s) => {
                    assert forall|pid: PageId, k: int|
                        base.chains.contains_key(pid) && 0 <= k < base.chains[pid].len() implies (
                    #[trigger] base.chains[pid][k]) < last by {
                        assert(s@.pt[pid as int][k] < s@.last_lsn);
                    }
                    assert forall|k: int| 0 <= k < base.meta.len() implies (
                    #[trigger] base.meta[k]) < last by {
                        assert(s@.pt[0][k] < s@.last_lsn);
                    }
                    assert(base.chains.dom().finite()) by {
                        lemma_chains_finite(slots@);
                    }
                },
                None => {},
            }
            assert(table_ok(base, last as int));
        }
        while i < n
            invariant
                from <= i <= n,
                n == es.len(),
                es == log@,
                seg_ok(seg as int),
                well_placed(es, seg as int),
                slots.wf(),
                slots@.len() >= 1,
                slots@[0] is Free,
                paged_only(slots@),
                table_of(slots@, meta_lsns@) == replay(base, es.subrange(from as int, i as int)),
                table_sound(es, table_of(slots@, meta_lsns@)),
                table_ok(
                    table_of(slots@, meta_lsns@),
                    if i < n {
                        es[i as int].lsn as int
                    } else {
                        log_end(es, seg as int)
                    },
                ),
                i == from ==> table_ok(table_of(slots@, meta_lsns@), last as int),
                forall|k: int| from <= k < n ==> (#[trigger] es[k]).lsn >= last,
                forall|k: int| 0 <= k < n ==> (#[trigger] es[k]).lsn < log_end(es, seg as int),
                last <= log_end(es, seg as int),
            decreases n - i,
        {
            let e = log.entry(i);
            let ghost t = table_of(slots@, meta_lsns@);
            proof {
                assert(es.subrange(from as int, i + 1).drop_last() =~= es.subrange(
                    from as int,
                    i as int,
                ));
                assert(es.subrange(from as int, i + 1).last() == es[i as int]);
                let bound = if i + 1 < n {
                    es[i + 1].lsn as int
                } else {
                    log_end(es, seg as int)
                };
                if i + 1 < n {
                    lemma_ascending_lsn(es, seg as int, i as int, i + 1);
                }
                if i == from {
                    lemma_table_ok_later(t, last as int, es[i as int].lsn as int);
                }
                lemma_apply_ok(t, e@, bound);
                lemma_record_at_index(es, seg as int, i as int);
                lemma_sound_applied(es, t, e@);
            }
            apply_entry(&mut slots, &mut meta_lsns, e);
            i += 1;
        }
        proof {
            assert(es.subrange(from as int, n as int) =~= es.skip(from as int));
            if from == n {
                lemma_table_ok_later(
                    table_of(slots@, meta_lsns@),
                    last as int,
                    log_end(es, seg as int),
                );
            }
        }
        let meta = match load_meta(&log, &meta_lsns) {
            Ok(meta) => meta,
            Err(lsn) => {
                return Err(Error::Corruption { at: lsn });
            },
        };
        // the free pages
        let mut free: Vec<(PageId, u64)> = Vec::new();
        let mut p: usize = 1;
        let ghost chains = slot_chains(slots@);
        while p < slots.len()
            invariant
                slots.wf(),
                1 <= p <= slots@.len(),
                chains == slot_chains(slots@),
                free@ == free_pages(chains, p as int),
                forall|k: int|
                    0 <= k < free@.len() ==> 1 <= (#[trigger] free@[k]).0 < p && slots@[free@[k].0 as int]
                        is Free && free@[k].1 == 0,
                forall|a: int, b: int|
                    0 <= a < b < free@.len() ==> (#[trigger] free@[a]).0 < (#[trigger] free@[b]).0,
            decreases slots@.len() - p,
        {
            let ghost before = free@;
            if is_free(slots.get(p)) {
                free.push((p as u64, 0));
                proof {
                    assert forall|k: int| 0 <= k < free@.len() implies 1 <= (
                    #[trigger] free@[k]).0 < p + 1 && slots@[free@[k].0 as int] is Free
                        && free@[k].1 == 0 by {
                        if k < before.len() {
                            assert(free@[k] == before[k]);
                        }
                    }
                    assert forall|a: int, b: int| 0 <= a < b < free@.len() implies (
                    #[trigger] free@[a]).0 < (#[trigger] free@[b]).0 by {
                        assert(free@[a] == before[a]);
                        if b < before.len() {
                            assert(free@[b] == before[b]);
                        }
                    }
                }
            }
            p += 1;
        }
        let c = PageCache {
            config,
            log,
            slots,
            meta,
            meta_lsns,
            free,
            epoch: 1,
            pins: Vec::new(),
            ops: 0,
            poisoned: false,
            base: Ghost(base),
            from: Ghost(from as int),
        };
        proof {
            assert forall|q: int| 0 <= q < c.slots@.len() implies present_ok::<T>(
                c.log@,
                #[trigger] c.slots@[q],
            ) by {
                assert(!(c.slots@[q] is Present));
            }
        }
        Ok(c)
    }

    /// Whether the chain of the page `pid` is in memory: the page is live,
    /// and its fragments are held beside their offsets.
    pub closed spec fn resident(&self, pid: PageId) -> bool {
        1 <= pid < self.slots@.len() && self.slots@[pid as int] is Present
    }

    /// Whether the chain of the page `pid` is in memory.
    pub fn is_resident(&self, pid: PageId) -> (r: bool)
        requires
            self.wf(),
        ensures
            r == self.resident(pid),
            r ==> self@.table.chains.contains_key(pid),
    {
        if pid == 0 || pid >= self.slots.len() as u64 {
            return false;
        }
        match self.slots.get(pid as usize) {
            PageEntry::Present { stack } => true,
            _ => false,
        }
    }

    /// Gives up the chain of the page `pid` in memory: only the offsets of
    /// its fragments are kept, and the chain is read from the log when the
    /// page is read next. The chains of the other pages stay where they are,
    /// and what the cache holds does not change.
    pub fn page_out(&mut self, pid: PageId)
        requires
            old(self).wf(),
        ensures
            final(self).wf(),
            final(self)@ == old(self)@,
            final(self).options() == old(self).options(),
            !final(self).resident(pid),
            forall|q: PageId| q != pid ==> final(self).resident(q) == old(self).resident(q),
    {
        if pid == 0 || pid >= self.slots.len() as u64 {
            return ;
        }
        let i = pid as usize;
        let offsets: Vec<LogId> = match self.slots.get(i) {
            PageEntry::Present { stack } => {
                let mut chain: Vec<LogId> = Vec::new();
                let mut k: usize = 0;
                while k < stack.len()
                    invariant
                        k <= stack@.len(),
                        chain@ == ids(stack@).take(k as int),
                    decreases stack@.len() - k,
                {
                    chain.push(stack.node(k).id);
                    proof {
                        assert(chain@ =~= ids(stack@).take(k + 1));
                    }
                    k += 1;
                }
                proof {
                    assert(ids(stack@).take(k as int) =~= ids(stack@));
                }
                chain
            },
            _ => {
                return ;
            },
        };
        self.slots.set(i, PageEntry::PagedOut { offsets });
        proof {
            let slots = old(self).slots@;
            let slots2 = self.slots@;
            assert(slot_chains(slots2) =~= slot_chains(slots));
            assert forall|p: int| 0 <= p < slots2.len() implies present_ok::<T>(
                self.log@,
                #[trigger] slots2[p],
            ) by {
                if p != i {
                    assert(slots2[p] == slots[p]);
                }
            }
            assert(free_ok(self.free@, slots2, self.epoch)) by {
                assert forall|k: int| 0 <= k < self.free@.len() implies 1 <= (
                #[trigger] self.free@[k]).0 < slots2.len() && slots2[self.free@[k].0 as int]
                    is Free && self.free@[k].1 < self.epoch by {
                    assert(slots[self.free@[k].0 as int] is Free);
                }
            }
        }
    }

    /// The bytes of the log file.
    pub fn image(&self) -> (r: Vec<u8>)
        ensures
            r@ == crate::pagecache::layout::image_of(self@.log, self@.seg),
    {
        self.log.image()
    }

    /// Notes that the log is on disk up to `lsn`.
    pub fn make_stable(&mut self, lsn: LogId) -> (r: Result<(), Error>)
        requires
            old(self).wf(),
        ensures
            final(self).wf(),
            final(self).options() == old(self).options(),
            r is Ok <==> lsn <= log_end(old(self)@.log, old(self)@.seg),
            r is Ok ==> final(self)@ == (CacheView {
                stable: if lsn > old(self)@.stable {
                    lsn
                } else {
                    old(self)@.stable
                },
                ..old(self)@
            }),
            r is Err ==> r->Err_0 == Error::ReportableBug && final(self)@ == old(self)@,
    {
        self.log.make_stable(lsn)
    }

    /// Notes that the whole log is on disk, and returns the offset at which
    /// it ends.
    pub fn flush(&mut self) -> (r: LogId)
        requires
            old(self).wf(),
        ensures
            final(self).wf(),
            final(self).options() == old(self).options(),
            r == log_end(old(self)@.log, old(self)@.seg),
            final(self)@ == (CacheView { stable: r, ..old(self)@ }),
    {
        let tail = self.log.tail();
        let _ = self.log.stable();
        let _ = self.log.make_stable(tail);
        tail
    }

    /// The number of page identifiers in use, the reserved identifier 0
    /// included.
    pub fn max_pid(&self) -> (r: PageId)
        requires
            self.wf(),
        ensures
            r == self@.table.size,
    {
        self.slots.len() as u64
    }

    /// Whether the segment `k` of the log can be used again: the log has
    /// gone on behind it, no live page and no change of the metadata has a
    /// fragment in it, and no guard is held.
    pub fn segment_reusable(&self, k: u64) -> (r: bool)
        requires
            self.wf(),
        ensures
            r == segment_free(self@, k as int),
    {
        let seg = self.log.segment_size();
        let tail = self.log.tail();
        let ghost t = self@.table;
        proof {
            lemma_segment_complete(k as int, seg as int, tail as int);
        }
        if k >= tail / seg {
            return false;
        }
        if self.pins.len() > 0 {
            return false;
        }
        if chain_in_segment(&self.meta_lsns, k, seg) {
            return false;
        }
        let mut p: usize = 1;
        while p < self.slots.len()
            invariant
                self.slots.wf(),
                1 <= p <= self.slots@.len(),
                seg > 0,
                seg == self.log.seg(),
                t == self@.table,
                forall|pid: PageId|
                    #[trigger] t.chains.contains_key(pid) && pid < p ==> !in_segment(
                        t.chains[pid],
                        k as int,
                        seg as int,
                    ),
            decreases self.slots@.len() - p,
        {
            let found = match self.slots.get(p) {
                PageEntry::Free => false,
                PageEntry::Present { stack } => stack_in_segment(stack, k, seg),
                PageEntry::PagedOut { offsets } => chain_in_segment(offsets, k, seg),
            };
            if found {
                assert(t.chains.contains_key(p as PageId));
                return false;
            }
            p += 1;
        }
        true
    }

    /// The reference count of the segment `k`: the number of offsets in it
    /// that the page table names, or `u64::MAX` where they are more.
    pub fn segment_refs(&self, k: u64) -> (r: u64)
        requires
            self.wf(),
        ensures
            r == saturated(reference_count(self@.table, k as int, self@.seg)),
    {
        let seg = self.log.segment_size();
        let ghost t = self@.table;
        let mut sum: u64 = 0;
        let mut p: usize = 1;
        while p < self.slots.len()
            invariant
                self.slots.wf(),
                1 <= p <= self.slots@.len(),
                seg > 0,
                seg == self.log.seg(),
                t == self@.table,
                0 <= count_chains(t.chains, k as int, seg as int, p as int),
                sum == saturated(count_chains(t.chains, k as int, seg as int, p as int)),
            decreases self.slots@.len() - p,
        {
            let here: u64 = match self.slots.get(p) {
                PageEntry::Free => 0,
                PageEntry::Present { stack } => {
                    let ghost chain = ids(stack@);
                    let mut n: u64 = 0;
                    let mut i: usize = 0;
                    proof {
                        assert(chain.take(0) =~= Seq::<LogId>::empty());
                    }
                    while i < stack.len()
                        invariant
                            i <= stack@.len(),
                            seg > 0,
                            chain == ids(stack@),
                            0 <= count_in(chain.take(i as int), k as int, seg as int),
                            n == saturated(count_in(chain.take(i as int), k as int, seg as int)),
                        decreases stack@.len() - i,
                    {
                        proof {
                            assert(chain.take(i + 1).drop_last() =~= chain.take(i as int));
                            assert(chain.take(i + 1).last() == stack@[i as int].id);
                        }
                        if stack.node(i).id / seg == k {
                            n = n.saturating_add(1);
                        }
                        i += 1;
                    }
                    proof {
                        assert(chain.take(i as int) =~= chain);
                    }
                    n
                },
                PageEntry::PagedOut { offsets } => count_offsets(offsets, k, seg),
            };
            proof {
                if t.chains.contains_key(p as PageId) {
                    assert(t.chains[p as PageId] == chain_of(self.slots@[p as int]));
                    lemma_count_in(t.chains[p as PageId], k as int, seg as int);
                }
            }
            sum = sum.saturating_add(here);
            p += 1;
        }
        proof {
            lemma_count_in(self.meta_lsns@, k as int, seg as int);
        }
        sum.saturating_add(count_offsets(&self.meta_lsns, k, seg))
    }

    /// The live pages that have a fragment in the segment `k`, in
    /// ascending order: the pages to rewrite before the segment can be used
    /// again.
    pub fn segment_pages(&self, k: u64) -> (r: Vec<PageId>)
        requires
            self.wf(),
        ensures
            r@ == owners(self@.table, k as int, self@.seg, self@.table.size),
    {
        let seg = self.log.segment_size();
        let ghost t = self@.table;
        let mut out: Vec<PageId> = Vec::new();
        let mut p: usize = 1;
        while p < self.slots.len()
            invariant
                self.slots.wf(),
                1 <= p <= self.slots@.len(),
                seg > 0,
                seg == self.log.seg(),
                t == self@.table,
                out@ == owners(t, k as int, seg as int, p as int),
            decreases self.slots@.len() - p,
        {
            let found = match self.slots.get(p) {
                PageEntry::Free => false,
                PageEntry::Present { stack } => stack_in_segment(stack, k, seg),
                PageEntry::PagedOut { offsets } => chain_in_segment(offsets, k, seg),
            };
            proof {
                if t.chains.contains_key(p as PageId) {
                    assert(t.chains[p as PageId] == chain_of(self.slots@[p as int]));
                }
            }
            if found {
                out.push(p as u64);
            }
            p += 1;
        }
        out
    }

    /// Rewrites the page `pid`: its chain becomes one anchor, the page that
    /// the chain stands for. Returns the new key.
    pub fn rewrite(&mut self, pid: PageId) -> (r: Result<LogId, Error>)
        requires
            old(self).wf(),
        ensures
            final(self).wf(),
            final(self).options() == old(self).options(),
            ({
                let v = old(self)@;
                if !v.table.chains.contains_key(pid) || fold_page::<T>(
                    v.log,
                    v.table.chains[pid],
                ) is Err {
                    r is Err && r->Err_0 == get_error::<T>(v, pid) && final(self)@ == v
                } else {
                    let rec = replace_record::<T>(
                        pid,
                        fold_page::<T>(v.log, v.table.chains[pid])->Ok_0,
                    );
                    if can_write(v, rec) {
                        r is Ok && r->Ok_0 == added_entry(v.log, rec, v.seg).lsn && final(self)@
                            == after(v, rec)
                    } else {
                        r is Err && r->Err_0 == write_error(v, rec) && final(self)@ == v
                    }
                }
            }),
    {
        match self.get(pid) {
            Ok((key, page, _)) => self.replace(pid, key, page),
            Err(e) => Err(e),
        }
    }

    /// Registers a reader. While its guard is held, no page that is freed
    /// is given out again.
    pub fn pin(&mut self) -> (g: Guard)
        requires
            old(self).wf(),
        ensures
            final(self).wf(),
            g@ == old(self)@.epoch,
            final(self)@ == (CacheView { pins: old(self)@.pins.push(g@), ..old(self)@ }),
    {
        let g = Guard { epoch: self.epoch };
        self.pins.push(self.epoch);
        g
    }

    /// Ends a reader's registration. A guard that is not held is an error.
    pub fn unpin(&mut self, g: Guard) -> (r: Result<(), Error>)
        requires
            old(self).wf(),
        ensures
            final(self).wf(),
            r is Ok <==> old(self)@.pins.contains(g@),
            r is Ok ==> exists|k: int|
                {
                    &&& 0 <= k < old(self)@.pins.len()
                    &&& old(self)@.pins[k] == g@
                    &&& forall|j: int| 0 <= j < k ==> old(self)@.pins[j] != g@
                    &&& final(self)@ == (CacheView {
                        pins: old(self)@.pins.remove(k),
                        ..old(self)@
                    })
                },
            r is Err ==> r->Err_0 == Error::ReportableBug && final(self)@ == old(self)@,
    {
        let mut i: usize = 0;
        while i < self.pins.len()
            invariant
                i <= self.pins.len(),
                *self == *old(self),
                self.wf(),
                forall|j: int| 0 <= j < i ==> self.pins@[j] != g.epoch,
            decreases self.pins.len() - i,
        {
            if self.pins[i] == g.epoch {
                self.pins.remove(i);
                proof {
                    assert(old(self)@.pins[i as int] == g@);
                    assert forall|j: int| 0 <= j < self.pins@.len() implies (
                    #[trigger] self.pins@[j]) <= self.epoch by {
                        if j < i {
                            assert(self.pins@[j] == old(self).pins@[j]);
                        } else {
                            assert(self.pins@[j] == old(self).pins@[j + 1]);
                        }
                    }
                    assert(self@ == (CacheView {
                        pins: old(self)@.pins.remove(i as int),
                        ..old(self)@
                    }));
                }
                return Ok(());
            }
            i += 1;
        }
        Err(Error::ReportableBug)
    }

    /// Allocates a page with the anchor `anchor`: writes the allocation to
    /// the log and installs a chain of that one fragment. Returns the page
    /// and the key for the next change of it.
    pub fn allocate(&mut self, anchor: T) -> (r: Result<(PageId, LogId), Error>)
        requires
            old(self).wf(),
        ensures
            final(self).wf(),
            final(self).options() == old(self).options(),
            r is Ok <==> (reusable(old(self)@) || old(self)@.table.size < usize::MAX) && can_write(
                old(self)@,
                allocate_record::<T>(old(self)@, anchor@),
            ),
            r is Ok ==> {
                let rec = allocate_record::<T>(old(self)@, anchor@);
                &&& r->Ok_0.0 == next_pid(old(self)@)
                &&& r->Ok_0.1 == added_entry(old(self)@.log, rec, old(self)@.seg).lsn
                &&& final(self)@ == (CacheView {
                    free: if reusable(old(self)@) {
                        old(self)@.free.drop_first()
                    } else {
                        old(self)@.free
                    },
                    ..after(old(self)@, rec)
                })
            },
            r is Err ==> final(self)@ == old(self)@ && r->Err_0 == (if !(reusable(old(self)@)
                || old(self)@.table.size < usize::MAX) {
                Error::Io
            } else {
                write_error(old(self)@, allocate_record::<T>(old(self)@, anchor@))
            }),
    {
        let reuse = self.first_is_reusable();
        let pid: PageId = if reuse {
            self.free[0].0
        } else {
            if self.slots.len() == usize::MAX {
                return Err(Error::Io);
            }
            self.slots.len() as u64
        };
        let payload = anchor.encode();
        let ghost rec = allocate_record::<T>(old(self)@, anchor@);
        let ghost log0 = self.log@;
        let ghost seg = self.log.seg();
        let ghost e = added_entry(log0, rec, seg);
        let ghost t0 = self@.table;
        if self.poisoned {
            return Err(Error::Io);
        }
        let lsn = match self.log.append(RecordKind::Allocate, pid, payload) {
            Ok(lsn) => lsn,
            Err(err) => {
                return Err(err);
            },
        };
        self.ops = bump_ops(self.ops);
        let mut stack: Stack<T> = Stack::new();
        stack.push(anchor, lsn);
        proof {
            T::lemma_decoding(anchor@);
            lemma_record_at_appended(log0, rec, seg, lsn);
            assert(ids(stack@) =~= seq![lsn]);
        }
        if reuse {
            self.free.remove(0);
            self.slots.set(pid as usize, PageEntry::Present { stack });
        } else {
            self.slots.push(PageEntry::Present { stack });
        }
        proof {
            let slots = old(self).slots@;
            let slots2 = self.slots@;
            let meta = self.meta_lsns@;
            assert(!t0.chains.contains_key(pid));
            assert(table_of(slots2, meta).chains =~= apply(t0, e).chains);
            assert(table_of(slots2, meta) == apply(t0, e));
            lemma_after_append::<T>(
                log0,
                seg,
                rec,
                slots,
                slots2,
                meta,
                meta,
                old(self).base@,
                old(self).from@,
            );
            assert(free_ok(self.free@, slots2, self.epoch)) by {
                let free0 = old(self).free@;
                assert forall|k: int| 0 <= k < self.free@.len() implies 1 <= (
                #[trigger] self.free@[k]).0 < slots2.len() && slots2[self.free@[k].0 as int]
                    is Free && self.free@[k].1 < self.epoch by {
                    if reuse {
                        assert(self.free@[k] == free0[k + 1]);
                        assert(free0[0].0 != free0[k + 1].0);
                    } else {
                        assert(self.free@[k] == free0[k]);
                    }
                }
                assert forall|i: int, j: int| 0 <= i < j < self.free@.len() implies (
                #[trigger] self.free@[i]).0 != (#[trigger] self.free@[j]).0 by {
                    if reuse {
                        assert(self.free@[i] == free0[i + 1]);
                        assert(self.free@[j] == free0[j + 1]);
                    }
                }
            }
            if reuse {
                assert(self.free@ =~= old(self).free@.drop_first());
            }
        }
        Ok((pid, lsn))
    }

    /// Whether the page that was freed first can be given out again.
    fn first_is_reusable(&self) -> (r: bool)
        ensures
            r == reusable(self@),
    {
        if self.free.len() == 0 {
            return false;
        }
        let since = self.free[0].1;
        let mut i: usize = 0;
        while i < self.pins.len()
            invariant
                i <= self.pins.len(),
                self.free@.len() > 0,
                since == self.free@[0].1,
                forall|j: int| 0 <= j < i ==> since < #[trigger] self.pins@[j],
            decreases self.pins.len() - i,
        {
            if self.pins[i] <= since {
                assert(self@.pins[i as int] <= self@.free[0].1);
                return false;
            }
            i += 1;
        }
        true
    }

    /// The state of the page `pid`.
    pub fn state(&self, pid: PageId) -> (r: PageState)
        requires
            self.wf(),
        ensures
            r == state_of(self@, pid),
    {
        if pid == 0 || pid >= self.slots.len() as u64 {
            return PageState::Freed;
        }
        let i = pid as usize;
        let (len, first): (usize, LogId) = match self.slots.get(i) {
            PageEntry::Free => {
                return PageState::Freed;
            },
            PageEntry::Present { stack } => {
                assert(self@.table.chains.contains_key(pid));
                assert(self@.table.chains[pid].len() > 0);
                (stack.len(), stack.node(0).id)
            },
            PageEntry::PagedOut { offsets } => {
                assert(self@.table.chains.contains_key(pid));
                assert(self@.table.chains[pid].len() > 0);
                (offsets.len(), offsets[0])
            },
        };
        assert(first == self@.table.chains[pid][0]);
        if len > 1 {
            return PageState::Chained(len - 1);
        }
        match self.log.read(first) {
            Some(record) => match record.kind {
                RecordKind::Allocate => PageState::Allocated,
                _ => PageState::Replaced,
            },
            None => PageState::Replaced,
        }
    }

    /// The key of the head of the page `pid`, if the page is live.
    pub fn head(&self, pid: PageId) -> (r: Option<LogId>)
        requires
            self.wf(),
        ensures
            r is Some <==> self@.table.chains.contains_key(pid),
            r is Some ==> r->0 == self@.table.chains[pid].last(),
    {
        if pid == 0 || pid >= self.slots.len() as u64 {
            return None;
        }
        let i = pid as usize;
        match self.slots.get(i) {
            PageEntry::Free => None,
            PageEntry::Present { stack } => {
                assert(self@.table.chains.contains_key(pid));
                assert(self@.table.chains[pid].len() > 0);
                stack.head()
            },
            PageEntry::PagedOut { offsets } => {
                assert(self@.table.chains.contains_key(pid));
                assert(self@.table.chains[pid].len() > 0);
                Some(offsets[offsets.len() - 1])
            },
        }
    }

    /// Replaces the chain of the page `pid` by the anchor `anchor`, if the
    /// head of the page is still `key`. Returns the new key.
    pub fn replace(&mut self, pid: PageId, key: LogId, anchor: T) -> (r: Result<LogId, Error>)
        requires
            old(self).wf(),
        ensures
            final(self).wf(),
            final(self).options() == old(self).options(),
            r is Ok <==> cas_error(old(self)@, pid, key) is None && can_write(
                old(self)@,
                replace_record::<T>(pid, anchor@),
            ),
            r is Ok ==> {
                let rec = replace_record::<T>(pid, anchor@);
                &&& r->Ok_0 == added_entry(old(self)@.log, rec, old(self)@.seg).lsn
                &&& final(self)@ == (after(old(self)@, rec))
            },
            r is Err ==> final(self)@ == old(self)@ && r->Err_0 == (match cas_error(
                old(self)@,
                pid,
                key,
            ) {
                Some(e) => e,
                None => write_error(old(self)@, replace_record::<T>(pid, anchor@)),
            }),
    {
        match self.head(pid) {
            None => {
                return Err(Error::ReportableBug);
            },
            Some(head) => {
                if head != key {
                    return Err(Error::CasFailed { head });
                }
            },
        }
        let payload = anchor.encode();
        let ghost rec = replace_record::<T>(pid, anchor@);
        let ghost log0 = self.log@;
        let ghost seg = self.log.seg();
        let ghost e = added_entry(log0, rec, seg);
        let ghost t0 = self@.table;
        if self.poisoned {
            return Err(Error::Io);
        }
        let lsn = match self.log.append(RecordKind::Replace, pid, payload) {
            Ok(lsn) => lsn,
            Err(err) => {
                return Err(err);
            },
        };
        self.ops = bump_ops(self.ops);
        proof {
            T::lemma_decoding(anchor@);
            lemma_record_at_appended(log0, rec, seg, lsn);
        }
        let n = self.slots.len();
        assert(t0.chains.contains_key(pid) && 1 <= pid < n);
        let i = pid as usize;
        let node = Node { inner: anchor, id: lsn };
        let slot = self.slots.get_mut(i);
        match slot {
            PageEntry::Present { stack } => {
                assert(ids(stack@) == t0.chains[pid]);
                assert(ids(stack@).last() == stack@.last().id);
                let _ = stack.cas(Some(key), node);
            },
            _ => {
                let mut stack: Stack<T> = Stack::new();
                stack.push(node.inner, node.id);
                *slot = PageEntry::Present { stack };
            },
        }
        proof {
            let slots = old(self).slots@;
            let slots2 = self.slots@;
            let meta = self.meta_lsns@;
            assert(ids(seq![node]) =~= seq![lsn]);
            assert(chain_of(slots2[i as int]) =~= seq![lsn]);
            assert(table_of(slots2, meta).chains =~= apply(t0, e).chains);
            assert(table_of(slots2, meta) == apply(t0, e));
            lemma_after_append::<T>(
                log0,
                seg,
                rec,
                slots,
                slots2,
                meta,
                meta,
                old(self).base@,
                old(self).from@,
            );
            assert(free_ok(self.free@, slots2, self.epoch)) by {
                assert forall|k: int| 0 <= k < self.free@.len() implies 1 <= (
                #[trigger] self.free@[k]).0 < slots2.len() && slots2[self.free@[k].0 as int]
                    is Free && self.free@[k].1 < self.epoch by {
                    assert(slots[self.free@[k].0 as int] is Free);
                }
            }
        }
        Ok(lsn)
    }

    /// Links the fragment `frag` to the chain of the page `pid`, if the head
    /// of the page is still `key`. Returns the new key. Where the chain has
    /// as many links as the threshold allows, the page is rewritten instead:
    /// its chain becomes one anchor, the page with `frag` merged into it.
    pub fn link(&mut self, pid: PageId, key: LogId, frag: T) -> (r: Result<LogId, Error>)
        requires
            old(self).wf(),
        ensures
            final(self).wf(),
            final(self).options() == old(self).options(),
            r is Ok <==> cas_error(old(self)@, pid, key) is None && (promoted(old(self)@, pid)
                ==> fold_page::<T>(old(self)@.log, old(self)@.table.chains[pid]) is Ok)
                && can_write(old(self)@, link_record::<T>(old(self)@, pid, frag@)),
            r is Ok ==> {
                let rec = link_record::<T>(old(self)@, pid, frag@);
                &&& r->Ok_0 == added_entry(old(self)@.log, rec, old(self)@.seg).lsn
                &&& final(self)@ == (after(old(self)@, rec))
            },
            r is Err ==> final(self)@ == old(self)@ && r->Err_0 == link_error::<T>(
                old(self)@,
                pid,
                key,
                frag@,
            ),
    {
        match self.head(pid) {
            None => {
                return Err(Error::ReportableBug);
            },
            Some(head) => {
                if head != key {
                    return Err(Error::CasFailed { head });
                }
            },
        }
        let n = self.slots.len();
        let ghost t0 = self@.table;
        assert(t0.chains.contains_key(pid) && 1 <= pid < n);
        let i = pid as usize;
        let links: usize = match self.slots.get(i) {
            PageEntry::Free => 0,
            PageEntry::Present { stack } => stack.len(),
            PageEntry::PagedOut { offsets } => offsets.len(),
        };
        assert(links == t0.chains[pid].len());
        if links as u64 > self.config.page_consolidation_threshold {
            let (_, mut page, _) = match self.get(pid) {
                Ok(found) => found,
                Err(e) => {
                    return Err(e);
                },
            };
            page.merge(&frag);
            return self.replace(pid, key, page);
        }
        let payload = frag.encode();
        let ghost rec = link_record::<T>(old(self)@, pid, frag@);
        let ghost log0 = self.log@;
        let ghost seg = self.log.seg();
        let ghost e = added_entry(log0, rec, seg);
        if self.poisoned {
            return Err(Error::Io);
        }
        let lsn = match self.log.append(RecordKind::Link, pid, payload) {
            Ok(lsn) => lsn,
            Err(err) => {
                return Err(err);
            },
        };
        self.ops = bump_ops(self.ops);
        proof {
            T::lemma_decoding(frag@);
            lemma_record_at_appended(log0, rec, seg, lsn);
            assert(present_ok::<T>(log0, old(self).slots@[i as int]));
        }
        let node = Node { inner: frag, id: lsn };
        let slot = self.slots.get_mut(i);
        match slot {
            PageEntry::Present { stack } => {
                let ghost before = stack@;
                assert(ids(stack@) == t0.chains[pid]);
                assert(ids(stack@).last() == stack@.last().id);
                let _ = stack.cap(Some(key), node);
                proof {
                    assert(ids(stack@) =~= ids(before).push(lsn));
                    assert forall|k: int| 0 <= k < stack@.len() implies frag_at::<T>(
                        appended(log0, rec, seg),
                        (#[trigger] stack@[k]).id,
                    ) == Some(stack@[k].inner@) by {
                        if k < before.len() {
                            assert(stack@[k] == before[k]);
                            assert(t0.chains[pid][k] == before[k].id);
                            assert(t0.chains[pid][k] < log_end(log0, seg));
                            lemma_record_at_appended(log0, rec, seg, before[k].id);
                        }
                    }
                }
            },
            PageEntry::PagedOut { offsets } => {
                offsets.push(lsn);
            },
            PageEntry::Free => {},
        }
        proof {
            let slots = old(self).slots@;
            let slots2 = self.slots@;
            let meta = self.meta_lsns@;
            assert(chain_of(slots2[i as int]) =~= t0.chains[pid].push(lsn));
            assert(table_of(slots2, meta).chains =~= apply(t0, e).chains);
            assert(table_of(slots2, meta) == apply(t0, e));
            lemma_after_append::<T>(
                log0,
                seg,
                rec,
                slots,
                slots2,
                meta,
                meta,
                old(self).base@,
                old(self).from@,
            );
            assert(free_ok(self.free@, slots2, self.epoch)) by {
                assert forall|k: int| 0 <= k < self.free@.len() implies 1 <= (
                #[trigger] self.free@[k]).0 < slots2.len() && slots2[self.free@[k].0 as int]
                    is Free && self.free@[k].1 < self.epoch by {
                    assert(slots[self.free@[k].0 as int] is Free);
                }
            }
        }
        Ok(lsn)
    }

    /// Releases the page `pid`. Its identifier is given out again only when
    /// every guard that is held now has been given back.
    pub fn free(&mut self, pid: PageId) -> (r: Result<(), Error>)
        requires
            old(self).wf(),
        ensures
            final(self).wf(),
            final(self).options() == old(self).options(),
            r is Ok <==> old(self)@.table.chains.contains_key(pid) && old(self)@.epoch < u64::MAX
                && can_write(old(self)@, free_record(pid)),
            r is Ok ==> final(self)@ == (CacheView {
                free: old(self)@.free.push((pid, old(self)@.epoch)),
                epoch: (old(self)@.epoch + 1) as u64,
                ..after(old(self)@, free_record(pid))
            }),
            r is Err ==> final(self)@ == old(self)@ && r->Err_0 == (if !old(
                self,
            )@.table.chains.contains_key(pid) {
                Error::ReportableBug
            } else if old(self)@.epoch == u64::MAX {
                Error::Unsupported
            } else {
                write_error(old(self)@, free_record(pid))
            }),
    {
        if self.head(pid).is_none() {
            return Err(Error::ReportableBug);
        }
        if self.epoch == u64::MAX {
            return Err(Error::Unsupported);
        }
        let n = self.slots.len();
        let ghost t0 = self@.table;
        assert(t0.chains.contains_key(pid) && 1 <= pid < n);
        let ghost rec = free_record(pid);
        let ghost log0 = self.log@;
        let ghost seg = self.log.seg();
        let ghost e = added_entry(log0, rec, seg);
        if self.poisoned {
            return Err(Error::Io);
        }
        match self.log.append(RecordKind::Free, pid, Vec::new()) {
            Ok(_) => {},
            Err(err) => {
                return Err(err);
            },
        }
        self.ops = bump_ops(self.ops);
        self.slots.set(pid as usize, PageEntry::Free);
        self.free.push((pid, self.epoch));
        self.epoch = self.epoch + 1;
        proof {
            let slots = old(self).slots@;
            let slots2 = self.slots@;
            let meta = self.meta_lsns@;
            assert(table_of(slots2, meta).chains =~= apply(t0, e).chains);
            assert(table_of(slots2, meta) == apply(t0, e));
            lemma_after_append::<T>(
                log0,
                seg,
                rec,
                slots,
                slots2,
                meta,
                meta,
                old(self).base@,
                old(self).from@,
            );
            assert(free_ok(self.free@, slots2, self.epoch)) by {
                let free0 = old(self).free@;
                assert forall|k: int| 0 <= k < self.free@.len() implies 1 <= (
                #[trigger] self.free@[k]).0 < slots2.len() && slots2[self.free@[k].0 as int]
                    is Free && self.free@[k].1 < self.epoch by {
                    if k < free0.len() {
                        assert(self.free@[k] == free0[k]);
                        assert(slots[free0[k].0 as int] is Free);
                    }
                }
                assert forall|i: int, j: int| 0 <= i < j < self.free@.len() implies (
                #[trigger] self.free@[i]).0 != (#[trigger] self.free@[j]).0 by {
                    assert(self.free@[i] == free0[i]);
                    if j < free0.len() {
                        assert(self.free@[j] == free0[j]);
                    } else {
                        assert(slots[free0[i].0 as int] is Free);
                    }
                }
            }
        }
        Ok(())
    }

    /// Writes a change of the metadata page to the log and makes it.
    fn change_meta(&mut self, diff: MetaDiff) -> (r: Result<(), Error>)
        requires
            old(self).wf(),
        ensures
            final(self).wf(),
            final(self).options() == old(self).options(),
            r is Ok <==> can_write(old(self)@, meta_record(diff@)),
            r is Ok ==> final(self)@ == (CacheView {
                meta: applied(old(self)@.meta, diff@),
                ..after(old(self)@, meta_record(diff@))
            }),
            r is Err ==> final(self)@ == old(self)@ && r->Err_0 == write_error(
                old(self)@,
                meta_record(diff@),
            ),
    {
        let payload = diff.encode();
        let ghost rec = meta_record(diff@);
        let ghost log0 = self.log@;
        let ghost seg = self.log.seg();
        let ghost e = added_entry(log0, rec, seg);
        let ghost t0 = self@.table;
        if self.poisoned {
            return Err(Error::Io);
        }
        let lsn = match self.log.append(RecordKind::Meta, 0, payload) {
            Ok(lsn) => lsn,
            Err(err) => {
                return Err(err);
            },
        };
        self.ops = bump_ops(self.ops);
        self.meta.apply(&diff);
        self.meta_lsns.push(lsn);
        proof {
            let slots = self.slots@;
            let meta = old(self).meta_lsns@;
            let meta2 = self.meta_lsns@;
            assert(meta2 =~= meta.push(lsn));
            assert(table_of(slots, meta2) == apply(t0, e));
            lemma_after_append::<T>(
                log0,
                seg,
                rec,
                slots,
                slots,
                meta,
                meta2,
                old(self).base@,
                old(self).from@,
            );
            lemma_record_at_appended(log0, rec, seg, lsn);
            lemma_diff_decoding(diff@);
            assert(meta2.drop_last() =~= meta);
            assert(fold_meta(self.log@, empty_meta(), meta) == fold_meta(log0, empty_meta(), meta));
        }
        Ok(())
    }

    /// Sets the page of the block with the hash `name` to `new`, or removes
    /// the block where `new` is `None`, if its page is still `expected`.
    /// Where it is another, that one is returned and nothing changes.
    pub fn cas_block_in_meta(
        &mut self,
        name: &[u8],
        expected: Option<PageId>,
        new: Option<PageId>,
    ) -> (r: Result<Result<(), Option<PageId>>, Error>)
        requires
            old(self).wf(),
        ensures
            final(self).wf(),
            final(self).options() == old(self).options(),
            ({
                let current = if old(self)@.meta.blocks.contains_key(name@) {
                    Some(old(self)@.meta.blocks[name@])
                } else {
                    None
                };
                let diff = match new {
                    Some(pid) => MetaDiffView::SetBlock { name: name@, pid },
                    None => MetaDiffView::DelBlock { name: name@ },
                };
                if current != expected {
                    r == Ok::<Result<(), Option<PageId>>, Error>(Err(current)) && final(self)@
                        == old(self)@
                } else if can_write(old(self)@, meta_record(diff)) {
                    r == Ok::<Result<(), Option<PageId>>, Error>(Ok(())) && final(self)@
                        == (CacheView {
                        meta: applied(old(self)@.meta, diff),
                        ..after(old(self)@, meta_record(diff))
                    })
                } else {
                    r == Err::<Result<(), Option<PageId>>, Error>(
                        write_error(old(self)@, meta_record(diff)),
                    ) && final(self)@ == old(self)@
                }
            }),
    {
        let current = self.meta.get_block(name);
        if current != expected {
            return Ok(Err(current));
        }
        let diff = match new {
            Some(pid) => MetaDiff::SetBlock { name: crate::bytes::copy_bytes(name), pid },
            None => MetaDiff::DelBlock { name: crate::bytes::copy_bytes(name) },
        };
        match self.change_meta(diff) {
            Ok(()) => Ok(Ok(())),
            Err(e) => Err(e),
        }
    }

    /// Sets the page of the bucket with the name `name` to `new`, or removes
    /// the bucket where `new` is `None`, if its page is still `expected`.
    /// Where it is another, that one is returned and nothing changes.
    pub fn cas_bucket_in_meta(
        &mut self,
        name: &[u8],
        expected: Option<PageId>,
        new: Option<PageId>,
    ) -> (r: Result<Result<(), Option<PageId>>, Error>)
        requires
            old(self).wf(),
        ensures
            final(self).wf(),
            final(self).options() == old(self).options(),
            ({
                let current = if old(self)@.meta.bucket.contains_key(name@) {
                    Some(old(self)@.meta.bucket[name@])
                } else {
                    None
                };
                let diff = match new {
                    Some(pid) => MetaDiffView::SetBucket { name: name@, pid },
                    None => MetaDiffView::DelBucket { name: name@ },
                };
                if current != expected {
                    r == Ok::<Result<(), Option<PageId>>, Error>(Err(current)) && final(self)@
                        == old(self)@
                } else if can_write(old(self)@, meta_record(diff)) {
                    r == Ok::<Result<(), Option<PageId>>, Error>(Ok(())) && final(self)@
                        == (CacheView {
                        meta: applied(old(self)@.meta, diff),
                        ..after(old(self)@, meta_record(diff))
                    })
                } else {
                    r == Err::<Result<(), Option<PageId>>, Error>(
                        write_error(old(self)@, meta_record(diff)),
                    ) && final(self)@ == old(self)@
                }
            }),
    {
        let current = self.meta.get_bucket(name);
        if current != expected {
            return Ok(Err(current));
        }
        let diff = match new {
            Some(pid) => MetaDiff::SetBucket { name: crate::bytes::copy_bytes(name), pid },
            None => MetaDiff::DelBucket { name: crate::bytes::copy_bytes(name) },
        };
        match self.change_meta(diff) {
            Ok(()) => Ok(Ok(())),
            Err(e) => Err(e),
        }
    }

    /// Reads the page `pid`: the key of its head, the page that its chain
    /// stands for, and the bytes that the chain takes in the log. A chain
    /// that is not in memory is read from the log first, and is in memory
    /// afterwards.
    pub fn get(&mut self, pid: PageId) -> (r: Result<(LogId, T, u64), Error>)
        requires
            old(self).wf(),
        ensures
            final(self).wf(),
            final(self)@ == old(self)@,
            final(self).options() == old(self).options(),
            r is Ok <==> old(self)@.table.chains.contains_key(pid) && fold_page::<T>(
                old(self)@.log,
                old(self)@.table.chains[pid],
            ) is Ok,
            r is Ok ==> {
                let chain = old(self)@.table.chains[pid];
                &&& r->Ok_0.0 == chain.last()
                &&& Ok::<T::V, LogId>(r->Ok_0.1@) == fold_page::<T>(old(self)@.log, chain)
                &&& r->Ok_0.2 == saturated(chain_bytes(old(self)@.log, chain))
            },
            r is Err ==> r->Err_0 == get_error::<T>(old(self)@, pid),
            r is Ok ==> final(self).resident(pid),
            r is Err ==> final(self).resident(pid) == old(self).resident(pid),
            forall|q: PageId| q != pid ==> final(self).resident(q) == old(self).resident(q),
    {
        if pid == 0 || pid >= self.slots.len() as u64 {
            return Err(Error::ReportableBug);
        }
        let i = pid as usize;
        let ghost chain = chain_of(self.slots@[i as int]);
        assert(present_ok::<T>(self.log@, self.slots@[i as int]));
        let pulled: Option<Stack<T>> = match self.slots.get(i) {
            PageEntry::Free => {
                return Err(Error::ReportableBug);
            },
            PageEntry::Present { stack } => None,
            PageEntry::PagedOut { offsets } => {
                match pull::<T>(&self.log, offsets) {
                    Ok(stack) => Some(stack),
                    Err(lsn) => {
                        proof {
                            let j = choose|j: int|
                                0 <= j < offsets@.len() && offsets@[j] == lsn && frag_at::<T>(
                                    self.log@,
                                    lsn,
                                ) is None && forall|i: int|
                                    0 <= i < j ==> frag_at::<T>(self.log@, #[trigger] offsets@[i])
                                        is Some;
                            lemma_fold_page_err::<T>(self.log@, offsets@, j);
                        }
                        return Err(Error::Corruption { at: lsn });
                    },
                }
            },
        };
        assert(self@.table.chains.contains_key(pid));
        assert(self@.table.chains[pid] == chain);
        match pulled {
            Some(stack) => {
                self.slots.set(i, PageEntry::Present { stack });
                proof {
                    assert(slot_chains(self.slots@) =~= slot_chains(old(self).slots@));
                    assert forall|p: int| 0 <= p < self.slots@.len() implies present_ok::<T>(
                        self.log@,
                        #[trigger] self.slots@[p],
                    ) by {
                        if p != i {
                            assert(self.slots@[p] == old(self).slots@[p]);
                        }
                    }
                    assert(free_ok(self.free@, self.slots@, self.epoch)) by {
                        assert forall|k: int| 0 <= k < self.free@.len() implies 1 <= (
                        #[trigger] self.free@[k]).0 < self.slots@.len() && self.slots@[self.free@[k].0 as int]
                            is Free && self.free@[k].1 < self.epoch by {
                            assert(old(self).slots@[self.free@[k].0 as int] is Free);
                        }
                    }
                }
            },
            None => {},
        }
        match self.slots.get(i) {
            PageEntry::Present { stack } => {
                proof {
                    assert(chain.len() > 0);
                    assert(present_ok::<T>(self.log@, self.slots@[i as int]));
                    assert forall|k: int| 0 <= k < chain.len() implies frag_at::<T>(
                        self.log@,
                        #[trigger] chain[k],
                    ) == Some(frags(stack@)[k]) by {
                        assert(stack@[k].id == chain[k]);
                    }
                    lemma_fold_page::<T>(self.log@, chain, frags(stack@));
                }
                let page = fold_stack(stack);
                let size = stack_bytes(&self.log, stack);
                let key = match stack.head() {
                    Some(key) => key,
                    None => 0,
                };
                Ok((key, page, size))
            },
            _ => Err(Error::ReportableBug),
        }
    }

    /// Poisons the cache: writing the log failed for good. Every change
    /// fails from now on, until a cache is started again from what is on
    /// disk.
    pub fn poison(&mut self)
        requires
            old(self).wf(),
        ensures
            final(self).wf(),
            final(self).options() == old(self).options(),
            final(self)@ == (CacheView { poisoned: true, ..old(self)@ }),
    {
        self.poisoned = true;
    }

    /// Whether the cache is poisoned.
    pub fn is_poisoned(&self) -> (r: bool)
        ensures
            r == self@.poisoned,
    {
        self.poisoned
    }

    /// Whether a snapshot is due: as many changes as the options say were
    /// made since the last one.
    pub fn snapshot_due(&self) -> (r: bool)
        ensures
            r == (self@.ops >= self.options().snapshot_after_ops),
    {
        self.ops >= self.config.snapshot_after_ops
    }

    /// Notes that a snapshot was written: the changes are counted anew.
    pub fn snapshot_written(&mut self)
        requires
            old(self).wf(),
        ensures
            final(self).wf(),
            final(self).options() == old(self).options(),
            final(self)@ == (CacheView { ops: 0, ..old(self)@ }),
    {
        self.ops = 0;
    }

    /// The metadata page.
    pub fn meta(&self) -> (m: &Meta)
        ensures
            m@ == self@.meta,
    {
        &self.meta
    }

    /// The offset at which the log ends.
    pub fn tail(&self) -> (r: LogId)
        ensures
            r == log_end(self@.log, self@.seg),
    {
        self.log.tail()
    }

    /// The offset up to which the log is known to be on disk.
    pub fn stable(&self) -> (r: LogId)
        ensures
            r == self@.stable,
    {
        self.log.stable()
    }
}

} // verus!
