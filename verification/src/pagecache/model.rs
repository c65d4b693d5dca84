//! The page table as the log determines it, and the pages that the log
//! holds.

use vstd::prelude::*;
use crate::pagecache::{LogId, PageId};
use crate::pagecache::layout::{entry_ok, log_end, seg_ok, well_placed, Placed, lemma_log_end};
use crate::pagecache::log::{
    appended, can_append, record_at, lemma_appended, lemma_ascending_lsn,
};
use crate::pagecache::materializer::{fold_chain, Materializer};
use crate::pagecache::meta::{applied, diff_decoding, MetaView};
use crate::pagecache::record::{RecordKind, RecordView};

verus! {

/// The page table: for every live page the offsets of its fragments, the
/// oldest first; the offsets of the changes of the metadata page; and the
/// number of page identifiers in use, the reserved identifier 0 included.
pub struct Table {
    pub chains: Map<PageId, Seq<LogId>>,
    pub meta: Seq<LogId>,
    pub size: int,
}

/// The page table of an empty store.
pub open spec fn empty_table() -> Table {
    Table { chains: Map::empty(), meta: Seq::empty(), size: 1 }
}

/// The page table after one more entry of the log: an allocation of a free
/// identifier, or of the first that was never in use, begins a chain, a link
/// is appended to the chain of its page, a replacement begins
/// the chain again, a release removes the page, and a change of the metadata
/// is appended to the chain of the metadata page. Padding, and a record for
/// a page that is not live, change nothing.
pub open spec fn apply(t: Table, e: Placed) -> Table {
    let pid = e.rec.pid;
    match e.rec.kind {
        RecordKind::Pad => t,
        RecordKind::Allocate => if 1 <= pid <= t.size && pid < usize::MAX && !t.chains.contains_key(
            pid,
        ) {
            Table {
                chains: t.chains.insert(pid, seq![e.lsn]),
                meta: t.meta,
                size: if t.size > pid { t.size } else { pid + 1 },
            }
        } else {
            t
        },
        RecordKind::Link => if t.chains.contains_key(pid) {
            Table {
                chains: t.chains.insert(pid, t.chains[pid].push(e.lsn)),
                meta: t.meta,
                size: t.size,
            }
        } else {
            t
        },
        RecordKind::Replace => if t.chains.contains_key(pid) {
            Table { chains: t.chains.insert(pid, seq![e.lsn]), meta: t.meta, size: t.size }
        } else {
            t
        },
        RecordKind::Free => if t.chains.contains_key(pid) {
            Table { chains: t.chains.remove(pid), meta: t.meta, size: t.size }
        } else {
            t
        },
        RecordKind::Meta => Table { chains: t.chains, meta: t.meta.push(e.lsn), size: t.size },
    }
}

/// The page table after the entries `es` of the log, one after the other.
pub open spec fn replay(t: Table, es: Seq<Placed>) -> Table
    decreases es.len(),
{
    if es.len() == 0 {
        t
    } else {
        apply(replay(t, es.drop_last()), es.last())
    }
}

/// A page table whose live pages lie below its size and have chains that
/// are not empty, with every offset below `end`.
pub open spec fn table_ok(t: Table, end: int) -> bool {
    &&& t.size >= 1
    &&& t.size <= usize::MAX
    &&& t.chains.dom().finite()
    &&& forall|pid: PageId| #[trigger]
        t.chains.contains_key(pid) ==> 1 <= pid < t.size && t.chains[pid].len() > 0
    &&& forall|pid: PageId, i: int|
        t.chains.contains_key(pid) && 0 <= i < t.chains[pid].len() ==> (#[trigger] t.chains[pid][i])
            < end
    &&& forall|i: int| 0 <= i < t.meta.len() ==> (#[trigger] t.meta[i]) < end
}

/// One more entry keeps a page table sound.
pub proof fn lemma_apply_ok(t: Table, e: Placed, end: int)
    requires
        table_ok(t, e.lsn as int),
        e.lsn < end,
    ensures
        table_ok(apply(t, e), end),
{
    let t1 = apply(t, e);
    assert forall|pid: PageId, i: int|
        t1.chains.contains_key(pid) && 0 <= i < t1.chains[pid].len() implies (
    #[trigger] t1.chains[pid][i]) < end by {
        if t.chains.contains_key(pid) && t1.chains[pid] == t.chains[pid] {
            assert(t.chains[pid][i] < e.lsn);
        } else if t.chains.contains_key(pid) && i < t.chains[pid].len() && t1.chains[pid].len()
            > 1 {
            assert(t.chains[pid][i] < e.lsn);
        }
    }
    assert forall|i: int| 0 <= i < t1.meta.len() implies (#[trigger] t1.meta[i]) < end by {
        if i < t.meta.len() {
            assert(t.meta[i] < e.lsn);
        }
    }
}

/// A page table that is sound up to some offset is sound up to any later
/// one.
pub proof fn lemma_table_ok_later(t: Table, end: int, later: int)
    requires
        table_ok(t, end),
        end <= later,
    ensures
        table_ok(t, later),
{
}

/// Replaying entries one after the other is replaying them together.
pub proof fn lemma_replay_concat(t: Table, a: Seq<Placed>, b: Seq<Placed>)
    ensures
        replay(t, a + b) == replay(replay(t, a), b),
    decreases b.len(),
{
    if b.len() == 0 {
        assert(a + b =~= a);
    } else {
        assert((a + b).drop_last() =~= a + b.drop_last());
        lemma_replay_concat(t, a, b.drop_last());
    }
}

/// Replaying one more entry applies it.
pub proof fn lemma_replay_push(t: Table, es: Seq<Placed>, e: Placed)
    ensures
        replay(t, es.push(e)) == apply(replay(t, es), e),
{
    assert(es.push(e).drop_last() =~= es);
}

/// Every entry of a well-placed log lies below its end, and an offset at or
/// behind the end holds no record.
pub proof fn lemma_lsn_below_end(es: Seq<Placed>, seg: int)
    requires
        seg_ok(seg),
        well_placed(es, seg),
    ensures
        forall|i: int| 0 <= i < es.len() ==> (#[trigger] es[i]).lsn < log_end(es, seg),
        forall|lsn: LogId| lsn >= log_end(es, seg) ==> #[trigger] record_at(es, lsn) is None,
    decreases es.len(),
{
    if es.len() > 0 {
        lemma_log_end(es, seg);
        lemma_log_end(es.drop_last(), seg);
        lemma_lsn_below_end(es.drop_last(), seg);
        assert forall|lsn: LogId| lsn >= log_end(es, seg) implies #[trigger] record_at(es, lsn)
            is None by {
            assert(record_at(es.drop_last(), lsn) is None);
        }
        assert forall|i: int| 0 <= i < es.len() implies (#[trigger] es[i]).lsn < log_end(
            es,
            seg,
        ) by {
            if i < es.len() - 1 {
                assert(es.drop_last()[i] == es[i]);
            }
        }
    }
}

/// The payload of every record of a well-placed log fits into a frame.
pub proof fn lemma_record_fits(es: Seq<Placed>, seg: int, lsn: LogId)
    requires
        well_placed(es, seg),
    ensures
        record_at(es, lsn) is Some ==> record_at(es, lsn)->0.payload.len()
            <= crate::pagecache::record::MAX_PAYLOAD,
    decreases es.len(),
{
    if es.len() > 0 {
        lemma_record_fits(es.drop_last(), seg, lsn);
        assert(entry_ok(log_end(es.drop_last(), seg), es.last(), seg));
    }
}

/// Records added to a log change no record below its former end.
pub proof fn lemma_record_at_appended(es: Seq<Placed>, r: RecordView, seg: int, lsn: LogId)
    requires
        seg_ok(seg),
        well_placed(es, seg),
        can_append(es, r, seg),
    ensures
        lsn < log_end(es, seg) ==> record_at(appended(es, r, seg), lsn) == record_at(es, lsn),
        lsn == appended(es, r, seg).last().lsn ==> record_at(appended(es, r, seg), lsn) == Some(r),
{
    lemma_appended(es, r, seg);
    lemma_log_end(es, seg);
    crate::pagecache::layout::lemma_body_start(log_end(es, seg), seg);
    let all = appended(es, r, seg);
    if all.len() == es.len() + 1 {
        assert(all.drop_last() =~= es);
    } else {
        let mid = all.drop_last();
        assert(mid.drop_last() =~= es);
        assert(mid.last().lsn >= log_end(es, seg));
        if lsn < log_end(es, seg) {
            assert(record_at(mid, lsn) == record_at(es, lsn));
            assert(record_at(all, lsn) == record_at(mid, lsn));
        }
    }
}

/// The fragment at `lsn`, if a record stands there whose payload stands for
/// a fragment.
pub open spec fn frag_at<T: Materializer>(log: Seq<Placed>, lsn: LogId) -> Option<T::V> {
    match record_at(log, lsn) {
        Some(r) => T::decoding(r.payload),
        None => None,
    }
}

/// The page that the chain `chain` stands for: its first fragment with the
/// others merged into it in the order of the chain; or the first offset of
/// the chain at which no fragment stands (0 for an empty chain).
pub open spec fn fold_page<T: Materializer>(log: Seq<Placed>, chain: Seq<LogId>) -> Result<
    T::V,
    LogId,
>
    decreases chain.len(),
{
    if chain.len() == 0 {
        Err(0)
    } else if chain.len() == 1 {
        match frag_at::<T>(log, chain[0]) {
            Some(v) => Ok(v),
            None => Err(chain[0]),
        }
    } else {
        match fold_page::<T>(log, chain.drop_last()) {
            Err(lsn) => Err(lsn),
            Ok(acc) => match frag_at::<T>(log, chain.last()) {
                Some(v) => Ok(T::merged(acc, v)),
                None => Err(chain.last()),
            },
        }
    }
}

/// Where every offset of a chain holds a fragment, the page is the fold of
/// those fragments.
pub proof fn lemma_fold_page<T: Materializer>(log: Seq<Placed>, chain: Seq<LogId>, frags: Seq<T::V>)
    requires
        chain.len() > 0,
        chain.len() == frags.len(),
        forall|i: int|
            0 <= i < chain.len() ==> frag_at::<T>(log, #[trigger] chain[i]) == Some(frags[i]),
    ensures
        fold_page::<T>(log, chain) == Ok::<T::V, LogId>(fold_chain::<T>(frags)),
    decreases chain.len(),
{
    if chain.len() > 1 {
        assert forall|i: int| 0 <= i < chain.drop_last().len() implies frag_at::<T>(
            log,
            #[trigger] chain.drop_last()[i],
        ) == Some(frags.drop_last()[i]) by {
            assert(chain.drop_last()[i] == chain[i]);
        }
        lemma_fold_page::<T>(log, chain.drop_last(), frags.drop_last());
        assert(chain.last() == chain[chain.len() - 1]);
    } else {
        assert(chain[0] == chain[0]);
    }
}

/// The page does not change when records are added behind every offset of
/// its chain.
pub proof fn lemma_fold_page_appended<T: Materializer>(
    es: Seq<Placed>,
    r: RecordView,
    seg: int,
    chain: Seq<LogId>,
)
    requires
        seg_ok(seg),
        well_placed(es, seg),
        can_append(es, r, seg),
        forall|i: int| 0 <= i < chain.len() ==> (#[trigger] chain[i]) < log_end(es, seg),
    ensures
        fold_page::<T>(appended(es, r, seg), chain) == fold_page::<T>(es, chain),
    decreases chain.len(),
{
    if chain.len() > 0 {
        assert(chain[chain.len() - 1] < log_end(es, seg));
        assert(chain[0] < log_end(es, seg));
        lemma_record_at_appended(es, r, seg, chain.last());
        lemma_record_at_appended(es, r, seg, chain[0]);
        if chain.len() > 1 {
            assert forall|i: int| 0 <= i < chain.drop_last().len() implies (
            #[trigger] chain.drop_last()[i]) < log_end(es, seg) by {
                assert(chain.drop_last()[i] == chain[i]);
            }
            lemma_fold_page_appended::<T>(es, r, seg, chain.drop_last());
        }
    }
}

/// The metadata that the changes at the offsets `lsns` make of `start`, or
/// the first offset at which no change stands.
pub open spec fn fold_meta(log: Seq<Placed>, start: MetaView, lsns: Seq<LogId>) -> Result<
    MetaView,
    LogId,
>
    decreases lsns.len(),
{
    if lsns.len() == 0 {
        Ok(start)
    } else {
        match fold_meta(log, start, lsns.drop_last()) {
            Err(lsn) => Err(lsn),
            Ok(meta) => match record_at(log, lsns.last()) {
                Some(r) => match diff_decoding(r.payload) {
                    Some(diff) => Ok(applied(meta, diff)),
                    None => Err(lsns.last()),
                },
                None => Err(lsns.last()),
            },
        }
    }
}

/// The metadata does not change when records are added behind every offset
/// of its chain.
pub proof fn lemma_fold_meta_appended(
    es: Seq<Placed>,
    r: RecordView,
    seg: int,
    start: MetaView,
    lsns: Seq<LogId>,
)
    requires
        seg_ok(seg),
        well_placed(es, seg),
        can_append(es, r, seg),
        forall|i: int| 0 <= i < lsns.len() ==> (#[trigger] lsns[i]) < log_end(es, seg),
    ensures
        fold_meta(appended(es, r, seg), start, lsns) == fold_meta(es, start, lsns),
    decreases lsns.len(),
{
    if lsns.len() > 0 {
        assert(lsns[lsns.len() - 1] < log_end(es, seg));
        lemma_record_at_appended(es, r, seg, lsns.last());
        assert forall|i: int| 0 <= i < lsns.drop_last().len() implies (
        #[trigger] lsns.drop_last()[i]) < log_end(es, seg) by {
            assert(lsns.drop_last()[i] == lsns[i]);
        }
        lemma_fold_meta_appended(es, r, seg, start, lsns.drop_last());
    }
}

/// The number of entries at the beginning of `es` that lie below `lsn`.
pub open spec fn count_below(es: Seq<Placed>, lsn: LogId) -> int
    decreases es.len(),
{
    if es.len() == 0 {
        0
    } else if es.last().lsn < lsn {
        es.len() as int
    } else {
        count_below(es.drop_last(), lsn)
    }
}

/// `count_below` parts a well-placed log into the entries below `lsn` and
/// those at or behind it.
pub proof fn lemma_count_below(es: Seq<Placed>, seg: int, lsn: LogId)
    requires
        seg_ok(seg),
        well_placed(es, seg),
    ensures
        0 <= count_below(es, lsn) <= es.len(),
        forall|i: int| 0 <= i < count_below(es, lsn) ==> (#[trigger] es[i]).lsn < lsn,
        forall|i: int| count_below(es, lsn) <= i < es.len() ==> (#[trigger] es[i]).lsn >= lsn,
    decreases es.len(),
{
    if es.len() > 0 {
        if es.last().lsn < lsn {
            assert forall|i: int| 0 <= i < es.len() implies (#[trigger] es[i]).lsn < lsn by {
                if i < es.len() - 1 {
                    lemma_ascending_lsn(es, seg, i, es.len() - 1);
                }
            }
        } else {
            lemma_count_below(es.drop_last(), seg, lsn);
            assert forall|i: int| 0 <= i < count_below(es, lsn) implies (#[trigger] es[i]).lsn
                < lsn by {
                assert(es.drop_last()[i] == es[i]);
            }
            assert forall|i: int| count_below(es, lsn) <= i < es.len() implies (
            #[trigger] es[i]).lsn >= lsn by {
                if i < es.len() - 1 {
                    assert(es.drop_last()[i] == es[i]);
                }
            }
        }
    }
}

/// Whether a record of the kind `k` is an anchor: it begins a chain.
pub open spec fn anchor_kind(k: RecordKind) -> bool {
    k == RecordKind::Allocate || k == RecordKind::Replace
}

/// A sound chain of the page `pid`: it is not empty; its offsets ascend; at
/// each stands a record of the page; the first is an anchor, and the others
/// are links.
pub open spec fn chain_sound(log: Seq<Placed>, pid: PageId, chain: Seq<LogId>) -> bool {
    &&& chain.len() > 0
    &&& forall|i: int|
        0 <= i < chain.len() ==> {
            let r = record_at(log, #[trigger] chain[i]);
            &&& r is Some
            &&& r->0.pid == pid
            &&& if i == 0 {
                anchor_kind(r->0.kind)
            } else {
                r->0.kind == RecordKind::Link
            }
        }
    &&& forall|i: int, j: int| 0 <= i < j < chain.len() ==> chain[i] < chain[j]
}

/// A sound chain of the metadata page: its offsets ascend, and at each
/// stands a change of the metadata.
pub open spec fn meta_sound(log: Seq<Placed>, meta: Seq<LogId>) -> bool {
    &&& forall|i: int|
        0 <= i < meta.len() ==> {
            let r = record_at(log, #[trigger] meta[i]);
            r is Some && r->0.kind == RecordKind::Meta
        }
    &&& forall|i: int, j: int| 0 <= i < j < meta.len() ==> meta[i] < meta[j]
}

/// A page table whose chains are sound.
pub open spec fn table_sound(log: Seq<Placed>, t: Table) -> bool {
    &&& forall|pid: PageId| #[trigger]
        t.chains.contains_key(pid) ==> chain_sound(log, pid, t.chains[pid])
    &&& meta_sound(log, t.meta)
}

/// Records that are added to the log leave the chains of a page table
/// sound.
pub proof fn lemma_sound_appended(es: Seq<Placed>, r: RecordView, seg: int, t: Table)
    requires
        seg_ok(seg),
        well_placed(es, seg),
        can_append(es, r, seg),
        table_ok(t, log_end(es, seg)),
        table_sound(es, t),
    ensures
        table_sound(appended(es, r, seg), t),
{
    let all = appended(es, r, seg);
    assert forall|pid: PageId| #[trigger] t.chains.contains_key(pid) implies chain_sound(
        all,
        pid,
        t.chains[pid],
    ) by {
        let chain = t.chains[pid];
        assert(chain_sound(es, pid, chain));
        assert forall|i: int| 0 <= i < chain.len() implies record_at(all, #[trigger] chain[i])
            == record_at(es, chain[i]) by {
            assert(t.chains[pid][i] < log_end(es, seg));
            lemma_record_at_appended(es, r, seg, chain[i]);
        }
    }
    assert forall|i: int| 0 <= i < t.meta.len() implies record_at(all, #[trigger] t.meta[i])
        == record_at(es, t.meta[i]) by {
        assert(t.meta[i] < log_end(es, seg));
        lemma_record_at_appended(es, r, seg, t.meta[i]);
    }
}

/// An entry of the log that is applied to a page table leaves its chains
/// sound.
pub proof fn lemma_sound_applied(log: Seq<Placed>, t: Table, e: Placed)
    requires
        table_ok(t, e.lsn as int),
        table_sound(log, t),
        record_at(log, e.lsn) == Some(e.rec),
    ensures
        table_sound(log, apply(t, e)),
{
    let t1 = apply(t, e);
    let pid = e.rec.pid;
    assert forall|q: PageId| #[trigger] t1.chains.contains_key(q) implies chain_sound(
        log,
        q,
        t1.chains[q],
    ) by {
        if t.chains.contains_key(q) && t1.chains[q] == t.chains[q] {
            assert(chain_sound(log, q, t.chains[q]));
        } else if e.rec.kind == RecordKind::Link {
            let old_chain = t.chains[q];
            let chain = t1.chains[q];
            assert(chain_sound(log, q, old_chain));
            assert(chain == old_chain.push(e.lsn));
            assert forall|i: int| 0 <= i < chain.len() implies {
                let r = record_at(log, #[trigger] chain[i]);
                &&& r is Some
                &&& r->0.pid == q
                &&& if i == 0 {
                    anchor_kind(r->0.kind)
                } else {
                    r->0.kind == RecordKind::Link
                }
            } by {
                if i < old_chain.len() {
                    assert(chain[i] == old_chain[i]);
                }
            }
            assert forall|i: int, j: int| 0 <= i < j < chain.len() implies chain[i] < chain[j] by {
                assert(chain[i] == old_chain[i]);
                assert(t.chains[q][i] < e.lsn);
                if j < old_chain.len() {
                    assert(chain[j] == old_chain[j]);
                }
            }
        } else {
            assert(t1.chains[q] =~= seq![e.lsn]);
        }
    }
    assert(meta_sound(log, t1.meta)) by {
        if e.rec.kind == RecordKind::Meta {
            assert forall|i: int| 0 <= i < t1.meta.len() implies {
                let r = record_at(log, #[trigger] t1.meta[i]);
                r is Some && r->0.kind == RecordKind::Meta
            } by {
                if i < t.meta.len() {
                    assert(t1.meta[i] == t.meta[i]);
                }
            }
            assert forall|i: int, j: int| 0 <= i < j < t1.meta.len() implies t1.meta[i]
                < t1.meta[j] by {
                assert(t1.meta[i] == t.meta[i]);
                assert(t.meta[i] < e.lsn);
                if j < t.meta.len() {
                    assert(t1.meta[j] == t.meta[j]);
                }
            }
        }
    }
}

} // verus!
