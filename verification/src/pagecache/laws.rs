//! What holds of every page cache.

use vstd::prelude::*;
use crate::pagecache::{Error, LogId, PageId};
use crate::pagecache::steps::{
    added_entry, after, cas_error, empty_meta, in_segment, link_record, next_pid, promoted,
    reference_count, references, reusable, segment_free, started, state_of, CacheView, PageState,
    lemma_count_chains, lemma_count_in,
};
use crate::pagecache::layout::{image_of, log_end, seg_ok, well_placed, Placed, lemma_scan_image};
use crate::pagecache::log::{can_append, lemma_appended};
use crate::pagecache::materializer::Materializer;
use crate::pagecache::meta::MetaView;
use crate::pagecache::model::{
    count_below, fold_meta, fold_page, replay, table_ok, Table, lemma_count_below,
    lemma_fold_page_appended, lemma_lsn_below_end, lemma_record_at_appended, lemma_replay_concat,
};
use crate::pagecache::record::{RecordKind, RecordView};
use crate::pagecache::snapshot::{snapshot_ok, snapshot_table, SnapshotView};

verus! {

/// A model of a page cache whose log is well placed and whose page table is
/// sound.
pub open spec fn view_ok(v: CacheView) -> bool {
    &&& seg_ok(v.seg)
    &&& well_placed(v.log, v.seg)
    &&& table_ok(v.table, log_end(v.log, v.seg))
}

/// The order of a chain is the order in which its fragments were linked:
/// after a link the page is the page before with the fragment merged into
/// it, whether the link was written as such or the page was rewritten.
pub proof fn law_link_merges<T: Materializer>(v: CacheView, pid: PageId, key: LogId, frag: T::V)
    requires
        view_ok(v),
        cas_error(v, pid, key) is None,
        fold_page::<T>(v.log, v.table.chains[pid]) is Ok,
        T::encodable(frag),
        promoted(v, pid) ==> T::encodable(
            T::merged(fold_page::<T>(v.log, v.table.chains[pid])->Ok_0, frag),
        ),
        can_append(v.log, link_record::<T>(v, pid, frag), v.seg),
    ensures
        ({
            let w = after(v, link_record::<T>(v, pid, frag));
            &&& w.table.chains.contains_key(pid)
            &&& fold_page::<T>(w.log, w.table.chains[pid]) == Ok::<T::V, LogId>(
                T::merged(fold_page::<T>(v.log, v.table.chains[pid])->Ok_0, frag),
            )
            &&& !promoted(v, pid) ==> w.table.chains[pid] == v.table.chains[pid].push(
                added_entry(v.log, link_record::<T>(v, pid, frag), v.seg).lsn,
            )
        }),
{
    let rec = link_record::<T>(v, pid, frag);
    let e = added_entry(v.log, rec, v.seg);
    let w = after(v, rec);
    let chain = v.table.chains[pid];
    let page = fold_page::<T>(v.log, chain)->Ok_0;
    lemma_appended(v.log, rec, v.seg);
    lemma_record_at_appended(v.log, rec, v.seg, e.lsn);
    if promoted(v, pid) {
        T::lemma_decoding(T::merged(page, frag));
        assert(w.table.chains[pid] =~= seq![e.lsn]);
    } else {
        T::lemma_decoding(frag);
        let chain2 = w.table.chains[pid];
        assert(chain2 =~= chain.push(e.lsn));
        assert(chain2.drop_last() =~= chain);
        assert forall|i: int| 0 <= i < chain.len() implies (#[trigger] chain[i]) < log_end(
            v.log,
            v.seg,
        ) by {
            assert(v.table.chains[pid][i] < log_end(v.log, v.seg));
        }
        lemma_fold_page_appended::<T>(v.log, rec, v.seg, chain);
    }
}

/// After a page is replaced, and after it is allocated, the page is its
/// anchor.
pub proof fn law_anchor_is_page<T: Materializer>(v: CacheView, rec: RecordView, anchor: T::V)
    requires
        view_ok(v),
        T::encodable(anchor),
        rec.payload == T::encoding(anchor),
        rec.kind == RecordKind::Replace && v.table.chains.contains_key(rec.pid) || rec.kind
            == RecordKind::Allocate && rec.pid == next_pid(v) && !v.table.chains.contains_key(
            rec.pid,
        ) && 1 <= rec.pid <= v.table.size && rec.pid < usize::MAX,
        can_append(v.log, rec, v.seg),
    ensures
        after(v, rec).table.chains.contains_key(rec.pid),
        fold_page::<T>(after(v, rec).log, after(v, rec).table.chains[rec.pid]) == Ok::<T::V, LogId>(
            anchor,
        ),
{
    let e = added_entry(v.log, rec, v.seg);
    lemma_appended(v.log, rec, v.seg);
    lemma_record_at_appended(v.log, rec, v.seg, e.lsn);
    T::lemma_decoding(anchor);
    assert(after(v, rec).table.chains[rec.pid] =~= seq![e.lsn]);
}

/// Of the writers that name one key for a page, one wins: after a link or
/// a replacement with the key `key` the head of the page is a newer key, and
/// every further change that names `key` fails with that head.
pub proof fn law_one_writer_wins(v: CacheView, rec: RecordView, key: LogId)
    requires
        view_ok(v),
        cas_error(v, rec.pid, key) is None,
        rec.kind == RecordKind::Link || rec.kind == RecordKind::Replace,
        can_append(v.log, rec, v.seg),
    ensures
        added_entry(v.log, rec, v.seg).lsn > key,
        cas_error(after(v, rec), rec.pid, key) == Some(
            Error::CasFailed { head: added_entry(v.log, rec, v.seg).lsn },
        ),
{
    let e = added_entry(v.log, rec, v.seg);
    let chain = v.table.chains[rec.pid];
    lemma_appended(v.log, rec, v.seg);
    assert(chain[chain.len() - 1] < log_end(v.log, v.seg));
    if rec.kind == RecordKind::Link {
        assert(after(v, rec).table.chains[rec.pid] =~= chain.push(e.lsn));
    } else {
        assert(after(v, rec).table.chains[rec.pid] =~= seq![e.lsn]);
    }
}

/// After the log and a snapshot at its end are written and a cache is
/// started from them, the log, the page table and the metadata are those of
/// the cache that wrote them: every page reads as before.
pub proof fn law_reopen(v: CacheView, s: SnapshotView)
    requires
        view_ok(v),
        crate::pagecache::model::table_sound(v.log, v.table),
        fold_meta(v.log, empty_meta(), v.table.meta) == Ok::<MetaView, LogId>(v.meta),
        snapshot_ok(s),
        snapshot_table(s) == v.table,
        s.last_lsn == log_end(v.log, v.seg),
    ensures
        started(v.seg, v.threshold, Some(s), image_of(v.log, v.seg)) is Ok,
        started(v.seg, v.threshold, Some(s), image_of(v.log, v.seg))->Ok_0.log == v.log,
        started(v.seg, v.threshold, Some(s), image_of(v.log, v.seg))->Ok_0.table == v.table,
        started(v.seg, v.threshold, Some(s), image_of(v.log, v.seg))->Ok_0.meta == v.meta,
{
    lemma_scan_image(v.log, v.seg);
    lemma_lsn_below_end(v.log, v.seg);
    lemma_count_below(v.log, v.seg, s.last_lsn);
    let from = count_below(v.log, s.last_lsn);
    assert(from == v.log.len()) by {
        if from < v.log.len() {
            assert(v.log[from].lsn >= s.last_lsn);
        }
    }
    assert(v.log.skip(from) =~= Seq::<Placed>::empty());
}

/// After the log alone is written by a cache that was started without a
/// snapshot, a cache that is started from it without a snapshot has the
/// same log, page table and metadata.
pub proof fn law_reopen_from_log(v: CacheView)
    requires
        view_ok(v),
        fold_meta(v.log, empty_meta(), v.table.meta) == Ok::<MetaView, LogId>(v.meta),
        v.table == replay(crate::pagecache::model::empty_table(), v.log),
    ensures
        started(v.seg, v.threshold, None, image_of(v.log, v.seg)) is Ok,
        started(v.seg, v.threshold, None, image_of(v.log, v.seg))->Ok_0.log == v.log,
        started(v.seg, v.threshold, None, image_of(v.log, v.seg))->Ok_0.table == v.table,
        started(v.seg, v.threshold, None, image_of(v.log, v.seg))->Ok_0.meta == v.meta,
{
    lemma_scan_image(v.log, v.seg);
    lemma_count_below(v.log, v.seg, 0);
    let from = count_below(v.log, 0);
    assert(from == 0) by {
        if from > 0 {
            assert(v.log[0].lsn < 0);
        }
    }
    assert(v.log.skip(0) =~= v.log);
}

/// Two snapshots of one log lead to one page table: the table of the
/// earlier snapshot with the entries behind it, and the table of the later
/// snapshot with the entries behind that, are the same.
pub proof fn law_snapshot_parity(base: Table, log: Seq<Placed>, from: int, a: int, b: int)
    requires
        0 <= from <= a <= b <= log.len(),
    ensures
        replay(replay(base, log.subrange(from, a)), log.skip(a)) == replay(
            replay(base, log.subrange(from, b)),
            log.skip(b),
        ),
{
    lemma_replay_concat(base, log.subrange(from, a), log.skip(a));
    lemma_replay_concat(base, log.subrange(from, b), log.skip(b));
    assert(log.subrange(from, a) + log.skip(a) =~= log.skip(from));
    assert(log.subrange(from, b) + log.skip(b) =~= log.skip(from));
}

/// No page that was freed while a guard was held is given out while that
/// guard is held: the next allocation gives out another identifier.
pub proof fn law_no_reuse_under_guard(v: CacheView, j: int, g: int)
    requires
        0 <= j < v.free.len(),
        0 <= g < v.pins.len(),
        v.pins[g] <= v.free[j].1,
        v.table.size <= u64::MAX,
        forall|i: int| 0 <= i < v.free.len() ==> 1 <= (#[trigger] v.free[i]).0 < v.table.size,
        forall|a: int, b: int|
            0 <= a < b < v.free.len() ==> (#[trigger] v.free[a]).0 != (#[trigger] v.free[b]).0,
    ensures
        next_pid(v) != v.free[j].0,
{
    if reusable(v) {
        assert(v.free[0].1 < v.pins[g]);
        assert(j != 0);
        assert(v.free[0].0 != v.free[j].0);
    } else {
        assert(v.free[j].0 < v.table.size);
    }
}

/// A segment that can be used again holds no fragment of a live page: every
/// page that had a fragment in it was rewritten or freed.
pub proof fn law_segment_reuse(v: CacheView, k: int, pid: PageId, i: int)
    requires
        segment_free(v, k),
        v.table.chains.contains_key(pid),
        0 <= i < v.table.chains[pid].len(),
    ensures
        v.table.chains[pid][i] as int / v.seg != k,
{
    assert(!in_segment(v.table.chains[pid], k, v.seg));
}

/// A page that is rewritten or replaced has no fragment left in a segment
/// behind which the log has gone on.
pub proof fn law_rewrite_releases(v: CacheView, rec: RecordView, k: int)
    requires
        view_ok(v),
        0 <= k,
        (k + 1) * v.seg <= log_end(v.log, v.seg),
        rec.kind == RecordKind::Replace,
        v.table.chains.contains_key(rec.pid),
        can_append(v.log, rec, v.seg),
    ensures
        after(v, rec).table.chains.contains_key(rec.pid),
        !in_segment(after(v, rec).table.chains[rec.pid], k, v.seg),
{
    let e = added_entry(v.log, rec, v.seg);
    lemma_appended(v.log, rec, v.seg);
    let chain = after(v, rec).table.chains[rec.pid];
    assert(chain =~= seq![e.lsn]);
    assert(e.lsn >= (k + 1) * v.seg);
    assert(e.lsn as int / v.seg != k) by {
        vstd::arithmetic::div_mod::lemma_fundamental_div_mod(e.lsn as int, v.seg);
        vstd::arithmetic::div_mod::lemma_mod_pos_bound(e.lsn as int, v.seg);
        let q = e.lsn as int / v.seg;
        if q == k {
            assert(v.seg * q + v.seg == (k + 1) * v.seg) by (nonlinear_arith)
                requires
                    q == k,
            ;
        }
    }
    if in_segment(chain, k, v.seg) {
        let i = choose|i: int| 0 <= i < chain.len() && (#[trigger] chain[i]) as int / v.seg == k;
        assert(chain[i] == e.lsn);
    }
}

/// The states of a page follow one another as its records say: after an
/// allocation the page is allocated; after a link it has one link more;
/// after a replacement it is replaced; and after a release it is freed.
pub proof fn law_page_states(v: CacheView, rec: RecordView)
    requires
        view_ok(v),
        can_append(v.log, rec, v.seg),
        rec.kind != RecordKind::Meta,
        rec.kind == RecordKind::Allocate ==> 1 <= rec.pid <= v.table.size && rec.pid < usize::MAX
            && !v.table.chains.contains_key(rec.pid),
        rec.kind != RecordKind::Allocate ==> v.table.chains.contains_key(rec.pid),
    ensures
        state_of(after(v, rec), rec.pid) == (match rec.kind {
            RecordKind::Allocate => PageState::Allocated,
            RecordKind::Link => PageState::Chained(v.table.chains[rec.pid].len() as usize),
            RecordKind::Replace => PageState::Replaced,
            _ => PageState::Freed,
        }),
        forall|pid: PageId|
            pid != rec.pid ==> after(v, rec).table.chains.contains_key(pid)
                == v.table.chains.contains_key(pid) && (v.table.chains.contains_key(pid)
                ==> #[trigger] after(v, rec).table.chains[pid] == v.table.chains[pid]),
{
    let e = added_entry(v.log, rec, v.seg);
    lemma_appended(v.log, rec, v.seg);
    lemma_record_at_appended(v.log, rec, v.seg, e.lsn);
    let w = after(v, rec);
    if rec.kind == RecordKind::Link {
        assert(w.table.chains[rec.pid] =~= v.table.chains[rec.pid].push(e.lsn));
    } else if rec.kind == RecordKind::Allocate || rec.kind == RecordKind::Replace {
        assert(w.table.chains[rec.pid] =~= seq![e.lsn]);
    }
}

/// A segment can be used again exactly if the log has gone on behind it,
/// its reference count is zero, and no guard is held.
pub proof fn law_reference_count(v: CacheView, k: int)
    requires
        view_ok(v),
    ensures
        0 <= reference_count(v.table, k, v.seg),
        segment_free(v, k) <==> (k + 1) * v.seg <= log_end(v.log, v.seg) && reference_count(
            v.table,
            k,
            v.seg,
        ) == 0 && v.pins.len() == 0,
{
    lemma_count_in(v.table.meta, k, v.seg);
    lemma_count_chains(v.table.chains, k, v.seg, v.table.size);
    if references(v.table, k, v.seg) && !in_segment(v.table.meta, k, v.seg) {
        let pid = choose|pid: PageId| #[trigger]
            v.table.chains.contains_key(pid) && in_segment(v.table.chains[pid], k, v.seg);
        assert(1 <= pid < v.table.size);
    }
}

} // verus!
