//! What is left of a log after a crash: the bytes of the log up to some
//! offset.

use vstd::prelude::*;

use crate::pagecache::LogId;
use crate::pagecache::layout::{
    body_start, end_of, entry_ok, extend_image, image_of, log_end, next_seg, pad_record, scan,
    scan_stop, seg_ok, well_placed, Placed, lemma_body_start, lemma_extend_shape, lemma_log_end,
    lemma_scan_extend, lemma_scan_header, lemma_scan_image, lemma_segment,
};
use crate::pagecache::log::{opened, lemma_well_placed_take};
use crate::pagecache::model::{replay, Table, lemma_replay_push};
use crate::pagecache::record::{
    announced, unframe, RecordKind, lemma_frame_len, lemma_unframe_frame,
};

verus! {

/// The number of entries at the beginning of `es` that end at or before the
/// offset `n`.
pub open spec fn whole_entries(es: Seq<Placed>, seg: int, n: int) -> int
    decreases es.len(),
{
    if es.len() == 0 {
        0
    } else if end_of(es.last(), seg) <= n {
        es.len() as int
    } else {
        whole_entries(es.drop_last(), seg, n)
    }
}

/// The entries that end at or before `n` are the first `whole_entries`, and
/// the next entry ends behind `n`.
pub proof fn lemma_whole_entries(es: Seq<Placed>, seg: int, n: int)
    requires
        seg_ok(seg),
        well_placed(es, seg),
    ensures
        0 <= whole_entries(es, seg, n) <= es.len(),
        forall|i: int| 0 <= i < whole_entries(es, seg, n) ==> end_of(#[trigger] es[i], seg) <= n,
        forall|i: int|
            whole_entries(es, seg, n) <= i < es.len() ==> end_of(#[trigger] es[i], seg) > n,
        log_end(es.take(whole_entries(es, seg, n)), seg) <= if n >= 0 { n } else { 0 },
    decreases es.len(),
{
    lemma_log_end(es, seg);
    if es.len() == 0 {
        assert(es.take(0) =~= es);
    } else if end_of(es.last(), seg) <= n {
        assert(es.take(es.len() as int) =~= es);
        assert forall|i: int| 0 <= i < es.len() implies end_of(#[trigger] es[i], seg) <= n by {
            lemma_ends_ascend(es, seg, i);
        }
    } else {
        lemma_whole_entries(es.drop_last(), seg, n);
        let k = whole_entries(es.drop_last(), seg, n);
        assert(es.drop_last().take(k) =~= es.take(k));
        assert forall|i: int| 0 <= i < k implies end_of(#[trigger] es[i], seg) <= n by {
            assert(es.drop_last()[i] == es[i]);
        }
        assert forall|i: int| k <= i < es.len() implies end_of(#[trigger] es[i], seg) > n by {
            if i < es.len() - 1 {
                assert(es.drop_last()[i] == es[i]);
            }
        }
    }
}

/// Every entry of a well-placed log ends at or before the end of the log.
pub proof fn lemma_ends_ascend(es: Seq<Placed>, seg: int, i: int)
    requires
        seg_ok(seg),
        well_placed(es, seg),
        0 <= i < es.len(),
    ensures
        end_of(es[i], seg) <= log_end(es, seg),
    decreases es.len(),
{
    lemma_log_end(es, seg);
    if i < es.len() - 1 {
        lemma_ends_ascend(es.drop_last(), seg, i);
        assert(es.drop_last()[i] == es[i]);
        lemma_log_end(es.drop_last(), seg);
    }
}

/// The bytes of the beginning of a log are the beginning of the bytes of
/// the log.
pub proof fn lemma_image_prefix(es: Seq<Placed>, seg: int, j: int)
    requires
        seg_ok(seg),
        well_placed(es, seg),
        0 <= j <= es.len(),
    ensures
        log_end(es.take(j), seg) <= log_end(es, seg),
        image_of(es.take(j), seg) == image_of(es, seg).take(log_end(es.take(j), seg)),
    decreases es.len(),
{
    lemma_scan_image(es, seg);
    if j == es.len() {
        assert(es.take(j) =~= es);
        assert(image_of(es, seg).take(log_end(es, seg)) =~= image_of(es, seg));
    } else {
        let before = es.drop_last();
        lemma_image_prefix(before, seg, j);
        lemma_scan_image(before, seg);
        lemma_log_end(es, seg);
        lemma_log_end(before, seg);
        assert(before.take(j) =~= es.take(j));
        let img = image_of(before, seg);
        let all = image_of(es, seg);
        lemma_extend_shape(img, es.last().rec, seg);
        assert(all.subrange(0, img.len() as int) == img);
        assert(img.take(log_end(es.take(j), seg)) =~= all.take(log_end(es.take(j), seg)));
    }
}

/// What is read from a log that was cut within the entry that was added
/// last: the entries before it, and then nothing sound.
pub proof fn lemma_scan_cut(img: Seq<u8>, e: Placed, seg: int, n: int)
    requires
        seg_ok(seg),
        img.len() % 8 == 0,
        e.lsn == body_start(img.len() as int, seg),
        entry_ok(img.len() as int, e, seg),
        img.len() <= n < end_of(e, seg),
        !scan(img, seg, 0).torn,
        scan(img, seg, 0).end == img.len(),
    ensures
        ({
            let cut = extend_image(img, e.rec, seg).take(n);
            let s = scan(cut, seg, 0);
            &&& s.entries == scan(img, seg, 0).entries
            &&& s.end == img.len() || s.end == e.lsn
            &&& s.end <= n
            &&& !s.torn ==> s.end == n
            &&& s.torn ==> next_seg(s.end, seg) >= cut.len()
        }),
{
    let t = img.len() as int;
    let r = e.rec;
    let all = extend_image(img, r, seg);
    let at = body_start(t, seg);
    let cut = all.take(n);
    lemma_frame_len(r);
    lemma_body_start(t, seg);
    lemma_extend_shape(img, r, seg);
    lemma_segment(t, seg);
    lemma_segment(at, seg);
    assert(all.len() == end_of(e, seg));
    let junk = cut.subrange(t, n);
    assert(cut =~= img + junk) by {
        assert(cut.subrange(0, t) =~= all.subrange(0, t));
    }
    lemma_scan_extend(img, junk, seg, 0);
    assert(scan(img, seg, 0).entries + Seq::<Placed>::empty() =~= scan(img, seg, 0).entries);
    // what is read behind `img`
    if n == t {
        assert(scan(cut, seg, t) == scan_stop(t, false));
    } else if t % seg == 0 && n < t + 24 {
        assert(scan(cut, seg, t) == scan_stop(t, true));
    } else {
        if t % seg == 0 {
            assert(cut.subrange(t, t + 24) =~= all.subrange(t, t + 24));
            lemma_scan_header(cut, t, t, seg);
        }
        assert(scan(cut, seg, t) == scan(cut, seg, at));
        if n == at {
            assert(scan(cut, seg, at) == scan_stop(at, false));
        } else if n < at + 5 {
            assert(scan(cut, seg, at) == scan_stop(at, true));
        } else if r.kind == RecordKind::Pad {
            assert(cut[at + 4] == all[at + 4]);
            assert(scan(cut, seg, at) == scan_stop(at, true));
        } else {
            lemma_unframe_frame(all, at, r);
            assert(cut[at + 4] == all[at + 4]);
            assert(unframe(cut, at) is None) by {
                if at + 17 <= cut.len() {
                    assert(cut.subrange(at, at + 4) =~= all.subrange(at, at + 4));
                    assert(announced(cut, at) == announced(all, at));
                }
            }
            assert(scan(cut, seg, at) == scan_stop(at, true));
        }
    }
}

/// The bytes of a log open as the log: nothing is lost, and nothing is
/// added.
pub proof fn law_log_round_trip(es: Seq<Placed>, seg: int)
    requires
        seg_ok(seg),
        well_placed(es, seg),
    ensures
        opened(image_of(es, seg), seg) == Ok::<Seq<Placed>, crate::pagecache::Error>(es),
{
    lemma_scan_image(es, seg);
}

/// After a crash that leaves the bytes of the log up to the offset `n`, the
/// log opens with the entries that end at or before `n`, and with nothing
/// of the others: no entry is read in part. Where bytes of a further entry
/// are left, padding may end their segment.
#[verifier::rlimit(40)]
pub proof fn law_torn_tail(es: Seq<Placed>, seg: int, n: int)
    requires
        seg_ok(seg),
        well_placed(es, seg),
        0 <= n <= log_end(es, seg),
        log_end(es, seg) + seg <= u64::MAX,
    ensures
        ({
            let k = whole_entries(es, seg, n);
            let o = opened(image_of(es, seg).take(n), seg);
            &&& o is Ok
            &&& o->Ok_0 == es.take(k) || (o->Ok_0.len() == k + 1 && o->Ok_0.take(k) == es.take(k)
                && o->Ok_0.last().rec == pad_record())
        }),
{
    let k = whole_entries(es, seg, n);
    lemma_whole_entries(es, seg, n);
    let pre = es.take(k);
    lemma_well_placed_take(es, seg, k);
    lemma_scan_image(pre, seg);
    lemma_scan_image(es, seg);
    lemma_log_end(pre, seg);
    lemma_log_end(es, seg);
    let img = image_of(pre, seg);
    let whole = image_of(es, seg);
    lemma_image_prefix(es, seg, k);
    if k == es.len() {
        assert(pre =~= es);
        assert(whole.take(n) =~= whole);
    } else {
        let e = es[k];
        let upto = es.take(k + 1);
        lemma_well_placed_take(es, seg, k + 1);
        lemma_image_prefix(es, seg, k + 1);
        lemma_log_end(upto, seg);
        assert(upto.drop_last() =~= pre);
        assert(upto.last() == e);
        let all = extend_image(img, e.rec, seg);
        assert(all == image_of(upto, seg));
        assert(whole.take(n) =~= all.take(n));
        lemma_scan_cut(img, e, seg, n);
        let cut = all.take(n);
        let s = scan(cut, seg, 0);
        lemma_segment(s.end, seg);
        lemma_body_start(img.len() as int, seg);
        if s.torn && s.end % seg != 0 {
            let r = s.entries.push(Placed { lsn: s.end as LogId, rec: pad_record() });
            assert(r.take(k) =~= pre);
        }
    }
}

/// After such a crash, a cache that is started from a page table `base`
/// that accounts for the first `from` entries has the page table that the
/// entries which are left make of `base`: padding changes nothing.
pub proof fn law_crash_replay(base: Table, es: Seq<Placed>, seg: int, n: int, from: int)
    requires
        seg_ok(seg),
        well_placed(es, seg),
        0 <= n <= log_end(es, seg),
        log_end(es, seg) + seg <= u64::MAX,
        0 <= from <= whole_entries(es, seg, n),
    ensures
        opened(image_of(es, seg).take(n), seg) is Ok,
        replay(base, opened(image_of(es, seg).take(n), seg)->Ok_0.skip(from)) == replay(
            base,
            es.take(whole_entries(es, seg, n)).skip(from),
        ),
{
    law_torn_tail(es, seg, n);
    let k = whole_entries(es, seg, n);
    let got = opened(image_of(es, seg).take(n), seg)->Ok_0;
    if got != es.take(k) {
        let pad = got.last();
        assert(got.skip(from) =~= es.take(k).skip(from).push(pad)) by {
            assert forall|i: int| 0 <= i < k - from implies got.skip(from)[i] == es.take(k).skip(
                from,
            )[i] by {
                assert(got.take(k)[i + from] == got[i + from]);
            }
        }
        lemma_replay_push(base, es.take(k).skip(from), pad);
    }
}

} // verus!
