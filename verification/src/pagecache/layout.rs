//! The layout of the log on disk.
//!
//! The log is a sequence of segments of one size. A segment begins with a
//! header of 24 bytes: the offset of the segment (`u64`), the offset up to
//! which the log was complete when the segment was begun (`u64`), and eight
//! reserved zero bytes. Frames follow; none crosses the end of its segment:
//! where the next frame does not fit, zero bytes fill the segment.

use vstd::prelude::*;
use vstd::arithmetic::div_mod::{
    lemma_fundamental_div_mod, lemma_fundamental_div_mod_converse, lemma_mod_pos_bound,
};
use vstd::bytes::{
    spec_u64_from_le_bytes, spec_u64_to_le_bytes, lemma_auto_spec_u64_to_from_le_bytes,
};
use crate::pagecache::LogId;
use crate::pagecache::record::{
    frame, frame_len, unframe, announced, zeros, RecordKind, RecordView, MAX_PAYLOAD,
    lemma_frame_len, lemma_unframe_frame, lemma_unframe_local,
};

verus! {

/// The length of a segment header.
pub const SEGMENT_HEADER: u64 = 24;

/// The smallest segment: a header and the smallest frame.
pub const MIN_SEGMENT: u64 = 48;

/// A segment size that the log accepts: a multiple of 8 that holds a header
/// and a frame.
pub open spec fn seg_ok(seg: int) -> bool {
    seg % 8 == 0 && seg >= 48
}

/// The offset at which the segment after that of `p` begins.
pub open spec fn next_seg(p: int, seg: int) -> int {
    p - p % seg + seg
}

/// The header of the segment at `base`, begun when the log was complete up
/// to `flush`.
pub open spec fn segment_header(base: int, flush: int) -> Seq<u8> {
    spec_u64_to_le_bytes(base as u64) + spec_u64_to_le_bytes(flush as u64) + zeros(8)
}

/// The offset that the header at `p` announces for its segment.
pub open spec fn header_base(bytes: Seq<u8>, p: int) -> int {
    spec_u64_from_le_bytes(bytes.subrange(p, p + 8)) as int
}

/// Where the next entry goes when the log ends at `tail`: behind the
/// header, if `tail` begins a segment.
pub open spec fn body_start(tail: int, seg: int) -> int {
    if tail % seg == 0 {
        tail + 24
    } else {
        tail
    }
}

/// A record with its offset in the log.
pub struct Placed {
    pub lsn: LogId,
    pub rec: RecordView,
}

/// The record that stands for padding.
pub open spec fn pad_record() -> RecordView {
    RecordView { kind: RecordKind::Pad, pid: 0, payload: Seq::empty() }
}

/// The length of the frame of `r`.
pub open spec fn need_of(r: RecordView) -> int {
    frame_len(r.payload.len() as int)
}

/// A record that the log can hold: no padding, and its frame fits into a
/// segment behind the header.
pub open spec fn fits(r: RecordView, seg: int) -> bool {
    r.kind != RecordKind::Pad && r.payload.len() <= MAX_PAYLOAD && need_of(r) <= seg - 24
}

/// The offset behind the entry `e`: the end of its frame, or, for padding,
/// the end of its segment.
pub open spec fn end_of(e: Placed, seg: int) -> int {
    if e.rec.kind == RecordKind::Pad {
        next_seg(e.lsn as int, seg)
    } else {
        e.lsn + need_of(e.rec)
    }
}

/// The offset at which the log ends: behind its last entry.
pub open spec fn log_end(es: Seq<Placed>, seg: int) -> int {
    if es.len() == 0 {
        0
    } else {
        end_of(es.last(), seg)
    }
}

/// An entry that may follow a log which ends at `tail`: it begins where the
/// log goes on, and it is padding or a record whose frame ends within the
/// segment.
pub open spec fn entry_ok(tail: int, e: Placed, seg: int) -> bool {
    &&& e.lsn == body_start(tail, seg)
    &&& end_of(e, seg) <= u64::MAX
    &&& if e.rec.kind == RecordKind::Pad {
        e.rec == pad_record()
    } else {
        fits(e.rec, seg) && e.lsn + need_of(e.rec) <= next_seg(e.lsn as int, seg)
    }
}

/// Every entry stands where the log went on behind its predecessors.
pub open spec fn well_placed(es: Seq<Placed>, seg: int) -> bool
    decreases es.len(),
{
    es.len() == 0 || (well_placed(es.drop_last(), seg) && entry_ok(
        log_end(es.drop_last(), seg),
        es.last(),
        seg,
    ))
}

/// The bytes of the log after the entry with the record `r` is added to
/// `img`.
pub open spec fn extend_image(img: Seq<u8>, r: RecordView, seg: int) -> Seq<u8> {
    let t = img.len() as int;
    let img1 = if t % seg == 0 {
        img + segment_header(t, t)
    } else {
        img
    };
    let p = img1.len() as int;
    if r.kind == RecordKind::Pad {
        img1 + zeros(next_seg(p, seg) - p)
    } else {
        img1 + frame(r)
    }
}

/// The bytes of a log that holds the entries `es`.
pub open spec fn image_of(es: Seq<Placed>, seg: int) -> Seq<u8>
    decreases es.len(),
{
    if es.len() == 0 {
        Seq::empty()
    } else {
        extend_image(image_of(es.drop_last(), seg), es.last().rec, seg)
    }
}

/// What reading a log yields: the entries found, the offset at which
/// reading ended, and whether it ended at bytes that are no sound entry.
pub struct Scan {
    pub entries: Seq<Placed>,
    pub end: int,
    pub torn: bool,
}

/// Reading that ends at `p`.
pub open spec fn scan_stop(p: int, torn: bool) -> Scan {
    Scan { entries: Seq::empty(), end: p, torn }
}

/// Reading that found `e` and went on with `rest`.
pub open spec fn scan_more(e: Placed, rest: Scan) -> Scan {
    Scan { entries: seq![e] + rest.entries, end: rest.end, torn: rest.torn }
}

/// Reads the log `bytes` from offset `p` on.
pub open spec fn scan(bytes: Seq<u8>, seg: int, p: int) -> Scan
    decreases bytes.len() - p,
{
    if !(seg_ok(seg) && 0 <= p) {
        scan_stop(p, true)
    } else if p >= bytes.len() {
        scan_stop(p, false)
    } else if p % seg == 0 {
        if p + 24 <= bytes.len() && header_base(bytes, p) == p {
            scan(bytes, seg, p + 24)
        } else {
            scan_stop(p, true)
        }
    } else if p + 5 > bytes.len() {
        scan_stop(p, true)
    } else if bytes[p + 4] == 0 {
        if p < next_seg(p, seg) <= bytes.len() {
            scan_more(
                Placed { lsn: p as LogId, rec: pad_record() },
                scan(bytes, seg, next_seg(p, seg)),
            )
        } else {
            scan_stop(p, true)
        }
    } else {
        match unframe(bytes, p) {
            Some(r) => {
                if p + need_of(r) <= next_seg(p, seg) && need_of(r) > 0 {
                    scan_more(Placed { lsn: p as LogId, rec: r }, scan(bytes, seg, p + need_of(r)))
                } else {
                    scan_stop(p, true)
                }
            },
            None => scan_stop(p, true),
        }
    }
}

/// Offsets within a segment.
pub proof fn lemma_segment(p: int, seg: int)
    requires
        0 <= p,
        0 < seg,
    ensures
        0 <= p % seg < seg,
        p < next_seg(p, seg) <= p + seg,
        next_seg(p, seg) % seg == 0,
        seg % 8 == 0 && p % 8 == 0 ==> (p % seg) % 8 == 0 && next_seg(p, seg) % 8 == 0,
{
    lemma_mod_pos_bound(p, seg);
    lemma_fundamental_div_mod(p, seg);
    let q = p / seg;
    let r = p % seg;
    assert((q + 1) * seg == seg * q + seg) by (nonlinear_arith);
    lemma_fundamental_div_mod_converse(next_seg(p, seg), seg, q + 1, 0);
    if seg % 8 == 0 && p % 8 == 0 {
        let s = seg / 8;
        let t = p / 8;
        assert(r == 8 * (t - s * q)) by (nonlinear_arith)
            requires
                p == seg * q + r,
                seg == 8 * s,
                p == 8 * t,
        ;
    }
}

/// An offset `k` bytes further within the same segment.
pub proof fn lemma_within(p: int, k: int, seg: int)
    requires
        0 <= p,
        0 < seg,
        0 <= k,
        p % seg + k < seg,
    ensures
        (p + k) % seg == p % seg + k,
        next_seg(p + k, seg) == next_seg(p, seg),
{
    lemma_mod_pos_bound(p, seg);
    lemma_fundamental_div_mod(p, seg);
    let q = p / seg;
    assert(p + k == q * seg + (p % seg + k)) by (nonlinear_arith)
        requires
            p == seg * q + p % seg,
    ;
    lemma_fundamental_div_mod_converse(p + k, seg, q, p % seg + k);
}

/// Where the log goes on: at an aligned offset inside a segment, with at
/// least eight bytes left in it.
pub proof fn lemma_body_start(tail: int, seg: int)
    requires
        seg_ok(seg),
        0 <= tail,
        tail % 8 == 0,
    ensures
        tail <= body_start(tail, seg) <= tail + 24,
        body_start(tail, seg) % 8 == 0,
        body_start(tail, seg) % seg != 0,
        body_start(tail, seg) + 8 <= next_seg(body_start(tail, seg), seg),
        next_seg(body_start(tail, seg), seg) % 8 == 0,
        tail % seg == 0 ==> next_seg(body_start(tail, seg), seg) == tail + seg,
        tail % seg != 0 ==> next_seg(body_start(tail, seg), seg) == next_seg(tail, seg),
{
    lemma_segment(tail, seg);
    if tail % seg == 0 {
        lemma_within(tail, 24, seg);
    }
    lemma_segment(body_start(tail, seg), seg);
}

/// A header that stands at `p` announces `p`.
pub proof fn lemma_header_at(bytes: Seq<u8>, p: int, flush: int)
    requires
        0 <= p <= u64::MAX,
        p + 24 <= bytes.len(),
        bytes.subrange(p, p + 24) == segment_header(p, flush),
    ensures
        header_base(bytes, p) == p,
{
    lemma_auto_spec_u64_to_from_le_bytes();
    let w = bytes.subrange(p, p + 24);
    assert(bytes.subrange(p, p + 8) =~= w.subrange(0, 8));
    assert(w.subrange(0, 8) =~= spec_u64_to_le_bytes(p as u64));
}

/// Bytes that are added behind a log which reads soundly up to its end do
/// not change what is read before them.
pub proof fn lemma_scan_extend(img: Seq<u8>, ext: Seq<u8>, seg: int, p: int)
    requires
        seg_ok(seg),
        0 <= p <= img.len(),
        !scan(img, seg, p).torn,
        scan(img, seg, p).end == img.len(),
    ensures
        scan(img + ext, seg, p).entries == scan(img, seg, p).entries + scan(
            img + ext,
            seg,
            img.len() as int,
        ).entries,
        scan(img + ext, seg, p).end == scan(img + ext, seg, img.len() as int).end,
        scan(img + ext, seg, p).torn == scan(img + ext, seg, img.len() as int).torn,
    decreases img.len() - p,
{
    let all = img + ext;
    let tail = scan(all, seg, img.len() as int);
    if p >= img.len() {
        assert(scan(img, seg, p).entries + tail.entries =~= tail.entries);
    } else if p % seg == 0 {
        assert(all.subrange(p, p + 8) =~= img.subrange(p, p + 8));
        lemma_scan_extend(img, ext, seg, p + 24);
    } else if img[p + 4] == 0 {
        assert(all[p + 4] == img[p + 4]);
        let n = next_seg(p, seg);
        lemma_scan_extend(img, ext, seg, n);
        let rest_img = scan(img, seg, n);
        let first = seq![Placed { lsn: p as LogId, rec: pad_record() }];
        assert((first + rest_img.entries) + tail.entries =~= first + (rest_img.entries
            + tail.entries));
    } else {
        assert(all[p + 4] == img[p + 4]);
        let r = unframe(img, p)->0;
        let w = frame_len(announced(img, p));
        assert(all.subrange(p, p + w) =~= img.subrange(p, p + w));
        lemma_unframe_local(img, all, p);
        lemma_scan_extend(img, ext, seg, p + need_of(r));
        let rest_img = scan(img, seg, p + need_of(r));
        let first = seq![Placed { lsn: p as LogId, rec: r }];
        assert((first + rest_img.entries) + tail.entries =~= first + (rest_img.entries
            + tail.entries));
    }
}

/// A header at the beginning of a segment is passed over.
pub proof fn lemma_scan_header(all: Seq<u8>, p: int, flush: int, seg: int)
    requires
        seg_ok(seg),
        0 <= p <= u64::MAX,
        p % seg == 0,
        p + 24 <= all.len(),
        all.subrange(p, p + 24) == segment_header(p, flush),
    ensures
        scan(all, seg, p) == scan(all, seg, p + 24),
{
    lemma_header_at(all, p, flush);
}

/// Zero bytes up to the end of the log, which ends its segment, are read
/// as padding.
pub proof fn lemma_scan_pad(all: Seq<u8>, p: int, seg: int)
    requires
        seg_ok(seg),
        0 <= p,
        p % seg != 0,
        p + 5 <= all.len(),
        all[p + 4] == 0,
        next_seg(p, seg) == all.len(),
    ensures
        scan(all, seg, p) == (Scan {
            entries: seq![Placed { lsn: p as LogId, rec: pad_record() }],
            end: all.len() as int,
            torn: false,
        }),
{
    lemma_segment(p, seg);
    let s_end = scan(all, seg, next_seg(p, seg));
    assert(s_end == scan_stop(next_seg(p, seg), false));
    assert(scan(all, seg, p).entries =~= seq![Placed { lsn: p as LogId, rec: pad_record() }]);
}

/// A frame at the end of the log is read as its record.
pub proof fn lemma_scan_frame(all: Seq<u8>, at: int, r: RecordView, seg: int)
    requires
        seg_ok(seg),
        0 <= at,
        at % seg != 0,
        fits(r, seg),
        at + need_of(r) <= next_seg(at, seg),
        all.len() == at + need_of(r),
        all.subrange(at, at + need_of(r)) == frame(r),
    ensures
        scan(all, seg, at) == (Scan {
            entries: seq![Placed { lsn: at as LogId, rec: r }],
            end: all.len() as int,
            torn: false,
        }),
{
    lemma_frame_len(r);
    lemma_unframe_frame(all, at, r);
    let s_end = scan(all, seg, at + need_of(r));
    assert(s_end == scan_stop(at + need_of(r), false));
    assert(all[at + 4] != 0);
    assert(scan(all, seg, at).entries =~= seq![Placed { lsn: at as LogId, rec: r }]);
}

/// The parts of a log to which an entry was added.
pub proof fn lemma_extend_shape(img: Seq<u8>, r: RecordView, seg: int)
    requires
        seg_ok(seg),
        img.len() % 8 == 0,
        r.kind != RecordKind::Pad ==> fits(r, seg),
    ensures
        ({
            let t = img.len() as int;
            let all = extend_image(img, r, seg);
            let at = body_start(t, seg);
            &&& all.subrange(0, t) == img
            &&& t % seg == 0 ==> all.subrange(t, t + 24) == segment_header(t, t)
            &&& r.kind == RecordKind::Pad ==> all.len() == next_seg(at, seg) && all[at + 4] == 0
            &&& r.kind != RecordKind::Pad ==> all.len() == at + need_of(r) && all.subrange(
                at,
                at + need_of(r),
            ) == frame(r)
        }),
{
    let t = img.len() as int;
    let all = extend_image(img, r, seg);
    let at = body_start(t, seg);
    lemma_frame_len(r);
    lemma_body_start(t, seg);
    lemma_auto_spec_u64_to_from_le_bytes();
    assert(segment_header(t, t).len() == 24);
    let img1 = if t % seg == 0 {
        img + segment_header(t, t)
    } else {
        img
    };
    assert(img1.len() == at);
    assert(img1.subrange(0, t) =~= img);
    assert(all.subrange(0, t) =~= img1.subrange(0, t));
    if t % seg == 0 {
        assert(all.subrange(t, t + 24) =~= segment_header(t, t));
    }
    if r.kind == RecordKind::Pad {
        assert(all[at + 4] == zeros(next_seg(at, seg) - at)[4]);
    } else {
        assert(all.subrange(at, at + need_of(r)) =~= frame(r));
    }
}

/// Reading a log from the end of `img` on, after an entry was added to it,
/// yields that entry alone, at the offset where the log went on.
pub proof fn lemma_scan_added(img: Seq<u8>, r: RecordView, seg: int)
    requires
        seg_ok(seg),
        img.len() % 8 == 0,
        entry_ok(
            img.len() as int,
            Placed { lsn: body_start(img.len() as int, seg) as LogId, rec: r },
            seg,
        ),
        body_start(img.len() as int, seg) <= u64::MAX,
    ensures
        extend_image(img, r, seg).len() == end_of(
            Placed { lsn: body_start(img.len() as int, seg) as LogId, rec: r },
            seg,
        ),
        extend_image(img, r, seg).subrange(0, img.len() as int) == img,
        scan(extend_image(img, r, seg), seg, img.len() as int) == (Scan {
            entries: seq![Placed { lsn: body_start(img.len() as int, seg) as LogId, rec: r }],
            end: extend_image(img, r, seg).len() as int,
            torn: false,
        }),
{
    let t = img.len() as int;
    let all = extend_image(img, r, seg);
    let at = body_start(t, seg);
    lemma_frame_len(r);
    lemma_body_start(t, seg);
    lemma_extend_shape(img, r, seg);
    if r.kind == RecordKind::Pad {
        lemma_scan_pad(all, at, seg);
    } else {
        lemma_scan_frame(all, at, r, seg);
    }
    if t % seg == 0 {
        lemma_scan_header(all, t, t, seg);
    }
}

/// Every entry of a well-placed log lies below the end of the log, which
/// is a multiple of 8.
pub proof fn lemma_log_end(es: Seq<Placed>, seg: int)
    requires
        seg_ok(seg),
        well_placed(es, seg),
    ensures
        log_end(es, seg) % 8 == 0,
        0 <= log_end(es, seg) <= u64::MAX,
        es.len() > 0 ==> log_end(es.drop_last(), seg) <= es.last().lsn < log_end(es, seg),
        es.len() > 0 ==> es.last().lsn >= 24,
    decreases es.len(),
{
    if es.len() > 0 {
        lemma_log_end(es.drop_last(), seg);
        let r = es.last().rec;
        lemma_frame_len(r);
        lemma_body_start(log_end(es.drop_last(), seg), seg);
        lemma_fundamental_div_mod_converse(0, seg, 0, 0);
    }
}

/// The bytes of a log are read back as its entries: nothing is torn, and
/// reading ends at the end of the log.
pub proof fn lemma_scan_image(es: Seq<Placed>, seg: int)
    requires
        seg_ok(seg),
        well_placed(es, seg),
    ensures
        image_of(es, seg).len() == log_end(es, seg),
        scan(image_of(es, seg), seg, 0) == (Scan {
            entries: es,
            end: log_end(es, seg),
            torn: false,
        }),
    decreases es.len(),
{
    if es.len() == 0 {
        assert(scan(image_of(es, seg), seg, 0).entries =~= es);
    } else {
        let before = es.drop_last();
        let last = es.last();
        lemma_log_end(es, seg);
        lemma_log_end(before, seg);
        lemma_scan_image(before, seg);
        let img = image_of(before, seg);
        let all = image_of(es, seg);
        lemma_scan_added(img, last.rec, seg);
        let ext = all.subrange(img.len() as int, all.len() as int);
        assert(all =~= img + ext);
        lemma_scan_extend(img, ext, seg, 0);
        assert(before + seq![last] =~= es);
    }
}

} // verus!
