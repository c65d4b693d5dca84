//! The log: an append-only sequence of records, each at its offset.

use vstd::prelude::*;
use crate::pagecache::{Error, LogId, PageId};
use vstd::bytes::{u64_from_le_bytes, u64_to_le_bytes};
use vstd::slice::slice_subrange;
use crate::bytes::extend_bytes;
use crate::pagecache::layout::{
    body_start, end_of, entry_ok, fits, image_of, log_end, need_of, next_seg, pad_record, scan,
    scan_stop, seg_ok, segment_header, well_placed, Placed, Scan, lemma_body_start, lemma_log_end,
    lemma_scan_image, lemma_segment, lemma_within, MIN_SEGMENT, SEGMENT_HEADER,
};
use crate::pagecache::record::{
    frame_size, put_frame, take_frame, zeros, Record, RecordKind, RecordView, MAX_PAYLOAD,
    lemma_frame_len,
};

verus! {

/// A record of the log with its offset.
#[derive(Debug)]
pub struct LogEntry {
    pub lsn: LogId,
    pub record: Record,
}

impl View for LogEntry {
    type V = Placed;

    open spec fn view(&self) -> Placed {
        Placed { lsn: self.lsn, rec: self.record@ }
    }
}

/// The entries that a vector of log entries stands for.
pub open spec fn entries_view(entries: Seq<LogEntry>) -> Seq<Placed> {
    Seq::new(entries.len(), |i: int| entries[i]@)
}

/// The record that stands at `lsn` in the log `es`, if one does.
pub open spec fn record_at(es: Seq<Placed>, lsn: LogId) -> Option<RecordView>
    decreases es.len(),
{
    if es.len() == 0 {
        None
    } else if es.last().lsn == lsn {
        Some(es.last().rec)
    } else {
        record_at(es.drop_last(), lsn)
    }
}

/// Whether the record `r` can be added to the log `es`: its frame fits into
/// a segment, and the offsets stay within `u64`.
pub open spec fn can_append(es: Seq<Placed>, r: RecordView, seg: int) -> bool {
    let p = body_start(log_end(es, seg), seg);
    &&& fits(r, seg)
    &&& if need_of(r) <= next_seg(p, seg) - p {
        p + need_of(r) <= u64::MAX
    } else {
        next_seg(p, seg) + 24 + need_of(r) <= u64::MAX
    }
}

/// The log `es` after the record `r` is added: where the frame does not fit
/// into what is left of the segment, padding ends the segment first.
pub open spec fn appended(es: Seq<Placed>, r: RecordView, seg: int) -> Seq<Placed> {
    let p = body_start(log_end(es, seg), seg);
    if need_of(r) <= next_seg(p, seg) - p {
        es.push(Placed { lsn: p as LogId, rec: r })
    } else {
        es.push(Placed { lsn: p as LogId, rec: pad_record() }).push(
            Placed { lsn: (next_seg(p, seg) + 24) as LogId, rec: r },
        )
    }
}

/// A record that was added lies behind all that the log held, and the log
/// is well placed again.
pub proof fn lemma_appended(es: Seq<Placed>, r: RecordView, seg: int)
    requires
        seg_ok(seg),
        well_placed(es, seg),
        can_append(es, r, seg),
    ensures
        well_placed(appended(es, r, seg), seg),
        appended(es, r, seg).last().rec == r,
        appended(es, r, seg).last().lsn >= log_end(es, seg),
        appended(es, r, seg).last().lsn >= 24,
        log_end(appended(es, r, seg), seg) == appended(es, r, seg).last().lsn + need_of(r),
{
    let t = log_end(es, seg);
    let p = body_start(t, seg);
    lemma_log_end(es, seg);
    lemma_body_start(t, seg);
    lemma_frame_len(r);
    vstd::arithmetic::div_mod::lemma_fundamental_div_mod_converse(0, seg, 0, 0);
    if need_of(r) <= next_seg(p, seg) - p {
        let e = Placed { lsn: p as LogId, rec: r };
        assert(es.push(e).drop_last() =~= es);
    } else {
        let pad = Placed { lsn: p as LogId, rec: pad_record() };
        let n = next_seg(p, seg);
        let e = Placed { lsn: (n + 24) as LogId, rec: r };
        let es1 = es.push(pad);
        assert(es1.drop_last() =~= es);
        assert(well_placed(es1, seg));
        assert(log_end(es1, seg) == n);
        lemma_segment(p, seg);
        lemma_body_start(n, seg);
        assert(es1.push(e).drop_last() =~= es1);
    }
}

/// The beginning of a well-placed log is well placed.
pub proof fn lemma_well_placed_take(es: Seq<Placed>, seg: int, n: int)
    requires
        well_placed(es, seg),
        0 <= n <= es.len(),
    ensures
        well_placed(es.take(n), seg),
    decreases es.len(),
{
    if n < es.len() {
        lemma_well_placed_take(es.drop_last(), seg, n);
        assert(es.drop_last().take(n) =~= es.take(n));
    } else {
        assert(es.take(n) =~= es);
    }
}

/// What opening a log from its bytes yields: the entries read, with padding
/// added behind a torn tail, or the reason why the log cannot be opened.
pub open spec fn opened(bytes: Seq<u8>, seg: int) -> Result<Seq<Placed>, Error> {
    let s = scan(bytes, seg, 0);
    if !seg_ok(seg) {
        Err(Error::Unsupported)
    } else if !s.torn {
        Ok(s.entries)
    } else if next_seg(s.end, seg) < bytes.len() {
        Err(Error::Corruption { at: s.end as LogId })
    } else if s.end % seg == 0 {
        Ok(s.entries)
    } else if next_seg(s.end, seg) > u64::MAX {
        Err(Error::Io)
    } else {
        Ok(s.entries.push(Placed { lsn: s.end as LogId, rec: pad_record() }))
    }
}

/// Appends `n` zero bytes to `out`.
fn put_zeros(out: &mut Vec<u8>, n: u64)
    ensures
        final(out)@ == old(out)@ + zeros(n as int),
{
    let mut i: u64 = 0;
    proof {
        assert(old(out)@ + zeros(0) =~= old(out)@);
    }
    while i < n
        invariant
            i <= n,
            out@ == old(out)@ + zeros(i as int),
        decreases n - i,
    {
        out.push(0u8);
        proof {
            assert(out@ =~= old(out)@ + zeros(i + 1));
        }
        i += 1;
    }
}

/// Appends the header of the segment at `base` to `out`.
fn put_header(out: &mut Vec<u8>, base: u64, flush: u64)
    ensures
        final(out)@ == old(out)@ + segment_header(base as int, flush as int),
{
    let a = u64_to_le_bytes(base);
    let b = u64_to_le_bytes(flush);
    extend_bytes(out, a.as_slice());
    extend_bytes(out, b.as_slice());
    put_zeros(out, 8);
    proof {
        assert(out@ =~= old(out)@ + segment_header(base as int, flush as int));
    }
}

/// The offset at which a log with the entries `entries` ends.
fn log_tail(entries: &Vec<LogEntry>, seg: u64) -> (r: u64)
    requires
        seg_ok(seg as int),
        well_placed(entries_view(entries@), seg as int),
    ensures
        r == log_end(entries_view(entries@), seg as int),
{
    let ghost es = entries_view(entries@);
    proof {
        lemma_log_end(es, seg as int);
    }
    if entries.len() == 0 {
        0
    } else {
        let e = &entries[entries.len() - 1];
        assert(e@ == es.last());
        proof {
            lemma_segment(e.lsn as int, seg as int);
            lemma_frame_len(e.record@);
            assert(entry_ok(log_end(es.drop_last(), seg as int), es.last(), seg as int));
            assert(end_of(es.last(), seg as int) <= u64::MAX);
        }
        match e.record.kind {
            RecordKind::Pad => seg - e.lsn % seg + e.lsn,
            _ => e.lsn + frame_size(e.record.payload.len() as u64),
        }
    }
}

/// Reads the entries of a log from its bytes.
#[verifier::rlimit(60)]
#[verifier::spinoff_prover]
fn read_entries(bytes: &[u8], seg: u64) -> (r: (Vec<LogEntry>, usize, bool))
    requires
        seg_ok(seg as int),
    ensures
        scan(bytes@, seg as int, 0) == (Scan {
            entries: entries_view(r.0@),
            end: r.1 as int,
            torn: r.2,
        }),
        well_placed(entries_view(r.0@), seg as int),
        r.1 <= bytes@.len(),
        r.1 == log_end(entries_view(r.0@), seg as int) || (log_end(entries_view(r.0@), seg as int)
            % (seg as int) == 0 && r.1 == log_end(entries_view(r.0@), seg as int) + 24),
{
    let len = bytes.len();
    let mut acc: Vec<LogEntry> = Vec::new();
    let mut p: usize = 0;
    let mut stop = false;
    let mut torn = false;
    let ghost total = scan(bytes@, seg as int, 0);
    proof {
        assert(entries_view(acc@) =~= Seq::<Placed>::empty());
        assert(entries_view(acc@) + total.entries =~= total.entries);
        vstd::arithmetic::div_mod::lemma_fundamental_div_mod_converse(0, seg as int, 0, 0);
    }
    while !stop
        invariant
            seg_ok(seg as int),
            len == bytes@.len(),
            p <= len,
            total == scan(bytes@, seg as int, 0),
            total.entries == entries_view(acc@) + scan(bytes@, seg as int, p as int).entries,
            total.end == scan(bytes@, seg as int, p as int).end,
            total.torn == scan(bytes@, seg as int, p as int).torn,
            stop ==> scan(bytes@, seg as int, p as int) == scan_stop(p as int, torn),
            well_placed(entries_view(acc@), seg as int),
            p == log_end(entries_view(acc@), seg as int) || (log_end(
                entries_view(acc@),
                seg as int,
            ) % (seg as int) == 0 && p == log_end(entries_view(acc@), seg as int) + 24),
            (p as int) % (seg as int) == 0 || (p as int) % (seg as int) >= 24,
        decreases len - p + (if stop { 0int } else { 1int }),
    {
        let ghost av = entries_view(acc@);
        proof {
            lemma_segment(p as int, seg as int);
            lemma_log_end(av, seg as int);
            lemma_segment(log_end(av, seg as int), seg as int);
            if log_end(av, seg as int) % (seg as int) == 0 {
                lemma_within(log_end(av, seg as int), 24, seg as int);
            }
        }
        if p >= len {
            stop = true;
            torn = false;
        } else if (p as u64) % seg == 0 {
            if len - p >= 24 && u64_from_le_bytes(slice_subrange(bytes, p, p + 8)) == p as u64 {
                proof {
                    lemma_within(p as int, 24, seg as int);
                }
                p += 24;
            } else {
                stop = true;
                torn = true;
            }
        } else if len - p < 5 {
            stop = true;
            torn = true;
        } else {
            let left: u64 = seg - (p as u64) % seg;
            assert(left == next_seg(p as int, seg as int) - p);
            if bytes[p + 4] == 0 {
                if left > (len - p) as u64 {
                    stop = true;
                    torn = true;
                } else {
                    let ghost e = Placed { lsn: p as LogId, rec: pad_record() };
                    let ghost rest = scan(bytes@, seg as int, next_seg(p as int, seg as int));
                    acc.push(
                        LogEntry {
                            lsn: p as u64,
                            record: Record { kind: RecordKind::Pad, pid: 0, payload: Vec::new() },
                        },
                    );
                    proof {
                        assert(entries_view(acc@) =~= av.push(e));
                        assert(av.push(e).drop_last() =~= av);
                        assert(av + (seq![e] + rest.entries) =~= av.push(e) + rest.entries);
                        lemma_segment(next_seg(p as int, seg as int), seg as int);
                    }
                    p += left as usize;
                }
            } else {
                match take_frame(bytes, p) {
                    Some(record) => {
                        let need = frame_size(record.payload.len() as u64);
                        if need > left {
                            stop = true;
                            torn = true;
                        } else {
                            let ghost e = Placed { lsn: p as LogId, rec: record@ };
                            let ghost rest = scan(bytes@, seg as int, p + need);
                            proof {
                                lemma_frame_len(record@);
                                if need < left {
                                    lemma_within(p as int, need as int, seg as int);
                                } else {
                                    lemma_segment(p + need, seg as int);
                                }
                            }
                            acc.push(LogEntry { lsn: p as u64, record });
                            proof {
                                assert(entries_view(acc@) =~= av.push(e));
                                assert(av.push(e).drop_last() =~= av);
                                assert(av + (seq![e] + rest.entries) =~= av.push(e)
                                    + rest.entries);
                            }
                            p += need as usize;
                        }
                    },
                    None => {
                        stop = true;
                        torn = true;
                    },
                }
            }
        }
    }
    proof {
        assert(entries_view(acc@) + Seq::<Placed>::empty() =~= entries_view(acc@));
    }
    (acc, p, torn)
}

/// The offsets of a well-placed log ascend.
pub proof fn lemma_ascending_lsn(es: Seq<Placed>, seg: int, i: int, j: int)
    requires
        seg_ok(seg),
        well_placed(es, seg),
        0 <= i < j < es.len(),
    ensures
        es[i].lsn < es[j].lsn,
    decreases es.len(),
{
    lemma_log_end(es, seg);
    if j < es.len() - 1 {
        lemma_ascending_lsn(es.drop_last(), seg, i, j);
    } else {
        lemma_below_end(es.drop_last(), seg, i);
        assert(es.drop_last()[i] == es[i]);
    }
}

/// Every entry of a well-placed log lies below its end.
pub proof fn lemma_below_end(es: Seq<Placed>, seg: int, i: int)
    requires
        seg_ok(seg),
        well_placed(es, seg),
        0 <= i < es.len(),
    ensures
        es[i].lsn < log_end(es, seg),
    decreases es.len(),
{
    lemma_log_end(es, seg);
    if i < es.len() - 1 {
        lemma_below_end(es.drop_last(), seg, i);
        lemma_log_end(es.drop_last(), seg);
        assert(es.drop_last()[i] == es[i]);
    }
}

/// The record at the offset of an entry of a well-placed log is the record
/// of that entry.
pub proof fn lemma_record_at_index(es: Seq<Placed>, seg: int, i: int)
    requires
        seg_ok(seg),
        well_placed(es, seg),
        0 <= i < es.len(),
    ensures
        record_at(es, es[i].lsn) == Some(es[i].rec),
    decreases es.len(),
{
    if i < es.len() - 1 {
        lemma_ascending_lsn(es, seg, i, es.len() - 1);
        lemma_record_at_index(es.drop_last(), seg, i);
        assert(es.drop_last()[i] == es[i]);
    }
}

/// An offset at which no entry stands holds no record.
pub proof fn lemma_record_at_none(es: Seq<Placed>, lsn: LogId)
    requires
        forall|j: int| 0 <= j < es.len() ==> (#[trigger] es[j]).lsn != lsn,
    ensures
        record_at(es, lsn) is None,
    decreases es.len(),
{
    if es.len() > 0 {
        assert(es[es.len() - 1].lsn != lsn);
        assert forall|j: int| 0 <= j < es.drop_last().len() implies (
        #[trigger] es.drop_last()[j]).lsn != lsn by {
            assert(es.drop_last()[j] == es[j]);
        }
        lemma_record_at_none(es.drop_last(), lsn);
    }
}

/// The log: its entries in the order of their offsets.
pub struct Log {
    entries: Vec<LogEntry>,
    tail: LogId,
    segment_size: u64,
    stable: LogId,
}

impl Log {
    /// The entries of the log, padding included.
    pub closed spec fn view(&self) -> Seq<Placed> {
        entries_view(self.entries@)
    }

    /// The size of a segment.
    pub closed spec fn seg(&self) -> int {
        self.segment_size as int
    }

    /// The offset up to which the log is known to be on disk.
    pub closed spec fn stable_lsn(&self) -> LogId {
        self.stable
    }

    #[verifier::type_invariant]
    spec fn inv(&self) -> bool {
        &&& seg_ok(self.segment_size as int)
        &&& well_placed(entries_view(self.entries@), self.segment_size as int)
        &&& self.tail == log_end(entries_view(self.entries@), self.segment_size as int)
        &&& self.stable <= self.tail
    }

    /// An empty log with segments of `segment_size` bytes.
    pub fn new(segment_size: u64) -> (r: Result<Log, Error>)
        ensures
            r is Ok <==> seg_ok(segment_size as int),
            r is Err ==> r == Err::<Log, Error>(Error::Unsupported),
            r is Ok ==> r->Ok_0@ == Seq::<Placed>::empty() && r->Ok_0.seg() == segment_size
                && r->Ok_0.stable_lsn() == 0,
    {
        if segment_size % 8 != 0 || segment_size < MIN_SEGMENT {
            return Err(Error::Unsupported);
        }
        let log = Log { entries: Vec::new(), tail: 0, segment_size, stable: 0 };
        proof {
            assert(entries_view(log.entries@) =~= Seq::<Placed>::empty());
        }
        Ok(log)
    }

    /// The size of a segment.
    pub fn segment_size(&self) -> (r: u64)
        ensures
            r == self.seg(),
            seg_ok(self.seg()),
            well_placed(self@, self.seg()),
    {
        proof {
            use_type_invariant(self);
        }
        self.segment_size
    }

    /// The offset at which the log ends.
    pub fn tail(&self) -> (r: LogId)
        ensures
            r == log_end(self@, self.seg()),
    {
        proof {
            use_type_invariant(self);
        }
        self.tail
    }

    /// The offset up to which the log is known to be on disk.
    pub fn stable(&self) -> (r: LogId)
        ensures
            r == self.stable_lsn(),
            r <= log_end(self@, self.seg()),
    {
        proof {
            use_type_invariant(self);
        }
        self.stable
    }

    /// The number of entries, padding included.
    pub fn len(&self) -> (n: usize)
        ensures
            n == self@.len(),
    {
        self.entries.len()
    }

    /// The entry at place `i`.
    pub fn entry(&self, i: usize) -> (e: &LogEntry)
        requires
            i < self@.len(),
        ensures
            e@ == self@[i as int],
    {
        &self.entries[i]
    }

    /// Adds a record to the log and returns its offset.
    pub fn append(&mut self, kind: RecordKind, pid: PageId, payload: Vec<u8>) -> (r: Result<
        LogId,
        Error,
    >)
        ensures
            final(self).seg() == old(self).seg(),
            final(self).stable_lsn() == old(self).stable_lsn(),
            r is Ok <==> can_append(
                old(self)@,
                RecordView { kind, pid, payload: payload@ },
                old(self).seg(),
            ),
            r is Ok ==> final(self)@ == appended(
                old(self)@,
                RecordView { kind, pid, payload: payload@ },
                old(self).seg(),
            ) && r->Ok_0 == final(self)@.last().lsn,
            r is Err ==> final(self)@ == old(self)@,
            r is Err ==> r->Err_0 == (if fits(
                RecordView { kind, pid, payload: payload@ },
                old(self).seg(),
            ) {
                Error::Io
            } else if kind == RecordKind::Pad {
                Error::ReportableBug
            } else {
                Error::Unsupported
            }),
    {
        proof {
            use_type_invariant(&*self);
        }
        let ghost rec = RecordView { kind, pid, payload: payload@ };
        let ghost es = self@;
        let seg = self.segment_size;
        match kind {
            RecordKind::Pad => {
                return Err(Error::ReportableBug);
            },
            _ => {},
        }
        if payload.len() as u64 > MAX_PAYLOAD {
            return Err(Error::Unsupported);
        }
        let need = frame_size(payload.len() as u64);
        if need > seg - SEGMENT_HEADER {
            return Err(Error::Unsupported);
        }
        proof {
            lemma_log_end(es, seg as int);
            lemma_body_start(self.tail as int, seg as int);
            lemma_segment(self.tail as int, seg as int);
        }
        let p: u64 = if self.tail % seg == 0 {
            if self.tail > u64::MAX - SEGMENT_HEADER {
                proof {
                    lemma_segment(self.tail + 24, seg as int);
                }
                return Err(Error::Io);
            }
            self.tail + SEGMENT_HEADER
        } else {
            self.tail
        };
        proof {
            lemma_segment(p as int, seg as int);
        }
        let left: u64 = seg - p % seg;
        assert(left == next_seg(p as int, seg as int) - p);
        let mut fresh = Log { entries: Vec::new(), tail: 0, segment_size: seg, stable: 0 };
        if need <= left {
            if p > u64::MAX - need {
                return Err(Error::Io);
            }
            proof {
                assert(entries_view(fresh.entries@) =~= Seq::<Placed>::empty());
                lemma_appended(es, rec, seg as int);
            }
            core::mem::swap(self, &mut fresh);
            let Log { mut entries, tail, segment_size, stable } = fresh;
            entries.push(LogEntry { lsn: p, record: Record { kind, pid, payload } });
            proof {
                assert(entries_view(entries@) =~= appended(es, rec, seg as int));
            }
            *self = Log { entries, tail: p + need, segment_size, stable };
            Ok(p)
        } else {
            if p > u64::MAX - left || p + left > u64::MAX - SEGMENT_HEADER || p + left
                + SEGMENT_HEADER > u64::MAX - need {
                return Err(Error::Io);
            }
            let at: u64 = p + left + SEGMENT_HEADER;
            proof {
                assert(entries_view(fresh.entries@) =~= Seq::<Placed>::empty());
                lemma_appended(es, rec, seg as int);
            }
            core::mem::swap(self, &mut fresh);
            let Log { mut entries, tail, segment_size, stable } = fresh;
            entries.push(
                LogEntry {
                    lsn: p,
                    record: Record { kind: RecordKind::Pad, pid: 0, payload: Vec::new() },
                },
            );
            entries.push(LogEntry { lsn: at, record: Record { kind, pid, payload } });
            proof {
                assert(entries_view(entries@) =~= appended(es, rec, seg as int));
            }
            *self = Log { entries, tail: at + need, segment_size, stable };
            Ok(at)
        }
    }

    /// The log that the bytes of a log file hold. Bytes behind the last
    /// sound entry are given up when they lie in the last segment; padding
    /// then ends that segment, so that the log goes on in the next one.
    pub fn open(bytes: &[u8], segment_size: u64) -> (r: Result<Log, Error>)
        ensures
            match opened(bytes@, segment_size as int) {
                Ok(es) => r is Ok && r->Ok_0@ == es && r->Ok_0.seg() == segment_size
                    && r->Ok_0.stable_lsn() == log_end(
                    scan(bytes@, segment_size as int, 0).entries,
                    segment_size as int,
                ),
                Err(e) => r == Err::<Log, Error>(e),
            },
    {
        if segment_size % 8 != 0 || segment_size < MIN_SEGMENT {
            return Err(Error::Unsupported);
        }
        let (mut entries, end, torn) = read_entries(bytes, segment_size);
        let ghost es = entries_view(entries@);
        let len = bytes.len();
        proof {
            lemma_log_end(es, segment_size as int);
            lemma_segment(end as int, segment_size as int);
            lemma_segment(log_end(es, segment_size as int), segment_size as int);
            if log_end(es, segment_size as int) % (segment_size as int) == 0 {
                lemma_within(log_end(es, segment_size as int), 24, segment_size as int);
            }
        }
        let stable: u64 = log_tail(&entries, segment_size);
        if !torn {
            return Ok(Log { entries, tail: stable, segment_size, stable });
        }
        let left: u64 = segment_size - (end as u64) % segment_size;
        assert(left == next_seg(end as int, segment_size as int) - end);
        if left < (len - end) as u64 {
            return Err(Error::Corruption { at: end as u64 });
        }
        if (end as u64) % segment_size == 0 {
            return Ok(Log { entries, tail: stable, segment_size, stable });
        }
        if left > u64::MAX - end as u64 {
            return Err(Error::Io);
        }
        let ghost pad = Placed { lsn: end as LogId, rec: pad_record() };
        entries.push(
            LogEntry {
                lsn: end as u64,
                record: Record { kind: RecordKind::Pad, pid: 0, payload: Vec::new() },
            },
        );
        proof {
            assert(entries_view(entries@) =~= es.push(pad));
            assert(es.push(pad).drop_last() =~= es);
        }
        Ok(Log { entries, tail: end as u64 + left, segment_size, stable })
    }

    /// The bytes of the log file.
    pub fn image(&self) -> (r: Vec<u8>)
        ensures
            r@ == image_of(self@, self.seg()),
    {
        proof {
            use_type_invariant(self);
        }
        let seg = self.segment_size;
        let mut out: Vec<u8> = Vec::new();
        let mut i: usize = 0;
        proof {
            assert(self@.take(0) =~= Seq::<Placed>::empty());
        }
        while i < self.entries.len()
            invariant
                i <= self.entries.len(),
                seg == self.segment_size,
                seg_ok(seg as int),
                self@.len() == self.entries.len(),
                forall|j: int|
                    0 <= j < self.entries.len() ==> self@[j] == #[trigger] self.entries[j]@,
                well_placed(self@, seg as int),
                out@ == image_of(self@.take(i as int), seg as int),
            decreases self.entries.len() - i,
        {
            let ghost before = self@.take(i as int);
            let ghost now = self@.take(i + 1);
            proof {
                lemma_well_placed_take(self@, seg as int, i as int);
                lemma_well_placed_take(self@, seg as int, i + 1);
                lemma_scan_image(before, seg as int);
                lemma_log_end(before, seg as int);
                lemma_log_end(now, seg as int);
                assert(now.drop_last() =~= before);
                assert(now.last() == self@[i as int]);
                lemma_body_start(out@.len() as int, seg as int);
                lemma_frame_len(now.last().rec);
            }
            let t: u64 = out.len() as u64;
            if t % seg == 0 {
                put_header(&mut out, t, t);
                proof {
                    vstd::bytes::lemma_auto_spec_u64_to_from_le_bytes();
                }
            }
            let e = &self.entries[i];
            match e.record.kind {
                RecordKind::Pad => {
                    let p: u64 = out.len() as u64;
                    proof {
                        lemma_segment(p as int, seg as int);
                    }
                    put_zeros(&mut out, seg - p % seg);
                },
                _ => {
                    put_frame(&mut out, e.record.kind, e.record.pid, e.record.payload.as_slice());
                },
            }
            i += 1;
        }
        proof {
            assert(self@.take(i as int) =~= self@);
        }
        out
    }

    /// The record that stands at `lsn`, if one does.
    pub fn read(&self, lsn: LogId) -> (r: Option<&Record>)
        ensures
            r is Some <==> record_at(self@, lsn) is Some,
            r is Some ==> r->0@ == record_at(self@, lsn)->0,
    {
        proof {
            use_type_invariant(self);
        }
        let ghost es = self@;
        let ghost seg = self.segment_size as int;
        let mut lo: usize = 0;
        let mut hi: usize = self.entries.len();
        while lo < hi
            invariant
                lo <= hi <= self.entries.len(),
                es == self@,
                es.len() == self.entries.len(),
                seg_ok(seg),
                well_placed(es, seg),
                forall|j: int| 0 <= j < self.entries.len() ==> es[j] == #[trigger] self.entries[j]@,
                forall|j: int| 0 <= j < lo ==> (#[trigger] es[j]).lsn < lsn,
                forall|j: int| hi <= j < es.len() ==> (#[trigger] es[j]).lsn > lsn,
            decreases hi - lo,
        {
            let mid = lo + (hi - lo) / 2;
            let at = self.entries[mid].lsn;
            if at == lsn {
                proof {
                    lemma_record_at_index(es, seg, mid as int);
                }
                return Some(&self.entries[mid].record);
            } else if at < lsn {
                proof {
                    assert forall|j: int| 0 <= j < mid + 1 implies (#[trigger] es[j]).lsn < lsn by {
                        if j < mid {
                            lemma_ascending_lsn(es, seg, j, mid as int);
                        }
                    }
                }
                lo = mid + 1;
            } else {
                proof {
                    assert forall|j: int| mid <= j < es.len() implies (#[trigger] es[j]).lsn
                        > lsn by {
                        if mid < j {
                            lemma_ascending_lsn(es, seg, mid as int, j);
                        }
                    }
                }
                hi = mid;
            }
        }
        proof {
            lemma_record_at_none(es, lsn);
        }
        None
    }

    /// Notes that the log is on disk up to `lsn`.
    pub fn make_stable(&mut self, lsn: LogId) -> (r: Result<(), Error>)
        ensures
            final(self)@ == old(self)@,
            final(self).seg() == old(self).seg(),
            r is Ok <==> lsn <= log_end(old(self)@, old(self).seg()),
            r is Ok ==> final(self).stable_lsn() == (if lsn > old(self).stable_lsn() {
                lsn
            } else {
                old(self).stable_lsn()
            }),
            r is Err ==> r == Err::<(), Error>(Error::ReportableBug) && final(self).stable_lsn()
                == old(self).stable_lsn(),
    {
        proof {
            use_type_invariant(&*self);
        }
        if lsn > self.tail {
            return Err(Error::ReportableBug);
        }
        if lsn > self.stable {
            self.stable = lsn;
        }
        Ok(())
    }
}

} // verus!
