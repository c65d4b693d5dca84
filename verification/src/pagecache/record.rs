//! The framing of log records.
//!
//! A record on disk is its payload length (`u32`), its kind (`u8`), its page
//! (`u64`), the payload, and a CRC-32 over kind, page and payload; integers
//! are little-endian, and zero bytes fill the frame up to a multiple of 8.

use vstd::prelude::*;
use vstd::bytes::{
    spec_u32_from_le_bytes, spec_u32_to_le_bytes, spec_u64_from_le_bytes, spec_u64_to_le_bytes,
    u32_from_le_bytes, u32_to_le_bytes, u64_from_le_bytes, u64_to_le_bytes,
    lemma_auto_spec_u32_to_from_le_bytes, lemma_auto_spec_u64_to_from_le_bytes,
};
use vstd::slice::slice_subrange;
use crate::bytes::{copy_bytes, extend_bytes};
use crate::crc::{crc32_of, crc_begin, crc_end, crc_feed, lemma_crc_fold_concat};
use crate::pagecache::PageId;

verus! {

/// What a record of the log says.
#[derive(Clone, Copy, Debug, PartialEq, Eq, Structural)]
pub enum RecordKind {
    /// Zero bytes up to the end of the segment.
    Pad,
    /// The page is newly allocated; its anchor follows.
    Allocate,
    /// A fragment that is appended to the page's chain.
    Link,
    /// An anchor: the page's chain starts again with it.
    Replace,
    /// The page is released.
    Free,
    /// A change of the metadata page.
    Meta,
}

impl RecordKind {
    /// The byte that stands for the kind on disk.
    pub open spec fn code(self) -> u8 {
        match self {
            RecordKind::Pad => 0,
            RecordKind::Allocate => 1,
            RecordKind::Link => 2,
            RecordKind::Replace => 3,
            RecordKind::Free => 4,
            RecordKind::Meta => 5,
        }
    }

    /// The kind that a byte stands for.
    pub open spec fn of_code(code: u8) -> Option<RecordKind> {
        if code == 0 {
            Some(RecordKind::Pad)
        } else if code == 1 {
            Some(RecordKind::Allocate)
        } else if code == 2 {
            Some(RecordKind::Link)
        } else if code == 3 {
            Some(RecordKind::Replace)
        } else if code == 4 {
            Some(RecordKind::Free)
        } else if code == 5 {
            Some(RecordKind::Meta)
        } else {
            None
        }
    }

    /// The byte that stands for the kind on disk.
    pub fn to_code(self) -> (c: u8)
        ensures
            c == self.code(),
            RecordKind::of_code(c) == Some(self),
    {
        match self {
            RecordKind::Pad => 0,
            RecordKind::Allocate => 1,
            RecordKind::Link => 2,
            RecordKind::Replace => 3,
            RecordKind::Free => 4,
            RecordKind::Meta => 5,
        }
    }

    /// The kind that a byte stands for, if it stands for one.
    pub fn from_code(code: u8) -> (k: Option<RecordKind>)
        ensures
            k == RecordKind::of_code(code),
            k is Some ==> k->0.code() == code,
    {
        if code == 0 {
            Some(RecordKind::Pad)
        } else if code == 1 {
            Some(RecordKind::Allocate)
        } else if code == 2 {
            Some(RecordKind::Link)
        } else if code == 3 {
            Some(RecordKind::Replace)
        } else if code == 4 {
            Some(RecordKind::Free)
        } else if code == 5 {
            Some(RecordKind::Meta)
        } else {
            None
        }
    }
}

/// A record: its kind, its page and its payload.
#[derive(Debug)]
pub struct Record {
    pub kind: RecordKind,
    pub pid: PageId,
    pub payload: Vec<u8>,
}

/// The mathematical model of a record.
pub struct RecordView {
    pub kind: RecordKind,
    pub pid: PageId,
    pub payload: Seq<u8>,
}

impl View for Record {
    type V = RecordView;

    open spec fn view(&self) -> RecordView {
        RecordView { kind: self.kind, pid: self.pid, payload: self.payload@ }
    }
}

/// The bytes of a frame besides its payload and its fill.
pub const FRAME_OVERHEAD: u64 = 17;

/// The longest payload that a frame can carry.
pub const MAX_PAYLOAD: u64 = 0xFFFF_FFFF;

/// `n` zero bytes.
pub open spec fn zeros(n: int) -> Seq<u8> {
    Seq::new(n as nat, |i: int| 0u8)
}

/// The length of the frame of a payload of `n` bytes.
pub open spec fn frame_len(n: int) -> int {
    (n + 24) / 8 * 8
}

/// What the checksum of a record covers: kind, page and payload.
pub open spec fn frame_body(r: RecordView) -> Seq<u8> {
    seq![r.kind.code()] + spec_u64_to_le_bytes(r.pid) + r.payload
}

/// The frame of a record.
pub open spec fn frame(r: RecordView) -> Seq<u8> {
    spec_u32_to_le_bytes(r.payload.len() as u32) + frame_body(r) + spec_u32_to_le_bytes(
        crc32_of(frame_body(r)),
    ) + zeros(frame_len(r.payload.len() as int) - 17 - r.payload.len())
}

/// The payload length that the frame at `at` announces.
pub open spec fn announced(bytes: Seq<u8>, at: int) -> int {
    spec_u32_from_le_bytes(bytes.subrange(at, at + 4)) as int
}

/// The record whose frame stands at `at`, if a whole and sound frame of a
/// record other than padding stands there.
pub open spec fn unframe(bytes: Seq<u8>, at: int) -> Option<RecordView> {
    if 0 <= at && at + 17 <= bytes.len() {
        let n = announced(bytes, at);
        let kind = RecordKind::of_code(bytes[at + 4]);
        if at + frame_len(n) <= bytes.len() && kind is Some && kind != Some(RecordKind::Pad)
            && spec_u32_from_le_bytes(bytes.subrange(at + 13 + n, at + 17 + n)) == crc32_of(
            bytes.subrange(at + 4, at + 13 + n),
        ) {
            Some(
                RecordView {
                    kind: kind->0,
                    pid: spec_u64_from_le_bytes(bytes.subrange(at + 5, at + 13)),
                    payload: bytes.subrange(at + 13, at + 13 + n),
                },
            )
        } else {
            None
        }
    } else {
        None
    }
}

/// A frame is as long as `frame_len` says, which is a multiple of 8 and
/// holds the 17 bytes around the payload.
pub proof fn lemma_frame_len(r: RecordView)
    ensures
        frame(r).len() == frame_len(r.payload.len() as int),
        frame_len(r.payload.len() as int) % 8 == 0,
        17 + r.payload.len() <= frame_len(r.payload.len() as int) < 25 + r.payload.len(),
{
    lemma_auto_spec_u32_to_from_le_bytes();
    lemma_auto_spec_u64_to_from_le_bytes();
}

/// A frame that stands whole in `bytes` at `at` is read back as its record.
#[verifier::rlimit(60)]
#[verifier::spinoff_prover]
pub proof fn lemma_unframe_frame(bytes: Seq<u8>, at: int, r: RecordView)
    requires
        0 <= at,
        at + frame(r).len() <= bytes.len(),
        bytes.subrange(at, at + frame(r).len()) == frame(r),
        r.kind != RecordKind::Pad,
        r.payload.len() <= MAX_PAYLOAD,
    ensures
        unframe(bytes, at) == Some(r),
        announced(bytes, at) == r.payload.len(),
        bytes[at + 4] == r.kind.code(),
{
    lemma_auto_spec_u32_to_from_le_bytes();
    lemma_auto_spec_u64_to_from_le_bytes();
    lemma_frame_len(r);
    let f = frame(r);
    let n = r.payload.len() as int;
    let len_bytes = spec_u32_to_le_bytes(n as u32);
    let pid_bytes = spec_u64_to_le_bytes(r.pid);
    let crc_bytes = spec_u32_to_le_bytes(crc32_of(frame_body(r)));
    let w = bytes.subrange(at, at + f.len());
    assert(bytes.subrange(at, at + 4) =~= w.subrange(0, 4));
    assert(w.subrange(0, 4) =~= len_bytes);
    assert(bytes[at + 4] == w[4]);
    assert(bytes.subrange(at + 5, at + 13) =~= w.subrange(5, 13));
    assert(w.subrange(5, 13) =~= pid_bytes);
    assert(bytes.subrange(at + 13, at + 13 + n) =~= w.subrange(13, 13 + n));
    assert(w.subrange(13, 13 + n) =~= r.payload);
    assert(bytes.subrange(at + 4, at + 13 + n) =~= w.subrange(4, 13 + n));
    assert(w.subrange(4, 13 + n) =~= frame_body(r));
    assert(bytes.subrange(at + 13 + n, at + 17 + n) =~= w.subrange(13 + n, 17 + n));
    assert(w.subrange(13 + n, 17 + n) =~= crc_bytes);
    assert(RecordKind::of_code(r.kind.code()) == Some(r.kind));
}

/// What stands at `at` depends only on the bytes of the frame: two byte
/// strings that agree up to the end of a sound frame hold the same record
/// there.
#[verifier::rlimit(60)]
#[verifier::spinoff_prover]
pub proof fn lemma_unframe_local(a: Seq<u8>, b: Seq<u8>, at: int)
    requires
        unframe(a, at) is Some,
        at + frame_len(announced(a, at)) <= b.len(),
        a.subrange(at, at + frame_len(announced(a, at))) == b.subrange(
            at,
            at + frame_len(announced(a, at)),
        ),
    ensures
        unframe(b, at) == unframe(a, at),
        announced(b, at) == announced(a, at),
        b[at + 4] == a[at + 4],
{
    let n = announced(a, at);
    let w = frame_len(n);
    let wa = a.subrange(at, at + w);
    let wb = b.subrange(at, at + w);
    assert(a.subrange(at, at + 4) =~= wa.subrange(0, 4));
    assert(b.subrange(at, at + 4) =~= wb.subrange(0, 4));
    assert(a[at + 4] == wa[4]);
    assert(b[at + 4] == wb[4]);
    assert(a.subrange(at + 5, at + 13) =~= wa.subrange(5, 13));
    assert(b.subrange(at + 5, at + 13) =~= wb.subrange(5, 13));
    assert(a.subrange(at + 13, at + 13 + n) =~= wa.subrange(13, 13 + n));
    assert(b.subrange(at + 13, at + 13 + n) =~= wb.subrange(13, 13 + n));
    assert(a.subrange(at + 4, at + 13 + n) =~= wa.subrange(4, 13 + n));
    assert(b.subrange(at + 4, at + 13 + n) =~= wb.subrange(4, 13 + n));
    assert(a.subrange(at + 13 + n, at + 17 + n) =~= wa.subrange(13 + n, 17 + n));
    assert(b.subrange(at + 13 + n, at + 17 + n) =~= wb.subrange(13 + n, 17 + n));
}

/// The length of the frame of a payload of `n` bytes.
pub fn frame_size(n: u64) -> (r: u64)
    requires
        n <= MAX_PAYLOAD,
    ensures
        r == frame_len(n as int),
        r % 8 == 0,
        17 + n <= r < 25 + n,
{
    (n + 24) / 8 * 8
}

/// Appends the frame of a record to `out`.
pub fn put_frame(out: &mut Vec<u8>, kind: RecordKind, pid: PageId, payload: &[u8])
    requires
        payload@.len() <= MAX_PAYLOAD,
    ensures
        final(out)@ == old(out)@ + frame(RecordView { kind, pid, payload: payload@ }),
{
    let ghost r = RecordView { kind, pid, payload: payload@ };
    let n: u64 = payload.len() as u64;
    let len_bytes = u32_to_le_bytes(n as u32);
    let mut kind_byte: Vec<u8> = Vec::new();
    kind_byte.push(kind.to_code());
    let pid_bytes = u64_to_le_bytes(pid);
    let mut c = crc_begin();
    c = crc_feed(c, kind_byte.as_slice());
    c = crc_feed(c, pid_bytes.as_slice());
    c = crc_feed(c, payload);
    let crc = crc_end(c);
    proof {
        lemma_crc_fold_concat(0xFFFF_FFFFu32, kind_byte@, pid_bytes@);
        lemma_crc_fold_concat(0xFFFF_FFFFu32, kind_byte@ + pid_bytes@, payload@);
        assert(kind_byte@ =~= seq![kind.code()]);
        assert(crc == crc32_of(frame_body(r)));
    }
    let crc_bytes = u32_to_le_bytes(crc);
    extend_bytes(out, len_bytes.as_slice());
    extend_bytes(out, kind_byte.as_slice());
    extend_bytes(out, pid_bytes.as_slice());
    extend_bytes(out, payload);
    extend_bytes(out, crc_bytes.as_slice());
    let total = frame_size(n);
    let fill: u64 = total - 17 - n;
    let ghost before = out@;
    let mut i: u64 = 0;
    while i < fill
        invariant
            i <= fill,
            out@ == before + zeros(i as int),
        decreases fill - i,
    {
        out.push(0u8);
        proof {
            assert(out@ =~= before + zeros(i + 1));
        }
        i += 1;
    }
    proof {
        assert(before + zeros(0) =~= before);
        assert(out@ =~= old(out)@ + frame(r));
    }
}

/// Reads the record whose frame stands at `at`.
pub fn take_frame(bytes: &[u8], at: usize) -> (r: Option<Record>)
    ensures
        r is Some == unframe(bytes@, at as int) is Some,
        r is Some ==> r->0@ == unframe(bytes@, at as int)->0,
{
    let len = bytes.len();
    if at > len || len - at < 17 {
        return None;
    }
    let n: u64 = u32_from_le_bytes(slice_subrange(bytes, at, at + 4)) as u64;
    let total = frame_size(n);
    if total > (len - at) as u64 {
        return None;
    }
    let n: usize = n as usize;
    let kind = match RecordKind::from_code(bytes[at + 4]) {
        None => {
            return None;
        },
        Some(RecordKind::Pad) => {
            return None;
        },
        Some(kind) => kind,
    };
    let stored = u32_from_le_bytes(slice_subrange(bytes, at + 13 + n, at + 17 + n));
    let computed = crc_end(crc_feed(crc_begin(), slice_subrange(bytes, at + 4, at + 13 + n)));
    if stored != computed {
        return None;
    }
    let pid = u64_from_le_bytes(slice_subrange(bytes, at + 5, at + 13));
    let payload = copy_bytes(slice_subrange(bytes, at + 13, at + 13 + n));
    Some(Record { kind, pid, payload })
}

} // verus!
