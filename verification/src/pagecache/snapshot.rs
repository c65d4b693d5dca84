//! A snapshot: the page table at one offset of the log, from which a cache
//! starts without reading the log before that offset.

use vstd::prelude::*;
use vstd::bytes::{
    spec_u32_from_le_bytes, spec_u32_to_le_bytes, spec_u64_from_le_bytes, spec_u64_to_le_bytes,
    u32_from_le_bytes, u32_to_le_bytes, u64_from_le_bytes, u64_to_le_bytes,
    lemma_auto_spec_u32_to_from_le_bytes, lemma_auto_spec_u64_to_from_le_bytes,
};
use vstd::slice::slice_subrange;
use crate::bytes::extend_bytes;
use crate::crc::{crc32, crc32_of};
use crate::pagecache::{LogId, PageId};
use crate::pagecache::model::Table;

verus! {

/// The page table at the offset `last_lsn`: for every page identifier below
/// `max_pid` the offsets of its fragments, the oldest first; none for a
/// free page. Identifier 0 is the metadata page.
#[derive(Debug)]
pub struct Snapshot {
    pub last_lsn: LogId,
    pub max_pid: PageId,
    pub pt: Vec<Vec<LogId>>,
}

/// The mathematical model of a snapshot.
pub struct SnapshotView {
    pub last_lsn: LogId,
    pub max_pid: PageId,
    pub pt: Seq<Seq<LogId>>,
}

impl View for Snapshot {
    type V = SnapshotView;

    open spec fn view(&self) -> SnapshotView {
        SnapshotView {
            last_lsn: self.last_lsn,
            max_pid: self.max_pid,
            pt: Seq::new(self.pt@.len(), |i: int| self.pt@[i]@),
        }
    }
}

/// A sound snapshot: it holds the metadata page, a chain for every
/// identifier below `max_pid`, and no offset at or behind `last_lsn`.
pub open spec fn snapshot_ok(s: SnapshotView) -> bool {
    &&& s.pt.len() == s.max_pid
    &&& s.max_pid >= 1
    &&& forall|p: int, k: int|
        0 <= p < s.pt.len() && 0 <= k < s.pt[p].len() ==> (#[trigger] s.pt[p][k]) < s.last_lsn
}

/// The page table that a snapshot holds.
pub open spec fn snapshot_table(s: SnapshotView) -> Table {
    Table {
        chains: Map::new(
            |pid: PageId| 1 <= pid < s.pt.len() && s.pt[pid as int].len() > 0,
            |pid: PageId| s.pt[pid as int],
        ),
        meta: s.pt[0],
        size: s.pt.len() as int,
    }
}

/// A copy of a list of offsets.
pub fn copy_offsets(offsets: &Vec<LogId>) -> (r: Vec<LogId>)
    ensures
        r@ == offsets@,
{
    let mut r: Vec<LogId> = Vec::new();
    let mut i: usize = 0;
    while i < offsets.len()
        invariant
            i <= offsets.len(),
            r@ == offsets@.take(i as int),
        decreases offsets.len() - i,
    {
        r.push(offsets[i]);
        proof {
            assert(r@ =~= offsets@.take(i + 1));
        }
        i += 1;
    }
    proof {
        assert(offsets@.take(i as int) =~= offsets@);
    }
    r
}

impl Snapshot {
    /// Whether the snapshot is sound.
    pub fn validate(&self) -> (r: bool)
        ensures
            r == snapshot_ok(self@),
    {
        if self.pt.len() as u64 != self.max_pid || self.max_pid < 1 {
            return false;
        }
        let mut p: usize = 0;
        while p < self.pt.len()
            invariant
                p <= self.pt.len(),
                self@.pt.len() == self.pt.len(),
                forall|q: int, k: int|
                    0 <= q < p && 0 <= k < self@.pt[q].len() ==> (#[trigger] self@.pt[q][k])
                        < self.last_lsn,
            decreases self.pt.len() - p,
        {
            let chain = &self.pt[p];
            let mut k: usize = 0;
            while k < chain.len()
                invariant
                    k <= chain.len(),
                    p < self.pt.len(),
                    chain@ == self@.pt[p as int],
                    forall|j: int| 0 <= j < k ==> (#[trigger] chain@[j]) < self.last_lsn,
                decreases chain.len() - k,
            {
                if chain[k] >= self.last_lsn {
                    assert(self@.pt[p as int][k as int] >= self.last_lsn);
                    return false;
                }
                k += 1;
            }
            p += 1;
        }
        true
    }
}

/// The bytes that stand for offsets, one after the other.
pub open spec fn enc_offsets(c: Seq<LogId>) -> Seq<u8>
    decreases c.len(),
{
    if c.len() == 0 {
        Seq::empty()
    } else {
        enc_offsets(c.drop_last()) + spec_u64_to_le_bytes(c.last())
    }
}

/// The bytes that stand for a chain: the number of its offsets and the
/// offsets.
pub open spec fn enc_chain(c: Seq<LogId>) -> Seq<u8> {
    spec_u64_to_le_bytes(c.len() as u64) + enc_offsets(c)
}

/// The bytes that stand for chains, one after the other.
pub open spec fn enc_chains(pt: Seq<Seq<LogId>>) -> Seq<u8>
    decreases pt.len(),
{
    if pt.len() == 0 {
        Seq::empty()
    } else {
        enc_chains(pt.drop_last()) + enc_chain(pt.last())
    }
}

/// What the checksum of a snapshot covers: its offset, the number of its
/// chains and the chains.
pub open spec fn snapshot_body(s: SnapshotView) -> Seq<u8> {
    spec_u64_to_le_bytes(s.last_lsn) + spec_u64_to_le_bytes(s.max_pid) + enc_chains(s.pt)
}

/// The bytes of the file of a snapshot: its body and the CRC-32 of the
/// body.
pub open spec fn snapshot_encoding(s: SnapshotView) -> Seq<u8> {
    snapshot_body(s) + spec_u32_to_le_bytes(crc32_of(snapshot_body(s)))
}

/// The `n` offsets that stand at `pos`.
pub open spec fn take_offsets(bytes: Seq<u8>, pos: int, n: nat) -> Seq<LogId>
    decreases n,
{
    if n == 0 {
        Seq::empty()
    } else {
        take_offsets(bytes, pos, (n - 1) as nat).push(
            spec_u64_from_le_bytes(bytes.subrange(pos + 8 * (n - 1), pos + 8 * n)),
        )
    }
}

/// The chain that stands at `pos` and ends at or before `end`, with the
/// offset behind it.
pub open spec fn take_chain(bytes: Seq<u8>, pos: int, end: int) -> Option<(Seq<LogId>, int)> {
    if 0 <= pos && pos + 8 <= end <= bytes.len() {
        let n = spec_u64_from_le_bytes(bytes.subrange(pos, pos + 8)) as int;
        if pos + 8 + 8 * n <= end {
            Some((take_offsets(bytes, pos + 8, n as nat), pos + 8 + 8 * n))
        } else {
            None
        }
    } else {
        None
    }
}

/// The `n` chains that stand at `pos` and end at or before `end`, with the
/// offset behind them.
pub open spec fn take_chains(bytes: Seq<u8>, pos: int, end: int, n: nat) -> Option<
    (Seq<Seq<LogId>>, int),
>
    decreases n,
{
    if n == 0 {
        Some((Seq::empty(), pos))
    } else {
        match take_chains(bytes, pos, end, (n - 1) as nat) {
            None => None,
            Some((pt, mid)) => match take_chain(bytes, mid, end) {
                None => None,
                Some((c, next)) => Some((pt.push(c), next)),
            },
        }
    }
}

/// The snapshot that the bytes of a file stand for, if they stand for one:
/// the checksum is sound, and the chains fill the file.
pub open spec fn snapshot_decoding(bytes: Seq<u8>) -> Option<SnapshotView> {
    if bytes.len() < 20 {
        None
    } else {
        let end = bytes.len() - 4;
        let max_pid = spec_u64_from_le_bytes(bytes.subrange(8, 16));
        if spec_u32_from_le_bytes(bytes.subrange(end, end + 4)) != crc32_of(bytes.subrange(0, end)) {
            None
        } else {
            match take_chains(bytes, 16, end, max_pid as nat) {
                Some((pt, stop)) => if stop == end {
                    Some(
                        SnapshotView {
                            last_lsn: spec_u64_from_le_bytes(bytes.subrange(0, 8)),
                            max_pid,
                            pt,
                        },
                    )
                } else {
                    None
                },
                None => None,
            }
        }
    }
}

/// The bytes of offsets are eight for each.
pub proof fn lemma_enc_offsets_len(c: Seq<LogId>)
    ensures
        enc_offsets(c).len() == 8 * c.len(),
    decreases c.len(),
{
    lemma_auto_spec_u64_to_from_le_bytes();
    if c.len() > 0 {
        lemma_enc_offsets_len(c.drop_last());
    }
}

/// Offsets that stand at `pos` are read back.
pub proof fn lemma_take_offsets(bytes: Seq<u8>, pos: int, c: Seq<LogId>)
    requires
        0 <= pos,
        pos + 8 * c.len() <= bytes.len(),
        bytes.subrange(pos, pos + 8 * c.len()) == enc_offsets(c),
    ensures
        take_offsets(bytes, pos, c.len()) == c,
    decreases c.len(),
{
    lemma_auto_spec_u64_to_from_le_bytes();
    lemma_enc_offsets_len(c);
    if c.len() > 0 {
        let n = c.len() as int;
        let w = bytes.subrange(pos, pos + 8 * n);
        lemma_enc_offsets_len(c.drop_last());
        assert(bytes.subrange(pos, pos + 8 * (n - 1)) =~= w.subrange(0, 8 * (n - 1)));
        assert(w.subrange(0, 8 * (n - 1)) =~= enc_offsets(c.drop_last()));
        lemma_take_offsets(bytes, pos, c.drop_last());
        assert(bytes.subrange(pos + 8 * (n - 1), pos + 8 * n) =~= w.subrange(8 * (n - 1), 8 * n));
        assert(w.subrange(8 * (n - 1), 8 * n) =~= spec_u64_to_le_bytes(c.last()));
        assert(take_offsets(bytes, pos, c.len()) =~= c);
    } else {
        assert(take_offsets(bytes, pos, c.len()) =~= c);
    }
}

/// A chain that stands at `pos` is read back.
pub proof fn lemma_take_chain(bytes: Seq<u8>, pos: int, end: int, c: Seq<LogId>)
    requires
        0 <= pos,
        c.len() <= u64::MAX,
        pos + enc_chain(c).len() <= end <= bytes.len(),
        bytes.subrange(pos, pos + enc_chain(c).len()) == enc_chain(c),
    ensures
        enc_chain(c).len() == 8 + 8 * c.len(),
        take_chain(bytes, pos, end) == Some((c, pos + 8 + 8 * c.len())),
{
    lemma_auto_spec_u64_to_from_le_bytes();
    lemma_enc_offsets_len(c);
    let n = c.len() as int;
    let w = bytes.subrange(pos, pos + 8 + 8 * n);
    assert(bytes.subrange(pos, pos + 8) =~= w.subrange(0, 8));
    assert(w.subrange(0, 8) =~= spec_u64_to_le_bytes(c.len() as u64));
    assert(bytes.subrange(pos + 8, pos + 8 + 8 * n) =~= w.subrange(8, 8 + 8 * n));
    assert(w.subrange(8, 8 + 8 * n) =~= enc_offsets(c));
    lemma_take_offsets(bytes, pos + 8, c);
}

/// Chains of lengths that fit into `u64`.
pub open spec fn short_chains(pt: Seq<Seq<LogId>>) -> bool {
    forall|i: int| 0 <= i < pt.len() ==> (#[trigger] pt[i]).len() <= u64::MAX
}

/// Chains that stand at `pos` are read back.
pub proof fn lemma_take_chains(bytes: Seq<u8>, pos: int, end: int, pt: Seq<Seq<LogId>>)
    requires
        0 <= pos,
        short_chains(pt),
        pos + enc_chains(pt).len() <= end <= bytes.len(),
        bytes.subrange(pos, pos + enc_chains(pt).len()) == enc_chains(pt),
    ensures
        take_chains(bytes, pos, end, pt.len()) == Some((pt, pos + enc_chains(pt).len())),
    decreases pt.len(),
{
    if pt.len() > 0 {
        let all = enc_chains(pt);
        let head = enc_chains(pt.drop_last());
        let last = enc_chain(pt.last());
        let w = bytes.subrange(pos, pos + all.len());
        assert(bytes.subrange(pos, pos + head.len()) =~= w.subrange(0, head.len() as int));
        assert(w.subrange(0, head.len() as int) =~= head);
        assert(short_chains(pt.drop_last())) by {
            assert forall|i: int| 0 <= i < pt.drop_last().len() implies (
            #[trigger] pt.drop_last()[i]).len() <= u64::MAX by {
                assert(pt.drop_last()[i] == pt[i]);
            }
        }
        lemma_take_chains(bytes, pos, end, pt.drop_last());
        let mid = pos + head.len();
        assert(bytes.subrange(mid, mid + last.len()) =~= w.subrange(
            head.len() as int,
            all.len() as int,
        ));
        assert(w.subrange(head.len() as int, all.len() as int) =~= last);
        assert(pt.last() == pt[pt.len() - 1]);
        lemma_take_chain(bytes, mid, end, pt.last());
        assert(pt.drop_last().push(pt.last()) =~= pt);
    }
}

/// A snapshot that was written is read back unchanged.
pub proof fn law_snapshot_file(s: SnapshotView)
    requires
        s.pt.len() == s.max_pid,
        short_chains(s.pt),
    ensures
        snapshot_decoding(snapshot_encoding(s)) == Some(s),
{
    lemma_auto_spec_u64_to_from_le_bytes();
    lemma_auto_spec_u32_to_from_le_bytes();
    let body = snapshot_body(s);
    let bytes = snapshot_encoding(s);
    let end = bytes.len() - 4;
    assert(end == body.len());
    assert(bytes.subrange(0, end) =~= body);
    assert(bytes.subrange(end, end + 4) =~= spec_u32_to_le_bytes(crc32_of(body)));
    assert(bytes.subrange(0, 8) =~= spec_u64_to_le_bytes(s.last_lsn));
    assert(bytes.subrange(8, 16) =~= spec_u64_to_le_bytes(s.max_pid));
    assert(bytes.subrange(16, 16 + enc_chains(s.pt).len() as int) =~= enc_chains(s.pt));
    lemma_take_chains(bytes, 16, end, s.pt);
}

impl Snapshot {
    /// The bytes of the file of the snapshot.
    pub fn encode(&self) -> (bytes: Vec<u8>)
        ensures
            bytes@ == snapshot_encoding(self@),
    {
        let mut out: Vec<u8> = Vec::new();
        extend_bytes(&mut out, u64_to_le_bytes(self.last_lsn).as_slice());
        extend_bytes(&mut out, u64_to_le_bytes(self.max_pid).as_slice());
        let ghost head = out@;
        let ghost pt = self@.pt;
        let mut p: usize = 0;
        proof {
            assert(pt.take(0) =~= Seq::<Seq<LogId>>::empty());
            assert(out@ =~= head + enc_chains(pt.take(0)));
        }
        while p < self.pt.len()
            invariant
                p <= self.pt.len(),
                pt == self@.pt,
                pt.len() == self.pt.len(),
                out@ == head + enc_chains(pt.take(p as int)),
            decreases self.pt.len() - p,
        {
            let chain = &self.pt[p];
            let ghost before = out@;
            extend_bytes(&mut out, u64_to_le_bytes(chain.len() as u64).as_slice());
            let ghost start = out@;
            let mut k: usize = 0;
            proof {
                assert(chain@.take(0) =~= Seq::<LogId>::empty());
                assert(out@ =~= start + enc_offsets(chain@.take(0)));
            }
            while k < chain.len()
                invariant
                    k <= chain.len(),
                    out@ == start + enc_offsets(chain@.take(k as int)),
                decreases chain.len() - k,
            {
                proof {
                    assert(chain@.take(k + 1).drop_last() =~= chain@.take(k as int));
                    assert(chain@.take(k + 1).last() == chain@[k as int]);
                }
                let ghost was = out@;
                extend_bytes(&mut out, u64_to_le_bytes(chain[k]).as_slice());
                proof {
                    assert(out@ =~= start + (enc_offsets(chain@.take(k as int))
                        + spec_u64_to_le_bytes(chain@[k as int])));
                }
                k += 1;
            }
            proof {
                assert(chain@.take(k as int) =~= chain@);
                assert(pt.take(p + 1).drop_last() =~= pt.take(p as int));
                assert(pt.take(p + 1).last() == chain@);
                assert(out@ =~= head + (enc_chains(pt.take(p as int)) + enc_chain(chain@)));
            }
            p += 1;
        }
        proof {
            assert(pt.take(p as int) =~= pt);
            assert(out@ =~= snapshot_body(self@));
        }
        let crc = crc32(out.as_slice());
        extend_bytes(&mut out, u32_to_le_bytes(crc).as_slice());
        out
    }

    /// The snapshot that the bytes of a file stand for, if they stand for
    /// one.
    pub fn decode(bytes: &[u8]) -> (r: Option<Snapshot>)
        ensures
            r is Some <==> snapshot_decoding(bytes@) is Some,
            r is Some ==> r->0@ == snapshot_decoding(bytes@)->0,
    {
        let len = bytes.len();
        if len < 20 {
            return None;
        }
        let end = len - 4;
        let stored = u32_from_le_bytes(slice_subrange(bytes, end, len));
        if stored != crc32(slice_subrange(bytes, 0, end)) {
            return None;
        }
        let last_lsn = u64_from_le_bytes(slice_subrange(bytes, 0, 8));
        let max_pid = u64_from_le_bytes(slice_subrange(bytes, 8, 16));
        let mut pt: Vec<Vec<LogId>> = Vec::new();
        let mut pos: usize = 16;
        let mut p: u64 = 0;
        let ghost target = take_chains(bytes@, 16, end as int, max_pid as nat);
        while p < max_pid
            invariant
                p <= max_pid,
                16 <= pos <= end,
                end == bytes@.len() - 4,
                max_pid == spec_u64_from_le_bytes(bytes@.subrange(8, 16)),
                spec_u32_from_le_bytes(bytes@.subrange(end as int, end + 4)) == crc32_of(
                    bytes@.subrange(0, end as int),
                ),
                target == take_chains(bytes@, 16, end as int, max_pid as nat),
                take_chains(bytes@, 16, end as int, p as nat) == Some(
                    (Seq::new(pt@.len(), |i: int| pt@[i]@), pos as int),
                ),
            decreases max_pid - p,
        {
            let ghost sofar = Seq::new(pt@.len(), |i: int| pt@[i]@);
            if end - pos < 8 {
                proof {
                    assert(take_chain(bytes@, pos as int, end as int) is None);
                    assert(take_chains(bytes@, 16, end as int, (p + 1) as nat) is None);
                    lemma_take_chains_none(bytes@, 16, end as int, (p + 1) as nat, max_pid as nat);
                }
                return None;
            }
            let n = u64_from_le_bytes(slice_subrange(bytes, pos, pos + 8));
            if n > ((end - pos - 8) / 8) as u64 {
                proof {
                    assert(take_chain(bytes@, pos as int, end as int) is None);
                    assert(take_chains(bytes@, 16, end as int, (p + 1) as nat) is None);
                    lemma_take_chains_none(bytes@, 16, end as int, (p + 1) as nat, max_pid as nat);
                }
                return None;
            }
            let n = n as usize;
            let mut chain: Vec<LogId> = Vec::new();
            let mut k: usize = 0;
            let base = pos + 8;
            proof {
                assert(chain@ =~= take_offsets(bytes@, base as int, 0));
            }
            while k < n
                invariant
                    k <= n,
                    base + 8 * n <= end,
                    end <= bytes@.len(),
                    chain@ == take_offsets(bytes@, base as int, k as nat),
                decreases n - k,
            {
                let v = u64_from_le_bytes(slice_subrange(bytes, base + 8 * k, base + 8 * k + 8));
                chain.push(v);
                k += 1;
            }
            pt.push(chain);
            proof {
                assert(Seq::new(pt@.len(), |i: int| pt@[i]@) =~= sofar.push(chain@));
            }
            pos = base + 8 * n;
            p += 1;
        }
        if pos != end {
            return None;
        }
        let r = Snapshot { last_lsn, max_pid, pt };
        Some(r)
    }
}

/// Where fewer chains cannot be read, more cannot be read either.
pub proof fn lemma_take_chains_none(bytes: Seq<u8>, pos: int, end: int, a: nat, b: nat)
    requires
        a <= b,
        take_chains(bytes, pos, end, a) is None,
    ensures
        take_chains(bytes, pos, end, b) is None,
    decreases b,
{
    if a < b {
        lemma_take_chains_none(bytes, pos, end, a, (b - 1) as nat);
    }
}

} // verus!
