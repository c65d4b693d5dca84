//! The bytes that stand for keys and entries on disk.
//!
//! A byte string is written as its length (`u64`, little-endian) and its
//! bytes; an entry as its key and a tag, 0 for a deletion and 1 for a value,
//! which follows the tag.

use vstd::prelude::*;
use vstd::bytes::{
    spec_u64_from_le_bytes, spec_u64_to_le_bytes, u64_from_le_bytes, u64_to_le_bytes,
    lemma_auto_spec_u64_to_from_le_bytes,
};
use vstd::slice::slice_subrange;
use crate::bytes::{copy_bytes, extend_bytes};
use crate::Entry;

verus! {

/// The bytes that stand for the byte string `b`.
pub open spec fn enc_bytes(b: Seq<u8>) -> Seq<u8> {
    spec_u64_to_le_bytes(b.len() as u64) + b
}

/// The bytes that stand for an entry.
pub open spec fn enc_entry(k: Seq<u8>, v: Option<Seq<u8>>) -> Seq<u8> {
    enc_bytes(k) + (match v {
        None => seq![0u8],
        Some(x) => seq![1u8] + enc_bytes(x),
    })
}

/// The bytes that stand for entries, one after the other.
pub open spec fn enc_entries(ks: Seq<Seq<u8>>, vs: Seq<Option<Seq<u8>>>) -> Seq<u8>
    decreases ks.len(),
{
    if ks.len() == 0 || vs.len() == 0 {
        Seq::empty()
    } else {
        enc_entry(ks[0], vs[0]) + enc_entries(ks.drop_first(), vs.drop_first())
    }
}

/// The byte string that stands at `pos`, with the offset behind it.
pub open spec fn take_bytes(bytes: Seq<u8>, pos: int) -> Option<(Seq<u8>, int)> {
    if 0 <= pos && pos + 8 <= bytes.len() {
        let n = spec_u64_from_le_bytes(bytes.subrange(pos, pos + 8)) as int;
        if pos + 8 + n <= bytes.len() {
            Some((bytes.subrange(pos + 8, pos + 8 + n), pos + 8 + n))
        } else {
            None
        }
    } else {
        None
    }
}

/// The entry that stands at `pos`, with the offset behind it.
pub open spec fn take_entry(bytes: Seq<u8>, pos: int) -> Option<(Seq<u8>, Option<Seq<u8>>, int)> {
    match take_bytes(bytes, pos) {
        None => None,
        Some((k, mid)) => if mid + 1 <= bytes.len() {
            if bytes[mid] == 0 {
                Some((k, None, mid + 1))
            } else if bytes[mid] == 1 {
                match take_bytes(bytes, mid + 1) {
                    None => None,
                    Some((x, end2)) => Some((k, Some(x), end2)),
                }
            } else {
                None
            }
        } else {
            None
        },
    }
}

/// The `n` entries that stand at `pos`, with the offset behind them.
pub open spec fn take_entries(bytes: Seq<u8>, pos: int, n: nat) -> Option<
    (Seq<Seq<u8>>, Seq<Option<Seq<u8>>>, int),
>
    decreases n,
{
    if n == 0 {
        Some((Seq::empty(), Seq::empty(), pos))
    } else {
        match take_entry(bytes, pos) {
            None => None,
            Some((k, v, mid)) => match take_entries(bytes, mid, (n - 1) as nat) {
                None => None,
                Some((ks, vs, end)) => Some((seq![k] + ks, seq![v] + vs, end)),
            },
        }
    }
}

/// Byte strings whose lengths fit into `u64`.
pub open spec fn short_keys(ks: Seq<Seq<u8>>) -> bool {
    forall|i: int| 0 <= i < ks.len() ==> (#[trigger] ks[i]).len() <= u64::MAX
}

/// Values whose lengths fit into `u64`.
pub open spec fn short_values(vs: Seq<Option<Seq<u8>>>) -> bool {
    forall|i: int| 0 <= i < vs.len() ==> ((#[trigger] vs[i]) is Some ==> vs[i]->0.len() <= u64::MAX)
}

/// A byte string that stands at `pos` is read back.
pub proof fn lemma_take_bytes(bytes: Seq<u8>, pos: int, b: Seq<u8>)
    requires
        0 <= pos,
        b.len() <= u64::MAX,
        pos + 8 + b.len() <= bytes.len(),
        bytes.subrange(pos, pos + 8 + b.len()) == enc_bytes(b),
    ensures
        take_bytes(bytes, pos) == Some((b, pos + 8 + b.len())),
{
    lemma_auto_spec_u64_to_from_le_bytes();
    let n = b.len() as int;
    let w = bytes.subrange(pos, pos + 8 + n);
    assert(bytes.subrange(pos, pos + 8) =~= w.subrange(0, 8));
    assert(w.subrange(0, 8) =~= spec_u64_to_le_bytes(b.len() as u64));
    assert(bytes.subrange(pos + 8, pos + 8 + n) =~= w.subrange(8, 8 + n));
    assert(w.subrange(8, 8 + n) =~= b);
}

/// An entry that stands at `pos` is read back.
pub proof fn lemma_take_entry(bytes: Seq<u8>, pos: int, k: Seq<u8>, v: Option<Seq<u8>>)
    requires
        0 <= pos,
        k.len() <= u64::MAX,
        v is Some ==> v->0.len() <= u64::MAX,
        pos + enc_entry(k, v).len() <= bytes.len(),
        bytes.subrange(pos, pos + enc_entry(k, v).len()) == enc_entry(k, v),
    ensures
        take_entry(bytes, pos) == Some((k, v, pos + enc_entry(k, v).len())),
{
    lemma_auto_spec_u64_to_from_le_bytes();
    let e = enc_entry(k, v);
    let w = bytes.subrange(pos, pos + e.len());
    let kl = 8 + k.len() as int;
    let mid = pos + kl;
    assert(bytes.subrange(pos, mid) =~= w.subrange(0, kl));
    assert(w.subrange(0, kl) =~= enc_bytes(k));
    lemma_take_bytes(bytes, pos, k);
    assert(bytes[mid] == w[kl]);
    match v {
        None => {},
        Some(x) => {
            let xl = 8 + x.len() as int;
            assert(bytes.subrange(mid + 1, mid + 1 + xl) =~= w.subrange(kl + 1, kl + 1 + xl));
            assert(w.subrange(kl + 1, kl + 1 + xl) =~= enc_bytes(x));
            lemma_take_bytes(bytes, mid + 1, x);
        },
    }
}

/// Entries that stand at `pos` are read back.
pub proof fn lemma_take_entries(
    bytes: Seq<u8>,
    pos: int,
    ks: Seq<Seq<u8>>,
    vs: Seq<Option<Seq<u8>>>,
)
    requires
        0 <= pos,
        ks.len() == vs.len(),
        short_keys(ks),
        short_values(vs),
        pos + enc_entries(ks, vs).len() <= bytes.len(),
        bytes.subrange(pos, pos + enc_entries(ks, vs).len()) == enc_entries(ks, vs),
    ensures
        take_entries(bytes, pos, ks.len()) == Some((ks, vs, pos + enc_entries(ks, vs).len())),
    decreases ks.len(),
{
    if ks.len() == 0 {
        assert(ks =~= Seq::<Seq<u8>>::empty());
        assert(vs =~= Seq::<Option<Seq<u8>>>::empty());
    } else {
        let all = enc_entries(ks, vs);
        let first = enc_entry(ks[0], vs[0]);
        let rest = enc_entries(ks.drop_first(), vs.drop_first());
        let w = bytes.subrange(pos, pos + all.len());
        assert(bytes.subrange(pos, pos + first.len()) =~= w.subrange(0, first.len() as int));
        assert(w.subrange(0, first.len() as int) =~= first);
        lemma_take_entry(bytes, pos, ks[0], vs[0]);
        let mid = pos + first.len();
        assert(bytes.subrange(mid, mid + rest.len()) =~= w.subrange(
            first.len() as int,
            all.len() as int,
        ));
        assert(w.subrange(first.len() as int, all.len() as int) =~= rest);
        assert(short_keys(ks.drop_first())) by {
            assert forall|i: int| 0 <= i < ks.drop_first().len() implies (
            #[trigger] ks.drop_first()[i]).len() <= u64::MAX by {
                assert(ks.drop_first()[i] == ks[i + 1]);
            }
        }
        assert(short_values(vs.drop_first())) by {
            assert forall|i: int|
                0 <= i < vs.drop_first().len() && (#[trigger] vs.drop_first()[i])
                    is Some implies vs.drop_first()[i]->0.len() <= u64::MAX by {
                assert(vs.drop_first()[i] == vs[i + 1]);
            }
        }
        lemma_take_entries(bytes, mid, ks.drop_first(), vs.drop_first());
        assert(seq![ks[0]] + ks.drop_first() =~= ks);
        assert(seq![vs[0]] + vs.drop_first() =~= vs);
    }
}

/// The bytes of entries with one more entry behind them.
pub proof fn lemma_enc_entries_push(
    ks: Seq<Seq<u8>>,
    vs: Seq<Option<Seq<u8>>>,
    k: Seq<u8>,
    v: Option<Seq<u8>>,
)
    requires
        ks.len() == vs.len(),
    ensures
        enc_entries(ks.push(k), vs.push(v)) == enc_entries(ks, vs) + enc_entry(k, v),
    decreases ks.len(),
{
    if ks.len() == 0 {
        assert(ks.push(k).drop_first() =~= Seq::<Seq<u8>>::empty());
        assert(vs.push(v).drop_first() =~= Seq::<Option<Seq<u8>>>::empty());
        assert(ks.push(k)[0] == k);
        assert(vs.push(v)[0] == v);
        assert(enc_entries(ks.push(k).drop_first(), vs.push(v).drop_first()) =~= Seq::<u8>::empty());
        assert(enc_entries(ks.push(k), vs.push(v)) =~= enc_entry(k, v));
        assert(enc_entries(ks, vs) + enc_entry(k, v) =~= enc_entry(k, v));
    } else {
        assert(ks.push(k).drop_first() =~= ks.drop_first().push(k));
        assert(vs.push(v).drop_first() =~= vs.drop_first().push(v));
        lemma_enc_entries_push(ks.drop_first(), vs.drop_first(), k, v);
        assert(enc_entry(ks[0], vs[0]) + (enc_entries(ks.drop_first(), vs.drop_first())
            + enc_entry(k, v)) =~= (enc_entry(ks[0], vs[0]) + enc_entries(
            ks.drop_first(),
            vs.drop_first(),
        )) + enc_entry(k, v));
    }
}

/// Reading `n` entries is reading the first `i` and then the others.
pub proof fn lemma_take_entries_split(bytes: Seq<u8>, pos: int, i: nat, n: nat)
    requires
        i <= n,
        take_entries(bytes, pos, i) is Some,
    ensures
        take_entries(bytes, pos, n) == (match take_entries(bytes, pos, i) {
            None => None,
            Some((ks0, vs0, mid)) => match take_entries(bytes, mid, (n - i) as nat) {
                None => None,
                Some((ks, vs, end)) => Some((ks0 + ks, vs0 + vs, end)),
            },
        }),
    decreases i,
{
    if i == 0 {
        match take_entries(bytes, pos, n) {
            None => {},
            Some((ks, vs, end)) => {
                assert(Seq::<Seq<u8>>::empty() + ks =~= ks);
                assert(Seq::<Option<Seq<u8>>>::empty() + vs =~= vs);
            },
        }
    } else {
        let (k, v, mid) = take_entry(bytes, pos)->0;
        lemma_take_entries_split(bytes, mid, (i - 1) as nat, (n - 1) as nat);
        let (ks0, vs0, mid) = take_entries(bytes, mid, (i - 1) as nat)->0;
        match take_entries(bytes, mid, (n - i) as nat) {
            None => {},
            Some((ks, vs, end)) => {
                assert(seq![k] + (ks0 + ks) =~= (seq![k] + ks0) + ks);
                assert(seq![v] + (vs0 + vs) =~= (seq![v] + vs0) + vs);
            },
        }
    }
}

/// Appends the bytes that stand for the byte string `b`.
pub fn put_bytes(out: &mut Vec<u8>, b: &[u8])
    ensures
        final(out)@ == old(out)@ + enc_bytes(b@),
{
    let n = u64_to_le_bytes(b.len() as u64);
    extend_bytes(out, n.as_slice());
    extend_bytes(out, b);
    proof {
        assert(out@ =~= old(out)@ + enc_bytes(b@));
    }
}

/// Appends the bytes that stand for an entry.
pub fn put_entry(out: &mut Vec<u8>, k: &[u8], v: &Entry)
    ensures
        final(out)@ == old(out)@ + enc_entry(k@, v@),
{
    put_bytes(out, k);
    match v {
        Entry::Deletion => {
            out.push(0u8);
            proof {
                assert(out@ =~= old(out)@ + enc_entry(k@, v@));
            }
        },
        Entry::Value { value } => {
            out.push(1u8);
            put_bytes(out, value.as_slice());
            proof {
                assert(out@ =~= old(out)@ + enc_entry(k@, v@));
            }
        },
    }
}

/// Reads the byte string that stands at `pos`.
pub fn read_bytes(bytes: &[u8], pos: usize) -> (r: Option<(Vec<u8>, usize)>)
    ensures
        match r {
            Some((b, end)) => take_bytes(bytes@, pos as int) == Some((b@, end as int)),
            None => take_bytes(bytes@, pos as int) is None,
        },
{
    let len = bytes.len();
    if pos > len || len - pos < 8 {
        return None;
    }
    let n = u64_from_le_bytes(slice_subrange(bytes, pos, pos + 8));
    if n > (len - pos - 8) as u64 {
        return None;
    }
    let n = n as usize;
    let b = copy_bytes(slice_subrange(bytes, pos + 8, pos + 8 + n));
    Some((b, pos + 8 + n))
}

/// Reads the entry that stands at `pos`.
pub fn read_entry(bytes: &[u8], pos: usize) -> (r: Option<(Vec<u8>, Entry, usize)>)
    ensures
        match r {
            Some((k, v, end)) => take_entry(bytes@, pos as int) == Some((k@, v@, end as int)),
            None => take_entry(bytes@, pos as int) is None,
        },
{
    let (k, mid) = match read_bytes(bytes, pos) {
        None => {
            return None;
        },
        Some(found) => found,
    };
    if mid >= bytes.len() {
        return None;
    }
    let tag = bytes[mid];
    if tag == 0 {
        Some((k, Entry::Deletion, mid + 1))
    } else if tag == 1 {
        match read_bytes(bytes, mid + 1) {
            None => None,
            Some((value, end2)) => Some((k, Entry::Value { value }, end2)),
        }
    } else {
        None
    }
}

} // verus!
