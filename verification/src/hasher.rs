//! The hash of a block: BLAKE3 over the hash of the block before it and the
//! keys and values of the block.

use vstd::prelude::*;
use crate::bytes::extend_bytes;
use crate::keymap::KeyMap;
use crate::Entry;

verus! {

/// A hash of 32 bytes.
pub type Hash = [u8; 32];

/// The BLAKE3 hash of `input`, as `blake3::hash` computes it.
pub uninterp spec fn blake3_digest(input: Seq<u8>) -> Seq<u8>;

/// Calls `blake3::hash` and returns the 32 bytes of the hash, which is
/// named `blake3_digest` of the input; nothing else is claimed of it.
#[verifier::external_body]
fn blake3_hash(input: &[u8]) -> (digest: Hash)
    ensures
        digest@ == blake3_digest(input@),
{
    *blake3::hash(input).as_bytes()
}

/// The keys and values of the entries that hold a value, one after the
/// other in the order of the keys.
pub open spec fn live_bytes(ks: Seq<Seq<u8>>, vs: Seq<Option<Seq<u8>>>) -> Seq<u8>
    decreases ks.len(),
{
    if ks.len() == 0 || vs.len() == 0 {
        Seq::empty()
    } else {
        live_bytes(ks.drop_last(), vs.drop_last()) + (match vs.last() {
            Some(v) => ks.last() + v,
            None => Seq::empty(),
        })
    }
}

/// What is hashed for a block: the hash of the block before it, if there is
/// one, and the keys and values of the block.
pub open spec fn root_input(
    prev: Option<Seq<u8>>,
    ks: Seq<Seq<u8>>,
    vs: Seq<Option<Seq<u8>>>,
) -> Seq<u8> {
    (match prev {
        Some(h) => h,
        None => Seq::empty(),
    }) + live_bytes(ks, vs)
}

/// The bytes that `digest_of` hashes for a block.
pub fn root_bytes(prev: Option<&Hash>, entries: &KeyMap<Entry>) -> (r: Vec<u8>)
    ensures
        r@ == root_input(
            match prev {
                Some(h) => Some(h@),
                None => None,
            },
            entries.keys(),
            entries.values(),
        ),
{
    let mut buf: Vec<u8> = Vec::new();
    match prev {
        Some(h) => {
            extend_bytes(&mut buf, h.as_slice());
        },
        None => {},
    }
    let ghost head = buf@;
    let ghost ks = entries.keys();
    let ghost vs = entries.values();
    let n = entries.len();
    let mut i: usize = 0;
    proof {
        assert(ks.take(0) =~= Seq::<Seq<u8>>::empty());
        assert(buf@ =~= head + live_bytes(ks.take(0), vs.take(0)));
    }
    while i < n
        invariant
            i <= n,
            n == ks.len(),
            n == vs.len(),
            ks == entries.keys(),
            vs == entries.values(),
            buf@ == head + live_bytes(ks.take(i as int), vs.take(i as int)),
        decreases n - i,
    {
        proof {
            assert(ks.take(i + 1).drop_last() =~= ks.take(i as int));
            assert(vs.take(i + 1).drop_last() =~= vs.take(i as int));
            assert(ks.take(i + 1).last() == ks[i as int]);
            assert(vs.take(i + 1).last() == vs[i as int]);
        }
        let ghost before = buf@;
        match entries.value_at(i) {
            Entry::Value { value } => {
                extend_bytes(&mut buf, entries.key_at(i).as_slice());
                extend_bytes(&mut buf, value.as_slice());
                proof {
                    assert(buf@ =~= head + (live_bytes(ks.take(i as int), vs.take(i as int)) + (
                    ks[i as int] + value@)));
                }
            },
            Entry::Deletion => {
                proof {
                    assert(buf@ =~= head + (live_bytes(ks.take(i as int), vs.take(i as int))
                        + Seq::<u8>::empty()));
                }
            },
        }
        i += 1;
    }
    proof {
        assert(ks.take(n as int) =~= ks);
        assert(vs.take(n as int) =~= vs);
    }
    buf
}

/// The hash of a block with the entries `entries` that follows a block with
/// the hash `prev`: entries that are deletions are left out.
pub fn calc_root(prev: Option<&Hash>, entries: &KeyMap<Entry>) -> (r: Hash)
    ensures
        r@ == blake3_digest(
            root_input(
                match prev {
                    Some(h) => Some(h@),
                    None => None,
                },
                entries.keys(),
                entries.values(),
            ),
        ),
{
    let buf = root_bytes(prev, entries);
    blake3_hash(buf.as_slice())
}

} // verus!
