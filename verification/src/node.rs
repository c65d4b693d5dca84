//! The fragment of a block: a header and the entries of the block.

use vstd::prelude::*;
use vstd::bytes::{
    spec_u64_from_le_bytes, spec_u64_to_le_bytes, u64_from_le_bytes, u64_to_le_bytes,
    lemma_auto_spec_u64_to_from_le_bytes,
};
use vstd::slice::slice_subrange;
use crate::bytes::extend_bytes;
use crate::codec::{
    enc_entries, enc_entry, put_entry, read_entry, short_keys, short_values, take_entries,
    lemma_enc_entries_push, lemma_take_entries, lemma_take_entries_split,
};
use crate::keymap::{
    entries_map, sortable, sorted_keys, sorted_values, KeyMap, lemma_entries_map,
    lemma_map_of_sorted, lemma_sorted_of_map_of,
};
use crate::pagecache::PageId;
use crate::pagecache::materializer::Materializer;
use crate::pagecache::record::zeros;
use crate::Entry;

verus! {

/// The fragment of a block.
pub struct Node {
    /// The page of the block before this one.
    pub prev: Option<PageId>,
    /// The hash of the block, once it is committed.
    pub hash: Option<[u8; 32]>,
    /// The entries of the block.
    pub inner: KeyMap<Entry>,
}

/// The mathematical model of the fragment of a block.
pub struct NodeView {
    pub prev: Option<PageId>,
    pub hash: Option<Seq<u8>>,
    pub inner: Map<Seq<u8>, Option<Seq<u8>>>,
}

impl View for Node {
    type V = NodeView;

    open spec fn view(&self) -> NodeView {
        NodeView {
            prev: self.prev,
            hash: match self.hash {
                Some(h) => Some(h@),
                None => None,
            },
            inner: self.inner@,
        }
    }
}

/// The length of what stands before the entries of a fragment on disk.
pub const NODE_HEADER: usize = 50;

/// The bytes that stand before the entries of a fragment: a tag and the
/// page of the block before, a tag and the hash, and the number of entries.
pub open spec fn node_header(v: NodeView, n: int) -> Seq<u8> {
    (match v.prev {
        Some(p) => seq![1u8] + spec_u64_to_le_bytes(p),
        None => seq![0u8] + spec_u64_to_le_bytes(0),
    }) + (match v.hash {
        Some(h) => seq![1u8] + h,
        None => seq![0u8] + zeros(32),
    }) + spec_u64_to_le_bytes(n as u64)
}

/// The bytes that stand for a fragment.
pub open spec fn node_encoding(v: NodeView) -> Seq<u8> {
    node_header(v, sorted_keys(v.inner).len() as int) + enc_entries(
        sorted_keys(v.inner),
        sorted_values(v.inner),
    )
}

/// The fragments that can be written: the keys can be put in order, a hash
/// has 32 bytes, and every length fits into `u64`.
pub open spec fn node_encodable(v: NodeView) -> bool {
    &&& sortable(v.inner)
    &&& v.hash is Some ==> v.hash->0.len() == 32
    &&& sorted_keys(v.inner).len() <= u64::MAX
    &&& short_keys(sorted_keys(v.inner))
    &&& short_values(sorted_values(v.inner))
}

/// The fragment that bytes stand for, if they stand for one.
pub open spec fn node_decoding(bytes: Seq<u8>) -> Option<NodeView> {
    if bytes.len() < 50 || bytes[0] > 1 || bytes[9] > 1 {
        None
    } else {
        let n = spec_u64_from_le_bytes(bytes.subrange(42, 50));
        match take_entries(bytes, 50, n as nat) {
            None => None,
            Some((ks, vs, end)) => if end == bytes.len() {
                Some(
                    NodeView {
                        prev: if bytes[0] == 1 {
                            Some(spec_u64_from_le_bytes(bytes.subrange(1, 9)))
                        } else {
                            None
                        },
                        hash: if bytes[9] == 1 {
                            Some(bytes.subrange(10, 42))
                        } else {
                            None
                        },
                        inner: entries_map(ks, vs),
                    },
                )
            } else {
                None
            },
        }
    }
}

/// The fragments merged: the header of the first with the hash of the
/// second, and the entries of both, those of the second before those of the
/// first where both have a key.
pub open spec fn node_merged(acc: NodeView, other: NodeView) -> NodeView {
    NodeView { prev: acc.prev, hash: other.hash, inner: acc.inner.union_prefer_right(other.inner) }
}

impl Node {
    /// An empty fragment of a block that follows the block at `prev`.
    pub fn new(prev: Option<PageId>) -> (r: Self)
        ensures
            r@ == (NodeView { prev, hash: None, inner: Map::empty() }),
    {
        Node { prev, hash: None, inner: KeyMap::new() }
    }
}

impl crate::keymap::Duplicate for Node {
    fn duplicate(&self) -> (r: Self) {
        Node { prev: self.prev, hash: self.hash, inner: self.inner.duplicate() }
    }
}

impl Materializer for Node {
    open spec fn merged(acc: NodeView, other: NodeView) -> NodeView {
        node_merged(acc, other)
    }

    open spec fn encodable(v: NodeView) -> bool {
        node_encodable(v)
    }

    open spec fn encoding(v: NodeView) -> Seq<u8> {
        node_encoding(v)
    }

    open spec fn decoding(bytes: Seq<u8>) -> Option<NodeView> {
        node_decoding(bytes)
    }

    proof fn lemma_decoding(v: NodeView) {
        lemma_auto_spec_u64_to_from_le_bytes();
        let ks = sorted_keys(v.inner);
        let vs = sorted_values(v.inner);
        let n = ks.len() as int;
        let head = node_header(v, n);
        let body = enc_entries(ks, vs);
        let bytes = node_encoding(v);
        lemma_map_of_sorted(v.inner);
        assert(head.len() == 50);
        assert(bytes.subrange(50, 50 + body.len() as int) =~= body);
        lemma_take_entries(bytes, 50, ks, vs);
        lemma_entries_map(ks, vs);
        assert(bytes.subrange(42, 50) =~= spec_u64_to_le_bytes(n as u64));
        match v.prev {
            Some(p) => {
                assert(bytes.subrange(1, 9) =~= spec_u64_to_le_bytes(p));
            },
            None => {},
        }
        match v.hash {
            Some(h) => {
                assert(bytes.subrange(10, 42) =~= h);
            },
            None => {},
        }
    }

    fn merge(&mut self, other: &Self) {
        self.hash = other.hash;
        self.inner.extend_from(&other.inner);
    }

    fn encode(&self) -> (bytes: Vec<u8>) {
        let n = self.inner.len();
        let ghost keys = self.inner.keys();
        let ghost values = self.inner.values();
        proof {
            lemma_sorted_of_map_of(keys, values);
            lemma_auto_spec_u64_to_from_le_bytes();
        }
        let mut out: Vec<u8> = Vec::new();
        match self.prev {
            Some(p) => {
                out.push(1u8);
                extend_bytes(&mut out, u64_to_le_bytes(p).as_slice());
            },
            None => {
                out.push(0u8);
                extend_bytes(&mut out, u64_to_le_bytes(0).as_slice());
            },
        }
        match &self.hash {
            Some(h) => {
                out.push(1u8);
                extend_bytes(&mut out, h.as_slice());
            },
            None => {
                out.push(0u8);
                let mut i: usize = 0;
                let ghost before = out@;
                proof {
                    assert(before + zeros(0) =~= before);
                }
                while i < 32
                    invariant
                        i <= 32,
                        out@ == before + zeros(i as int),
                    decreases 32 - i,
                {
                    out.push(0u8);
                    proof {
                        assert(out@ =~= before + zeros(i + 1));
                    }
                    i += 1;
                }
            },
        }
        extend_bytes(&mut out, u64_to_le_bytes(n as u64).as_slice());
        let ghost head = node_header(self@, n as int);
        proof {
            assert(out@ =~= head);
            assert(keys.take(0) =~= Seq::<Seq<u8>>::empty());
            assert(out@ =~= head + enc_entries(keys.take(0), values.take(0)));
        }
        let mut i: usize = 0;
        while i < n
            invariant
                i <= n,
                n == keys.len(),
                n == values.len(),
                keys == self.inner.keys(),
                values == self.inner.values(),
                out@ == head + enc_entries(keys.take(i as int), values.take(i as int)),
                forall|j: int| 0 <= j < i ==> (#[trigger] keys[j]).len() <= u64::MAX,
                forall|j: int|
                    0 <= j < i ==> ((#[trigger] values[j]) is Some ==> values[j]->0.len()
                        <= u64::MAX),
            decreases n - i,
        {
            proof {
                lemma_enc_entries_push(
                    keys.take(i as int),
                    values.take(i as int),
                    keys[i as int],
                    values[i as int],
                );
                assert(keys.take(i + 1) =~= keys.take(i as int).push(keys[i as int]));
                assert(values.take(i + 1) =~= values.take(i as int).push(values[i as int]));
            }
            let ghost before = out@;
            let k = self.inner.key_at(i);
            let v = self.inner.value_at(i);
            let _ = k.len();
            match v {
                Entry::Value { value } => {
                    let _ = value.len();
                },
                Entry::Deletion => {},
            }
            put_entry(&mut out, k.as_slice(), v);
            proof {
                assert(out@ =~= head + (enc_entries(keys.take(i as int), values.take(i as int))
                    + enc_entry(keys[i as int], values[i as int])));
            }
            i += 1;
        }
        proof {
            assert(keys.take(n as int) =~= keys);
            assert(values.take(n as int) =~= values);
            assert(short_keys(keys));
            assert(short_values(values));
        }
        out
    }

    fn decode(bytes: &[u8]) -> (r: Option<Self>) {
        if bytes.len() < NODE_HEADER || bytes[0] > 1 || bytes[9] > 1 {
            return None;
        }
        let prev = if bytes[0] == 1 {
            Some(u64_from_le_bytes(slice_subrange(bytes, 1, 9)))
        } else {
            None
        };
        let hash = if bytes[9] == 1 {
            let mut h = [0u8; 32];
            let mut i: usize = 0;
            while i < 32
                invariant
                    i <= 32,
                    bytes@.len() >= 50,
                    forall|j: int| 0 <= j < i ==> h@[j] == bytes@[10 + j],
                decreases 32 - i,
            {
                h[i] = bytes[10 + i];
                i += 1;
            }
            proof {
                assert(h@ =~= bytes@.subrange(10, 42));
            }
            Some(h)
        } else {
            None
        };
        let n = u64_from_le_bytes(slice_subrange(bytes, 42, 50));
        let mut inner: KeyMap<Entry> = KeyMap::new();
        let mut pos: usize = NODE_HEADER;
        let mut i: u64 = 0;
        let ghost mut ks: Seq<Seq<u8>> = Seq::empty();
        let ghost mut vs: Seq<Option<Seq<u8>>> = Seq::empty();
        while i < n
            invariant
                i <= n,
                n == spec_u64_from_le_bytes(bytes@.subrange(42, 50)),
                bytes@.len() >= 50,
                bytes@[0] <= 1,
                bytes@[9] <= 1,
                take_entries(bytes@, 50, i as nat) == Some((ks, vs, pos as int)),
                inner@ == entries_map(ks, vs),
                ks.len() == vs.len(),
                pos <= bytes@.len(),
            decreases n - i,
        {
            proof {
                lemma_take_entries_split(bytes@, 50, i as nat, (i + 1) as nat);
                lemma_take_entries_split(bytes@, 50, i as nat, n as nat);
            }
            match read_entry(bytes, pos) {
                None => {
                    assert(take_entries(bytes@, pos as int, 1) is None);
                    assert(take_entries(bytes@, pos as int, (n - i) as nat) is None);
                    return None;
                },
                Some((k, v, next)) => {
                    proof {
                        assert(take_entries(bytes@, next as int, 0) == Some(
                            (Seq::<Seq<u8>>::empty(), Seq::<Option<Seq<u8>>>::empty(), next as int),
                        ));
                        assert(take_entries(bytes@, pos as int, 1) == Some(
                            (
                                seq![k@] + Seq::<Seq<u8>>::empty(),
                                seq![v@] + Seq::<Option<Seq<u8>>>::empty(),
                                next as int,
                            ),
                        ));
                        assert(ks + (seq![k@] + Seq::<Seq<u8>>::empty()) =~= ks.push(k@));
                        assert(vs + (seq![v@] + Seq::<Option<Seq<u8>>>::empty()) =~= vs.push(v@));
                        assert(ks.push(k@).drop_last() =~= ks);
                        assert(vs.push(v@).drop_last() =~= vs);
                        ks = ks.push(k@);
                        vs = vs.push(v@);
                    }
                    inner.insert(k, v);
                    pos = next;
                },
            }
            i += 1;
        }
        if pos != bytes.len() {
            return None;
        }
        Some(Node { prev, hash, inner })
    }
}

} // verus!
