//! The metadata page: the pages of the committed blocks and of the buckets.

use vstd::prelude::*;
use vstd::bytes::{
    spec_u64_from_le_bytes, spec_u64_to_le_bytes, u64_from_le_bytes, u64_to_le_bytes,
    lemma_auto_spec_u64_to_from_le_bytes,
};
use vstd::slice::slice_subrange;
use crate::bytes::{copy_bytes, extend_bytes};
use crate::keymap::KeyMap;
use crate::pagecache::PageId;

verus! {

/// A map that stores the metadata of the tenant of the page cache.
pub struct Meta {
    /// Hash to page for the committed blocks.
    pub(crate) blocks: KeyMap<PageId>,
    /// Name to page for the buckets.
    pub(crate) bucket: KeyMap<PageId>,
}

/// The mathematical model of the metadata page.
pub struct MetaView {
    pub blocks: Map<Seq<u8>, PageId>,
    pub bucket: Map<Seq<u8>, PageId>,
}

impl View for Meta {
    type V = MetaView;

    closed spec fn view(&self) -> MetaView {
        MetaView { blocks: self.blocks@, bucket: self.bucket@ }
    }
}

/// The bytes that the names of buckets and their pages take: for each
/// bucket the length of its name and eight bytes.
pub open spec fn bucket_bytes(names: Seq<Seq<u8>>) -> int
    decreases names.len(),
{
    if names.len() == 0 {
        0
    } else {
        bucket_bytes(names.drop_last()) + names.last().len() + 8
    }
}

impl Default for Meta {
    /// Metadata without blocks and buckets.
    fn default() -> (r: Meta)
        ensures
            r@.blocks == Map::<Seq<u8>, PageId>::empty(),
            r@.bucket == Map::<Seq<u8>, PageId>::empty(),
    {
        Meta::new()
    }
}

impl Meta {
    /// The names of the buckets in ascending order.
    pub closed spec fn bucket_names(&self) -> Seq<Seq<u8>> {
        self.bucket.keys()
    }

    /// Metadata without blocks and buckets.
    pub fn new() -> (r: Meta)
        ensures
            r@.blocks == Map::<Seq<u8>, PageId>::empty(),
            r@.bucket == Map::<Seq<u8>, PageId>::empty(),
    {
        Meta { blocks: KeyMap::new(), bucket: KeyMap::new() }
    }

    /// The page of the block with the hash `table`.
    pub fn get_block(&self, table: &[u8]) -> (r: Option<PageId>)
        ensures
            r == (if self@.blocks.contains_key(table@) {
                Some(self@.blocks[table@])
            } else {
                None
            }),
    {
        match self.blocks.get(table) {
            Some(pid) => Some(*pid),
            None => None,
        }
    }

    /// Sets the page of the block with the hash `name`.
    pub fn set_block(&mut self, name: Vec<u8>, pid: PageId)
        ensures
            final(self)@.blocks == old(self)@.blocks.insert(name@, pid),
            final(self)@.bucket == old(self)@.bucket,
    {
        self.blocks.insert(name, pid);
    }

    /// Removes the block with the hash `name` and returns its page.
    pub fn del_block(&mut self, name: &[u8]) -> (r: Option<PageId>)
        ensures
            final(self)@.blocks == old(self)@.blocks.remove(name@),
            final(self)@.bucket == old(self)@.bucket,
            r == (if old(self)@.blocks.contains_key(name@) {
                Some(old(self)@.blocks[name@])
            } else {
                None
            }),
    {
        self.blocks.remove(name)
    }

    /// The page of the bucket with the name `table`.
    pub fn get_bucket(&self, table: &[u8]) -> (r: Option<PageId>)
        ensures
            r == (if self@.bucket.contains_key(table@) {
                Some(self@.bucket[table@])
            } else {
                None
            }),
    {
        match self.bucket.get(table) {
            Some(pid) => Some(*pid),
            None => None,
        }
    }

    /// Sets the page of the bucket with the name `name`.
    pub fn set_bucket(&mut self, name: Vec<u8>, pid: PageId)
        ensures
            final(self)@.bucket == old(self)@.bucket.insert(name@, pid),
            final(self)@.blocks == old(self)@.blocks,
    {
        self.bucket.insert(name, pid);
    }

    /// Removes the bucket with the name `name` and returns its page.
    pub fn del_bucket(&mut self, name: &[u8]) -> (r: Option<PageId>)
        ensures
            final(self)@.bucket == old(self)@.bucket.remove(name@),
            final(self)@.blocks == old(self)@.blocks,
            r == (if old(self)@.bucket.contains_key(name@) {
                Some(old(self)@.bucket[name@])
            } else {
                None
            }),
    {
        self.bucket.remove(name)
    }

    /// The committed blocks with their pages.
    pub fn block_tenants(&self) -> (r: KeyMap<PageId>)
        ensures
            r@ == self@.blocks,
    {
        self.blocks.duplicate()
    }

    /// The buckets with their pages.
    pub fn bucket_tenants(&self) -> (r: KeyMap<PageId>)
        ensures
            r@ == self@.bucket,
    {
        self.bucket.duplicate()
    }

    /// The bytes that the buckets take, or `u64::MAX` where they are more.
    pub fn size_in_bytes(&self) -> (r: u64)
        ensures
            r == (if bucket_bytes(self.bucket_names()) > u64::MAX {
                u64::MAX as int
            } else {
                bucket_bytes(self.bucket_names())
            }),
    {
        let n = self.bucket.len();
        let ghost names = self.bucket.keys();
        let mut sum: u64 = 0;
        let mut i: usize = 0;
        proof {
            assert(names.take(0) =~= Seq::<Seq<u8>>::empty());
        }
        while i < n
            invariant
                i <= n,
                n == names.len(),
                names == self.bucket.keys(),
                0 <= bucket_bytes(names.take(i as int)),
                sum == (if bucket_bytes(names.take(i as int)) > u64::MAX {
                    u64::MAX as int
                } else {
                    bucket_bytes(names.take(i as int))
                }),
            decreases n - i,
        {
            proof {
                assert(names.take(i + 1).drop_last() =~= names.take(i as int));
                assert(names.take(i + 1).last() == names[i as int]);
            }
            let k: u64 = self.bucket.key_at(i).len() as u64;
            sum = sum.saturating_add(k).saturating_add(8);
            i += 1;
        }
        proof {
            assert(names.take(n as int) =~= names);
        }
        sum
    }
}

/// A change of the metadata page.
#[derive(Debug)]
pub enum MetaDiff {
    /// The block with the hash `name` is at the page `pid`.
    SetBlock { name: Vec<u8>, pid: PageId },
    /// There is no block with the hash `name`.
    DelBlock { name: Vec<u8> },
    /// The bucket with the name `name` is at the page `pid`.
    SetBucket { name: Vec<u8>, pid: PageId },
    /// There is no bucket with the name `name`.
    DelBucket { name: Vec<u8> },
}

/// The mathematical model of a change of the metadata page.
pub enum MetaDiffView {
    SetBlock { name: Seq<u8>, pid: PageId },
    DelBlock { name: Seq<u8> },
    SetBucket { name: Seq<u8>, pid: PageId },
    DelBucket { name: Seq<u8> },
}

impl View for MetaDiff {
    type V = MetaDiffView;

    open spec fn view(&self) -> MetaDiffView {
        match self {
            MetaDiff::SetBlock { name, pid } => MetaDiffView::SetBlock { name: name@, pid: *pid },
            MetaDiff::DelBlock { name } => MetaDiffView::DelBlock { name: name@ },
            MetaDiff::SetBucket { name, pid } => MetaDiffView::SetBucket { name: name@, pid: *pid },
            MetaDiff::DelBucket { name } => MetaDiffView::DelBucket { name: name@ },
        }
    }
}

/// The metadata after a change.
pub open spec fn applied(meta: MetaView, diff: MetaDiffView) -> MetaView {
    match diff {
        MetaDiffView::SetBlock { name, pid } => MetaView {
            blocks: meta.blocks.insert(name, pid),
            bucket: meta.bucket,
        },
        MetaDiffView::DelBlock { name } => MetaView {
            blocks: meta.blocks.remove(name),
            bucket: meta.bucket,
        },
        MetaDiffView::SetBucket { name, pid } => MetaView {
            blocks: meta.blocks,
            bucket: meta.bucket.insert(name, pid),
        },
        MetaDiffView::DelBucket { name } => MetaView {
            blocks: meta.blocks,
            bucket: meta.bucket.remove(name),
        },
    }
}

/// The bytes that stand for a change in the log: a tag, the page (zero where
/// the change names none) and the name.
pub open spec fn diff_encoding(diff: MetaDiffView) -> Seq<u8> {
    match diff {
        MetaDiffView::SetBlock { name, pid } => seq![0u8] + spec_u64_to_le_bytes(pid) + name,
        MetaDiffView::DelBlock { name } => seq![1u8] + spec_u64_to_le_bytes(0) + name,
        MetaDiffView::SetBucket { name, pid } => seq![2u8] + spec_u64_to_le_bytes(pid) + name,
        MetaDiffView::DelBucket { name } => seq![3u8] + spec_u64_to_le_bytes(0) + name,
    }
}

/// The change that bytes of the log stand for, if they stand for one.
pub open spec fn diff_decoding(bytes: Seq<u8>) -> Option<MetaDiffView> {
    if bytes.len() < 9 {
        None
    } else {
        let pid = spec_u64_from_le_bytes(bytes.subrange(1, 9));
        let name = bytes.subrange(9, bytes.len() as int);
        if bytes[0] == 0 {
            Some(MetaDiffView::SetBlock { name, pid })
        } else if bytes[0] == 1 && pid == 0 {
            Some(MetaDiffView::DelBlock { name })
        } else if bytes[0] == 2 {
            Some(MetaDiffView::SetBucket { name, pid })
        } else if bytes[0] == 3 && pid == 0 {
            Some(MetaDiffView::DelBucket { name })
        } else {
            None
        }
    }
}

/// A change that was written is read back unchanged.
pub proof fn lemma_diff_decoding(diff: MetaDiffView)
    ensures
        diff_decoding(diff_encoding(diff)) == Some(diff),
{
    lemma_auto_spec_u64_to_from_le_bytes();
    let bytes = diff_encoding(diff);
    match diff {
        MetaDiffView::SetBlock { name, pid } => {
            assert(bytes.subrange(1, 9) =~= spec_u64_to_le_bytes(pid));
            assert(bytes.subrange(9, bytes.len() as int) =~= name);
        },
        MetaDiffView::DelBlock { name } => {
            assert(bytes.subrange(1, 9) =~= spec_u64_to_le_bytes(0));
            assert(bytes.subrange(9, bytes.len() as int) =~= name);
        },
        MetaDiffView::SetBucket { name, pid } => {
            assert(bytes.subrange(1, 9) =~= spec_u64_to_le_bytes(pid));
            assert(bytes.subrange(9, bytes.len() as int) =~= name);
        },
        MetaDiffView::DelBucket { name } => {
            assert(bytes.subrange(1, 9) =~= spec_u64_to_le_bytes(0));
            assert(bytes.subrange(9, bytes.len() as int) =~= name);
        },
    }
}

impl MetaDiff {
    /// The bytes that stand for the change in the log.
    pub fn encode(&self) -> (bytes: Vec<u8>)
        ensures
            bytes@ == diff_encoding(self@),
    {
        let mut out: Vec<u8> = Vec::new();
        let (tag, pid, name): (u8, u64, &Vec<u8>) = match self {
            MetaDiff::SetBlock { name, pid } => (0u8, *pid, name),
            MetaDiff::DelBlock { name } => (1u8, 0u64, name),
            MetaDiff::SetBucket { name, pid } => (2u8, *pid, name),
            MetaDiff::DelBucket { name } => (3u8, 0u64, name),
        };
        out.push(tag);
        let pid_bytes = u64_to_le_bytes(pid);
        extend_bytes(&mut out, pid_bytes.as_slice());
        extend_bytes(&mut out, name.as_slice());
        proof {
            assert(out@ =~= seq![tag] + spec_u64_to_le_bytes(pid) + name@);
        }
        out
    }

    /// The change that `bytes` stand for, if they stand for one.
    pub fn decode(bytes: &[u8]) -> (r: Option<MetaDiff>)
        ensures
            r is Some <==> diff_decoding(bytes@) is Some,
            r is Some ==> r->0@ == diff_decoding(bytes@)->0,
    {
        if bytes.len() < 9 {
            return None;
        }
        let pid = u64_from_le_bytes(slice_subrange(bytes, 1, 9));
        let name = copy_bytes(slice_subrange(bytes, 9, bytes.len()));
        let tag = bytes[0];
        if tag == 0 {
            Some(MetaDiff::SetBlock { name, pid })
        } else if tag == 1 && pid == 0 {
            Some(MetaDiff::DelBlock { name })
        } else if tag == 2 {
            Some(MetaDiff::SetBucket { name, pid })
        } else if tag == 3 && pid == 0 {
            Some(MetaDiff::DelBucket { name })
        } else {
            None
        }
    }
}

impl Meta {
    /// Makes the change `diff`.
    pub fn apply(&mut self, diff: &MetaDiff)
        ensures
            final(self)@ == applied(old(self)@, diff@),
    {
        match diff {
            MetaDiff::SetBlock { name, pid } => {
                self.set_block(copy_bytes(name.as_slice()), *pid);
            },
            MetaDiff::DelBlock { name } => {
                self.del_block(name.as_slice());
            },
            MetaDiff::SetBucket { name, pid } => {
                self.set_bucket(copy_bytes(name.as_slice()), *pid);
            },
            MetaDiff::DelBucket { name } => {
                self.del_bucket(name.as_slice());
            },
        }
    }
}

} // verus!
