//! The page table: a two-level array that is indexed by page identifiers.
//!
//! The upper level holds blocks of a fixed number of entries, which are
//! added as the table grows: an entry never moves once it is in the table.

use vstd::prelude::*;

verus! {

/// The number of entries of a block of the page table.
pub const PAGETABLE_NODE_SZ: usize = 2048;

/// A two-level array of entries of type `E`.
pub struct PageTable<E> {
    blocks: Vec<Vec<E>>,
    len: usize,
}

impl<E> PageTable<E> {
    /// The entries of the table in the order of their identifiers.
    pub closed spec fn view(&self) -> Seq<E> {
        Seq::new(
            self.len as nat,
            |p: int| self.blocks@[p / (PAGETABLE_NODE_SZ as int)]@[p % (PAGETABLE_NODE_SZ as int)],
        )
    }

    /// The invariant of the table: every block but the last is full, and
    /// the last is not empty.
    pub closed spec fn wf(&self) -> bool {
        &&& self.blocks@.len() * PAGETABLE_NODE_SZ >= self.len
        &&& self.len > (self.blocks@.len() - 1) * PAGETABLE_NODE_SZ
        &&& forall|i: int|
            0 <= i < self.blocks@.len() - 1 ==> (#[trigger] self.blocks@[i])@.len()
                == PAGETABLE_NODE_SZ
        &&& self.blocks@.len() > 0 ==> self.blocks@[self.blocks@.len() - 1]@.len() == self.len - (
        self.blocks@.len() - 1) * PAGETABLE_NODE_SZ
    }

    /// An empty table.
    pub fn new() -> (r: Self)
        ensures
            r.wf(),
            r@ == Seq::<E>::empty(),
    {
        let r = PageTable { blocks: Vec::new(), len: 0 };
        proof {
            assert(r@ =~= Seq::<E>::empty());
        }
        r
    }

    /// The number of entries.
    pub fn len(&self) -> (n: usize)
        ensures
            n == self@.len(),
    {
        self.len
    }

    /// The entry of the identifier `p`.
    pub fn get(&self, p: usize) -> (e: &E)
        requires
            self.wf(),
            p < self@.len(),
        ensures
            *e == self@[p as int],
    {
        &self.blocks[p / PAGETABLE_NODE_SZ][p % PAGETABLE_NODE_SZ]
    }

    /// The entry of the identifier `p`, to be changed in its place.
    pub fn get_mut(&mut self, p: usize) -> (e: &mut E)
        requires
            old(self).wf(),
            p < old(self)@.len(),
        ensures
            *e == old(self)@[p as int],
            final(self)@ == old(self)@.update(p as int, *final(e)),
            final(self).wf(),
    {
        let block = &mut self.blocks[p / PAGETABLE_NODE_SZ];
        &mut block[p % PAGETABLE_NODE_SZ]
    }

    /// Sets the entry of the identifier `p`.
    pub fn set(&mut self, p: usize, e: E)
        requires
            old(self).wf(),
            p < old(self)@.len(),
        ensures
            final(self).wf(),
            final(self)@ == old(self)@.update(p as int, e),
    {
        let slot = self.get_mut(p);
        *slot = e;
    }

    /// Adds an entry behind the last.
    pub fn push(&mut self, e: E)
        requires
            old(self).wf(),
            old(self)@.len() < usize::MAX,
        ensures
            final(self).wf(),
            final(self)@ == old(self)@.push(e),
    {
        let n = self.blocks.len();
        if self.len % PAGETABLE_NODE_SZ == 0 {
            let mut block: Vec<E> = Vec::new();
            block.push(e);
            self.blocks.push(block);
        } else {
            let block = &mut self.blocks[n - 1];
            block.push(e);
        }
        self.len = self.len + 1;
        proof {
            assert(self@ =~= old(self)@.push(e));
        }
    }
}

} // verus!
