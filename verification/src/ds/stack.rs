//! A stack whose head is changed by compare-and-set.
//!
//! Every node carries an identifier that stands for its address: a writer
//! names the head that it has seen, and its node is installed only if that
//! node is still the head.

use vstd::prelude::*;
use either::Either;

verus! {

/// The enum `either::Either` with its two variants, `Left` and `Right`.
#[verifier::external_type_specification]
#[verifier::reject_recursive_types(L)]
#[verifier::reject_recursive_types(R)]
pub struct ExEither<L, R>(Either<L, R>);

/// The identifier of a node, or `None` where a stack is empty.
pub type Shared = Option<u64>;

/// A node of a stack.
#[derive(Debug)]
pub struct Node<T> {
    pub inner: T,
    pub id: u64,
}

/// What a compare-and-set returns: on the left the new head, on the right
/// the head that was found in place of the expected one, with the node that
/// was not installed.
pub type CasResult<T> = Either<Shared, (Shared, Node<T>)>;

/// A stack of nodes, the oldest first.
#[derive(Debug)]
pub struct Stack<T> {
    nodes: Vec<Node<T>>,
}

/// The identifier of the last node of `nodes`.
pub open spec fn head_of<T>(nodes: Seq<Node<T>>) -> Shared {
    if nodes.len() == 0 {
        None
    } else {
        Some(nodes.last().id)
    }
}

impl<T> Default for Stack<T> {
    /// An empty stack.
    fn default() -> (r: Self)
        ensures
            r@ == Seq::<Node<T>>::empty(),
    {
        Stack::new()
    }
}

impl<T> Stack<T> {
    /// The nodes of the stack, the oldest first.
    pub closed spec fn view(&self) -> Seq<Node<T>> {
        self.nodes@
    }

    /// An empty stack.
    pub fn new() -> (r: Self)
        ensures
            r@ == Seq::<Node<T>>::empty(),
    {
        Stack { nodes: Vec::new() }
    }

    /// The number of nodes.
    pub fn len(&self) -> (n: usize)
        ensures
            n == self@.len(),
    {
        self.nodes.len()
    }

    /// The node at place `i`, counted from the oldest.
    pub fn node(&self, i: usize) -> (n: &Node<T>)
        requires
            i < self@.len(),
        ensures
            *n == self@[i as int],
    {
        &self.nodes[i]
    }

    /// The head of the stack.
    pub fn head(&self) -> (r: Shared)
        ensures
            r == head_of(self@),
    {
        if self.nodes.len() == 0 {
            None
        } else {
            Some(self.nodes[self.nodes.len() - 1].id)
        }
    }

    /// Puts a node with the value `inner` and the identifier `id` on the
    /// stack, whatever its head is.
    pub fn push(&mut self, inner: T, id: u64)
        ensures
            final(self)@ == old(self)@.push(Node { inner, id }),
    {
        self.nodes.push(Node { inner, id });
    }

    /// Compare and set: if the head is `expected`, the stack becomes `new` alone.
    pub fn cas(&mut self, expected: Shared, new: Node<T>) -> (r: CasResult<T>)
        ensures
            head_of(old(self)@) == expected ==> final(self)@ == seq![new] && r == Either::<
                Shared,
                (Shared, Node<T>),
            >::Left(Some(new.id)),
            head_of(old(self)@) != expected ==> final(self)@ == old(self)@ && r == Either::<
                Shared,
                (Shared, Node<T>),
            >::Right((head_of(old(self)@), new)),
    {
        let head = self.head();
        if head == expected {
            let id = new.id;
            let mut nodes: Vec<Node<T>> = Vec::new();
            nodes.push(new);
            self.nodes = nodes;
            Either::Left(Some(id))
        } else {
            Either::Right((head, new))
        }
    }

    /// Compare and push: if the head is `expected`, `node` is put on the stack.
    pub fn cap(&mut self, expected: Shared, node: Node<T>) -> (r: CasResult<T>)
        ensures
            head_of(old(self)@) == expected ==> final(self)@ == old(self)@.push(node) && r == Either::<
                Shared,
                (Shared, Node<T>),
            >::Left(Some(node.id)),
            head_of(old(self)@) != expected ==> final(self)@ == old(self)@ && r == Either::<
                Shared,
                (Shared, Node<T>),
            >::Right((head_of(old(self)@), node)),
    {
        let head = self.head();
        if head == expected {
            let id = node.id;
            self.nodes.push(node);
            Either::Left(Some(id))
        } else {
            Either::Right((head, node))
        }
    }
}

} // verus!
