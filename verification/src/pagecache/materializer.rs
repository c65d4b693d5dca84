//! What the owner of a page cache provides: how fragments of a page are
//! merged, copied and written to the log.

use vstd::prelude::*;
use crate::keymap::Duplicate;

verus! {

/// A fragment of a page. The page cache folds the chain of a page into a
/// copy of its first fragment, the anchor, with `merge`, in the order of the
/// chain.
pub trait Materializer: Duplicate {
    /// The result of merging the fragment `other` into the page `acc`.
    spec fn merged(acc: Self::V, other: Self::V) -> Self::V;

    /// The fragments that can be written to the log.
    spec fn encodable(v: Self::V) -> bool;

    /// The bytes that stand for a fragment in the log.
    spec fn encoding(v: Self::V) -> Seq<u8>;

    /// The fragment that bytes of the log stand for, if they stand for one.
    spec fn decoding(bytes: Seq<u8>) -> Option<Self::V>;

    /// A fragment that was written is read back unchanged.
    proof fn lemma_decoding(v: Self::V)
        requires
            Self::encodable(v),
        ensures
            Self::decoding(Self::encoding(v)) == Some(v),
    ;

    /// Merges the fragment `other` into the page.
    fn merge(&mut self, other: &Self)
        ensures
            final(self)@ == Self::merged(old(self)@, other@),
    ;

    /// The bytes that stand for the fragment in the log.
    fn encode(&self) -> (bytes: Vec<u8>)
        ensures
            Self::encodable(self@),
            bytes@ == Self::encoding(self@),
    ;

    /// The fragment that `bytes` stand for, if they stand for one.
    fn decode(bytes: &[u8]) -> (r: Option<Self>)
        ensures
            r is Some <==> Self::decoding(bytes@) is Some,
            r is Some ==> r->0@ == Self::decoding(bytes@)->0,
    ;
}

/// The page that a chain of fragments stands for: the links merged into the
/// anchor one after the other.
pub open spec fn fold_chain<T: Materializer>(chain: Seq<T::V>) -> T::V
    recommends
        chain.len() > 0,
    decreases chain.len(),
{
    if chain.len() <= 1 {
        chain[0]
    } else {
        T::merged(fold_chain::<T>(chain.drop_last()), chain.last())
    }
}

/// A page of bytes: its fragments are appended one to the other, and a
/// fragment is written to the log as it is.
impl Materializer for Vec<u8> {
    open spec fn merged(acc: Seq<u8>, other: Seq<u8>) -> Seq<u8> {
        acc + other
    }

    open spec fn encodable(v: Seq<u8>) -> bool {
        true
    }

    open spec fn encoding(v: Seq<u8>) -> Seq<u8> {
        v
    }

    open spec fn decoding(bytes: Seq<u8>) -> Option<Seq<u8>> {
        Some(bytes)
    }

    proof fn lemma_decoding(v: Seq<u8>) {
    }

    fn merge(&mut self, other: &Self) {
        crate::bytes::extend_bytes(self, other.as_slice());
    }

    fn encode(&self) -> (bytes: Vec<u8>) {
        crate::bytes::copy_bytes(self.as_slice())
    }

    fn decode(bytes: &[u8]) -> (r: Option<Self>) {
        Some(crate::bytes::copy_bytes(bytes))
    }
}

} // verus!
