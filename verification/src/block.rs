//! Ranges of keys, and the block of an index with the range of keys that it
//! covers.

use vstd::prelude::*;
use crate::bytes::{compare, lex_le, lex_lt, lemma_lex_irreflexive, Order};
use crate::Key;

verus! {

/// An end of a range of keys.
#[derive(Debug)]
pub enum Bound {
    /// The range reaches to this key and holds it.
    Included(Key),
    /// The range reaches to this key and does not hold it.
    Excluded(Key),
    /// The range has no end on this side.
    Unbounded,
}

/// The mathematical model of an end of a range.
pub enum BoundView {
    Included(Seq<u8>),
    Excluded(Seq<u8>),
    Unbounded,
}

impl View for Bound {
    type V = BoundView;

    open spec fn view(&self) -> BoundView {
        match self {
            Bound::Included(k) => BoundView::Included(k@),
            Bound::Excluded(k) => BoundView::Excluded(k@),
            Bound::Unbounded => BoundView::Unbounded,
        }
    }
}

/// A range of keys.
#[derive(Debug)]
pub struct KeyRange {
    /// The lower end.
    pub lo: Bound,
    /// The upper end.
    pub hi: Bound,
}

/// Whether a range with the ends `lo` and `hi` holds the key `k`.
pub open spec fn in_range(lo: BoundView, hi: BoundView, k: Seq<u8>) -> bool {
    &&& match lo {
        BoundView::Included(s) => lex_le(s, k),
        BoundView::Excluded(s) => lex_lt(s, k),
        BoundView::Unbounded => true,
    }
    &&& match hi {
        BoundView::Included(e) => lex_le(k, e),
        BoundView::Excluded(e) => lex_lt(k, e),
        BoundView::Unbounded => true,
    }
}

/// Whether the lower end of a range lies above its upper end, so that the
/// range holds nothing.
pub open spec fn collapsed(lo: BoundView, hi: BoundView) -> bool {
    match (lo, hi) {
        (BoundView::Included(s), BoundView::Included(e)) => lex_lt(e, s),
        (BoundView::Included(s), BoundView::Excluded(e)) => lex_lt(e, s),
        (BoundView::Excluded(s), BoundView::Included(e)) => lex_lt(e, s),
        (BoundView::Excluded(s), BoundView::Excluded(e)) => lex_lt(e, s),
        _ => false,
    }
}

/// Whether a range with the ends `lo` and `hi` overlaps the keys from `min`
/// to `max`: it holds `min` or `max`, or it has two ends in their order that
/// both lie from `min` to `max`.
pub open spec fn range_overlaps(lo: BoundView, hi: BoundView, min: Seq<u8>, max: Seq<u8>) -> bool {
    ||| in_range(lo, hi, min)
    ||| in_range(lo, hi, max)
    ||| match (lo, hi) {
        (BoundView::Included(s), BoundView::Included(e))
        | (BoundView::Included(s), BoundView::Excluded(e))
        | (BoundView::Excluded(s), BoundView::Included(e))
        | (BoundView::Excluded(s), BoundView::Excluded(e)) => !lex_lt(e, s) && lex_le(min, s)
            && lex_le(s, max) && lex_le(min, e) && lex_le(e, max),
        _ => false,
    }
}

/// Whether `a` is at or below `b`.
pub fn at_most(a: &[u8], b: &[u8]) -> (r: bool)
    ensures
        r == lex_le(a@, b@),
{
    match compare(a, b) {
        Order::Greater => {
            proof {
                lemma_lex_irreflexive(a@);
            }
            false
        },
        _ => true,
    }
}

/// Whether `a` is below `b`.
pub fn below(a: &[u8], b: &[u8]) -> (r: bool)
    ensures
        r == lex_lt(a@, b@),
{
    match compare(a, b) {
        Order::Less => true,
        Order::Equal => {
            proof {
                lemma_lex_irreflexive(a@);
            }
            false
        },
        Order::Greater => false,
    }
}

impl KeyRange {
    /// The range with the ends `lo` and `hi`.
    pub fn new(lo: Bound, hi: Bound) -> (r: Self)
        ensures
            r.lo == lo,
            r.hi == hi,
    {
        KeyRange { lo, hi }
    }

    /// The range of all keys.
    pub fn full() -> (r: Self)
        ensures
            r.lo@ == BoundView::Unbounded,
            r.hi@ == BoundView::Unbounded,
    {
        KeyRange { lo: Bound::Unbounded, hi: Bound::Unbounded }
    }

    /// Whether the range holds `key`.
    pub fn contains(&self, key: &[u8]) -> (r: bool)
        ensures
            r == in_range(self.lo@, self.hi@, key@),
    {
        let above = match &self.lo {
            Bound::Included(s) => at_most(s.as_slice(), key),
            Bound::Excluded(s) => below(s.as_slice(), key),
            Bound::Unbounded => true,
        };
        let under = match &self.hi {
            Bound::Included(e) => at_most(key, e.as_slice()),
            Bound::Excluded(e) => below(key, e.as_slice()),
            Bound::Unbounded => true,
        };
        above && under
    }

    /// Whether the lower end lies above the upper end.
    pub fn bounds_collapsed(&self) -> (r: bool)
        ensures
            r == collapsed(self.lo@, self.hi@),
    {
        match (&self.lo, &self.hi) {
            (Bound::Included(s), Bound::Included(e)) => below(e.as_slice(), s.as_slice()),
            (Bound::Included(s), Bound::Excluded(e)) => below(e.as_slice(), s.as_slice()),
            (Bound::Excluded(s), Bound::Included(e)) => below(e.as_slice(), s.as_slice()),
            (Bound::Excluded(s), Bound::Excluded(e)) => below(e.as_slice(), s.as_slice()),
            _ => false,
        }
    }
}

/// The block of an index: the least and the greatest key that it covers.
#[derive(Debug)]
pub struct IndexBlock {
    pub min: Key,
    pub max: Key,
}

impl IndexBlock {
    /// The block that covers the keys from `min` to `max`.
    pub fn new(min: Key, max: Key) -> (r: Self)
        ensures
            r.min == min,
            r.max == max,
    {
        IndexBlock { min, max }
    }

    /// The least key of the block.
    pub fn min(&self) -> (r: &Key)
        ensures
            *r == self.min,
    {
        &self.min
    }

    /// The greatest key of the block.
    pub fn max(&self) -> (r: &Key)
        ensures
            *r == self.max,
    {
        &self.max
    }

    /// Whether `range` overlaps the keys of the block.
    pub fn overlaps(&self, range: &KeyRange) -> (r: bool)
        ensures
            r == range_overlaps(range.lo@, range.hi@, self.min@, self.max@),
    {
        if range.contains(self.min.as_slice()) || range.contains(self.max.as_slice()) {
            return true;
        }
        let (start, end): (&Key, &Key) = match (&range.lo, &range.hi) {
            (Bound::Included(s), Bound::Included(e)) => (s, e),
            (Bound::Included(s), Bound::Excluded(e)) => (s, e),
            (Bound::Excluded(s), Bound::Included(e)) => (s, e),
            (Bound::Excluded(s), Bound::Excluded(e)) => (s, e),
            _ => {
                return false;
            },
        };
        if below(end.as_slice(), start.as_slice()) {
            false
        } else {
            at_most(self.min.as_slice(), start.as_slice()) && at_most(
                start.as_slice(),
                self.max.as_slice(),
            ) && at_most(self.min.as_slice(), end.as_slice()) && at_most(
                end.as_slice(),
                self.max.as_slice(),
            )
        }
    }
}

} // verus!
