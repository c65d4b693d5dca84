//! An iterator over the keys and values of a block, in the order of the
//! keys.

use vstd::prelude::*;
use vstd::multiset::Multiset;
use binary_heap_plus::BinaryHeap;
use binary_heap_plus::MinComparator;
use crate::block::{collapsed, in_range, Bound, BoundView, KeyRange};
use crate::bytes::{
    copy_bytes, lex_le, lex_lt, same_bytes, lemma_lex_asymmetric, lemma_lex_transitive,
};
use crate::context::{page_at, Context};
use crate::keymap::{sorted_keys, KeyMap, lemma_sorted_of_map_of};
use crate::pagecache;
use crate::pagecache::PageId;
use crate::pagecache::steps::CacheView;
use crate::tree::{block_lookup, TreeBlock};
use crate::{Entry, Error, IResult, Key, Value};

verus! {

/// The heap `binary_heap_plus::BinaryHeap`: nothing of what it holds is
/// seen but through `heap_keys`.
#[verifier::external_type_specification]
#[verifier::external_body]
#[verifier::reject_recursive_types(T)]
#[verifier::reject_recursive_types(C)]
pub struct ExBinaryHeap<T, C>(BinaryHeap<T, C>);

/// The comparator `binary_heap_plus::MinComparator`, with which a heap pops
/// its least item first.
#[verifier::external_type_specification]
#[verifier::external_body]
pub struct ExMinComparator(MinComparator);

/// The keys that a heap holds, each as often as it was pushed and not yet
/// popped.
pub uninterp spec fn heap_keys(heap: BinaryHeap<Key, MinComparator>) -> Multiset<Seq<u8>>;

/// Calls `BinaryHeap::new_min`, which makes an empty heap that pops its
/// least item first.
#[verifier::external_body]
fn heap_new() -> (heap: BinaryHeap<Key, MinComparator>)
    ensures
        heap_keys(heap) == Multiset::<Seq<u8>>::empty(),
{
    BinaryHeap::new_min()
}

/// Calls `BinaryHeap::push`, which adds the item to the heap.
#[verifier::external_body]
fn heap_push(heap: &mut BinaryHeap<Key, MinComparator>, key: Key)
    ensures
        heap_keys(*final(heap)) == heap_keys(*old(heap)).insert(key@),
{
    heap.push(key)
}

/// Calls `BinaryHeap::pop`, which takes the first item in the order of the
/// heap out of it: with `MinComparator` an item that no other item is
/// below, in the order of `Vec<u8>`, which is lexicographic. An empty heap
/// gives `None`.
#[verifier::external_body]
fn heap_pop(heap: &mut BinaryHeap<Key, MinComparator>) -> (key: Option<Key>)
    ensures
        key is None <==> heap_keys(*old(heap)).len() == 0,
        key is None ==> heap_keys(*final(heap)) == heap_keys(*old(heap)),
        key is Some ==> is_least(heap_keys(*old(heap)), key->0@) && heap_keys(*final(heap))
            == heap_keys(*old(heap)).remove(key->0@),
{
    heap.pop()
}

/// Calls `BinaryHeap::is_empty`, which says whether the heap holds no item.
#[verifier::external_body]
fn heap_is_empty(heap: &BinaryHeap<Key, MinComparator>) -> (r: bool)
    ensures
        r == (heap_keys(*heap).len() == 0),
{
    heap.is_empty()
}

/// A key of `items` that no key of `items` is below.
pub open spec fn is_least(items: Multiset<Seq<u8>>, k: Seq<u8>) -> bool {
    items.contains(k) && forall|x: Seq<u8>| items.contains(x) ==> lex_le(k, x)
}

/// The least key of `items`.
pub open spec fn least(items: Multiset<Seq<u8>>) -> Seq<u8> {
    choose|k: Seq<u8>| is_least(items, k)
}

/// A key of `items` that is below no key of `items`.
pub open spec fn is_greatest(items: Multiset<Seq<u8>>, k: Seq<u8>) -> bool {
    items.contains(k) && forall|x: Seq<u8>| items.contains(x) ==> lex_le(x, k)
}

/// The greatest key of `items`.
pub open spec fn greatest(items: Multiset<Seq<u8>>) -> Seq<u8> {
    choose|k: Seq<u8>| is_greatest(items, k)
}

/// There is one least key.
pub proof fn lemma_least(items: Multiset<Seq<u8>>, k: Seq<u8>)
    requires
        is_least(items, k),
    ensures
        least(items) == k,
{
    let c = least(items);
    assert(is_least(items, c));
    if c != k {
        assert(lex_lt(c, k) && lex_lt(k, c));
        lemma_lex_asymmetric(c, k);
    }
}

/// There is one greatest key.
pub proof fn lemma_greatest(items: Multiset<Seq<u8>>, k: Seq<u8>)
    requires
        is_greatest(items, k),
    ensures
        greatest(items) == k,
{
    let c = greatest(items);
    assert(is_greatest(items, c));
    if c != k {
        assert(lex_lt(c, k) && lex_lt(k, c));
        lemma_lex_asymmetric(c, k);
    }
}

/// Taking a key out of a heap makes it smaller by one, and leaves no key in
/// it that it did not hold.
pub proof fn lemma_remove(items: Multiset<Seq<u8>>, k: Seq<u8>)
    requires
        items.contains(k),
    ensures
        items.remove(k).len() == items.len() - 1,
        forall|x: Seq<u8>| items.remove(k).contains(x) ==> items.contains(x),
        forall|x: Seq<u8>| items.contains(x) && x != k ==> items.remove(k).contains(x),
{
    assert(items.remove(k).insert(k) =~= items);
    vstd::multiset::lemma_insert_len(items.remove(k), k);
}

/// The keys of `ks` that a range holds, each once.
pub open spec fn keys_in(ks: Seq<Seq<u8>>, lo: BoundView, hi: BoundView) -> Multiset<Seq<u8>>
    decreases ks.len(),
{
    if ks.len() == 0 {
        Multiset::empty()
    } else if in_range(lo, hi, ks.last()) {
        keys_in(ks.drop_last(), lo, hi).insert(ks.last())
    } else {
        keys_in(ks.drop_last(), lo, hi)
    }
}

/// The keys in a range of the committed blocks, beginning at the page `pid`
/// and going back through at most `fuel` blocks: every key as often as
/// blocks hold it. Or the error of reading a page.
pub open spec fn chain_keys(
    v: CacheView,
    pid: PageId,
    lo: BoundView,
    hi: BoundView,
    fuel: nat,
) -> Result<Multiset<Seq<u8>>, Error>
    decreases fuel,
{
    if fuel == 0 {
        Err(Error::PCError(pagecache::Error::ReportableBug))
    } else {
        match page_at(v, pid) {
            Err(e) => Err(e),
            Ok(node) => {
                let here = keys_in(sorted_keys(node.inner), lo, hi);
                match node.prev {
                    None => Ok(here),
                    Some(p) => match chain_keys(v, p, lo, hi, (fuel - 1) as nat) {
                        Ok(m) => Ok(here.add(m)),
                        Err(e) => Err(e),
                    },
                }
            },
        }
    }
}

/// The mathematical model of an iterator: the keys that it has yet to
/// visit, the key that it visited last, and the ends of its range.
pub struct IterView {
    pub items: Multiset<Seq<u8>>,
    pub prev: Option<Seq<u8>>,
    pub lo: BoundView,
    pub hi: BoundView,
}

/// The next key and value of an iterator, with the iterator behind them:
/// the keys are visited in ascending order; a key that was visited just
/// before, and a key for which the block holds no value, is passed over. An
/// iterator whose range is collapsed gives nothing.
pub open spec fn iter_next(
    it: IterView,
    cookie: Map<Seq<u8>, Option<Seq<u8>>>,
    v: CacheView,
    id: PageId,
    fuel: nat,
) -> (Option<(Seq<u8>, Seq<u8>)>, IterView)
    decreases fuel,
{
    if collapsed(it.lo, it.hi) || fuel == 0 || it.items.len() == 0 {
        (None, it)
    } else {
        let k = least(it.items);
        let rest = it.items.remove(k);
        if it.prev == Some(k) {
            iter_next(IterView { items: rest, ..it }, cookie, v, id, (fuel - 1) as nat)
        } else {
            match block_lookup(cookie, v, id, k) {
                Ok(Some(value)) => (Some((k, value)), IterView { items: rest, prev: Some(k), ..it }),
                _ => iter_next(
                    IterView { items: rest, prev: Some(k), ..it },
                    cookie,
                    v,
                    id,
                    (fuel - 1) as nat,
                ),
            }
        }
    }
}

/// The last key of an iterator with its value: the greatest key that it has
/// yet to visit, or, where there is none, the key that it visited last.
/// Nothing where there is no such key or the block holds no value for it.
pub open spec fn iter_last(
    it: IterView,
    cookie: Map<Seq<u8>, Option<Seq<u8>>>,
    v: CacheView,
    id: PageId,
) -> Option<Result<(Seq<u8>, Seq<u8>), Error>> {
    let key = if it.items.len() > 0 {
        Some(greatest(it.items))
    } else {
        it.prev
    };
    match key {
        None => None,
        Some(k) => match block_lookup(cookie, v, id, k) {
            Ok(Some(value)) => Some(Ok((k, value))),
            Ok(None) => None,
            Err(e) => Some(Err(e)),
        },
    }
}

/// All keys and values that an iterator gives, in its order.
pub open spec fn iter_all(
    it: IterView,
    cookie: Map<Seq<u8>, Option<Seq<u8>>>,
    v: CacheView,
    id: PageId,
    fuel: nat,
) -> Seq<(Seq<u8>, Seq<u8>)>
    decreases fuel,
{
    if fuel == 0 {
        Seq::empty()
    } else {
        let step = iter_next(it, cookie, v, id, it.items.len());
        match step.0 {
            None => Seq::empty(),
            Some(kv) => seq![kv] + iter_all(step.1, cookie, v, id, (fuel - 1) as nat),
        }
    }
}

/// The views of a key and a value.
pub open spec fn pair_view(p: (Key, Value)) -> (Seq<u8>, Seq<u8>) {
    (p.0@, p.1@)
}

/// An iterator over the keys and values of a block.
pub struct Iter {
    heap: BinaryHeap<Key, MinComparator>,
    prev: Option<Key>,
    hi: Bound,
    lo: Bound,
}

/// Puts the keys of `map` that `range` holds on the heap.
fn push_keys(heap: &mut BinaryHeap<Key, MinComparator>, map: &KeyMap<Entry>, range: &KeyRange)
    ensures
        heap_keys(*final(heap)) == heap_keys(*old(heap)).add(
            keys_in(map.keys(), range.lo@, range.hi@),
        ),
        sorted_keys(map@) == map.keys(),
{
    let n = map.len();
    let ghost ks = map.keys();
    let ghost start = heap_keys(*heap);
    let mut i: usize = 0;
    proof {
        lemma_sorted_of_map_of(map.keys(), map.values());
        assert(ks.take(0) =~= Seq::<Seq<u8>>::empty());
        assert(start.add(Multiset::<Seq<u8>>::empty()) =~= start);
    }
    while i < n
        invariant
            i <= n,
            n == ks.len(),
            ks == map.keys(),
            heap_keys(*heap) == start.add(keys_in(ks.take(i as int), range.lo@, range.hi@)),
        decreases n - i,
    {
        proof {
            assert(ks.take(i + 1).drop_last() =~= ks.take(i as int));
            assert(ks.take(i + 1).last() == ks[i as int]);
        }
        let key = map.key_at(i);
        if range.contains(key.as_slice()) {
            heap_push(heap, copy_bytes(key.as_slice()));
            proof {
                let part = keys_in(ks.take(i as int), range.lo@, range.hi@);
                assert(start.add(part).insert(ks[i as int]) =~= start.add(
                    part.insert(ks[i as int]),
                ));
            }
        }
        i += 1;
    }
    proof {
        assert(ks.take(n as int) =~= ks);
    }
}

impl Iter {
    /// The mathematical model of the iterator.
    pub closed spec fn view(&self) -> IterView {
        IterView {
            items: heap_keys(self.heap),
            prev: match self.prev {
                Some(k) => Some(k@),
                None => None,
            },
            lo: self.lo@,
            hi: self.hi@,
        }
    }

    /// An iterator over the keys of `block` in `range`: those of its
    /// uncommitted changes and those of the committed blocks below it.
    pub fn new(block: &TreeBlock, context: &mut Context, range: KeyRange) -> (r: IResult<Iter>)
        requires
            old(context).wf(),
        ensures
            final(context).wf(),
            final(context)@ == old(context)@,
            final(context).config == old(context).config,
            match chain_keys(
                old(context)@,
                block.id,
                range.lo@,
                range.hi@,
                old(context)@.table.size as nat,
            ) {
                Ok(m) => r is Ok && r->Ok_0@ == (IterView {
                    items: keys_in(block.cookie.keys(), range.lo@, range.hi@).add(m),
                    prev: None,
                    lo: range.lo@,
                    hi: range.hi@,
                }),
                Err(e) => r is Err && r->Err_0 == e,
            },
    {
        let mut heap = heap_new();
        push_keys(&mut heap, &block.cookie, &range);
        let ghost v = context@;
        let ghost lo = range.lo@;
        let ghost hi = range.hi@;
        let ghost own = keys_in(block.cookie.keys(), lo, hi);
        let mut fuel: u64 = context.pagecache.max_pid();
        let mut pid = block.id;
        proof {
            assert(Multiset::<Seq<u8>>::empty().add(own) =~= own);
            match chain_keys(v, block.id, lo, hi, v.table.size as nat) {
                Ok(m) => {
                    assert(own.add(m) =~= heap_keys(heap).add(m));
                },
                Err(_) => {},
            }
        }
        while fuel > 0
            invariant
                context.wf(),
                context@ == v,
                v == old(context)@,
                context.config == old(context).config,
                lo == range.lo@,
                hi == range.hi@,
                own == keys_in(block.cookie.keys(), lo, hi),
                match chain_keys(v, block.id, lo, hi, v.table.size as nat) {
                    Ok(m) => chain_keys(v, pid, lo, hi, fuel as nat) is Ok && own.add(m)
                        == heap_keys(heap).add(chain_keys(v, pid, lo, hi, fuel as nat)->Ok_0),
                    Err(e) => chain_keys(v, pid, lo, hi, fuel as nat) == Err::<
                        Multiset<Seq<u8>>,
                        Error,
                    >(e),
                },
            decreases fuel,
        {
            let (_, node) = match context.page(pid) {
                Ok(found) => found,
                Err(e) => {
                    return Err(e);
                },
            };
            let ghost before = heap_keys(heap);
            push_keys(&mut heap, &node.inner, &range);
            let ghost here = keys_in(sorted_keys(node@.inner), lo, hi);
            match node.prev {
                Some(p) => {
                    proof {
                        match chain_keys(v, p, lo, hi, (fuel - 1) as nat) {
                            Ok(m) => {
                                assert(before.add(here.add(m)) =~= before.add(here).add(m));
                            },
                            Err(_) => {},
                        }
                    }
                    pid = p;
                },
                None => {
                    let KeyRange { lo, hi } = range;
                    return Ok(Iter { heap, prev: None, hi, lo });
                },
            }
            fuel -= 1;
        }
        Err(Error::PCError(pagecache::Error::ReportableBug))
    }

    /// Whether the lower end of the range lies above its upper end.
    pub fn bounds_collapsed(&self) -> (r: bool)
        ensures
            r == collapsed(self@.lo, self@.hi),
    {
        match (&self.lo, &self.hi) {
            (Bound::Included(s), Bound::Included(e)) => crate::block::below(
                e.as_slice(),
                s.as_slice(),
            ),
            (Bound::Included(s), Bound::Excluded(e)) => crate::block::below(
                e.as_slice(),
                s.as_slice(),
            ),
            (Bound::Excluded(s), Bound::Included(e)) => crate::block::below(
                e.as_slice(),
                s.as_slice(),
            ),
            (Bound::Excluded(s), Bound::Excluded(e)) => crate::block::below(
                e.as_slice(),
                s.as_slice(),
            ),
            _ => false,
        }
    }

    /// The next key of the block with its value.
    pub fn next(&mut self, block: &TreeBlock, context: &mut Context) -> (r: Option<
        IResult<(Key, Value)>,
    >)
        requires
            old(context).wf(),
        ensures
            final(context).wf(),
            final(context)@ == old(context)@,
            final(context).config == old(context).config,
            final(self)@ == iter_next(
                old(self)@,
                block.cookie@,
                old(context)@,
                block.id,
                old(self)@.items.len(),
            ).1,
            match iter_next(
                old(self)@,
                block.cookie@,
                old(context)@,
                block.id,
                old(self)@.items.len(),
            ).0 {
                Some(kv) => r is Some && r->0 is Ok && pair_view(r->0->Ok_0) == kv,
                None => r is None,
            },
            r is Some ==> final(self)@.items.len() < old(self)@.items.len(),
            final(self)@.items.len() <= old(self)@.items.len(),
    {
        if self.bounds_collapsed() {
            return None;
        }
        let ghost v = context@;
        let ghost it0 = self@;
        let ghost cookie = block.cookie@;
        while !heap_is_empty(&self.heap)
            invariant
                context.wf(),
                context@ == v,
                v == old(context)@,
                context.config == old(context).config,
                it0 == old(self)@,
                cookie == block.cookie@,
                !collapsed(self@.lo, self@.hi),
                self@.items.len() <= it0.items.len(),
                iter_next(it0, cookie, v, block.id, it0.items.len()) == iter_next(
                    self@,
                    cookie,
                    v,
                    block.id,
                    self@.items.len(),
                ),
            decreases self@.items.len(),
        {
            let ghost cur = self@;
            let key = match heap_pop(&mut self.heap) {
                Some(key) => key,
                None => {
                    return None;
                },
            };
            proof {
                lemma_least(cur.items, key@);
                lemma_remove(cur.items, key@);
            }
            let seen = match &self.prev {
                Some(p) => same_bytes(p.as_slice(), key.as_slice()),
                None => false,
            };
            if !seen {
                self.prev = Some(copy_bytes(key.as_slice()));
                match block.get(context, key.as_slice()) {
                    Ok(Some(value)) => {
                        return Some(Ok((key, value)));
                    },
                    _ => {},
                }
            }
        }
        None
    }

    /// The last key of the block with its value.
    pub fn last(self, block: &TreeBlock, context: &mut Context) -> (r: Option<
        IResult<(Key, Value)>,
    >)
        requires
            old(context).wf(),
        ensures
            final(context).wf(),
            final(context)@ == old(context)@,
            final(context).config == old(context).config,
            match iter_last(self@, block.cookie@, old(context)@, block.id) {
                Some(Ok(kv)) => r is Some && r->0 is Ok && pair_view(r->0->Ok_0) == kv,
                Some(Err(e)) => r is Some && r->0 is Err && r->0->Err_0 == e,
                None => r is None,
            },
    {
        let ghost it0 = self@;
        let Iter { mut heap, mut prev, hi, lo } = self;
        let ghost mut popped = false;
        while !heap_is_empty(&heap)
            invariant
                heap_keys(heap).len() <= it0.items.len(),
                forall|x: Seq<u8>| heap_keys(heap).contains(x) ==> it0.items.contains(x),
                !popped ==> heap_keys(heap) == it0.items && (match prev {
                    Some(k) => Some(k@),
                    None => None,
                }) == it0.prev,
                popped ==> prev is Some && it0.items.contains(prev->0@) && (forall|x: Seq<u8>|
                    heap_keys(heap).contains(x) ==> lex_le(prev->0@, x)) && (forall|x: Seq<u8>|
                    it0.items.contains(x) ==> heap_keys(heap).contains(x) || lex_le(x, prev->0@)),
            decreases heap_keys(heap).len(),
        {
            let ghost cur = heap_keys(heap);
            let ghost was = prev;
            let key = match heap_pop(&mut heap) {
                Some(key) => key,
                None => vstd::pervasive::unreached(),
            };
            proof {
                lemma_remove(cur, key@);
                assert forall|x: Seq<u8>| it0.items.contains(x) implies heap_keys(heap).contains(x)
                    || lex_le(x, key@) by {
                    if cur.contains(x) {
                    } else {
                        // x was popped before: it is at or below the key
                        // popped last, which is at or below this one
                        assert(popped);
                        assert(lex_le(x, was->0@));
                        assert(lex_le(was->0@, key@));
                        if x != was->0@ && was->0@ != key@ {
                            lemma_lex_transitive(x, was->0@, key@);
                        }
                    }
                }
                popped = true;
            }
            prev = Some(key);
        }
        proof {
            if it0.items.len() > 0 {
                if !popped {
                    assert(heap_keys(heap).len() == 0);
                }
                assert(popped);
                assert forall|x: Seq<u8>| it0.items.contains(x) implies lex_le(x, prev->0@) by {
                    if heap_keys(heap).contains(x) {
                        assert(heap_keys(heap).len() > 0) by {
                            vstd::multiset::axiom_count_le_len(heap_keys(heap), x);
                        }
                    }
                }
                lemma_greatest(it0.items, prev->0@);
            } else {
                assert(!popped) by {
                    if popped {
                        vstd::multiset::axiom_count_le_len(it0.items, prev->0@);
                    }
                }
            }
        }
        match prev {
            Some(key) => match block.get(context, key.as_slice()) {
                Ok(Some(value)) => Some(Ok((key, value))),
                Ok(None) => None,
                Err(e) => Some(Err(e)),
            },
            None => None,
        }
    }

    /// All keys of the block that are left, with their values, in the order
    /// of the keys.
    pub fn collect(&mut self, block: &TreeBlock, context: &mut Context) -> (r: Vec<(Key, Value)>)
        requires
            old(context).wf(),
        ensures
            final(context).wf(),
            final(context)@ == old(context)@,
            final(context).config == old(context).config,
            r@.len() == iter_all(
                old(self)@,
                block.cookie@,
                old(context)@,
                block.id,
                old(self)@.items.len() + 1,
            ).len(),
            forall|i: int|
                0 <= i < r@.len() ==> pair_view(#[trigger] r@[i]) == iter_all(
                    old(self)@,
                    block.cookie@,
                    old(context)@,
                    block.id,
                    old(self)@.items.len() + 1,
                )[i],
    {
        let mut out: Vec<(Key, Value)> = Vec::new();
        let ghost v = context@;
        let ghost cookie = block.cookie@;
        let ghost all = iter_all(old(self)@, cookie, v, block.id, old(self)@.items.len() + 1);
        let mut done = false;
        while !done
            invariant
                context.wf(),
                context@ == v,
                v == old(context)@,
                context.config == old(context).config,
                cookie == block.cookie@,
                all == iter_all(old(self)@, cookie, v, block.id, old(self)@.items.len() + 1),
                !done ==> all.len() == out@.len() + iter_all(
                    self@,
                    cookie,
                    v,
                    block.id,
                    self@.items.len() + 1,
                ).len(),
                !done ==> forall|i: int|
                    out@.len() <= i < all.len() ==> #[trigger] all[i] == iter_all(
                        self@,
                        cookie,
                        v,
                        block.id,
                        self@.items.len() + 1,
                    )[i - out@.len()],
                done ==> all.len() == out@.len(),
                forall|i: int| 0 <= i < out@.len() ==> pair_view(#[trigger] out@[i]) == all[i],
            decreases
                    (if done {
                        0
                    } else {
                        self@.items.len() + 1
                    }),
        {
            let ghost cur = self@;
            let ghost rest = iter_all(cur, cookie, v, block.id, cur.items.len() + 1);
            let ghost len0 = out@.len();
            match self.next(block, context) {
                Some(Ok(kv)) => {
                    proof {
                        let step = iter_next(cur, cookie, v, block.id, cur.items.len());
                        let tail = iter_all(step.1, cookie, v, block.id, cur.items.len());
                        assert(rest == seq![step.0->0] + tail);
                        lemma_iter_all_fuel(
                            step.1,
                            cookie,
                            v,
                            block.id,
                            cur.items.len(),
                            step.1.items.len() + 1,
                        );
                    }
                    let ghost before = out@;
                    out.push(kv);
                    proof {
                        assert forall|i: int| 0 <= i < out@.len() implies pair_view(
                            #[trigger] out@[i],
                        ) == all[i] by {
                            if i < len0 {
                                assert(out@[i] == before[i]);
                            } else {
                                assert(all[i] == rest[0]);
                            }
                        }
                        let now = iter_all(self@, cookie, v, block.id, self@.items.len() + 1);
                        assert forall|i: int| out@.len() <= i < all.len() implies #[trigger] all[i]
                            == now[i - out@.len()] by {
                            assert(all[i] == rest[i - len0]);
                        }
                    }
                },
                _ => {
                    done = true;
                },
            }
        }
        out
    }
}

/// An iterator gives the same keys and values with any fuel that is more
/// than the number of keys that it has yet to visit.
pub proof fn lemma_iter_all_fuel(
    it: IterView,
    cookie: Map<Seq<u8>, Option<Seq<u8>>>,
    v: CacheView,
    id: PageId,
    a: nat,
    b: nat,
)
    requires
        a > it.items.len(),
        b > it.items.len(),
    ensures
        iter_all(it, cookie, v, id, a) == iter_all(it, cookie, v, id, b),
    decreases a,
{
    let step = iter_next(it, cookie, v, id, it.items.len());
    match step.0 {
        None => {},
        Some(kv) => {
            lemma_iter_next_shrinks(it, cookie, v, id, it.items.len());
            lemma_iter_all_fuel(step.1, cookie, v, id, (a - 1) as nat, (b - 1) as nat);
        },
    }
}

/// An iterator that gives a key has fewer keys to visit afterwards.
pub proof fn lemma_iter_next_shrinks(
    it: IterView,
    cookie: Map<Seq<u8>, Option<Seq<u8>>>,
    v: CacheView,
    id: PageId,
    fuel: nat,
)
    ensures
        iter_next(it, cookie, v, id, fuel).1.items.len() <= it.items.len(),
        iter_next(it, cookie, v, id, fuel).0 is Some ==> iter_next(
            it,
            cookie,
            v,
            id,
            fuel,
        ).1.items.len() < it.items.len(),
    decreases fuel,
{
    if collapsed(it.lo, it.hi) || fuel == 0 || it.items.len() == 0 {
    } else {
        let k = least(it.items);
        lemma_least_exists(it.items);
        lemma_remove(it.items, k);
        let rest = it.items.remove(k);
        if it.prev == Some(k) {
            lemma_iter_next_shrinks(
                IterView { items: rest, ..it },
                cookie,
                v,
                id,
                (fuel - 1) as nat,
            );
        } else {
            lemma_iter_next_shrinks(
                IterView { items: rest, prev: Some(k), ..it },
                cookie,
                v,
                id,
                (fuel - 1) as nat,
            );
        }
    }
}

/// Keys that are not empty have a least key.
pub proof fn lemma_least_exists(items: Multiset<Seq<u8>>)
    requires
        items.len() > 0,
    ensures
        is_least(items, least(items)),
    decreases items.len(),
{
    let x = items.choose();
    vstd::multiset::axiom_choose_count(items);
    assert(items.contains(x));
    lemma_remove(items, x);
    let rest = items.remove(x);
    if rest.len() == 0 {
        assert forall|y: Seq<u8>| items.contains(y) implies lex_le(x, y) by {
            if y != x {
                assert(rest.contains(y));
                vstd::multiset::axiom_count_le_len(rest, y);
            }
        }
        assert(is_least(items, x));
    } else {
        lemma_least_exists(rest);
        let m = least(rest);
        crate::bytes::lemma_lex_total(x, m);
        if lex_le(x, m) {
            assert forall|y: Seq<u8>| items.contains(y) implies lex_le(x, y) by {
                if y != x {
                    assert(rest.contains(y));
                    assert(lex_le(m, y));
                    if x != m && m != y {
                        lemma_lex_transitive(x, m, y);
                    }
                }
            }
            assert(is_least(items, x));
        } else {
            assert forall|y: Seq<u8>| items.contains(y) implies lex_le(m, y) by {
                if y != x {
                    assert(rest.contains(y));
                }
            }
            assert(is_least(items, m));
        }
    }
}

} // verus!
