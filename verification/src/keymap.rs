//! An ordered map from byte-string keys to values, kept as a vector of
//! entries sorted by key.

use vstd::prelude::*;
use crate::bytes::{
    compare, lex_lt, lemma_lex_asymmetric, lemma_lex_irreflexive, lemma_lex_total,
    lemma_lex_transitive, Order,
};

verus! {

/// A sequence of keys in strictly ascending lexicographic order.
pub open spec fn ascending(keys: Seq<Seq<u8>>) -> bool {
    forall|i: int, j: int| 0 <= i < j < keys.len() ==> lex_lt(#[trigger] keys[i], #[trigger] keys[j])
}

/// In an ascending sequence no key occurs twice.
pub proof fn lemma_ascending_distinct(keys: Seq<Seq<u8>>)
    requires
        ascending(keys),
    ensures
        keys.no_duplicates(),
{
    assert forall|i: int, j: int| 0 <= i < keys.len() && 0 <= j < keys.len() && i != j implies keys[i]
        != keys[j] by {
        lemma_lex_irreflexive(keys[i]);
    }
}

/// The map that ordered keys and their values stand for.
pub open spec fn map_of<W>(keys: Seq<Seq<u8>>, values: Seq<W>) -> Map<Seq<u8>, W> {
    Map::new(|k: Seq<u8>| keys.contains(k), |k: Seq<u8>| values[keys.index_of(k)])
}

/// Each ordered key is in the map, with the value at its place.
pub proof fn lemma_map_of<W>(keys: Seq<Seq<u8>>, values: Seq<W>)
    requires
        ascending(keys),
        keys.len() == values.len(),
    ensures
        map_of(keys, values).dom().finite(),
        map_of(keys, values).dom() == keys.to_set(),
        map_of(keys, values).dom().len() == keys.len(),
        forall|i: int|
            0 <= i < keys.len() ==> map_of(keys, values).contains_key(#[trigger] keys[i]) && map_of(
                keys,
                values,
            )[keys[i]] == values[i],
{
    let m = map_of(keys, values);
    assert(m.dom() =~= keys.to_set());
    vstd::seq_lib::seq_to_set_is_finite(keys);
    lemma_ascending_distinct(keys);
    keys.unique_seq_to_set();
    assert forall|i: int| 0 <= i < keys.len() implies m.contains_key(#[trigger] keys[i]) && m[keys[i]]
        == values[i] by {
        assert(keys.contains(keys[i]));
        let j = keys.index_of(keys[i]);
        assert(i == j);
    }
}

/// Two ascending sequences with the same keys are the same sequence.
pub proof fn lemma_ascending_unique(a: Seq<Seq<u8>>, b: Seq<Seq<u8>>)
    requires
        ascending(a),
        ascending(b),
        a.to_set() == b.to_set(),
    ensures
        a == b,
    decreases a.len(),
{
    lemma_ascending_distinct(a);
    lemma_ascending_distinct(b);
    if a.len() == 0 {
        if b.len() > 0 {
            assert(b.to_set().contains(b[0]));
            assert(a.contains(b[0]));
        }
        assert(a =~= b);
    } else {
        let x = a.last();
        assert(a.to_set().contains(x));
        assert(b.contains(x));
        let y = b.last();
        assert(b.to_set().contains(y));
        assert(a.contains(y));
        let i = b.index_of(x);
        let j = a.index_of(y);
        if i < b.len() - 1 {
            // x is below y in b, and y is at or below x in a
            assert(lex_lt(b[i], b[b.len() - 1]));
            if j < a.len() - 1 {
                assert(lex_lt(a[j], a[a.len() - 1]));
                lemma_lex_asymmetric(x, y);
            } else {
                lemma_lex_irreflexive(x);
            }
        }
        assert(x == y);
        let a0 = a.drop_last();
        let b0 = b.drop_last();
        assert(a0.to_set() =~= b0.to_set()) by {
            assert forall|k: Seq<u8>| a0.to_set().contains(k) == b0.to_set().contains(k) by {
                if a0.contains(k) {
                    let p = a0.index_of(k);
                    assert(a[p] == k);
                    assert(a.to_set().contains(k));
                    assert(b.contains(k));
                    let q = b.index_of(k);
                    if q == b.len() - 1 {
                        assert(a[p] == a[a.len() - 1]);
                    }
                    assert(b0[q] == k);
                }
                if b0.contains(k) {
                    let q = b0.index_of(k);
                    assert(b[q] == k);
                    assert(b.to_set().contains(k));
                    assert(a.contains(k));
                    let p = a.index_of(k);
                    if p == a.len() - 1 {
                        assert(b[q] == b[b.len() - 1]);
                    }
                    assert(a0[p] == k);
                }
            }
        }
        assert(ascending(a0)) by {
            assert forall|p: int, q: int| 0 <= p < q < a0.len() implies lex_lt(
                #[trigger] a0[p],
                #[trigger] a0[q],
            ) by {
                assert(a0[p] == a[p] && a0[q] == a[q]);
            }
        }
        assert(ascending(b0)) by {
            assert forall|p: int, q: int| 0 <= p < q < b0.len() implies lex_lt(
                #[trigger] b0[p],
                #[trigger] b0[q],
            ) by {
                assert(b0[p] == b[p] && b0[q] == b[q]);
            }
        }
        lemma_ascending_unique(a0, b0);
        assert(a =~= a0.push(x));
        assert(b =~= b0.push(y));
    }
}

/// The keys of a map in ascending order.
pub open spec fn sorted_keys<W>(m: Map<Seq<u8>, W>) -> Seq<Seq<u8>> {
    choose|ks: Seq<Seq<u8>>| ascending(ks) && ks.to_set() == m.dom()
}

/// The values of a map in the ascending order of their keys.
pub open spec fn sorted_values<W>(m: Map<Seq<u8>, W>) -> Seq<W> {
    Seq::new(sorted_keys(m).len(), |i: int| m[sorted_keys(m)[i]])
}

/// Whether the keys of a map can be put in ascending order, as those of
/// every finite map can.
pub open spec fn sortable<W>(m: Map<Seq<u8>, W>) -> bool {
    exists|ks: Seq<Seq<u8>>| ascending(ks) && ks.to_set() == m.dom()
}

/// The ordered keys and values of the map that they stand for are these
/// keys and values.
pub proof fn lemma_sorted_of_map_of<W>(keys: Seq<Seq<u8>>, values: Seq<W>)
    requires
        ascending(keys),
        keys.len() == values.len(),
    ensures
        sortable(map_of(keys, values)),
        sorted_keys(map_of(keys, values)) == keys,
        sorted_values(map_of(keys, values)) == values,
{
    let m = map_of(keys, values);
    lemma_map_of(keys, values);
    assert(ascending(keys) && keys.to_set() == m.dom());
    lemma_ascending_unique(sorted_keys(m), keys);
    assert(sorted_values(m) =~= values);
}

/// A map whose keys can be put in order is the map of its ordered keys and
/// values.
pub proof fn lemma_map_of_sorted<W>(m: Map<Seq<u8>, W>)
    requires
        sortable(m),
    ensures
        map_of(sorted_keys(m), sorted_values(m)) == m,
        ascending(sorted_keys(m)),
        sorted_keys(m).len() == sorted_values(m).len(),
{
    let ks = sorted_keys(m);
    let vs = sorted_values(m);
    lemma_map_of(ks, vs);
    assert(map_of(ks, vs) =~= m) by {
        assert forall|k: Seq<u8>| map_of(ks, vs).contains_key(k) implies #[trigger] map_of(ks, vs)[k]
            == m[k] by {
            let i = ks.index_of(k);
            assert(ks[i] == k);
        }
    }
}

/// The map that is made by setting the keys `keys` to the values `values`
/// one after the other.
pub open spec fn entries_map<W>(keys: Seq<Seq<u8>>, values: Seq<W>) -> Map<Seq<u8>, W>
    decreases keys.len(),
{
    if keys.len() == 0 || values.len() == 0 {
        Map::empty()
    } else {
        entries_map(keys.drop_last(), values.drop_last()).insert(keys.last(), values.last())
    }
}

/// Setting ascending keys one after the other makes the map of the ordered
/// entries.
pub proof fn lemma_entries_map<W>(keys: Seq<Seq<u8>>, values: Seq<W>)
    requires
        ascending(keys),
        keys.len() == values.len(),
    ensures
        entries_map(keys, values) == map_of(keys, values),
    decreases keys.len(),
{
    if keys.len() == 0 {
        assert(map_of(keys, values) =~= Map::<Seq<u8>, W>::empty());
    } else {
        let n = keys.len() - 1;
        assert(ascending(keys.drop_last())) by {
            assert forall|p: int, q: int| 0 <= p < q < keys.drop_last().len() implies lex_lt(
                #[trigger] keys.drop_last()[p],
                #[trigger] keys.drop_last()[q],
            ) by {
                assert(keys.drop_last()[p] == keys[p] && keys.drop_last()[q] == keys[q]);
            }
        }
        lemma_entries_map(keys.drop_last(), values.drop_last());
        lemma_map_of_take(keys, values, n);
        assert(keys.take(n) =~= keys.drop_last());
        assert(values.take(n) =~= values.drop_last());
        assert(keys.take(n + 1) =~= keys);
        assert(values.take(n + 1) =~= values);
    }
}

/// An ordered map from byte strings to values of type `V`.
pub struct KeyMap<V> {
    entries: Vec<(Vec<u8>, V)>,
}

impl<V> KeyMap<V> {
    /// The keys of the map in ascending order.
    pub closed spec fn keys(&self) -> Seq<Seq<u8>> {
        Seq::new(self.entries@.len(), |i: int| self.entries@[i].0@)
    }

    #[verifier::type_invariant]
    spec fn inv(&self) -> bool {
        ascending(self.keys())
    }
}

impl<V: View> KeyMap<V> {
    /// The values of the map in the order of their keys.
    pub closed spec fn values(&self) -> Seq<V::V> {
        Seq::new(self.entries@.len(), |i: int| self.entries@[i].1@)
    }

    /// The map itself: each key with the view of its value.
    pub open spec fn view(&self) -> Map<Seq<u8>, V::V> {
        map_of(self.keys(), self.values())
    }

    /// An empty map.
    pub fn new() -> (r: Self)
        ensures
            r@ == Map::<Seq<u8>, V::V>::empty(),
            r.keys() == Seq::<Seq<u8>>::empty(),
            r.values() == Seq::<V::V>::empty(),
    {
        let r = KeyMap { entries: Vec::new() };
        proof {
            assert(r.keys() =~= Seq::<Seq<u8>>::empty());
            assert(r.values() =~= Seq::<V::V>::empty());
            assert(r@ =~= Map::<Seq<u8>, V::V>::empty());
        }
        r
    }

    /// The number of entries.
    pub fn len(&self) -> (n: usize)
        ensures
            n == self.keys().len(),
            n == self.values().len(),
            n == self@.dom().len(),
            ascending(self.keys()),
    {
        proof {
            use_type_invariant(self);
            lemma_map_of(self.keys(), self.values());
        }
        self.entries.len()
    }

    /// The key at place `i` of the ascending order.
    pub fn key_at(&self, i: usize) -> (k: &Vec<u8>)
        requires
            i < self.keys().len(),
        ensures
            k@ == self.keys()[i as int],
    {
        &self.entries[i].0
    }

    /// The value at place `i` of the ascending order of keys.
    pub fn value_at(&self, i: usize) -> (v: &V)
        requires
            i < self.keys().len(),
        ensures
            v@ == self.values()[i as int],
    {
        &self.entries[i].1
    }

    /// The place of the first key that is not below `key`, and whether that
    /// key is `key` itself.
    fn locate(&self, key: &[u8]) -> (r: (usize, bool))
        ensures
            r.0 <= self.keys().len(),
            forall|j: int| 0 <= j < r.0 ==> lex_lt(#[trigger] self.keys()[j], key@),
            r.1 ==> r.0 < self.keys().len() && self.keys()[r.0 as int] == key@,
            !r.1 ==> forall|j: int|
                r.0 <= j < self.keys().len() ==> lex_lt(key@, #[trigger] self.keys()[j]),
            r.1 == self.keys().contains(key@),
            ascending(self.keys()),
    {
        proof {
            use_type_invariant(self);
        }
        let ghost keys = self.keys();
        let mut lo: usize = 0;
        let mut hi: usize = self.entries.len();
        while lo < hi
            invariant
                keys == self.keys(),
                ascending(keys),
                lo <= hi <= self.entries.len(),
                self.entries.len() == keys.len(),
                forall|j: int| 0 <= j < lo ==> lex_lt(#[trigger] keys[j], key@),
                forall|j: int| hi <= j < keys.len() ==> lex_lt(key@, #[trigger] keys[j]),
            decreases hi - lo,
        {
            let mid = lo + (hi - lo) / 2;
            match compare(self.entries[mid].0.as_slice(), key) {
                Order::Less => {
                    proof {
                        assert forall|j: int| 0 <= j < mid + 1 implies lex_lt(
                            #[trigger] keys[j],
                            key@,
                        ) by {
                            if j < mid {
                                lemma_lex_transitive(keys[j], keys[mid as int], key@);
                            }
                        }
                    }
                    lo = mid + 1;
                },
                Order::Equal => {
                    assert(keys[mid as int] == key@);
                    proof {
                        assert forall|j: int| 0 <= j < mid implies lex_lt(
                            #[trigger] keys[j],
                            key@,
                        ) by {
                            assert(lex_lt(keys[j], keys[mid as int]));
                        }
                    }
                    return (mid, true);
                },
                Order::Greater => {
                    proof {
                        lemma_lex_total(keys[mid as int], key@);
                        assert forall|j: int| mid <= j < keys.len() implies lex_lt(
                            key@,
                            #[trigger] keys[j],
                        ) by {
                            if mid < j {
                                lemma_lex_transitive(key@, keys[mid as int], keys[j]);
                            }
                        }
                    }
                    hi = mid;
                },
            }
        }
        proof {
            assert(!keys.contains(key@)) by {
                if keys.contains(key@) {
                    let j = keys.index_of(key@);
                    lemma_lex_irreflexive(key@);
                }
            }
        }
        (lo, false)
    }

    /// Whether the map holds `key`.
    pub fn contains_key(&self, key: &[u8]) -> (r: bool)
        ensures
            r == self@.contains_key(key@),
    {
        let (_, found) = self.locate(key);
        found
    }

    /// The value of `key`, if the map holds it.
    pub fn get(&self, key: &[u8]) -> (r: Option<&V>)
        ensures
            r is Some == self@.contains_key(key@),
            r is Some ==> r->0@ == self@[key@],
    {
        let (i, found) = self.locate(key);
        if found {
            proof {
                lemma_map_of(self.keys(), self.values());
            }
            Some(&self.entries[i].1)
        } else {
            None
        }
    }

    /// Sets the value of `key` and returns the value that it had.
    pub fn insert(&mut self, key: Vec<u8>, value: V) -> (r: Option<V>)
        ensures
            final(self)@ == old(self)@.insert(key@, value@),
            r is Some == old(self)@.contains_key(key@),
            r is Some ==> r->0@ == old(self)@[key@],
    {
        let (i, found) = self.locate(key.as_slice());
        let ghost keys0 = self.keys();
        let ghost vals0 = self.values();
        proof {
            lemma_map_of(keys0, vals0);
        }
        let mut entries: Vec<(Vec<u8>, V)> = Vec::new();
        proof {
            assert(Seq::new(entries@.len(), |i: int| entries@[i].0@) =~= Seq::<Seq<u8>>::empty());
        }
        core::mem::swap(&mut self.entries, &mut entries);
        if found {
            let (_, previous) = entries.remove(i);
            entries.insert(i, (key, value));
            proof {
                assert(Seq::new(entries@.len(), |i: int| entries@[i].0@) =~= keys0);
            }
            core::mem::swap(&mut self.entries, &mut entries);
            proof {
                assert(self.keys() =~= keys0);
                assert(self.values() =~= vals0.update(i as int, value@));
                lemma_map_of(self.keys(), self.values());
                assert(self@ =~= map_of(keys0, vals0).insert(key@, value@)) by {
                    assert forall|k: Seq<u8>| self@.contains_key(k) implies #[trigger] self@[k]
                        == map_of(keys0, vals0).insert(key@, value@)[k] by {
                        let j = keys0.index_of(k);
                        assert(keys0[j] == k);
                    }
                }
            }
            Some(previous)
        } else {
            entries.insert(i, (key, value));
            let ghost keys1 = Seq::new(entries@.len(), |i: int| entries@[i].0@);
            proof {
                assert(keys1 =~= keys0.insert(i as int, key@));
                assert(ascending(keys1)) by {
                    assert forall|a: int, b: int| 0 <= a < b < keys1.len() implies lex_lt(
                        #[trigger] keys1[a],
                        #[trigger] keys1[b],
                    ) by {
                        if b < i {
                            assert(keys1[a] == keys0[a] && keys1[b] == keys0[b]);
                        } else if b == i {
                            assert(keys1[a] == keys0[a]);
                        } else if a < i {
                            assert(keys1[a] == keys0[a] && keys1[b] == keys0[b - 1]);
                            if a < b - 1 {
                            } else {
                                lemma_lex_transitive(keys0[a], key@, keys0[b - 1]);
                            }
                        } else if a == i {
                            assert(keys1[b] == keys0[b - 1]);
                        } else {
                            assert(keys1[a] == keys0[a - 1] && keys1[b] == keys0[b - 1]);
                        }
                    }
                }
            }
            core::mem::swap(&mut self.entries, &mut entries);
            proof {
                let vals1 = self.values();
                assert(self.keys() =~= keys1);
                assert(vals1 =~= vals0.insert(i as int, value@));
                lemma_map_of(keys1, vals1);
                let target = map_of(keys0, vals0).insert(key@, value@);
                assert(self@ =~= target) by {
                    assert forall|k: Seq<u8>| self@.contains_key(k) == target.contains_key(k) by {
                        if keys1.contains(k) {
                            let j = keys1.index_of(k);
                            if j < i {
                                assert(keys0[j] == k);
                            } else if j > i {
                                assert(keys0[j - 1] == k);
                            }
                        }
                        if keys0.contains(k) {
                            let j = keys0.index_of(k);
                            if j < i {
                                assert(keys1[j] == k);
                            } else {
                                assert(keys1[j + 1] == k);
                            }
                        }
                        if k == key@ {
                            assert(keys1[i as int] == k);
                        }
                    }
                    assert forall|k: Seq<u8>| self@.contains_key(k) implies #[trigger] self@[k]
                        == target[k] by {
                        let j = keys1.index_of(k);
                        assert(keys1[j] == k);
                        if j < i {
                            assert(keys0[j] == k);
                        } else if j > i {
                            assert(keys0[j - 1] == k);
                        }
                    }
                }
            }
            None
        }
    }

    /// Takes `key` out of the map and returns the value that it had.
    pub fn remove(&mut self, key: &[u8]) -> (r: Option<V>)
        ensures
            final(self)@ == old(self)@.remove(key@),
            r is Some == old(self)@.contains_key(key@),
            r is Some ==> r->0@ == old(self)@[key@],
    {
        let (i, found) = self.locate(key);
        let ghost keys0 = self.keys();
        let ghost vals0 = self.values();
        proof {
            lemma_map_of(keys0, vals0);
        }
        if found {
            let mut entries: Vec<(Vec<u8>, V)> = Vec::new();
            proof {
                assert(Seq::new(entries@.len(), |i: int| entries@[i].0@) =~= Seq::<
                    Seq<u8>,
                >::empty());
            }
            core::mem::swap(&mut self.entries, &mut entries);
            let (_, previous) = entries.remove(i);
            let ghost keys1 = Seq::new(entries@.len(), |i: int| entries@[i].0@);
            proof {
                assert(keys1 =~= keys0.remove(i as int));
                assert(ascending(keys1)) by {
                    assert forall|a: int, b: int| 0 <= a < b < keys1.len() implies lex_lt(
                        #[trigger] keys1[a],
                        #[trigger] keys1[b],
                    ) by {
                        let a0 = if a < i { a } else { a + 1 };
                        let b0 = if b < i { b } else { b + 1 };
                        assert(keys1[a] == keys0[a0] && keys1[b] == keys0[b0]);
                    }
                }
            }
            core::mem::swap(&mut self.entries, &mut entries);
            proof {
                let vals1 = self.values();
                assert(self.keys() =~= keys1);
                assert(vals1 =~= vals0.remove(i as int));
                lemma_map_of(keys1, vals1);
                lemma_ascending_distinct(keys0);
                let target = map_of(keys0, vals0).remove(key@);
                assert(self@ =~= target) by {
                    assert forall|k: Seq<u8>| self@.contains_key(k) == target.contains_key(k) by {
                        if keys1.contains(k) {
                            let j = keys1.index_of(k);
                            let j0 = if j < i { j } else { j + 1 };
                            assert(keys0[j0] == k);
                        }
                        if keys0.contains(k) && k != key@ {
                            let j = keys0.index_of(k);
                            if j < i {
                                assert(keys1[j] == k);
                            } else {
                                assert(keys1[j - 1] == k);
                            }
                        }
                    }
                    assert forall|k: Seq<u8>| self@.contains_key(k) implies #[trigger] self@[k]
                        == target[k] by {
                        let j = keys1.index_of(k);
                        assert(keys1[j] == k);
                        let j0 = if j < i { j } else { j + 1 };
                        assert(keys0[j0] == k);
                    }
                }
            }
            Some(previous)
        } else {
            proof {
                assert(self@ =~= old(self)@.remove(key@));
            }
            None
        }
    }
}

/// A value of which a copy with the same view can be made.
pub trait Duplicate: View + Sized {
    /// A copy of the value.
    fn duplicate(&self) -> (r: Self)
        ensures
            r@ == self@,
    ;
}

impl Duplicate for u64 {
    fn duplicate(&self) -> (r: Self) {
        *self
    }
}

impl Duplicate for Vec<u8> {
    fn duplicate(&self) -> (r: Self) {
        crate::bytes::copy_bytes(self.as_slice())
    }
}

/// The map of the first `n + 1` ordered entries is that of the first `n`
/// with the entry at place `n` added.
pub proof fn lemma_map_of_take<W>(keys: Seq<Seq<u8>>, values: Seq<W>, n: int)
    requires
        ascending(keys),
        keys.len() == values.len(),
        0 <= n < keys.len(),
    ensures
        map_of(keys.take(n + 1), values.take(n + 1)) == map_of(keys.take(n), values.take(n)).insert(
            keys[n],
            values[n],
        ),
        !map_of(keys.take(n), values.take(n)).contains_key(keys[n]),
{
    let k0 = keys.take(n);
    let v0 = values.take(n);
    let k1 = keys.take(n + 1);
    let v1 = values.take(n + 1);
    lemma_map_of(k0, v0);
    lemma_map_of(k1, v1);
    lemma_ascending_distinct(keys);
    let target = map_of(k0, v0).insert(keys[n], values[n]);
    assert(!k0.contains(keys[n])) by {
        if k0.contains(keys[n]) {
            let j = k0.index_of(keys[n]);
            assert(keys[j] == keys[n]);
        }
    }
    assert forall|k: Seq<u8>| map_of(k1, v1).contains_key(k) == target.contains_key(k) by {
        if k1.contains(k) {
            let j = k1.index_of(k);
            if j < n {
                assert(k0[j] == k);
            }
        }
        if k0.contains(k) {
            let j = k0.index_of(k);
            assert(k1[j] == k);
        }
        if k == keys[n] {
            assert(k1[n] == k);
        }
    }
    assert forall|k: Seq<u8>| map_of(k1, v1).contains_key(k) implies #[trigger] map_of(k1, v1)[k]
        == target[k] by {
        let j = k1.index_of(k);
        assert(k1[j] == k);
        if j < n {
            assert(k0[j] == k);
        }
    }
    assert(map_of(k1, v1) =~= target);
}

impl<V: Duplicate> KeyMap<V> {
    /// A copy of the map.
    pub fn duplicate(&self) -> (r: Self)
        ensures
            r@ == self@,
            r.keys() == self.keys(),
            r.values() == self.values(),
    {
        proof {
            use_type_invariant(self);
        }
        let mut entries: Vec<(Vec<u8>, V)> = Vec::new();
        let mut i: usize = 0;
        while i < self.entries.len()
            invariant
                i <= self.entries.len(),
                entries@.len() == i,
                forall|j: int| 0 <= j < i ==> (#[trigger] entries@[j]).0@ == self.entries@[j].0@,
                forall|j: int| 0 <= j < i ==> (#[trigger] entries@[j]).1@ == self.entries@[j].1@,
            decreases self.entries.len() - i,
        {
            let key = crate::bytes::copy_bytes(self.entries[i].0.as_slice());
            let value = self.entries[i].1.duplicate();
            entries.push((key, value));
            i += 1;
        }
        proof {
            assert(Seq::new(entries@.len(), |i: int| entries@[i].0@) =~= self.keys());
        }
        let r = KeyMap { entries };
        proof {
            assert(r.keys() =~= self.keys());
            assert(r.values() =~= self.values());
        }
        r
    }

    /// Adds every entry of `other` to the map; where both hold a key, the
    /// value of `other` stays.
    pub fn extend_from(&mut self, other: &Self)
        ensures
            final(self)@ == old(self)@.union_prefer_right(other@),
    {
        let n = other.len();
        let ghost keys = other.keys();
        let ghost values = other.values();
        let mut i: usize = 0;
        proof {
            assert(map_of(keys.take(0), values.take(0)) =~= Map::<Seq<u8>, V::V>::empty());
            assert(self@ =~= old(self)@.union_prefer_right(Map::<Seq<u8>, V::V>::empty()));
        }
        while i < n
            invariant
                i <= n,
                n == keys.len(),
                n == values.len(),
                keys == other.keys(),
                values == other.values(),
                ascending(keys),
                self@ == old(self)@.union_prefer_right(
                    map_of(keys.take(i as int), values.take(i as int)),
                ),
            decreases n - i,
        {
            let key = crate::bytes::copy_bytes(other.key_at(i).as_slice());
            let value = other.value_at(i).duplicate();
            proof {
                lemma_map_of_take(keys, values, i as int);
                let part = map_of(keys.take(i as int), values.take(i as int));
                assert(old(self)@.union_prefer_right(part).insert(key@, value@) =~= old(
                    self,
                )@.union_prefer_right(part.insert(key@, value@)));
            }
            self.insert(key, value);
            i += 1;
        }
        proof {
            assert(keys.take(n as int) =~= keys);
            assert(values.take(n as int) =~= values);
        }
    }
}

} // verus!
