//! A map that remembers the order in which its keys arrived.
use vstd::prelude::*;
use vstd::std_specs::cmp::PartialEqSpec;

verus! {

/// `==` on `K` tells keys apart exactly.
pub open spec fn exact_keys<K: PartialEq>() -> bool {
    &&& K::obeys_eq_spec()
    &&& forall|a: K, b: K| #[trigger] a.eq_spec(&b) <==> a == b
}

/// The predicate that holds of every value but `key`.
pub open spec fn other_than<K>(key: K) -> spec_fn(K) -> bool {
    |k: K| k != key
}

/// `keys` with every occurrence of `key` left out.
pub open spec fn without<K>(keys: Seq<K>, key: K) -> Seq<K> {
    keys.filter(other_than(key))
}

/// `keys` with `key` at the end, unless it is already there.
pub open spec fn with<K>(keys: Seq<K>, key: K) -> Seq<K> {
    if keys.contains(key) {
        keys
    } else {
        keys.push(key)
    }
}

/// A map from `K` to `V` that keeps its keys in the order in which they were first inserted.
#[derive(Debug)]
pub struct VecMap<K, V> {
    entries: Vec<(K, V)>,
}

impl<K, V> VecMap<K, V> {
    /// The keys, in the order in which they were first inserted.
    pub closed spec fn order(&self) -> Seq<K> {
        Seq::new(self.entries@.len(), |i: int| self.entries@[i].0)
    }

    spec fn position(&self, key: K) -> int {
        self.order().index_of(key)
    }
}

impl<K, V> View for VecMap<K, V> {
    type V = Map<K, V>;

    closed spec fn view(&self) -> Map<K, V> {
        Map::new(
            |k: K| self.order().contains(k),
            |k: K| self.entries@[self.position(k)].1,
        )
    }
}

impl<K: Copy + PartialEq, V> VecMap<K, V> {
    /// No key occurs twice, and keys can be told apart.
    pub closed spec fn wf(&self) -> bool {
        &&& exact_keys::<K>()
        &&& self.order().no_duplicates()
    }

    proof fn lemma_entry(&self, i: int)
        requires
            self.wf(),
            0 <= i < self.entries@.len(),
        ensures
            self.order()[i] == self.entries@[i].0,
            self@.contains_key(self.entries@[i].0),
            self@[self.entries@[i].0] == self.entries@[i].1,
    {
        assert(self.order()[i] == self.entries@[i].0);
        assert(self.order().contains(self.entries@[i].0));
    }

    /// The keys of a map are those that its order lists, each of them once.
    pub proof fn lemma_order(&self)
        requires
            self.wf(),
        ensures
            exact_keys::<K>(),
            self.order().no_duplicates(),
            self@.dom() == self.order().to_set(),
            self@.dom().finite(),
            self@.dom().len() == self.order().len(),
            forall|k: K| #[trigger] self@.contains_key(k) <==> self.order().contains(k),
    {
        assert(self@.dom() =~= self.order().to_set());
        self.order().unique_seq_to_set();
        vstd::seq_lib::seq_to_set_is_finite(self.order());
    }

    /// Makes an empty map.
    pub fn new() -> (r: Self)
        ensures
            exact_keys::<K>() ==> r.wf(),
            r@ == Map::<K, V>::empty(),
            r.order() == Seq::<K>::empty(),
    {
        let r = VecMap { entries: Vec::new() };
        assert(r.order() =~= Seq::<K>::empty());
        assert(r@ =~= Map::<K, V>::empty());
        r
    }

    fn find(&self, key: &K) -> (r: Option<usize>)
        requires
            self.wf(),
        ensures
            match r {
                Some(i) => i < self.entries@.len() && self.entries@[i as int].0 == *key
                    && self@.contains_key(*key) && self@[*key] == self.entries@[i as int].1,
                None => !self@.contains_key(*key),
            },
    {
        let mut i: usize = 0;
        while i < self.entries.len()
            invariant
                self.wf(),
                i <= self.entries@.len(),
                forall|j: int| 0 <= j < i ==> (#[trigger] self.entries@[j]).0 != *key,
            decreases self.entries@.len() - i,
        {
            if self.entries[i].0 == *key {
                proof {
                    self.lemma_entry(i as int);
                }
                return Some(i);
            }
            i += 1;
        }
        assert(!self.order().contains(*key)) by {
            if self.order().contains(*key) {
                let j = self.order().index_of(*key);
                assert(self.entries@[j].0 == *key);
            }
        }
        None
    }

    /// The number of keys.
    pub fn len(&self) -> (r: usize)
        requires
            self.wf(),
        ensures
            r == self.order().len(),
            r == self@.dom().len(),
    {
        proof {
            self.lemma_order();
        }
        self.entries.len()
    }

    /// Whether there is no key.
    pub fn is_empty(&self) -> (r: bool)
        requires
            self.wf(),
        ensures
            r == (self@ == Map::<K, V>::empty()),
            r == (self.order().len() == 0),
    {
        proof {
            self.lemma_order();
            if self.order().len() == 0 {
                assert(self@ =~= Map::<K, V>::empty());
            } else {
                assert(self.order().contains(self.order()[0]));
                assert(self@.contains_key(self.order()[0]));
            }
        }
        self.entries.len() == 0
    }

    /// Whether `key` is in the map.
    pub fn contains_key(&self, key: &K) -> (r: bool)
        requires
            self.wf(),
        ensures
            r == self@.contains_key(*key),
    {
        self.find(key).is_some()
    }

    /// The value of `key`, if the map has one.
    pub fn get(&self, key: &K) -> (r: Option<&V>)
        requires
            self.wf(),
        ensures
            match r {
                Some(v) => self@.contains_key(*key) && *v == self@[*key],
                None => !self@.contains_key(*key),
            },
    {
        match self.find(key) {
            Some(i) => Some(&self.entries[i].1),
            None => None,
        }
    }

    /// The keys in order.
    pub fn keys(&self) -> (r: Vec<K>)
        requires
            self.wf(),
        ensures
            r@ == self.order(),
    {
        let mut r: Vec<K> = Vec::new();
        let mut i: usize = 0;
        while i < self.entries.len()
            invariant
                i <= self.entries@.len(),
                r@.len() == i,
                forall|j: int| 0 <= j < i ==> #[trigger] r@[j] == self.entries@[j].0,
            decreases self.entries@.len() - i,
        {
            r.push(self.entries[i].0);
            i += 1;
        }
        assert(r@ =~= self.order());
        r
    }

    /// The entries in order.
    pub fn iter(&self) -> (r: &Vec<(K, V)>)
        requires
            self.wf(),
        ensures
            r@.len() == self.order().len(),
            forall|i: int|
                0 <= i < r@.len() ==> {
                    &&& (#[trigger] r@[i]).0 == self.order()[i]
                    &&& self@.contains_key(r@[i].0)
                    &&& r@[i].1 == self@[r@[i].0]
                },
    {
        proof {
            assert forall|i: int| 0 <= i < self.entries@.len() implies {
                &&& (#[trigger] self.entries@[i]).0 == self.order()[i]
                &&& self@.contains_key(self.entries@[i].0)
                &&& self.entries@[i].1 == self@[self.entries@[i].0]
            } by {
                self.lemma_entry(i);
            }
        }
        &self.entries
    }

    /// Sets the value of `key` and hands back the value that it had.
    pub fn insert(&mut self, key: K, value: V) -> (r: Option<V>)
        requires
            old(self).wf(),
        ensures
            final(self).wf(),
            final(self)@ == old(self)@.insert(key, value),
            final(self).order() == with(old(self).order(), key),
            r == old(self)@.get(key),
    {
        proof {
            self.lemma_order();
        }
        match self.find(&key) {
            Some(i) => {
                let mut fresh = (key, value);
                std::mem::swap(&mut self.entries[i], &mut fresh);
                proof {
                    assert(self.order() =~= old(self).order());
                    assert forall|k: K| self.order().contains(k) && k != key implies self@[k] == old(
                        self,
                    )@[k] by {
                        assert(self.position(k) == old(self).position(k));
                    }
                    self.lemma_entry(i as int);
                    assert(self@ =~= old(self)@.insert(key, value));
                }
                Some(fresh.1)
            },
            None => {
                self.entries.push((key, value));
                proof {
                    let n = old(self).entries@.len() as int;
                    assert(self.order() =~= old(self).order().push(key));
                    assert forall|k: K| old(self).order().contains(k) implies self@.contains_key(k)
                        && self@[k] == old(self)@[k] by {
                        let i = old(self).position(k);
                        assert(self.entries@[i] == old(self).entries@[i]);
                        self.lemma_entry(i);
                        old(self).lemma_entry(i);
                    }
                    self.lemma_entry(n);
                    assert forall|k: K| self@.contains_key(k) implies k == key || old(
                        self,
                    )@.contains_key(k) by {
                        let i = self.position(k);
                        if i < n {
                            assert(old(self).order()[i] == k);
                        }
                    }
                    assert(self@ =~= old(self)@.insert(key, value));
                }
                None
            },
        }
    }

    /// Takes `key` out and hands back the value that it had.
    pub fn remove(&mut self, key: &K) -> (r: Option<V>)
        requires
            old(self).wf(),
        ensures
            final(self).wf(),
            final(self)@ == old(self)@.remove(*key),
            final(self).order() == without(old(self).order(), *key),
            r == old(self)@.get(*key),
    {
        proof {
            self.lemma_order();
            if !self@.contains_key(*key) {
                lemma_without_absent(self.order(), *key);
                assert(self@ =~= self@.remove(*key));
            }
        }
        match self.find(key) {
            Some(i) => {
                let taken = self.entries.remove(i);
                proof {
                    assert(self.order() =~= old(self).order().remove(i as int));
                    lemma_without_present(old(self).order(), i as int);
                    assert forall|k: K| old(self)@.contains_key(k) && k != *key implies self@.contains_key(
                        k,
                    ) && self@[k] == old(self)@[k] by {
                        let j = old(self).position(k);
                        let j2 = if j < i { j } else { j - 1 };
                        assert(self.entries@[j2] == old(self).entries@[j]);
                        self.lemma_entry(j2);
                        old(self).lemma_entry(j);
                    }
                    assert forall|k: K| self@.contains_key(k) implies k != *key && old(
                        self,
                    )@.contains_key(k) by {
                        let j = self.position(k);
                        let j2 = if j < i { j } else { j + 1 };
                        assert(self.entries@[j] == old(self).entries@[j2]);
                        old(self).lemma_entry(j2);
                        assert(old(self).order()[j2] == k);
                        assert(old(self).order()[i as int] == *key);
                    }
                    assert(self@ =~= old(self)@.remove(*key));
                }
                Some(taken.1)
            },
            None => None,
        }
    }
}

impl<K: Copy + PartialEq, V: Clone> VecMap<K, V> {
    /// A copy of the map, value by value.
    pub fn clone(&self) -> (r: Self)
        requires
            self.wf(),
        ensures
            r.wf(),
            r.order() == self.order(),
            r@.dom() == self@.dom(),
            forall|k: K| #[trigger] self@.contains_key(k) ==> cloned(self@[k], r@[k]),
    {
        let mut entries: Vec<(K, V)> = Vec::new();
        let mut i: usize = 0;
        while i < self.entries.len()
            invariant
                i <= self.entries@.len(),
                entries@.len() == i,
                forall|j: int|
                    0 <= j < i ==> (#[trigger] entries@[j]).0 == self.entries@[j].0 && cloned(
                        self.entries@[j].1,
                        entries@[j].1,
                    ),
            decreases self.entries@.len() - i,
        {
            let entry = &self.entries[i];
            entries.push((entry.0, entry.1.clone()));
            i += 1;
        }
        let r = VecMap { entries };
        proof {
            assert(r.order() =~= self.order());
            assert(r@.dom() =~= self@.dom());
            assert forall|k: K| #[trigger] self@.contains_key(k) implies cloned(self@[k], r@[k]) by {
                let j = self.position(k);
                self.lemma_entry(j);
                r.lemma_entry(j);
            }
        }
        r
    }
}

/// Leaving out a key keeps the others as they are: none occurs more often than before.
pub proof fn lemma_without_keeps<K>(keys: Seq<K>, key: K)
    ensures
        without(keys, key).len() <= keys.len(),
        forall|k: K| #[trigger] without(keys, key).contains(k) <==> keys.contains(k) && k != key,
        keys.no_duplicates() ==> without(keys, key).no_duplicates(),
    decreases keys.len(),
{
    broadcast use {Seq::lemma_filter_contains_rev, Seq::lemma_filter_pred};
    if !keys.contains(key) {
        lemma_without_absent(keys, key);
    } else if keys.no_duplicates() {
        lemma_without_present(keys, keys.index_of(key));
    }
    assert forall|k: K| keys.contains(k) && k != key implies #[trigger] without(keys, key).contains(
        k,
    ) by {
        keys.lemma_filter_contains(other_than(key), keys.index_of(k));
    }
    keys.lemma_filter_len(other_than(key));
    assert forall|k: K| without(keys, key).contains(k) implies keys.contains(k) && k != key by {
        keys.lemma_filter_contains_rev(other_than(key), k);
        keys.lemma_filter_pred(other_than(key), without(keys, key).index_of(k));
    }
}

/// Leaving out a key that is not there changes nothing.
pub proof fn lemma_without_absent<K>(keys: Seq<K>, key: K)
    requires
        !keys.contains(key),
    ensures
        without(keys, key) == keys,
    decreases keys.len(),
{
    reveal(Seq::filter);
    if keys.len() > 0 {
        let rest = keys.drop_last();
        assert(!rest.contains(key)) by {
            if rest.contains(key) {
                assert(keys[rest.index_of(key)] == key);
            }
        }
        lemma_without_absent(rest, key);
        assert(keys.last() != key) by {
            assert(keys[keys.len() - 1] == keys.last());
        }
        assert(rest.push(keys.last()) =~= keys);
    }
}

/// Where no key occurs twice, leaving one out is taking out its place.
pub proof fn lemma_without_present<K>(keys: Seq<K>, i: int)
    requires
        0 <= i < keys.len(),
        keys.no_duplicates(),
    ensures
        without(keys, keys[i]) == keys.remove(i),
        keys.remove(i).no_duplicates(),
    decreases keys.len(),
{
    reveal(Seq::filter);
    let key = keys[i];
    let rest = keys.drop_last();
    if i == keys.len() - 1 {
        assert(!rest.contains(key));
        lemma_without_absent(rest, key);
        assert(keys.remove(i) =~= rest);
    } else {
        lemma_without_present(rest, i);
        assert(rest.remove(i).push(keys.last()) =~= keys.remove(i));
    }
}

/// A part of a list, picked by a predicate, holds what meets the predicate.
pub proof fn lemma_filter<A>(s: Seq<A>, pred: spec_fn(A) -> bool)
    ensures
        forall|x: A| #[trigger] s.filter(pred).contains(x) <==> s.contains(x) && pred(x),
        s.no_duplicates() ==> s.filter(pred).no_duplicates(),
    decreases s.len(),
{
    reveal(Seq::filter);
    if s.len() > 0 {
        let rest = s.drop_last();
        lemma_filter(rest, pred);
        let f = s.filter(pred);
        assert forall|x: A| #[trigger] f.contains(x) <==> s.contains(x) && pred(x) by {
            if f.contains(x) {
                let k = f.index_of(x);
                if k < rest.filter(pred).len() {
                    assert(rest.filter(pred)[k] == x);
                    assert(rest.filter(pred).contains(x));
                    assert(s[rest.index_of(x)] == x);
                } else {
                    assert(s[s.len() - 1] == x);
                }
            }
            if s.contains(x) && pred(x) {
                let k = s.index_of(x);
                if k < rest.len() {
                    assert(rest[k] == x);
                    assert(rest.filter(pred).contains(x));
                    assert(f[rest.filter(pred).index_of(x)] == x);
                } else {
                    assert(f[f.len() - 1] == x);
                }
            }
        }
        if s.no_duplicates() {
            assert(!rest.contains(s.last()));
            assert forall|i: int, j: int| 0 <= i < f.len() && 0 <= j < f.len() && i != j implies f[i]
                != f[j] by {
                let g = rest.filter(pred);
                if i < g.len() {
                    assert(g.contains(g[i]));
                }
                if j < g.len() {
                    assert(g.contains(g[j]));
                }
            }
        }
    }
}

/// A longer part of a list holds one item more of those that meet a predicate, or none.
pub proof fn lemma_filter_step<A>(s: Seq<A>, pred: spec_fn(A) -> bool, i: int)
    requires
        0 <= i < s.len(),
    ensures
        s.take(i + 1).filter(pred) == if pred(s[i]) {
            s.take(i).filter(pred).push(s[i])
        } else {
            s.take(i).filter(pred)
        },
{
    reveal(Seq::filter);
    assert(s.take(i + 1).drop_last() =~= s.take(i));
}

/// A longer part of a list holds one item more.
pub proof fn lemma_take_more<A>(s: Seq<A>, i: int)
    requires
        0 <= i < s.len(),
    ensures
        s.take(i + 1) == s.take(i).push(s[i]),
        forall|x: A| #[trigger] s.take(i + 1).contains(x) <==> s.take(i).contains(x) || x == s[i],
{
    let shorter = s.take(i);
    let longer = shorter.push(s[i]);
    assert(s.take(i + 1) =~= longer);
    assert forall|x: A| #[trigger] longer.contains(x) <==> shorter.contains(x) || x == s[i] by {
        if shorter.contains(x) {
            assert(longer[shorter.index_of(x)] == x);
        }
        assert(longer[i] == s[i]);
        if longer.contains(x) && x != s[i] {
            assert(shorter[longer.index_of(x)] == x);
        }
    }
}

} // verus!
