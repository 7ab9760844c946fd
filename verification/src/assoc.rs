//! A map from identifiers to values that remembers the order in which its keys
//! came.

use vstd::prelude::*;
use vstd::std_specs::cmp::PartialEqSpecImpl;

use crate::ids::{Ident, Twin};

verus! {

/// A map, kept as the list of its entries. Looking a key up finds the first
/// entry with that key.
#[derive(Debug)]
pub struct AssocMap<K, V> {
    entries: Vec<(K, V)>,
}

/// `i` is the first place at which `k` occurs in `keys`.
pub open spec fn first_at<T>(keys: Seq<T>, k: T, i: int) -> bool {
    &&& 0 <= i < keys.len()
    &&& keys[i] == k
    &&& forall|j: int| 0 <= j < i ==> keys[j] != k
}

/// What occurs in a sequence has a first place there.
proof fn lemma_first_exists<T>(keys: Seq<T>, k: T)
    requires
        keys.contains(k),
    ensures
        exists|i: int| first_at(keys, k, i),
    decreases keys.len(),
{
    let n = keys.len() - 1;
    if keys.drop_last().contains(k) {
        lemma_first_exists(keys.drop_last(), k);
        let i = choose|i: int| first_at(keys.drop_last(), k, i);
        assert(forall|j: int| 0 <= j < n ==> keys.drop_last()[j] == keys[j]);
        assert(first_at(keys, k, i));
    } else {
        let i = choose|i: int| 0 <= i < keys.len() && keys[i] == k;
        assert(forall|j: int| 0 <= j < n ==> keys.drop_last()[j] == keys[j]);
        assert(first_at(keys, k, i));
    }
}

impl<K: Ident, V> AssocMap<K, V> {
    /// The keys, in the order in which they were first inserted.
    pub closed spec fn keys(&self) -> Seq<<K as DeepView>::V> {
        Seq::new(self.entries@.len(), |i: int| self.entries@[i].0.deep_view())
    }

    spec fn value_of(&self, k: <K as DeepView>::V) -> V {
        self.entries@[choose|i: int| first_at(self.keys(), k, i)].1
    }
}

impl<K: Ident, V> View for AssocMap<K, V> {
    type V = Map<<K as DeepView>::V, V>;

    closed spec fn view(&self) -> Map<<K as DeepView>::V, V> {
        Map::new(
            |k: <K as DeepView>::V| self.keys().contains(k),
            |k: <K as DeepView>::V| self.value_of(k),
        )
    }
}

impl<K: Ident, V: DeepView> DeepView for AssocMap<K, V> {
    type V = Map<<K as DeepView>::V, <V as DeepView>::V>;

    open spec fn deep_view(&self) -> Map<<K as DeepView>::V, <V as DeepView>::V> {
        self@.map_values(|v: V| v.deep_view())
    }
}

impl<K: Ident, V> AssocMap<K, V> {
    /// The keys of the map are those that its list of keys holds.
    pub proof fn lemma_keys(&self)
        ensures
            forall|k: <K as DeepView>::V| self@.contains_key(k) <==> self.keys().contains(k),
            self@.dom() == self.keys().to_set(),
            self@.dom().finite(),
    {
        assert(self@.dom() =~= self.keys().to_set());
    }

    proof fn lemma_value(&self, k: <K as DeepView>::V, i: int)
        requires
            first_at(self.keys(), k, i),
        ensures
            self@.contains_key(k),
            self@[k] == self.entries@[i].1,
    {
        assert(self.keys().contains(k));
        let j = choose|j: int| first_at(self.keys(), k, j);
        assert(first_at(self.keys(), k, j));
        assert(i == j);
    }

    /// Changing the value of the first entry for `k` changes what the map holds
    /// for `k`, and nothing else.
    proof fn lemma_update(before: Self, after: Self, k: <K as DeepView>::V, i: int)
        requires
            first_at(before.keys(), k, i),
            after.entries@.len() == before.entries@.len(),
            after.entries@[i].0 == before.entries@[i].0,
            forall|j: int|
                0 <= j < before.entries@.len() && j != i ==> #[trigger] after.entries@[j]
                    == before.entries@[j],
        ensures
            after.keys() == before.keys(),
            after@ == before@.insert(k, after.entries@[i].1),
    {
        assert(after.keys() =~= before.keys());
        after.lemma_value(k, i);
        assert forall|x: <K as DeepView>::V| x != k && before.keys().contains(x) implies after@[x]
            == before@[x] by {
            lemma_first_exists(before.keys(), x);
            let j = choose|j: int| first_at(before.keys(), x, j);
            after.lemma_value(x, j);
            before.lemma_value(x, j);
        }
        assert(after@ =~= before@.insert(k, after.entries@[i].1));
    }

    /// An entry for a key that the map lacks adds that key, and nothing else.
    proof fn lemma_push(before: Self, after: Self, k: K, v: V)
        requires
            !before.keys().contains(k.deep_view()),
            after.entries@ == before.entries@.push((k, v)),
        ensures
            after.keys() == before.keys().push(k.deep_view()),
            after@ == before@.insert(k.deep_view(), v),
    {
        assert(after.keys() =~= before.keys().push(k.deep_view()));
        assert forall|x: <K as DeepView>::V| before.keys().contains(x) implies after@[x]
            == before@[x] && after.keys().contains(x) by {
            lemma_first_exists(before.keys(), x);
            let j = choose|j: int| first_at(before.keys(), x, j);
            assert(first_at(after.keys(), x, j));
            after.lemma_value(x, j);
            before.lemma_value(x, j);
        }
        let n = before.entries@.len() as int;
        assert(first_at(after.keys(), k.deep_view(), n));
        after.lemma_value(k.deep_view(), n);
        assert(after@ =~= before@.insert(k.deep_view(), v));
    }

    /// The empty map.
    pub fn new() -> (r: Self)
        ensures
            r@ == Map::<<K as DeepView>::V, V>::empty(),
            r.keys() == Seq::<<K as DeepView>::V>::empty(),
    {
        let r = AssocMap { entries: Vec::new() };
        assert(r.keys() =~= Seq::<<K as DeepView>::V>::empty());
        assert(r@ =~= Map::<<K as DeepView>::V, V>::empty());
        r
    }

    fn find(&self, k: &K) -> (r: Option<usize>)
        ensures
            match r {
                Some(i) => first_at(self.keys(), k.deep_view(), i as int),
                None => !self.keys().contains(k.deep_view()),
            },
    {
        let mut i: usize = 0;
        while i < self.entries.len()
            invariant
                i <= self.entries@.len(),
                forall|j: int| 0 <= j < i ==> self.keys()[j] != k.deep_view(),
            decreases self.entries@.len() - i,
        {
            if self.entries[i].0.same(k) {
                return Some(i);
            }
            i += 1;
        }
        None
    }

    /// The number of entries.
    pub fn len(&self) -> (r: usize)
        ensures
            r == self.keys().len(),
    {
        self.entries.len()
    }

    /// The key of the entry at `i`.
    pub fn key_at(&self, i: usize) -> (r: &K)
        requires
            i < self.keys().len(),
        ensures
            r.deep_view() == self.keys()[i as int],
    {
        &self.entries[i].0
    }

    /// Whether the map has an entry for `k`.
    pub fn contains_key(&self, k: &K) -> (r: bool)
        ensures
            r == self@.contains_key(k.deep_view()),
    {
        self.find(k).is_some()
    }

    /// What the map holds for `k`.
    pub fn get(&self, k: &K) -> (r: Option<&V>)
        ensures
            match r {
                Some(v) => self@.contains_key(k.deep_view()) && *v == self@[k.deep_view()],
                None => !self@.contains_key(k.deep_view()),
            },
    {
        match self.find(k) {
            Some(i) => {
                proof {
                    self.lemma_value(k.deep_view(), i as int);
                }
                Some(&self.entries[i].1)
            },
            None => None,
        }
    }

    /// What the map holds for `k`, to be changed in place.
    pub fn get_mut(&mut self, k: &K) -> (r: Option<&mut V>)
        ensures
            final(self).keys() == old(self).keys(),
            match r {
                Some(v) => {
                    &&& old(self)@.contains_key(k.deep_view())
                    &&& *v == old(self)@[k.deep_view()]
                    &&& final(self)@ == old(self)@.insert(k.deep_view(), *final(v))
                },
                None => !old(self)@.contains_key(k.deep_view()) && final(self)@ == old(self)@,
            },
    {
        match self.find(k) {
            Some(i) => {
                proof {
                    self.lemma_value(k.deep_view(), i as int);
                }
                proof {
                    let before = *self;
                    assert forall|after: Self|
                        after.entries@.len() == before.entries@.len() && after.entries@[i as int].0
                            == before.entries@[i as int].0 && (forall|j: int|
                            0 <= j < before.entries@.len() && j != i
                                ==> #[trigger] after.entries@[j] == before.entries@[j]) implies {
                        &&& #[trigger] after.keys() == before.keys()
                        &&& after@ == before@.insert(k.deep_view(), after.entries@[i as int].1)
                    } by {
                        Self::lemma_update(before, after, k.deep_view(), i as int);
                    }
                }
                Some(&mut self.entries[i].1)
            },
            None => None,
        }
    }

    /// What the map holds for `k`, to be changed in place; `default` first if
    /// the map holds nothing for `k`.
    pub fn get_or_insert(&mut self, k: K, default: V) -> (r: &mut V)
        ensures
            *r == if old(self)@.contains_key(k.deep_view()) {
                old(self)@[k.deep_view()]
            } else {
                default
            },
            final(self)@ == old(self)@.insert(k.deep_view(), *final(r)),
            final(self).keys() == if old(self)@.contains_key(k.deep_view()) {
                old(self).keys()
            } else {
                old(self).keys().push(k.deep_view())
            },
    {
        let ghost id = k.deep_view();
        let ghost start = *self;
        let i: usize = match self.find(&k) {
            Some(i) => i,
            None => {
                let n = self.entries.len();
                self.entries.push((k, default));
                proof {
                    Self::lemma_push(start, *self, k, default);
                }
                n
            },
        };
        proof {
            let before = *self;
            assert(first_at(before.keys(), id, i as int));
            before.lemma_value(id, i as int);
            if start@.contains_key(id) {
                start.lemma_value(id, i as int);
            }
            assert forall|after: Self|
                after.entries@.len() == before.entries@.len() && after.entries@[i as int].0
                    == before.entries@[i as int].0 && (forall|j: int|
                    0 <= j < before.entries@.len() && j != i ==> #[trigger] after.entries@[j]
                        == before.entries@[j]) implies {
                &&& #[trigger] after.keys() == before.keys()
                &&& after@ == start@.insert(id, after.entries@[i as int].1)
            } by {
                Self::lemma_update(before, after, id, i as int);
                assert(after@ =~= start@.insert(id, after.entries@[i as int].1));
            }
        }
        &mut self.entries[i].1
    }

    /// Makes the map hold `v` for `k`.
    pub fn insert(&mut self, k: K, v: V)
        ensures
            final(self)@ == old(self)@.insert(k.deep_view(), v),
            final(self).keys() == if old(self)@.contains_key(k.deep_view()) {
                old(self).keys()
            } else {
                old(self).keys().push(k.deep_view())
            },
    {
        match self.find(&k) {
            Some(i) => {
                self.entries[i].1 = v;
                proof {
                    Self::lemma_update(*old(self), *self, k.deep_view(), i as int);
                }
            },
            None => {
                self.entries.push((k, v));
                proof {
                    Self::lemma_push(*old(self), *self, k, v);
                }
            },
        }
    }
}

impl<K: Ident + Twin, V: Twin> Clone for AssocMap<K, V> {
    fn clone(&self) -> (r: Self)
        ensures
            r.keys() == self.keys(),
            r.deep_view() == self.deep_view(),
    {
        let mut entries: Vec<(K, V)> = Vec::new();
        let mut i: usize = 0;
        while i < self.entries.len()
            invariant
                i <= self.entries@.len(),
                entries@.len() == i,
                forall|j: int|
                    0 <= j < i ==> {
                        &&& (#[trigger] entries@[j]).0.deep_view()
                            == self.entries@[j].0.deep_view()
                        &&& entries@[j].1.deep_view() == self.entries@[j].1.deep_view()
                    },
            decreases self.entries@.len() - i,
        {
            entries.push((self.entries[i].0.twin(), self.entries[i].1.twin()));
            i += 1;
        }
        let r = AssocMap { entries };
        proof {
            assert(r.keys() =~= self.keys());
            assert forall|k: <K as DeepView>::V| self.keys().contains(k) implies r.value_of(
                k,
            ).deep_view() == self.value_of(k).deep_view() by {
                lemma_first_exists(self.keys(), k);
                let j = choose|j: int| first_at(self.keys(), k, j);
                assert(0 <= j < r.entries@.len());
                assert(r.entries@[j].1.deep_view() == self.entries@[j].1.deep_view());
            }
            assert(r.deep_view() =~= self.deep_view());
        }
        r
    }
}

impl<K: Ident, V: Ident> AssocMap<K, V> {
    /// Whether the other map holds all that this map holds.
    fn is_within(&self, other: &Self) -> (r: bool)
        ensures
            r == (forall|k: <K as DeepView>::V| #[trigger]
                self.deep_view().contains_key(k) ==> other.deep_view().contains_key(k)
                    && other.deep_view()[k] == self.deep_view()[k]),
    {
        let mut i: usize = 0;
        while i < self.len()
            invariant
                i <= self.keys().len(),
                forall|j: int|
                    0 <= j < i ==> {
                        &&& other.deep_view().contains_key(#[trigger] self.keys()[j])
                        &&& other.deep_view()[self.keys()[j]] == self.deep_view()[self.keys()[j]]
                    },
            decreases self.keys().len() - i,
        {
            let k = self.key_at(i);
            let ghost id = self.keys()[i as int];
            proof {
                assert(self.keys().contains(id));
                assert(self.deep_view().contains_key(id));
            }
            match (self.get(k), other.get(k)) {
                (Some(v), Some(w)) => {
                    if !v.same(w) {
                        assert(other.deep_view()[id] != self.deep_view()[id]);
                        return false;
                    }
                },
                _ => {
                    assert(!other.deep_view().contains_key(id));
                    return false;
                },
            }
            i += 1;
        }
        assert forall|k: <K as DeepView>::V| #[trigger]
            self.deep_view().contains_key(k) implies other.deep_view().contains_key(k)
            && other.deep_view()[k] == self.deep_view()[k] by {
            assert(self.keys().contains(k));
            let j = choose|j: int| 0 <= j < self.keys().len() && self.keys()[j] == k;
            assert(other.deep_view().contains_key(self.keys()[j]));
        }
        true
    }
}

impl<K: Ident, V: Ident> Ident for AssocMap<K, V> {
    fn same(&self, other: &Self) -> (r: bool) {
        let r = self.is_within(other) && other.is_within(self);
        assert(r ==> self.deep_view() =~= other.deep_view());
        r
    }
}

impl<K: Ident, V: Ident> PartialEq for AssocMap<K, V> {
    fn eq(&self, other: &Self) -> (r: bool) {
        self.same(other)
    }
}

impl<K: Ident, V: Ident> PartialEqSpecImpl for AssocMap<K, V> {
    open spec fn obeys_eq_spec() -> bool {
        true
    }

    open spec fn eq_spec(&self, other: &Self) -> bool {
        self.deep_view() == other.deep_view()
    }
}

/// Inserting into a map and taking views can be exchanged.
pub proof fn lemma_deep_insert<A, V: DeepView>(m: Map<A, V>, k: A, v: V)
    ensures
        m.insert(k, v).map_values(|v: V| v.deep_view()) == m.map_values(
            |v: V| v.deep_view(),
        ).insert(k, v.deep_view()),
{
    assert(m.insert(k, v).map_values(|v: V| v.deep_view()) =~= m.map_values(
        |v: V| v.deep_view(),
    ).insert(k, v.deep_view()));
}

} // verus!
