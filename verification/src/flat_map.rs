//! The map and the handles it gives out.

use crate::lexical::{lexical, lexical_relate};
use crate::model::{
    ascending, gather, has_key, lemma_gather_ascending, lemma_parts_ascending,
    lemma_put_ascending, lemma_remove_ascending, lemma_revalue_ascending,
    lemma_without_ascending, lower, put, put_all, rank, upper, value_of, without,
};
use crate::order::{lawful, ordering_of, to_ordering};
use crate::search::locate;
use std::cmp::Ordering;
use std::collections::VecDeque;
use std::mem::swap;
use vstd::prelude::*;
use vstd::std_specs::cmp::{PartialEqSpec, PartialEqSpecImpl, PartialOrdSpec, PartialOrdSpecImpl};

verus! {

/// An ordered map that keeps its entries in one vector, sorted by key.
#[derive(Debug, Eq, Ord, Hash)]
pub struct FlatMap<K, V> {
    v: Vec<(K, V)>,
}

impl<K, V> View for FlatMap<K, V> {
    type V = Seq<(K, V)>;

    /// The entries in the order in which the map holds and yields them.
    closed spec fn view(&self) -> Seq<(K, V)> {
        self.v@
    }
}

impl<K: Clone, V: Clone> Clone for FlatMap<K, V> {
    /// A map with a clone of each entry, in the same order.
    fn clone(&self) -> (r: FlatMap<K, V>)
        ensures
            r@.len() == self@.len(),
            forall|i: int| 0 <= i < self@.len() ==> cloned::<(K, V)>(#[trigger] self@[i], r@[i]),
    {
        FlatMap { v: self.v.clone() }
    }
}

impl<K: PartialEq, V: PartialEq> PartialEq for FlatMap<K, V> {
    /// Two maps are equal when they hold equally many entries and the entries
    /// are equal one by one, keys and values, in key order.
    fn eq(&self, other: &FlatMap<K, V>) -> (r: bool) {
        if self.v.len() != other.v.len() {
            return false;
        }
        let mut i: usize = 0;
        while i < self.v.len()
            invariant
                i <= self.v@.len(),
                self.v@.len() == other.v@.len(),
                K::obeys_eq_spec() && V::obeys_eq_spec() ==> forall|j: int|
                    0 <= j < i ==> (#[trigger] self.v@[j]).0.eq_spec(&other.v@[j].0)
                        && self.v@[j].1.eq_spec(&other.v@[j].1),
            decreases self.v@.len() - i,
        {
            if !(self.v[i].0 == other.v[i].0) {
                return false;
            }
            if !(self.v[i].1 == other.v[i].1) {
                return false;
            }
            i = i + 1;
        }
        true
    }
}

impl<K: PartialEq, V: PartialEq> PartialEqSpecImpl for FlatMap<K, V> {
    open spec fn obeys_eq_spec() -> bool {
        K::obeys_eq_spec() && V::obeys_eq_spec()
    }

    open spec fn eq_spec(&self, other: &FlatMap<K, V>) -> bool {
        &&& self@.len() == other@.len()
        &&& forall|j: int|
            0 <= j < self@.len() ==> (#[trigger] self@[j]).0.eq_spec(&other@[j].0)
                && self@[j].1.eq_spec(&other@[j].1)
    }
}

impl<K: PartialOrd, V: PartialOrd> PartialOrd for FlatMap<K, V> {
    /// Maps are ordered as their entries are, taken in key order.
    fn partial_cmp(&self, other: &FlatMap<K, V>) -> (r: Option<Ordering>) {
        match lexical_relate(&self.v, &other.v) {
            Some(relation) => Some(to_ordering(relation)),
            None => None,
        }
    }
}

impl<K: PartialOrd, V: PartialOrd> PartialOrdSpecImpl for FlatMap<K, V> {
    open spec fn obeys_partial_cmp_spec() -> bool {
        K::obeys_partial_cmp_spec() && V::obeys_partial_cmp_spec()
    }

    open spec fn partial_cmp_spec(&self, other: &FlatMap<K, V>) -> Option<Ordering> {
        match lexical(self@, other@) {
            Some(relation) => Some(ordering_of(relation)),
            None => None,
        }
    }
}

/// `Vec::capacity`: how many elements the vector can hold before it has to
/// allocate again. The elements it holds now are among them, so the number
/// is no less than the length; how much more it is lies with the allocator,
/// and nothing is claimed of that.
#[verifier::external_body]
fn vec_capacity<T>(v: &Vec<T>) -> (r: usize)
    ensures
        r >= v@.len(),
{
    v.capacity()
}

/// `Vec::reserve_exact`: makes room for `additional` more elements. The
/// elements stay as they are.
#[verifier::external_body]
fn vec_reserve_exact<T>(v: &mut Vec<T>, additional: usize)
    ensures
        final(v)@ == old(v)@,
{
    v.reserve_exact(additional)
}

/// `Vec::shrink_to_fit`: gives back room that is not in use. The elements
/// stay as they are.
#[verifier::external_body]
fn vec_shrink_to_fit<T>(v: &mut Vec<T>)
    ensures
        final(v)@ == old(v)@,
{
    v.shrink_to_fit()
}

impl<K, V> FlatMap<K, V> {
    /// An empty map.
    pub fn new() -> (r: FlatMap<K, V>)
        ensures
            r@ == Seq::<(K, V)>::empty(),
    {
        FlatMap { v: Vec::new() }
    }

    /// An empty map with room for `capacity` entries.
    pub fn with_capacity(capacity: usize) -> (r: FlatMap<K, V>)
        ensures
            r@ == Seq::<(K, V)>::empty(),
    {
        FlatMap { v: Vec::with_capacity(capacity) }
    }

    /// The number of entries the map can hold without allocating again: room
    /// for the entries it has, and for as many more as were reserved.
    pub fn capacity(&self) -> (r: usize)
        ensures
            r >= self@.len(),
    {
        vec_capacity(&self.v)
    }

    /// Makes room for at least `additional` more entries.
    pub fn reserve(&mut self, additional: usize)
        ensures
            final(self)@ == old(self)@,
    {
        self.v.reserve(additional)
    }

    /// Makes room for `additional` more entries and no more than needed.
    pub fn reserve_exact(&mut self, additional: usize)
        ensures
            final(self)@ == old(self)@,
    {
        vec_reserve_exact(&mut self.v, additional)
    }

    /// Gives back the room that the entries do not need.
    pub fn shrink_to_fit(&mut self)
        ensures
            final(self)@ == old(self)@,
    {
        vec_shrink_to_fit(&mut self.v)
    }

    /// The number of entries.
    pub fn len(&self) -> (r: usize)
        ensures
            r == self@.len(),
    {
        self.v.len()
    }

    /// Whether the map holds no entry.
    pub fn is_empty(&self) -> (r: bool)
        ensures
            r <==> self@.len() == 0,
    {
        self.v.len() == 0
    }

    /// Drops every entry.
    pub fn clear(&mut self)
        ensures
            final(self)@ == Seq::<(K, V)>::empty(),
    {
        self.v.clear()
    }
}

impl<K: Ord, V> FlatMap<K, V> {
    /// The map's invariant: under a lawful key order the keys strictly
    /// ascend, so no key occurs twice.
    pub open spec fn wf(&self) -> bool {
        lawful::<K>() ==> ascending(self@)
    }

    /// Stores `v` under `key` and returns the value that was there before.
    ///
    /// Whatever the key order does, the map either gains the one pair or has
    /// the value of one entry replaced, and the other entries stay as they
    /// are.
    pub fn insert(&mut self, key: K, v: V) -> (r: Option<V>)
        requires
            old(self).wf(),
        ensures
            final(self).wf(),
            lawful::<K>() ==> final(self)@ == put(old(self)@, key, v),
            lawful::<K>() ==> r == value_of(old(self)@, key),
            match r {
                None => exists|i: int|
                    0 <= i <= old(self)@.len() && final(self)@ == #[trigger] old(self)@.insert(
                        i,
                        (key, v),
                    ),
                Some(x) => exists|i: int|
                    0 <= i < old(self)@.len() && x == old(self)@[i].1 && final(self)@
                        == #[trigger] old(self)@.update(i, (old(self)@[i].0, v)),
            },
    {
        proof {
            if lawful::<K>() {
                lemma_put_ascending(self@, key, v);
            }
        }
        match locate(&self.v, &key) {
            Err(i) => {
                self.v.insert(i, (key, v));
                None
            },
            Ok(i) => {
                let mut v = v;
                swap(&mut self.v[i].1, &mut v);
                Some(v)
            },
        }
    }

    /// The value stored under `q`.
    ///
    /// Whatever the key order does, a value that is returned is the value of
    /// some entry.
    pub fn get(&self, q: &K) -> (r: Option<&V>)
        requires
            self.wf(),
        ensures
            lawful::<K>() ==> match value_of(self@, *q) {
                Some(value) => r == Some(&value),
                None => r.is_none(),
            },
            match r {
                Some(x) => exists|i: int| 0 <= i < self@.len() && *x == (#[trigger] self@[i]).1,
                None => true,
            },
    {
        match locate(&self.v, q) {
            Err(_) => None,
            Ok(idx) => Some(&self.v[idx].1),
        }
    }

    /// Whether some entry carries `k`.
    pub fn contains_key(&self, k: &K) -> (r: bool)
        requires
            self.wf(),
        ensures
            lawful::<K>() ==> (r <==> has_key(self@, *k)),
    {
        self.get(k).is_some()
    }

    /// Removes the entry for `q` and returns its value.
    ///
    /// Whatever the key order does, the map either stays as it is or loses
    /// the one entry whose value is returned.
    pub fn remove(&mut self, q: &K) -> (r: Option<V>)
        requires
            old(self).wf(),
        ensures
            final(self).wf(),
            lawful::<K>() ==> final(self)@ == without(old(self)@, *q),
            lawful::<K>() ==> r == value_of(old(self)@, *q),
            match r {
                None => final(self)@ == old(self)@,
                Some(x) => exists|i: int|
                    0 <= i < old(self)@.len() && x == old(self)@[i].1 && final(self)@
                        == #[trigger] old(self)@.remove(i),
            },
    {
        proof {
            if lawful::<K>() {
                lemma_without_ascending(self@, *q);
            }
        }
        match locate(&self.v, q) {
            Err(_) => None,
            Ok(i) => {
                let (_, value) = self.v.remove(i);
                Some(value)
            },
        }
    }

    /// The value stored under `q`, to be changed in place. Whatever is written
    /// there, the entry keeps its key and its place.
    pub fn get_mut(&mut self, q: &K) -> (r: Option<&mut V>)
        requires
            old(self).wf(),
        ensures
            final(self).wf(),
            lawful::<K>() ==> match r {
                Some(slot) => {
                    let i = rank(old(self)@, *q);
                    &&& has_key(old(self)@, *q)
                    &&& *slot == old(self)@[i].1
                    &&& final(self)@ == old(self)@.update(i, (old(self)@[i].0, *final(slot)))
                },
                None => !has_key(old(self)@, *q) && final(self)@ == old(self)@,
            },
    {
        match locate(&self.v, q) {
            Err(_) => None,
            Ok(idx) => {
                proof {
                    if lawful::<K>() {
                        assert forall|value: V|
                            ascending(
                                #[trigger] self@.update(
                                    idx as int,
                                    (self@[idx as int].0, value),
                                ),
                            ) by {
                            lemma_revalue_ascending(self@, idx as int, value);
                        }
                    }
                }
                Some(&mut self.v[idx].1)
            },
        }
    }
}

/// A place in a map for one key: either the entry that holds it or the gap
/// where it would go.
pub enum Entry<'a, K, V> {
    Vacant(VacantEntry<'a, K, V>),
    Occupied(OccupiedEntry<'a, K, V>),
}

/// The gap in a map where an absent key would go.
pub struct VacantEntry<'a, K, V> {
    /// The map the handle was taken from.
    pub map: &'a mut FlatMap<K, V>,
    /// The key that was looked up.
    pub key: K,
    /// Where the key would go.
    pub index: usize,
}

/// The entry of a map that holds a key.
pub struct OccupiedEntry<'a, K, V> {
    /// The map the handle was taken from.
    pub map: &'a mut FlatMap<K, V>,
    /// Where the entry lies.
    pub index: usize,
}

impl<'a, K: Ord, V> VacantEntry<'a, K, V> {
    /// The gap is within the map, and under a lawful key order it is the
    /// place of a key that the map lacks.
    pub open spec fn wf(&self) -> bool {
        &&& self.index <= self.map@.len()
        &&& lawful::<K>() ==> {
            &&& ascending(self.map@)
            &&& !has_key(self.map@, self.key)
            &&& self.index == rank(self.map@, self.key)
        }
    }

    /// Stores `value` under the key and hands out the place where it now
    /// lies.
    pub fn insert(self, value: V) -> (r: &'a mut V)
        requires
            self.wf(),
        ensures
            *r == value,
            final(self.map)@ == old(self.map)@.insert(
                self.index as int,
                (self.key, *final(r)),
            ),
            final(self.map).wf(),
    {
        proof {
            if lawful::<K>() {
                assert forall|x: V|
                    ascending(#[trigger] self.map@.insert(self.index as int, (self.key, x))) by {
                    lemma_put_ascending(self.map@, self.key, x);
                }
            }
        }
        self.map.v.insert(self.index, (self.key, value));
        &mut self.map.v[self.index].1
    }
}

impl<'a, K: Ord, V> OccupiedEntry<'a, K, V> {
    /// The handle points at an entry of a well-formed map.
    pub open spec fn wf(&self) -> bool {
        &&& self.index < self.map@.len()
        &&& self.map.wf()
    }

    /// The key of the entry.
    pub fn key(&self) -> (r: &K)
        requires
            self.wf(),
        ensures
            *r == old(self.map)@[self.index as int].0,
    {
        &self.map.v[self.index].0
    }

    /// The value of the entry.
    pub fn get(&self) -> (r: &V)
        requires
            self.wf(),
        ensures
            *r == old(self.map)@[self.index as int].1,
    {
        &self.map.v[self.index].1
    }

    /// The value of the entry, to be changed in place while the handle
    /// lives on.
    pub fn get_mut(&mut self) -> (r: &mut V)
        requires
            old(self).wf(),
        ensures
            *r == old(self).map@[old(self).index as int].1,
            final(self).index == old(self).index,
            final(self).map@ == old(self).map@.update(
                old(self).index as int,
                (old(self).map@[old(self).index as int].0, *final(r)),
            ),
            *final(final(self).map) == *final(old(self).map),
            final(self).wf(),
    {
        proof {
            if lawful::<K>() {
                assert forall|x: V|
                    ascending(
                        #[trigger] self.map@.update(
                            self.index as int,
                            (self.map@[self.index as int].0, x),
                        ),
                    ) by {
                    lemma_revalue_ascending(self.map@, self.index as int, x);
                }
            }
        }
        &mut self.map.v[self.index].1
    }

    /// The value of the entry, to be changed in place for as long as the map
    /// is borrowed.
    pub fn into_mut(self) -> (r: &'a mut V)
        requires
            self.wf(),
        ensures
            *r == old(self.map)@[self.index as int].1,
            final(self.map)@ == old(self.map)@.update(
                self.index as int,
                (old(self.map)@[self.index as int].0, *final(r)),
            ),
            final(self.map).wf(),
    {
        proof {
            if lawful::<K>() {
                assert forall|x: V|
                    ascending(
                        #[trigger] self.map@.update(
                            self.index as int,
                            (self.map@[self.index as int].0, x),
                        ),
                    ) by {
                    lemma_revalue_ascending(self.map@, self.index as int, x);
                }
            }
        }
        &mut self.map.v[self.index].1
    }

    /// Puts `value` in the entry and returns the value it held.
    pub fn insert(&mut self, value: V) -> (r: V)
        requires
            old(self).wf(),
        ensures
            r == old(self).map@[old(self).index as int].1,
            final(self).index == old(self).index,
            final(self).map@ == old(self).map@.update(
                old(self).index as int,
                (old(self).map@[old(self).index as int].0, value),
            ),
            *final(final(self).map) == *final(old(self).map),
            final(self).wf(),
    {
        proof {
            if lawful::<K>() {
                lemma_revalue_ascending(self.map@, self.index as int, value);
            }
        }
        let mut value = value;
        swap(&mut self.map.v[self.index].1, &mut value);
        value
    }

    /// Takes the entry out of the map and returns its value.
    pub fn remove(self) -> (r: V)
        requires
            self.wf(),
        ensures
            r == old(self.map)@[self.index as int].1,
            final(self.map)@ == old(self.map)@.remove(self.index as int),
            final(self.map).wf(),
    {
        proof {
            if lawful::<K>() {
                lemma_remove_ascending(self.map@, self.index as int);
            }
        }
        let (_, value) = self.map.v.remove(self.index);
        value
    }
}

impl<'a, K: Ord, V> Entry<'a, K, V> {
    /// The handle, whichever it is, is well-formed.
    pub open spec fn wf(&self) -> bool {
        match self {
            Entry::Vacant(e) => e.wf(),
            Entry::Occupied(e) => e.wf(),
        }
    }

    /// The value under the key, after storing `default` there if the key was
    /// absent.
    pub fn or_insert(self, default: V) -> (r: &'a mut V)
        requires
            self.wf(),
        ensures
            match self {
                Entry::Occupied(e) => {
                    &&& *r == e.map@[e.index as int].1
                    &&& final(e.map)@ == e.map@.update(
                        e.index as int,
                        (e.map@[e.index as int].0, *final(r)),
                    )
                    &&& final(e.map).wf()
                },
                Entry::Vacant(e) => {
                    &&& *r == default
                    &&& final(e.map)@ == e.map@.insert(e.index as int, (e.key, *final(r)))
                    &&& final(e.map).wf()
                },
            },
    {
        match self {
            Entry::Occupied(entry) => entry.into_mut(),
            Entry::Vacant(entry) => entry.insert(default),
        }
    }

    /// The value under the key, after storing what `default` computes if the
    /// key was absent. `default` is called only in that case.
    pub fn or_insert_with<F: FnOnce() -> V>(self, default: F) -> (r: &'a mut V)
        requires
            self.wf(),
            self is Vacant ==> default.requires(()),
        ensures
            match self {
                Entry::Occupied(e) => {
                    &&& *r == e.map@[e.index as int].1
                    &&& final(e.map)@ == e.map@.update(
                        e.index as int,
                        (e.map@[e.index as int].0, *final(r)),
                    )
                    &&& final(e.map).wf()
                },
                Entry::Vacant(e) => {
                    &&& default.ensures((), *r)
                    &&& final(e.map)@ == e.map@.insert(e.index as int, (e.key, *final(r)))
                    &&& final(e.map).wf()
                },
            },
    {
        match self {
            Entry::Occupied(entry) => entry.into_mut(),
            Entry::Vacant(entry) => entry.insert(default()),
        }
    }
}

impl<K: Ord, V> FlatMap<K, V> {
    /// Looks `key` up once and hands out the place that belongs to it: the
    /// entry that holds the key, or the gap at its rank.
    pub fn entry(&mut self, key: K) -> (r: Entry<'_, K, V>)
        requires
            old(self).wf(),
        ensures
            r.wf(),
            match r {
                Entry::Vacant(e) => {
                    &&& e.map@ == old(self)@
                    &&& final(self)@ == final(e.map)@
                    &&& e.key == key
                },
                Entry::Occupied(e) => {
                    &&& e.map@ == old(self)@
                    &&& final(self)@ == final(e.map)@
                    &&& lawful::<K>() ==> e.index == rank(old(self)@, key)
                },
            },
            lawful::<K>() ==> (r is Occupied <==> has_key(old(self)@, key)),
    {
        match locate(&self.v, &key) {
            Err(i) => Entry::Vacant(VacantEntry { map: self, key: key, index: i }),
            Ok(i) => Entry::Occupied(OccupiedEntry { map: self, index: i }),
        }
    }
}

impl<K: Ord, V> FlatMap<K, V> {
    /// Moves the entries whose keys do not sort before `key` into a new map
    /// and keeps the rest.
    pub fn split_off(&mut self, key: &K) -> (r: FlatMap<K, V>)
        requires
            old(self).wf(),
        ensures
            final(self).wf(),
            r.wf(),
            final(self)@ + r@ == old(self)@,
            lawful::<K>() ==> final(self)@ == lower(old(self)@, *key),
            lawful::<K>() ==> r@ == upper(old(self)@, *key),
    {
        let at = match locate(&self.v, key) {
            Ok(i) => i,
            Err(i) => i,
        };
        proof {
            if lawful::<K>() {
                lemma_parts_ascending(self@, at as int);
            }
            assert(self@.subrange(0, at as int) + self@.subrange(at as int, self@.len() as int)
                =~= self@);
        }
        FlatMap { v: self.v.split_off(at) }
    }

    /// Moves every entry of `other` into this map, as `insert` would, and
    /// leaves `other` empty.
    pub fn append(&mut self, other: &mut FlatMap<K, V>)
        requires
            old(self).wf(),
        ensures
            final(self).wf(),
            final(other)@ == Seq::<(K, V)>::empty(),
            lawful::<K>() ==> final(self)@ == put_all(old(self)@, old(other)@),
    {
        self.v.reserve(other.v.len());
        let mut taken: Vec<(K, V)> = Vec::new();
        swap(&mut other.v, &mut taken);
        self.extend(taken);
    }

    /// Stores each of `pairs` in turn, as `insert` would.
    pub fn extend(&mut self, pairs: Vec<(K, V)>)
        requires
            old(self).wf(),
        ensures
            final(self).wf(),
            lawful::<K>() ==> final(self)@ == put_all(old(self)@, pairs@),
    {
        let ghost start = self@;
        for pair in it: pairs.into_iter()
            invariant
                self.wf(),
                lawful::<K>() ==> self@ == put_all(start, pairs@.take(it.index() as int)),
        {
            proof {
                let done = pairs@.take(it.index() as int);
                let more = pairs@.take(it.index() + 1);
                assert(more.drop_last() =~= done);
                assert(more.last() == pair);
            }
            self.insert(pair.0, pair.1);
        }
        proof {
            assert(pairs@.take(pairs@.len() as int) =~= pairs@);
        }
    }

    /// Stores a copy of each entry of `other` in turn, as `insert` would.
    pub fn extend_from(&mut self, other: &FlatMap<K, V>) where K: Copy, V: Copy
        requires
            old(self).wf(),
        ensures
            final(self).wf(),
            lawful::<K>() ==> final(self)@ == put_all(old(self)@, other@),
    {
        let ghost start = self@;
        let mut i: usize = 0;
        while i < other.v.len()
            invariant
                i <= other@.len(),
                self.wf(),
                lawful::<K>() ==> self@ == put_all(start, other@.take(i as int)),
            decreases other@.len() - i,
        {
            proof {
                let done = other@.take(i as int);
                let more = other@.take(i + 1);
                assert(more.drop_last() =~= done);
                assert(more.last() == other@[i as int]);
            }
            let pair = other.v[i];
            self.insert(pair.0, pair.1);
            i = i + 1;
        }
        proof {
            assert(other@.take(other@.len() as int) =~= other@);
        }
    }

    /// Builds a map from `pairs`, which may come in any order. Of several
    /// pairs with the same key the first one stays.
    pub fn from_iter(pairs: Vec<(K, V)>) -> (r: FlatMap<K, V>)
        ensures
            r.wf(),
            lawful::<K>() ==> r@ == gather(pairs@),
    {
        let mut map: FlatMap<K, V> = FlatMap::with_capacity(pairs.len());
        for pair in it: pairs.into_iter()
            invariant
                map.wf(),
                lawful::<K>() ==> map@ == gather(pairs@.take(it.index() as int)),
        {
            proof {
                let done = pairs@.take(it.index() as int);
                let more = pairs@.take(it.index() + 1);
                assert(more.drop_last() =~= done);
                assert(more.last() == pair);
                if lawful::<K>() {
                    lemma_gather_ascending(more);
                }
            }
            match locate(&map.v, &pair.0) {
                Err(i) => {
                    map.v.insert(i, pair);
                },
                Ok(_) => {},
            }
        }
        proof {
            assert(pairs@.take(pairs@.len() as int) =~= pairs@);
        }
        map
    }

    /// The value stored under `key`, which must be present.
    pub fn index(&self, key: &K) -> (r: &V)
        requires
            self.wf(),
            lawful::<K>(),
            has_key(self@, *key),
        ensures
            Some(*r) == value_of(self@, *key),
    {
        match locate(&self.v, key) {
            Ok(i) => &self.v[i].1,
            Err(_) => vstd::pervasive::unreached(),
        }
    }
}

impl<K: Ord, V> Default for FlatMap<K, V> {
    /// An empty map.
    fn default() -> (r: FlatMap<K, V>)
        ensures
            r@ == Seq::<(K, V)>::empty(),
    {
        FlatMap::new()
    }
}

/// A walk over the entries of a map, in key order, from both ends.
pub struct Iter<'a, K, V> {
    v: &'a Vec<(K, V)>,
    front: usize,
    back: usize,
}

impl<'a, K, V> View for Iter<'a, K, V> {
    type V = Seq<(K, V)>;

    /// The entries still to come, in key order.
    closed spec fn view(&self) -> Seq<(K, V)> {
        self.v@.subrange(self.front as int, self.back as int)
    }
}

impl<'a, K, V> Iter<'a, K, V> {
    #[verifier::type_invariant]
    spec fn inv(&self) -> bool {
        self.front <= self.back <= self.v@.len()
    }

    /// The next entry from the front.
    pub fn next(&mut self) -> (r: Option<(&'a K, &'a V)>)
        ensures
            match r {
                Some((k, v)) => {
                    &&& old(self)@.len() > 0
                    &&& (*k, *v) == old(self)@.first()
                    &&& final(self)@ == old(self)@.drop_first()
                },
                None => old(self)@.len() == 0 && final(self)@ == old(self)@,
            },
    {
        proof {
            use_type_invariant(&*self);
        }
        if self.front < self.back {
            let e = &self.v[self.front];
            self.front = self.front + 1;
            proof {
                assert(self@ =~= old(self)@.drop_first());
            }
            Some((&e.0, &e.1))
        } else {
            None
        }
    }

    /// The next entry from the back.
    pub fn next_back(&mut self) -> (r: Option<(&'a K, &'a V)>)
        ensures
            match r {
                Some((k, v)) => {
                    &&& old(self)@.len() > 0
                    &&& (*k, *v) == old(self)@.last()
                    &&& final(self)@ == old(self)@.drop_last()
                },
                None => old(self)@.len() == 0 && final(self)@ == old(self)@,
            },
    {
        proof {
            use_type_invariant(&*self);
        }
        if self.front < self.back {
            self.back = self.back - 1;
            let e = &self.v[self.back];
            proof {
                assert(self@ =~= old(self)@.drop_last());
            }
            Some((&e.0, &e.1))
        } else {
            None
        }
    }

    /// The number of entries still to come.
    pub fn len(&self) -> (r: usize)
        ensures
            r == self@.len(),
    {
        proof {
            use_type_invariant(self);
        }
        self.back - self.front
    }

    /// The number of entries still to come, as a lower and an upper bound
    /// that agree.
    pub fn size_hint(&self) -> (r: (usize, Option<usize>))
        ensures
            r.0 == self@.len(),
            r.1 == Some(r.0),
    {
        let n = self.len();
        (n, Some(n))
    }

    /// Walks to the end and counts the entries on the way.
    pub fn count(self) -> (r: usize)
        ensures
            r == self@.len(),
    {
        let mut it = self;
        let mut n: usize = 0;
        proof {
            use_type_invariant(&it);
        }
        while it.len() > 0
            invariant
                n + it@.len() == self@.len(),
                self@.len() <= usize::MAX,
            decreases it@.len(),
        {
            let _ = it.next();
            n = n + 1;
        }
        n
    }
}

impl<'a, K, V> Clone for Iter<'a, K, V> {
    fn clone(&self) -> (r: Iter<'a, K, V>)
        ensures
            r@ == self@,
    {
        proof {
            use_type_invariant(self);
        }
        Iter { v: self.v, front: self.front, back: self.back }
    }
}

/// A walk over the keys of a map, in order, from both ends.
pub struct Keys<'a, K, V> {
    inner: Iter<'a, K, V>,
}

impl<'a, K, V> View for Keys<'a, K, V> {
    type V = Seq<K>;

    /// The keys still to come, in order.
    closed spec fn view(&self) -> Seq<K> {
        self.inner@.map_values(|e: (K, V)| e.0)
    }
}

impl<'a, K, V> Keys<'a, K, V> {
    /// The next key from the front.
    pub fn next(&mut self) -> (r: Option<&'a K>)
        ensures
            match r {
                Some(k) => {
                    &&& old(self)@.len() > 0
                    &&& *k == old(self)@.first()
                    &&& final(self)@ == old(self)@.drop_first()
                },
                None => old(self)@.len() == 0 && final(self)@ == old(self)@,
            },
    {
        match self.inner.next() {
            Some((k, _)) => {
                proof {
                    assert(self@ =~= old(self)@.drop_first());
                }
                Some(k)
            },
            None => None,
        }
    }

    /// The next key from the back.
    pub fn next_back(&mut self) -> (r: Option<&'a K>)
        ensures
            match r {
                Some(k) => {
                    &&& old(self)@.len() > 0
                    &&& *k == old(self)@.last()
                    &&& final(self)@ == old(self)@.drop_last()
                },
                None => old(self)@.len() == 0 && final(self)@ == old(self)@,
            },
    {
        match self.inner.next_back() {
            Some((k, _)) => {
                proof {
                    assert(self@ =~= old(self)@.drop_last());
                }
                Some(k)
            },
            None => None,
        }
    }

    /// The number of keys still to come.
    pub fn len(&self) -> (r: usize)
        ensures
            r == self@.len(),
    {
        self.inner.len()
    }

    /// The number of keys still to come, as a lower and an upper bound that
    /// agree.
    pub fn size_hint(&self) -> (r: (usize, Option<usize>))
        ensures
            r.0 == self@.len(),
            r.1 == Some(r.0),
    {
        self.inner.size_hint()
    }
}

impl<'a, K, V> Clone for Keys<'a, K, V> {
    fn clone(&self) -> (r: Keys<'a, K, V>)
        ensures
            r@ == self@,
    {
        Keys { inner: self.inner.clone() }
    }
}

/// A walk over the values of a map, in key order, from both ends.
pub struct Values<'a, K, V> {
    inner: Iter<'a, K, V>,
}

impl<'a, K, V> View for Values<'a, K, V> {
    type V = Seq<V>;

    /// The values still to come, in key order.
    closed spec fn view(&self) -> Seq<V> {
        self.inner@.map_values(|e: (K, V)| e.1)
    }
}

impl<'a, K, V> Values<'a, K, V> {
    /// The next value from the front.
    pub fn next(&mut self) -> (r: Option<&'a V>)
        ensures
            match r {
                Some(v) => {
                    &&& old(self)@.len() > 0
                    &&& *v == old(self)@.first()
                    &&& final(self)@ == old(self)@.drop_first()
                },
                None => old(self)@.len() == 0 && final(self)@ == old(self)@,
            },
    {
        match self.inner.next() {
            Some((_, v)) => {
                proof {
                    assert(self@ =~= old(self)@.drop_first());
                }
                Some(v)
            },
            None => None,
        }
    }

    /// The next value from the back.
    pub fn next_back(&mut self) -> (r: Option<&'a V>)
        ensures
            match r {
                Some(v) => {
                    &&& old(self)@.len() > 0
                    &&& *v == old(self)@.last()
                    &&& final(self)@ == old(self)@.drop_last()
                },
                None => old(self)@.len() == 0 && final(self)@ == old(self)@,
            },
    {
        match self.inner.next_back() {
            Some((_, v)) => {
                proof {
                    assert(self@ =~= old(self)@.drop_last());
                }
                Some(v)
            },
            None => None,
        }
    }

    /// The number of values still to come.
    pub fn len(&self) -> (r: usize)
        ensures
            r == self@.len(),
    {
        self.inner.len()
    }

    /// The number of values still to come, as a lower and an upper bound
    /// that agree.
    pub fn size_hint(&self) -> (r: (usize, Option<usize>))
        ensures
            r.0 == self@.len(),
            r.1 == Some(r.0),
    {
        self.inner.size_hint()
    }
}

impl<'a, K, V> Clone for Values<'a, K, V> {
    fn clone(&self) -> (r: Values<'a, K, V>)
        ensures
            r@ == self@,
    {
        Values { inner: self.inner.clone() }
    }
}

/// A walk that takes the entries out of a map, in key order, from both ends.
pub struct IntoIter<K, V> {
    inner: VecDeque<(K, V)>,
}

impl<K, V> View for IntoIter<K, V> {
    type V = Seq<(K, V)>;

    /// The entries still to come, in key order.
    closed spec fn view(&self) -> Seq<(K, V)> {
        self.inner@
    }
}

impl<K, V> IntoIter<K, V> {
    /// The next entry from the front.
    pub fn next(&mut self) -> (r: Option<(K, V)>)
        ensures
            match r {
                Some(e) => {
                    &&& old(self)@.len() > 0
                    &&& e == old(self)@.first()
                    &&& final(self)@ == old(self)@.drop_first()
                },
                None => old(self)@.len() == 0 && final(self)@ == old(self)@,
            },
    {
        self.inner.pop_front()
    }

    /// The next entry from the back.
    pub fn next_back(&mut self) -> (r: Option<(K, V)>)
        ensures
            match r {
                Some(e) => {
                    &&& old(self)@.len() > 0
                    &&& e == old(self)@.last()
                    &&& final(self)@ == old(self)@.drop_last()
                },
                None => old(self)@.len() == 0 && final(self)@ == old(self)@,
            },
    {
        self.inner.pop_back()
    }

    /// The number of entries still to come.
    pub fn len(&self) -> (r: usize)
        ensures
            r == self@.len(),
    {
        self.inner.len()
    }

    /// The number of entries still to come, as a lower and an upper bound
    /// that agree.
    pub fn size_hint(&self) -> (r: (usize, Option<usize>))
        ensures
            r.0 == self@.len(),
            r.1 == Some(r.0),
    {
        let n = self.inner.len();
        (n, Some(n))
    }
}

impl<K, V> FlatMap<K, V> {
    /// A walk over the entries in key order.
    pub fn iter<'r>(&'r self) -> (r: Iter<'r, K, V>)
        ensures
            r@ == self@,
    {
        proof {
            assert(self.v@.subrange(0, self.v@.len() as int) =~= self.v@);
        }
        Iter { v: &self.v, front: 0, back: self.v.len() }
    }

    /// A walk over the keys in order.
    pub fn keys<'a>(&'a self) -> (r: Keys<'a, K, V>)
        ensures
            r@ == self@.map_values(|e: (K, V)| e.0),
    {
        Keys { inner: self.iter() }
    }

    /// A walk over the values in key order.
    pub fn values<'a>(&'a self) -> (r: Values<'a, K, V>)
        ensures
            r@ == self@.map_values(|e: (K, V)| e.1),
    {
        Values { inner: self.iter() }
    }

    /// A walk that takes the entries out of the map in key order.
    pub fn into_iter(self) -> (r: IntoIter<K, V>)
        ensures
            r@ == self@,
    {
        let mut v = self.v;
        let mut inner: VecDeque<(K, V)> = VecDeque::with_capacity(v.len());
        while v.len() > 0
            invariant
                v@ + inner@ == self@,
            decreases v@.len(),
        {
            match v.pop() {
                Some(e) => {
                    inner.push_front(e);
                    proof {
                        assert(v@ + inner@ =~= self@);
                    }
                },
                None => {},
            }
        }
        proof {
            assert(inner@ =~= self@);
        }
        IntoIter { inner }
    }
}

/// A walk over the entries of a map, in key order and from both ends, that
/// lets each value be changed in place.
pub struct IterMut<'a, K, V> {
    /// The map being walked.
    pub map: &'a mut FlatMap<K, V>,
    /// The index of the next entry from the front.
    pub front: usize,
    /// The index after the next entry from the back.
    pub back: usize,
}

impl<'a, K: Ord, V> IterMut<'a, K, V> {
    /// The walk lies within a well-formed map.
    pub open spec fn wf(&self) -> bool {
        &&& self.front <= self.back <= self.map@.len()
        &&& self.map.wf()
    }

    /// The entries still to come, in key order.
    pub open spec fn rest(&self) -> Seq<(K, V)> {
        self.map@.subrange(self.front as int, self.back as int)
    }

    /// The next entry from the front: its key, and its value to be changed in
    /// place.
    pub fn next(&mut self) -> (r: Option<(&K, &mut V)>)
        requires
            old(self).wf(),
        ensures
            match r {
                Some((k, v)) => {
                    &&& old(self).front < old(self).back
                    &&& (*k, *v) == old(self).map@[old(self).front as int]
                    &&& final(self).front == old(self).front + 1
                    &&& final(self).back == old(self).back
                    &&& final(self).map@ == old(self).map@.update(
                        old(self).front as int,
                        (*k, *final(v)),
                    )
                },
                None => {
                    &&& old(self).front == old(self).back
                    &&& final(self).front == old(self).front
                    &&& final(self).back == old(self).back
                    &&& final(self).map@ == old(self).map@
                },
            },
            *final(final(self).map) == *final(old(self).map),
            final(self).wf(),
    {
        if self.front < self.back {
            let i = self.front;
            proof {
                if lawful::<K>() {
                    assert forall|x: V|
                        ascending(
                            #[trigger] self.map@.update(i as int, (self.map@[i as int].0, x)),
                        ) by {
                        lemma_revalue_ascending(self.map@, i as int, x);
                    }
                }
            }
            self.front = i + 1;
            let e = &mut self.map.v[i];
            Some((&e.0, &mut e.1))
        } else {
            None
        }
    }

    /// The next entry from the back: its key, and its value to be changed in
    /// place.
    pub fn next_back(&mut self) -> (r: Option<(&K, &mut V)>)
        requires
            old(self).wf(),
        ensures
            match r {
                Some((k, v)) => {
                    &&& old(self).front < old(self).back
                    &&& (*k, *v) == old(self).map@[old(self).back - 1]
                    &&& final(self).front == old(self).front
                    &&& final(self).back == old(self).back - 1
                    &&& final(self).map@ == old(self).map@.update(
                        old(self).back - 1,
                        (*k, *final(v)),
                    )
                },
                None => {
                    &&& old(self).front == old(self).back
                    &&& final(self).front == old(self).front
                    &&& final(self).back == old(self).back
                    &&& final(self).map@ == old(self).map@
                },
            },
            *final(final(self).map) == *final(old(self).map),
            final(self).wf(),
    {
        if self.front < self.back {
            let i = self.back - 1;
            proof {
                if lawful::<K>() {
                    assert forall|x: V|
                        ascending(
                            #[trigger] self.map@.update(i as int, (self.map@[i as int].0, x)),
                        ) by {
                        lemma_revalue_ascending(self.map@, i as int, x);
                    }
                }
            }
            self.back = i;
            let e = &mut self.map.v[i];
            Some((&e.0, &mut e.1))
        } else {
            None
        }
    }

    /// The number of entries still to come.
    pub fn len(&self) -> (r: usize)
        requires
            self.wf(),
        ensures
            r == self.rest().len(),
    {
        self.back - self.front
    }

    /// The number of entries still to come, as a lower and an upper bound
    /// that agree.
    pub fn size_hint(&self) -> (r: (usize, Option<usize>))
        requires
            self.wf(),
        ensures
            r.0 == self.rest().len(),
            r.1 == Some(r.0),
    {
        let n = self.len();
        (n, Some(n))
    }
}

/// A walk over the values of a map, in key order and from both ends, that
/// lets each value be changed in place.
pub struct ValuesMut<'a, K, V> {
    /// The walk over the entries that this one rests on.
    pub inner: IterMut<'a, K, V>,
}

impl<'a, K: Ord, V> ValuesMut<'a, K, V> {
    /// The walk lies within a well-formed map.
    pub open spec fn wf(&self) -> bool {
        self.inner.wf()
    }

    /// The values still to come, in key order.
    pub open spec fn rest(&self) -> Seq<V> {
        self.inner.rest().map_values(|e: (K, V)| e.1)
    }

    /// The next value from the front, to be changed in place.
    pub fn next(&mut self) -> (r: Option<&mut V>)
        requires
            old(self).wf(),
        ensures
            match r {
                Some(v) => {
                    &&& old(self).inner.front < old(self).inner.back
                    &&& *v == old(self).inner.map@[old(self).inner.front as int].1
                    &&& final(self).inner.front == old(self).inner.front + 1
                    &&& final(self).inner.back == old(self).inner.back
                    &&& final(self).inner.map@ == old(self).inner.map@.update(
                        old(self).inner.front as int,
                        (old(self).inner.map@[old(self).inner.front as int].0, *final(v)),
                    )
                },
                None => {
                    &&& old(self).inner.front == old(self).inner.back
                    &&& final(self).inner.front == old(self).inner.front
                    &&& final(self).inner.back == old(self).inner.back
                    &&& final(self).inner.map@ == old(self).inner.map@
                },
            },
            *final(final(self).inner.map) == *final(old(self).inner.map),
            final(self).wf(),
    {
        match self.inner.next() {
            Some((_, v)) => Some(v),
            None => None,
        }
    }

    /// The next value from the back, to be changed in place.
    pub fn next_back(&mut self) -> (r: Option<&mut V>)
        requires
            old(self).wf(),
        ensures
            match r {
                Some(v) => {
                    &&& old(self).inner.front < old(self).inner.back
                    &&& *v == old(self).inner.map@[old(self).inner.back - 1].1
                    &&& final(self).inner.front == old(self).inner.front
                    &&& final(self).inner.back == old(self).inner.back - 1
                    &&& final(self).inner.map@ == old(self).inner.map@.update(
                        old(self).inner.back - 1,
                        (old(self).inner.map@[old(self).inner.back - 1].0, *final(v)),
                    )
                },
                None => {
                    &&& old(self).inner.front == old(self).inner.back
                    &&& final(self).inner.front == old(self).inner.front
                    &&& final(self).inner.back == old(self).inner.back
                    &&& final(self).inner.map@ == old(self).inner.map@
                },
            },
            *final(final(self).inner.map) == *final(old(self).inner.map),
            final(self).wf(),
    {
        match self.inner.next_back() {
            Some((_, v)) => Some(v),
            None => None,
        }
    }

    /// The number of values still to come, as a lower and an upper bound
    /// that agree.
    pub fn size_hint(&self) -> (r: (usize, Option<usize>))
        requires
            self.wf(),
        ensures
            r.0 == self.rest().len(),
            r.1 == Some(r.0),
    {
        self.inner.size_hint()
    }

    /// The number of values still to come.
    pub fn len(&self) -> (r: usize)
        requires
            self.wf(),
        ensures
            r == self.rest().len(),
    {
        self.inner.len()
    }
}

impl<K: Ord, V> FlatMap<K, V> {
    /// A walk over the entries in key order that lets each value be changed
    /// in place. The map ends up as the walk leaves it.
    pub fn iter_mut(&mut self) -> (r: IterMut<'_, K, V>)
        requires
            old(self).wf(),
        ensures
            r.wf(),
            r.map@ == old(self)@,
            r.front == 0,
            r.back == old(self)@.len(),
            final(self)@ == final(r.map)@,
    {
        let n = self.v.len();
        IterMut { map: self, front: 0, back: n }
    }

    /// A walk over the values in key order that lets each be changed in
    /// place. The map ends up as the walk leaves it.
    pub fn values_mut(&mut self) -> (r: ValuesMut<'_, K, V>)
        requires
            old(self).wf(),
        ensures
            r.wf(),
            r.inner.map@ == old(self)@,
            r.inner.front == 0,
            r.inner.back == old(self)@.len(),
            final(self)@ == final(r.inner.map)@,
    {
        ValuesMut { inner: self.iter_mut() }
    }
}

} // verus!
