//! The total order on keys, as the map sees it.
//!
//! Everything the map promises about its contents is promised for key types
//! whose `Ord` implementation is a total order. The predicates and lemmas here
//! give that order a small vocabulary of its own.

use std::cmp::Ordering;
use vstd::laws_cmp::{
    obeys_cmp, obeys_cmp_ord, obeys_cmp_partial_ord, obeys_partial_cmp_spec_properties,
};
use vstd::laws_eq::obeys_eq_spec_properties;
use vstd::prelude::*;
use vstd::std_specs::cmp::{OrdSpec, PartialEqSpec, PartialOrdSpec};

verus! {

/// `K`'s comparison is a total order and its `cmp` computes it.
pub open spec fn lawful<K: Ord>() -> bool {
    obeys_cmp::<K>()
}

/// `a` sorts strictly before `b`.
pub open spec fn before<K: Ord>(a: K, b: K) -> bool {
    a.cmp_spec(&b) == Ordering::Less
}

/// `a` and `b` are the same key as far as the order can tell.
pub open spec fn same<K: Ord>(a: K, b: K) -> bool {
    a.cmp_spec(&b) == Ordering::Equal
}

/// `a` sorts strictly after `b`.
pub open spec fn after<K: Ord>(a: K, b: K) -> bool {
    a.cmp_spec(&b) == Ordering::Greater
}

/// How one key stands to another.
pub enum Relation {
    Before,
    Same,
    After,
}

/// Compares two keys. For a lawful key type the answer is the one the order
/// gives; for any other it is still one of the three.
pub fn relate<K: Ord>(a: &K, b: &K) -> (r: Relation)
    ensures
        lawful::<K>() ==> match r {
            Relation::Before => before(*a, *b),
            Relation::Same => same(*a, *b),
            Relation::After => after(*a, *b),
        },
{
    proof {
        if lawful::<K>() {
            reveal(obeys_cmp_ord);
        }
    }
    match a.cmp(b) {
        Ordering::Less => Relation::Before,
        Ordering::Equal => Relation::Same,
        Ordering::Greater => Relation::After,
    }
}

/// `a` is before `b` exactly when `b` is after `a`.
pub proof fn lemma_flip<K: Ord>(a: K, b: K)
    requires
        lawful::<K>(),
    ensures
        before(a, b) <==> after(b, a),
{
    reveal(obeys_cmp_ord);
    reveal(obeys_partial_cmp_spec_properties);
    assert(a.partial_cmp_spec(&b) == Some(a.cmp_spec(&b)));
    assert(b.partial_cmp_spec(&a) == Some(b.cmp_spec(&a)));
}

/// `before` is transitive.
pub proof fn lemma_before_transitive<K: Ord>(a: K, b: K, c: K)
    requires
        lawful::<K>(),
        before(a, b),
        before(b, c),
    ensures
        before(a, c),
{
    reveal(obeys_cmp_ord);
    reveal(obeys_partial_cmp_spec_properties);
    assert(a.partial_cmp_spec(&b) == Some(a.cmp_spec(&b)));
    assert(b.partial_cmp_spec(&c) == Some(b.cmp_spec(&c)));
    assert(a.partial_cmp_spec(&c) == Some(a.cmp_spec(&c)));
}

/// `same` is symmetric.
pub proof fn lemma_same_symmetric<K: Ord>(a: K, b: K)
    requires
        lawful::<K>(),
        same(a, b),
    ensures
        same(b, a),
{
    reveal(obeys_cmp_ord);
    reveal(obeys_cmp_partial_ord);
    reveal(obeys_eq_spec_properties);
    assert(a.partial_cmp_spec(&b) == Some(a.cmp_spec(&b)));
    assert(b.partial_cmp_spec(&a) == Some(b.cmp_spec(&a)));
    assert(a.eq_spec(&b));
    assert(b.eq_spec(&a));
}

/// `same` is transitive.
pub proof fn lemma_same_transitive<K: Ord>(a: K, b: K, c: K)
    requires
        lawful::<K>(),
        same(a, b),
        same(b, c),
    ensures
        same(a, c),
{
    reveal(obeys_cmp_ord);
    reveal(obeys_cmp_partial_ord);
    reveal(obeys_eq_spec_properties);
    assert(a.partial_cmp_spec(&b) == Some(a.cmp_spec(&b)));
    assert(b.partial_cmp_spec(&c) == Some(b.cmp_spec(&c)));
    assert(a.partial_cmp_spec(&c) == Some(a.cmp_spec(&c)));
    assert(a.eq_spec(&b));
    assert(b.eq_spec(&c));
    assert(a.eq_spec(&c));
}

/// Every key is the same as itself.
pub proof fn lemma_same_reflexive<K: Ord>(a: K)
    requires
        lawful::<K>(),
    ensures
        same(a, a),
{
    lemma_flip(a, a);
}

/// A key that is the same as one before `c` is itself before `c`.
pub proof fn lemma_same_then_before<K: Ord>(a: K, b: K, c: K)
    requires
        lawful::<K>(),
        same(a, b),
        before(b, c),
    ensures
        before(a, c),
{
    lemma_same_symmetric(a, b);
    if same(a, c) {
        lemma_same_transitive(b, a, c);
    } else if after(a, c) {
        lemma_flip(c, a);
        lemma_before_transitive(b, c, a);
    }
}

/// A key before one that is the same as `c` is itself before `c`.
pub proof fn lemma_before_then_same<K: Ord>(a: K, b: K, c: K)
    requires
        lawful::<K>(),
        before(a, b),
        same(b, c),
    ensures
        before(a, c),
{
    lemma_same_symmetric(b, c);
    if same(a, c) {
        lemma_same_transitive(a, c, b);
    } else if after(a, c) {
        lemma_flip(c, a);
        lemma_same_then_before(b, c, a);
        lemma_flip(b, a);
    }
}

/// How `a` stands to `b` where the two can be compared at all.
pub open spec fn standing<T: PartialOrd>(a: T, b: T) -> Option<Relation> {
    match a.partial_cmp_spec(&b) {
        Some(Ordering::Less) => Some(Relation::Before),
        Some(Ordering::Equal) => Some(Relation::Same),
        Some(Ordering::Greater) => Some(Relation::After),
        None => None,
    }
}

/// `T`'s partial comparison computes what its specification says.
pub open spec fn comparable<T: PartialOrd>() -> bool {
    T::obeys_partial_cmp_spec()
}

/// Compares two values that need not be comparable.
pub fn stand<T: PartialOrd>(a: &T, b: &T) -> (r: Option<Relation>)
    ensures
        comparable::<T>() ==> r == standing(*a, *b),
{
    match a.partial_cmp(b) {
        Some(Ordering::Less) => Some(Relation::Before),
        Some(Ordering::Equal) => Some(Relation::Same),
        Some(Ordering::Greater) => Some(Relation::After),
        None => None,
    }
}

/// The standard ordering that a relation stands for.
pub open spec fn ordering_of(r: Relation) -> Ordering {
    match r {
        Relation::Before => Ordering::Less,
        Relation::Same => Ordering::Equal,
        Relation::After => Ordering::Greater,
    }
}

/// Turns a relation into the standard ordering.
pub fn to_ordering(r: Relation) -> (o: Ordering)
    ensures
        o == ordering_of(r),
{
    match r {
        Relation::Before => Ordering::Less,
        Relation::Same => Ordering::Equal,
        Relation::After => Ordering::Greater,
    }
}

} // verus!
