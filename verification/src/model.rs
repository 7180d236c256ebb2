//! The map as mathematics: a sequence of key-value pairs in ascending key
//! order, and what lookup, insertion, removal and splitting mean on it.

use crate::order::{
    after, before, lawful, lemma_before_then_same, lemma_before_transitive, lemma_flip,
    lemma_same_symmetric, same,
};
use vstd::prelude::*;

verus! {

/// Keys strictly ascend along the sequence.
pub open spec fn ascending<K: Ord, V>(s: Seq<(K, V)>) -> bool {
    forall|i: int, j: int| 0 <= i < j < s.len() ==> before(#[trigger] s[i].0, #[trigger] s[j].0)
}

/// Some entry carries `key`.
pub open spec fn has_key<K: Ord, V>(s: Seq<(K, V)>, key: K) -> bool {
    exists|i: int| 0 <= i < s.len() && same(#[trigger] s[i].0, key)
}

/// The number of entries whose key sorts before `key`. In an ascending
/// sequence this is where `key` is, or where it would go.
pub open spec fn rank<K: Ord, V>(s: Seq<(K, V)>, key: K) -> int {
    s.filter(|e: (K, V)| before(e.0, key)).len() as int
}

/// The value stored under `key`, if any.
pub open spec fn value_of<K: Ord, V>(s: Seq<(K, V)>, key: K) -> Option<V> {
    if has_key(s, key) {
        Some(s[rank(s, key)].1)
    } else {
        None
    }
}

/// The sequence after storing `value` under `key`: an entry that is already
/// there keeps its key and takes the new value, otherwise the pair goes in at
/// its sorted place.
pub open spec fn put<K: Ord, V>(s: Seq<(K, V)>, key: K, value: V) -> Seq<(K, V)> {
    let i = rank(s, key);
    if has_key(s, key) {
        s.update(i, (s[i].0, value))
    } else {
        s.insert(i, (key, value))
    }
}

/// The sequence without the entry for `key`.
pub open spec fn without<K: Ord, V>(s: Seq<(K, V)>, key: K) -> Seq<(K, V)> {
    if has_key(s, key) {
        s.remove(rank(s, key))
    } else {
        s
    }
}

/// The entries whose keys sort before `key`.
pub open spec fn lower<K: Ord, V>(s: Seq<(K, V)>, key: K) -> Seq<(K, V)> {
    s.take(rank(s, key))
}

/// The entries whose keys do not sort before `key`.
pub open spec fn upper<K: Ord, V>(s: Seq<(K, V)>, key: K) -> Seq<(K, V)> {
    s.skip(rank(s, key))
}

/// The rank of a key lies within the sequence.
pub proof fn lemma_rank_bounds<K: Ord, V>(s: Seq<(K, V)>, key: K)
    ensures
        0 <= rank(s, key) <= s.len(),
{
    s.lemma_filter_len(|e: (K, V)| before(e.0, key));
}

proof fn lemma_rank_step<K: Ord, V>(s: Seq<(K, V)>, key: K)
    requires
        s.len() > 0,
    ensures
        rank(s, key) == rank(s.drop_last(), key) + if before(s.last().0, key) {
            1int
        } else {
            0int
        },
{
    reveal(Seq::filter);
}

/// An index that parts the keys before `key` from the rest is the rank of
/// `key`.
pub proof fn lemma_rank_at<K: Ord, V>(s: Seq<(K, V)>, key: K, i: int)
    requires
        0 <= i <= s.len(),
        forall|j: int| 0 <= j < i ==> before(#[trigger] s[j].0, key),
        forall|j: int| i <= j < s.len() ==> !before(#[trigger] s[j].0, key),
    ensures
        rank(s, key) == i,
    decreases s.len(),
{
    if s.len() == 0 {
        reveal(Seq::filter);
    } else {
        lemma_rank_step(s, key);
        let t = s.drop_last();
        if i == s.len() {
            assert(before(s[i - 1].0, key));
            assert forall|j: int| 0 <= j < i - 1 implies before(#[trigger] t[j].0, key) by {
                assert(t[j] == s[j]);
            }
            lemma_rank_at(t, key, i - 1);
        } else {
            assert(!before(s[s.len() - 1].0, key));
            assert forall|j: int| 0 <= j < i implies before(#[trigger] t[j].0, key) by {
                assert(t[j] == s[j]);
            }
            assert forall|j: int| i <= j < t.len() implies !before(#[trigger] t[j].0, key) by {
                assert(t[j] == s[j]);
            }
            lemma_rank_at(t, key, i);
        }
    }
}

/// In an ascending sequence the rank of a key parts the keys before it from
/// the rest.
pub proof fn lemma_rank_parts<K: Ord, V>(s: Seq<(K, V)>, key: K)
    requires
        lawful::<K>(),
        ascending(s),
    ensures
        0 <= rank(s, key) <= s.len(),
        forall|j: int| 0 <= j < rank(s, key) ==> before(#[trigger] s[j].0, key),
        forall|j: int| rank(s, key) <= j < s.len() ==> !before(#[trigger] s[j].0, key),
    decreases s.len(),
{
    lemma_rank_bounds(s, key);
    if s.len() > 0 {
        lemma_rank_step(s, key);
        let t = s.drop_last();
        let n = s.len() - 1;
        assert forall|i: int, j: int| 0 <= i < j < t.len() implies before(
            #[trigger] t[i].0,
            #[trigger] t[j].0,
        ) by {
            assert(t[i] == s[i] && t[j] == s[j]);
        }
        lemma_rank_parts(t, key);
        if before(s.last().0, key) {
            assert forall|j: int| 0 <= j < n implies before(#[trigger] t[j].0, key) by {
                assert(t[j] == s[j]);
                assert(before(s[j].0, s[n].0));
                lemma_before_transitive(s[j].0, s[n].0, key);
            }
            lemma_rank_at(t, key, n);
            assert forall|j: int| 0 <= j < rank(s, key) implies before(#[trigger] s[j].0, key) by {
                if j < n {
                    assert(t[j] == s[j]);
                }
            }
        } else {
            assert forall|j: int| 0 <= j < rank(s, key) implies before(#[trigger] s[j].0, key) by {
                assert(t[j] == s[j]);
            }
            assert forall|j: int| rank(s, key) <= j < s.len() implies !before(
                #[trigger] s[j].0,
                key,
            ) by {
                if j < n {
                    assert(t[j] == s[j]);
                }
            }
        }
    }
}

/// In an ascending sequence an entry that carries `key` sits at the rank of
/// `key`.
pub proof fn lemma_rank_of_present<K: Ord, V>(s: Seq<(K, V)>, key: K, i: int)
    requires
        lawful::<K>(),
        ascending(s),
        0 <= i < s.len(),
        same(s[i].0, key),
    ensures
        rank(s, key) == i,
        has_key(s, key),
{
    assert forall|j: int| 0 <= j < i implies before(#[trigger] s[j].0, key) by {
        assert(before(s[j].0, s[i].0));
        lemma_before_then_same(s[j].0, s[i].0, key);
    }
    assert forall|j: int| i <= j < s.len() implies !before(#[trigger] s[j].0, key) by {
        if j > i && before(s[j].0, key) {
            assert(before(s[i].0, s[j].0));
            lemma_same_symmetric(s[i].0, key);
            lemma_before_then_same(s[j].0, key, s[i].0);
            lemma_flip(s[i].0, s[j].0);
        }
    }
    lemma_rank_at(s, key, i);
}

/// In an ascending sequence a key is present exactly when the entry at its
/// rank carries it.
pub proof fn lemma_present_at_rank<K: Ord, V>(s: Seq<(K, V)>, key: K)
    requires
        lawful::<K>(),
        ascending(s),
    ensures
        has_key(s, key) <==> (rank(s, key) < s.len() && same(s[rank(s, key)].0, key)),
{
    lemma_rank_bounds(s, key);
    if has_key(s, key) {
        let i = choose|i: int| 0 <= i < s.len() && same(#[trigger] s[i].0, key);
        lemma_rank_of_present(s, key, i);
    }
}

/// An index with only smaller keys before it and only larger keys from it on
/// is the rank of an absent key.
pub proof fn lemma_rank_of_absent<K: Ord, V>(s: Seq<(K, V)>, key: K, i: int)
    requires
        lawful::<K>(),
        0 <= i <= s.len(),
        forall|j: int| 0 <= j < i ==> before(#[trigger] s[j].0, key),
        forall|j: int| i <= j < s.len() ==> after(#[trigger] s[j].0, key),
    ensures
        rank(s, key) == i,
        !has_key(s, key),
{
    lemma_rank_at(s, key, i);
    if has_key(s, key) {
        let j = choose|j: int| 0 <= j < s.len() && same(#[trigger] s[j].0, key);
        if j < i {
            assert(before(s[j].0, key));
        } else {
            assert(after(s[j].0, key));
        }
    }
}

/// Replacing the value of one entry keeps the keys in order.
pub proof fn lemma_revalue_ascending<K: Ord, V>(s: Seq<(K, V)>, i: int, value: V)
    requires
        ascending(s),
        0 <= i < s.len(),
    ensures
        ascending(s.update(i, (s[i].0, value))),
{
    let t = s.update(i, (s[i].0, value));
    assert forall|a: int, b: int| 0 <= a < b < t.len() implies before(
        #[trigger] t[a].0,
        #[trigger] t[b].0,
    ) by {
        assert(t[a].0 == s[a].0 && t[b].0 == s[b].0);
    }
}

/// Storing a value under a key keeps the keys in order.
pub proof fn lemma_put_ascending<K: Ord, V>(s: Seq<(K, V)>, key: K, value: V)
    requires
        lawful::<K>(),
        ascending(s),
    ensures
        ascending(put(s, key, value)),
{
    let i = rank(s, key);
    lemma_rank_parts(s, key);
    lemma_present_at_rank(s, key);
    if has_key(s, key) {
        lemma_revalue_ascending(s, i, value);
    } else {
        let t = s.insert(i, (key, value));
        assert forall|a: int, b: int| 0 <= a < b < t.len() implies before(
            #[trigger] t[a].0,
            #[trigger] t[b].0,
        ) by {
            if b < i {
                assert(t[a] == s[a] && t[b] == s[b]);
            } else if b == i {
                assert(t[a] == s[a]);
            } else if a == i {
                assert(t[b] == s[b - 1]);
                assert(!before(s[b - 1].0, key));
                assert(!same(s[b - 1].0, key));
                lemma_flip(key, s[b - 1].0);
            } else if a < i {
                assert(t[a] == s[a] && t[b] == s[b - 1]);
            } else {
                assert(t[a] == s[a - 1] && t[b] == s[b - 1]);
            }
        }
    }
}

/// Taking an entry out keeps the keys in order.
pub proof fn lemma_remove_ascending<K: Ord, V>(s: Seq<(K, V)>, i: int)
    requires
        ascending(s),
        0 <= i < s.len(),
    ensures
        ascending(s.remove(i)),
{
    let t = s.remove(i);
    assert forall|a: int, b: int| 0 <= a < b < t.len() implies before(
        #[trigger] t[a].0,
        #[trigger] t[b].0,
    ) by {
        let a0 = if a < i { a } else { a + 1 };
        let b0 = if b < i { b } else { b + 1 };
        assert(t[a] == s[a0] && t[b] == s[b0]);
    }
}

/// Removing a key keeps the keys in order.
pub proof fn lemma_without_ascending<K: Ord, V>(s: Seq<(K, V)>, key: K)
    requires
        lawful::<K>(),
        ascending(s),
    ensures
        ascending(without(s, key)),
{
    lemma_present_at_rank(s, key);
    if has_key(s, key) {
        lemma_remove_ascending(s, rank(s, key));
    }
}

/// Both parts of an ascending sequence ascend.
pub proof fn lemma_parts_ascending<K: Ord, V>(s: Seq<(K, V)>, i: int)
    requires
        ascending(s),
        0 <= i <= s.len(),
    ensures
        ascending(s.take(i)),
        ascending(s.skip(i)),
{
    let lo = s.take(i);
    let hi = s.skip(i);
    assert forall|a: int, b: int| 0 <= a < b < lo.len() implies before(
        #[trigger] lo[a].0,
        #[trigger] lo[b].0,
    ) by {
        assert(lo[a] == s[a] && lo[b] == s[b]);
    }
    assert forall|a: int, b: int| 0 <= a < b < hi.len() implies before(
        #[trigger] hi[a].0,
        #[trigger] hi[b].0,
    ) by {
        assert(hi[a] == s[a + i] && hi[b] == s[b + i]);
    }
}

/// The sequence after storing each of `items` in turn, later items
/// overwriting earlier ones that carry the same key.
pub open spec fn put_all<K: Ord, V>(s: Seq<(K, V)>, items: Seq<(K, V)>) -> Seq<(K, V)>
    decreases items.len(),
{
    if items.len() == 0 {
        s
    } else {
        put(put_all(s, items.drop_last()), items.last().0, items.last().1)
    }
}

/// The sequence after storing `value` under `key` unless the key is already
/// there.
pub open spec fn put_new<K: Ord, V>(s: Seq<(K, V)>, key: K, value: V) -> Seq<(K, V)> {
    if has_key(s, key) {
        s
    } else {
        s.insert(rank(s, key), (key, value))
    }
}

/// The ascending sequence built from `items` in which, of several items with
/// the same key, the first one stays.
pub open spec fn gather<K: Ord, V>(items: Seq<(K, V)>) -> Seq<(K, V)>
    decreases items.len(),
{
    if items.len() == 0 {
        Seq::empty()
    } else {
        put_new(gather(items.drop_last()), items.last().0, items.last().1)
    }
}

/// Storing a value under a key that may be there already keeps the keys in
/// order.
pub proof fn lemma_put_new_ascending<K: Ord, V>(s: Seq<(K, V)>, key: K, value: V)
    requires
        lawful::<K>(),
        ascending(s),
    ensures
        ascending(put_new(s, key, value)),
{
    lemma_put_ascending(s, key, value);
}

/// Storing many items keeps the keys in order.
pub proof fn lemma_put_all_ascending<K: Ord, V>(s: Seq<(K, V)>, items: Seq<(K, V)>)
    requires
        lawful::<K>(),
        ascending(s),
    ensures
        ascending(put_all(s, items)),
    decreases items.len(),
{
    if items.len() > 0 {
        lemma_put_all_ascending(s, items.drop_last());
        lemma_put_ascending(put_all(s, items.drop_last()), items.last().0, items.last().1);
    }
}

/// What is gathered from any items ascends.
pub proof fn lemma_gather_ascending<K: Ord, V>(items: Seq<(K, V)>)
    requires
        lawful::<K>(),
    ensures
        ascending(gather(items)),
    decreases items.len(),
{
    if items.len() > 0 {
        lemma_gather_ascending(items.drop_last());
        lemma_put_new_ascending(gather(items.drop_last()), items.last().0, items.last().1);
    }
}

} // verus!
