//! What holds of every map, whatever was done to it. Each law is stated over
//! the entries of a map, an ascending sequence, and proved once and for all.

use crate::model::{
    ascending, gather, has_key, lemma_gather_ascending, lemma_present_at_rank,
    lemma_put_all_ascending, lemma_put_ascending, lemma_rank_bounds, lemma_rank_of_present,
    lemma_rank_parts, lemma_without_ascending, lower, put, put_all, rank, upper, value_of,
    without,
};
use crate::order::{
    before, lawful, lemma_flip, lemma_same_reflexive, lemma_same_symmetric,
    lemma_same_transitive, same,
};
use vstd::prelude::*;
use vstd::seq_lib::{group_to_multiset_ensures, to_multiset_contains, to_multiset_len};

verus! {

/// No two entries of a map carry the same key.
pub proof fn law_keys_distinct<K: Ord, V>(s: Seq<(K, V)>, i: int, j: int)
    requires
        lawful::<K>(),
        ascending(s),
        0 <= i < s.len(),
        0 <= j < s.len(),
        i != j,
    ensures
        !same(s[i].0, s[j].0),
{
    if i < j {
        assert(before(s[i].0, s[j].0));
    } else {
        assert(before(s[j].0, s[i].0));
        lemma_flip(s[j].0, s[i].0);
    }
}

/// Of two entries of a map the earlier one has the smaller key.
pub proof fn law_keys_ascend<K: Ord, V>(s: Seq<(K, V)>, i: int, j: int)
    requires
        ascending(s),
        0 <= i < j < s.len(),
    ensures
        before(s[i].0, s[j].0),
{
}

/// A key is found under exactly one index, and `value_of` reads the value
/// there.
pub proof fn law_lookup<K: Ord, V>(s: Seq<(K, V)>, key: K, i: int)
    requires
        lawful::<K>(),
        ascending(s),
        0 <= i < s.len(),
        same(s[i].0, key),
    ensures
        has_key(s, key),
        value_of(s, key) == Some(s[i].1),
        forall|j: int| 0 <= j < s.len() && same(#[trigger] s[j].0, key) ==> j == i,
{
    lemma_rank_of_present(s, key, i);
    assert forall|j: int| 0 <= j < s.len() && same(#[trigger] s[j].0, key) implies j == i by {
        lemma_rank_of_present(s, key, j);
    }
}

/// After a value is stored under a key, looking the key up yields that value.
pub proof fn law_put_then_get<K: Ord, V>(s: Seq<(K, V)>, key: K, value: V)
    requires
        lawful::<K>(),
        ascending(s),
    ensures
        ascending(put(s, key, value)),
        has_key(put(s, key, value), key),
        value_of(put(s, key, value), key) == Some(value),
{
    let t = put(s, key, value);
    let i = rank(s, key);
    lemma_put_ascending(s, key, value);
    lemma_present_at_rank(s, key);
    lemma_rank_bounds(s, key);
    if !has_key(s, key) {
        lemma_same_reflexive(key);
    }
    assert(same(t[i].0, key));
    law_lookup(t, key, i);
}

/// Storing a value under one key changes nothing under any other key.
pub proof fn law_put_keeps_others<K: Ord, V>(s: Seq<(K, V)>, key: K, value: V, other: K)
    requires
        lawful::<K>(),
        ascending(s),
        !same(other, key),
    ensures
        has_key(put(s, key, value), other) <==> has_key(s, other),
        value_of(put(s, key, value), other) == value_of(s, other),
{
    let t = put(s, key, value);
    let i = rank(s, key);
    lemma_put_ascending(s, key, value);
    lemma_present_at_rank(s, key);
    lemma_rank_bounds(s, key);
    if has_key(s, other) {
        let j = choose|j: int| 0 <= j < s.len() && same(#[trigger] s[j].0, other);
        law_lookup(s, other, j);
        if has_key(s, key) {
            if j == i {
                lemma_same_symmetric(s[i].0, other);
                lemma_same_transitive(other, s[i].0, key);
            }
            assert(t[j] == s[j]);
            law_lookup(t, other, j);
        } else {
            let j2 = if j < i {
                j
            } else {
                j + 1
            };
            assert(t[j2] == s[j]);
            law_lookup(t, other, j2);
        }
    } else if has_key(t, other) {
        let j = choose|j: int| 0 <= j < t.len() && same(#[trigger] t[j].0, other);
        if has_key(s, key) {
            if j == i {
                lemma_same_symmetric(s[i].0, other);
                lemma_same_transitive(other, s[i].0, key);
            } else {
                assert(t[j] == s[j]);
            }
        } else {
            if j == i {
                lemma_same_symmetric(key, other);
            } else if j < i {
                assert(t[j] == s[j]);
            } else {
                assert(t[j] == s[j - 1]);
            }
        }
    }
}

/// After a key is removed, looking it up yields nothing, and removing it
/// again changes nothing.
pub proof fn law_remove_then_get<K: Ord, V>(s: Seq<(K, V)>, key: K)
    requires
        lawful::<K>(),
        ascending(s),
    ensures
        ascending(without(s, key)),
        !has_key(without(s, key), key),
        value_of(without(s, key), key).is_none(),
        without(without(s, key), key) == without(s, key),
{
    let t = without(s, key);
    let i = rank(s, key);
    lemma_without_ascending(s, key);
    lemma_present_at_rank(s, key);
    if has_key(s, key) && has_key(t, key) {
        let j = choose|j: int| 0 <= j < t.len() && same(#[trigger] t[j].0, key);
        let j2 = if j < i {
            j
        } else {
            j + 1
        };
        assert(t[j] == s[j2]);
        law_lookup(s, key, i);
    }
}

/// Removing one key changes nothing under any other key.
pub proof fn law_remove_keeps_others<K: Ord, V>(s: Seq<(K, V)>, key: K, other: K)
    requires
        lawful::<K>(),
        ascending(s),
        !same(other, key),
    ensures
        has_key(without(s, key), other) <==> has_key(s, other),
        value_of(without(s, key), other) == value_of(s, other),
{
    let t = without(s, key);
    let i = rank(s, key);
    lemma_without_ascending(s, key);
    lemma_present_at_rank(s, key);
    if has_key(s, key) {
        if has_key(s, other) {
            let j = choose|j: int| 0 <= j < s.len() && same(#[trigger] s[j].0, other);
            law_lookup(s, other, j);
            if j == i {
                lemma_same_symmetric(s[i].0, other);
                lemma_same_transitive(other, s[i].0, key);
            }
            let j2 = if j < i {
                j
            } else {
                j - 1
            };
            assert(t[j2] == s[j]);
            law_lookup(t, other, j2);
        } else if has_key(t, other) {
            let j = choose|j: int| 0 <= j < t.len() && same(#[trigger] t[j].0, other);
            let j2 = if j < i {
                j
            } else {
                j + 1
            };
            assert(t[j] == s[j2]);
        }
    }
}

/// Splitting at a key parts the entries in two: every entry goes to exactly
/// one side, those with keys before the key to the lower one and the others
/// to the upper one, and the two sides laid end to end are the entries as
/// they were.
pub proof fn law_split<K: Ord, V>(s: Seq<(K, V)>, key: K)
    requires
        lawful::<K>(),
        ascending(s),
    ensures
        lower(s, key) + upper(s, key) == s,
        lower(s, key).len() + upper(s, key).len() == s.len(),
        forall|i: int| 0 <= i < lower(s, key).len() ==> before(#[trigger] lower(s, key)[i].0, key),
        forall|i: int|
            0 <= i < upper(s, key).len() ==> !before(#[trigger] upper(s, key)[i].0, key),
{
    lemma_rank_parts(s, key);
    let n = rank(s, key);
    assert(s.take(n) + s.skip(n) =~= s);
    assert forall|i: int| 0 <= i < lower(s, key).len() implies before(
        #[trigger] lower(s, key)[i].0,
        key,
    ) by {
        assert(lower(s, key)[i] == s[i]);
    }
    assert forall|i: int| 0 <= i < upper(s, key).len() implies !before(
        #[trigger] upper(s, key)[i].0,
        key,
    ) by {
        assert(upper(s, key)[i] == s[i + n]);
    }
}

/// No two of `items` carry the same key.
pub open spec fn keys_differ<K: Ord, V>(items: Seq<(K, V)>) -> bool {
    forall|i: int, j: int|
        0 <= i < items.len() && 0 <= j < items.len() && i != j ==> !same(
            #[trigger] items[i].0,
            #[trigger] items[j].0,
        )
}

/// Items that are the entries of a map in some order carry different keys.
proof fn lemma_rearranged_keys_differ<K: Ord, V>(s: Seq<(K, V)>, items: Seq<(K, V)>)
    requires
        lawful::<K>(),
        ascending(s),
        items.to_multiset() == s.to_multiset(),
    ensures
        keys_differ(items),
{
    broadcast use group_to_multiset_ensures;

    assert forall|a: int, b: int| 0 <= a < s.len() && 0 <= b < s.len() && a != b implies s[a]
        != s[b] by {
        law_keys_distinct(s, a, b);
        lemma_same_reflexive(s[a].0);
    }
    s.lemma_multiset_has_no_duplicates();
    items.lemma_multiset_has_no_duplicates_conv();
    assert forall|i: int, j: int|
        0 <= i < items.len() && 0 <= j < items.len() && i != j implies !same(
        #[trigger] items[i].0,
        #[trigger] items[j].0,
    ) by {
        assert(items.contains(items[i]));
        assert(items.contains(items[j]));
        to_multiset_contains(items, items[i]);
        to_multiset_contains(items, items[j]);
        to_multiset_contains(s, items[i]);
        to_multiset_contains(s, items[j]);
        let a = choose|a: int| 0 <= a < s.len() && s[a] == items[i];
        let b = choose|b: int| 0 <= b < s.len() && s[b] == items[j];
        if a != b {
            law_keys_distinct(s, a, b);
        }
    }
}

/// Storing items with different keys in an empty map keeps each of them, and
/// nothing else.
proof fn lemma_put_all_keeps_items<K: Ord, V>(items: Seq<(K, V)>)
    requires
        lawful::<K>(),
        keys_differ(items),
    ensures
        ascending(put_all(Seq::empty(), items)),
        put_all(Seq::empty(), items).to_multiset() == items.to_multiset(),
    decreases items.len(),
{
    broadcast use group_to_multiset_ensures;

    let start = Seq::<(K, V)>::empty();
    lemma_put_all_ascending(start, items);
    if items.len() > 0 {
        let head = items.drop_last();
        let last = items.last();
        let t = put_all(start, head);
        assert forall|i: int, j: int|
            0 <= i < head.len() && 0 <= j < head.len() && i != j implies !same(
            #[trigger] head[i].0,
            #[trigger] head[j].0,
        ) by {
            assert(head[i] == items[i]);
            assert(head[j] == items[j]);
        }
        lemma_put_all_keeps_items(head);
        if has_key(t, last.0) {
            let a = choose|a: int| 0 <= a < t.len() && same(#[trigger] t[a].0, last.0);
            assert(t.contains(t[a]));
            to_multiset_contains(t, t[a]);
            to_multiset_contains(head, t[a]);
            let i = choose|i: int| 0 <= i < head.len() && head[i] == t[a];
            assert(items[i] == head[i]);
            assert(!same(items[i].0, items[items.len() - 1].0));
        }
        lemma_rank_bounds(t, last.0);
        assert(head.push(last) =~= items);
    }
}

/// Two maps with the same entries hold them in the same order.
proof fn lemma_ascending_unique<K: Ord, V>(x: Seq<(K, V)>, y: Seq<(K, V)>)
    requires
        lawful::<K>(),
        ascending(x),
        ascending(y),
        x.to_multiset() == y.to_multiset(),
    ensures
        x == y,
    decreases x.len(),
{
    broadcast use group_to_multiset_ensures;

    to_multiset_len(x);
    to_multiset_len(y);
    if x.len() == 0 {
        assert(x =~= y);
    } else {
        let n = x.len() - 1;
        assert(x.contains(x[n]));
        assert(y.contains(y[n]));
        to_multiset_contains(x, x[n]);
        to_multiset_contains(y, x[n]);
        to_multiset_contains(y, y[n]);
        to_multiset_contains(x, y[n]);
        let j = choose|j: int| 0 <= j < y.len() && y[j] == x[n];
        let i = choose|i: int| 0 <= i < x.len() && x[i] == y[n];
        if j < n {
            assert(before(y[j].0, y[n].0));
            if i < n {
                assert(before(x[i].0, x[n].0));
                lemma_flip(x[i].0, x[n].0);
                lemma_flip(x[n].0, x[i].0);
            } else {
                lemma_same_reflexive(x[n].0);
            }
        }
        assert(x[n] == y[n]);
        assert(x.drop_last() =~= x.remove(n));
        assert(y.drop_last() =~= y.remove(n));
        assert forall|a: int, b: int| 0 <= a < b < x.drop_last().len() implies before(
            #[trigger] x.drop_last()[a].0,
            #[trigger] x.drop_last()[b].0,
        ) by {
            assert(x.drop_last()[a] == x[a] && x.drop_last()[b] == x[b]);
        }
        assert forall|a: int, b: int| 0 <= a < b < y.drop_last().len() implies before(
            #[trigger] y.drop_last()[a].0,
            #[trigger] y.drop_last()[b].0,
        ) by {
            assert(y.drop_last()[a] == y[a] && y.drop_last()[b] == y[b]);
        }
        lemma_ascending_unique(x.drop_last(), y.drop_last());
        assert(x =~= x.drop_last().push(x[n]));
        assert(y =~= y.drop_last().push(y[n]));
    }
}

/// A map comes back as it was when its entries are written out and stored
/// again in an empty map, in whatever order they are read.
pub proof fn law_round_trip<K: Ord, V>(s: Seq<(K, V)>, items: Seq<(K, V)>)
    requires
        lawful::<K>(),
        ascending(s),
        items.to_multiset() == s.to_multiset(),
    ensures
        put_all(Seq::empty(), items) == s,
{
    lemma_rearranged_keys_differ(s, items);
    lemma_put_all_keeps_items(items);
    lemma_ascending_unique(put_all(Seq::empty(), items), s);
}

/// Of the items stored one after another, the last one with a given key is
/// the one whose value the map ends up with.
pub proof fn law_put_all_last_wins<K: Ord, V>(s: Seq<(K, V)>, items: Seq<(K, V)>, i: int)
    requires
        lawful::<K>(),
        ascending(s),
        0 <= i < items.len(),
        forall|j: int| i < j < items.len() ==> !same(#[trigger] items[j].0, items[i].0),
    ensures
        value_of(put_all(s, items), items[i].0) == Some(items[i].1),
    decreases items.len(),
{
    let head = items.drop_last();
    let last = items.last();
    lemma_put_all_ascending(s, head);
    if i == items.len() - 1 {
        law_put_then_get(put_all(s, head), last.0, last.1);
    } else {
        assert(head[i] == items[i]);
        assert forall|j: int| i < j < head.len() implies !same(#[trigger] head[j].0, head[i].0) by {
            assert(head[j] == items[j]);
        }
        law_put_all_last_wins(s, head, i);
        assert(!same(items[items.len() - 1].0, items[i].0));
        if same(items[i].0, last.0) {
            lemma_same_symmetric(items[i].0, last.0);
        }
        law_put_keeps_others(put_all(s, head), last.0, last.1, items[i].0);
    }
}

/// Storing items changes nothing under a key that none of them carries.
pub proof fn law_put_all_keeps_others<K: Ord, V>(s: Seq<(K, V)>, items: Seq<(K, V)>, other: K)
    requires
        lawful::<K>(),
        ascending(s),
        forall|j: int| 0 <= j < items.len() ==> !same(other, #[trigger] items[j].0),
    ensures
        value_of(put_all(s, items), other) == value_of(s, other),
    decreases items.len(),
{
    if items.len() > 0 {
        let head = items.drop_last();
        let last = items.last();
        assert forall|j: int| 0 <= j < head.len() implies !same(other, #[trigger] head[j].0) by {
            assert(head[j] == items[j]);
        }
        law_put_all_keeps_others(s, head, other);
        lemma_put_all_ascending(s, head);
        assert(!same(other, items[items.len() - 1].0));
        law_put_keeps_others(put_all(s, head), last.0, last.1, other);
    }
}

/// A map gathered from items carries exactly the keys that the items carry.
pub proof fn law_gather_keys<K: Ord, V>(items: Seq<(K, V)>, key: K)
    requires
        lawful::<K>(),
    ensures
        has_key(gather(items), key) <==> has_key(items, key),
    decreases items.len(),
{
    if items.len() > 0 {
        let head = items.drop_last();
        let last = items.last();
        let g = gather(head);
        law_gather_keys(head, key);
        law_gather_keys(head, last.0);
        lemma_gather_ascending(head);
        if has_key(head, key) {
            let j = choose|j: int| 0 <= j < head.len() && same(#[trigger] head[j].0, key);
            assert(items[j] == head[j]);
        }
        if has_key(items, key) && !has_key(head, key) {
            let j = choose|j: int| 0 <= j < items.len() && same(#[trigger] items[j].0, key);
            if j < head.len() {
                assert(items[j] == head[j]);
            }
            assert(same(last.0, key));
        }
        if same(last.0, key) {
            assert(same(items[items.len() - 1].0, key));
            if has_key(g, last.0) {
                let a = choose|a: int| 0 <= a < g.len() && same(#[trigger] g[a].0, last.0);
                lemma_same_transitive(g[a].0, last.0, key);
            } else {
                law_put_then_get(g, last.0, last.1);
                let t = put(g, last.0, last.1);
                let a = choose|a: int| 0 <= a < t.len() && same(#[trigger] t[a].0, last.0);
                lemma_same_transitive(t[a].0, last.0, key);
            }
        } else if !has_key(g, last.0) {
            if same(key, last.0) {
                lemma_same_symmetric(key, last.0);
            }
            law_put_keeps_others(g, last.0, last.1, key);
        }
    }
}

/// Of the items a map is gathered from, the first one with a given key is the
/// one whose value the map holds.
pub proof fn law_gather_first_wins<K: Ord, V>(items: Seq<(K, V)>, i: int)
    requires
        lawful::<K>(),
        0 <= i < items.len(),
        forall|j: int| 0 <= j < i ==> !same(#[trigger] items[j].0, items[i].0),
    ensures
        value_of(gather(items), items[i].0) == Some(items[i].1),
    decreases items.len(),
{
    let head = items.drop_last();
    let last = items.last();
    let g = gather(head);
    lemma_gather_ascending(head);
    if i == items.len() - 1 {
        law_gather_keys(head, last.0);
        if has_key(head, last.0) {
            let j = choose|j: int| 0 <= j < head.len() && same(#[trigger] head[j].0, last.0);
            assert(items[j] == head[j]);
        }
        law_put_then_get(g, last.0, last.1);
    } else {
        assert(head[i] == items[i]);
        assert forall|j: int| 0 <= j < i implies !same(#[trigger] head[j].0, head[i].0) by {
            assert(head[j] == items[j]);
        }
        law_gather_first_wins(head, i);
        if !has_key(g, last.0) {
            if same(items[i].0, last.0) {
                let a = rank(g, items[i].0);
                lemma_present_at_rank(g, items[i].0);
                lemma_same_transitive(g[a].0, items[i].0, last.0);
            }
            law_put_keeps_others(g, last.0, last.1, items[i].0);
        }
    }
}

} // verus!
