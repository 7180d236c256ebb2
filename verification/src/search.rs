//! Binary search for a key in a vector of pairs.

use crate::model::{ascending, has_key, lemma_rank_of_absent, lemma_rank_of_present, rank};
use crate::order::{after, before, lawful, lemma_before_transitive, lemma_flip, relate, Relation};
use vstd::prelude::*;

verus! {

/// Looks for `key` by halving. `Ok` carries the index of the entry that holds
/// the key, `Err` the index at which the key would have to be inserted.
///
/// The index is within bounds whatever the comparison does; that it is the
/// key's rank is promised for a lawful order over an ascending vector.
pub fn locate<K: Ord, V>(v: &Vec<(K, V)>, key: &K) -> (r: Result<usize, usize>)
    ensures
        match r {
            Ok(i) => i < v.len(),
            Err(i) => i <= v.len(),
        },
        lawful::<K>() && ascending(v@) ==> match r {
            Ok(i) => has_key(v@, *key) && i == rank(v@, *key),
            Err(i) => !has_key(v@, *key) && i == rank(v@, *key),
        },
{
    let mut lo: usize = 0;
    let mut hi: usize = v.len();
    while lo < hi
        invariant
            lo <= hi <= v.len(),
            lawful::<K>() && ascending(v@) ==> {
                &&& forall|j: int| 0 <= j < lo ==> before(#[trigger] v@[j].0, *key)
                &&& forall|j: int| hi <= j < v.len() ==> after(#[trigger] v@[j].0, *key)
            },
        decreases hi - lo,
    {
        let mid: usize = lo + (hi - lo) / 2;
        match relate(&v[mid].0, key) {
            Relation::Before => {
                proof {
                    if lawful::<K>() && ascending(v@) {
                        assert forall|j: int| 0 <= j < mid + 1 implies before(
                            #[trigger] v@[j].0,
                            *key,
                        ) by {
                            if j < mid {
                                assert(before(v@[j].0, v@[mid as int].0));
                                lemma_before_transitive(v@[j].0, v@[mid as int].0, *key);
                            }
                        }
                    }
                }
                lo = mid + 1;
            },
            Relation::Same => {
                proof {
                    if lawful::<K>() && ascending(v@) {
                        lemma_rank_of_present(v@, *key, mid as int);
                    }
                }
                return Ok(mid);
            },
            Relation::After => {
                proof {
                    if lawful::<K>() && ascending(v@) {
                        assert forall|j: int| mid <= j < v.len() implies after(
                            #[trigger] v@[j].0,
                            *key,
                        ) by {
                            if j > mid {
                                assert(before(v@[mid as int].0, v@[j].0));
                                lemma_flip(*key, v@[mid as int].0);
                                lemma_before_transitive(*key, v@[mid as int].0, v@[j].0);
                                lemma_flip(*key, v@[j].0);
                            }
                        }
                    }
                }
                hi = mid;
            },
        }
    }
    proof {
        if lawful::<K>() && ascending(v@) {
            lemma_rank_of_absent(v@, *key, lo as int);
        }
    }
    Err(lo)
}

} // verus!
