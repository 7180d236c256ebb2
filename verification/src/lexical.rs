//! The order between maps: entry by entry, keys before values, and a map
//! that runs out first sorts first.

use crate::order::{comparable, stand, standing, Relation};
use vstd::prelude::*;

verus! {

/// How the entries `a` stand to the entries `b`. The first pair of keys or
/// values that differ, or cannot be compared, decides; if there is none, the
/// shorter sequence comes first.
pub open spec fn lexical<K: PartialOrd, V: PartialOrd>(
    a: Seq<(K, V)>,
    b: Seq<(K, V)>,
) -> Option<Relation>
    decreases a.len(),
{
    if a.len() == 0 {
        if b.len() == 0 {
            Some(Relation::Same)
        } else {
            Some(Relation::Before)
        }
    } else if b.len() == 0 {
        Some(Relation::After)
    } else {
        match standing(a[0].0, b[0].0) {
            Some(Relation::Same) => match standing(a[0].1, b[0].1) {
                Some(Relation::Same) => lexical(a.drop_first(), b.drop_first()),
                other => other,
            },
            other => other,
        }
    }
}

/// Compares two vectors of entries as `lexical` says.
pub fn lexical_relate<K: PartialOrd, V: PartialOrd>(a: &Vec<(K, V)>, b: &Vec<(K, V)>) -> (r:
    Option<Relation>)
    ensures
        comparable::<K>() && comparable::<V>() ==> r == lexical(a@, b@),
{
    let mut i: usize = 0;
    proof {
        assert(a@.skip(0) =~= a@);
        assert(b@.skip(0) =~= b@);
    }
    while i < a.len() && i < b.len()
        invariant
            i <= a@.len(),
            i <= b@.len(),
            comparable::<K>() && comparable::<V>() ==> lexical(a@, b@) == lexical(
                a@.skip(i as int),
                b@.skip(i as int),
            ),
        decreases a@.len() - i,
    {
        proof {
            assert(a@.skip(i as int).drop_first() =~= a@.skip(i + 1));
            assert(b@.skip(i as int).drop_first() =~= b@.skip(i + 1));
            assert(a@.skip(i as int)[0] == a@[i as int]);
            assert(b@.skip(i as int)[0] == b@[i as int]);
        }
        match stand(&a[i].0, &b[i].0) {
            Some(Relation::Same) => {},
            other => {
                return other;
            },
        }
        match stand(&a[i].1, &b[i].1) {
            Some(Relation::Same) => {},
            other => {
                return other;
            },
        }
        i = i + 1;
    }
    if i < b.len() {
        Some(Relation::Before)
    } else if i < a.len() {
        Some(Relation::After)
    } else {
        Some(Relation::Same)
    }
}

} // verus!
