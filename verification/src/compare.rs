//! Equality of maps: entry by entry, in order.

use crate::hashing::key_eq;
use crate::map::MiniMap;
use crate::model::Entries;
use vstd::prelude::*;
use vstd::std_specs::cmp::PartialEqSpec;

verus! {

/// Whether `a` and `b` have the same length and, at each position, keys that
/// read the same and values that `==` calls equal.
pub open spec fn entries_eq<V: PartialEq>(a: Entries<V>, b: Entries<V>) -> bool {
    &&& a.len() == b.len()
    &&& forall|i: int|
        0 <= i < a.len() ==> (#[trigger] a[i]).0 == b[i].0 && a[i].1.eq_spec(&b[i].1)
}

/// Whether `==` on values of `V` holds of exactly the identical values.
pub open spec fn eq_is_identity<V: PartialEq>() -> bool {
    forall|a: V, b: V| #[trigger] a.eq_spec(&b) <==> a == b
}

/// Where `==` on the values is identity, two sequences of entries are equal
/// entry by entry exactly when they are the same sequence.
pub proof fn lemma_entries_eq<V: PartialEq>(a: Entries<V>, b: Entries<V>)
    requires
        eq_is_identity::<V>(),
    ensures
        entries_eq(a, b) <==> a == b,
{
    if entries_eq(a, b) {
        assert forall|i: int| 0 <= i < a.len() implies a[i] == b[i] by {
            assert(a[i].0 == b[i].0 && a[i].1.eq_spec(&b[i].1));
        }
        assert(a =~= b);
    }
}

impl<V: PartialEq> MiniMap<V> {
    /// Whether the two maps have equal entries in the same order. Two maps
    /// that hold the same entries in different orders are not equal.
    pub fn eq(&self, other: &Self) -> (same: bool)
        requires
            self.wf(),
            other.wf(),
        ensures
            V::obeys_eq_spec() ==> same == entries_eq(self@, other@),
            V::obeys_eq_spec() && eq_is_identity::<V>() ==> same == (self@ == other@),
    {
        proof {
            if eq_is_identity::<V>() {
                lemma_entries_eq(self@, other@);
            }
        }
        if self.len() != other.len() {
            return false;
        }
        let mut ours = self.iter();
        let mut theirs = other.iter();
        let mut left = ours.next();
        let mut right = theirs.next();
        let ghost mut n: int = 0;
        while left.is_some() && right.is_some()
            invariant
                self@.len() == other@.len(),
                ours.wf(),
                theirs.wf(),
                0 <= n <= self@.len(),
                V::obeys_eq_spec() ==> forall|i: int|
                    0 <= i < n ==> (#[trigger] self@[i]).0 == other@[i].0 && self@[i].1.eq_spec(
                        &other@[i].1,
                    ),
                match left {
                    Some((key, value)) => {
                        &&& n < self@.len()
                        &&& key@ == self@[n].0
                        &&& *value == self@[n].1
                        &&& ours@ == self@.skip(n + 1)
                    },
                    None => n == self@.len(),
                },
                match right {
                    Some((key, value)) => {
                        &&& n < other@.len()
                        &&& key@ == other@[n].0
                        &&& *value == other@[n].1
                        &&& theirs@ == other@.skip(n + 1)
                    },
                    None => n == other@.len(),
                },
            decreases self@.len() - n,
        {
            let (our_key, our_value) = left.unwrap();
            let (their_key, their_value) = right.unwrap();
            if !key_eq(our_key, their_key.as_str()) || !(*our_value == *their_value) {
                return false;
            }
            left = ours.next();
            right = theirs.next();
            proof {
                if n + 1 < self@.len() {
                    assert(self@.skip(n + 1)[0] == self@[n + 1]);
                    assert(self@.skip(n + 1).skip(1) =~= self@.skip(n + 2));
                    assert(other@.skip(n + 1)[0] == other@[n + 1]);
                    assert(other@.skip(n + 1).skip(1) =~= other@.skip(n + 2));
                }
                n = n + 1;
            }
        }
        true
    }
}

} // verus!
