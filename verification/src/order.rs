//! The order of maps: that of their entries, compared one by one from the
//! front.

use crate::map::MiniMap;
use crate::model::Entries;
use core::cmp::Ordering;
use vstd::prelude::*;
use vstd::std_specs::cmp::{OrdSpec, PartialOrdSpec};

verus! {

/// The order of two character sequences: that of the first characters in
/// which they differ, and the shorter first where one begins the other.
pub open spec fn chars_order(a: Seq<char>, b: Seq<char>) -> Ordering
    decreases a.len(),
{
    if a.len() == 0 {
        if b.len() == 0 {
            Ordering::Equal
        } else {
            Ordering::Less
        }
    } else if b.len() == 0 {
        Ordering::Greater
    } else if a[0] < b[0] {
        Ordering::Less
    } else if a[0] > b[0] {
        Ordering::Greater
    } else {
        chars_order(a.skip(1), b.skip(1))
    }
}

/// The order of two strings, as `str`'s `cmp` decides it: by the code points
/// of their characters, from the front.
#[verifier::external_body]
fn key_order(a: &str, b: &str) -> (order: Ordering)
    ensures
        order == chars_order(a@, b@),
{
    a.cmp(b)
}

/// The order of two entries: that of their keys, and that of their values
/// where the keys are the same.
pub open spec fn entry_order<V: PartialOrd>(a: (Seq<char>, V), b: (Seq<char>, V)) -> Option<
    Ordering,
> {
    match chars_order(a.0, b.0) {
        Ordering::Equal => a.1.partial_cmp_spec(&b.1),
        Ordering::Less => Some(Ordering::Less),
        Ordering::Greater => Some(Ordering::Greater),
    }
}

/// The order of two sequences of entries: that of the first entries in which
/// they differ, and the shorter first where one begins the other.
pub open spec fn entries_order<V: PartialOrd>(a: Entries<V>, b: Entries<V>) -> Option<Ordering>
    decreases a.len(),
{
    if a.len() == 0 {
        if b.len() == 0 {
            Some(Ordering::Equal)
        } else {
            Some(Ordering::Less)
        }
    } else if b.len() == 0 {
        Some(Ordering::Greater)
    } else {
        match entry_order(a[0], b[0]) {
            Some(Ordering::Equal) => entries_order(a.skip(1), b.skip(1)),
            other => other,
        }
    }
}

/// Entries that are equal at the front do not decide the order.
pub proof fn lemma_order_skips_equal<V: PartialOrd>(a: Entries<V>, b: Entries<V>, n: int)
    requires
        0 <= n <= a.len(),
        n <= b.len(),
        forall|i: int| 0 <= i < n ==> entry_order(#[trigger] a[i], b[i]) == Some(Ordering::Equal),
    ensures
        entries_order(a, b) == entries_order(a.skip(n), b.skip(n)),
    decreases n,
{
    if n == 0 {
        assert(a.skip(0) =~= a);
        assert(b.skip(0) =~= b);
    } else {
        assert(entry_order(a[0], b[0]) == Some(Ordering::Equal));
        let a1 = a.skip(1);
        let b1 = b.skip(1);
        assert forall|i: int| 0 <= i < n - 1 implies entry_order(#[trigger] a1[i], b1[i]) == Some(
            Ordering::Equal,
        ) by {
            assert(a1[i] == a[i + 1] && b1[i] == b[i + 1]);
        }
        lemma_order_skips_equal(a1, b1, n - 1);
        assert(a1.skip(n - 1) =~= a.skip(n));
        assert(b1.skip(n - 1) =~= b.skip(n));
    }
}

impl<V: PartialOrd> MiniMap<V> {
    /// The order of the two maps: that of their entries, compared one by one
    /// from the front. It depends on the order of the entries in each map.
    pub fn partial_cmp(&self, other: &Self) -> (order: Option<Ordering>)
        requires
            self.wf(),
            other.wf(),
        ensures
            V::obeys_partial_cmp_spec() ==> order == entries_order(self@, other@),
    {
        let mut ours = self.iter();
        let mut theirs = other.iter();
        let mut left = ours.next();
        let mut right = theirs.next();
        let ghost mut n: int = 0;
        while left.is_some() && right.is_some()
            invariant
                ours.wf(),
                theirs.wf(),
                0 <= n <= self@.len(),
                n <= other@.len(),
                V::obeys_partial_cmp_spec() ==> forall|i: int|
                    0 <= i < n ==> entry_order(#[trigger] self@[i], other@[i]) == Some(
                        Ordering::Equal,
                    ),
                match left {
                    Some((key, value)) => {
                        &&& n < self@.len()
                        &&& key@ == self@[n].0
                        &&& *value == self@[n].1
                        &&& ours@ == self@.skip(n + 1)
                    },
                    None => n == self@.len(),
                },
                match right {
                    Some((key, value)) => {
                        &&& n < other@.len()
                        &&& key@ == other@[n].0
                        &&& *value == other@[n].1
                        &&& theirs@ == other@.skip(n + 1)
                    },
                    None => n == other@.len(),
                },
            decreases self@.len() - n,
        {
            let (our_key, our_value) = left.unwrap();
            let (their_key, their_value) = right.unwrap();
            let order = match key_order(our_key.as_str(), their_key.as_str()) {
                Ordering::Equal => our_value.partial_cmp(their_value),
                Ordering::Less => Some(Ordering::Less),
                Ordering::Greater => Some(Ordering::Greater),
            };
            proof {
                if V::obeys_partial_cmp_spec() {
                    assert(order == entry_order(self@[n], other@[n]));
                    lemma_order_skips_equal(self@, other@, n);
                    assert(self@.skip(n)[0] == self@[n]);
                    assert(other@.skip(n)[0] == other@[n]);
                }
            }
            match order {
                Some(Ordering::Equal) => {},
                _ => {
                    return order;
                },
            }
            left = ours.next();
            right = theirs.next();
            proof {
                if n + 1 < self@.len() {
                    assert(self@.skip(n + 1)[0] == self@[n + 1]);
                    assert(self@.skip(n + 1).skip(1) =~= self@.skip(n + 2));
                }
                if n + 1 < other@.len() {
                    assert(other@.skip(n + 1)[0] == other@[n + 1]);
                    assert(other@.skip(n + 1).skip(1) =~= other@.skip(n + 2));
                }
                n = n + 1;
            }
        }
        proof {
            if V::obeys_partial_cmp_spec() {
                lemma_order_skips_equal(self@, other@, n);
            }
        }
        if left.is_some() {
            Some(Ordering::Greater)
        } else if right.is_some() {
            Some(Ordering::Less)
        } else {
            Some(Ordering::Equal)
        }
    }

    /// Whether this map comes before `other`.
    pub fn lt(&self, other: &Self) -> (before: bool)
        requires
            self.wf(),
            other.wf(),
        ensures
            V::obeys_partial_cmp_spec() ==> before == (entries_order(self@, other@) == Some(
                Ordering::Less,
            )),
    {
        match self.partial_cmp(other) {
            Some(Ordering::Less) => true,
            _ => false,
        }
    }

    /// Whether this map comes before `other` or is its equal.
    pub fn le(&self, other: &Self) -> (before: bool)
        requires
            self.wf(),
            other.wf(),
        ensures
            V::obeys_partial_cmp_spec() ==> before == (entries_order(self@, other@) == Some(
                Ordering::Less,
            ) || entries_order(self@, other@) == Some(Ordering::Equal)),
    {
        match self.partial_cmp(other) {
            Some(Ordering::Less) => true,
            Some(Ordering::Equal) => true,
            _ => false,
        }
    }

    /// Whether this map comes after `other`.
    pub fn gt(&self, other: &Self) -> (after: bool)
        requires
            self.wf(),
            other.wf(),
        ensures
            V::obeys_partial_cmp_spec() ==> after == (entries_order(self@, other@) == Some(
                Ordering::Greater,
            )),
    {
        match self.partial_cmp(other) {
            Some(Ordering::Greater) => true,
            _ => false,
        }
    }

    /// Whether this map comes after `other` or is its equal.
    pub fn ge(&self, other: &Self) -> (after: bool)
        requires
            self.wf(),
            other.wf(),
        ensures
            V::obeys_partial_cmp_spec() ==> after == (entries_order(self@, other@) == Some(
                Ordering::Greater,
            ) || entries_order(self@, other@) == Some(Ordering::Equal)),
    {
        match self.partial_cmp(other) {
            Some(Ordering::Greater) => true,
            Some(Ordering::Equal) => true,
            _ => false,
        }
    }
}

/// The order of two entries whose values have a total order.
pub open spec fn entry_total_order<V: Ord>(a: (Seq<char>, V), b: (Seq<char>, V)) -> Ordering {
    match chars_order(a.0, b.0) {
        Ordering::Equal => a.1.cmp_spec(&b.1),
        Ordering::Less => Ordering::Less,
        Ordering::Greater => Ordering::Greater,
    }
}

/// The order of two sequences of entries whose values have a total order.
pub open spec fn entries_total_order<V: Ord>(a: Entries<V>, b: Entries<V>) -> Ordering
    decreases a.len(),
{
    if a.len() == 0 {
        if b.len() == 0 {
            Ordering::Equal
        } else {
            Ordering::Less
        }
    } else if b.len() == 0 {
        Ordering::Greater
    } else {
        match entry_total_order(a[0], b[0]) {
            Ordering::Equal => entries_total_order(a.skip(1), b.skip(1)),
            other => other,
        }
    }
}

/// Entries that are equal at the front do not decide the total order.
pub proof fn lemma_total_order_skips_equal<V: Ord>(a: Entries<V>, b: Entries<V>, n: int)
    requires
        0 <= n <= a.len(),
        n <= b.len(),
        forall|i: int| 0 <= i < n ==> entry_total_order(#[trigger] a[i], b[i]) == Ordering::Equal,
    ensures
        entries_total_order(a, b) == entries_total_order(a.skip(n), b.skip(n)),
    decreases n,
{
    if n == 0 {
        assert(a.skip(0) =~= a);
        assert(b.skip(0) =~= b);
    } else {
        assert(entry_total_order(a[0], b[0]) == Ordering::Equal);
        let a1 = a.skip(1);
        let b1 = b.skip(1);
        assert forall|i: int| 0 <= i < n - 1 implies entry_total_order(#[trigger] a1[i], b1[i])
            == Ordering::Equal by {
            assert(a1[i] == a[i + 1] && b1[i] == b[i + 1]);
        }
        lemma_total_order_skips_equal(a1, b1, n - 1);
        assert(a1.skip(n - 1) =~= a.skip(n));
        assert(b1.skip(n - 1) =~= b.skip(n));
    }
}

impl<V: Ord> MiniMap<V> {
    /// The order of the two maps where the values have a total order: that of
    /// their entries, compared one by one from the front.
    pub fn cmp(&self, other: &Self) -> (order: Ordering)
        requires
            self.wf(),
            other.wf(),
        ensures
            V::obeys_cmp_spec() ==> order == entries_total_order(self@, other@),
    {
        let mut ours = self.iter();
        let mut theirs = other.iter();
        let mut left = ours.next();
        let mut right = theirs.next();
        let ghost mut n: int = 0;
        while left.is_some() && right.is_some()
            invariant
                ours.wf(),
                theirs.wf(),
                0 <= n <= self@.len(),
                n <= other@.len(),
                V::obeys_cmp_spec() ==> forall|i: int|
                    0 <= i < n ==> entry_total_order(#[trigger] self@[i], other@[i])
                        == Ordering::Equal,
                match left {
                    Some((key, value)) => {
                        &&& n < self@.len()
                        &&& key@ == self@[n].0
                        &&& *value == self@[n].1
                        &&& ours@ == self@.skip(n + 1)
                    },
                    None => n == self@.len(),
                },
                match right {
                    Some((key, value)) => {
                        &&& n < other@.len()
                        &&& key@ == other@[n].0
                        &&& *value == other@[n].1
                        &&& theirs@ == other@.skip(n + 1)
                    },
                    None => n == other@.len(),
                },
            decreases self@.len() - n,
        {
            let (our_key, our_value) = left.unwrap();
            let (their_key, their_value) = right.unwrap();
            let order = match key_order(our_key.as_str(), their_key.as_str()) {
                Ordering::Equal => our_value.cmp(their_value),
                Ordering::Less => Ordering::Less,
                Ordering::Greater => Ordering::Greater,
            };
            proof {
                if V::obeys_cmp_spec() {
                    assert(order == entry_total_order(self@[n], other@[n]));
                    lemma_total_order_skips_equal(self@, other@, n);
                    assert(self@.skip(n)[0] == self@[n]);
                    assert(other@.skip(n)[0] == other@[n]);
                }
            }
            match order {
                Ordering::Equal => {},
                _ => {
                    return order;
                },
            }
            left = ours.next();
            right = theirs.next();
            proof {
                if n + 1 < self@.len() {
                    assert(self@.skip(n + 1)[0] == self@[n + 1]);
                    assert(self@.skip(n + 1).skip(1) =~= self@.skip(n + 2));
                }
                if n + 1 < other@.len() {
                    assert(other@.skip(n + 1)[0] == other@[n + 1]);
                    assert(other@.skip(n + 1).skip(1) =~= other@.skip(n + 2));
                }
                n = n + 1;
            }
        }
        proof {
            if V::obeys_cmp_spec() {
                lemma_total_order_skips_equal(self@, other@, n);
            }
        }
        if left.is_some() {
            Ordering::Greater
        } else if right.is_some() {
            Ordering::Less
        } else {
            Ordering::Equal
        }
    }
}

} // verus!
