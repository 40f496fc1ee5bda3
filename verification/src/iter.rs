//! Walks over the entries of a map in order, from either end.

use crate::map::MiniMap;
use crate::model::{first_of, rest_of, Entries};
use crate::node::NodeList;
use vstd::prelude::*;

verus! {

/// A walk over the entries of a map that reads them.
pub struct Iter<'a, V> {
    list: &'a NodeList<V>,
    head: usize,
    tail: usize,
    remaining: usize,
    front: Ghost<int>,
}

impl<'a, V> View for Iter<'a, V> {
    type V = Entries<V>;

    /// The entries that the walk has yet to give, in order.
    closed spec fn view(&self) -> Entries<V> {
        self.list.entries().subrange(self.front@, self.front@ + self.remaining)
    }
}

/// Whether `head` and `tail` are the ends of the `remaining` slots of `list`
/// that start at position `front`.
pub open spec fn spans<V>(list: &NodeList<V>, head: usize, tail: usize, remaining: usize, front: int) -> bool {
    &&& list.wf()
    &&& 0 <= front
    &&& front + remaining <= list.slots().len()
    &&& remaining > 0 ==> head == list.slots()[front] && tail == list.slots()[front + remaining - 1]
}

impl<'a, V> Iter<'a, V> {
    /// The invariant of the walk: `head` and `tail` are the slots of the first
    /// and the last entry that it has yet to give.
    pub closed spec fn wf(&self) -> bool {
        spans(self.list, self.head, self.tail, self.remaining, self.front@)
    }

    /// A walk over the `remaining` entries of `list` from position `front`.
    pub(crate) fn over(list: &'a NodeList<V>, head: usize, tail: usize, remaining: usize, front: Ghost<int>) -> (iter: Self)
        requires
            spans(list, head, tail, remaining, front@),
        ensures
            iter.wf(),
            iter@ == list.entries().subrange(front@, front@ + remaining),
    {
        Iter { list, head, tail, remaining, front }
    }

    /// The next entry from the front, if the walk has one left.
    pub fn next(&mut self) -> (entry: Option<(&'a String, &'a V)>)
        requires
            old(self).wf(),
        ensures
            final(self).wf(),
            final(self)@ == rest_of(old(self)@),
            entry is Some <==> first_of(old(self)@) is Some,
            match entry {
                Some((key, value)) => {
                    &&& old(self)@.len() > 0
                    &&& key@ == old(self)@[0].0
                    &&& *value == old(self)@[0].1
                    &&& final(self)@ == old(self)@.skip(1)
                },
                None => old(self)@.len() == 0 && final(self)@ == old(self)@,
            },
    {
        if self.remaining == 0 {
            None
        } else {
            let list: &'a NodeList<V> = self.list;
            proof {
                list.lemma_wf();
            }
            self.remaining -= 1;
            let entry = list.entry_ref(self.head);
            self.head = list.next_of(self.head);
            proof {
                self.front = Ghost(self.front@ + 1);
                assert(self@ =~= old(self)@.skip(1));
            }
            Some((&entry.0, &entry.1))
        }
    }

    /// The next entry from the back, if the walk has one left.
    pub fn next_back(&mut self) -> (entry: Option<(&'a String, &'a V)>)
        requires
            old(self).wf(),
        ensures
            final(self).wf(),
            match entry {
                Some((key, value)) => {
                    &&& old(self)@.len() > 0
                    &&& key@ == old(self)@.last().0
                    &&& *value == old(self)@.last().1
                    &&& final(self)@ == old(self)@.drop_last()
                },
                None => old(self)@.len() == 0 && final(self)@ == old(self)@,
            },
    {
        if self.remaining == 0 {
            None
        } else {
            let list: &'a NodeList<V> = self.list;
            proof {
                list.lemma_wf();
            }
            self.remaining -= 1;
            let tail = self.tail;
            self.tail = list.prev_of(tail);
            let entry = list.entry_ref(tail);
            proof {
                assert(self@ =~= old(self)@.drop_last());
            }
            Some((&entry.0, &entry.1))
        }
    }

    /// The number of entries that the walk has yet to give, as a lower and an
    /// upper bound.
    pub fn size_hint(&self) -> (bounds: (usize, Option<usize>))
        requires
            self.wf(),
        ensures
            bounds.0 == self@.len(),
            bounds.1 == Some(bounds.0),
    {
        (self.remaining, Some(self.remaining))
    }

    /// The number of entries that the walk has yet to give.
    pub fn len(&self) -> (len: usize)
        requires
            self.wf(),
        ensures
            len == self@.len(),
    {
        self.remaining
    }
}

impl<'a, V> Clone for Iter<'a, V> {
    /// A second walk over the same entries.
    fn clone(&self) -> (iter: Self)
        ensures
            iter@ == self@,
            iter.wf() == self.wf(),
    {
        Iter {
            list: self.list,
            head: self.head,
            tail: self.tail,
            remaining: self.remaining,
            front: self.front,
        }
    }
}

impl<V> MiniMap<V> {
    /// A walk over the entries, from the front of the order to the back.
    pub fn iter(&self) -> (iter: Iter<'_, V>)
        requires
            self.wf(),
        ensures
            iter.wf(),
            iter@ == self@,
    {
        proof {
            self.list.lemma_wf();
        }
        let remaining = self.len();
        let (head, tail) = if self.list.has_guard() {
            (self.list.head(), self.list.tail())
        } else {
            (0, 0)
        };
        proof {
            assert(self@.subrange(0, remaining as int) =~= self@);
        }
        Iter::over(&self.list, head, tail, remaining, Ghost(0))
    }
}

/// A walk over the entries of a map that may change their values.
///
/// `origin` is the arena as it was when the walk began: the arena that the
/// walk borrows differs from it in values at most.
pub struct IterMut<'a, V> {
    pub list: &'a mut NodeList<V>,
    pub head: usize,
    pub tail: usize,
    pub remaining: usize,
    pub front: Ghost<int>,
    pub origin: Ghost<NodeList<V>>,
}

impl<'a, V> IterMut<'a, V> {
    /// The entries that the walk has yet to give, in order.
    pub open spec fn view(&self) -> Entries<V> {
        self.list.entries().subrange(self.front@, self.front@ + self.remaining)
    }

    /// The invariant of the walk: `head` and `tail` are the slots of the first
    /// and the last entry that it has yet to give.
    pub open spec fn wf(&self) -> bool {
        &&& spans(&*self.list, self.head, self.tail, self.remaining, self.front@)
        &&& self.origin@.wf()
        &&& self.origin@.same_shape(&*self.list)
    }

    /// The next entry from the front, if the walk has one left, with mutable
    /// access to its value for as long as the walk is borrowed.
    pub fn next(&mut self) -> (entry: Option<(&String, &mut V)>)
        requires
            old(self).wf(),
        ensures
            old(self).list.same_shape(final(self).list) && final(self).wf(),
            final(self).origin == old(self).origin,
            *final(final(self).list) == *final(old(self).list),
            match entry {
                Some((key, value)) => {
                    &&& old(self)@.len() > 0
                    &&& key@ == old(self)@[0].0
                    &&& *value == old(self)@[0].1
                    &&& final(self)@ == old(self)@.skip(1)
                    &&& final(self).list.entries() == old(self).list.entries().update(
                        old(self).front@,
                        (key@, *final(value)),
                    )
                },
                None => {
                    &&& old(self)@.len() == 0
                    &&& final(self)@ == old(self)@
                    &&& final(self).list.entries() == old(self).list.entries()
                },
            },
    {
        let ghost before = *self.list;
        let ghost origin = self.origin@;
        proof {
            before.lemma_wf();
            before.lemma_same_shape_refl();
        }
        if self.remaining == 0 {
            None
        } else {
            self.remaining -= 1;
            let head = self.head;
            self.head = self.list.next_of(head);
            proof {
                self.front = Ghost(self.front@ + 1);
                assert forall|after: NodeList<V>| #[trigger] before.same_shape(&after) implies {
                    &&& spans(&after, self.head, self.tail, self.remaining, self.front@)
                    &&& origin.same_shape(&after)
                } by {
                    before.lemma_same_shape(&after);
                    origin.lemma_same_shape_trans(&before, &after);
                }
            }
            let entry = self.list.key_value_mut(head);
            Some(entry)
        }
    }

    /// The next entry from the back, if the walk has one left, with mutable
    /// access to its value for as long as the walk is borrowed.
    pub fn next_back(&mut self) -> (entry: Option<(&String, &mut V)>)
        requires
            old(self).wf(),
        ensures
            old(self).list.same_shape(final(self).list) && final(self).wf(),
            final(self).origin == old(self).origin,
            *final(final(self).list) == *final(old(self).list),
            match entry {
                Some((key, value)) => {
                    &&& old(self)@.len() > 0
                    &&& key@ == old(self)@.last().0
                    &&& *value == old(self)@.last().1
                    &&& final(self)@ == old(self)@.drop_last()
                    &&& final(self).list.entries() == old(self).list.entries().update(
                        old(self).front@ + old(self)@.len() - 1,
                        (key@, *final(value)),
                    )
                },
                None => {
                    &&& old(self)@.len() == 0
                    &&& final(self)@ == old(self)@
                    &&& final(self).list.entries() == old(self).list.entries()
                },
            },
    {
        let ghost before = *self.list;
        let ghost origin = self.origin@;
        proof {
            before.lemma_wf();
            before.lemma_same_shape_refl();
        }
        if self.remaining == 0 {
            None
        } else {
            self.remaining -= 1;
            let tail = self.tail;
            self.tail = self.list.prev_of(tail);
            proof {
                assert forall|after: NodeList<V>| #[trigger] before.same_shape(&after) implies {
                    &&& spans(&after, self.head, self.tail, self.remaining, self.front@)
                    &&& origin.same_shape(&after)
                } by {
                    before.lemma_same_shape(&after);
                    origin.lemma_same_shape_trans(&before, &after);
                }
            }
            let entry = self.list.key_value_mut(tail);
            Some(entry)
        }
    }

    /// The number of entries that the walk has yet to give, as a lower and an
    /// upper bound.
    pub fn size_hint(&self) -> (bounds: (usize, Option<usize>))
        requires
            self.wf(),
        ensures
            bounds.0 == self@.len(),
            bounds.1 == Some(bounds.0),
    {
        (self.remaining, Some(self.remaining))
    }

    /// A walk that reads the entries that this walk has yet to give.
    pub fn iter(&self) -> (iter: Iter<'_, V>)
        requires
            self.wf(),
        ensures
            iter.wf(),
            iter@ == self@,
    {
        Iter::over(&*self.list, self.head, self.tail, self.remaining, self.front)
    }
}

impl<V> MiniMap<V> {
    /// A walk over the entries, from the front of the order to the back, that
    /// may change their values. When the walk ends the map has the entries
    /// that the walk's arena has then.
    pub fn iter_mut(&mut self) -> (iter: IterMut<'_, V>)
        requires
            old(self).wf(),
        ensures
            iter.wf(),
            iter@ == old(self)@,
            iter.front@ == 0,
            iter.list.entries() == old(self)@,
            iter.origin@ == old(self).arena(),
            final(self)@ == final(iter.list).entries(),
            final(self).seed() == old(self).seed(),
            iter.origin@.same_shape(final(iter.list)) ==> old(self).same_keys(final(self)),
            old(self).same_keys(final(self)) ==> final(self).wf(),
    {
        proof {
            self.list.lemma_wf();
            self.list.lemma_same_shape_refl();
        }
        let ghost before = *self;
        let remaining = self.len();
        let (head, tail) = if self.list.has_guard() {
            (self.list.head(), self.list.tail())
        } else {
            (0, 0)
        };
        proof {
            assert(self@.subrange(0, remaining as int) =~= self@);
            assert forall|after: MiniMap<V>| #[trigger] before.same_keys(&after) implies after.wf() by {
                before.lemma_same_keys(&after);
            }
        }
        IterMut {
            list: &mut self.list,
            head,
            tail,
            remaining,
            front: Ghost(0),
            origin: Ghost(before.list),
        }
    }
}

/// A walk over the entries of a map that takes them out of it.
pub struct IntoIter<V> {
    list: NodeList<V>,
    remaining: usize,
}

impl<V> View for IntoIter<V> {
    type V = Entries<V>;

    /// The entries that the walk has yet to give, in order.
    closed spec fn view(&self) -> Entries<V> {
        self.list.entries()
    }
}

impl<V> IntoIter<V> {
    /// The invariant of the walk: its arena holds the entries that it has yet
    /// to give, and their number is `remaining`.
    pub closed spec fn wf(&self) -> bool {
        &&& self.list.wf()
        &&& self.list.loose() is None
        &&& self.remaining == self.list.slots().len()
    }

    /// The next entry from the front, if the walk has one left. Its slot goes
    /// to the free list.
    pub fn next(&mut self) -> (entry: Option<(String, V)>)
        requires
            old(self).wf(),
        ensures
            final(self).wf(),
            final(self)@ == rest_of(old(self)@),
            entry is Some <==> first_of(old(self)@) is Some,
            match entry {
                Some((key, value)) => {
                    &&& old(self)@.len() > 0
                    &&& key@ == old(self)@[0].0
                    &&& value == old(self)@[0].1
                    &&& final(self)@ == old(self)@.skip(1)
                },
                None => old(self)@.len() == 0 && final(self)@ == old(self)@,
            },
    {
        if self.remaining == 0 {
            return None;
        }
        proof {
            self.list.lemma_wf();
        }
        self.remaining -= 1;
        let head = self.list.head();
        let entry = self.list.remove_node(head);
        proof {
            assert(old(self)@.remove(0) =~= old(self)@.skip(1));
        }
        Some(entry)
    }

    /// The next entry from the back, if the walk has one left. Its slot goes
    /// to the free list.
    pub fn next_back(&mut self) -> (entry: Option<(String, V)>)
        requires
            old(self).wf(),
        ensures
            final(self).wf(),
            match entry {
                Some((key, value)) => {
                    &&& old(self)@.len() > 0
                    &&& key@ == old(self)@.last().0
                    &&& value == old(self)@.last().1
                    &&& final(self)@ == old(self)@.drop_last()
                },
                None => old(self)@.len() == 0 && final(self)@ == old(self)@,
            },
    {
        if self.remaining == 0 {
            return None;
        }
        proof {
            self.list.lemma_wf();
        }
        self.remaining -= 1;
        let tail = self.list.tail();
        let entry = self.list.remove_node(tail);
        proof {
            assert(old(self)@.remove(old(self)@.len() - 1) =~= old(self)@.drop_last());
        }
        Some(entry)
    }

    /// The number of entries that the walk has yet to give, as a lower and an
    /// upper bound.
    pub fn size_hint(&self) -> (bounds: (usize, Option<usize>))
        requires
            self.wf(),
        ensures
            bounds.0 == self@.len(),
            bounds.1 == Some(bounds.0),
    {
        (self.remaining, Some(self.remaining))
    }

    /// A walk that reads the entries that this walk has yet to give.
    pub fn iter(&self) -> (iter: Iter<'_, V>)
        requires
            self.wf(),
        ensures
            iter.wf(),
            iter@ == self@,
    {
        proof {
            self.list.lemma_wf();
        }
        let (head, tail) = if self.list.has_guard() {
            (self.list.head(), self.list.tail())
        } else {
            (0, 0)
        };
        proof {
            assert(self@.subrange(0, self.remaining as int) =~= self@);
        }
        Iter::over(&self.list, head, tail, self.remaining, Ghost(0))
    }
}

impl<V> MiniMap<V> {
    /// Gives up the map for a walk that takes its entries out, from either
    /// end. The index is dropped and the arena goes to the walk.
    pub fn into_iter(self) -> (iter: IntoIter<V>)
        requires
            self.wf(),
        ensures
            iter.wf(),
            iter@ == self@,
    {
        proof {
            self.list.lemma_wf();
        }
        let remaining = self.len();
        IntoIter { list: self.list, remaining }
    }
}

} // verus!
