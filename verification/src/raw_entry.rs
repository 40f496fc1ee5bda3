//! Cursors on the map that work from a digest computed beforehand.
//!
//! A cursor borrows the map and names at most one slot of it. Looking a key up
//! gives an occupied cursor on the entry that has the key, or a vacant cursor
//! that can insert one.

use crate::hashing::{hash_key, key_hash};
use crate::index::index_entries;
use crate::map::MiniMap;
use crate::model::{
    back_from, front_from, has_key, key_index, lemma_front_distinct, lemma_key_index,
    lemma_push_distinct, lemma_remove_distinct,
};
use vstd::prelude::*;

verus! {

/// Taking an element out of a sequence and putting it back in at any place
/// keeps the set of its elements.
pub proof fn lemma_relocate_set(s: Seq<usize>, p: int, q: int)
    requires
        0 <= p < s.len(),
        0 <= q < s.len(),
    ensures
        s.remove(p).insert(q, s[p]).to_set() =~= s.to_set(),
{
    let r = s.remove(p);
    let t = r.insert(q, s[p]);
    assert forall|x: usize| t.to_set().contains(x) <==> s.to_set().contains(x) by {
        if t.contains(x) {
            let i = choose|i: int| 0 <= i < t.len() && t[i] == x;
            if i == q {
                assert(s[p] == x);
            } else {
                let j = if i < q { i } else { i - 1 };
                assert(t[i] == r[j]);
                let k = if j < p { j } else { j + 1 };
                assert(r[j] == s[k]);
            }
        }
        if s.contains(x) {
            let k = choose|k: int| 0 <= k < s.len() && s[k] == x;
            if k == p {
                assert(t[q] == x);
            } else {
                let j = if k < p { k } else { k - 1 };
                assert(r[j] == s[k]);
                let i = if j < q { j } else { j + 1 };
                assert(t[i] == r[j]);
            }
        }
    }
}

/// A cursor on an entry of the map.
pub struct RawOccupiedEntryMut<'a, V> {
    pub map: &'a mut MiniMap<V>,
    pub node: usize,
}

/// A cursor on a map in which a key was looked for and not found.
pub struct RawVacantEntryMut<'a, V> {
    pub map: &'a mut MiniMap<V>,
}

/// The outcome of a lookup for writing.
pub enum RawEntryMut<'a, V> {
    Occupied(RawOccupiedEntryMut<'a, V>),
    Vacant(RawVacantEntryMut<'a, V>),
}

/// Looks keys up for writing.
pub struct RawEntryBuilderMut<'a, V> {
    pub map: &'a mut MiniMap<V>,
}

impl<'a, V> RawEntryBuilderMut<'a, V> {
    /// Looks `k` up among the entries filed under `hash`.
    ///
    /// An occupied cursor is on the entry that has the key `k`. A vacant cursor
    /// says that no entry filed under `hash` has that key: where `hash` is the
    /// digest of `k`, no entry has it.
    pub fn from_hash(self, hash: u64, k: &str) -> (entry: RawEntryMut<'a, V>)
        requires
            self.map.wf(),
        ensures
            match entry {
                RawEntryMut::Occupied(e) => {
                    &&& *e.map == *old(self.map)
                    &&& *final(e.map) == *final(self.map)
                    &&& e.wf()
                    &&& has_key(e.map@, k@)
                    &&& e.index() == key_index(e.map@, k@)
                },
                RawEntryMut::Vacant(e) => {
                    &&& *e.map == *old(self.map)
                    &&& *final(e.map) == *final(self.map)
                    &&& hash == key_hash(e.map.seed(), k@) ==> !has_key(e.map@, k@)
                },
            },
    {
        proof {
            self.map.list.lemma_wf();
        }
        match self.map.table.find(hash, &self.map.list, k) {
            Some(node) => {
                proof {
                    let i = self.map.list.position(node);
                    assert(self.map.list.slots().to_set().contains(node));
                    assert(self.map@[i].0 == k@);
                    lemma_key_index(self.map@, k@, i);
                }
                RawEntryMut::Occupied(RawOccupiedEntryMut { map: self.map, node })
            },
            None => {
                proof {
                    if hash == key_hash(self.map.seed(), k@) && has_key(self.map@, k@) {
                        let i = key_index(self.map@, k@);
                        let slot = self.map.list.slots()[i];
                        assert(self.map@[i].0 == k@);
                        assert(self.map.list.slots().to_set().contains(slot));
                        assert(index_entries(self.map.table).contains_key(slot));
                        assert(index_entries(self.map.table)[slot] == hash);
                    }
                }
                RawEntryMut::Vacant(RawVacantEntryMut { map: self.map })
            },
        }
    }

    /// Looks `k` up with its digest `hash`, which the caller has computed.
    pub fn from_key_hashed_nocheck(self, hash: u64, k: &str) -> (entry: RawEntryMut<'a, V>)
        requires
            self.map.wf(),
        ensures
            match entry {
                RawEntryMut::Occupied(e) => {
                    &&& *e.map == *old(self.map)
                    &&& *final(e.map) == *final(self.map)
                    &&& e.wf()
                    &&& has_key(e.map@, k@)
                    &&& e.index() == key_index(e.map@, k@)
                },
                RawEntryMut::Vacant(e) => {
                    &&& *e.map == *old(self.map)
                    &&& *final(e.map) == *final(self.map)
                    &&& hash == key_hash(e.map.seed(), k@) ==> !has_key(e.map@, k@)
                },
            },
    {
        self.from_hash(hash, k)
    }

    /// Looks `k` up: an occupied cursor if the map has the key, a vacant one if
    /// it has not.
    pub fn from_key(self, k: &str) -> (entry: RawEntryMut<'a, V>)
        requires
            self.map.wf(),
        ensures
            match entry {
                RawEntryMut::Occupied(e) => {
                    &&& *e.map == *old(self.map)
                    &&& *final(e.map) == *final(self.map)
                    &&& e.wf()
                    &&& has_key(e.map@, k@)
                    &&& e.index() == key_index(e.map@, k@)
                },
                RawEntryMut::Vacant(e) => {
                    &&& *e.map == *old(self.map)
                    &&& *final(e.map) == *final(self.map)
                    &&& !has_key(e.map@, k@)
                },
            },
    {
        let hash = hash_key(self.map.hash_builder, k);
        self.from_key_hashed_nocheck(hash, k)
    }
}

impl<'a, V> RawOccupiedEntryMut<'a, V> {
    /// Whether the cursor is on an entry of a map that is in order.
    pub open spec fn wf(&self) -> bool {
        self.map.wf() && self.map.holds(self.node)
    }

    /// The position of the cursor's entry in the order.
    pub open spec fn index(&self) -> int {
        self.map.index_of(self.node)
    }

    /// The key that the cursor's entry stores: the string itself.
    pub open spec fn stored_key(&self) -> String {
        self.map.stored_key(self.node)
    }
}

impl<'a, V> RawOccupiedEntryMut<'a, V> {
    /// The key and value of the entry.
    pub fn get_key_value(&self) -> (entry: (&String, &V))
        requires
            self.wf(),
        ensures
            entry.0@ == old(self.map)@[self.index()].0,
            *entry.1 == old(self.map)@[self.index()].1,
    {
        proof {
            self.map.list.lemma_wf();
        }
        let entry = self.map.list.entry_ref(self.node);
        (&entry.0, &entry.1)
    }

    /// The key of the entry.
    pub fn key(&self) -> (key: &String)
        requires
            self.wf(),
        ensures
            key@ == old(self.map)@[self.index()].0,
    {
        self.get_key_value().0
    }

    /// The value of the entry.
    pub fn get(&self) -> (value: &V)
        requires
            self.wf(),
        ensures
            *value == old(self.map)@[self.index()].1,
    {
        self.get_key_value().1
    }

    /// Moves the entry to the back of the order.
    pub fn to_back(&mut self)
        requires
            old(self).wf(),
        ensures
            final(self).wf(),
            final(self).node == old(self).node,
            final(self).map@ == back_from(old(self).map@, old(self).index()),
            final(self).index() == final(self).map@.len() - 1,
            final(self).map.seed() == old(self).map.seed(),
            final(self).map.guarded() == old(self).map.guarded(),
            final(self).map.free_slots() == old(self).map.free_slots(),
            *final(final(self).map) == *final(old(self).map),
    {
        let ghost before = *self.map;
        let ghost p = self.index();
        proof {
            before.list.lemma_wf();
        }
        self.map.list.detach_node(self.node);
        let guard = self.map.list.anchor();
        proof {
            self.map.list.lemma_wf();
        }
        self.map.list.attach_before(self.node, guard);
        proof {
            let slots = before.list.slots();
            let q = slots.len() - 1;
            self.map.list.lemma_wf();
            lemma_relocate_set(slots, p, q);
            assert(self.map.list.slots() =~= slots.remove(p).insert(q, slots[p]));
            assert(self.map@ =~= back_from(before@, p));
            lemma_remove_distinct(before@, p);
            lemma_push_distinct(before@.remove(p), before@[p].0, before@[p].1);
            assert(self.map.list.slots()[q] == self.node);
        }
    }

    /// Moves the entry to the front of the order.
    pub fn to_front(&mut self)
        requires
            old(self).wf(),
        ensures
            final(self).wf(),
            final(self).node == old(self).node,
            final(self).map@ == front_from(old(self).map@, old(self).index()),
            final(self).index() == 0,
            final(self).map.seed() == old(self).map.seed(),
            final(self).map.guarded() == old(self).map.guarded(),
            final(self).map.free_slots() == old(self).map.free_slots(),
            *final(final(self).map) == *final(old(self).map),
    {
        let ghost before = *self.map;
        let ghost p = self.index();
        proof {
            before.list.lemma_wf();
        }
        self.map.list.detach_node(self.node);
        proof {
            self.map.list.lemma_wf();
        }
        let first = self.map.list.head();
        self.map.list.attach_before(self.node, first);
        proof {
            let slots = before.list.slots();
            self.map.list.lemma_wf();
            lemma_relocate_set(slots, p, 0);
            assert(self.map.list.slots() =~= slots.remove(p).insert(0, slots[p]));
            assert(self.map@ =~= front_from(before@, p));
            lemma_remove_distinct(before@, p);
            lemma_front_distinct(before@.remove(p), before@[p].0, before@[p].1);
            assert(self.map.list.slots()[0] == self.node);
        }
    }

    /// Mutable access to the value of the entry, for as long as the cursor is
    /// borrowed.
    pub fn get_mut(&mut self) -> (value: &mut V)
        requires
            old(self).wf(),
        ensures
            *value == old(self).map@[old(self).index()].1,
            old(self).map.same_keys(final(self).map) && final(self).wf(),
            final(self).map.seed() == old(self).map.seed(),
            final(self).map.guarded() == old(self).map.guarded(),
            final(self).map.free_slots() == old(self).map.free_slots(),
            final(self).node == old(self).node,
            final(self).map@ == old(self).map@.update(
                old(self).index(),
                (old(self).map@[old(self).index()].0, *final(value)),
            ),
            *final(final(self).map) == *final(old(self).map),
    {
        let ghost before = *self.map;
        proof {
            before.list.lemma_wf();
            assert forall|after: MiniMap<V>| #[trigger] before.same_keys(&after) implies after.wf()
                && after.holds(self.node) by {
                before.lemma_same_keys(&after);
            }
        }
        self.map.list.value_mut(self.node)
    }

    /// Mutable access to the value of the entry, for as long as the map is
    /// borrowed.
    pub fn into_mut(self) -> (value: &'a mut V)
        requires
            self.wf(),
        ensures
            *value == old(self.map)@[self.index()].1,
            old(self.map).same_keys(final(self.map)) && final(self.map).wf(),
            final(self.map).seed() == old(self.map).seed(),
            final(self.map).guarded() == old(self.map).guarded(),
            final(self.map).free_slots() == old(self.map).free_slots(),
            final(self.map)@ == old(self.map)@.update(
                self.index(),
                (old(self.map)@[self.index()].0, *final(value)),
            ),
    {
        self.into_key_value().1
    }

    /// The key of the entry, for as long as the map is borrowed.
    pub fn into_key(self) -> (key: &'a String)
        requires
            self.wf(),
        ensures
            key@ == old(self.map)@[self.index()].0,
            final(self.map).wf(),
            final(self.map)@ == old(self.map)@,
            final(self.map).seed() == old(self.map).seed(),
            final(self.map).guarded() == old(self.map).guarded(),
            final(self.map).free_slots() == old(self.map).free_slots(),
    {
        let ghost before = *self.map;
        proof {
            before.list.lemma_wf();
        }
        let entry = self.into_key_value();
        proof {
            assert(before@.update(self.index(), (before@[self.index()].0, *entry.1)) =~= before@);
        }
        entry.0
    }

    /// The key of the entry and mutable access to its value, for as long as
    /// the cursor is borrowed.
    pub fn get_key_value_mut(&mut self) -> (entry: (&String, &mut V))
        requires
            old(self).wf(),
        ensures
            entry.0@ == old(self).map@[old(self).index()].0,
            *entry.1 == old(self).map@[old(self).index()].1,
            old(self).map.same_keys(final(self).map) && final(self).wf(),
            final(self).map.seed() == old(self).map.seed(),
            final(self).map.guarded() == old(self).map.guarded(),
            final(self).map.free_slots() == old(self).map.free_slots(),
            final(self).node == old(self).node,
            final(self).map@ == old(self).map@.update(
                old(self).index(),
                (old(self).map@[old(self).index()].0, *final(entry.1)),
            ),
            *final(final(self).map) == *final(old(self).map),
    {
        let ghost before = *self.map;
        proof {
            before.list.lemma_wf();
            assert forall|after: MiniMap<V>| #[trigger] before.same_keys(&after) implies after.wf()
                && after.holds(self.node) by {
                before.lemma_same_keys(&after);
            }
        }
        self.map.list.key_value_mut(self.node)
    }

    /// The key of the entry and mutable access to its value, for as long as
    /// the map is borrowed.
    pub fn into_key_value(self) -> (entry: (&'a String, &'a mut V))
        requires
            self.wf(),
        ensures
            entry.0@ == old(self.map)@[self.index()].0,
            *entry.1 == old(self.map)@[self.index()].1,
            old(self.map).same_keys(final(self.map)) && final(self.map).wf(),
            final(self.map).seed() == old(self.map).seed(),
            final(self.map).guarded() == old(self.map).guarded(),
            final(self.map).free_slots() == old(self.map).free_slots(),
            final(self.map)@ == old(self.map)@.update(
                self.index(),
                (old(self.map)@[self.index()].0, *final(entry.1)),
            ),
    {
        let ghost before = *self.map;
        proof {
            before.list.lemma_wf();
            assert forall|after: MiniMap<V>| #[trigger] before.same_keys(&after) implies after.wf() by {
                before.lemma_same_keys(&after);
            }
        }
        self.map.list.key_value_mut(self.node)
    }

    /// Puts `value` in the place of the entry's value, where the entry stands,
    /// and returns the value that was there.
    pub fn replace_value(&mut self, value: V) -> (previous: V)
        requires
            old(self).wf(),
        ensures
            previous == old(self).map@[old(self).index()].1,
            final(self).wf(),
            final(self).node == old(self).node,
            final(self).index() == old(self).index(),
            final(self).map@ == old(self).map@.update(
                old(self).index(),
                (old(self).map@[old(self).index()].0, value),
            ),
            final(self).map.seed() == old(self).map.seed(),
            final(self).map.guarded() == old(self).map.guarded(),
            final(self).map.free_slots() == old(self).map.free_slots(),
            *final(final(self).map) == *final(old(self).map),
    {
        let ghost before = *self.map;
        proof {
            before.list.lemma_wf();
        }
        let previous = self.map.list.replace_value(self.node, value);
        proof {
            before.lemma_same_keys(self.map);
            assert(self.map@ =~= before@.update(self.index(), (before@[self.index()].0, value)));
        }
        previous
    }

    /// Puts `key`, which reads the same as the entry's key, in that key's
    /// place and returns the key that was there. The entry stores `key`
    /// afterwards; every other entry stores the key that it stored.
    pub fn replace_key(&mut self, key: String) -> (previous: String)
        requires
            old(self).wf(),
            key@ == old(self).map@[old(self).index()].0,
        ensures
            previous == old(self).stored_key(),
            previous@ == key@,
            final(self).stored_key() == key,
            forall|slot: usize|
                slot != old(self).node ==> #[trigger] final(self).map.stored_key(slot)
                    == old(self).map.stored_key(slot),
            final(self).wf(),
            final(self).node == old(self).node,
            final(self).index() == old(self).index(),
            final(self).map@ == old(self).map@,
            final(self).map.seed() == old(self).map.seed(),
            final(self).map.guarded() == old(self).map.guarded(),
            final(self).map.free_slots() == old(self).map.free_slots(),
            *final(final(self).map) == *final(old(self).map),
    {
        let ghost before = *self.map;
        proof {
            before.list.lemma_wf();
        }
        let previous = self.map.list.replace_key(self.node, key);
        proof {
            before.lemma_same_keys(self.map);
            assert(self.map@ =~= before@);
        }
        previous
    }

    /// Removes the entry and returns its key and value. The entries around it
    /// keep their order, and the slot goes to the free list.
    pub fn remove_entry(self) -> (entry: (String, V))
        requires
            self.wf(),
        ensures
            entry.0@ == old(self.map)@[self.index()].0,
            entry.1 == old(self.map)@[self.index()].1,
            final(self.map).wf(),
            final(self.map)@ == old(self.map)@.remove(self.index()),
            final(self.map).seed() == old(self.map).seed(),
            final(self.map).guarded() == old(self.map).guarded(),
            final(self.map).free_slots() == old(self.map).free_slots() + 1,
    {
        let ghost before = *self.map;
        let ghost p = self.index();
        proof {
            before.list.lemma_wf();
            assert(before.list.slots().to_set().contains(self.node));
        }
        let hash = self.map.list.hash_node(self.map.hash_builder, self.node);
        let removed = self.map.table.remove(
            hash,
            &self.map.list,
            self.map.list.key_ref(self.node).as_str(),
        );
        proof {
            match removed {
                Some(slot) => {
                    let q = before.list.position(slot);
                    assert(before.list.slots().to_set().contains(slot));
                    if q != p {
                        assert(before@[q].0 == before@[p].0);
                        if q < p {
                            assert(before@[q].0 != before@[p].0);
                        } else {
                            assert(before@[p].0 != before@[q].0);
                        }
                    }
                    assert(slot == self.node);
                },
                None => {
                    assert(index_entries(before.table).contains_key(self.node));
                    assert(index_entries(before.table)[self.node] == hash);
                },
            }
        }
        let entry = self.map.list.remove_node(self.node);
        proof {
            let slots = before.list.slots();
            self.map.list.lemma_wf();
            assert(self.map.list.slots().to_set() =~= slots.to_set().remove(self.node)) by {
                let r = slots.remove(p);
                assert forall|x: usize| r.to_set().contains(x) <==> slots.to_set().remove(
                    self.node,
                ).contains(x) by {
                    if r.contains(x) {
                        let i = choose|i: int| 0 <= i < r.len() && r[i] == x;
                        let k = if i < p { i } else { i + 1 };
                        assert(r[i] == slots[k]);
                    }
                    if slots.contains(x) && x != self.node {
                        let k = choose|k: int| 0 <= k < slots.len() && slots[k] == x;
                        let i = if k < p { k } else { k - 1 };
                        assert(r[i] == slots[k]);
                    }
                }
            }
            lemma_remove_distinct(before@, p);
        }
        entry
    }

    /// Removes the entry and returns its value.
    pub fn remove(self) -> (value: V)
        requires
            self.wf(),
        ensures
            value == old(self.map)@[self.index()].1,
            final(self.map).wf(),
            final(self.map)@ == old(self.map)@.remove(self.index()),
            final(self.map).seed() == old(self.map).seed(),
            final(self.map).guarded() == old(self.map).guarded(),
            final(self.map).free_slots() == old(self.map).free_slots() + 1,
    {
        self.remove_entry().1
    }
}

impl<'a, V> RawVacantEntryMut<'a, V> {
    /// Inserts `key` with `value` at the back of the order. `hash` is the
    /// digest under which the new entry is filed, and `hasher` the seed by
    /// which the index digests the keys it holds when it grows: the map's own.
    pub fn insert_with_hasher(self, hash: u64, key: String, value: V, hasher: u64) -> (entry: (
        &'a String,
        &'a mut V,
    ))
        requires
            self.map.wf(),
            !has_key(self.map@, key@),
            hasher == self.map.seed(),
            hash == key_hash(hasher, key@),
        ensures
            entry.0@ == key@,
            *entry.1 == value,
            final(self.map).wf(),
            final(self.map)@ == old(self.map)@.push((key@, *final(entry.1))),
            final(self.map).seed() == old(self.map).seed(),
            final(self.map).guarded(),
            final(self.map).free_slots() == (if old(self.map).free_slots() > 0 {
                old(self.map).free_slots() - 1
            } else {
                0
            }),
    {
        let ghost before = *self.map;
        proof {
            before.list.lemma_wf();
        }
        self.map.list.ensure_guard_node();
        let new_node = self.map.list.allocate_node();
        self.map.list.put_entry(new_node, (key, value));
        let guard = self.map.list.anchor();
        self.map.list.attach_before(new_node, guard);
        proof {
            let slots = before.list.slots();
            self.map.list.lemma_wf();
            assert(self.map.list.slots() =~= slots.push(new_node));
            assert(!slots.contains(new_node));
            assert forall|slot: usize| #[trigger]
                index_entries(self.map.table).contains_key(slot) implies {
                &&& self.map.list.payload(slot) is Some
                &&& index_entries(self.map.table)[slot] == key_hash(
                    hasher,
                    self.map.list.key_of(slot),
                )
            } by {
                assert(slots.to_set().contains(slot));
                assert(slot != new_node);
                assert(self.map.list.payload(slot) == before.list.payload(slot));
            }
            assert(!index_entries(self.map.table).contains_key(new_node)) by {
                if index_entries(self.map.table).contains_key(new_node) {
                    assert(slots.to_set().contains(new_node));
                }
            }
        }
        self.map.table.insert_unique(hash, new_node, hasher, &self.map.list);
        let ghost inserted = *self.map;
        proof {
            let slots = before.list.slots();
            assert(inserted.list.slots().to_set() =~= slots.to_set().insert(new_node)) by {
                let t = slots.push(new_node);
                assert forall|x: usize| t.to_set().contains(x) <==> slots.to_set().insert(
                    new_node,
                ).contains(x) by {
                    if t.contains(x) {
                        let i = choose|i: int| 0 <= i < t.len() && t[i] == x;
                        if i < slots.len() {
                            assert(slots[i] == x);
                        }
                    }
                    if slots.contains(x) {
                        let i = choose|i: int| 0 <= i < slots.len() && slots[i] == x;
                        assert(t[i] == x);
                    }
                    if x == new_node {
                        assert(t[slots.len() as int] == x);
                    }
                }
            }
            assert(inserted@ =~= before@.push((key@, value))) by {
                assert forall|i: int| 0 <= i < before@.len() implies inserted@[i] == before@[i] by {
                    assert(slots[i] != new_node);
                }
            }
            lemma_push_distinct(before@, key@, value);
            assert(inserted.wf());
            assert(inserted.holds(new_node)) by {
                assert(inserted.list.slots()[slots.len() as int] == new_node);
            }
            assert(inserted.index_of(new_node) == slots.len());
        }
        let occupied = RawOccupiedEntryMut { map: self.map, node: new_node };
        let entry = occupied.into_key_value();
        proof {
            assert(inserted@.update(before@.len() as int, (key@, *final(entry.1))) =~= before@.push(
                (key@, *final(entry.1)),
            ));
        }
        entry
    }

    /// Inserts `key` with `value` at the back of the order, filed under the
    /// digest `hash` of `key`, which the caller has computed.
    pub fn insert_hashed_nocheck(self, hash: u64, key: String, value: V) -> (entry: (
        &'a String,
        &'a mut V,
    ))
        requires
            self.map.wf(),
            !has_key(self.map@, key@),
            hash == key_hash(self.map.seed(), key@),
        ensures
            entry.0@ == key@,
            *entry.1 == value,
            final(self.map).wf(),
            final(self.map)@ == old(self.map)@.push((key@, *final(entry.1))),
            final(self.map).seed() == old(self.map).seed(),
            final(self.map).guarded(),
            final(self.map).free_slots() == (if old(self.map).free_slots() > 0 {
                old(self.map).free_slots() - 1
            } else {
                0
            }),
    {
        let hasher = self.map.hash_builder;
        self.insert_with_hasher(hash, key, value, hasher)
    }

    /// Inserts `key`, which the map does not have, with `value` at the back of
    /// the order.
    pub fn insert(self, key: String, value: V) -> (entry: (&'a String, &'a mut V))
        requires
            self.map.wf(),
            !has_key(self.map@, key@),
        ensures
            entry.0@ == key@,
            *entry.1 == value,
            final(self.map).wf(),
            final(self.map)@ == old(self.map)@.push((key@, *final(entry.1))),
            final(self.map).seed() == old(self.map).seed(),
            final(self.map).guarded(),
            final(self.map).free_slots() == (if old(self.map).free_slots() > 0 {
                old(self.map).free_slots() - 1
            } else {
                0
            }),
    {
        let hash = hash_key(self.map.hash_builder, key.as_str());
        self.insert_hashed_nocheck(hash, key, value)
    }
}

impl<'a, V> RawEntryMut<'a, V> {
    /// Whether the cursor is on a map that is in order, and on one of its
    /// entries if it is occupied.
    pub open spec fn wf(&self) -> bool {
        match self {
            RawEntryMut::Occupied(e) => e.wf(),
            RawEntryMut::Vacant(e) => e.map.wf(),
        }
    }

    /// The entry that the cursor is on, or the entry `(default_key,
    /// default_val)` newly inserted at the back where the cursor is vacant. An
    /// entry that was there is moved to the back.
    pub fn or_insert(self, default_key: String, default_val: V) -> (entry: (&'a String, &'a mut V))
        requires
            self.wf(),
            self is Vacant ==> !has_key(self->Vacant_0.map@, default_key@),
        ensures
            match self {
                RawEntryMut::Occupied(e) => {
                    &&& entry.0@ == e.map@[e.index()].0
                    &&& *entry.1 == e.map@[e.index()].1
                    &&& final(e.map).wf()
                    &&& final(e.map)@ == e.map@.remove(e.index()).push(
                        (entry.0@, *final(entry.1)),
                    )
                    &&& final(e.map).seed() == e.map.seed()
                    &&& final(e.map).guarded()
                },
                RawEntryMut::Vacant(e) => {
                    &&& entry.0@ == default_key@
                    &&& *entry.1 == default_val
                    &&& final(e.map).wf()
                    &&& final(e.map)@ == e.map@.push((entry.0@, *final(entry.1)))
                    &&& final(e.map).seed() == e.map.seed()
                    &&& final(e.map).guarded()
                },
            },
    {
        match self {
            RawEntryMut::Occupied(mut entry) => {
                let ghost before = *entry.map;
                let ghost p = entry.index();
                entry.to_back();
                let ghost moved = *entry.map;
                let moved_entry = entry.into_key_value();
                proof {
                    before.list.lemma_wf();
                    assert(moved@.update(moved@.len() - 1, (moved_entry.0@, *final(moved_entry.1)))
                        =~= before@.remove(p).push((moved_entry.0@, *final(moved_entry.1))));
                }
                moved_entry
            },
            RawEntryMut::Vacant(entry) => entry.insert(default_key, default_val),
        }
    }

    /// As `or_insert`, with the new entry made by `default` where the cursor is
    /// vacant.
    pub fn or_insert_with<F: FnOnce() -> (String, V)>(self, default: F) -> (entry: (
        &'a String,
        &'a mut V,
    ))
        requires
            self.wf(),
            self is Vacant ==> default.requires(()),
            self is Vacant ==> forall|made: (String, V)|
                default.ensures((), made) ==> !has_key(self->Vacant_0.map@, made.0@),
        ensures
            match self {
                RawEntryMut::Occupied(e) => {
                    &&& entry.0@ == e.map@[e.index()].0
                    &&& *entry.1 == e.map@[e.index()].1
                    &&& final(e.map).wf()
                    &&& final(e.map)@ == e.map@.remove(e.index()).push(
                        (entry.0@, *final(entry.1)),
                    )
                    &&& final(e.map).seed() == e.map.seed()
                    &&& final(e.map).guarded()
                },
                RawEntryMut::Vacant(e) => {
                    &&& exists|made: (String, V)|
                        default.ensures((), made) && entry.0@ == made.0@ && *entry.1 == made.1
                    &&& final(e.map).wf()
                    &&& final(e.map)@ == e.map@.push((entry.0@, *final(entry.1)))
                    &&& final(e.map).seed() == e.map.seed()
                    &&& final(e.map).guarded()
                },
            },
    {
        match self {
            RawEntryMut::Occupied(mut entry) => {
                let ghost before = *entry.map;
                let ghost p = entry.index();
                entry.to_back();
                let ghost moved = *entry.map;
                let moved_entry = entry.into_key_value();
                proof {
                    before.list.lemma_wf();
                    assert(moved@.update(moved@.len() - 1, (moved_entry.0@, *final(moved_entry.1)))
                        =~= before@.remove(p).push((moved_entry.0@, *final(moved_entry.1))));
                }
                moved_entry
            },
            RawEntryMut::Vacant(entry) => {
                let (k, v) = default();
                entry.insert(k, v)
            },
        }
    }

    /// Lets `f` change the value of the entry that the cursor is on, where it
    /// stands. A vacant cursor is handed back as it is.
    pub fn and_modify<F: FnOnce(&String, &mut V)>(self, f: F) -> (entry: Self)
        requires
            self.wf(),
            self is Occupied ==> forall|key: &String, value: &mut V|
                key@ == self->Occupied_0.map@[self->Occupied_0.index()].0 && *value
                    == self->Occupied_0.map@[self->Occupied_0.index()].1 ==> f.requires(
                    (key, value),
                ),
        ensures
            match (self, entry) {
                (RawEntryMut::Occupied(e), RawEntryMut::Occupied(modified)) => {
                    &&& modified.wf()
                    &&& modified.node == e.node
                    &&& modified.index() == e.index()
                    &&& *final(modified.map) == *final(e.map)
                    &&& modified.map.seed() == e.map.seed()
                    &&& modified.map.guarded() == e.map.guarded()
                    &&& exists|key: &String, value: &mut V|
                        {
                            &&& key@ == e.map@[e.index()].0
                            &&& *value == e.map@[e.index()].1
                            &&& f.ensures((key, value), ())
                            &&& modified.map@ == e.map@.update(
                                e.index(),
                                (key@, *final(value)),
                            )
                        }
                },
                (RawEntryMut::Vacant(e), RawEntryMut::Vacant(same)) => {
                    &&& *same.map == *e.map
                    &&& *final(same.map) == *final(e.map)
                },
                _ => false,
            },
    {
        match self {
            RawEntryMut::Occupied(mut entry) => {
                let ghost before = *entry.map;
                let ghost p = entry.index();
                let (k, v) = entry.get_key_value_mut();
                f(k, v);
                proof {
                    before.lemma_same_keys(entry.map);
                }
                RawEntryMut::Occupied(entry)
            },
            RawEntryMut::Vacant(entry) => RawEntryMut::Vacant(entry),
        }
    }
}

/// Looks keys up for reading.
pub struct RawEntryBuilder<'a, V> {
    pub map: &'a MiniMap<V>,
}

impl<'a, V> RawEntryBuilder<'a, V> {
    /// Looks `k` up among the entries filed under `hash`.
    ///
    /// What comes back is the key and value of the entry that has the key `k`.
    /// Nothing comes back where no entry filed under `hash` has that key:
    /// where `hash` is the digest of `k`, that is where no entry has it.
    pub fn from_hash(self, hash: u64, k: &str) -> (found: Option<(&'a String, &'a V)>)
        requires
            self.map.wf(),
        ensures
            match found {
                Some((key, value)) => {
                    &&& has_key(self.map@, k@)
                    &&& key@ == k@
                    &&& *value == self.map@[key_index(self.map@, k@)].1
                },
                None => hash == key_hash(self.map.seed(), k@) ==> !has_key(self.map@, k@),
            },
    {
        proof {
            self.map.list.lemma_wf();
        }
        match self.map.table.find(hash, &self.map.list, k) {
            Some(node) => {
                proof {
                    let i = self.map.list.position(node);
                    assert(self.map.list.slots().to_set().contains(node));
                    assert(self.map@[i].0 == k@);
                    lemma_key_index(self.map@, k@, i);
                }
                let entry = self.map.list.entry_ref(node);
                Some((&entry.0, &entry.1))
            },
            None => {
                proof {
                    if hash == key_hash(self.map.seed(), k@) && has_key(self.map@, k@) {
                        let i = key_index(self.map@, k@);
                        let slot = self.map.list.slots()[i];
                        assert(self.map@[i].0 == k@);
                        assert(self.map.list.slots().to_set().contains(slot));
                        assert(index_entries(self.map.table).contains_key(slot));
                        assert(index_entries(self.map.table)[slot] == hash);
                    }
                }
                None
            },
        }
    }

    /// Looks `k` up with its digest `hash`, which the caller has computed.
    pub fn from_key_hashed_nocheck(self, hash: u64, k: &str) -> (found: Option<(&'a String, &'a V)>)
        requires
            self.map.wf(),
        ensures
            match found {
                Some((key, value)) => {
                    &&& has_key(self.map@, k@)
                    &&& key@ == k@
                    &&& *value == self.map@[key_index(self.map@, k@)].1
                },
                None => hash == key_hash(self.map.seed(), k@) ==> !has_key(self.map@, k@),
            },
    {
        self.from_hash(hash, k)
    }

    /// Looks `k` up: the key and value of the entry that has the key, or
    /// nothing where the map has no such entry.
    pub fn from_key(self, k: &str) -> (found: Option<(&'a String, &'a V)>)
        requires
            self.map.wf(),
        ensures
            match found {
                Some((key, value)) => {
                    &&& has_key(self.map@, k@)
                    &&& key@ == k@
                    &&& *value == self.map@[key_index(self.map@, k@)].1
                },
                None => !has_key(self.map@, k@),
            },
    {
        let hash = hash_key(self.map.hash_builder, k);
        self.from_key_hashed_nocheck(hash, k)
    }
}

} // verus!
