//! Cursors on the map that carry the key they were made with.

use crate::map::MiniMap;
use crate::model::{back_from, front_from, has_key, key_index};
use crate::raw_entry::{RawEntryMut, RawOccupiedEntryMut, RawVacantEntryMut};
use vstd::prelude::*;

verus! {

/// A cursor on the entry that has the key `key`.
pub struct OccupiedEntry<'a, V> {
    pub key: String,
    pub raw_entry: RawOccupiedEntryMut<'a, V>,
}

/// A cursor for the key `key` on a map that has no entry with it.
pub struct VacantEntry<'a, V> {
    pub key: String,
    pub raw_entry: RawVacantEntryMut<'a, V>,
}

/// The place of a key in the map: on an entry, or vacant.
pub enum Entry<'a, V> {
    Occupied(OccupiedEntry<'a, V>),
    Vacant(VacantEntry<'a, V>),
}

impl<V> MiniMap<V> {
    /// The place of `key` in the map.
    pub fn entry(&mut self, key: String) -> (entry: Entry<'_, V>)
        requires
            old(self).wf(),
        ensures
            entry.wf(),
            match entry {
                Entry::Occupied(e) => {
                    &&& e.key == key
                    &&& *e.raw_entry.map == *old(self)
                    &&& *final(e.raw_entry.map) == *final(self)
                    &&& has_key(old(self)@, key@)
                    &&& e.raw_entry.index() == key_index(old(self)@, key@)
                },
                Entry::Vacant(e) => {
                    &&& e.key == key
                    &&& *e.raw_entry.map == *old(self)
                    &&& *final(e.raw_entry.map) == *final(self)
                    &&& !has_key(old(self)@, key@)
                },
            },
    {
        match self.raw_entry_mut().from_key(key.as_str()) {
            RawEntryMut::Occupied(occupied) => Entry::Occupied(
                OccupiedEntry { key, raw_entry: occupied },
            ),
            RawEntryMut::Vacant(vacant) => Entry::Vacant(VacantEntry { key, raw_entry: vacant }),
        }
    }
}

impl<'a, V> OccupiedEntry<'a, V> {
    /// Whether the cursor is on an entry of a map that is in order, and that
    /// entry has the cursor's key.
    pub open spec fn wf(&self) -> bool {
        &&& self.raw_entry.wf()
        &&& self.raw_entry.map@[self.raw_entry.index()].0 == self.key@
    }

    /// The position of the cursor's entry in the order.
    pub open spec fn index(&self) -> int {
        self.raw_entry.index()
    }

    /// The key stored in the entry.
    pub fn key(&self) -> (key: &String)
        requires
            self.wf(),
        ensures
            key@ == self.key@,
    {
        self.raw_entry.key()
    }

    /// Removes the entry and returns its key and value.
    pub fn remove_entry(self) -> (entry: (String, V))
        requires
            self.wf(),
        ensures
            entry.0@ == self.key@,
            entry.1 == old(self.raw_entry.map)@[self.index()].1,
            final(self.raw_entry.map).wf(),
            final(self.raw_entry.map)@ == old(self.raw_entry.map)@.remove(self.index()),
            final(self.raw_entry.map).seed() == old(self.raw_entry.map).seed(),
            final(self.raw_entry.map).guarded() == old(self.raw_entry.map).guarded(),
    {
        self.raw_entry.remove_entry()
    }

    /// The value of the entry.
    pub fn get(&self) -> (value: &V)
        requires
            self.wf(),
        ensures
            *value == old(self.raw_entry.map)@[self.index()].1,
    {
        self.raw_entry.get()
    }

    /// Mutable access to the value of the entry, for as long as the cursor is
    /// borrowed.
    pub fn get_mut(&mut self) -> (value: &mut V)
        requires
            old(self).wf(),
        ensures
            *value == old(self).raw_entry.map@[old(self).index()].1,
            final(self).wf(),
            final(self).key == old(self).key,
            final(self).raw_entry.node == old(self).raw_entry.node,
            final(self).index() == old(self).index(),
            final(self).raw_entry.map@ == old(self).raw_entry.map@.update(
                old(self).index(),
                (old(self).key@, *final(value)),
            ),
            final(self).raw_entry.map.seed() == old(self).raw_entry.map.seed(),
            final(self).raw_entry.map.guarded() == old(self).raw_entry.map.guarded(),
            *final(final(self).raw_entry.map) == *final(old(self).raw_entry.map),
    {
        let ghost before = *self.raw_entry.map;
        proof {
            assert forall|after: MiniMap<V>| #[trigger] before.same_keys(&after) implies after.index_of(
                self.raw_entry.node,
            ) == before.index_of(self.raw_entry.node) by {
                before.lemma_same_keys(&after);
            }
        }
        self.raw_entry.get_mut()
    }

    /// Mutable access to the value of the entry, for as long as the map is
    /// borrowed.
    pub fn into_mut(self) -> (value: &'a mut V)
        requires
            self.wf(),
        ensures
            *value == old(self.raw_entry.map)@[self.index()].1,
            final(self.raw_entry.map).wf(),
            final(self.raw_entry.map)@ == old(self.raw_entry.map)@.update(
                self.index(),
                (self.key@, *final(value)),
            ),
            final(self.raw_entry.map).seed() == old(self.raw_entry.map).seed(),
            final(self.raw_entry.map).guarded() == old(self.raw_entry.map).guarded(),
    {
        self.raw_entry.into_mut()
    }

    /// Moves the entry to the back of the order.
    pub fn to_back(&mut self)
        requires
            old(self).wf(),
        ensures
            final(self).wf(),
            final(self).key == old(self).key,
            final(self).raw_entry.node == old(self).raw_entry.node,
            final(self).raw_entry.map@ == back_from(old(self).raw_entry.map@, old(self).index()),
            final(self).index() == final(self).raw_entry.map@.len() - 1,
            final(self).raw_entry.map.seed() == old(self).raw_entry.map.seed(),
            final(self).raw_entry.map.guarded() == old(self).raw_entry.map.guarded(),
            *final(final(self).raw_entry.map) == *final(old(self).raw_entry.map),
    {
        self.raw_entry.to_back()
    }

    /// Moves the entry to the front of the order.
    pub fn to_front(&mut self)
        requires
            old(self).wf(),
        ensures
            final(self).wf(),
            final(self).key == old(self).key,
            final(self).raw_entry.node == old(self).raw_entry.node,
            final(self).raw_entry.map@ == front_from(old(self).raw_entry.map@, old(self).index()),
            final(self).index() == 0,
            final(self).raw_entry.map.seed() == old(self).raw_entry.map.seed(),
            final(self).raw_entry.map.guarded() == old(self).raw_entry.map.guarded(),
            *final(final(self).raw_entry.map) == *final(old(self).raw_entry.map),
    {
        self.raw_entry.to_front()
    }

    /// Gives the entry the value `value`, moves it to the back of the order
    /// and returns the value that it had.
    pub fn insert(&mut self, value: V) -> (previous: V)
        requires
            old(self).wf(),
        ensures
            previous == old(self).raw_entry.map@[old(self).index()].1,
            final(self).wf(),
            final(self).key == old(self).key,
            final(self).raw_entry.node == old(self).raw_entry.node,
            final(self).raw_entry.map@ == old(self).raw_entry.map@.remove(old(self).index()).push(
                (old(self).key@, value),
            ),
            final(self).index() == final(self).raw_entry.map@.len() - 1,
            final(self).raw_entry.map.seed() == old(self).raw_entry.map.seed(),
            final(self).raw_entry.map.guarded() == old(self).raw_entry.map.guarded(),
            *final(final(self).raw_entry.map) == *final(old(self).raw_entry.map),
    {
        let ghost before = *self.raw_entry.map;
        let ghost p = self.index();
        self.raw_entry.to_back();
        let ghost moved = *self.raw_entry.map;
        let previous = self.raw_entry.replace_value(value);
        proof {
            before.lemma_wf();
            assert(moved@.update(moved@.len() - 1, (self.key@, value)) =~= before@.remove(p).push(
                (self.key@, value),
            ));
        }
        previous
    }

    /// Removes the entry and returns its value.
    pub fn remove(self) -> (value: V)
        requires
            self.wf(),
        ensures
            value == old(self.raw_entry.map)@[self.index()].1,
            final(self.raw_entry.map).wf(),
            final(self.raw_entry.map)@ == old(self.raw_entry.map)@.remove(self.index()),
            final(self.raw_entry.map).seed() == old(self.raw_entry.map).seed(),
            final(self.raw_entry.map).guarded() == old(self.raw_entry.map).guarded(),
    {
        self.raw_entry.remove()
    }

    /// Puts the cursor's key and `value` in the place of the entry's key and
    /// value, where the entry stands, and returns the key and value that were
    /// there.
    pub fn replace_entry(self, value: V) -> (previous: (String, V))
        requires
            self.wf(),
        ensures
            previous.0@ == self.key@,
            previous.1 == old(self.raw_entry.map)@[self.index()].1,
            final(self.raw_entry.map).wf(),
            final(self.raw_entry.map)@ == old(self.raw_entry.map)@.update(
                self.index(),
                (self.key@, value),
            ),
            final(self.raw_entry.map).seed() == old(self.raw_entry.map).seed(),
            final(self.raw_entry.map).guarded() == old(self.raw_entry.map).guarded(),
    {
        let mut raw_entry = self.raw_entry;
        let old_key = raw_entry.replace_key(self.key);
        let old_value = raw_entry.replace_value(value);
        (old_key, old_value)
    }

    /// As `replace_entry`, after the entry was moved to the back of the order.
    pub fn insert_entry(self, value: V) -> (previous: (String, V))
        requires
            self.wf(),
        ensures
            previous.0@ == self.key@,
            previous.1 == old(self.raw_entry.map)@[self.index()].1,
            final(self.raw_entry.map).wf(),
            final(self.raw_entry.map)@ == old(self.raw_entry.map)@.remove(self.index()).push(
                (self.key@, value),
            ),
            final(self.raw_entry.map).seed() == old(self.raw_entry.map).seed(),
            final(self.raw_entry.map).guarded() == old(self.raw_entry.map).guarded(),
    {
        let ghost before = *self.raw_entry.map;
        let ghost p = self.index();
        let mut entry = self;
        entry.raw_entry.to_back();
        let ghost moved = *entry.raw_entry.map;
        proof {
            before.lemma_wf();
            assert(moved@.update(moved@.len() - 1, (entry.key@, value)) =~= before@.remove(p).push(
                (entry.key@, value),
            ));
        }
        entry.replace_entry(value)
    }

    /// Puts the cursor's key in the place of the entry's key and returns the
    /// key that was there. The two read the same, so the map reads as before.
    pub fn replace_key(self) -> (previous: String)
        requires
            self.wf(),
        ensures
            previous@ == self.key@,
            final(self.raw_entry.map).wf(),
            final(self.raw_entry.map)@ == old(self.raw_entry.map)@,
            final(self.raw_entry.map).seed() == old(self.raw_entry.map).seed(),
            final(self.raw_entry.map).guarded() == old(self.raw_entry.map).guarded(),
    {
        let mut raw_entry = self.raw_entry;
        raw_entry.replace_key(self.key)
    }
}

impl<'a, V> VacantEntry<'a, V> {
    /// Whether the cursor is on a map that is in order and has no entry with
    /// the cursor's key.
    pub open spec fn wf(&self) -> bool {
        &&& self.raw_entry.map.wf()
        &&& !has_key(self.raw_entry.map@, self.key@)
    }

    /// The key that the cursor was made with.
    pub fn key(&self) -> (key: &String)
        ensures
            *key == self.key,
    {
        &self.key
    }

    /// Gives up the cursor for the key that it was made with.
    pub fn into_key(self) -> (key: String)
        ensures
            key == self.key,
            *final(self.raw_entry.map) == *old(self.raw_entry.map),
    {
        self.key
    }

    /// Inserts the cursor's key with `value` at the back of the order.
    pub fn insert(self, value: V) -> (inserted: &'a mut V)
        requires
            self.wf(),
        ensures
            *inserted == value,
            final(self.raw_entry.map).wf(),
            final(self.raw_entry.map)@ == old(self.raw_entry.map)@.push(
                (self.key@, *final(inserted)),
            ),
            final(self.raw_entry.map).seed() == old(self.raw_entry.map).seed(),
            final(self.raw_entry.map).guarded(),
    {
        self.raw_entry.insert(self.key, value).1
    }
}

impl<'a, V> Entry<'a, V> {
    /// Whether the cursor in either case is in order.
    pub open spec fn wf(&self) -> bool {
        match self {
            Entry::Occupied(e) => e.wf(),
            Entry::Vacant(e) => e.wf(),
        }
    }

    /// The value of the entry that has the cursor's key, moved to the back of
    /// the order; or `default`, newly inserted with the key at the back.
    pub fn or_insert(self, default: V) -> (value: &'a mut V)
        requires
            self.wf(),
        ensures
            match self {
                Entry::Occupied(e) => {
                    &&& *value == e.raw_entry.map@[e.index()].1
                    &&& final(e.raw_entry.map).wf()
                    &&& final(e.raw_entry.map)@ == e.raw_entry.map@.remove(e.index()).push(
                        (e.key@, *final(value)),
                    )
                    &&& final(e.raw_entry.map).seed() == e.raw_entry.map.seed()
                    &&& final(e.raw_entry.map).guarded()
                },
                Entry::Vacant(e) => {
                    &&& *value == default
                    &&& final(e.raw_entry.map).wf()
                    &&& final(e.raw_entry.map)@ == e.raw_entry.map@.push((e.key@, *final(value)))
                    &&& final(e.raw_entry.map).seed() == e.raw_entry.map.seed()
                    &&& final(e.raw_entry.map).guarded()
                },
            },
    {
        match self {
            Entry::Occupied(mut entry) => {
                let ghost before = *entry.raw_entry.map;
                let ghost p = entry.index();
                entry.to_back();
                let ghost moved = *entry.raw_entry.map;
                let value = entry.into_mut();
                proof {
                    before.lemma_wf();
                    assert(moved@.update(moved@.len() - 1, (entry.key@, *final(value)))
                        =~= before@.remove(p).push((entry.key@, *final(value))));
                }
                value
            },
            Entry::Vacant(entry) => entry.insert(default),
        }
    }

    /// As `or_insert`, with the new value made by `default` where the cursor
    /// is vacant.
    pub fn or_insert_with<F: FnOnce() -> V>(self, default: F) -> (value: &'a mut V)
        requires
            self.wf(),
            self is Vacant ==> default.requires(()),
        ensures
            match self {
                Entry::Occupied(e) => {
                    &&& *value == e.raw_entry.map@[e.index()].1
                    &&& final(e.raw_entry.map).wf()
                    &&& final(e.raw_entry.map)@ == e.raw_entry.map@.remove(e.index()).push(
                        (e.key@, *final(value)),
                    )
                    &&& final(e.raw_entry.map).seed() == e.raw_entry.map.seed()
                    &&& final(e.raw_entry.map).guarded()
                },
                Entry::Vacant(e) => {
                    &&& default.ensures((), *value)
                    &&& final(e.raw_entry.map).wf()
                    &&& final(e.raw_entry.map)@ == e.raw_entry.map@.push((e.key@, *final(value)))
                    &&& final(e.raw_entry.map).seed() == e.raw_entry.map.seed()
                    &&& final(e.raw_entry.map).guarded()
                },
            },
    {
        match self {
            Entry::Occupied(mut entry) => {
                let ghost before = *entry.raw_entry.map;
                let ghost p = entry.index();
                entry.to_back();
                let ghost moved = *entry.raw_entry.map;
                let value = entry.into_mut();
                proof {
                    before.lemma_wf();
                    assert(moved@.update(moved@.len() - 1, (entry.key@, *final(value)))
                        =~= before@.remove(p).push((entry.key@, *final(value))));
                }
                value
            },
            Entry::Vacant(entry) => entry.insert(default()),
        }
    }

    /// The key of the cursor: the stored key where it is on an entry, the key
    /// it was made with where it is vacant. The two read the same.
    pub fn key(&self) -> (key: &String)
        requires
            self.wf(),
        ensures
            match self {
                Entry::Occupied(e) => key@ == e.key@,
                Entry::Vacant(e) => key@ == e.key@,
            },
    {
        match self {
            Entry::Occupied(entry) => entry.key(),
            Entry::Vacant(entry) => entry.key(),
        }
    }

    /// Lets `f` change the value of the entry that the cursor is on, where it
    /// stands. A vacant cursor is handed back as it is.
    pub fn and_modify<F: FnOnce(&mut V)>(self, f: F) -> (entry: Self)
        requires
            self.wf(),
            self is Occupied ==> forall|value: &mut V|
                *value == self->Occupied_0.raw_entry.map@[self->Occupied_0.index()].1
                    ==> f.requires((value,)),
        ensures
            entry.wf(),
            match (self, entry) {
                (Entry::Occupied(e), Entry::Occupied(modified)) => {
                    &&& modified.key == e.key
                    &&& modified.raw_entry.node == e.raw_entry.node
                    &&& modified.index() == e.index()
                    &&& *final(modified.raw_entry.map) == *final(e.raw_entry.map)
                    &&& modified.raw_entry.map.seed() == e.raw_entry.map.seed()
                    &&& modified.raw_entry.map.guarded() == e.raw_entry.map.guarded()
                    &&& exists|value: &mut V|
                        {
                            &&& *value == e.raw_entry.map@[e.index()].1
                            &&& f.ensures((value,), ())
                            &&& modified.raw_entry.map@ == e.raw_entry.map@.update(
                                e.index(),
                                (e.key@, *final(value)),
                            )
                        }
                },
                (Entry::Vacant(e), Entry::Vacant(same)) => {
                    &&& same.key == e.key
                    &&& *same.raw_entry.map == *e.raw_entry.map
                    &&& *final(same.raw_entry.map) == *final(e.raw_entry.map)
                },
                _ => false,
            },
    {
        match self {
            Entry::Occupied(mut entry) => {
                f(entry.get_mut());
                Entry::Occupied(entry)
            },
            Entry::Vacant(entry) => Entry::Vacant(entry),
        }
    }
}

} // verus!
