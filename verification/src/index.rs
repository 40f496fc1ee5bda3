//! The hash index of the map: a `hashbrown::HashTable` of slot numbers.
//!
//! The table files each slot under the digest of the key that the slot holds.
//! It never reads a key itself: every call hands it the digest to look under
//! and a way to compare or to digest the key of a slot that it holds.

use crate::hashing::key_hash;
use crate::node::NodeList;
use hashbrown::HashTable;
use vstd::prelude::*;

verus! {

/// A `hashbrown::HashTable<usize>`, kept from the verifier's sight: its type
/// has an allocator parameter that cannot be declared to the verifier. Only
/// the functions of this file touch the table, and what is known of it is what
/// their contracts say of `index_entries`.
#[verifier::external_body]
pub struct HashIndex {
    table: HashTable<usize>,
}

/// What the table holds: each slot number in it, with the digest under which
/// the slot was inserted.
pub uninterp spec fn index_entries(index: HashIndex) -> Map<usize, u64>;

/// Whether every slot in the table holds a key in `list`.
pub open spec fn index_within<V>(index: HashIndex, list: &NodeList<V>) -> bool {
    forall|slot: usize| #[trigger]
        index_entries(index).contains_key(slot) ==> list.payload(slot) is Some
}

/// Whether every slot in the table holds a key in `list` and is filed under
/// the digest of that key for the seed `seed`.
pub open spec fn index_filed<V>(index: HashIndex, seed: u64, list: &NodeList<V>) -> bool {
    forall|slot: usize| #[trigger]
        index_entries(index).contains_key(slot) ==> {
            &&& list.payload(slot) is Some
            &&& index_entries(index)[slot] == key_hash(seed, list.key_of(slot))
        }
}

impl HashIndex {
    /// `HashTable::new`: a table that holds nothing.
    #[verifier::external_body]
    pub(crate) fn new() -> (index: Self)
        ensures
            (index_entries(index) == Map::<usize, u64>::empty()),
    {
        HashIndex { table: HashTable::new() }
    }

    /// `HashTable::len`: the number of slots in the table.
    #[verifier::external_body]
    pub(crate) fn len(&self) -> (len: usize)
        ensures
            len == index_entries(*self).dom().len(),
    {
        self.table.len()
    }

    /// `HashTable::capacity`: how many slots the table can hold before it
    /// grows, which is never less than it holds.
    #[verifier::external_body]
    pub(crate) fn capacity(&self) -> (capacity: usize)
        ensures
            capacity >= index_entries(*self).dom().len(),
    {
        self.table.capacity()
    }

    /// `HashTable::find` with the digest `hash`, comparing the key of each slot
    /// that the table tries with `key`. A slot that comes back is in the table
    /// and holds `key`. When none comes back, no slot filed under `hash` holds
    /// `key`: the table tries all of those, and may try others.
    #[verifier::external_body]
    pub(crate) fn find<V>(&self, hash: u64, list: &NodeList<V>, key: &str) -> (found: Option<usize>)
        requires
            list.wf(),
            index_within(*self, list),
        ensures
            match found {
                Some(slot) => index_entries(*self).contains_key(slot) && list.key_of(slot) == key@,
                None => forall|slot: usize|
                    index_entries(*self).contains_key(slot) && #[trigger] index_entries(
                        *self,
                    )[slot] == hash ==> list.key_of(slot) != key@,
            },
    {
        self.table.find(hash, |slot| list.key_matches(*slot, key)).copied()
    }

    /// `HashTable::insert_unique`: files `slot` under `hash` without looking
    /// for it first. The table may grow, and then files the slots that it holds
    /// again, each under the digest of its key in `list`: which must be the
    /// digest under which the slot was filed before. As `Vec::push` does, the
    /// call gives up where the room it needs is more than an allocation can
    /// be; the arena, whose nodes are larger than the table's entries, reaches
    /// that point first.
    #[verifier::external_body]
    pub(crate) fn insert_unique<V>(&mut self, hash: u64, slot: usize, seed: u64, list: &NodeList<V>)
        requires
            list.wf(),
            index_filed(*old(self), seed, list),
            !index_entries(*old(self)).contains_key(slot),
        ensures
            index_entries(*final(self)) == index_entries(*old(self)).insert(slot, hash),
    {
        self.table.insert_unique(hash, slot, |slot| list.hash_node(seed, *slot));
    }

    /// `HashTable::find_entry` with the digest `hash` and the key `key`, as in
    /// `find`, and then `OccupiedEntry::remove` on the entry found: the slot
    /// that comes back has left the table. When none comes back the table is
    /// unchanged.
    #[verifier::external_body]
    pub(crate) fn remove<V>(&mut self, hash: u64, list: &NodeList<V>, key: &str) -> (removed: Option<usize>)
        requires
            list.wf(),
            index_within(*old(self), list),
        ensures
            match removed {
                Some(slot) => {
                    &&& index_entries(*old(self)).contains_key(slot)
                    &&& list.key_of(slot) == key@
                    &&& index_entries(*final(self)) == index_entries(*old(self)).remove(slot)
                },
                None => {
                    &&& index_entries(*final(self)) == index_entries(*old(self))
                    &&& forall|slot: usize|
                        index_entries(*old(self)).contains_key(slot) && #[trigger] index_entries(
                            *old(self),
                        )[slot] == hash ==> list.key_of(slot) != key@
                },
            },
    {
        match self.table.find_entry(hash, |slot| list.key_matches(*slot, key)) {
            Ok(entry) => Some(entry.remove().0),
            Err(_) => None,
        }
    }

    /// `HashTable::clear`: the table holds nothing afterwards.
    #[verifier::external_body]
    pub(crate) fn clear(&mut self)
        ensures
            (index_entries(*final(self)) == Map::<usize, u64>::empty()),
    {
        self.table.clear();
    }

    /// `HashTable::try_reserve`: makes room for `additional` more slots where
    /// the allocator can give it and the room can be counted. The table holds
    /// the same slots afterwards, whether it grew or not; a failure is not
    /// reported.
    #[verifier::external_body]
    pub(crate) fn reserve<V>(&mut self, additional: usize, seed: u64, list: &NodeList<V>)
        requires
            list.wf(),
            index_filed(*old(self), seed, list),
        ensures
            index_entries(*final(self)) == index_entries(*old(self)),
    {
        let _ = self.table.try_reserve(additional, |slot| list.hash_node(seed, *slot));
    }

    /// `HashTable::shrink_to_fit`: gives back room that the table does not
    /// need. The table holds the same slots afterwards.
    #[verifier::external_body]
    pub(crate) fn shrink_to_fit<V>(&mut self, seed: u64, list: &NodeList<V>)
        requires
            list.wf(),
            index_filed(*old(self), seed, list),
        ensures
            index_entries(*final(self)) == index_entries(*old(self)),
    {
        self.table.shrink_to_fit(|slot| list.hash_node(seed, *slot));
    }
}

} // verus!
