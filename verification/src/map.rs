//! The ordered map.

use crate::hashing::key_hash;
use crate::index::{index_entries, index_filed, HashIndex};
use crate::model::{
    distinct_keys, has_key, inserted, inserted_all, key_index, keyed, lookup, moved_to_back,
    moved_to_front, removed, replaced, Entries,
};
use crate::node::NodeList;
use crate::raw_entry::{
    RawEntryBuilder, RawEntryBuilderMut, RawEntryMut, RawOccupiedEntryMut, RawVacantEntryMut,
};
use vstd::prelude::*;

verus! {

/// A map from string keys to values that keeps its entries in an order that
/// the caller controls.
///
/// The order starts as the order of insertion. Functions named `to_front` and
/// `to_back` move an entry; functions named `insert` put a new entry at the
/// back and, where the key is already there, move that entry to the back too.
pub struct MiniMap<V> {
    pub(crate) table: HashIndex,
    pub(crate) hash_builder: u64,
    pub(crate) list: NodeList<V>,
}

impl<V> View for MiniMap<V> {
    type V = Entries<V>;

    /// The entries of the map, from the front of the order to the back.
    open(crate) spec fn view(&self) -> Entries<V> {
        self.list.entries()
    }
}

impl<V> MiniMap<V> {
    /// The invariant of the map: the index holds exactly the live slots, each
    /// filed under the digest of its key, and no two of them hold the same key.
    pub open(crate) spec fn wf(&self) -> bool {
        &&& self.list.wf()
        &&& self.list.loose() is None
        &&& index_entries(self.table).dom() =~= self.list.slots().to_set()
        &&& index_filed(self.table, self.hash_builder, &self.list)
        &&& distinct_keys(self.list.entries())
    }

    /// The seed of the map's digests.
    pub open(crate) spec fn seed(&self) -> u64 {
        self.hash_builder
    }

    /// Whether `slot` is the slot of an entry.
    pub open(crate) spec fn holds(&self, slot: usize) -> bool {
        self.list.is_live(slot)
    }

    /// The position in the order of the entry in slot `slot`.
    pub open(crate) spec fn index_of(&self, slot: usize) -> int {
        self.list.position(slot)
    }

    /// What the invariant says of the entries: their keys are distinct, and an
    /// entry's slot gives its position.
    pub proof fn lemma_wf(&self)
        requires
            self.wf(),
        ensures
            distinct_keys(self@),
            self@.len() > 0 ==> self.guarded(),
            forall|slot: usize| self.holds(slot) ==> 0 <= #[trigger] self.index_of(slot) < self@.len(),
    {
        self.list.lemma_wf();
    }

    /// The number of slots in the free list: slots that held an entry once and
    /// wait to hold one again.
    pub open(crate) spec fn free_slots(&self) -> nat {
        self.list.spare().len()
    }

    /// Whether the guard slot has been allocated. A new map has none; the
    /// first insertion allocates it, and it stays for as long as the arena.
    pub open(crate) spec fn guarded(&self) -> bool {
        self.list.guard() is Some
    }

    /// The key that slot `slot` stores: the string itself, of which the view
    /// of the map shows the characters only.
    pub open(crate) spec fn stored_key(&self, slot: usize) -> String {
        self.list.payload(slot).unwrap().0
    }

    /// The arena of the map's slots.
    pub open(crate) spec fn arena(&self) -> NodeList<V> {
        self.list
    }

    /// Whether `after` is this map with other values at most: the same slots,
    /// the same keys and the same index.
    pub open(crate) spec fn same_keys(&self, after: &Self) -> bool {
        &&& self.list.same_shape(&after.list)
        &&& after.table == self.table
        &&& after.hash_builder == self.hash_builder
    }

    /// The invariant does not depend on the values of the entries.
    pub proof fn lemma_same_keys(&self, after: &Self)
        requires
            self.wf(),
            self.same_keys(after),
        ensures
            after.wf(),
            after.seed() == self.seed(),
            after@.len() == self@.len(),
            forall|i: int| 0 <= i < self@.len() ==> (#[trigger] after@[i]).0 == self@[i].0,
            forall|slot: usize| #[trigger] after.holds(slot) == self.holds(slot),
            forall|slot: usize| #[trigger] after.index_of(slot) == self.index_of(slot),
            after.free_slots() == self.free_slots(),
            after.guarded() == self.guarded(),
    {
        self.list.lemma_wf();
        self.list.lemma_same_shape(&after.list);
        after.list.lemma_wf();
        assert forall|slot: usize| #[trigger]
            index_entries(after.table).contains_key(slot) implies {
            &&& after.list.payload(slot) is Some
            &&& index_entries(after.table)[slot] == key_hash(
                after.hash_builder,
                after.list.key_of(slot),
            )
        } by {
            assert(self.list.payload(slot) is Some);
            assert(after.list.payload(slot) is Some);
            assert(after.list.key_of(slot) == self.list.key_of(slot));
        }
        let a = after.list.entries();
        let b = self.list.entries();
        assert forall|i: int, j: int| 0 <= i < j < a.len() implies (#[trigger] a[i]).0 != (
        #[trigger] a[j]).0 by {
            assert(b[i].0 != b[j].0);
            assert(a[i].0 == b[i].0);
            assert(a[j].0 == b[j].0);
        }
    }

    /// An empty map whose digests are seeded with `hash_builder`.
    pub fn with_hasher(hash_builder: u64) -> (map: Self)
        ensures
            map.wf(),
            map@ == Entries::<V>::empty(),
            map.seed() == hash_builder,
            map.free_slots() == 0,
            !map.guarded(),
    {
        let map = MiniMap { table: HashIndex::new(), hash_builder, list: NodeList::new() };
        proof {
            assert(map.list.slots().to_set() =~= Set::<usize>::empty());
            assert(map@ =~= Entries::<V>::empty());
        }
        map
    }

    /// An empty map.
    pub fn new() -> (map: Self)
        ensures
            map.wf(),
            map@ == Entries::<V>::empty(),
            map.seed() == 0,
    {
        Self::with_hasher(0)
    }

    /// The number of entries.
    pub fn len(&self) -> (len: usize)
        requires
            self.wf(),
        ensures
            len == self@.len(),
    {
        proof {
            self.list.lemma_wf();
            self.list.slots().unique_seq_to_set();
        }
        self.table.len()
    }

    /// Whether the map has no entry.
    pub fn is_empty(&self) -> (empty: bool)
        requires
            self.wf(),
        ensures
            empty == (self@.len() == 0),
    {
        self.len() == 0
    }

    /// The seed of the map's digests.
    pub fn hasher(&self) -> (hash_builder: u64)
        ensures
            hash_builder == self.seed(),
    {
        self.hash_builder
    }

    /// How many entries the index can hold before it grows.
    pub fn capacity(&self) -> (capacity: usize)
        requires
            self.wf(),
        ensures
            capacity >= self@.len(),
    {
        proof {
            self.list.lemma_wf();
            self.list.slots().unique_seq_to_set();
        }
        self.table.capacity()
    }

    /// Makes room for `additional` more entries in the index, where the
    /// allocator can give it. The entries stay as they are.
    pub fn reserve(&mut self, additional: usize)
        requires
            old(self).wf(),
        ensures
            final(self).wf(),
            final(self)@ == old(self)@,
            final(self).seed() == old(self).seed(),
            old(self).guarded() ==> final(self).guarded(),
            final(self).free_slots() == old(self).free_slots(),
    {
        self.table.reserve(additional, self.hash_builder, &self.list);
    }

    /// An empty map with room for `capacity` entries in its index, where the
    /// allocator can give it, and digests seeded with `hash_builder`.
    pub fn with_capacity_and_hasher(capacity: usize, hash_builder: u64) -> (map: Self)
        ensures
            map.wf(),
            map@ == Entries::<V>::empty(),
            map.seed() == hash_builder,
    {
        let mut map = Self::with_hasher(hash_builder);
        map.reserve(capacity);
        map
    }

    /// An empty map with room for `capacity` entries in its index, where the
    /// allocator can give it.
    pub fn with_capacity(capacity: usize) -> (map: Self)
        ensures
            map.wf(),
            map@ == Entries::<V>::empty(),
            map.seed() == 0,
    {
        Self::with_capacity_and_hasher(capacity, 0)
    }

    /// Removes every entry. The guard slot stays allocated, and the slots of
    /// the entries go to the free list.
    pub fn clear(&mut self)
        requires
            old(self).wf(),
        ensures
            final(self).wf(),
            final(self)@ == Entries::<V>::empty(),
            final(self).seed() == old(self).seed(),
            old(self).guarded() ==> final(self).guarded(),
            final(self).free_slots() == old(self).free_slots() + old(self)@.len(),
    {
        self.table.clear();
        self.list.drop_value_nodes();
        proof {
            assert(self.list.slots().to_set() =~= Set::<usize>::empty());
            assert(self@ =~= Entries::<V>::empty());
        }
    }

    /// The entry at the front of the order.
    pub fn front(&self) -> (entry: Option<(&String, &V)>)
        requires
            self.wf(),
        ensures
            match entry {
                Some((key, value)) => self@.len() > 0 && key@ == self@[0].0 && *value == self@[0].1,
                None => self@.len() == 0,
            },
    {
        proof {
            self.list.lemma_wf();
        }
        match self.list.front() {
            Some(front) => {
                let entry = self.list.entry_ref(front);
                Some((&entry.0, &entry.1))
            },
            None => None,
        }
    }

    /// The entry at the back of the order.
    pub fn back(&self) -> (entry: Option<(&String, &V)>)
        requires
            self.wf(),
        ensures
            match entry {
                Some((key, value)) => self@.len() > 0 && key@ == self@.last().0 && *value
                    == self@.last().1,
                None => self@.len() == 0,
            },
    {
        proof {
            self.list.lemma_wf();
        }
        match self.list.back() {
            Some(back) => {
                let entry = self.list.entry_ref(back);
                Some((&entry.0, &entry.1))
            },
            None => None,
        }
    }

    /// A builder of cursors that read.
    pub fn raw_entry(&self) -> (builder: RawEntryBuilder<'_, V>)
        ensures
            *builder.map == *self,
    {
        RawEntryBuilder { map: self }
    }

    /// A builder of cursors that write.
    pub fn raw_entry_mut(&mut self) -> (builder: RawEntryBuilderMut<'_, V>)
        ensures
            *builder.map == *old(self),
            *final(builder.map) == *final(self),
    {
        RawEntryBuilderMut { map: self }
    }

    /// The value of the entry that has the key `k`.
    pub fn get(&self, k: &str) -> (value: Option<&V>)
        requires
            self.wf(),
        ensures
            match value {
                Some(v) => lookup(self@, k@) == Some(*v),
                None => lookup(self@, k@) is None,
            },
    {
        match self.raw_entry().from_key(k) {
            Some((_, v)) => Some(v),
            None => None,
        }
    }

    /// The stored key and the value of the entry that has the key `k`.
    pub fn get_key_value(&self, k: &str) -> (entry: Option<(&String, &V)>)
        requires
            self.wf(),
        ensures
            match entry {
                Some((key, v)) => key@ == k@ && lookup(self@, k@) == Some(*v),
                None => lookup(self@, k@) is None,
            },
    {
        self.raw_entry().from_key(k)
    }

    /// Whether an entry has the key `k`.
    pub fn contains_key(&self, k: &str) -> (found: bool)
        requires
            self.wf(),
        ensures
            found == has_key(self@, k@),
    {
        self.get(k).is_some()
    }

    /// Mutable access to the value of the entry that has the key `k`. The
    /// order of the entries stays as it is.
    pub fn get_mut(&mut self, k: &str) -> (value: Option<&mut V>)
        requires
            old(self).wf(),
        ensures
            final(self).wf(),
            final(self).seed() == old(self).seed(),
            old(self).guarded() ==> final(self).guarded(),
            final(self).free_slots() == old(self).free_slots(),
            match value {
                Some(v) => {
                    &&& lookup(old(self)@, k@) == Some(*v)
                    &&& final(self)@ == old(self)@.update(
                        key_index(old(self)@, k@),
                        (k@, *final(v)),
                    )
                },
                None => lookup(old(self)@, k@) is None && final(self)@ == old(self)@,
            },
    {
        match self.raw_entry_mut().from_key(k) {
            RawEntryMut::Occupied(occupied) => Some(occupied.into_mut()),
            RawEntryMut::Vacant(_) => None,
        }
    }

    /// Inserts `k` with `v` at the back of the order and returns the value
    /// that the key had before, if it had one. An entry that had the key is
    /// moved to the back.
    pub fn insert(&mut self, k: String, v: V) -> (previous: Option<V>)
        requires
            old(self).wf(),
        ensures
            final(self).wf(),
            final(self).seed() == old(self).seed(),
            old(self).guarded() ==> final(self).guarded(),
            final(self)@ == inserted(old(self)@, k@, v),
            final(self).guarded(),
            final(self).free_slots() == (if has_key(old(self)@, k@) || old(self).free_slots() == 0 {
                old(self).free_slots() as int
            } else {
                old(self).free_slots() - 1
            }),
            previous == lookup(old(self)@, k@),
    {
        proof {
            self.lemma_wf();
        }
        match self.raw_entry_mut().from_key(k.as_str()) {
            RawEntryMut::Occupied(mut occupied) => {
                occupied.to_back();
                Some(occupied.replace_value(v))
            },
            RawEntryMut::Vacant(vacant) => {
                vacant.insert(k, v);
                None
            },
        }
    }

    /// Gives the entry that has the key `k` the value `v` where it stands, or
    /// inserts `k` with `v` at the back where no entry has the key. Returns
    /// the value that the key had before, if it had one.
    pub fn replace(&mut self, k: String, v: V) -> (previous: Option<V>)
        requires
            old(self).wf(),
        ensures
            final(self).wf(),
            final(self).seed() == old(self).seed(),
            old(self).guarded() ==> final(self).guarded(),
            final(self)@ == replaced(old(self)@, k@, v),
            final(self).guarded(),
            final(self).free_slots() == (if has_key(old(self)@, k@) || old(self).free_slots() == 0 {
                old(self).free_slots() as int
            } else {
                old(self).free_slots() - 1
            }),
            previous == lookup(old(self)@, k@),
    {
        proof {
            self.lemma_wf();
        }
        match self.raw_entry_mut().from_key(k.as_str()) {
            RawEntryMut::Occupied(mut occupied) => Some(occupied.replace_value(v)),
            RawEntryMut::Vacant(vacant) => {
                vacant.insert(k, v);
                None
            },
        }
    }

    /// Removes the entry that has the key `k` and returns its value.
    pub fn remove(&mut self, k: &str) -> (value: Option<V>)
        requires
            old(self).wf(),
        ensures
            final(self).wf(),
            final(self).seed() == old(self).seed(),
            old(self).guarded() ==> final(self).guarded(),
            final(self)@ == removed(old(self)@, k@),
            final(self).free_slots() == (if has_key(old(self)@, k@) {
                old(self).free_slots() + 1
            } else {
                old(self).free_slots()
            }),
            value == lookup(old(self)@, k@),
    {
        match self.raw_entry_mut().from_key(k) {
            RawEntryMut::Occupied(occupied) => Some(occupied.remove()),
            RawEntryMut::Vacant(_) => None,
        }
    }

    /// Removes the entry that has the key `k` and returns its key and value.
    pub fn remove_entry(&mut self, k: &str) -> (entry: Option<(String, V)>)
        requires
            old(self).wf(),
        ensures
            final(self).wf(),
            final(self).seed() == old(self).seed(),
            old(self).guarded() ==> final(self).guarded(),
            final(self)@ == removed(old(self)@, k@),
            final(self).free_slots() == (if has_key(old(self)@, k@) {
                old(self).free_slots() + 1
            } else {
                old(self).free_slots()
            }),
            match entry {
                Some((key, value)) => key@ == k@ && lookup(old(self)@, k@) == Some(value),
                None => lookup(old(self)@, k@) is None,
            },
    {
        match self.raw_entry_mut().from_key(k) {
            RawEntryMut::Occupied(occupied) => Some(occupied.remove_entry()),
            RawEntryMut::Vacant(_) => None,
        }
    }

    /// Removes the entry at the front of the order and returns its key and
    /// value.
    pub fn pop_front(&mut self) -> (entry: Option<(String, V)>)
        requires
            old(self).wf(),
        ensures
            final(self).wf(),
            final(self).seed() == old(self).seed(),
            old(self).guarded() ==> final(self).guarded(),
            final(self).free_slots() == (if old(self)@.len() > 0 {
                old(self).free_slots() + 1
            } else {
                old(self).free_slots()
            }),
            match entry {
                Some((key, value)) => {
                    &&& old(self)@.len() > 0
                    &&& key@ == old(self)@[0].0
                    &&& value == old(self)@[0].1
                    &&& final(self)@ == old(self)@.remove(0)
                },
                None => old(self)@.len() == 0 && final(self)@ == old(self)@,
            },
    {
        if self.is_empty() {
            return None;
        }
        proof {
            self.list.lemma_wf();
        }
        match self.list.front() {
            Some(front) => {
                let occupied = RawOccupiedEntryMut { map: self, node: front };
                Some(occupied.remove_entry())
            },
            None => None,
        }
    }

    /// Removes the entry at the back of the order and returns its key and
    /// value.
    pub fn pop_back(&mut self) -> (entry: Option<(String, V)>)
        requires
            old(self).wf(),
        ensures
            final(self).wf(),
            final(self).seed() == old(self).seed(),
            old(self).guarded() ==> final(self).guarded(),
            final(self).free_slots() == (if old(self)@.len() > 0 {
                old(self).free_slots() + 1
            } else {
                old(self).free_slots()
            }),
            match entry {
                Some((key, value)) => {
                    &&& old(self)@.len() > 0
                    &&& key@ == old(self)@.last().0
                    &&& value == old(self)@.last().1
                    &&& final(self)@ == old(self)@.drop_last()
                },
                None => old(self)@.len() == 0 && final(self)@ == old(self)@,
            },
    {
        if self.is_empty() {
            return None;
        }
        proof {
            self.list.lemma_wf();
        }
        match self.list.back() {
            Some(back) => {
                let ghost before = *self;
                let occupied = RawOccupiedEntryMut { map: self, node: back };
                let entry = occupied.remove_entry();
                proof {
                    assert(before@.remove(before@.len() - 1) =~= before@.drop_last());
                }
                Some(entry)
            },
            None => None,
        }
    }

    /// Moves the entry that has the key `k` to the front of the order and
    /// gives mutable access to its value.
    pub fn to_front(&mut self, k: &str) -> (value: Option<&mut V>)
        requires
            old(self).wf(),
        ensures
            final(self).wf(),
            final(self).seed() == old(self).seed(),
            old(self).guarded() ==> final(self).guarded(),
            final(self).free_slots() == old(self).free_slots(),
            match value {
                Some(v) => {
                    &&& lookup(old(self)@, k@) == Some(*v)
                    &&& final(self)@ == moved_to_front(old(self)@, k@).update(0, (k@, *final(v)))
                },
                None => lookup(old(self)@, k@) is None && final(self)@ == old(self)@,
            },
    {
        match self.raw_entry_mut().from_key(k) {
            RawEntryMut::Occupied(mut occupied) => {
                occupied.to_front();
                Some(occupied.into_mut())
            },
            RawEntryMut::Vacant(_) => None,
        }
    }

    /// Moves the entry that has the key `k` to the back of the order and gives
    /// mutable access to its value.
    pub fn to_back(&mut self, k: &str) -> (value: Option<&mut V>)
        requires
            old(self).wf(),
        ensures
            final(self).wf(),
            final(self).seed() == old(self).seed(),
            old(self).guarded() ==> final(self).guarded(),
            final(self).free_slots() == old(self).free_slots(),
            match value {
                Some(v) => {
                    &&& lookup(old(self)@, k@) == Some(*v)
                    &&& final(self)@ == moved_to_back(old(self)@, k@).update(
                        old(self)@.len() - 1,
                        (k@, *final(v)),
                    )
                },
                None => lookup(old(self)@, k@) is None && final(self)@ == old(self)@,
            },
    {
        match self.raw_entry_mut().from_key(k) {
            RawEntryMut::Occupied(mut occupied) => {
                occupied.to_back();
                Some(occupied.into_mut())
            },
            RawEntryMut::Vacant(_) => None,
        }
    }

    /// The value of the entry that has the key `k`, which the map has.
    pub fn index(&self, k: &str) -> (value: &V)
        requires
            self.wf(),
            has_key(self@, k@),
        ensures
            lookup(self@, k@) == Some(*value),
    {
        match self.get(k) {
            Some(value) => value,
            None => vstd::pervasive::unreached(),
        }
    }

    /// Mutable access to the value of the entry that has the key `k`, which
    /// the map has.
    pub fn index_mut(&mut self, k: &str) -> (value: &mut V)
        requires
            old(self).wf(),
            has_key(old(self)@, k@),
        ensures
            final(self).wf(),
            final(self).seed() == old(self).seed(),
            old(self).guarded() ==> final(self).guarded(),
            final(self).free_slots() == old(self).free_slots(),
            lookup(old(self)@, k@) == Some(*value),
            final(self)@ == old(self)@.update(key_index(old(self)@, k@), (k@, *final(value))),
    {
        match self.get_mut(k) {
            Some(value) => value,
            None => vstd::pervasive::unreached(),
        }
    }

    /// Inserts each of `items`, in their order, as `insert` does.
    pub fn extend(&mut self, items: Vec<(String, V)>)
        requires
            old(self).wf(),
        ensures
            final(self).wf(),
            final(self).seed() == old(self).seed(),
            old(self).guarded() ==> final(self).guarded(),
            final(self)@ == inserted_all(old(self)@, keyed(items@)),
    {
        let ghost all = keyed(items@);
        for item in it: items
            invariant
                self.wf(),
                self.seed() == old(self).seed(),
                old(self).guarded() ==> self.guarded(),
                all == keyed(it.seq()),
                self@ == inserted_all(old(self)@, all.take(it.index() as int)),
        {
            proof {
                let i = it.index() as int;
                assert(all.take(i + 1).drop_last() =~= all.take(i));
                assert(all.take(i + 1).last() == (item.0@, item.1));
            }
            let (k, v) = item;
            self.insert(k, v);
        }
        proof {
            assert(all.take(all.len() as int) =~= all);
        }
    }

    /// A map that holds `items`, inserted in their order.
    pub fn from_iter(items: Vec<(String, V)>) -> (map: Self)
        ensures
            map.wf(),
            map.seed() == 0,
            map@ == inserted_all(Entries::<V>::empty(), keyed(items@)),
    {
        let mut map = Self::with_capacity_and_hasher(items.len(), 0);
        map.extend(items);
        map
    }

    /// Rebuilds the arena without free slots: the entries move, in order, to
    /// new slots at the start of a new arena, and the index files them again.
    pub fn drop_free_nodes(&mut self)
        requires
            old(self).wf(),
        ensures
            final(self).wf(),
            final(self).seed() == old(self).seed(),
            final(self)@ == old(self)@,
            final(self).free_slots() == 0,
    {
        let mut emptied = Self::with_hasher(self.hash_builder);
        core::mem::swap(self, &mut emptied);
        let ghost all = emptied@;
        proof {
            emptied.lemma_wf();
        }
        let mut rest = emptied.into_iter();
        let mut next = rest.next();
        let ghost mut n: int = 0;
        while next.is_some()
            invariant
                self.wf(),
                self.seed() == old(self).seed(),
                self.free_slots() == 0,
                distinct_keys(all),
                rest.wf(),
                0 <= n <= all.len(),
                self@ == all.take(n),
                match next {
                    Some((key, value)) => {
                        &&& n < all.len()
                        &&& key@ == all[n].0
                        &&& value == all[n].1
                        &&& rest@ == all.skip(n + 1)
                    },
                    None => n == all.len(),
                },
            decreases all.len() - n,
        {
            let (key, value) = next.unwrap();
            proof {
                if has_key(self@, key@) {
                    let i = key_index(self@, key@);
                    assert(self@[i] == all[i]);
                    assert(all[i].0 != all[n].0);
                }
                assert(all.take(n + 1) =~= all.take(n).push((key@, value)));
            }
            let vacant = RawVacantEntryMut { map: self };
            vacant.insert(key, value);
            next = rest.next();
            proof {
                if n + 1 < all.len() {
                    assert(all.skip(n + 1)[0] == all[n + 1]);
                    assert(all.skip(n + 1).skip(1) =~= all.skip(n + 2));
                }
                n = n + 1;
            }
        }
        proof {
            assert(all.take(n) =~= all);
        }
    }

    /// Gives back the room that the map does not need: the free slots of the
    /// arena and the spare room of the index. The entries stay as they are.
    pub fn shrink_to_fit(&mut self)
        requires
            old(self).wf(),
        ensures
            final(self).wf(),
            final(self).seed() == old(self).seed(),
            final(self)@ == old(self)@,
            final(self).free_slots() == 0,
    {
        self.drop_free_nodes();
        self.table.shrink_to_fit(self.hash_builder, &self.list);
    }
}

impl<V: Clone> MiniMap<V> {
    /// A map with clones of the keys and values of this one, in the same
    /// order and under the same seed.
    pub fn clone(&self) -> (map: Self)
        requires
            self.wf(),
        ensures
            map.wf(),
            map.seed() == self.seed(),
            map@.len() == self@.len(),
            forall|i: int|
                0 <= i < self@.len() ==> (#[trigger] map@[i]).0 == self@[i].0 && cloned(
                    self@[i].1,
                    map@[i].1,
                ),
    {
        let mut map = Self::with_hasher(self.hash_builder);
        proof {
            self.lemma_wf();
        }
        let mut rest = self.iter();
        let mut next = rest.next();
        let ghost mut n: int = 0;
        while next.is_some()
            invariant
                self.wf(),
                distinct_keys(self@),
                map.wf(),
                map.seed() == self.seed(),
                rest.wf(),
                0 <= n <= self@.len(),
                map@.len() == n,
                forall|i: int|
                    0 <= i < n ==> (#[trigger] map@[i]).0 == self@[i].0 && cloned(
                        self@[i].1,
                        map@[i].1,
                    ),
                match next {
                    Some((key, value)) => {
                        &&& n < self@.len()
                        &&& key@ == self@[n].0
                        &&& *value == self@[n].1
                        &&& rest@ == self@.skip(n + 1)
                    },
                    None => n == self@.len(),
                },
            decreases self@.len() - n,
        {
            let (key, value) = next.unwrap();
            let ghost before = map@;
            proof {
                if has_key(map@, key@) {
                    let i = key_index(map@, key@);
                    assert(map@[i].0 == self@[i].0);
                    assert(self@[i].0 != self@[n].0);
                }
            }
            let value = value.clone();
            map.insert(key.clone(), value);
            next = rest.next();
            proof {
                assert(map@ == before.push((key@, value)));
                assert forall|i: int| 0 <= i < n + 1 implies (#[trigger] map@[i]).0 == self@[i].0
                    && cloned(self@[i].1, map@[i].1) by {
                    if i < n {
                        assert(map@[i] == before[i]);
                    }
                }
                if n + 1 < self@.len() {
                    assert(self@.skip(n + 1)[0] == self@[n + 1]);
                    assert(self@.skip(n + 1).skip(1) =~= self@.skip(n + 2));
                }
                n = n + 1;
            }
        }
        map
    }
}

impl<V> Default for MiniMap<V> {
    /// An empty map.
    fn default() -> (map: Self)
        ensures
            map.wf(),
            map@ == Entries::<V>::empty(),
            map.seed() == 0,
    {
        Self::with_hasher(0)
    }
}

} // verus!
