//! The slots of the map: a growable arena of nodes, threaded by index into a
//! ring of live nodes around a guard and into a stack of free nodes.

use crate::hashing::{hash_key, key_eq, key_hash};
use vstd::prelude::*;

verus! {

/// How a slot is linked to other slots. A live slot and the guard carry ring
/// links; a slot in the free list carries the link to the next free slot.
#[derive(Clone, Copy)]
pub enum Links {
    Value { next: usize, prev: usize },
    Free { next_free: Option<usize> },
}

/// One slot of the arena: a key and value while the slot is live, nothing
/// while it is free or serves as the guard.
pub struct Node<V> {
    entry: Option<(String, V)>,
    links: Links,
}

impl<V> Node<V> {
    /// The key and value that the slot holds, if any.
    pub closed spec fn payload(&self) -> Option<(String, V)> {
        self.entry
    }

    /// The links of the slot.
    pub closed spec fn links(&self) -> Links {
        self.links
    }

    /// A slot without a payload, linked to itself at index `at`.
    fn vacant(at: usize) -> (node: Self)
        ensures
            node.payload() is None,
            node.links() == (Links::Value { next: at, prev: at }),
    {
        Node { entry: None, links: Links::Value { next: at, prev: at } }
    }

    /// Stores a key and value in an empty slot.
    pub fn put_entry(&mut self, entry: (String, V))
        requires
            old(self).payload() is None,
        ensures
            final(self).payload() == Some(entry),
            final(self).links() == old(self).links(),
    {
        self.entry = Some(entry);
    }

    /// The key and value of a slot that holds one.
    pub fn entry_ref(&self) -> (entry: &(String, V))
        requires
            self.payload() is Some,
        ensures
            *entry == self.payload().unwrap(),
    {
        match &self.entry {
            Some(entry) => entry,
            None => vstd::pervasive::unreached(),
        }
    }

    /// The key of a slot that holds one.
    pub fn key_ref(&self) -> (key: &String)
        requires
            self.payload() is Some,
        ensures
            *key == self.payload().unwrap().0,
    {
        &self.entry_ref().0
    }

    /// Mutable access to the key and value of a slot that holds one.
    pub fn entry_mut(&mut self) -> (entry: &mut (String, V))
        requires
            old(self).payload() is Some,
        ensures
            *entry == old(self).payload().unwrap(),
            final(self).payload() == Some(*final(entry)),
            final(self).links() == old(self).links(),
    {
        match &mut self.entry {
            Some(entry) => entry,
            None => vstd::pervasive::unreached(),
        }
    }

    /// Moves the key and value out of a slot that holds one.
    pub fn take_entry(&mut self) -> (entry: (String, V))
        requires
            old(self).payload() is Some,
        ensures
            entry == old(self).payload().unwrap(),
            final(self).payload() is None,
            final(self).links() == old(self).links(),
    {
        match self.entry.take() {
            Some(entry) => entry,
            None => vstd::pervasive::unreached(),
        }
    }
}

/// The arena together with the two lists threaded through it.
///
/// `values` is the guard of the ring of live slots: the guard's `next` is the
/// front of the order and its `prev` the back. `free` is the top of the stack
/// of free slots. At most one slot is *loose*: taken out of both lists while an
/// operation is moving it.
pub struct NodeList<V> {
    nodes: Vec<Node<V>>,
    values: Option<usize>,
    free: Option<usize>,
    order: Ghost<Seq<usize>>,
    spare: Ghost<Seq<usize>>,
    loose: Ghost<Option<usize>>,
}

impl<V> NodeList<V> {
    /// The live slots, from the front of the order to the back.
    pub closed spec fn slots(&self) -> Seq<usize> {
        self.order@
    }

    /// The free slots, from the top of the stack down.
    pub closed spec fn spare(&self) -> Seq<usize> {
        self.spare@
    }

    /// The slot that is in neither list, if there is one.
    pub closed spec fn loose(&self) -> Option<usize> {
        self.loose@
    }

    /// The guard slot, once it has been allocated.
    pub closed spec fn guard(&self) -> Option<usize> {
        self.values
    }

    /// The number of slots in the arena.
    pub closed spec fn capacity(&self) -> nat {
        self.nodes@.len()
    }

    /// What slot `slot` holds.
    pub closed spec fn payload(&self, slot: usize) -> Option<(String, V)> {
        if slot < self.nodes@.len() {
            self.nodes@[slot as int].payload()
        } else {
            None
        }
    }

    /// The key in slot `slot`.
    pub open spec fn key_of(&self, slot: usize) -> Seq<char> {
        self.payload(slot).unwrap().0@
    }

    /// The value in slot `slot`.
    pub open spec fn value_of(&self, slot: usize) -> V {
        self.payload(slot).unwrap().1
    }

    /// The keys and values of the live slots, in order.
    pub open spec fn entries(&self) -> Seq<(Seq<char>, V)> {
        Seq::new(
            self.slots().len(),
            |i: int| (self.key_of(self.slots()[i]), self.value_of(self.slots()[i])),
        )
    }

    /// Whether `slot` is a live slot.
    pub open spec fn is_live(&self, slot: usize) -> bool {
        self.slots().contains(slot)
    }

    /// The position of the live slot `slot` in the order.
    pub open spec fn position(&self, slot: usize) -> int {
        self.slots().index_of(slot)
    }

    /// The slot at position `i` of the ring: a live slot for a position inside
    /// the order, the guard for the positions just before and just after it.
    pub open spec fn ring(&self, i: int) -> usize {
        if 0 <= i < self.slots().len() {
            self.slots()[i]
        } else {
            self.guard().unwrap()
        }
    }

    spec fn live_at(&self, i: int) -> bool {
        let slot = self.order@[i];
        &&& slot < self.nodes@.len()
        &&& Some(slot) != self.values
        &&& self.nodes@[slot as int].entry is Some
        &&& self.nodes@[slot as int].links == (Links::Value {
            next: self.ring(i + 1),
            prev: self.ring(i - 1),
        })
    }

    spec fn ring_linked(&self) -> bool {
        match self.values {
            None => self.order@.len() == 0,
            Some(g) => {
                &&& g < self.nodes@.len()
                &&& self.nodes@[g as int].entry is None
                &&& self.nodes@[g as int].links == (Links::Value {
                    next: self.ring(0),
                    prev: self.ring(self.order@.len() - 1),
                })
                &&& forall|i: int| 0 <= i < self.order@.len() ==> #[trigger] self.live_at(i)
            },
        }
    }

    spec fn free_at(&self, i: int) -> bool {
        let slot = self.spare@[i];
        &&& slot < self.nodes@.len()
        &&& Some(slot) != self.values
        &&& self.nodes@[slot as int].entry is None
        &&& self.nodes@[slot as int].links == (Links::Free {
            next_free: if i + 1 < self.spare@.len() {
                Some(self.spare@[i + 1])
            } else {
                None
            },
        })
    }

    spec fn free_linked(&self) -> bool {
        &&& self.free == (if self.spare@.len() > 0 {
            Some(self.spare@[0])
        } else {
            None
        })
        &&& forall|i: int| 0 <= i < self.spare@.len() ==> #[trigger] self.free_at(i)
    }

    spec fn disjoint(&self) -> bool {
        &&& self.order@.no_duplicates()
        &&& self.spare@.no_duplicates()
        &&& forall|i: int, j: int|
            0 <= i < self.order@.len() && 0 <= j < self.spare@.len() ==> #[trigger] self.order@[i]
                != #[trigger] self.spare@[j]
        &&& match self.loose@ {
            Some(l) => {
                &&& l < self.nodes@.len()
                &&& Some(l) != self.values
                &&& forall|i: int| 0 <= i < self.order@.len() ==> #[trigger] self.order@[i] != l
                &&& forall|j: int| 0 <= j < self.spare@.len() ==> #[trigger] self.spare@[j] != l
            },
            None => true,
        }
    }

    /// The invariant of the arena: the live slots and the guard form one ring in
    /// the order of `slots()`, the free slots form one chain in the order of
    /// `spare()`, and no slot is in two of these places at once.
    pub closed spec fn wf(&self) -> bool {
        &&& self.ring_linked()
        &&& self.free_linked()
        &&& self.disjoint()
    }

    /// What the invariant says of the slots, in terms that callers can use.
    pub proof fn lemma_wf(&self)
        requires
            self.wf(),
        ensures
            self.slots().no_duplicates(),
            self.spare().no_duplicates(),
            self.guard() is None ==> self.slots().len() == 0,
            self.entries().len() == self.slots().len(),
            forall|i: int|
                0 <= i < self.slots().len() ==> {
                    &&& self.is_live(#[trigger] self.slots()[i])
                    &&& self.position(self.slots()[i]) == i
                    &&& self.payload(self.slots()[i]) is Some
                    &&& self.slots()[i] < self.capacity()
                    &&& Some(self.slots()[i]) != self.guard()
                    &&& Some(self.slots()[i]) != self.loose()
                },
            forall|slot: usize|
                self.is_live(slot) ==> {
                    &&& 0 <= #[trigger] self.position(slot) < self.slots().len()
                    &&& self.slots()[self.position(slot)] == slot
                },
            forall|j: int|
                0 <= j < self.spare().len() ==> {
                    &&& !self.is_live(#[trigger] self.spare()[j])
                    &&& self.payload(self.spare()[j]) is None
                    &&& Some(self.spare()[j]) != self.guard()
                    &&& Some(self.spare()[j]) != self.loose()
                },
            self.guard() is Some ==> {
                &&& self.payload(self.guard().unwrap()) is None
                &&& !self.is_live(self.guard().unwrap())
                &&& self.guard().unwrap() < self.capacity()
            },
            self.loose() is Some ==> {
                &&& !self.is_live(self.loose().unwrap())
                &&& self.loose().unwrap() < self.capacity()
                &&& self.loose() != self.guard()
            },
    {
        assert forall|i: int| 0 <= i < self.slots().len() implies {
            &&& self.is_live(#[trigger] self.slots()[i])
            &&& self.position(self.slots()[i]) == i
            &&& self.payload(self.slots()[i]) is Some
            &&& self.slots()[i] < self.capacity()
            &&& Some(self.slots()[i]) != self.guard()
            &&& Some(self.slots()[i]) != self.loose()
        } by {
            let slot = self.slots()[i];
            assert(self.live_at(i));
            assert(self.slots().contains(slot));
            let p = self.position(slot);
            assert(0 <= p < self.slots().len() && self.slots()[p] == slot);
        }
        assert forall|j: int| 0 <= j < self.spare().len() implies {
            &&& !self.is_live(#[trigger] self.spare()[j])
            &&& self.payload(self.spare()[j]) is None
            &&& Some(self.spare()[j]) != self.guard()
            &&& Some(self.spare()[j]) != self.loose()
        } by {
            assert(self.free_at(j));
        }
        if self.guard() is Some {
            let g = self.guard().unwrap();
            if self.is_live(g) {
                let p = self.position(g);
                assert(self.live_at(p));
            }
        }
    }

    /// An arena without slots.
    pub fn new() -> (list: Self)
        ensures
            list.wf(),
            list.slots() == Seq::<usize>::empty(),
            list.spare() == Seq::<usize>::empty(),
            list.guard() is None,
            list.loose() is None,
            list.capacity() == 0,
    {
        NodeList {
            nodes: Vec::new(),
            values: None,
            free: None,
            order: Ghost(Seq::empty()),
            spare: Ghost(Seq::empty()),
            loose: Ghost(None),
        }
    }

    proof fn lemma_frame(&self, before: &Self)
        requires
            before.wf(),
            self.nodes@.len() >= before.nodes@.len(),
            self.values == before.values || (before.values is None && self.values.unwrap()
                >= before.nodes@.len()),
            self.order@ == before.order@,
            self.spare@ == before.spare@,
            self.free == before.free,
            forall|i: int|
                0 <= i < before.order@.len() ==> self.nodes@[(#[trigger] before.order@[i]) as int]
                    == before.nodes@[before.order@[i] as int],
            forall|j: int|
                0 <= j < before.spare@.len() ==> self.nodes@[(#[trigger] before.spare@[j]) as int]
                    == before.nodes@[before.spare@[j] as int],
        ensures
            forall|i: int| 0 <= i < self.order@.len() ==> #[trigger] self.live_at(i),
            forall|j: int| 0 <= j < self.spare@.len() ==> #[trigger] self.free_at(j),
            self.free_linked(),
    {
        assert forall|i: int| 0 <= i < self.order@.len() implies #[trigger] self.live_at(i) by {
            assert(before.live_at(i));
        }
        assert forall|j: int| 0 <= j < self.spare@.len() implies #[trigger] self.free_at(j) by {
            assert(before.free_at(j));
        }
    }

    /// Allocates the guard if the arena has none yet, linked to itself.
    pub fn ensure_guard_node(&mut self)
        requires
            old(self).wf(),
        ensures
            final(self).wf(),
            final(self).guard() is Some,
            old(self).guard() is Some ==> final(self).guard() == old(self).guard(),
            final(self).slots() == old(self).slots(),
            final(self).spare() == old(self).spare(),
            final(self).loose() == old(self).loose(),
            final(self).capacity() >= old(self).capacity(),
            forall|slot: usize| final(self).payload(slot) == old(self).payload(slot),
    {
        if self.values.is_none() {
            let ghost before = *self;
            let p = self.nodes.len();
            self.nodes.push(Node::vacant(p));
            self.values = Some(p);
            proof {
                before.lemma_wf();
                assert forall|j: int| 0 <= j < before.spare@.len() implies self.nodes@[(
                #[trigger] before.spare@[j]) as int] == before.nodes@[before.spare@[j] as int] by {
                    assert(before.free_at(j));
                }
                self.lemma_frame(&before);
            }
        }
    }

    /// Puts the loose slot `node`, which holds nothing, on top of the free list.
    pub fn push_free(&mut self, node: usize)
        requires
            old(self).wf(),
            old(self).loose() == Some(node),
            old(self).payload(node) is None,
        ensures
            final(self).wf(),
            final(self).loose() is None,
            final(self).spare() == seq![node] + old(self).spare(),
            final(self).slots() == old(self).slots(),
            final(self).guard() == old(self).guard(),
            final(self).capacity() == old(self).capacity(),
            forall|slot: usize| final(self).payload(slot) == old(self).payload(slot),
    {
        let ghost before = *self;
        self.nodes[node].links = Links::Free { next_free: self.free };
        self.free = Some(node);
        proof {
            before.lemma_wf();
            self.spare = Ghost(seq![node] + before.spare@);
            self.loose = Ghost(None);
            assert forall|i: int| 0 <= i < self.order@.len() implies #[trigger] self.live_at(i) by {
                assert(before.live_at(i));
            }
            assert forall|i: int| 0 <= i < self.spare@.len() implies #[trigger] self.free_at(i) by {
                if i > 0 {
                    assert(self.spare@[i] == before.spare@[i - 1]);
                    assert(before.free_at(i - 1));
                    if i + 1 < self.spare@.len() {
                        assert(self.spare@[i + 1] == before.spare@[i]);
                    }
                } else {
                    if before.spare@.len() > 0 {
                        assert(self.spare@[1] == before.spare@[0]);
                    }
                }
            }
            assert forall|i: int, j: int|
                0 <= i < self.order@.len() && 0 <= j < self.spare@.len() implies #[trigger] self.order@[i]
                != #[trigger] self.spare@[j] by {
                if j > 0 {
                    assert(self.spare@[j] == before.spare@[j - 1]);
                }
            }
            assert forall|i: int, j: int|
                0 <= i < self.spare@.len() && 0 <= j < self.spare@.len() && i != j implies self.spare@[i]
                != self.spare@[j] by {
                if i > 0 {
                    assert(self.spare@[i] == before.spare@[i - 1]);
                }
                if j > 0 {
                    assert(self.spare@[j] == before.spare@[j - 1]);
                }
            }
        }
    }

    /// Takes the top slot off the free list, if there is one.
    pub fn pop_free(&mut self) -> (popped: Option<usize>)
        requires
            old(self).wf(),
            old(self).loose() is None,
        ensures
            final(self).wf(),
            final(self).loose() == popped,
            final(self).slots() == old(self).slots(),
            final(self).guard() == old(self).guard(),
            final(self).capacity() == old(self).capacity(),
            forall|slot: usize| final(self).payload(slot) == old(self).payload(slot),
            match popped {
                Some(slot) => {
                    &&& old(self).spare().len() > 0
                    &&& slot == old(self).spare()[0]
                    &&& final(self).spare() == old(self).spare().skip(1)
                    &&& final(self).payload(slot) is None
                },
                None => old(self).spare().len() == 0 && final(self).spare() == old(self).spare(),
            },
    {
        match self.free {
            Some(free) => {
                let ghost before = *self;
                proof {
                    before.lemma_wf();
                    assert(before.spare@[0] == free);
                    assert(before.free_at(0));
                }
                let next = match self.nodes[free].links {
                    Links::Free { next_free } => next_free,
                    Links::Value { .. } => None,
                };
                self.free = next;
                proof {
                    self.spare = Ghost(before.spare@.skip(1));
                    self.loose = Ghost(Some(free));
                    assert forall|i: int| 0 <= i < self.order@.len() implies #[trigger] self.live_at(
                        i,
                    ) by {
                        assert(before.live_at(i));
                    }
                    assert forall|i: int| 0 <= i < self.spare@.len() implies #[trigger] self.free_at(
                        i,
                    ) by {
                        assert(self.spare@[i] == before.spare@[i + 1]);
                        assert(before.free_at(i + 1));
                        if i + 1 < self.spare@.len() {
                            assert(self.spare@[i + 1] == before.spare@[i + 2]);
                        }
                    }
                    assert forall|j: int| 0 <= j < self.spare@.len() implies #[trigger] self.spare@[j]
                        != free by {
                        assert(self.spare@[j] == before.spare@[j + 1]);
                    }
                    assert forall|i: int, j: int|
                        0 <= i < self.order@.len() && 0 <= j < self.spare@.len() implies #[trigger] self.order@[i]
                        != #[trigger] self.spare@[j] by {
                        assert(self.spare@[j] == before.spare@[j + 1]);
                    }
                    assert forall|i: int, j: int|
                        0 <= i < self.spare@.len() && 0 <= j < self.spare@.len() && i != j implies self.spare@[i]
                        != self.spare@[j] by {
                        assert(self.spare@[i] == before.spare@[i + 1]);
                        assert(self.spare@[j] == before.spare@[j + 1]);
                    }
                    assert forall|i: int| 0 <= i < self.order@.len() implies #[trigger] self.order@[i]
                        != free by {
                        assert(before.spare@[0] == free);
                    }
                }
                Some(free)
            },
            None => None,
        }
    }

    /// Hands out a slot that holds nothing and is in neither list: the top of
    /// the free list if there is one, a new slot at the end of the arena
    /// otherwise.
    pub fn allocate_node(&mut self) -> (node: usize)
        requires
            old(self).wf(),
            old(self).loose() is None,
        ensures
            final(self).wf(),
            final(self).loose() == Some(node),
            final(self).payload(node) is None,
            final(self).slots() == old(self).slots(),
            final(self).guard() == old(self).guard(),
            forall|slot: usize| slot != node ==> final(self).payload(slot) == old(self).payload(slot),
            if old(self).spare().len() > 0 {
                &&& node == old(self).spare()[0]
                &&& final(self).spare() == old(self).spare().skip(1)
                &&& final(self).capacity() == old(self).capacity()
            } else {
                &&& node == old(self).capacity()
                &&& final(self).spare() == old(self).spare()
                &&& final(self).capacity() == old(self).capacity() + 1
            },
    {
        match self.pop_free() {
            Some(free) => {
                let ghost before = *self;
                self.nodes[free].links = Links::Value { next: free, prev: free };
                proof {
                    before.lemma_wf();
                    assert forall|j: int| 0 <= j < before.spare@.len() implies self.nodes@[(
                    #[trigger] before.spare@[j]) as int] == before.nodes@[before.spare@[j] as int] by {
                        assert(before.free_at(j));
                    }
                    self.lemma_frame(&before);
                }
                free
            },
            None => {
                let ghost before = *self;
                let p = self.nodes.len();
                self.nodes.push(Node::vacant(p));
                proof {
                    before.lemma_wf();
                    self.loose = Ghost(Some(p));
                    assert forall|j: int| 0 <= j < before.spare@.len() implies self.nodes@[(
                    #[trigger] before.spare@[j]) as int] == before.nodes@[before.spare@[j] as int] by {
                        assert(before.free_at(j));
                    }
                    self.lemma_frame(&before);
                    assert forall|i: int| 0 <= i < self.order@.len() implies #[trigger] self.order@[i]
                        != p by {
                        assert(before.live_at(i));
                    }
                    assert forall|j: int| 0 <= j < self.spare@.len() implies #[trigger] self.spare@[j]
                        != p by {
                        assert(before.free_at(j));
                    }
                }
                p
            },
        }
    }

    fn links_of(&self, slot: usize) -> (links: (usize, usize))
        requires
            slot < self.nodes@.len(),
            self.nodes@[slot as int].links is Value,
        ensures
            self.nodes@[slot as int].links == (Links::Value { next: links.0, prev: links.1 }),
    {
        match self.nodes[slot].links {
            Links::Value { next, prev } => (next, prev),
            Links::Free { .. } => (slot, slot),
        }
    }

    fn set_links(&mut self, slot: usize, next: usize, prev: usize)
        requires
            slot < old(self).nodes@.len(),
        ensures
            final(self).nodes@.len() == old(self).nodes@.len(),
            final(self).nodes@[slot as int].entry == old(self).nodes@[slot as int].entry,
            final(self).nodes@[slot as int].links == (Links::Value { next, prev }),
            forall|i: int|
                0 <= i < old(self).nodes@.len() && i != slot ==> final(self).nodes@[i] == old(
                    self,
                ).nodes@[i],
            final(self).values == old(self).values,
            final(self).free == old(self).free,
            final(self).order == old(self).order,
            final(self).spare == old(self).spare,
            final(self).loose == old(self).loose,
    {
        self.nodes[slot].links = Links::Value { next, prev };
    }

    /// The position at which a slot attached before `node` lands: the end of
    /// the order if `node` is the guard, the position of `node` otherwise.
    pub open spec fn position_before(&self, node: usize) -> int {
        if Some(node) == self.guard() {
            self.slots().len() as int
        } else {
            self.position(node)
        }
    }

    /// Whether `self` and `before` agree on every slot but `a`, `b` and `c`,
    /// and on the guard and the free list.
    spec fn same_but(&self, before: &Self, a: usize, b: usize, c: usize) -> bool {
        &&& self.nodes@.len() == before.nodes@.len()
        &&& self.values == before.values
        &&& self.free == before.free
        &&& self.spare@ == before.spare@
        &&& forall|i: int|
            0 <= i < before.nodes@.len() && i != a && i != b && i != c ==> #[trigger] self.nodes@[i]
                == before.nodes@[i]
        &&& forall|i: int|
            0 <= i < before.nodes@.len() ==> (#[trigger] self.nodes@[i]).entry
                == before.nodes@[i].entry
    }

    proof fn lemma_free_kept(&self, before: &Self, a: usize, b: usize, c: usize)
        requires
            before.wf(),
            self.same_but(before, a, b, c),
            forall|j: int|
                0 <= j < before.spare@.len() ==> {
                    let s = #[trigger] before.spare@[j];
                    s != a && s != b && s != c
                },
        ensures
            self.free_linked(),
    {
        assert forall|j: int| 0 <= j < self.spare@.len() implies #[trigger] self.free_at(j) by {
            assert(before.free_at(j));
            let s = before.spare@[j];
            assert(self.nodes@[s as int] == before.nodes@[s as int]);
        }
    }

    /// Whether `self` is `before` after the loose slot `to_attach` was linked in
    /// at position `pos`, between `prev` and `node`.
    spec fn attached(&self, before: &Self, to_attach: usize, node: usize, prev: usize, pos: int) -> bool {
        &&& before.loose@ == Some(to_attach)
        &&& before.values is Some
        &&& 0 <= pos <= before.order@.len()
        &&& node == before.ring(pos)
        &&& prev == before.ring(pos - 1)
        &&& self.same_but(before, to_attach, node, prev)
        &&& self.order@ == before.order@.insert(pos, to_attach)
        &&& before.nodes@[to_attach as int].entry is Some
        &&& self.nodes@[to_attach as int].links == (Links::Value { next: node, prev })
        &&& self.nodes@[node as int].links == (Links::Value {
            next: if node == prev {
                to_attach
            } else {
                before.nodes@[node as int].links->next
            },
            prev: to_attach,
        })
        &&& self.nodes@[prev as int].links == (Links::Value {
            next: to_attach,
            prev: if node == prev {
                to_attach
            } else {
                before.nodes@[prev as int].links->prev
            },
        })
    }

    proof fn lemma_attached(&self, before: &Self, to_attach: usize, node: usize, prev: usize, pos: int)
        requires
            before.wf(),
            self.attached(before, to_attach, node, prev, pos),
            self.loose@ is None,
        ensures
            self.wf(),
    {
        let n = before.order@.len() as int;
        let g = before.values.unwrap();
        before.lemma_wf();
        assert(self.order@.len() == n + 1);
        if pos < n {
            assert(before.live_at(pos));
        }
        if pos > 0 {
            assert(before.live_at(pos - 1));
        }
        assert(node == prev <==> n == 0) by {
            if n > 0 && pos > 0 && pos < n {
                assert(before.order@[pos - 1] != before.order@[pos]);
            }
        }
        assert forall|i: int| 0 <= i < self.order@.len() implies #[trigger] self.live_at(i) by {
            self.lemma_attached_at(before, to_attach, node, prev, pos, i);
        }
        assert(self.nodes@[g as int].links == (Links::Value {
            next: self.ring(0),
            prev: self.ring(self.order@.len() - 1),
        })) by {
            assert(self.ring(0) == (if pos == 0 { to_attach } else { before.ring(0) }));
            assert(self.ring(n) == (if pos == n { to_attach } else { before.ring(n - 1) }));
            if pos < n {
                assert(before.order@[pos] != g);
            }
            if pos > 0 {
                assert(before.order@[pos - 1] != g);
            }
        }
        assert(self.ring_linked());
        assert forall|j: int| 0 <= j < before.spare@.len() implies {
            let s = #[trigger] before.spare@[j];
            s != to_attach && s != node && s != prev
        } by {
            assert(before.free_at(j));
            if pos < n {
                assert(before.order@[pos] != before.spare@[j]);
            }
            if pos > 0 {
                assert(before.order@[pos - 1] != before.spare@[j]);
            }
        }
        self.lemma_free_kept(before, to_attach, node, prev);
        assert forall|i: int, j: int|
            0 <= i < self.order@.len() && 0 <= j < self.order@.len() && i != j implies self.order@[i]
            != self.order@[j] by {
            if i < pos {
                assert(self.order@[i] == before.order@[i]);
            } else if i > pos {
                assert(self.order@[i] == before.order@[i - 1]);
            }
            if j < pos {
                assert(self.order@[j] == before.order@[j]);
            } else if j > pos {
                assert(self.order@[j] == before.order@[j - 1]);
            }
        }
        assert forall|i: int, j: int|
            0 <= i < self.order@.len() && 0 <= j < self.spare@.len() implies #[trigger] self.order@[i]
            != #[trigger] self.spare@[j] by {
            if i < pos {
                assert(self.order@[i] == before.order@[i]);
            } else if i > pos {
                assert(self.order@[i] == before.order@[i - 1]);
            }
        }
        assert(self.disjoint());
    }

    proof fn lemma_attached_at(
        &self,
        before: &Self,
        to_attach: usize,
        node: usize,
        prev: usize,
        pos: int,
        i: int,
    )
        requires
            before.wf(),
            self.attached(before, to_attach, node, prev, pos),
            0 <= i <= before.order@.len(),
        ensures
            self.live_at(i),
    {
        let n = before.order@.len() as int;
        before.lemma_wf();
        assert(self.ring(i + 1) == (if i + 1 < pos {
            before.ring(i + 1)
        } else if i + 1 == pos {
            to_attach
        } else {
            before.ring(i)
        }));
        assert(self.ring(i - 1) == (if i - 1 < pos {
            before.ring(i - 1)
        } else if i - 1 == pos {
            to_attach
        } else {
            before.ring(i - 2)
        }));
        if i == pos {
            assert(self.order@[i] == to_attach);
        } else {
            let k = if i < pos { i } else { i - 1 };
            let slot = before.order@[k];
            assert(self.order@[i] == slot);
            assert(before.live_at(k));
            assert(slot != to_attach);
            if k == pos {
                assert(slot == node);
                if pos > 0 {
                    assert(before.order@[pos - 1] != slot);
                }
                assert(prev != node);
            } else if k == pos - 1 {
                assert(slot == prev);
                if pos < n {
                    assert(before.order@[pos] != slot);
                }
                assert(prev != node);
            } else {
                if pos < n {
                    assert(before.order@[pos] != slot);
                }
                if pos > 0 {
                    assert(before.order@[pos - 1] != slot);
                }
                assert(slot != node && slot != prev);
                assert(self.nodes@[slot as int] == before.nodes@[slot as int]);
            }
        }
    }

    /// Links the loose slot `to_attach`, which holds a key and value, into the
    /// ring just before `node`, which is a live slot or the guard.
    pub fn attach_before(&mut self, to_attach: usize, node: usize)
        requires
            old(self).wf(),
            old(self).loose() == Some(to_attach),
            old(self).payload(to_attach) is Some,
            old(self).guard() is Some,
            Some(node) == old(self).guard() || old(self).is_live(node),
        ensures
            final(self).wf(),
            final(self).loose() is None,
            final(self).slots() == old(self).slots().insert(
                old(self).position_before(node),
                to_attach,
            ),
            0 <= old(self).position_before(node) <= old(self).slots().len(),
            final(self).spare() == old(self).spare(),
            final(self).guard() == old(self).guard(),
            final(self).capacity() == old(self).capacity(),
            forall|slot: usize| final(self).payload(slot) == old(self).payload(slot),
    {
        let ghost before = *self;
        let ghost pos = self.position_before(node);
        let ghost n = self.order@.len() as int;
        proof {
            before.lemma_wf();
            assert(node == before.ring(pos));
            if pos < n {
                assert(before.live_at(pos));
            }
            if pos > 0 {
                assert(before.live_at(pos - 1));
            }
        }
        let (node_next, prev) = self.links_of(node);
        assert(prev == before.ring(pos - 1));
        self.set_links(to_attach, node, prev);
        self.set_links(node, node_next, to_attach);
        let (prev_next, prev_prev) = self.links_of(prev);
        self.set_links(prev, to_attach, prev_prev);
        proof {
            self.order = Ghost(before.order@.insert(pos, to_attach));
            self.loose = Ghost(None);
            self.lemma_attached(&before, to_attach, node, prev, pos);
        }
    }

    /// Whether `self` is `before` after the slot `node` at position `pos` was
    /// unlinked from between `prev` and `next`.
    spec fn detached(&self, before: &Self, node: usize, next: usize, prev: usize, pos: int) -> bool {
        &&& 0 <= pos < before.order@.len()
        &&& node == before.order@[pos]
        &&& next == before.ring(pos + 1)
        &&& prev == before.ring(pos - 1)
        &&& self.same_but(before, next, prev, prev)
        &&& self.order@ == before.order@.remove(pos)
        &&& self.nodes@[prev as int].links == (Links::Value {
            next,
            prev: if next == prev {
                prev
            } else {
                before.nodes@[prev as int].links->prev
            },
        })
        &&& self.nodes@[next as int].links == (Links::Value {
            next: if next == prev {
                next
            } else {
                before.nodes@[next as int].links->next
            },
            prev,
        })
    }

    proof fn lemma_detached(&self, before: &Self, node: usize, next: usize, prev: usize, pos: int)
        requires
            before.wf(),
            before.loose@ is None,
            self.detached(before, node, next, prev, pos),
            self.loose@ == Some(node),
        ensures
            self.wf(),
    {
        let n = before.order@.len() as int;
        let g = before.values.unwrap();
        before.lemma_wf();
        assert(self.order@.len() == n - 1);
        assert(before.live_at(pos));
        assert forall|i: int| 0 <= i < self.order@.len() implies #[trigger] self.live_at(i) by {
            self.lemma_detached_at(before, node, next, prev, pos, i);
        }
        assert(self.nodes@[g as int].links == (Links::Value {
            next: self.ring(0),
            prev: self.ring(self.order@.len() - 1),
        })) by {
            assert(self.ring(0) == (if pos == 0 { before.ring(1) } else { before.ring(0) }));
            assert(self.ring(n - 2) == (if pos == n - 1 {
                before.ring(n - 2)
            } else {
                before.ring(n - 1)
            }));
            if pos + 1 < n {
                assert(before.live_at(pos + 1));
            }
            if pos > 0 {
                assert(before.live_at(pos - 1));
            }
        }
        assert(self.ring_linked());
        assert forall|j: int| 0 <= j < before.spare@.len() implies {
            let s = #[trigger] before.spare@[j];
            s != next && s != prev
        } by {
            assert(before.free_at(j));
            if pos + 1 < n {
                assert(before.order@[pos + 1] != before.spare@[j]);
            }
            if pos > 0 {
                assert(before.order@[pos - 1] != before.spare@[j]);
            }
        }
        self.lemma_free_kept(before, next, prev, prev);
        assert forall|i: int, j: int|
            0 <= i < self.order@.len() && 0 <= j < self.order@.len() && i != j implies self.order@[i]
            != self.order@[j] by {
            assert(self.order@[i] == before.order@[if i < pos { i } else { i + 1 }]);
            assert(self.order@[j] == before.order@[if j < pos { j } else { j + 1 }]);
        }
        assert forall|i: int, j: int|
            0 <= i < self.order@.len() && 0 <= j < self.spare@.len() implies #[trigger] self.order@[i]
            != #[trigger] self.spare@[j] by {
            assert(self.order@[i] == before.order@[if i < pos { i } else { i + 1 }]);
        }
        assert forall|i: int| 0 <= i < self.order@.len() implies #[trigger] self.order@[i]
            != node by {
            assert(self.order@[i] == before.order@[if i < pos { i } else { i + 1 }]);
        }
        assert forall|j: int| 0 <= j < self.spare@.len() implies #[trigger] self.spare@[j]
            != node by {
            assert(before.order@[pos] != before.spare@[j]);
        }
        assert(self.disjoint());
    }

    proof fn lemma_detached_at(
        &self,
        before: &Self,
        node: usize,
        next: usize,
        prev: usize,
        pos: int,
        i: int,
    )
        requires
            before.wf(),
            self.detached(before, node, next, prev, pos),
            0 <= i < before.order@.len() - 1,
        ensures
            self.live_at(i),
    {
        let n = before.order@.len() as int;
        before.lemma_wf();
        let k = if i < pos { i } else { i + 1 };
        let slot = before.order@[k];
        assert(self.order@[i] == slot);
        assert(before.live_at(k));
        assert(self.ring(i + 1) == before.ring(if i + 1 < pos { i + 1 } else { i + 2 }));
        assert(self.ring(i - 1) == before.ring(if i - 1 < pos { i - 1 } else { i }));
        if k == pos - 1 {
            assert(slot == prev);
            if pos + 1 < n {
                assert(before.order@[pos + 1] != slot);
            }
            assert(next != prev);
        } else if k == pos + 1 {
            assert(slot == next);
            if pos > 0 {
                assert(before.order@[pos - 1] != slot);
            }
            assert(next != prev);
        } else {
            if pos > 0 {
                assert(before.order@[pos - 1] != slot);
            }
            if pos + 1 < n {
                assert(before.order@[pos + 1] != slot);
            }
            assert(slot != prev && slot != next);
            assert(self.nodes@[slot as int] == before.nodes@[slot as int]);
        }
    }

    /// Unlinks the live slot `node` from the ring. The slot keeps its key and
    /// value and becomes the loose slot.
    pub fn detach_node(&mut self, node: usize)
        requires
            old(self).wf(),
            old(self).loose() is None,
            old(self).is_live(node),
        ensures
            final(self).wf(),
            final(self).loose() == Some(node),
            final(self).slots() == old(self).slots().remove(old(self).position(node)),
            final(self).spare() == old(self).spare(),
            final(self).guard() == old(self).guard(),
            final(self).capacity() == old(self).capacity(),
            forall|slot: usize| final(self).payload(slot) == old(self).payload(slot),
    {
        let ghost before = *self;
        let ghost pos = self.position(node);
        let ghost n = self.order@.len() as int;
        proof {
            before.lemma_wf();
            assert(before.live_at(pos));
            if pos + 1 < n {
                assert(before.live_at(pos + 1));
            }
            if pos > 0 {
                assert(before.live_at(pos - 1));
            }
        }
        let (next, prev) = self.links_of(node);
        let (prev_next, prev_prev) = self.links_of(prev);
        self.set_links(prev, next, prev_prev);
        let (next_next, next_prev) = self.links_of(next);
        self.set_links(next, next_next, prev);
        proof {
            self.order = Ghost(before.order@.remove(pos));
            self.loose = Ghost(Some(node));
            self.lemma_detached(&before, node, next, prev, pos);
        }
    }

    /// The key and value in slot `node`.
    pub fn entry_ref(&self, node: usize) -> (entry: &(String, V))
        requires
            self.wf(),
            self.payload(node) is Some,
        ensures
            *entry == self.payload(node).unwrap(),
    {
        self.nodes[node].entry_ref()
    }

    /// The key in slot `node`.
    pub fn key_ref(&self, node: usize) -> (key: &String)
        requires
            self.wf(),
            self.payload(node) is Some,
        ensures
            key@ == self.key_of(node),
    {
        self.nodes[node].key_ref()
    }

    /// Whether `after` has the slots of `self` with the same links and the same
    /// keys: the two differ in their values at most.
    pub closed spec fn same_shape(&self, after: &Self) -> bool {
        &&& after.nodes@.len() == self.nodes@.len()
        &&& after.values == self.values
        &&& after.free == self.free
        &&& after.order@ == self.order@
        &&& after.spare@ == self.spare@
        &&& after.loose@ == self.loose@
        &&& forall|i: int|
            0 <= i < self.nodes@.len() ==> {
                &&& (#[trigger] after.nodes@[i]).links == self.nodes@[i].links
                &&& after.nodes@[i].entry is Some <==> self.nodes@[i].entry is Some
                &&& after.nodes@[i].entry is Some ==> after.nodes@[i].entry.unwrap().0@
                    == self.nodes@[i].entry.unwrap().0@
            }
    }

    /// The invariant does not depend on which values the slots hold.
    pub proof fn lemma_same_shape(&self, after: &Self)
        requires
            self.wf(),
            self.same_shape(after),
        ensures
            after.wf(),
            after.slots() == self.slots(),
            after.spare() == self.spare(),
            after.guard() == self.guard(),
            after.loose() == self.loose(),
            after.capacity() == self.capacity(),
            forall|slot: usize| #[trigger] after.payload(slot) is Some <==> self.payload(slot) is Some,
            forall|slot: usize| #[trigger]
                after.payload(slot) is Some ==> after.key_of(slot) == self.key_of(slot),
    {
        assert forall|i: int| 0 <= i < after.order@.len() implies #[trigger] after.live_at(i) by {
            assert(self.live_at(i));
        }
        assert forall|j: int| 0 <= j < after.spare@.len() implies #[trigger] after.free_at(j) by {
            assert(self.free_at(j));
        }
    }

    /// Differing in values at most carries over from one arena to a third.
    pub proof fn lemma_same_shape_trans(&self, mid: &Self, after: &Self)
        requires
            self.same_shape(mid),
            mid.same_shape(after),
        ensures
            self.same_shape(after),
    {
        assert forall|i: int| 0 <= i < self.nodes@.len() implies {
            &&& (#[trigger] after.nodes@[i]).links == self.nodes@[i].links
            &&& after.nodes@[i].entry is Some <==> self.nodes@[i].entry is Some
            &&& after.nodes@[i].entry is Some ==> after.nodes@[i].entry.unwrap().0@
                == self.nodes@[i].entry.unwrap().0@
        } by {
            assert(mid.nodes@[i].links == self.nodes@[i].links);
        }
    }

    /// An arena differs from itself in no value.
    pub proof fn lemma_same_shape_refl(&self)
        ensures
            self.same_shape(self),
    {
    }

    /// Mutable access to the value in the live slot `node`.
    pub fn value_mut(&mut self, node: usize) -> (value: &mut V)
        requires
            old(self).wf(),
            old(self).is_live(node),
        ensures
            *value == old(self).value_of(node),
            old(self).same_shape(final(self)) && final(self).wf(),
            final(self).slots() == old(self).slots(),
            final(self).spare() == old(self).spare(),
            final(self).guard() == old(self).guard(),
            final(self).loose() == old(self).loose(),
            final(self).capacity() == old(self).capacity(),
            final(self).payload(node) == Some((old(self).payload(node).unwrap().0, *final(value))),
            forall|slot: usize| slot != node ==> final(self).payload(slot) == old(self).payload(slot),
    {
        let ghost before = *self;
        proof {
            self.lemma_wf();
            assert forall|after: Self| #[trigger] before.same_shape(&after) implies after.wf() by {
                before.lemma_same_shape(&after);
            }
        }
        &mut self.nodes[node].entry_mut().1
    }

    /// The key in the live slot `node`, with mutable access to its value.
    pub fn key_value_mut(&mut self, node: usize) -> (entry: (&String, &mut V))
        requires
            old(self).wf(),
            old(self).is_live(node),
        ensures
            *entry.0 == old(self).payload(node).unwrap().0,
            *entry.1 == old(self).value_of(node),
            old(self).same_shape(final(self)) && final(self).wf(),
            final(self).slots() == old(self).slots(),
            final(self).spare() == old(self).spare(),
            final(self).guard() == old(self).guard(),
            final(self).loose() == old(self).loose(),
            final(self).capacity() == old(self).capacity(),
            final(self).payload(node) == Some(
                (old(self).payload(node).unwrap().0, *final(entry.1)),
            ),
            final(self).entries() == old(self).entries().update(
                old(self).position(node),
                (old(self).key_of(node), *final(entry.1)),
            ),
            forall|slot: usize| slot != node ==> final(self).payload(slot) == old(self).payload(slot),
    {
        let ghost before = *self;
        proof {
            self.lemma_wf();
            assert forall|after: Self| #[trigger] before.same_shape(&after) implies after.wf() by {
                before.lemma_same_shape(&after);
            }
        }
        let entry = self.nodes[node].entry_mut();
        (&entry.0, &mut entry.1)
    }

    /// Puts `value` in the place of the value in the live slot `node` and
    /// returns the value that was there.
    pub fn replace_value(&mut self, node: usize, value: V) -> (previous: V)
        requires
            old(self).wf(),
            old(self).is_live(node),
        ensures
            previous == old(self).value_of(node),
            old(self).same_shape(final(self)),
            final(self).wf(),
            final(self).slots() == old(self).slots(),
            final(self).spare() == old(self).spare(),
            final(self).guard() == old(self).guard(),
            final(self).loose() == old(self).loose(),
            final(self).capacity() == old(self).capacity(),
            final(self).payload(node) == Some((old(self).payload(node).unwrap().0, value)),
            forall|slot: usize| slot != node ==> final(self).payload(slot) == old(self).payload(slot),
    {
        let ghost before = *self;
        proof {
            self.lemma_wf();
        }
        let mut value = value;
        core::mem::swap(&mut self.nodes[node].entry_mut().1, &mut value);
        proof {
            before.lemma_same_shape(self);
        }
        value
    }

    /// Puts `key`, which reads the same as the key in the live slot `node`, in
    /// that key's place and returns the key that was there.
    pub fn replace_key(&mut self, node: usize, key: String) -> (previous: String)
        requires
            old(self).wf(),
            old(self).is_live(node),
            key@ == old(self).key_of(node),
        ensures
            previous == old(self).payload(node).unwrap().0,
            old(self).same_shape(final(self)),
            final(self).wf(),
            final(self).slots() == old(self).slots(),
            final(self).spare() == old(self).spare(),
            final(self).guard() == old(self).guard(),
            final(self).loose() == old(self).loose(),
            final(self).capacity() == old(self).capacity(),
            final(self).payload(node) == Some((key, old(self).value_of(node))),
            forall|slot: usize| slot != node ==> final(self).payload(slot) == old(self).payload(slot),
    {
        let ghost before = *self;
        proof {
            self.lemma_wf();
        }
        let mut key = key;
        core::mem::swap(&mut self.nodes[node].entry_mut().0, &mut key);
        proof {
            before.lemma_same_shape(self);
        }
        key
    }

    /// Stores a key and value in the loose slot `node`, which holds nothing.
    pub fn put_entry(&mut self, node: usize, entry: (String, V))
        requires
            old(self).wf(),
            old(self).loose() == Some(node),
            old(self).payload(node) is None,
        ensures
            final(self).wf(),
            final(self).slots() == old(self).slots(),
            final(self).spare() == old(self).spare(),
            final(self).guard() == old(self).guard(),
            final(self).loose() == old(self).loose(),
            final(self).capacity() == old(self).capacity(),
            final(self).payload(node) == Some(entry),
            forall|slot: usize| slot != node ==> final(self).payload(slot) == old(self).payload(slot),
    {
        let ghost before = *self;
        proof {
            self.lemma_wf();
        }
        self.nodes[node].put_entry(entry);
        proof {
            assert forall|j: int| 0 <= j < before.spare@.len() implies self.nodes@[(
            #[trigger] before.spare@[j]) as int] == before.nodes@[before.spare@[j] as int] by {
                assert(before.free_at(j));
            }
            self.lemma_frame(&before);
        }
    }

    /// Moves the key and value out of the loose slot `node`.
    pub fn take_entry(&mut self, node: usize) -> (entry: (String, V))
        requires
            old(self).wf(),
            old(self).loose() == Some(node),
            old(self).payload(node) is Some,
        ensures
            entry == old(self).payload(node).unwrap(),
            final(self).wf(),
            final(self).slots() == old(self).slots(),
            final(self).spare() == old(self).spare(),
            final(self).guard() == old(self).guard(),
            final(self).loose() == old(self).loose(),
            final(self).capacity() == old(self).capacity(),
            final(self).payload(node) is None,
            forall|slot: usize| slot != node ==> final(self).payload(slot) == old(self).payload(slot),
    {
        let ghost before = *self;
        proof {
            self.lemma_wf();
        }
        let entry = self.nodes[node].take_entry();
        proof {
            assert forall|j: int| 0 <= j < before.spare@.len() implies self.nodes@[(
            #[trigger] before.spare@[j]) as int] == before.nodes@[before.spare@[j] as int] by {
                assert(before.free_at(j));
            }
            self.lemma_frame(&before);
        }
        entry
    }

    /// Unlinks the live slot `node`, moves its key and value out and hands the
    /// slot to the free list.
    pub fn remove_node(&mut self, node: usize) -> (entry: (String, V))
        requires
            old(self).wf(),
            old(self).loose() is None,
            old(self).is_live(node),
        ensures
            entry == old(self).payload(node).unwrap(),
            final(self).wf(),
            final(self).loose() is None,
            final(self).slots() == old(self).slots().remove(old(self).position(node)),
            final(self).spare() == seq![node] + old(self).spare(),
            final(self).guard() == old(self).guard(),
            final(self).capacity() == old(self).capacity(),
            final(self).payload(node) is None,
            forall|slot: usize| slot != node ==> final(self).payload(slot) == old(self).payload(slot),
            final(self).entries() == old(self).entries().remove(old(self).position(node)),
    {
        let ghost before = *self;
        proof {
            self.lemma_wf();
        }
        self.detach_node(node);
        let entry = self.take_entry(node);
        self.push_free(node);
        proof {
            self.lemma_wf();
            assert(self.entries() =~= before.entries().remove(before.position(node)));
        }
        entry
    }

    /// The slot at the front of the order, if there is a live slot.
    pub fn front(&self) -> (slot: Option<usize>)
        requires
            self.wf(),
        ensures
            slot == (if self.slots().len() > 0 {
                Some(self.slots()[0])
            } else {
                None
            }),
    {
        proof {
            self.lemma_wf();
        }
        match self.values {
            Some(guard) => {
                let (next, _) = self.links_of(guard);
                if next == guard {
                    proof {
                        if self.order@.len() > 0 {
                            assert(self.live_at(0));
                        }
                    }
                    None
                } else {
                    Some(next)
                }
            },
            None => None,
        }
    }

    /// The slot at the back of the order, if there is a live slot.
    pub fn back(&self) -> (slot: Option<usize>)
        requires
            self.wf(),
        ensures
            slot == (if self.slots().len() > 0 {
                Some(self.slots().last())
            } else {
                None
            }),
    {
        proof {
            self.lemma_wf();
        }
        match self.values {
            Some(guard) => {
                let (_, prev) = self.links_of(guard);
                if prev == guard {
                    proof {
                        if self.order@.len() > 0 {
                            assert(self.live_at(self.order@.len() - 1));
                        }
                    }
                    None
                } else {
                    Some(prev)
                }
            },
            None => None,
        }
    }

    /// The slot after the live slot `node` in the ring: the next live slot, or
    /// the guard after the last one.
    pub fn next_of(&self, node: usize) -> (next: usize)
        requires
            self.wf(),
            self.is_live(node),
        ensures
            next == self.ring(self.position(node) + 1),
    {
        proof {
            self.lemma_wf();
            assert(self.live_at(self.position(node)));
        }
        self.links_of(node).0
    }

    /// The slot before the live slot `node` in the ring: the previous live
    /// slot, or the guard before the first one.
    pub fn prev_of(&self, node: usize) -> (prev: usize)
        requires
            self.wf(),
            self.is_live(node),
        ensures
            prev == self.ring(self.position(node) - 1),
    {
        proof {
            self.lemma_wf();
            assert(self.live_at(self.position(node)));
        }
        self.links_of(node).1
    }

    /// Whether the key in slot `node` is `key`.
    pub fn key_matches(&self, node: usize, key: &str) -> (same: bool)
        requires
            self.wf(),
            self.payload(node) is Some,
        ensures
            same == (self.key_of(node) == key@),
    {
        key_eq(self.key_ref(node), key)
    }

    /// The digest of the key in slot `node` under the seed `seed`.
    pub fn hash_node(&self, seed: u64, node: usize) -> (hash: u64)
        requires
            self.wf(),
            self.payload(node) is Some,
        ensures
            hash == key_hash(seed, self.key_of(node)),
    {
        hash_key(seed, self.key_ref(node).as_str())
    }

    /// Releases every live slot, from the back of the order to the front: each
    /// one's key and value are dropped and the slot goes to the free list. The
    /// guard stays, linked to itself.
    pub fn drop_value_nodes(&mut self)
        requires
            old(self).wf(),
            old(self).loose() is None,
        ensures
            final(self).wf(),
            final(self).loose() is None,
            final(self).slots() == Seq::<usize>::empty(),
            final(self).spare() == old(self).slots() + old(self).spare(),
            final(self).guard() == old(self).guard(),
            final(self).capacity() == old(self).capacity(),
    {
        let ghost before = *self;
        let mut cur = self.back();
        while cur.is_some()
            invariant
                self.wf(),
                self.loose() is None,
                self.guard() == before.guard(),
                self.capacity() == before.capacity(),
                self.slots().len() <= before.slots().len(),
                self.slots() == before.slots().take(self.slots().len() as int),
                self.spare() == before.slots().skip(self.slots().len() as int) + before.spare(),
                cur == (if self.slots().len() > 0 {
                    Some(self.slots().last())
                } else {
                    None
                }),
            decreases self.slots().len(),
        {
            let node = cur.unwrap();
            let ghost len = self.slots().len() as int;
            proof {
                self.lemma_wf();
                assert(self.position(node) == len - 1);
            }
            let _ = self.remove_node(node);
            proof {
                assert(self.slots() =~= before.slots().take(len - 1));
                assert(self.spare() =~= before.slots().skip(len - 1) + before.spare());
            }
            cur = self.back();
        }
        proof {
            assert(self.slots() =~= Seq::<usize>::empty());
            assert(before.slots().skip(0) =~= before.slots());
        }
    }

    /// The slot that follows the guard in the ring: the front of the order, or
    /// the guard itself where there is no live slot.
    pub fn head(&self) -> (slot: usize)
        requires
            self.wf(),
            self.guard() is Some,
        ensures
            slot == self.ring(0),
            Some(slot) == self.guard() || self.is_live(slot),
            self.position_before(slot) == 0,
    {
        proof {
            self.lemma_wf();
        }
        match self.values {
            Some(guard) => self.links_of(guard).0,
            None => 0,
        }
    }

    /// The slot that precedes the guard in the ring: the back of the order, or
    /// the guard itself where there is no live slot.
    pub fn tail(&self) -> (slot: usize)
        requires
            self.wf(),
            self.guard() is Some,
        ensures
            slot == self.ring(self.slots().len() - 1),
            Some(slot) == self.guard() || self.is_live(slot),
    {
        proof {
            self.lemma_wf();
        }
        match self.values {
            Some(guard) => self.links_of(guard).1,
            None => 0,
        }
    }

    /// The guard slot, before which a slot is attached to stand at the back.
    pub fn anchor(&self) -> (slot: usize)
        requires
            self.wf(),
            self.guard() is Some,
        ensures
            Some(slot) == self.guard(),
            self.position_before(slot) == self.slots().len(),
    {
        match self.values {
            Some(guard) => guard,
            None => 0,
        }
    }

    /// Whether the arena has a guard yet.
    pub fn has_guard(&self) -> (has: bool)
        ensures
            has == self.guard() is Some,
    {
        self.values.is_some()
    }
}

} // verus!
