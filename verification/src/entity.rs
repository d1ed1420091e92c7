//! Generational entity identifiers and their allocator.
//!
//! The allocator keeps a slot table, a membership bitset over the live
//! indices, a free list of reusable indices, and a reservation cursor that
//! lets ids be handed out before the slot table is next mutated.

use vstd::prelude::*;

use crate::bitset::BitSet;
use crate::bitset::bit_set_view;
use crate::component::ComponentTypeId;

verus! {

/// An opaque identifier for a row in the world: a sparse index paired with a
/// generation counter. Two distinct live entities never share both fields.
#[derive(Clone, Copy, PartialEq, Eq, Structural, Debug, Hash)]
pub struct Entity {
    pub id: u32,
    pub generation: u32,
}

impl Entity {
    pub fn new(id: u32, generation: u32) -> (e: Entity)
        ensures
            e.id == id,
            e.generation == generation,
    {
        Entity { id, generation }
    }

    pub fn id(&self) -> (r: u32)
        ensures
            r == self.id,
    {
        self.id
    }

    pub fn generation(&self) -> (r: u32)
        ensures
            r == self.generation,
    {
        self.generation
    }
}

struct EntityEntry {
    is_live: bool,
    generation: u32,
    components: Vec<ComponentTypeId>,
}

/// Issues generational entity ids. Freed indices are recycled through a free
/// list with a bumped generation; ids can also be reserved ahead of time and
/// are materialised by `flush`.
pub struct EntityAllocator {
    entries: Vec<EntityEntry>,
    bitset: BitSet,
    pending: Vec<u32>,
    cursor: i64,
    len: u32,
}

impl EntityAllocator {
    /// How many slots the table holds, live or dead.
    pub closed spec fn n_slots(self) -> nat {
        self.entries@.len()
    }

    /// Whether index `i` names a live slot.
    pub closed spec fn slot_live(self, i: u32) -> bool {
        i < self.entries@.len() && self.entries@[i as int].is_live
    }

    /// The set of live indices.
    pub open spec fn live_set(self) -> Set<u32> {
        Set::new(|i: u32| self.slot_live(i))
    }

    /// The generation a slot currently carries; slots not yet allocated are
    /// at generation zero.
    pub closed spec fn slot_generation(self, i: u32) -> u32 {
        if i < self.entries@.len() {
            self.entries@[i as int].generation
        } else {
            0
        }
    }

    /// The component type ids recorded on slot `i`.
    pub closed spec fn owned_seq(self, i: u32) -> Seq<ComponentTypeId> {
        if i < self.entries@.len() {
            self.entries@[i as int].components@
        } else {
            Seq::empty()
        }
    }

    /// The component type ids recorded on slot `i`, as a set.
    pub open spec fn owned(self, i: u32) -> Set<ComponentTypeId> {
        self.owned_seq(i).to_set()
    }

    /// The free list of reusable indices, oldest first; `allocate` pops the
    /// top, `reserve` draws from the top downward.
    pub closed spec fn free_list(self) -> Seq<u32> {
        self.pending@
    }

    /// How many indices sit on the free list.
    pub open spec fn n_free(self) -> nat {
        self.free_list().len()
    }

    /// The reservation cursor: positive values count free-list indices not
    /// yet reserved, negative values count synthesised ids past the table.
    pub closed spec fn spec_cursor(self) -> int {
        self.cursor as int
    }

    /// No reservation is outstanding.
    pub open spec fn flushed(self) -> bool {
        self.spec_cursor() == self.n_free()
    }

    /// The ids handed out by `reserve` and not yet materialised by `flush`.
    pub closed spec fn reserved_ids(self) -> Set<u32> {
        Set::new(
            |i: u32|
                (exists|k: int|
                    max_int(self.cursor as int, 0) <= k < self.pending@.len()
                        && self.pending@[k] == i) || (self.entries@.len() <= i
                    && (i as int) < self.entries@.len() + neg_part(self.cursor as int)),
        )
    }

    /// All outstanding synthesised reservations fit below the id limit.
    pub open spec fn reservations_fit(self) -> bool {
        self.spec_cursor() >= 0 || self.n_slots() - self.spec_cursor() <= u32::MAX
    }

    /// The allocator's internal invariant: the bitset mirrors the live slots,
    /// the free list holds exactly the dead indices, each exactly once, the
    /// cursor never exceeds the free list, and `len` counts the live slots.
    pub closed spec fn wf(self) -> bool {
        &&& self.entries@.len() <= u32::MAX
        &&& bit_set_view(self.bitset) == self.live_set()
        &&& bit_set_view(self.bitset).finite()
        &&& self.cursor <= self.pending@.len()
        &&& forall|k: int|
            #![trigger self.pending@[k]]
            0 <= k < self.pending@.len() ==> (self.pending@[k] as int) < self.entries@.len()
                && !self.entries@[self.pending@[k] as int].is_live
        &&& forall|i: u32|
            #![trigger self.slot_live(i)]
            (i as int) < self.entries@.len() && !self.slot_live(i) ==> self.pending@.contains(i)
        &&& forall|j: int, k: int|
            #![trigger self.pending@[j], self.pending@[k]]
            0 <= j < k < self.pending@.len() ==> self.pending@[j] != self.pending@[k]
        &&& forall|i: u32|
            #![trigger self.owned_seq(i)]
            !self.slot_live(i) ==> self.owned_seq(i) == Seq::<ComponentTypeId>::empty()
        &&& forall|i: u32, j: int, k: int|
            #![trigger self.owned_seq(i)[j], self.owned_seq(i)[k]]
            0 <= j < k < self.owned_seq(i).len() ==> self.owned_seq(i)[j] != self.owned_seq(i)[k]
        &&& self.len as nat == self.live_set().len()
    }

    /// A stale or never-issued entity is semantically absent; a live one
    /// matches its slot's current generation.
    pub open spec fn spec_is_live(self, e: Entity) -> bool {
        self.live_set().contains(e.id) && self.slot_generation(e.id) == e.generation
    }

    pub fn is_live(&self, entity: Entity) -> (r: bool)
        ensures
            r == self.spec_is_live(entity),
    {
        let index = entity.id as usize;
        index < self.entries.len() && self.entries[index].generation == entity.generation
            && self.entries[index].is_live
    }

    pub fn len(&self) -> (r: u32)
        requires
            self.wf(),
        ensures
            r as nat == self.live_set().len(),
    {
        self.len
    }

    /// The membership bitset over live indices.
    pub fn get_bitset(&self) -> (r: &BitSet)
        requires
            self.wf(),
        ensures
            bit_set_view(*r) == self.live_set(),
            bit_set_view(*r).finite(),
    {
        &self.bitset
    }

    /// The live entity stored at index `id`, if any.
    pub fn get_entity(&self, id: u32) -> (r: Option<Entity>)
        ensures
            match r {
                Some(e) => self.slot_live(id) && e.id == id && e.generation
                    == self.slot_generation(id),
                None => !self.slot_live(id),
            },
    {
        let index = id as usize;
        if index < self.entries.len() && self.entries[index].is_live {
            Some(Entity { id, generation: self.entries[index].generation })
        } else {
            None
        }
    }

    /// Commits a fresh entity immediately: recycles the most recently freed
    /// index if one exists, bumping nothing (the generation was bumped when
    /// the slot was freed), and otherwise appends a new slot at generation 0.
    pub fn allocate(&mut self) -> (e: Entity)
        requires
            old(self).wf(),
            old(self).flushed(),
            old(self).n_free() > 0 || old(self).n_slots() < u32::MAX,
        ensures
            final(self).wf(),
            final(self).flushed(),
            !old(self).live_set().contains(e.id),
            e.generation == old(self).slot_generation(e.id),
            final(self).spec_is_live(e),
            final(self).live_set() == old(self).live_set().insert(e.id),
            forall|i: u32| final(self).slot_generation(i) == old(self).slot_generation(i),
            forall|i: u32| final(self).owned_seq(i) == old(self).owned_seq(i),
            final(self).owned_seq(e.id) == Seq::<ComponentTypeId>::empty(),
            old(self).n_free() > 0 ==> {
                &&& e.id == old(self).free_list().last()
                &&& final(self).free_list() == old(self).free_list().drop_last()
                &&& final(self).n_slots() == old(self).n_slots()
            },
            old(self).n_free() == 0 ==> {
                &&& e.id == old(self).n_slots()
                &&& final(self).free_list() == old(self).free_list()
                &&& final(self).n_slots() == old(self).n_slots() + 1
            },
    {
        proof {
            lemma_u32_set_card_bound(self.live_set(), self.n_slots());
        }
        if self.pending.len() > 0 {
            let id = self.pending.pop().unwrap();
            proof {
                // The popped index names a dead slot, so the live count is
                // strictly below the slot count and the bump cannot overflow.
                assert(old(self).pending@.contains(id));
                assert(!old(self).live_set().contains(id));
                assert(old(self).live_set().insert(id).len() == old(self).live_set().len() + 1);
                lemma_u32_set_card_bound(old(self).live_set().insert(id), old(self).n_slots());
            }
            self.cursor = self.pending.len() as i64;
            let index = id as usize;
            let generation = self.entries[index].generation;
            self.entries[index].is_live = true;
            self.bitset.insert(id);
            self.len = self.len + 1;
            proof {
                assert(self.live_set() =~= old(self).live_set().insert(id));
                assert forall|i: u32|
                    (i as int) < self.entries@.len() && !self.slot_live(i) implies self
                    .pending@
                    .contains(i) by {
                    assert(i != id);
                    assert(!old(self).slot_live(i));
                    assert(old(self).pending@.contains(i));
                    let k = choose|k: int|
                        0 <= k < old(self).pending@.len() && old(self).pending@[k] == i;
                    assert(old(self).pending@[old(self).pending@.len() - 1] == id);
                    assert(k < old(self).pending@.len() - 1);
                    assert(self.pending@[k] == i);
                    assert(self.pending@.contains(i));
                }
                assert forall|i: u32| self.owned_seq(i) == old(self).owned_seq(i) by {
                    if i == id {
                        assert(!old(self).slot_live(i));
                        assert(old(self).owned_seq(i) == Seq::<ComponentTypeId>::empty());
                        assert(self.owned_seq(i) =~= old(self).owned_seq(i));
                    }
                }
                assert(self.wf());
            }
            Entity { generation, id }
        } else {
            let id = self.entries.len() as u32;
            self.entries.push(EntityEntry { is_live: true, components: Vec::new(), generation: 0 });
            self.bitset.insert(id);
            self.len = self.len + 1;
            proof {
                assert(self.live_set() =~= old(self).live_set().insert(id));
                assert forall|i: u32| self.owned_seq(i) == old(self).owned_seq(i) by {
                    if i == id {
                        assert(self.owned_seq(i) =~= Seq::<ComponentTypeId>::empty());
                    }
                }
                assert forall|i: u32|
                    (i as int) < self.entries@.len() && !self.slot_live(i) implies self
                    .pending@
                    .contains(i) by {
                    assert(i != id);
                    assert(!old(self).slot_live(i));
                }
                assert(self.wf());
            }
            Entity { generation: 0, id }
        }
    }

    /// Hands out an id without touching the slot table: reservations draw
    /// from the unreserved tail of the free list first and then synthesise
    /// ids just past the table. Every call returns an id no earlier
    /// outstanding reservation returned.
    pub fn reserve(&mut self) -> (e: Entity)
        requires
            old(self).wf(),
            old(self).spec_cursor() > 0 || old(self).n_slots() - old(self).spec_cursor()
                < u32::MAX,
        ensures
            final(self).wf(),
            final(self).reservations_fit(),
            final(self).spec_cursor() == old(self).spec_cursor() - 1,
            final(self).n_slots() == old(self).n_slots(),
            final(self).n_free() == old(self).n_free(),
            final(self).live_set() == old(self).live_set(),
            forall|i: u32| final(self).slot_generation(i) == old(self).slot_generation(i),
            forall|i: u32| final(self).owned_seq(i) == old(self).owned_seq(i),
            !old(self).live_set().contains(e.id),
            !old(self).reserved_ids().contains(e.id),
            final(self).reserved_ids() == old(self).reserved_ids().insert(e.id),
            e.generation == old(self).slot_generation(e.id),
            final(self).free_list() == old(self).free_list(),
            old(self).spec_cursor() > 0 ==> e.id == old(self).free_list()[old(self).spec_cursor()
                - 1],
            old(self).spec_cursor() <= 0 ==> e.id == old(self).n_slots() - old(self).spec_cursor(),
    {
        let n = self.cursor;
        self.cursor = self.cursor - 1;
        let e: Entity;
        if n > 0 {
            let plen = self.pending.len();
            proof {
                assert(0 <= n - 1 < plen);
            }
            let id = self.pending[(n - 1) as usize];
            e = Entity { generation: self.entries[id as usize].generation, id };
            proof {
                assert(old(self).pending@[n - 1] == id);
                assert(!old(self).slot_live(id));
                assert(!old(self).reserved_ids().contains(id)) by {
                    if exists|k: int|
                        max_int(old(self).cursor as int, 0) <= k < old(self).pending@.len()
                            && old(self).pending@[k] == id {
                        let k = choose|k: int|
                            max_int(old(self).cursor as int, 0) <= k < old(self).pending@.len()
                                && old(self).pending@[k] == id;
                        assert(old(self).pending@[k] == old(self).pending@[n - 1]);
                    }
                }
            }
        } else {
            let id = (self.entries.len() as i64 - n) as u32;
            e = Entity { generation: 0, id };
            proof {
                assert(!old(self).reserved_ids().contains(id)) by {
                    if exists|k: int|
                        max_int(old(self).cursor as int, 0) <= k < old(self).pending@.len()
                            && old(self).pending@[k] == id {
                        let k = choose|k: int|
                            max_int(old(self).cursor as int, 0) <= k < old(self).pending@.len()
                                && old(self).pending@[k] == id;
                        assert((old(self).pending@[k] as int) < old(self).entries@.len());
                    }
                }
            }
        }
        proof {
            assert(self.reserved_ids() =~= old(self).reserved_ids().insert(e.id)) by {
                assert forall|x: u32| self.reserved_ids().contains(x) implies old(
                    self,
                ).reserved_ids().insert(e.id).contains(x) by {
                    if x != e.id {
                        if exists|k: int|
                            max_int(self.cursor as int, 0) <= k < self.pending@.len()
                                && self.pending@[k] == x {
                            let k = choose|k: int|
                                max_int(self.cursor as int, 0) <= k < self.pending@.len()
                                    && self.pending@[k] == x;
                            assert(k != n - 1);
                            assert(max_int(old(self).cursor as int, 0) <= k);
                            assert(old(self).pending@[k] == x);
                        }
                    }
                }
                assert forall|x: u32| old(self).reserved_ids().insert(e.id).contains(
                    x,
                ) implies self.reserved_ids().contains(x) by {
                    if x == e.id {
                        if n > 0 {
                            assert(self.pending@[n - 1] == x);
                            assert(max_int(self.cursor as int, 0) <= n - 1 < self.pending@.len());
                        }
                    } else {
                        if exists|k: int|
                            max_int(old(self).cursor as int, 0) <= k < old(self).pending@.len()
                                && old(self).pending@[k] == x {
                            let k = choose|k: int|
                                max_int(old(self).cursor as int, 0) <= k < old(self).pending@.len()
                                    && old(self).pending@[k] == x;
                            assert(self.pending@[k] == x);
                            assert(max_int(self.cursor as int, 0) <= k);
                        }
                    }
                }
            }
            assert(self.live_set() =~= old(self).live_set());
            assert forall|i: u32| self.slot_live(i) == old(self).slot_live(i) by {}
            assert forall|i: u32| self.owned_seq(i) == old(self).owned_seq(i) by {}
            assert forall|i: u32|
                (i as int) < self.entries@.len() && !self.slot_live(i) implies self
                .pending@
                .contains(i) by {
                assert(!old(self).slot_live(i));
            }
            assert forall|i: u32, j: int, k: int|
                0 <= j < k < self.owned_seq(i).len() implies self.owned_seq(i)[j]
                    != self.owned_seq(i)[k] by {
                assert(old(self).owned_seq(i)[j] != old(self).owned_seq(i)[k]);
            }
            assert forall|i: u32| !self.slot_live(i) implies self.owned_seq(i) == Seq::<
                ComponentTypeId,
            >::empty() by {
                assert(!old(self).slot_live(i));
            }
            assert(self.wf());
        }
        e
    }

    /// Materialises every outstanding reservation: grows the table to cover
    /// synthesised ids and turns reserved free-list indices live.
    pub fn flush(&mut self)
        requires
            old(self).wf(),
            old(self).reservations_fit(),
        ensures
            final(self).wf(),
            final(self).flushed(),
            final(self).live_set() == old(self).live_set().union(old(self).reserved_ids()),
            forall|i: u32| final(self).slot_generation(i) == old(self).slot_generation(i),
            forall|i: u32| final(self).owned_seq(i) == old(self).owned_seq(i),
            final(self).n_slots() == old(self).n_slots() + neg_part(old(self).spec_cursor()),
            forall|i: u32|
                old(self).reserved_ids().contains(i) ==> final(self).owned_seq(i) == Seq::<
                    ComponentTypeId,
                >::empty(),
            final(self).reserved_ids() =~= Set::<u32>::empty(),
            final(self).free_list() == old(self).free_list().take(
                max_int(old(self).spec_cursor(), 0),
            ),
    {
        let ghost pre = *old(self);
        let current = self.cursor;
        let new_cursor: usize;
        if current >= 0 {
            let plen = self.pending.len();
            proof {
                assert(0 <= current <= plen);
            }
            new_cursor = current as usize;
        } else {
            let old_len = self.entries.len();
            proof {
                assert(0 < -current <= u32::MAX);
            }
            let grow = (-current) as usize;
            proof {
                lemma_u32_set_card_bound(self.live_set(), self.n_slots());
            }
            let mut j: usize = 0;
            while j < grow
                invariant
                    j <= grow,
                    old_len == pre.entries@.len(),
                    grow == -pre.cursor,
                    pre.wf(),
                    old_len + grow <= u32::MAX,
                    self.entries@.len() == old_len + j,
                    self.pending == pre.pending,
                    self.cursor == pre.cursor,
                    self.len == pre.len,
                    forall|i: int| 0 <= i < old_len ==> self.entries@[i] == pre.entries@[i],
                    forall|i: int|
                        old_len <= i < old_len + j ==> (#[trigger] self.entries@[i]).is_live
                            && self.entries@[i].generation == 0 && self.entries@[i].components@
                            =~= Seq::<ComponentTypeId>::empty(),
                    bit_set_view(self.bitset) =~= pre.live_set().union(
                        Set::new(|i: u32| old_len <= i && (i as int) < old_len + j),
                    ),
                    bit_set_view(self.bitset).finite(),
                decreases grow - j,
            {
                self.entries.push(
                    EntityEntry { is_live: true, generation: 0, components: Vec::new() },
                );
                self.bitset.insert((old_len + j) as u32);
                proof {
                    assert(bit_set_view(self.bitset) =~= pre.live_set().union(
                        Set::new(|i: u32| old_len <= i && (i as int) < old_len + j + 1),
                    ));
                }
                j = j + 1;
            }
            proof {
                let grown = Set::new(|i: u32| old_len <= i && (i as int) < old_len + grow);
                assert(pre.live_set().disjoint(grown));
                lemma_disjoint_union_len(pre.live_set(), grown, old_len as nat, grow as nat);
            }
            self.len = self.len + (grow as u32);
            self.cursor = 0;
            new_cursor = 0;
            proof {
                let grown = Set::new(|i: u32| old_len <= i && (i as int) < old_len + grow);
                assert(bit_set_view(self.bitset) =~= pre.live_set().union(grown));
                assert(self.live_set() =~= bit_set_view(self.bitset));
                assert(self.len as nat == self.live_set().len());
            }
        }
        proof {
            if current >= 0 {
                assert(self.live_set() =~= pre.live_set());
            }
            assert(self.len as nat == self.live_set().len());
            assert(bit_set_view(self.bitset) == self.live_set());
            assert forall|i: u32| self.slot_generation(i) == pre.slot_generation(i) by {}
            assert forall|i: u32| self.owned_seq(i) == pre.owned_seq(i) by {
                if pre.entries@.len() <= (i as int) && (i as int) < self.entries@.len() {
                    assert(self.owned_seq(i) =~= pre.owned_seq(i));
                }
            }
            assert forall|i: u32|
                self.slot_live(i) == (pre.slot_live(i) || (pre.entries@.len() <= i && (i as int)
                    < self.entries@.len())) by {
                if current >= 0 {
                    assert(self.entries@ == pre.entries@);
                }
            }
        }
        while self.pending.len() > new_cursor
            invariant
                pre.wf(),
                current == pre.cursor,
                new_cursor == max_int(pre.cursor as int, 0),
                new_cursor <= self.pending@.len(),
                self.pending@.len() <= pre.pending@.len(),
                forall|k: int|
                    #![trigger self.pending@[k]]
                    0 <= k < self.pending@.len() ==> self.pending@[k] == pre.pending@[k],
                self.entries@.len() == pre.entries@.len() + neg_part(pre.cursor as int),
                self.entries@.len() <= u32::MAX,
                self.cursor == new_cursor as i64,
                forall|i: u32| self.slot_generation(i) == pre.slot_generation(i),
                forall|i: u32| self.owned_seq(i) == pre.owned_seq(i),
                forall|i: u32|
                    self.slot_live(i) == (pre.slot_live(i) || (pre.entries@.len() <= i && (
                    i as int) < self.entries@.len()) || exists|k: int|
                        self.pending@.len() <= k < pre.pending@.len() && pre.pending@[k] == i),
                bit_set_view(self.bitset) == self.live_set(),
                bit_set_view(self.bitset).finite(),
                self.len as nat == self.live_set().len(),
            decreases self.pending@.len(),
        {
            let ghost before = *self;
            let id = self.pending.pop().unwrap();
            proof {
                let ghost li = before.pending@.len() - 1;
                assert(before.pending@[li] == pre.pending@[li]);
                assert(pre.pending@[li] == id);
                assert(!pre.entries@[id as int].is_live);
                assert((id as int) < pre.entries@.len());
                assert(!before.slot_live(id)) by {
                    if before.slot_live(id) {
                        assert(!pre.slot_live(id));
                        if exists|k: int|
                            before.pending@.len() <= k < pre.pending@.len() && pre.pending@[k]
                                == id {
                            let k = choose|k: int|
                                before.pending@.len() <= k < pre.pending@.len()
                                    && pre.pending@[k] == id;
                            assert(pre.pending@[k] == pre.pending@[li]);
                        }
                    }
                }
                lemma_u32_set_card_bound(before.live_set(), before.entries@.len() as nat);
                assert(before.live_set().insert(id).len() == before.live_set().len() + 1);
                lemma_u32_set_card_bound(
                    before.live_set().insert(id),
                    before.entries@.len() as nat,
                );
            }
            let index = id as usize;
            self.entries[index].is_live = true;
            self.bitset.insert(id);
            self.len = self.len + 1;
            proof {
                assert forall|i: u32|
                    self.slot_live(i) implies (pre.slot_live(i) || (pre.entries@.len() <= i && (
                    i as int) < self.entries@.len()) || exists|k: int|
                        self.pending@.len() <= k < pre.pending@.len() && pre.pending@[k]
                            == i) by {
                    if i == id {
                        assert(pre.pending@[self.pending@.len() as int] == id);
                    } else {
                        assert(self.slot_live(i) == before.slot_live(i));
                        if !pre.slot_live(i) && !(pre.entries@.len() <= i && (i as int)
                            < self.entries@.len()) {
                            let k = choose|k: int|
                                before.pending@.len() <= k < pre.pending@.len()
                                    && pre.pending@[k] == i;
                            assert(self.pending@.len() <= k < pre.pending@.len()
                                && pre.pending@[k] == i);
                        }
                    }
                }
                assert forall|i: u32|
                    (pre.slot_live(i) || (pre.entries@.len() <= i && (i as int)
                        < self.entries@.len()) || exists|k: int|
                        self.pending@.len() <= k < pre.pending@.len() && pre.pending@[k]
                            == i) implies self.slot_live(i) by {
                    if i == id {
                        assert(self.slot_live(id));
                    } else {
                        if !pre.slot_live(i) && !(pre.entries@.len() <= i && (i as int)
                            < self.entries@.len()) {
                            let k = choose|k: int|
                                self.pending@.len() <= k < pre.pending@.len() && pre.pending@[k]
                                    == i;
                            assert(k != self.pending@.len()) by {
                                if k == self.pending@.len() {
                                    assert(pre.pending@[k] == id);
                                }
                            }
                            assert(before.pending@.len() <= k < pre.pending@.len()
                                && pre.pending@[k] == i);
                            assert(before.slot_live(i));
                        }
                        assert(self.slot_live(i) == before.slot_live(i));
                    }
                }
                assert(self.live_set() =~= before.live_set().insert(id));
                assert(bit_set_view(self.bitset) == self.live_set());
            }
        }
        proof {
            assert(self.flushed());
            assert(self.live_set() =~= pre.live_set().union(pre.reserved_ids())) by {
                assert forall|i: u32| self.slot_live(i) implies pre.live_set().union(
                    pre.reserved_ids(),
                ).contains(i) by {
                    if !pre.slot_live(i) {
                        if pre.entries@.len() <= i && (i as int) < self.entries@.len() {
                            assert(pre.reserved_ids().contains(i));
                        } else {
                            let k = choose|k: int|
                                self.pending@.len() <= k < pre.pending@.len() && pre.pending@[k]
                                    == i;
                            assert(max_int(pre.cursor as int, 0) <= k);
                            assert(pre.reserved_ids().contains(i));
                        }
                    }
                }
                assert forall|i: u32|
                    pre.live_set().union(pre.reserved_ids()).contains(i) implies self.slot_live(
                    i,
                ) by {
                    if pre.reserved_ids().contains(i) && !pre.live_set().contains(i) {
                        if (i as int) >= pre.entries@.len() {
                            assert((i as int) < pre.entries@.len() + neg_part(pre.cursor as int));
                        }
                    }
                }
            }
            assert forall|i: u32|
                (i as int) < self.entries@.len() && !self.slot_live(i) implies self
                .pending@
                .contains(i) by {
                assert(!pre.slot_live(i));
                if (i as int) < pre.entries@.len() {
                    assert(pre.pending@.contains(i));
                    let k = choose|k: int|
                        0 <= k < pre.pending@.len() && pre.pending@[k] == i;
                    assert(k < self.pending@.len()) by {
                        if k >= self.pending@.len() {
                            assert(self.slot_live(i));
                        }
                    }
                    assert(self.pending@[k] == i);
                    assert(self.pending@.contains(i));
                }
            }
            assert forall|k: int|
                0 <= k < self.pending@.len() implies (self.pending@[k] as int)
                    < self.entries@.len() && !self.entries@[self.pending@[k] as int].is_live by {
                assert(self.pending@[k] == pre.pending@[k]);
                let i = pre.pending@[k];
                assert(!pre.slot_live(i));
                assert(!self.slot_live(i)) by {
                    if self.slot_live(i) {
                        if exists|l: int|
                            self.pending@.len() <= l < pre.pending@.len() && pre.pending@[l]
                                == i {
                            let l = choose|l: int|
                                self.pending@.len() <= l < pre.pending@.len() && pre.pending@[l]
                                    == i;
                            assert(pre.pending@[l] == pre.pending@[k]);
                        }
                    }
                }
            }
            assert forall|j: int, k: int|
                0 <= j < k < self.pending@.len() implies self.pending@[j]
                    != self.pending@[k] by {
                assert(self.pending@[j] == pre.pending@[j]);
                assert(self.pending@[k] == pre.pending@[k]);
            }
            assert forall|i: u32| !self.slot_live(i) implies self.owned_seq(i) == Seq::<
                ComponentTypeId,
            >::empty() by {
                assert(!pre.slot_live(i));
                assert(self.owned_seq(i) == pre.owned_seq(i));
            }
            assert forall|i: u32, j: int, k: int|
                0 <= j < k < self.owned_seq(i).len() implies self.owned_seq(i)[j]
                    != self.owned_seq(i)[k] by {
                assert(self.owned_seq(i) == pre.owned_seq(i));
                assert(pre.owned_seq(i)[j] != pre.owned_seq(i)[k]);
            }
            assert(self.wf());
            assert(self.reserved_ids() =~= Set::<u32>::empty());
            assert forall|i: u32|
                pre.reserved_ids().contains(i) implies self.owned_seq(i) == Seq::<
                ComponentTypeId,
            >::empty() by {
                assert(self.owned_seq(i) == pre.owned_seq(i));
                if (i as int) < pre.entries@.len() {
                    assert(!pre.slot_live(i));
                    assert(pre.owned_seq(i) == Seq::<ComponentTypeId>::empty());
                } else {
                    assert(pre.owned_seq(i) =~= Seq::<ComponentTypeId>::empty());
                }
            }
        }
    }


    /// Frees a live entity: the slot's generation is bumped, its index joins
    /// the free list, and the recorded component type ids are handed back so
    /// the caller can purge the matching rows. Stale entities are refused.
    pub fn delloc(&mut self, entity: Entity) -> (r: Option<Vec<ComponentTypeId>>)
        requires
            old(self).wf(),
            old(self).flushed(),
            old(self).spec_is_live(entity) ==> old(self).slot_generation(entity.id) < u32::MAX,
        ensures
            final(self).wf(),
            final(self).flushed(),
            old(self).spec_is_live(entity) ==> {
                &&& r is Some
                &&& r.unwrap()@ == old(self).owned_seq(entity.id)
                &&& final(self).live_set() == old(self).live_set().remove(entity.id)
                &&& final(self).slot_generation(entity.id) == old(self).slot_generation(entity.id)
                    + 1
                &&& final(self).owned_seq(entity.id) == Seq::<ComponentTypeId>::empty()
                &&& forall|i: u32|
                    i != entity.id ==> final(self).slot_generation(i) == old(self).slot_generation(
                        i,
                    )
                &&& forall|i: u32|
                    i != entity.id ==> final(self).owned_seq(i) == old(self).owned_seq(i)
                &&& final(self).free_list() == old(self).free_list().push(entity.id)
            },
            !old(self).spec_is_live(entity) ==> r is None && *final(self) == *old(self),
            final(self).n_slots() == old(self).n_slots(),
    {
        if self.is_live(entity) {
            proof {
                lemma_distinct_seq_card(self.pending@, self.entries@.len() as nat);
            }
            let index = entity.id as usize;
            let mut components = Vec::new();
            std::mem::swap(&mut components, &mut self.entries[index].components);
            self.entries[index].is_live = false;
            self.entries[index].generation = self.entries[index].generation + 1;
            self.pending.push(entity.id);
            self.bitset.remove(entity.id);
            self.cursor = self.pending.len() as i64;
            self.len = self.len - 1;
            proof {
                assert(self.live_set() =~= old(self).live_set().remove(entity.id));
                assert(self.owned_seq(entity.id) =~= Seq::<ComponentTypeId>::empty());
                assert(old(self).entries@[entity.id as int].is_live);
                assert forall|k: int|
                    0 <= k < self.pending@.len() implies (#[trigger] self.pending@[k] as int)
                        < self.entries@.len() && !self.entries@[self.pending@[k] as int].is_live by {
                    if k < self.pending@.len() - 1 {
                        assert(self.pending@[k] == old(self).pending@[k]);
                        assert(!old(self).entries@[old(self).pending@[k] as int].is_live);
                        assert(old(self).pending@[k] != entity.id);
                    } else {
                        assert(self.pending@[k] == entity.id);
                    }
                }
                assert forall|i: u32| i != entity.id implies self.owned_seq(i) == old(
                    self,
                ).owned_seq(i) && self.slot_live(i) == old(self).slot_live(i) by {}
                assert forall|i: u32| !self.slot_live(i) implies self.owned_seq(i) == Seq::<
                    ComponentTypeId,
                >::empty() by {
                    if i != entity.id {
                        assert(!old(self).slot_live(i));
                    }
                }
                assert forall|i: u32, j: int, k: int|
                    0 <= j < k < self.owned_seq(i).len() implies self.owned_seq(i)[j]
                        != self.owned_seq(i)[k] by {
                    if i != entity.id {
                        assert(old(self).owned_seq(i)[j] != old(self).owned_seq(i)[k]);
                    }
                }
                assert forall|j: int, k: int|
                    0 <= j < k < self.pending@.len() implies self.pending@[j]
                    != self.pending@[k] by {
                    if k == self.pending@.len() - 1 {
                        assert(!old(self).entries@[old(self).pending@[j] as int].is_live);
                    }
                }
                assert forall|i: u32|
                    (i as int) < self.entries@.len() && !self.slot_live(i) implies self
                    .pending@
                    .contains(i) by {
                    if i == entity.id {
                        assert(self.pending@[self.pending@.len() - 1] == i);
                    } else {
                        assert(!old(self).slot_live(i));
                        assert(old(self).pending@.contains(i));
                        let k = choose|k: int|
                            0 <= k < old(self).pending@.len() && old(self).pending@[k] == i;
                        assert(self.pending@[k] == i);
                        assert(self.pending@.contains(i));
                    }
                }
                assert(self.wf());
            }
            Some(components)
        } else {
            None
        }
    }

    /// Records that a live entity owns a component of type `tid`.
    pub fn add_component(&mut self, entity: Entity, tid: ComponentTypeId)
        requires
            old(self).wf(),
        ensures
            final(self).wf(),
            final(self).flushed() == old(self).flushed(),
            final(self).live_set() == old(self).live_set(),
            final(self).n_slots() == old(self).n_slots(),
            final(self).n_free() == old(self).n_free(),
            final(self).spec_cursor() == old(self).spec_cursor(),
            final(self).reserved_ids() == old(self).reserved_ids(),
            forall|i: u32| final(self).slot_generation(i) == old(self).slot_generation(i),
            old(self).spec_is_live(entity) ==> final(self).owned(entity.id) == old(self).owned(
                entity.id,
            ).insert(tid),
            forall|i: u32| i != entity.id ==> final(self).owned_seq(i) == old(self).owned_seq(i),
            !old(self).spec_is_live(entity) ==> *final(self) == *old(self),
    {
        if self.is_live(entity) {
            let index = entity.id as usize;
            if !tid_vec_contains(&self.entries[index].components, tid) {
                self.entries[index].components.push(tid);
                proof {
                    assert(self.owned_seq(entity.id) == old(self).owned_seq(entity.id).push(tid));
                    assert(self.owned(entity.id) =~= old(self).owned(entity.id).insert(tid)) by {
                        lemma_seq_push_to_set(old(self).owned_seq(entity.id), tid);
                    }
                    assert(self.live_set() =~= old(self).live_set());
                    assert(self.reserved_ids() =~= old(self).reserved_ids());
                    assert forall|i: u32|
                        i != entity.id implies self.owned_seq(i) == old(self).owned_seq(i) by {}
                    assert forall|i: u32| self.slot_live(i) == old(self).slot_live(i) by {}
                    assert forall|i: u32|
                        (i as int) < self.entries@.len() && !self.slot_live(i) implies self
                        .pending@
                        .contains(i) by {
                        assert(!old(self).slot_live(i));
                    }
                    assert forall|k: int|
                        0 <= k < self.pending@.len() implies (#[trigger] self.pending@[k] as int)
                            < self.entries@.len() && !self.entries@[self.pending@[k] as int].is_live by {
                        assert(!old(self).entries@[old(self).pending@[k] as int].is_live);
                        assert(old(self).entries@[entity.id as int].is_live);
                    }
                    assert forall|i: u32| !self.slot_live(i) implies self.owned_seq(i) == Seq::<
                        ComponentTypeId,
                    >::empty() by {
                        assert(!old(self).slot_live(i));
                        assert(i != entity.id);
                    }
                    assert(!old(self).owned_seq(entity.id).contains(tid));
                    assert forall|i: u32, j: int, k: int|
                        0 <= j < k < self.owned_seq(i).len() implies self.owned_seq(i)[j]
                            != self.owned_seq(i)[k] by {
                        if i == entity.id {
                            if k == self.owned_seq(i).len() - 1 {
                                assert(self.owned_seq(i)[j] == old(self).owned_seq(i)[j]);
                                assert(self.owned_seq(i)[k] == tid);
                            } else {
                                assert(old(self).owned_seq(i)[j] != old(self).owned_seq(i)[k]);
                            }
                        } else {
                            assert(old(self).owned_seq(i)[j] != old(self).owned_seq(i)[k]);
                        }
                    }
                    assert(self.wf());
                }
            } else {
                proof {
                    assert(self.owned(entity.id).contains(tid));
                    assert(self.owned(entity.id) =~= old(self).owned(entity.id).insert(tid));
                }
            }
        }
    }

    /// Removes a component type id from a live entity's record.
    pub fn remove_commponent(&mut self, entity: Entity, tid: ComponentTypeId)
        requires
            old(self).wf(),
        ensures
            final(self).wf(),
            final(self).flushed() == old(self).flushed(),
            final(self).live_set() == old(self).live_set(),
            final(self).n_slots() == old(self).n_slots(),
            final(self).n_free() == old(self).n_free(),
            final(self).spec_cursor() == old(self).spec_cursor(),
            final(self).reserved_ids() == old(self).reserved_ids(),
            forall|i: u32| final(self).slot_generation(i) == old(self).slot_generation(i),
            old(self).spec_is_live(entity) ==> final(self).owned(entity.id) == old(self).owned(
                entity.id,
            ).remove(tid),
            forall|i: u32| i != entity.id ==> final(self).owned_seq(i) == old(self).owned_seq(i),
            !old(self).spec_is_live(entity) ==> *final(self) == *old(self),
    {
        if self.is_live(entity) {
            let index = entity.id as usize;
            match tid_vec_index_of(&self.entries[index].components, tid) {
                Some(k) => {
                    let ghost before = self.entries@[index as int].components@;
                    proof {
                        assert(before == old(self).owned_seq(entity.id));
                        assert forall|j: int, l: int|
                            0 <= j < l < before.len() implies before[j] != before[l] by {
                            assert(old(self).owned_seq(entity.id)[j] != old(self).owned_seq(
                                entity.id,
                            )[l]);
                        }
                    }
                    self.entries[index].components.swap_remove(k);
                    proof {
                        lemma_swap_remove_to_set(before, k as int);
                        assert(self.owned_seq(entity.id) == before.update(
                            k as int,
                            before[before.len() - 1],
                        ).drop_last());
                        assert(self.owned(entity.id) =~= old(self).owned(entity.id).remove(tid));
                        assert(self.live_set() =~= old(self).live_set());
                        assert(self.reserved_ids() =~= old(self).reserved_ids());
                        assert forall|i: u32|
                            i != entity.id implies self.owned_seq(i) == old(self).owned_seq(
                            i,
                        ) by {}
                        assert forall|i: u32| self.slot_live(i) == old(self).slot_live(i) by {}
                        assert forall|i: u32|
                            (i as int) < self.entries@.len() && !self.slot_live(i) implies self
                            .pending@
                            .contains(i) by {
                            assert(!old(self).slot_live(i));
                        }
                        assert forall|l: int|
                            0 <= l < self.pending@.len() implies (#[trigger] self.pending@[l] as int)
                                < self.entries@.len() && !self.entries@[self.pending@[l] as int].is_live by {
                            assert(!old(self).entries@[old(self).pending@[l] as int].is_live);
                            assert(old(self).entries@[entity.id as int].is_live);
                        }
                        assert forall|i: u32| !self.slot_live(i) implies self.owned_seq(i) == Seq::<
                            ComponentTypeId,
                        >::empty() by {
                            assert(!old(self).slot_live(i));
                            assert(i != entity.id);
                        }
                        assert forall|i: u32, j: int, l: int|
                            0 <= j < l < self.owned_seq(i).len() implies self.owned_seq(i)[j]
                                != self.owned_seq(i)[l] by {
                            if i != entity.id {
                                assert(old(self).owned_seq(i)[j] != old(self).owned_seq(i)[l]);
                            }
                        }
                        assert(self.wf());
                    }
                },
                None => {
                    proof {
                        assert(!self.owned(entity.id).contains(tid)) by {
                            if self.owned(entity.id).contains(tid) {
                                let j = choose|j: int|
                                    0 <= j < self.owned_seq(entity.id).len() && self.owned_seq(
                                        entity.id,
                                    )[j] == tid;
                            }
                        }
                        assert(self.owned(entity.id) =~= old(self).owned(entity.id).remove(tid));
                    }
                },
            }
        }
    }
}

impl Default for EntityAllocator {
    /// An empty allocator: no slots, no free indices, no reservations.
    fn default() -> (r: Self)
        ensures
            r.wf(),
            r.flushed(),
            r.live_set() =~= Set::<u32>::empty(),
            r.n_slots() == 0,
            r.n_free() == 0,
            r.spec_cursor() == 0,
            r.reserved_ids() =~= Set::<u32>::empty(),
            forall|i: u32| r.slot_generation(i) == 0,
    {
        let r = EntityAllocator {
            entries: Vec::new(),
            bitset: BitSet::new(),
            pending: Vec::new(),
            cursor: 0,
            len: 0,
        };
        proof {
            assert(r.live_set() =~= Set::<u32>::empty());
        }
        r
    }
}

/// Entity uniqueness: two entities accepted as live by the same allocator
/// state and sharing an index are the same entity, so no two distinct live
/// entities ever share an `(index, generation)` pair.
pub proof fn lemma_live_entities_unique(a: EntityAllocator, e1: Entity, e2: Entity)
    requires
        a.spec_is_live(e1),
        a.spec_is_live(e2),
        e1.id == e2.id,
    ensures
        e1 == e2,
{
}

/// With no reservation outstanding the reserved-id set is empty, so the
/// live set after a `flush` from such a state is the live set itself.
pub proof fn lemma_flushed_no_reservations(a: EntityAllocator)
    requires
        a.wf(),
        a.flushed(),
    ensures
        a.reserved_ids() =~= Set::<u32>::empty(),
{
}

/// Reservation uniqueness: each `reserve` call returns an id outside the set
/// of outstanding reservations and adds it to that set, so any two calls
/// with no intervening `flush` return distinct ids.
pub proof fn lemma_reservations_distinct(
    first: Set<u32>,
    second: Set<u32>,
    e1: Entity,
    e2: Entity,
)
    requires
        !first.contains(e1.id),
        second == first.insert(e1.id),
        !second.contains(e2.id),
    ensures
        e1.id != e2.id,
{
}

pub open spec fn neg_part(x: int) -> int {
    if x < 0 {
        -x
    } else {
        0
    }
}

pub open spec fn max_int(x: int, y: int) -> int {
    if x >= y {
        x
    } else {
        y
    }
}

/// Every finite set of `u32` indices all below `n` has at most `n` elements.
proof fn lemma_u32_set_card_bound(s: Set<u32>, n: nat)
    requires
        s.finite(),
        forall|i: u32| s.contains(i) ==> (i as nat) < n,
    ensures
        s.len() <= n,
    decreases n,
{
    if n == 0 {
        assert(s =~= Set::<u32>::empty());
    } else {
        let top = (n - 1) as u32;
        let s2 = s.remove(top);
        assert(forall|i: u32| s2.contains(i) ==> (i as nat) < (n - 1) as nat);
        lemma_u32_set_card_bound(s2, (n - 1) as nat);
    }
}

/// A sequence of pairwise-distinct `u32` values all below `n` has at most
/// `n` elements.
proof fn lemma_distinct_seq_card(s: Seq<u32>, n: nat)
    requires
        forall|k: int| 0 <= k < s.len() ==> (#[trigger] s[k] as nat) < n,
        forall|j: int, k: int| 0 <= j < k < s.len() ==> s[j] != s[k],
    ensures
        s.len() <= n,
{
    broadcast use vstd::seq_lib::seq_to_set_is_finite;

    assert(s.no_duplicates());
    s.unique_seq_to_set();
    assert forall|x: u32| s.to_set().contains(x) implies (x as nat) < n by {
        let k = choose|k: int| 0 <= k < s.len() && s[k] == x;
        assert((s[k] as nat) < n);
    }
    lemma_u32_set_card_bound(s.to_set(), n);
}

/// A union of a set below `lo` and a disjoint set within `[lo, lo+k)` has
/// length the sum of the two lengths.
proof fn lemma_disjoint_union_len(a: Set<u32>, b: Set<u32>, lo: nat, k: nat)
    requires
        a.finite(),
        b == Set::new(|i: u32| lo <= i && (i as int) < lo + k),
        a.disjoint(b),
        lo + k <= u32::MAX,
    ensures
        b.finite(),
        a.union(b).finite(),
        a.union(b).len() == a.len() + k,
    decreases k,
{
    if k == 0 {
        assert(b =~= Set::<u32>::empty());
        assert(a.union(b) =~= a);
    } else {
        let top = (lo + k - 1) as u32;
        let b2 = Set::new(|i: u32| lo <= i && (i as int) < lo + (k - 1));
        assert(b =~= b2.insert(top));
        lemma_disjoint_union_len(a, b2, lo, (k - 1) as nat);
        assert(a.union(b) =~= a.union(b2).insert(top));
        assert(!a.union(b2).contains(top));
    }
}

/// Pushing an element onto a sequence inserts it into the element set.
proof fn lemma_seq_push_to_set(s: Seq<ComponentTypeId>, x: ComponentTypeId)
    ensures
        s.push(x).to_set() =~= s.to_set().insert(x),
{
    assert forall|y: ComponentTypeId| s.push(x).to_set().contains(y) implies s.to_set().insert(
        x,
    ).contains(y) by {
        let j = choose|j: int| 0 <= j < s.push(x).len() && s.push(x)[j] == y;
        if j < s.len() {
            assert(s[j] == y);
        }
    }
    assert forall|y: ComponentTypeId| s.to_set().insert(x).contains(y) implies s.push(
        x,
    ).to_set().contains(y) by {
        if y == x {
            assert(s.push(x)[s.len() as int] == y);
        } else {
            let j = choose|j: int| 0 <= j < s.len() && s[j] == y;
            assert(s.push(x)[j] == y);
        }
    }
}

/// Swap-removing position `k` from a duplicate-free sequence removes exactly
/// that element from the element set.
proof fn lemma_swap_remove_to_set(s: Seq<ComponentTypeId>, k: int)
    requires
        0 <= k < s.len(),
        forall|j: int, l: int| 0 <= j < l < s.len() ==> s[j] != s[l],
    ensures
        s.update(k, s[s.len() - 1]).drop_last().to_set() =~= s.to_set().remove(s[k]),
        forall|j: int, l: int|
            #![trigger s.update(k, s[s.len() - 1]).drop_last()[j], s.update(k, s[s.len() - 1]).drop_last()[l]]
            0 <= j < l < s.update(k, s[s.len() - 1]).drop_last().len() ==> s.update(
                k,
                s[s.len() - 1],
            ).drop_last()[j] != s.update(k, s[s.len() - 1]).drop_last()[l],
{
    let t = s.update(k, s[s.len() - 1]).drop_last();
    assert forall|y: ComponentTypeId| t.to_set().contains(y) implies s.to_set().remove(
        s[k],
    ).contains(y) by {
        let j = choose|j: int| 0 <= j < t.len() && t[j] == y;
        if j == k {
            assert(s[s.len() - 1] == y);
        } else {
            assert(s[j] == y);
        }
    }
    assert forall|y: ComponentTypeId| s.to_set().remove(s[k]).contains(y) implies t
        .to_set()
        .contains(y) by {
        let j = choose|j: int| 0 <= j < s.len() && s[j] == y;
        if j == s.len() - 1 {
            assert(j != k);
            assert(t[k] == y);
        } else if j != k {
            assert(t[j] == y);
        }
    }
}

/// Whether a vector of component type ids holds `tid`.
fn tid_vec_contains(v: &Vec<ComponentTypeId>, tid: ComponentTypeId) -> (r: bool)
    ensures
        r == v@.contains(tid),
{
    let mut k: usize = 0;
    while k < v.len()
        invariant
            k <= v@.len(),
            forall|j: int| 0 <= j < k ==> v@[j] != tid,
        decreases v@.len() - k,
    {
        if v[k] == tid {
            return true;
        }
        k = k + 1;
    }
    false
}

/// The position of `tid` in the vector, if present.
fn tid_vec_index_of(v: &Vec<ComponentTypeId>, tid: ComponentTypeId) -> (r: Option<usize>)
    ensures
        match r {
            Some(k) => k < v@.len() && v@[k as int] == tid,
            None => !v@.contains(tid),
        },
{
    let mut k: usize = 0;
    while k < v.len()
        invariant
            k <= v@.len(),
            forall|j: int| 0 <= j < k ==> v@[j] != tid,
        decreases v@.len() - k,
    {
        if v[k] == tid {
            return Some(k);
        }
        k = k + 1;
    }
    None
}

} // verus!
