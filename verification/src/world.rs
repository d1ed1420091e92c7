//! The world: an entity allocator paired with the component stores.

use vstd::prelude::*;

use crate::component::Components;
use crate::component::ComponentTypeId;
use crate::entity::Entity;
use crate::entity::EntityAllocator;

verus! {

/// Owns the entities and their components. The invariant ties the two
/// together: the component type ids recorded on a live slot are exactly the
/// stores that hold a row for that slot's index, and no store holds a row
/// for a dead index.
pub struct World<V> {
    pub components: Components<V>,
    pub entity_allocator: EntityAllocator,
}

impl<V> World<V> {
    /// World consistency: both halves are internally consistent, and a store
    /// holds a row for an index exactly when that index is live and records
    /// the store's component type.
    pub open spec fn wf(self) -> bool {
        &&& self.entity_allocator.wf()
        &&& self.components.wf()
        &&& forall|t: ComponentTypeId, i: u32|
            #![trigger self.components.store(t).dom().contains(i)]
            #![trigger self.entity_allocator.owned(i).contains(t)]
            self.components.store(t).dom().contains(i) == (self.entity_allocator.slot_live(i)
                && self.entity_allocator.owned(i).contains(t))
    }

    /// Whether `entity` is live, generation included.
    pub open spec fn live(self, e: Entity) -> bool {
        self.entity_allocator.spec_is_live(e)
    }

    /// The entries of component type `t`, keyed by entity index.
    pub open spec fn store(self, t: ComponentTypeId) -> Map<u32, V> {
        self.components.store(t)
    }

    pub fn new() -> (r: World<V>)
        ensures
            r.wf(),
            r.entity_allocator.flushed(),
            r.entity_allocator.live_set() =~= Set::<u32>::empty(),
            r.entity_allocator.n_slots() == 0,
            r.entity_allocator.n_free() == 0,
            r.entity_allocator.spec_cursor() == 0,
            r.entity_allocator.reserved_ids() =~= Set::<u32>::empty(),
            forall|i: u32| r.entity_allocator.slot_generation(i) == 0,
            forall|t: ComponentTypeId| #[trigger] r.store(t) =~= Map::<u32, V>::empty(),
    {
        let r = World { components: Components::new(), entity_allocator: EntityAllocator::default() };
        r
    }

    pub fn is_live(&self, entity: Entity) -> (r: bool)
        ensures
            r == self.live(entity),
    {
        self.entity_allocator.is_live(entity)
    }

    /// Commits a fresh live entity with no components.
    pub fn spawn(&mut self) -> (e: Entity)
        requires
            old(self).wf(),
            old(self).entity_allocator.flushed(),
            old(self).entity_allocator.n_free() > 0 || old(self).entity_allocator.n_slots()
                < u32::MAX,
        ensures
            final(self).wf(),
            final(self).entity_allocator.flushed(),
            final(self).live(e),
            !old(self).live(e),
            !old(self).entity_allocator.live_set().contains(e.id),
            final(self).entity_allocator.live_set() == old(
                self,
            ).entity_allocator.live_set().insert(e.id),
            forall|t: ComponentTypeId| #[trigger] final(self).store(t) == old(self).store(t),
            final(self).entity_allocator.owned(e.id) =~= Set::<ComponentTypeId>::empty(),
            forall|i: u32|
                final(self).entity_allocator.slot_generation(i) == old(
                    self,
                ).entity_allocator.slot_generation(i),
            e.generation == old(self).entity_allocator.slot_generation(e.id),
            old(self).entity_allocator.n_free() > 0 ==> {
                &&& e.id == old(self).entity_allocator.free_list().last()
                &&& final(self).entity_allocator.free_list() == old(
                    self,
                ).entity_allocator.free_list().drop_last()
                &&& final(self).entity_allocator.n_slots() == old(self).entity_allocator.n_slots()
            },
            old(self).entity_allocator.n_free() == 0 ==> {
                &&& e.id == old(self).entity_allocator.n_slots()
                &&& final(self).entity_allocator.free_list() == old(
                    self,
                ).entity_allocator.free_list()
                &&& final(self).entity_allocator.n_slots() == old(self).entity_allocator.n_slots()
                    + 1
            },
    {
        let e = self.entity_allocator.allocate();
        proof {
            assert(!old(self).live(e));
            assert forall|t: ComponentTypeId, i: u32|
                #![trigger self.components.store(t).dom().contains(i)]
                #![trigger self.entity_allocator.owned(i).contains(t)]
                self.components.store(t).dom().contains(i) == (self.entity_allocator.slot_live(i)
                    && self.entity_allocator.owned(i).contains(t)) by {
                assert(old(self).components.store(t).dom().contains(i) == (old(
                    self,
                ).entity_allocator.slot_live(i) && old(self).entity_allocator.owned(i).contains(
                    t,
                )));
                assert(old(self).entity_allocator.live_set().contains(i) == old(
                    self,
                ).entity_allocator.slot_live(i));
                assert(self.entity_allocator.live_set().contains(i)
                    == self.entity_allocator.slot_live(i));
                assert(self.entity_allocator.owned_seq(i) == old(self).entity_allocator.owned_seq(
                    i,
                ));
                if i == e.id {
                    assert(self.entity_allocator.owned_seq(i) == Seq::<ComponentTypeId>::empty());
                    assert(self.entity_allocator.owned(i) =~= Set::<ComponentTypeId>::empty());
                    assert(!old(self).entity_allocator.slot_live(i));
                }
            }
            assert(self.entity_allocator.owned_seq(e.id) == Seq::<ComponentTypeId>::empty());
            assert(self.entity_allocator.owned(e.id) =~= Set::<ComponentTypeId>::empty());
        }
        e
    }

    /// Reserves an entity id without touching the slot table; the id becomes
    /// live at the next `flush`.
    pub fn reserve_entity(&mut self) -> (e: Entity)
        requires
            old(self).wf(),
            old(self).entity_allocator.spec_cursor() > 0 || old(self).entity_allocator.n_slots()
                - old(self).entity_allocator.spec_cursor() < u32::MAX,
        ensures
            final(self).wf(),
            final(self).components == old(self).components,
            final(self).entity_allocator.live_set() == old(self).entity_allocator.live_set(),
            !old(self).entity_allocator.live_set().contains(e.id),
            !old(self).entity_allocator.reserved_ids().contains(e.id),
            final(self).entity_allocator.reserved_ids() == old(
                self,
            ).entity_allocator.reserved_ids().insert(e.id),
            final(self).entity_allocator.spec_cursor() == old(
                self,
            ).entity_allocator.spec_cursor() - 1,
            final(self).entity_allocator.n_slots() == old(self).entity_allocator.n_slots(),
            final(self).entity_allocator.n_free() == old(self).entity_allocator.n_free(),
            e.generation == old(self).entity_allocator.slot_generation(e.id),
            forall|t: ComponentTypeId| #[trigger] final(self).store(t) == old(self).store(t),
            forall|i: u32|
                final(self).entity_allocator.slot_generation(i) == old(
                    self,
                ).entity_allocator.slot_generation(i),
            final(self).entity_allocator.free_list() == old(self).entity_allocator.free_list(),
            old(self).entity_allocator.spec_cursor() > 0 ==> e.id == old(
                self,
            ).entity_allocator.free_list()[old(self).entity_allocator.spec_cursor() - 1],
            old(self).entity_allocator.spec_cursor() <= 0 ==> e.id == old(
                self,
            ).entity_allocator.n_slots() - old(self).entity_allocator.spec_cursor(),
    {
        let e = self.entity_allocator.reserve();
        proof {
            assert forall|t: ComponentTypeId, i: u32|
                #![trigger self.components.store(t).dom().contains(i)]
                #![trigger self.entity_allocator.owned(i).contains(t)]
                self.components.store(t).dom().contains(i) == (self.entity_allocator.slot_live(i)
                    && self.entity_allocator.owned(i).contains(t)) by {
                assert(old(self).components.store(t).dom().contains(i) == (old(
                    self,
                ).entity_allocator.slot_live(i) && old(self).entity_allocator.owned(i).contains(
                    t,
                )));
                assert(old(self).entity_allocator.live_set().contains(i) == old(
                    self,
                ).entity_allocator.slot_live(i));
                assert(self.entity_allocator.live_set().contains(i)
                    == self.entity_allocator.slot_live(i));
                assert(self.entity_allocator.owned_seq(i) == old(self).entity_allocator.owned_seq(
                    i,
                ));
            }
        }
        e
    }

    /// Materialises every outstanding reservation.
    pub fn flush(&mut self)
        requires
            old(self).wf(),
            old(self).entity_allocator.reservations_fit(),
        ensures
            final(self).wf(),
            final(self).entity_allocator.flushed(),
            final(self).components == old(self).components,
            final(self).entity_allocator.live_set() == old(
                self,
            ).entity_allocator.live_set().union(old(self).entity_allocator.reserved_ids()),
            forall|i: u32|
                final(self).entity_allocator.slot_generation(i) == old(
                    self,
                ).entity_allocator.slot_generation(i),
            forall|t: ComponentTypeId| #[trigger] final(self).store(t) == old(self).store(t),
            final(self).entity_allocator.reserved_ids() =~= Set::<u32>::empty(),
            final(self).entity_allocator.n_slots() == old(self).entity_allocator.n_slots()
                + crate::entity::neg_part(old(self).entity_allocator.spec_cursor()),
            final(self).entity_allocator.free_list() == old(
                self,
            ).entity_allocator.free_list().take(
                crate::entity::max_int(old(self).entity_allocator.spec_cursor(), 0),
            ),
    {
        self.entity_allocator.flush();
        proof {
            assert forall|t: ComponentTypeId, i: u32|
                #![trigger self.components.store(t).dom().contains(i)]
                #![trigger self.entity_allocator.owned(i).contains(t)]
                self.components.store(t).dom().contains(i) == (self.entity_allocator.slot_live(i)
                    && self.entity_allocator.owned(i).contains(t)) by {
                assert(old(self).components.store(t).dom().contains(i) == (old(
                    self,
                ).entity_allocator.slot_live(i) && old(self).entity_allocator.owned(i).contains(
                    t,
                )));
                assert(old(self).entity_allocator.live_set().contains(i) == old(
                    self,
                ).entity_allocator.slot_live(i));
                assert(self.entity_allocator.live_set().contains(i)
                    == self.entity_allocator.slot_live(i));
                assert(self.entity_allocator.owned_seq(i) == old(self).entity_allocator.owned_seq(
                    i,
                ));
                if !old(self).entity_allocator.slot_live(i) && self.entity_allocator.slot_live(i) {
                    assert(old(self).entity_allocator.reserved_ids().contains(i));
                    assert(self.entity_allocator.owned_seq(i) == Seq::<ComponentTypeId>::empty());
                    assert(self.entity_allocator.owned(i) =~= Set::<ComponentTypeId>::empty());
                }
            }
        }
    }

    /// Despawns a live entity: frees its slot and purges its rows from every
    /// store that held one. Despawning a stale entity is a no-op.
    pub fn despawn(&mut self, entity: Entity)
        requires
            old(self).wf(),
            old(self).entity_allocator.flushed(),
            old(self).live(entity) ==> old(self).entity_allocator.slot_generation(entity.id)
                < u32::MAX,
        ensures
            final(self).wf(),
            final(self).entity_allocator.flushed(),
            old(self).live(entity) ==> {
                &&& final(self).entity_allocator.live_set() == old(
                    self,
                ).entity_allocator.live_set().remove(entity.id)
                &&& forall|t: ComponentTypeId|
                    #[trigger] final(self).store(t) == old(self).store(t).remove(entity.id)
                &&& final(self).entity_allocator.slot_generation(entity.id) == old(
                    self,
                ).entity_allocator.slot_generation(entity.id) + 1
                &&& final(self).entity_allocator.free_list() == old(
                    self,
                ).entity_allocator.free_list().push(entity.id)
                &&& final(self).entity_allocator.n_slots() == old(self).entity_allocator.n_slots()
            },
            !old(self).live(entity) ==> *final(self) == *old(self),
            forall|i: u32|
                i != entity.id ==> final(self).entity_allocator.slot_generation(i) == old(
                    self,
                ).entity_allocator.slot_generation(i),
    {
        let ghost pre = *old(self);
        match self.entity_allocator.delloc(entity) {
            Some(tids) => {
                let ghost mid_alloc = self.entity_allocator;
                let mut k: usize = 0;
                while k < tids.len()
                    invariant
                        pre.wf(),
                        pre.live(entity),
                        tids@ == pre.entity_allocator.owned_seq(entity.id),
                        k <= tids@.len(),
                        self.entity_allocator == mid_alloc,
                        self.components.wf(),
                        self.components@.dom() == pre.components@.dom(),
                        forall|t: ComponentTypeId|
                            tids@.take(k as int).contains(t) ==> #[trigger] self.components.store(
                                t,
                            ) == pre.components.store(t).remove(entity.id),
                        forall|t: ComponentTypeId|
                            !tids@.take(k as int).contains(t) ==> #[trigger] self.components.store(
                                t,
                            ) == pre.components.store(t),
                    decreases tids@.len() - k,
                {
                    let ghost ck = *self;
                    self.components.remove_raw(&tids[k], entity);
                    proof {
                        let t0 = tids@[k as int];
                        assert(tids@.take(k as int + 1) =~= tids@.take(k as int).push(t0));
                        assert forall|t: ComponentTypeId|
                            tids@.take(k as int + 1).contains(t) implies #[trigger] self
                            .components
                            .store(t) == pre.components.store(t).remove(entity.id) by {
                            if t == t0 {
                                if tids@.take(k as int).contains(t) {
                                    assert(self.components.store(t) =~= pre.components.store(
                                        t,
                                    ).remove(entity.id));
                                } else {
                                    assert(ck.components.store(t) == pre.components.store(t));
                                }
                            } else {
                                assert(tids@.take(k as int).contains(t)) by {
                                    let j = choose|j: int|
                                        #![trigger tids@.take(k as int + 1)[j]]
                                        0 <= j < tids@.take(k as int + 1).len() && tids@.take(
                                            k as int + 1,
                                        )[j] == t;
                                    assert(tids@.take(k as int)[j] == t);
                                }
                            }
                        }
                        assert forall|t: ComponentTypeId|
                            !tids@.take(k as int + 1).contains(t) implies #[trigger] self
                            .components
                            .store(t) == pre.components.store(t) by {
                            assert(!tids@.take(k as int).contains(t)) by {
                                if tids@.take(k as int).contains(t) {
                                    let j = choose|j: int|
                                        #![trigger tids@.take(k as int)[j]]
                                        0 <= j < tids@.take(k as int).len() && tids@.take(
                                            k as int,
                                        )[j] == t;
                                    assert(tids@.take(k as int + 1)[j] == t);
                                }
                            }
                            assert(t != t0) by {
                                if t == t0 {
                                    assert(tids@.take(k as int + 1)[k as int] == t);
                                }
                            }
                        }
                    }
                    k = k + 1;
                }
                proof {
                    assert(tids@.take(tids@.len() as int) =~= tids@);
                    assert forall|t: ComponentTypeId|
                        #[trigger] self.components.store(t) == pre.components.store(t).remove(
                        entity.id,
                    ) by {
                        if !tids@.contains(t) {
                            assert(!pre.entity_allocator.owned(entity.id).contains(t));
                            assert(!pre.components.store(t).dom().contains(entity.id));
                            assert(self.components.store(t) =~= pre.components.store(t).remove(
                                entity.id,
                            ));
                        }
                    }
                    assert forall|t: ComponentTypeId, i: u32|
                        #![trigger self.components.store(t).dom().contains(i)]
                        #![trigger self.entity_allocator.owned(i).contains(t)]
                        self.components.store(t).dom().contains(i) == (
                        self.entity_allocator.slot_live(i) && self.entity_allocator.owned(
                            i,
                        ).contains(t)) by {
                        assert(self.components.store(t) == pre.components.store(t).remove(
                            entity.id,
                        ));
                        assert(pre.entity_allocator.live_set().contains(i)
                            == pre.entity_allocator.slot_live(i));
                        assert(self.entity_allocator.live_set().contains(i)
                            == self.entity_allocator.slot_live(i));
                        if i == entity.id {
                            assert(self.entity_allocator.owned_seq(i) == Seq::<
                                ComponentTypeId,
                            >::empty());
                            assert(self.entity_allocator.owned(i) =~= Set::<
                                ComponentTypeId,
                            >::empty());
                            assert(!self.entity_allocator.owned(i).contains(t));
                        } else {
                            assert(pre.components.store(t).dom().contains(i) == (
                            pre.entity_allocator.slot_live(i) && pre.entity_allocator.owned(
                                i,
                            ).contains(t)));
                            assert(self.entity_allocator.owned_seq(i) == pre
                                .entity_allocator
                                .owned_seq(i));
                        }
                    }
                }
            },
            None => {},
        }
    }

    /// Adds (or silently replaces) a component on a live entity and records
    /// its type id on the slot; on a stale entity the world is unchanged.
    pub fn add_component(&mut self, entity: Entity, tid: ComponentTypeId, component: V)
        requires
            old(self).wf(),
        ensures
            final(self).wf(),
            final(self).entity_allocator.flushed() == old(self).entity_allocator.flushed(),
            final(self).entity_allocator.live_set() == old(self).entity_allocator.live_set(),
            final(self).entity_allocator.reserved_ids() == old(
                self,
            ).entity_allocator.reserved_ids(),
            final(self).entity_allocator.spec_cursor() == old(self).entity_allocator.spec_cursor(),
            final(self).entity_allocator.n_slots() == old(self).entity_allocator.n_slots(),
            final(self).entity_allocator.n_free() == old(self).entity_allocator.n_free(),
            forall|i: u32|
                final(self).entity_allocator.slot_generation(i) == old(
                    self,
                ).entity_allocator.slot_generation(i),
            old(self).live(entity) ==> {
                &&& final(self).store(tid) == old(self).store(tid).insert(entity.id, component)
                &&& forall|t: ComponentTypeId|
                    t != tid ==> #[trigger] final(self).store(t) == old(self).store(t)
            },
            !old(self).live(entity) ==> *final(self) == *old(self),
    {
        if self.entity_allocator.is_live(entity) {
            self.components.insert(tid, entity, component);
            self.entity_allocator.add_component(entity, tid);
            proof {
                assert forall|t: ComponentTypeId, i: u32|
                    #![trigger self.components.store(t).dom().contains(i)]
                    #![trigger self.entity_allocator.owned(i).contains(t)]
                    self.components.store(t).dom().contains(i) == (
                    self.entity_allocator.slot_live(i) && self.entity_allocator.owned(i).contains(
                        t,
                    )) by {
                    assert(old(self).components.store(t).dom().contains(i) == (old(
                        self,
                    ).entity_allocator.slot_live(i) && old(self).entity_allocator.owned(
                        i,
                    ).contains(t)));
                    assert(old(self).entity_allocator.live_set().contains(i) == old(
                        self,
                    ).entity_allocator.slot_live(i));
                    assert(self.entity_allocator.live_set().contains(i)
                        == self.entity_allocator.slot_live(i));
                    if i == entity.id {
                        assert(self.entity_allocator.owned(i) == old(self).entity_allocator.owned(
                            i,
                        ).insert(tid));
                    } else {
                        assert(self.entity_allocator.owned_seq(i) == old(
                            self,
                        ).entity_allocator.owned_seq(i));
                    }
                    if t == tid {
                        assert(self.components.store(t) == old(self).components.store(t).insert(
                            entity.id,
                            component,
                        ));
                    } else {
                        assert(self.components.store(t) == old(self).components.store(t));
                    }
                }
            }
        }
    }

    /// Removes a component from a live entity, row and record alike; on a
    /// stale entity the world is unchanged.
    pub fn remove_commponent(&mut self, entity: Entity, tid: ComponentTypeId)
        requires
            old(self).wf(),
        ensures
            final(self).wf(),
            final(self).entity_allocator.flushed() == old(self).entity_allocator.flushed(),
            final(self).entity_allocator.live_set() == old(self).entity_allocator.live_set(),
            final(self).entity_allocator.reserved_ids() == old(
                self,
            ).entity_allocator.reserved_ids(),
            final(self).entity_allocator.spec_cursor() == old(self).entity_allocator.spec_cursor(),
            final(self).entity_allocator.n_slots() == old(self).entity_allocator.n_slots(),
            final(self).entity_allocator.n_free() == old(self).entity_allocator.n_free(),
            forall|i: u32|
                final(self).entity_allocator.slot_generation(i) == old(
                    self,
                ).entity_allocator.slot_generation(i),
            old(self).live(entity) ==> {
                &&& final(self).store(tid) == old(self).store(tid).remove(entity.id)
                &&& forall|t: ComponentTypeId|
                    t != tid ==> #[trigger] final(self).store(t) == old(self).store(t)
            },
            !old(self).live(entity) ==> *final(self) == *old(self),
    {
        if self.entity_allocator.is_live(entity) {
            self.components.remove(tid, entity);
            self.entity_allocator.remove_commponent(entity, tid);
            proof {
                assert forall|t: ComponentTypeId, i: u32|
                    #![trigger self.components.store(t).dom().contains(i)]
                    #![trigger self.entity_allocator.owned(i).contains(t)]
                    self.components.store(t).dom().contains(i) == (
                    self.entity_allocator.slot_live(i) && self.entity_allocator.owned(i).contains(
                        t,
                    )) by {
                    assert(old(self).components.store(t).dom().contains(i) == (old(
                        self,
                    ).entity_allocator.slot_live(i) && old(self).entity_allocator.owned(
                        i,
                    ).contains(t)));
                    assert(old(self).entity_allocator.live_set().contains(i) == old(
                        self,
                    ).entity_allocator.slot_live(i));
                    assert(self.entity_allocator.live_set().contains(i)
                        == self.entity_allocator.slot_live(i));
                    if i == entity.id {
                        assert(self.entity_allocator.owned(i) == old(self).entity_allocator.owned(
                            i,
                        ).remove(tid));
                    } else {
                        assert(self.entity_allocator.owned_seq(i) == old(
                            self,
                        ).entity_allocator.owned_seq(i));
                    }
                    if t == tid {
                        assert(self.components.store(t) == old(self).components.store(t).remove(
                            entity.id,
                        ));
                    } else {
                        assert(self.components.store(t) == old(self).components.store(t));
                    }
                }
            }
        }
    }

    /// The component of type `tid` held by a live entity; a stale entity or
    /// an absent row reads as nothing.
    pub fn get_component(&self, tid: ComponentTypeId, entity: Entity) -> (r: Option<&V>)
        requires
            self.wf(),
        ensures
            match r {
                Some(v) => self.live(entity) && self.store(tid).dom().contains(entity.id) && *v
                    == self.store(tid)[entity.id],
                None => !(self.live(entity) && self.store(tid).dom().contains(entity.id)),
            },
    {
        if self.entity_allocator.is_live(entity) {
            self.components.get(tid, entity)
        } else {
            None
        }
    }
}

/// Round-trip: a component added to a live entity and not overwritten,
/// removed, or despawned since reads back as exactly the stored value.
pub proof fn lemma_component_round_trip<V>(before: Map<u32, V>, after: Map<u32, V>, e: Entity, v: V)
    requires
        after == before.insert(e.id, v),
    ensures
        after.dom().contains(e.id),
        after[e.id] == v,
{
}

/// Entity uniqueness at the world level: two entities the same world accepts
/// as live and sharing an index are equal in generation too.
pub proof fn lemma_world_live_entities_unique<V>(w: World<V>, e1: Entity, e2: Entity)
    requires
        w.live(e1),
        w.live(e2),
        e1.id == e2.id,
    ensures
        e1 == e2,
{
}

} // verus!
