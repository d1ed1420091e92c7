//! Deferred world mutations: commands queue per system and drain into the
//! world in submission order at a stage boundary.

use vstd::prelude::*;

use crate::component::ComponentTypeId;
use crate::entity::Entity;
use crate::world::World;

verus! {

/// One deferred mutation.
#[derive(Clone, Copy)]
pub enum Command<V> {
    /// Free the entity and purge its rows.
    Despawn(Entity),
    /// Add (or replace) a component on the entity.
    AddComponent(Entity, ComponentTypeId, V),
    /// Remove a component from the entity.
    RemoveComponent(Entity, ComponentTypeId),
}

/// An abstract snapshot of the world: which indices are live, each slot's
/// generation, and every store's entries. Command application is defined
/// over snapshots.
#[verifier::ext_equal]
pub struct WorldSnap<V> {
    pub live: Set<u32>,
    pub gens: Map<u32, u32>,
    pub stores: Map<ComponentTypeId, Map<u32, V>>,
}

/// The world's current snapshot.
pub open spec fn world_snap<V>(w: World<V>) -> WorldSnap<V> {
    WorldSnap {
        live: w.entity_allocator.live_set(),
        gens: Map::total(|i: u32| w.entity_allocator.slot_generation(i)),
        stores: Map::total(|t: ComponentTypeId| w.store(t)),
    }
}

/// Whether a snapshot accepts an entity as live.
pub open spec fn snap_live<V>(s: WorldSnap<V>, e: Entity) -> bool {
    s.live.contains(e.id) && s.gens[e.id] == e.generation
}

/// The effect of one command: commands referencing stale entities are
/// dropped silently.
pub open spec fn apply_command<V>(s: WorldSnap<V>, c: Command<V>) -> WorldSnap<V> {
    match c {
        Command::Despawn(e) => if snap_live(s, e) {
            WorldSnap {
                live: s.live.remove(e.id),
                gens: s.gens.insert(e.id, (s.gens[e.id] + 1) as u32),
                stores: Map::total(|t: ComponentTypeId| s.stores[t].remove(e.id)),
            }
        } else {
            s
        },
        Command::AddComponent(e, tid, v) => if snap_live(s, e) {
            WorldSnap { live: s.live, gens: s.gens, stores: s.stores.insert(tid, s.stores[tid].insert(e.id, v)) }
        } else {
            s
        },
        Command::RemoveComponent(e, tid) => if snap_live(s, e) {
            WorldSnap { live: s.live, gens: s.gens, stores: s.stores.insert(tid, s.stores[tid].remove(e.id)) }
        } else {
            s
        },
    }
}

/// The effect of a command sequence, applied first to last.
pub open spec fn apply_commands<V>(s: WorldSnap<V>, cs: Seq<Command<V>>) -> WorldSnap<V>
    decreases cs.len(),
{
    if cs.len() == 0 {
        s
    } else {
        apply_commands(apply_command(s, cs[0]), cs.drop_first())
    }
}

/// Extending a command sequence applies the new command after the rest.
pub proof fn lemma_apply_commands_snoc<V>(s: WorldSnap<V>, cs: Seq<Command<V>>, c: Command<V>)
    ensures
        apply_commands(s, cs.push(c)) == apply_command(apply_commands(s, cs), c),
    decreases cs.len(),
{
    reveal_with_fuel(apply_commands, 3);
    if cs.len() == 0 {
        assert(cs.push(c)[0] == c);
        assert(cs.push(c).drop_first() =~= Seq::<Command<V>>::empty());
    } else {
        assert(cs.push(c)[0] == cs[0]);
        assert(cs.push(c).drop_first() =~= cs.drop_first().push(c));
        lemma_apply_commands_snoc(apply_command(s, cs[0]), cs.drop_first(), c);
    }
}

/// A per-system queue of deferred mutations, drained in submission order.
pub struct CommandBuffer<V> {
    commands: Vec<Command<V>>,
}

impl<V> CommandBuffer<V> {
    /// The queued commands in submission order.
    pub closed spec fn view(self) -> Seq<Command<V>> {
        self.commands@
    }

    pub fn new() -> (r: CommandBuffer<V>)
        ensures
            r@ == Seq::<Command<V>>::empty(),
    {
        CommandBuffer { commands: Vec::new() }
    }

    pub fn is_empty(&self) -> (r: bool)
        ensures
            r == (self@.len() == 0),
    {
        self.commands.len() == 0
    }

    /// Queues a despawn of `entity`.
    pub fn despawn(&mut self, entity: Entity)
        ensures
            final(self)@ == old(self)@.push(Command::Despawn(entity)),
    {
        self.commands.push(Command::Despawn(entity));
    }

    /// Queues adding `component` to `entity` under `tid`.
    pub fn add_component(&mut self, entity: Entity, tid: ComponentTypeId, component: V)
        ensures
            final(self)@ == old(self)@.push(Command::AddComponent(entity, tid, component)),
    {
        self.commands.push(Command::AddComponent(entity, tid, component));
    }

    /// Queues removing the `tid` component from `entity`.
    pub fn remove_component(&mut self, entity: Entity, tid: ComponentTypeId)
        ensures
            final(self)@ == old(self)@.push(Command::RemoveComponent(entity, tid)),
    {
        self.commands.push(Command::RemoveComponent(entity, tid));
    }

    /// Reserves a fresh entity id to queue commands against; the id becomes
    /// live when the buffer is flushed.
    pub fn spawn(&mut self, world: &mut World<V>) -> (e: Entity)
        requires
            old(world).wf(),
            old(world).entity_allocator.spec_cursor() > 0 || old(
                world,
            ).entity_allocator.n_slots() - old(world).entity_allocator.spec_cursor() < u32::MAX,
        ensures
            final(self)@ == old(self)@,
            final(world).wf(),
            final(world).components == old(world).components,
            final(world).entity_allocator.live_set() == old(world).entity_allocator.live_set(),
            !old(world).entity_allocator.reserved_ids().contains(e.id),
            final(world).entity_allocator.reserved_ids() == old(
                world,
            ).entity_allocator.reserved_ids().insert(e.id),
            final(world).entity_allocator.spec_cursor() == old(
                world,
            ).entity_allocator.spec_cursor() - 1,
            final(world).entity_allocator.n_slots() == old(world).entity_allocator.n_slots(),
            final(world).entity_allocator.n_free() == old(world).entity_allocator.n_free(),
    {
        world.reserve_entity()
    }

}

impl<V: Copy> CommandBuffer<V> {
    /// Applies the queue: first materialises every reserved entity, then
    /// applies each command in submission order. The resulting world is
    /// exactly the fold of the queue over the flushed world; the buffer is
    /// left empty.
    pub fn flush(&mut self, world: &mut World<V>)
        requires
            old(world).wf(),
            old(world).entity_allocator.reservations_fit(),
            forall|i: u32| old(world).entity_allocator.slot_generation(i) < u32::MAX,
        ensures
            final(self)@ == Seq::<Command<V>>::empty(),
            final(world).wf(),
            final(world).entity_allocator.flushed(),
            final(world).entity_allocator.live_set() == world_snap(*final(world)).live,
            world_snap(*final(world)) == apply_commands(
                snap_after_reservations(*old(world)),
                old(self)@,
            ),
            forall|i: u32|
                final(world).entity_allocator.slot_generation(i) == old(
                    world,
                ).entity_allocator.slot_generation(i) || final(world).entity_allocator.slot_generation(
                    i,
                ) == old(world).entity_allocator.slot_generation(i) + 1,
    {
        let ghost cmds = self.commands@;
        world.flush();
        let ghost base = *world;
        proof {
            assert(world_snap(base) == snap_after_reservations(*old(world))) by {
                assert(world_snap(base).gens =~= snap_after_reservations(*old(world)).gens);
                assert(world_snap(base).stores =~= snap_after_reservations(*old(world)).stores);
                assert(world_snap(base) =~= snap_after_reservations(*old(world)));
            }
            assert(apply_commands(world_snap(base), cmds.take(0)) == world_snap(base)) by {
                assert(cmds.take(0) =~= Seq::<Command<V>>::empty());
            }
        }
        let mut k: usize = 0;
        while k < self.commands.len()
            invariant
                cmds == self.commands@,
                k <= cmds.len(),
                world.wf(),
                world.entity_allocator.flushed(),
                forall|i: u32|
                    base.entity_allocator.slot_generation(i) < u32::MAX,
                forall|i: u32|
                    world.entity_allocator.slot_live(i)
                        ==> #[trigger] world.entity_allocator.slot_generation(i)
                        == base.entity_allocator.slot_generation(i),
                forall|i: u32|
                    #![trigger world.entity_allocator.slot_generation(i)]
                    world.entity_allocator.slot_generation(i)
                        == base.entity_allocator.slot_generation(i)
                        || world.entity_allocator.slot_generation(i)
                        == base.entity_allocator.slot_generation(i) + 1,
                world_snap(*world) == apply_commands(world_snap(base), cmds.take(k as int)),
            decreases cmds.len() - k,
        {
            let ghost pre = *world;
            let ghost cur = apply_commands(world_snap(base), cmds.take(k as int));
            proof {
                assert(cmds.take(k as int + 1) =~= cmds.take(k as int).push(cmds[k as int]));
                lemma_apply_commands_snoc(world_snap(base), cmds.take(k as int), cmds[k as int]);
            }
            let c = self.commands[k];
            match c {
                Command::Despawn(entity) => {
                    proof {
                        if pre.live(entity) {
                            assert(pre.entity_allocator.live_set().contains(entity.id)
                                == pre.entity_allocator.slot_live(entity.id));
                        }
                    }
                    world.despawn(entity);
                    proof {
                        assert(snap_live(cur, entity) == pre.live(entity));
                        assert(world_snap(*world) =~= apply_command(cur, cmds[k as int])) by {
                            if pre.live(entity) {
                                assert(world_snap(*world).gens =~= apply_command(
                                    cur,
                                    cmds[k as int],
                                ).gens);
                                assert(world_snap(*world).stores =~= apply_command(
                                    cur,
                                    cmds[k as int],
                                ).stores);
                            } else {
                                assert(world_snap(*world).gens =~= cur.gens);
                                assert(world_snap(*world).stores =~= cur.stores);
                            }
                        }
                        assert forall|i: u32|
                            world.entity_allocator.slot_live(i)
                                implies #[trigger] world.entity_allocator.slot_generation(i)
                                == base.entity_allocator.slot_generation(i) by {
                            assert(world.entity_allocator.live_set().contains(i)
                                == world.entity_allocator.slot_live(i));
                            assert(pre.entity_allocator.live_set().contains(i)
                                == pre.entity_allocator.slot_live(i));
                        }
                    }
                },
                Command::AddComponent(entity, t, value) => {
                    world.add_component(entity, t, value);
                    proof {
                        assert(snap_live(cur, entity) == pre.live(entity));
                        assert(world_snap(*world) =~= apply_command(cur, cmds[k as int])) by {
                            assert(world_snap(*world).gens =~= cur.gens);
                            if pre.live(entity) {
                                assert(world_snap(*world).stores =~= cur.stores.insert(
                                    t,
                                    cur.stores[t].insert(entity.id, value),
                                ));
                            } else {
                                assert(world_snap(*world).stores =~= cur.stores);
                            }
                        }
                        assert forall|i: u32|
                            world.entity_allocator.slot_live(i)
                                implies #[trigger] world.entity_allocator.slot_generation(i)
                                == base.entity_allocator.slot_generation(i) by {
                            assert(world.entity_allocator.live_set().contains(i)
                                == world.entity_allocator.slot_live(i));
                            assert(pre.entity_allocator.live_set().contains(i)
                                == pre.entity_allocator.slot_live(i));
                        }
                    }
                },
                Command::RemoveComponent(entity, t) => {
                    world.remove_commponent(entity, t);
                    proof {
                        assert(snap_live(cur, entity) == pre.live(entity));
                        assert(world_snap(*world) =~= apply_command(cur, cmds[k as int])) by {
                            assert(world_snap(*world).gens =~= cur.gens);
                            if pre.live(entity) {
                                assert(world_snap(*world).stores =~= cur.stores.insert(
                                    t,
                                    cur.stores[t].remove(entity.id),
                                ));
                            } else {
                                assert(world_snap(*world).stores =~= cur.stores);
                            }
                        }
                        assert forall|i: u32|
                            world.entity_allocator.slot_live(i)
                                implies #[trigger] world.entity_allocator.slot_generation(i)
                                == base.entity_allocator.slot_generation(i) by {
                            assert(world.entity_allocator.live_set().contains(i)
                                == world.entity_allocator.slot_live(i));
                            assert(pre.entity_allocator.live_set().contains(i)
                                == pre.entity_allocator.slot_live(i));
                        }
                    }
                },
            }
            k = k + 1;
        }
        self.commands.clear();
        proof {
            assert(cmds.take(cmds.len() as int) =~= cmds);
        }
    }
}

/// The snapshot after materialising outstanding reservations and before any
/// command applies.
pub open spec fn snap_after_reservations<V>(w: World<V>) -> WorldSnap<V> {
    WorldSnap {
        live: w.entity_allocator.live_set().union(w.entity_allocator.reserved_ids()),
        gens: Map::total(|i: u32| w.entity_allocator.slot_generation(i)),
        stores: Map::total(|t: ComponentTypeId| w.store(t)),
    }
}

} // verus!
