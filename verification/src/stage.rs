//! A stage: an ordered group of systems run together, whose command buffers
//! flush only after every system in the stage has run.

use vstd::prelude::*;

use crate::command::CommandBuffer;
use crate::resources::Resources;
use crate::system::System;
use crate::world::World;

verus! {

/// An ordered group of systems with one command buffer each. A sequence
/// stage runs its systems every tick; a sequence-once stage runs them on the
/// first tick only.
pub struct Stage<V, R, S> {
    systems: Vec<S>,
    buffers: Vec<CommandBuffer<V>>,
    once: bool,
    ran: bool,
    _marker: core::marker::PhantomData<R>,
}

impl<V: Copy, R, S: System<V, R>> Stage<V, R, S> {
    /// One command buffer per system.
    pub closed spec fn wf(self) -> bool {
        self.systems@.len() == self.buffers@.len()
    }

    /// Whether the stage runs only once over the schedule's lifetime.
    pub closed spec fn spec_once(self) -> bool {
        self.once
    }

    /// Whether a sequence-once stage has already run.
    pub closed spec fn spec_ran(self) -> bool {
        self.ran
    }

    pub closed spec fn n_systems(self) -> nat {
        self.systems@.len()
    }

    /// A stage that runs its systems every tick.
    pub fn sequence() -> (r: Stage<V, R, S>)
        ensures
            r.wf(),
            !r.spec_once(),
            !r.spec_ran(),
            r.n_systems() == 0,
    {
        Stage {
            systems: Vec::new(),
            buffers: Vec::new(),
            once: false,
            ran: false,
            _marker: core::marker::PhantomData,
        }
    }

    /// A stage that runs its systems on the first tick only.
    pub fn sequence_once() -> (r: Stage<V, R, S>)
        ensures
            r.wf(),
            r.spec_once(),
            !r.spec_ran(),
            r.n_systems() == 0,
    {
        Stage {
            systems: Vec::new(),
            buffers: Vec::new(),
            once: true,
            ran: false,
            _marker: core::marker::PhantomData,
        }
    }

    /// Appends a system; it runs after every system added earlier.
    pub fn add_system(&mut self, system: S)
        requires
            old(self).wf(),
        ensures
            final(self).wf(),
            final(self).n_systems() == old(self).n_systems() + 1,
            final(self).spec_once() == old(self).spec_once(),
            final(self).spec_ran() == old(self).spec_ran(),
    {
        self.systems.push(system);
        self.buffers.push(CommandBuffer::new());
    }

    /// Runs every system in insertion order, handing each the world
    /// read-only and its own command buffer; then, again in insertion order,
    /// flushes each buffer into the world. A sequence-once stage that has
    /// already run leaves everything untouched.
    pub fn run(&mut self, world: &mut World<V>, resources: &mut Resources<R>)
        requires
            old(self).wf(),
            old(world).wf(),
            old(world).entity_allocator.flushed(),
            old(resources).wf(),
            forall|i: u32|
                old(world).entity_allocator.slot_generation(i) + old(self).n_systems()
                    <= u32::MAX,
        ensures
            final(self).wf(),
            final(self).spec_once() == old(self).spec_once(),
            final(self).n_systems() == old(self).n_systems(),
            final(world).wf(),
            final(resources).wf(),
            old(self).spec_once() && old(self).spec_ran() ==> *final(world) == *old(world)
                && *final(resources) == *old(resources) && *final(self) == *old(self),
            !(old(self).spec_once() && old(self).spec_ran()) ==> final(self).spec_ran(),
            final(world).entity_allocator.flushed() || *final(world) == *old(world),
            forall|i: u32|
                final(world).entity_allocator.slot_generation(i) <= old(
                    world,
                ).entity_allocator.slot_generation(i) + old(self).n_systems(),
    {
        if self.once && self.ran {
            return ;
        }
        let n = self.systems.len();
        if n == 0 {
            self.ran = true;
            return ;
        }
        let ghost entry_world = *world;
        let mut j: usize = 0;
        while j < n
            invariant
                self.wf(),
                n == self.systems@.len(),
                j <= n,
                world.wf(),
                world.entity_allocator.reservations_fit(),
                resources.wf(),
                world.components == entry_world.components,
                world.entity_allocator.live_set() == entry_world.entity_allocator.live_set(),
                forall|i: u32|
                    world.entity_allocator.slot_generation(i)
                        == entry_world.entity_allocator.slot_generation(i),
                world.entity_allocator.n_slots() == entry_world.entity_allocator.n_slots(),
                self.once == old(self).once,
                self.ran == old(self).ran,
            decreases n - j,
        {
            let sys = &mut self.systems[j];
            sys.run(world, &mut self.buffers[j], resources);
            j = j + 1;
        }
        let mut k: usize = 0;
        while k < n
            invariant
                self.wf(),
                n == self.systems@.len(),
                k <= n,
                world.wf(),
                world.entity_allocator.reservations_fit(),
                resources.wf(),
                forall|i: u32|
                    world.entity_allocator.slot_generation(i)
                        <= entry_world.entity_allocator.slot_generation(i) + k,
                forall|i: u32|
                    entry_world.entity_allocator.slot_generation(i) + n <= u32::MAX,
                forall|i: u32|
                    entry_world.entity_allocator.slot_generation(i) == old(
                        world,
                    ).entity_allocator.slot_generation(i),
                k > 0 ==> world.entity_allocator.flushed(),
                self.once == old(self).once,
                self.ran == old(self).ran,
            decreases n - k,
        {
            proof {
                assert forall|i: u32|
                    world.entity_allocator.slot_generation(i) < u32::MAX by {
                    assert(world.entity_allocator.slot_generation(i)
                        <= entry_world.entity_allocator.slot_generation(i) + k);
                    assert(entry_world.entity_allocator.slot_generation(i) + n <= u32::MAX);
                }
            }
            self.buffers[k].flush(world);
            k = k + 1;
        }
        self.ran = true;
        proof {
            assert forall|i: u32|
                world.entity_allocator.slot_generation(i) <= old(
                    world,
                ).entity_allocator.slot_generation(i) + old(self).n_systems() by {}
        }
    }
}

} // verus!
