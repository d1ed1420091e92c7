//! Systems: application logic run by the scheduler each tick.
//!
//! A system sees the world read-only — its only permitted effect on the
//! world is reserving entity ids — and edits it through its command buffer,
//! which the stage flushes after every system in the stage has run.

use vstd::prelude::*;

use crate::accessor::Read;
use crate::accessor::Write;
use crate::command::CommandBuffer;
use crate::query::Query;
use crate::resources::Resources;
use crate::schedule::StageLabel;
use crate::world::World;

verus! {

/// One unit of application logic. Implementations may mutate their own state,
/// the command buffer and the resources, but must leave the world unchanged
/// apart from entity reservations.
pub trait System<V, R> {
    /// The stage the system asks to run in, if it declares one; by default a
    /// system declares none and is placed explicitly.
    fn stage(&self) -> Option<StageLabel> {
        None
    }

    fn run(
        &mut self,
        world: &mut World<V>,
        commands: &mut CommandBuffer<V>,
        resources: &mut Resources<R>,
    )
        requires
            old(world).wf(),
            old(world).entity_allocator.reservations_fit(),
            old(resources).wf(),
        ensures
            final(world).wf(),
            final(world).entity_allocator.reservations_fit(),
            final(resources).wf(),
            final(world).components == old(world).components,
            final(world).entity_allocator.live_set() == old(world).entity_allocator.live_set(),
            forall|i: u32|
                final(world).entity_allocator.slot_generation(i) == old(
                    world,
                ).entity_allocator.slot_generation(i),
            final(world).entity_allocator.n_slots() == old(world).entity_allocator.n_slots(),
            final(world).entity_allocator.n_free() == old(world).entity_allocator.n_free(),
    ;
}

/// Records what a system declares: its stage and its resource and query
/// accesses. Built by chained calls; a system implementation keeps the
/// finished record and answers `stage` from it.
pub struct SystemBuilder {
    stage: Option<StageLabel>,
    reads: Vec<Read>,
    writes: Vec<Write>,
    queries: Vec<Query>,
}

impl SystemBuilder {
    pub closed spec fn spec_stage(self) -> Option<StageLabel> {
        self.stage
    }

    pub closed spec fn spec_reads(self) -> Seq<Read> {
        self.reads@
    }

    pub closed spec fn spec_writes(self) -> Seq<Write> {
        self.writes@
    }

    pub closed spec fn spec_queries(self) -> Seq<Query> {
        self.queries@
    }

    pub fn new() -> (r: SystemBuilder)
        ensures
            r.spec_stage() is None,
            r.spec_reads() == Seq::<Read>::empty(),
            r.spec_writes() == Seq::<Write>::empty(),
            r.spec_queries() == Seq::<Query>::empty(),
    {
        SystemBuilder { stage: None, reads: Vec::new(), writes: Vec::new(), queries: Vec::new() }
    }

    /// Pins the system to a stage.
    pub fn on_stage(self, label: StageLabel) -> (r: SystemBuilder)
        ensures
            r.spec_stage() == Some(label),
            r.spec_reads() == self.spec_reads(),
            r.spec_writes() == self.spec_writes(),
            r.spec_queries() == self.spec_queries(),
    {
        SystemBuilder {
            stage: Some(label),
            reads: self.reads,
            writes: self.writes,
            queries: self.queries,
        }
    }

    /// Declares shared access to a resource.
    pub fn read_resource(self, access: Read) -> (r: SystemBuilder)
        ensures
            r.spec_stage() == self.spec_stage(),
            r.spec_reads() == self.spec_reads().push(access),
            r.spec_writes() == self.spec_writes(),
            r.spec_queries() == self.spec_queries(),
    {
        let mut reads = self.reads;
        reads.push(access);
        SystemBuilder { stage: self.stage, reads, writes: self.writes, queries: self.queries }
    }

    /// Declares exclusive access to a resource.
    pub fn write_resource(self, access: Write) -> (r: SystemBuilder)
        ensures
            r.spec_stage() == self.spec_stage(),
            r.spec_reads() == self.spec_reads(),
            r.spec_writes() == self.spec_writes().push(access),
            r.spec_queries() == self.spec_queries(),
    {
        let mut writes = self.writes;
        writes.push(access);
        SystemBuilder { stage: self.stage, reads: self.reads, writes, queries: self.queries }
    }

    /// Declares a query the system will iterate.
    pub fn with_query(self, query: Query) -> (r: SystemBuilder)
        ensures
            r.spec_stage() == self.spec_stage(),
            r.spec_reads() == self.spec_reads(),
            r.spec_writes() == self.spec_writes(),
            r.spec_queries() == self.spec_queries().push(query),
    {
        let mut queries = self.queries;
        queries.push(query);
        SystemBuilder { stage: self.stage, reads: self.reads, writes: self.writes, queries }
    }

    pub fn stage(&self) -> (r: Option<StageLabel>)
        ensures
            r == self.spec_stage(),
    {
        self.stage
    }
}

} // verus!
