//! The application: a world, a schedule of standard stages, and a resource
//! store, advanced one tick at a time by `update`.
//!
//! The runtime is in-process and synchronous: the embedding program owns the
//! outer loop (a windowing event loop, a benchmark harness, a test) and
//! drives the app by calling `update` once per tick.

use vstd::prelude::*;

use crate::resources::Resources;
use crate::resources::ResourceTypeId;
use crate::schedule::Schedule;
use crate::schedule::StageLabel;
use crate::stage::Stage;
use crate::system::System;
use crate::world::World;

verus! {

/// The standard stages, in canonical order: Begin, Startup (run once),
/// PreUpdate, Update, PostUpdate, End.
#[derive(Clone, Copy, PartialEq, Eq, Structural, Debug, Hash)]
pub enum AppStage {
    Begin,
    Startup,
    PreUpdate,
    Update,
    PostUpdate,
    End,
}

/// The conventional event an application sends to ask its runner to stop.
#[derive(Clone, Copy, PartialEq, Eq, Structural, Debug)]
pub struct AppExit;

/// Composes the app: a world, a schedule, and resources.
pub struct App<V, R, S> {
    pub world: World<V>,
    pub schedule: Schedule<V, R, S>,
    pub resources: Resources<R>,
}

/// An external subsystem that registers itself on the app.
pub trait Plugin<V: Copy, R, S: System<V, R>> {
    fn build(&mut self, app: &mut App<V, R, S>)
        requires
            old(app).wf(),
        ensures
            final(app).wf(),
    ;
}

impl<V: Copy, R, S: System<V, R>> App<V, R, S> {
    pub open spec fn wf(self) -> bool {
        &&& self.world.wf()
        &&& self.schedule.wf()
        &&& self.resources.wf()
    }

    /// A fresh app with the standard stages registered in canonical order;
    /// Startup runs once, every other stage runs each tick.
    pub fn new() -> (r: App<V, R, S>)
        ensures
            r.wf(),
            r.world.entity_allocator.flushed(),
            r.world.entity_allocator.n_slots() == 0,
            forall|i: u32| r.world.entity_allocator.slot_generation(i) == 0,
            r.schedule.has_stage(StageLabel::App(AppStage::Begin)),
            r.schedule.has_stage(StageLabel::App(AppStage::Startup)),
            r.schedule.has_stage(StageLabel::App(AppStage::PreUpdate)),
            r.schedule.has_stage(StageLabel::App(AppStage::Update)),
            r.schedule.has_stage(StageLabel::App(AppStage::PostUpdate)),
            r.schedule.has_stage(StageLabel::App(AppStage::End)),
    {
        let mut schedule: Schedule<V, R, S> = Schedule::new();
        schedule.add_stage(StageLabel::App(AppStage::Begin), Stage::sequence());
        schedule.add_stage(StageLabel::App(AppStage::Startup), Stage::sequence_once());
        schedule.add_stage(StageLabel::App(AppStage::PreUpdate), Stage::sequence());
        schedule.add_stage(StageLabel::App(AppStage::Update), Stage::sequence());
        schedule.add_stage(StageLabel::App(AppStage::PostUpdate), Stage::sequence());
        schedule.add_stage(StageLabel::App(AppStage::End), Stage::sequence());
        let r = App { world: World::new(), schedule, resources: Resources::new() };
        proof {
            assert(r.schedule.labels()[0] == StageLabel::App(AppStage::Begin));
            assert(r.schedule.labels()[1] == StageLabel::App(AppStage::Startup));
            assert(r.schedule.labels()[2] == StageLabel::App(AppStage::PreUpdate));
            assert(r.schedule.labels()[3] == StageLabel::App(AppStage::Update));
            assert(r.schedule.labels()[4] == StageLabel::App(AppStage::PostUpdate));
            assert(r.schedule.labels()[5] == StageLabel::App(AppStage::End));
        }
        r
    }

    /// Registers an external subsystem: the plugin's `build` runs once, here.
    pub fn add_plugin<P: Plugin<V, R, S>>(&mut self, plugin: &mut P)
        requires
            old(self).wf(),
        ensures
            final(self).wf(),
    {
        plugin.build(self);
    }

    /// Stores a resource; an existing value of the same type is replaced.
    pub fn add_resource(&mut self, tid: ResourceTypeId, resource: R)
        requires
            old(self).wf(),
        ensures
            final(self).wf(),
            final(self).world == old(self).world,
            final(self).schedule == old(self).schedule,
            final(self).resources@ == old(self).resources@.insert(tid, resource),
    {
        self.resources.insert(tid, resource);
    }

    /// Registers an event bus: stores it as a resource and places the
    /// caller's pump system — which must call the bus's `update` — on the
    /// Begin stage, so the buffers swap once per tick before anything else
    /// runs.
    pub fn add_event(&mut self, tid: ResourceTypeId, bus: R, pump: S)
        requires
            old(self).wf(),
            old(self).schedule.has_stage(StageLabel::App(AppStage::Begin)),
        ensures
            final(self).wf(),
            final(self).schedule.labels() == old(self).schedule.labels(),
            final(self).schedule.total_systems() == old(self).schedule.total_systems() + 1,
            final(self).resources@ == old(self).resources@.insert(tid, bus),
            final(self).world == old(self).world,
    {
        self.resources.insert(tid, bus);
        self.schedule.add_system_to_stage(StageLabel::App(AppStage::Begin), pump);
    }

    /// Appends a stage under a fresh label.
    pub fn add_stage(&mut self, label: StageLabel, stage: Stage<V, R, S>)
        requires
            old(self).wf(),
            !old(self).schedule.has_stage(label),
            stage.wf(),
        ensures
            final(self).wf(),
            final(self).schedule.labels() == old(self).schedule.labels().push(label),
            final(self).schedule.total_systems() == old(self).schedule.total_systems()
                + stage.n_systems(),
    {
        self.schedule.add_stage(label, stage);
    }

    /// Inserts a stage under a fresh label directly before `target`.
    pub fn add_stage_before(
        &mut self,
        target: StageLabel,
        label: StageLabel,
        stage: Stage<V, R, S>,
    )
        requires
            old(self).wf(),
            old(self).schedule.has_stage(target),
            !old(self).schedule.has_stage(label),
            stage.wf(),
        ensures
            final(self).wf(),
            forall|l: StageLabel|
                #[trigger] final(self).schedule.has_stage(l) == (old(self).schedule.has_stage(l)
                    || l == label),
            final(self).schedule.total_systems() == old(self).schedule.total_systems()
                + stage.n_systems(),
            exists|j: int|
                0 <= j < old(self).schedule.labels().len() && #[trigger] old(
                    self,
                ).schedule.labels()[j] == target && final(self).schedule.labels() == old(
                    self,
                ).schedule.labels().insert(j, label),
    {
        self.schedule.add_stage_before(target, label, stage);
    }

    /// Inserts a stage under a fresh label directly after `target`.
    pub fn add_stage_after(
        &mut self,
        target: StageLabel,
        label: StageLabel,
        stage: Stage<V, R, S>,
    )
        requires
            old(self).wf(),
            old(self).schedule.has_stage(target),
            !old(self).schedule.has_stage(label),
            stage.wf(),
        ensures
            final(self).wf(),
            forall|l: StageLabel|
                #[trigger] final(self).schedule.has_stage(l) == (old(self).schedule.has_stage(l)
                    || l == label),
            final(self).schedule.total_systems() == old(self).schedule.total_systems()
                + stage.n_systems(),
            exists|j: int|
                0 <= j < old(self).schedule.labels().len() && #[trigger] old(
                    self,
                ).schedule.labels()[j] == target && final(self).schedule.labels() == old(
                    self,
                ).schedule.labels().insert(j + 1, label),
    {
        self.schedule.add_stage_after(target, label, stage);
    }

    /// Adds a system to the stage it declares, or to Update when it declares
    /// none; reports whether a declared stage existed.
    pub fn add_system(&mut self, system: S) -> (r: bool)
        requires
            old(self).wf(),
            old(self).schedule.has_stage(StageLabel::App(AppStage::Update)),
        ensures
            final(self).wf(),
            final(self).schedule.labels() == old(self).schedule.labels(),
            r ==> final(self).schedule.total_systems() == old(self).schedule.total_systems() + 1,
            !r ==> *final(self) == *old(self),
            final(self).world == old(self).world,
            final(self).resources == old(self).resources,
    {
        match system.stage() {
            Some(l) => {
                if self.schedule.has_stage_labelled(l) {
                    self.schedule.add_system_to_stage(l, system);
                    true
                } else {
                    false
                }
            },
            None => {
                self.schedule.add_system_to_stage(StageLabel::App(AppStage::Update), system);
                true
            },
        }
    }

    /// Adds a system to the stage carrying `label`.
    pub fn add_system_to_stage(&mut self, label: StageLabel, system: S)
        requires
            old(self).wf(),
            old(self).schedule.has_stage(label),
        ensures
            final(self).wf(),
            final(self).schedule.labels() == old(self).schedule.labels(),
            final(self).schedule.total_systems() == old(self).schedule.total_systems() + 1,
            final(self).world == old(self).world,
            final(self).resources == old(self).resources,
    {
        self.schedule.add_system_to_stage(label, system);
    }

    /// Runs one tick: every stage in order, command buffers flushing at each
    /// stage boundary.
    pub fn update(&mut self)
        requires
            old(self).wf(),
            old(self).world.entity_allocator.flushed(),
            forall|i: u32|
                old(self).world.entity_allocator.slot_generation(i) + old(
                    self,
                ).schedule.total_systems() <= u32::MAX,
        ensures
            final(self).wf(),
            final(self).world.entity_allocator.flushed(),
            final(self).schedule.labels() == old(self).schedule.labels(),
            final(self).schedule.total_systems() == old(self).schedule.total_systems(),
            forall|i: u32|
                final(self).world.entity_allocator.slot_generation(i) <= old(
                    self,
                ).world.entity_allocator.slot_generation(i) + old(self).schedule.total_systems(),
    {
        self.schedule.run(&mut self.world, &mut self.resources);
    }
}

} // verus!
