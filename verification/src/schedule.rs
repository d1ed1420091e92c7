//! The schedule: labelled stages in a fixed order, run once per tick.

use vstd::prelude::*;

use crate::app::AppStage;
use crate::resources::Resources;
use crate::stage::Stage;
use crate::system::System;
use crate::world::World;

verus! {

/// Names a stage: one of the standard application stages, or a custom label
/// chosen by the application.
#[derive(Clone, Copy, PartialEq, Eq, Structural, Debug, Hash)]
pub enum StageLabel {
    App(AppStage),
    Custom(u64),
}

/// Labelled stages in execution order. Labels are unique.
pub struct Schedule<V, R, S> {
    stages: Vec<(StageLabel, Stage<V, R, S>)>,
}

impl<V: Copy, R, S: System<V, R>> Schedule<V, R, S> {
    pub closed spec fn labels(self) -> Seq<StageLabel> {
        Seq::new(self.stages@.len(), |j: int| self.stages@[j].0)
    }

    pub open spec fn has_stage(self, label: StageLabel) -> bool {
        self.labels().contains(label)
    }

    /// Labels are unique and every stage is internally consistent.
    pub closed spec fn wf(self) -> bool {
        &&& forall|a: int, b: int|
            0 <= a < b < self.stages@.len() ==> (#[trigger] self.stages@[a]).0 != (
            #[trigger] self.stages@[b]).0
        &&& forall|j: int| 0 <= j < self.stages@.len() ==> (#[trigger] self.stages@[j]).1.wf()
    }

    /// How many systems the schedule holds, over the stages from position
    /// `from` on.
    pub closed spec fn systems_from(self, from: int) -> nat
        decreases self.labels().len() - from,
    {
        if from < 0 || from >= self.stages@.len() {
            0
        } else {
            self.stages@[from].1.n_systems() + self.systems_from(from + 1)
        }
    }

    /// How many systems the schedule holds in total.
    pub open spec fn total_systems(self) -> nat {
        self.systems_from(0)
    }

    pub fn new() -> (r: Schedule<V, R, S>)
        ensures
            r.wf(),
            r.labels() == Seq::<StageLabel>::empty(),
            r.total_systems() == 0,
    {
        let r = Schedule { stages: Vec::new() };
        proof {
            assert(r.labels() =~= Seq::<StageLabel>::empty());
        }
        r
    }

    /// The position of the stage carrying `label`, if any.
    fn get_stage_index(&self, label: StageLabel) -> (r: Option<usize>)
        requires
            self.wf(),
        ensures
            match r {
                Some(j) => j < self.stages@.len() && self.stages@[j as int].0 == label
                    && self.has_stage(label),
                None => !self.has_stage(label),
            },
    {
        let mut j: usize = 0;
        while j < self.stages.len()
            invariant
                j <= self.stages@.len(),
                forall|k: int| 0 <= k < j ==> (#[trigger] self.stages@[k]).0 != label,
            decreases self.stages@.len() - j,
        {
            if self.stages[j].0 == label {
                proof {
                    assert(self.labels()[j as int] == label);
                }
                return Some(j);
            }
            j = j + 1;
        }
        proof {
            if self.has_stage(label) {
                let k = choose|k: int|
                    0 <= k < self.labels().len() && self.labels()[k] == label;
                assert(self.stages@[k].0 == label);
            }
        }
        None
    }

    pub fn has_stage_labelled(&self, label: StageLabel) -> (r: bool)
        requires
            self.wf(),
        ensures
            r == self.has_stage(label),
    {
        self.get_stage_index(label).is_some()
    }

    /// Appends a stage under a fresh label, after every existing stage.
    pub fn add_stage(&mut self, label: StageLabel, stage: Stage<V, R, S>)
        requires
            old(self).wf(),
            !old(self).has_stage(label),
            stage.wf(),
        ensures
            final(self).wf(),
            final(self).labels() == old(self).labels().push(label),
            final(self).total_systems() == old(self).total_systems() + stage.n_systems(),
    {
        let ghost pre_sched = *self;
        let ghost pre = self.stages@;
        self.stages.push((label, stage));
        proof {
            let j = pre.len() as int;
            assert forall|k: int|
                j < k < self.labels().len() implies (#[trigger] self.stages@[k]).1.n_systems()
                    == pre_sched.stages@[k - 1].1.n_systems() by {}
            lemma_systems_from_insert_tail(pre_sched, *self, j, j);
            assert(self.systems_from(j) == stage.n_systems() + pre_sched.systems_from(j));
            lemma_systems_from_prefix(pre_sched, *self, 0, j, stage.n_systems() as int);
            assert forall|k: int| 0 <= k < pre.len() implies (#[trigger] pre[k]).0 != label by {
                assert(old(self).labels()[k] == pre[k].0);
                if pre[k].0 == label {
                    assert(old(self).labels().contains(label));
                }
            }
            assert(self.stages@[pre.len() as int].0 == label);
            lemma_labels_after_insert(pre, self.stages@, pre.len() as int, label);
            assert(self.labels() =~= old(self).labels().push(label));
        }
    }

    /// Inserts a stage under a fresh label directly before `target`.
    pub fn add_stage_before(&mut self, target: StageLabel, label: StageLabel, stage: Stage<V, R, S>)
        requires
            old(self).wf(),
            old(self).has_stage(target),
            !old(self).has_stage(label),
            stage.wf(),
        ensures
            final(self).wf(),
            forall|l: StageLabel|
                #[trigger] final(self).has_stage(l) == (old(self).has_stage(l) || l == label),
            final(self).total_systems() == old(self).total_systems() + stage.n_systems(),
            exists|j: int|
                0 <= j < old(self).labels().len() && #[trigger] old(self).labels()[j] == target
                    && final(self).labels() == old(self).labels().insert(j, label),
    {
        let ghost pre_sched = *self;
        let ghost pre = self.stages@;
        let j = match self.get_stage_index(target) {
            Some(j) => j,
            None => vstd::pervasive::unreached(),
        };
        self.stages.insert(j, (label, stage));
        proof {
            assert forall|k: int|
                (j as int) < k < self.labels().len() implies (
                #[trigger] self.stages@[k]).1.n_systems() == pre_sched.stages@[k
                - 1].1.n_systems() by {}
            lemma_systems_from_insert_tail(pre_sched, *self, j as int, j as int);
            assert(self.systems_from(j as int) == stage.n_systems() + pre_sched.systems_from(
                j as int,
            ));
            lemma_systems_from_prefix(pre_sched, *self, 0, j as int, stage.n_systems() as int);
            old(self).labels().insert_ensures(j as int, label);
            assert(self.labels() =~= old(self).labels().insert(j as int, label));
            assert(old(self).labels()[j as int] == target);
            assert forall|k: int| 0 <= k < pre.len() implies (#[trigger] pre[k]).0 != label by {
                assert(old(self).labels()[k] == pre[k].0);
                if pre[k].0 == label {
                    assert(old(self).labels().contains(label));
                }
            }
            assert(self.stages@ == pre.insert(j as int, (label, stage)));
            assert forall|k: int| 0 <= k < j implies (#[trigger] self.stages@[k]) == pre[k] by {}
            assert forall|k: int|
                j < k < self.stages@.len() implies (#[trigger] self.stages@[k]) == pre[k - 1] by {}
            lemma_labels_after_insert(pre, self.stages@, j as int, label);
            assert forall|l: StageLabel|
                #[trigger] self.has_stage(l) == (old(self).has_stage(l) || l == label) by {
                lemma_labels_insert_contains(pre, self.stages@, j as int, label, l);
            }
        }
    }

    /// Inserts a stage under a fresh label directly after `target`.
    pub fn add_stage_after(&mut self, target: StageLabel, label: StageLabel, stage: Stage<V, R, S>)
        requires
            old(self).wf(),
            old(self).has_stage(target),
            !old(self).has_stage(label),
            stage.wf(),
        ensures
            final(self).wf(),
            forall|l: StageLabel|
                #[trigger] final(self).has_stage(l) == (old(self).has_stage(l) || l == label),
            final(self).total_systems() == old(self).total_systems() + stage.n_systems(),
            exists|j: int|
                0 <= j < old(self).labels().len() && #[trigger] old(self).labels()[j] == target
                    && final(self).labels() == old(self).labels().insert(j + 1, label),
    {
        let ghost pre_sched = *self;
        let ghost pre = self.stages@;
        let j = match self.get_stage_index(target) {
            Some(j) => j,
            None => vstd::pervasive::unreached(),
        };
        let n = self.stages.len();
        proof {
            assert(j < n);
        }
        self.stages.insert(j + 1, (label, stage));
        proof {
            assert forall|k: int|
                j + 1 < k < self.labels().len() implies (#[trigger] self.stages@[k]).1.n_systems()
                    == pre_sched.stages@[k - 1].1.n_systems() by {}
            lemma_systems_from_insert_tail(pre_sched, *self, j + 1, j + 1);
            assert(self.systems_from(j + 1) == stage.n_systems() + pre_sched.systems_from(j + 1));
            lemma_systems_from_prefix(pre_sched, *self, 0, j + 1, stage.n_systems() as int);
            old(self).labels().insert_ensures(j + 1, label);
            assert(self.labels() =~= old(self).labels().insert(j + 1, label));
            assert(old(self).labels()[j as int] == target);
            assert forall|k: int| 0 <= k < pre.len() implies (#[trigger] pre[k]).0 != label by {
                assert(old(self).labels()[k] == pre[k].0);
                if pre[k].0 == label {
                    assert(old(self).labels().contains(label));
                }
            }
            assert(self.stages@ == pre.insert(j + 1, (label, stage)));
            assert forall|k: int| 0 <= k < j + 1 implies (#[trigger] self.stages@[k]) == pre[k] by {}
            assert forall|k: int|
                j + 1 < k < self.stages@.len() implies (#[trigger] self.stages@[k]) == pre[k
                - 1] by {}
            lemma_labels_after_insert(pre, self.stages@, j + 1, label);
            assert forall|l: StageLabel|
                #[trigger] self.has_stage(l) == (old(self).has_stage(l) || l == label) by {
                lemma_labels_insert_contains(pre, self.stages@, j + 1, label, l);
            }
        }
    }

    /// Adds a system to the stage it declares; reports whether the declared
    /// stage exists, leaving the schedule unchanged when it does not.
    pub fn add_system(&mut self, system: S) -> (r: bool)
        requires
            old(self).wf(),
        ensures
            final(self).wf(),
            final(self).labels() == old(self).labels(),
            r ==> final(self).total_systems() == old(self).total_systems() + 1,
            !r ==> *final(self) == *old(self),
    {
        let label = match system.stage() {
            Some(l) => l,
            None => {
                return false;
            },
        };
        if self.has_stage_labelled(label) {
            self.add_system_to_stage(label, system);
            true
        } else {
            false
        }
    }

    /// Adds a system to the stage carrying `label`.
    pub fn add_system_to_stage(&mut self, label: StageLabel, system: S)
        requires
            old(self).wf(),
            old(self).has_stage(label),
        ensures
            final(self).wf(),
            final(self).labels() == old(self).labels(),
            final(self).total_systems() == old(self).total_systems() + 1,
    {
        let ghost pre_sched = *self;
        let ghost pre = self.stages@;
        let j = match self.get_stage_index(label) {
            Some(j) => j,
            None => vstd::pervasive::unreached(),
        };
        self.stages[j].1.add_system(system);
        proof {
            let n = self.labels().len() as int;
            assert(self.systems_from(n) == 0);
            assert(pre_sched.systems_from(n) == 0);
            assert forall|k: int|
                j + 1 <= k < n implies (#[trigger] self.stages@[k]).1.n_systems()
                    == pre_sched.stages@[k].1.n_systems() by {}
            lemma_systems_from_prefix(pre_sched, *self, j + 1, n, 0);
            assert(self.systems_from(j as int) == pre_sched.systems_from(j as int) + 1);
            lemma_systems_from_prefix(pre_sched, *self, 0, j as int, 1);
            assert forall|a: int, b: int|
                0 <= a < b < self.stages@.len() implies (#[trigger] self.stages@[a]).0 != (
            #[trigger] self.stages@[b]).0 by {
                assert(pre[a].0 != pre[b].0);
            }
            assert forall|k: int|
                0 <= k < self.stages@.len() implies (#[trigger] self.stages@[k]).1.wf() by {
                if k != j {
                    assert(pre[k].1.wf());
                }
            }
            assert(self.labels() =~= old(self).labels());
        }
    }

    /// Runs every stage in order, each flushing its systems' command buffers
    /// before the next stage begins.
    pub fn run(&mut self, world: &mut World<V>, resources: &mut Resources<R>)
        requires
            old(self).wf(),
            old(world).wf(),
            old(world).entity_allocator.flushed(),
            old(resources).wf(),
            forall|i: u32|
                old(world).entity_allocator.slot_generation(i) + old(self).total_systems()
                    <= u32::MAX,
        ensures
            final(self).wf(),
            final(self).labels() == old(self).labels(),
            final(self).total_systems() == old(self).total_systems(),
            final(world).wf(),
            final(world).entity_allocator.flushed(),
            final(resources).wf(),
            forall|i: u32|
                final(world).entity_allocator.slot_generation(i) <= old(
                    world,
                ).entity_allocator.slot_generation(i) + old(self).total_systems(),
    {
        let ghost entry_world = *world;
        let n = self.stages.len();
        let mut j: usize = 0;
        proof {
            lemma_systems_from_bounds(*self, 0);
        }
        while j < n
            invariant
                self.wf(),
                n == self.stages@.len(),
                j <= n,
                world.wf(),
                world.entity_allocator.flushed(),
                resources.wf(),
                forall|i: u32|
                    world.entity_allocator.slot_generation(i) + self.systems_from(j as int)
                        <= u32::MAX,
                forall|i: u32|
                    world.entity_allocator.slot_generation(i) + self.systems_from(j as int)
                        <= entry_world.entity_allocator.slot_generation(i) + self.total_systems(),
                self.labels() == old(self).labels(),
                forall|k: int| 0 <= k < n ==> #[trigger] self.stages@[k].0 == old(self).stages@[k].0,
                forall|k: int|
                    j <= k < n ==> (#[trigger] self.stages@[k]).1.n_systems() == old(
                        self,
                    ).stages@[k].1.n_systems(),
                self.systems_from(j as int) == old(self).systems_from(j as int),
                self.total_systems() == old(self).total_systems(),
            decreases n - j,
        {
            let ghost pre_world = *world;
            let ghost pre_sched = *self;
            let stage = &mut self.stages[j].1;
            stage.run(world, resources);
            proof {
                lemma_systems_from_unfold(pre_sched, j as int);
                lemma_systems_from_same(pre_sched, *self, j + 1);
                lemma_systems_from_same(pre_sched, *self, 0);
                assert forall|a: int, b: int|
                    0 <= a < b < self.stages@.len() implies (#[trigger] self.stages@[a]).0 != (
                #[trigger] self.stages@[b]).0 by {
                    assert(pre_sched.stages@[a].0 != pre_sched.stages@[b].0);
                }
                assert forall|k: int|
                    0 <= k < self.stages@.len() implies (#[trigger] self.stages@[k]).1.wf() by {
                    if k != j {
                        assert(pre_sched.stages@[k].1.wf());
                    }
                }
                assert(self.labels() =~= pre_sched.labels());
            }
            j = j + 1;
        }
    }
}

/// `systems_from` is nonnegative and unfolds one stage at a time.
proof fn lemma_systems_from_unfold<V: Copy, R, S: System<V, R>>(s: Schedule<V, R, S>, j: int)
    requires
        0 <= j < s.labels().len(),
    ensures
        s.systems_from(j) == s.stages@[j].1.n_systems() + s.systems_from(j + 1),
{
}

/// Schedules whose stages agree in system counts from `from` on agree on the
/// suffix total.
proof fn lemma_systems_from_same<V: Copy, R, S: System<V, R>>(
    s1: Schedule<V, R, S>,
    s2: Schedule<V, R, S>,
    from: int,
)
    requires
        s1.labels().len() == s2.labels().len(),
        forall|k: int|
            from <= k < s1.labels().len() ==> (#[trigger] s2.stages@[k]).1.n_systems()
                == s1.stages@[k].1.n_systems(),
    ensures
        s2.systems_from(from) == s1.systems_from(from),
    decreases s1.labels().len() - from,
{
    if 0 <= from && from < s1.labels().len() {
        lemma_systems_from_same(s1, s2, from + 1);
    } else if from < 0 {
        lemma_systems_from_same(s1, s2, 0);
        assert(s1.systems_from(from) == 0);
        assert(s2.systems_from(from) == 0);
    }
}

/// Suffix totals are bounded by the full total.
proof fn lemma_systems_from_bounds<V: Copy, R, S: System<V, R>>(s: Schedule<V, R, S>, j: int)
    requires
        0 <= j,
    ensures
        s.systems_from(j) <= s.total_systems(),
    decreases j,
{
    if j > 0 {
        lemma_systems_from_bounds(s, j - 1);
        if j - 1 < s.labels().len() {
            lemma_systems_from_unfold(s, j - 1);
        }
    }
}

/// Suffix totals differ by a constant below an index when the schedules
/// agree stage-for-stage on system counts up to it.
proof fn lemma_systems_from_prefix<V: Copy, R, S: System<V, R>>(
    s1: Schedule<V, R, S>,
    s2: Schedule<V, R, S>,
    from: int,
    upto: int,
    d: int,
)
    requires
        0 <= from <= upto,
        upto <= s1.labels().len(),
        upto <= s2.labels().len(),
        forall|k: int|
            from <= k < upto ==> (#[trigger] s2.stages@[k]).1.n_systems() == s1.stages@[
                k
            ].1.n_systems(),
        s2.systems_from(upto) == s1.systems_from(upto) + d,
    ensures
        s2.systems_from(from) == s1.systems_from(from) + d,
    decreases upto - from,
{
    if from < upto {
        lemma_systems_from_prefix(s1, s2, from + 1, upto, d);
    }
}

/// After an insertion at position `j`, the suffix past the new stage counts
/// the same systems as the old suffix from `j` on.
proof fn lemma_systems_from_insert_tail<V: Copy, R, S: System<V, R>>(
    pre: Schedule<V, R, S>,
    post: Schedule<V, R, S>,
    j: int,
    from: int,
)
    requires
        0 <= j <= pre.labels().len(),
        post.labels().len() == pre.labels().len() + 1,
        forall|k: int|
            j < k < post.labels().len() ==> (#[trigger] post.stages@[k]).1.n_systems()
                == pre.stages@[k - 1].1.n_systems(),
        j <= from <= pre.labels().len(),
    ensures
        post.systems_from(from + 1) == pre.systems_from(from),
    decreases pre.labels().len() - from,
{
    if from < pre.labels().len() {
        assert(post.stages@[from + 1].1.n_systems() == pre.stages@[from].1.n_systems());
        lemma_systems_from_insert_tail(pre, post, j, from + 1);
    }
}

/// Containment of a label across an insertion: the new sequence holds a
/// label exactly when the old one did or it is the inserted label.
proof fn lemma_labels_insert_contains<V: Copy, R, S: System<V, R>>(
    pre: Seq<(StageLabel, Stage<V, R, S>)>,
    post: Seq<(StageLabel, Stage<V, R, S>)>,
    j: int,
    label: StageLabel,
    l: StageLabel,
)
    requires
        0 <= j <= pre.len(),
        post.len() == pre.len() + 1,
        post[j].0 == label,
        forall|k: int| 0 <= k < j ==> (#[trigger] post[k]) == pre[k],
        forall|k: int| j < k < post.len() ==> (#[trigger] post[k]) == pre[k - 1],
    ensures
        Seq::new(post.len(), |k: int| post[k].0).contains(l) == (Seq::new(
            pre.len(),
            |k: int| pre[k].0,
        ).contains(l) || l == label),
{
    let lpre = Seq::new(pre.len(), |k: int| pre[k].0);
    let lpost = Seq::new(post.len(), |k: int| post[k].0);
    if lpre.contains(l) {
        let k = choose|k: int| 0 <= k < lpre.len() && lpre[k] == l;
        if k < j {
            assert(lpost[k] == l);
        } else {
            assert(lpost[k + 1] == l);
        }
        assert(lpost.contains(l));
    }
    if l == label {
        assert(lpost[j] == l);
        assert(lpost.contains(l));
    }
    if lpost.contains(l) && l != label {
        let k = choose|k: int| 0 <= k < lpost.len() && lpost[k] == l;
        assert(k != j);
        if k < j {
            assert(lpre[k] == l);
        } else {
            assert(lpre[k - 1] == l);
        }
        assert(lpre.contains(l));
    }
}

/// Inserting a labelled stage at position `j` adds exactly that label.
proof fn lemma_labels_after_insert<V: Copy, R, S: System<V, R>>(
    pre: Seq<(StageLabel, Stage<V, R, S>)>,
    post: Seq<(StageLabel, Stage<V, R, S>)>,
    j: int,
    label: StageLabel,
)
    requires
        0 <= j <= pre.len(),
        post.len() == pre.len() + 1,
        post[j].0 == label,
        forall|k: int| 0 <= k < j ==> (#[trigger] post[k]).0 == pre[k].0,
        forall|k: int| j < k < post.len() ==> (#[trigger] post[k]).0 == pre[k - 1].0,
        forall|a: int, b: int| 0 <= a < b < pre.len() ==> (#[trigger] pre[a]).0 != (#[trigger] pre[b]).0,
        forall|k: int| 0 <= k < pre.len() ==> (#[trigger] pre[k]).0 != label,
    ensures
        forall|a: int, b: int|
            0 <= a < b < post.len() ==> (#[trigger] post[a]).0 != (#[trigger] post[b]).0,
{
    assert forall|a: int, b: int|
        0 <= a < b < post.len() implies (#[trigger] post[a]).0 != (#[trigger] post[b]).0 by {
        let pa: int = if a < j {
            a
        } else {
            a - 1
        };
        let pb: int = if b < j {
            b
        } else {
            b - 1
        };
        if a == j {
            assert(post[b].0 == pre[pb].0);
        } else if b == j {
            assert(post[a].0 == pre[pa].0);
        } else {
            assert(post[a].0 == pre[pa].0);
            assert(post[b].0 == pre[pb].0);
        }
    }
}

} // verus!
