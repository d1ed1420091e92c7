//! The asset daemon: counts strong handles per asset and frees an asset when
//! its count falls to zero.
//!
//! Handles announce themselves over a channel; what arrives and in what
//! order depends on runtime scheduling, so the drain loop promises nothing
//! about the channel. The bookkeeping for one announcement — `apply` — is
//! exact.

use vstd::prelude::*;

use crate::assets::Assets;
use crate::handle::HandleId;
use crate::handle::RefChange;
use crate::handle::channel_sender_clone;
use crate::handle::channel_try_recv;
use crate::handle::channel_unbounded;
use crate::keyed::assoc_view;
use crate::keyed::key_index;
use crate::keyed::lemma_assoc_view_push;
use crate::keyed::lemma_assoc_view_update;
use crate::keyed::lemma_key_index;

verus! {

/// What the daemon decides about one announcement: keep counting, or free
/// the asset whose last strong handle went away.
#[derive(Clone, Copy, PartialEq, Eq, Structural, Debug)]
pub enum AssetLifecycleEvent {
    Retained(HandleId),
    Free(HandleId),
}

/// Reference-counts strong handles and queues a free notice for every asset
/// whose count reaches zero.
pub struct AssetDaemon {
    sender: crossbeam_channel::Sender<RefChange>,
    receiver: crossbeam_channel::Receiver<RefChange>,
    ref_counts: Vec<(HandleId, u64)>,
    freed: Vec<HandleId>,
}

impl AssetDaemon {
    /// The current count per handle id.
    pub closed spec fn counts(self) -> Map<HandleId, u64> {
        assoc_view(self.ref_counts@)
    }

    /// The free notices not yet applied to an asset collection.
    pub closed spec fn spec_freed(self) -> Seq<HandleId> {
        self.freed@
    }

    /// Each handle id is counted at most once.
    pub closed spec fn wf(self) -> bool {
        forall|a: int, b: int|
            0 <= a < b < self.ref_counts@.len() ==> (#[trigger] self.ref_counts@[a]).0 != (
            #[trigger] self.ref_counts@[b]).0
    }

    /// The count for `id`; ids never counted stand at zero.
    pub open spec fn count_of(self, id: HandleId) -> u64 {
        if self.counts().dom().contains(id) {
            self.counts()[id]
        } else {
            0
        }
    }

    pub fn new() -> (r: AssetDaemon)
        ensures
            r.wf(),
            r.counts() =~= Map::<HandleId, u64>::empty(),
            r.spec_freed() == Seq::<HandleId>::empty(),
    {
        let (sender, receiver) = channel_unbounded();
        let r = AssetDaemon { sender, receiver, ref_counts: Vec::new(), freed: Vec::new() };
        proof {
            assert(r.counts() =~= Map::<HandleId, u64>::empty());
        }
        r
    }

    /// Creates the asset collection for one asset type, announcing on this
    /// daemon's channel.
    pub fn register_asset<T>(&self, type_id: u64) -> (r: Assets<T>)
        ensures
            r.wf(),
            r@ =~= Map::<HandleId, T>::empty(),
            r.spec_type_id() == type_id,
            r.events_count() == 0,
    {
        Assets::new(type_id, channel_sender_clone(&self.sender))
    }

    /// The position of `id` in the count table, if present.
    fn find(&self, id: HandleId) -> (r: Option<usize>)
        requires
            self.wf(),
        ensures
            match r {
                Some(j) => j < self.ref_counts@.len() && self.ref_counts@[j as int].0 == id
                    && key_index(self.ref_counts@, id) == j && self.counts().dom().contains(id),
                None => !self.counts().dom().contains(id),
            },
    {
        let mut j: usize = 0;
        while j < self.ref_counts.len()
            invariant
                self.wf(),
                j <= self.ref_counts@.len(),
                forall|k: int| 0 <= k < j ==> (#[trigger] self.ref_counts@[k]).0 != id,
            decreases self.ref_counts@.len() - j,
        {
            if self.ref_counts[j].0 == id {
                proof {
                    lemma_key_index(self.ref_counts@, id);
                    let w = key_index(self.ref_counts@, id);
                    assert(w >= 0) by {
                        if w < 0 {
                            assert(self.ref_counts@[j as int].0 != id);
                        }
                    }
                    assert(w == j) by {
                        if w < j {
                            assert(self.ref_counts@[w].0 != id);
                        }
                        if w > j {
                            assert(self.ref_counts@[j as int].0 != id);
                        }
                    }
                }
                return Some(j);
            }
            j = j + 1;
        }
        proof {
            lemma_key_index(self.ref_counts@, id);
            if self.counts().dom().contains(id) {
                assert(self.ref_counts@[key_index(self.ref_counts@, id)].0 == id);
            }
        }
        None
    }

    /// Stores `count` for `id`.
    fn set_count(&mut self, id: HandleId, count: u64)
        requires
            old(self).wf(),
        ensures
            final(self).wf(),
            final(self).counts() == old(self).counts().insert(id, count),
            final(self).spec_freed() == old(self).spec_freed(),
    {
        let ghost pre = self.ref_counts@;
        match self.find(id) {
            Some(j) => {
                self.ref_counts[j] = (id, count);
                proof {
                    lemma_assoc_view_update(pre, j as int, self.ref_counts@[j as int]);
                    assert forall|a: int, b: int|
                        0 <= a < b < self.ref_counts@.len() implies (
                    #[trigger] self.ref_counts@[a]).0 != (#[trigger] self.ref_counts@[b]).0 by {
                        assert(pre[a].0 != pre[b].0);
                    }
                }
            },
            None => {
                proof {
                    lemma_key_index(pre, id);
                    lemma_assoc_view_push(pre, (id, count));
                }
                self.ref_counts.push((id, count));
                proof {
                    assert forall|a: int, b: int|
                        0 <= a < b < self.ref_counts@.len() implies (
                    #[trigger] self.ref_counts@[a]).0 != (#[trigger] self.ref_counts@[b]).0 by {
                        if b < pre.len() {
                            assert(pre[a].0 != pre[b].0);
                        } else {
                            assert(self.ref_counts@[a] == pre[a]);
                            assert(pre[a].0 != id);
                        }
                    }
                }
            },
        }
    }

    /// Books one announcement. An increment raises the count by one (counts
    /// saturate at the cap); a decrement lowers a positive count by one and,
    /// on reaching zero, queues the asset to be freed. A decrement for an
    /// uncounted asset is dropped.
    pub fn apply(&mut self, change: RefChange) -> (r: AssetLifecycleEvent)
        requires
            old(self).wf(),
        ensures
            final(self).wf(),
            match change {
                RefChange::Increment(id) => {
                    &&& r == AssetLifecycleEvent::Retained(id)
                    &&& final(self).counts() == old(self).counts().insert(
                        id,
                        if old(self).count_of(id) < u64::MAX {
                            (old(self).count_of(id) + 1) as u64
                        } else {
                            u64::MAX
                        },
                    )
                    &&& final(self).spec_freed() == old(self).spec_freed()
                },
                RefChange::Decrement(id) => {
                    &&& final(self).counts() == old(self).counts().insert(
                        id,
                        if old(self).count_of(id) > 0 {
                            (old(self).count_of(id) - 1) as u64
                        } else {
                            0
                        },
                    )
                    &&& (r == AssetLifecycleEvent::Free(id)) == (old(self).count_of(id) == 1)
                    &&& old(self).count_of(id) == 1 ==> final(self).spec_freed() == old(
                        self,
                    ).spec_freed().push(id)
                    &&& old(self).count_of(id) != 1 ==> final(self).spec_freed() == old(
                        self,
                    ).spec_freed() && r == AssetLifecycleEvent::Retained(id)
                },
            },
    {
        match change {
            RefChange::Increment(id) => {
                let current = match self.find(id) {
                    Some(j) => self.ref_counts[j].1,
                    None => 0,
                };
                if current < u64::MAX {
                    self.set_count(id, current + 1);
                } else {
                    self.set_count(id, current);
                }
                AssetLifecycleEvent::Retained(id)
            },
            RefChange::Decrement(id) => {
                let current = match self.find(id) {
                    Some(j) => self.ref_counts[j].1,
                    None => 0,
                };
                if current == 0 {
                    self.set_count(id, 0);
                    AssetLifecycleEvent::Retained(id)
                } else {
                    self.set_count(id, current - 1);
                    if current == 1 {
                        self.freed.push(id);
                        AssetLifecycleEvent::Free(id)
                    } else {
                        AssetLifecycleEvent::Retained(id)
                    }
                }
            },
        }
    }

    /// Drains the announcement channel, booking each announcement in arrival
    /// order until the channel runs empty. What arrives depends on runtime
    /// scheduling; however the drain ends, every booked announcement followed
    /// `apply`'s contract. A budget bounds the drain so it provably ends even
    /// against a channel that is being refilled concurrently.
    pub fn free_unused_assets(&mut self)
        requires
            old(self).wf(),
        ensures
            final(self).wf(),
    {
        let mut budget: usize = usize::MAX;
        while budget > 0
            invariant
                self.wf(),
            decreases budget,
        {
            budget = budget - 1;
            let next = channel_try_recv(&self.receiver);
            match next {
                Some(change) => {
                    self.apply(change);
                },
                None => {
                    return ;
                },
            }
        }
    }

    /// Removes from `assets` every queued freed asset of its type; notices
    /// for other asset types stay queued.
    pub fn update_asset_storage<T>(&mut self, assets: &mut Assets<T>)
        requires
            old(self).wf(),
            old(assets).wf(),
            old(assets).events_count() + old(self).spec_freed().len() <= usize::MAX,
        ensures
            final(self).wf(),
            final(assets).wf(),
            final(self).counts() == old(self).counts(),
            final(assets).spec_type_id() == old(assets).spec_type_id(),
            forall|id: HandleId|
                #[trigger] final(assets)@.dom().contains(id) == (old(assets)@.dom().contains(id)
                    && !(old(self).spec_freed().contains(id) && id.spec_type_id() == old(
                    assets,
                ).spec_type_id())),
            forall|j: int|
                0 <= j < final(self).spec_freed().len() ==> old(self).spec_freed().contains(
                    #[trigger] final(self).spec_freed()[j],
                ) && final(self).spec_freed()[j].spec_type_id() != old(assets).spec_type_id(),
            forall|j: int|
                0 <= j < old(self).spec_freed().len() ==> (old(self).spec_freed()[j].spec_type_id()
                    != old(assets).spec_type_id() ==> final(self).spec_freed().contains(
                    #[trigger] old(self).spec_freed()[j],
                )),
    {
        let ghost pre_freed = self.freed@;
        let mut remaining: Vec<HandleId> = Vec::new();
        std::mem::swap(&mut remaining, &mut self.freed);
        let mut k: usize = 0;
        while k < remaining.len()
            invariant
                self.wf(),
                assets.wf(),
                remaining@ == pre_freed,
                k <= pre_freed.len(),
                self.counts() == old(self).counts(),
                assets.spec_type_id() == old(assets).spec_type_id(),
                assets.events_count() <= old(assets).events_count() + k,
                old(assets).events_count() + pre_freed.len() <= usize::MAX,
                forall|id: HandleId|
                    #[trigger] assets@.dom().contains(id) == (old(assets)@.dom().contains(id) && !(
                    exists|j: int|
                        0 <= j < k && #[trigger] pre_freed[j] == id && pre_freed[j].spec_type_id()
                            == assets.spec_type_id())),
                forall|j: int|
                    0 <= j < self.freed@.len() ==> pre_freed.contains(#[trigger] self.freed@[j])
                        && self.freed@[j].spec_type_id() != assets.spec_type_id(),
                forall|j: int|
                    0 <= j < k ==> (pre_freed[j].spec_type_id() != assets.spec_type_id()
                        ==> self.freed@.contains(#[trigger] pre_freed[j])),
            decreases pre_freed.len() - k,
        {
            let ghost before_freed = self.freed@;
            let ghost before_assets = *assets;
            let id = remaining[k];
            let keep: bool = match id {
                HandleId::Id(t, _) => {
                    if t == assets.type_id() {
                        assets.remove(id);
                        false
                    } else {
                        true
                    }
                },
            };
            if keep {
                self.freed.push(id);
            }
            proof {
                assert forall|id2: HandleId|
                    #[trigger] assets@.dom().contains(id2) == (old(assets)@.dom().contains(id2)
                        && !(exists|j: int|
                        0 <= j < k + 1 && #[trigger] pre_freed[j] == id2
                            && pre_freed[j].spec_type_id() == assets.spec_type_id())) by {
                    if id2 == id && !keep {
                        assert(pre_freed[k as int] == id2);
                        assert(!assets@.dom().contains(id2));
                    } else {
                        assert(assets@.dom().contains(id2) == before_assets@.dom().contains(id2));
                        if exists|j: int|
                            0 <= j < k + 1 && #[trigger] pre_freed[j] == id2
                                && pre_freed[j].spec_type_id() == assets.spec_type_id() {
                            let j = choose|j: int|
                                0 <= j < k + 1 && #[trigger] pre_freed[j] == id2
                                    && pre_freed[j].spec_type_id() == assets.spec_type_id();
                            assert(j != k);
                        }
                    }
                }
                assert forall|j: int|
                    0 <= j < self.freed@.len() implies pre_freed.contains(
                    #[trigger] self.freed@[j],
                ) && self.freed@[j].spec_type_id() != assets.spec_type_id() by {
                    if j < before_freed.len() {
                        assert(self.freed@[j] == before_freed[j]);
                    } else {
                        assert(self.freed@[j] == id);
                        assert(pre_freed[k as int] == id);
                    }
                }
                assert forall|j: int|
                    0 <= j < k + 1 implies (pre_freed[j].spec_type_id() != assets.spec_type_id()
                        ==> self.freed@.contains(#[trigger] pre_freed[j])) by {
                    if j < k {
                        if pre_freed[j].spec_type_id() != assets.spec_type_id() {
                            let w = choose|w: int|
                                #![trigger before_freed[w]]
                                0 <= w < before_freed.len() && before_freed[w] == pre_freed[j];
                            assert(self.freed@[w] == pre_freed[j]);
                        }
                    } else {
                        if keep {
                            assert(self.freed@[self.freed@.len() - 1] == pre_freed[j]);
                        }
                    }
                }
            }
            k = k + 1;
        }
        proof {
            assert forall|id: HandleId|
                #[trigger] assets@.dom().contains(id) == (old(assets)@.dom().contains(id) && !(
                pre_freed.contains(id) && id.spec_type_id() == old(
                    assets,
                ).spec_type_id())) by {
                if pre_freed.contains(id) && id.spec_type_id() == old(assets).spec_type_id() {
                    let j = choose|j: int|
                        #![trigger pre_freed[j]]
                        0 <= j < pre_freed.len() && pre_freed[j] == id;
                    assert(exists|j2: int|
                        0 <= j2 < pre_freed.len() && #[trigger] pre_freed[j2] == id
                            && pre_freed[j2].spec_type_id() == assets.spec_type_id());
                }
                if exists|j2: int|
                    0 <= j2 < pre_freed.len() && #[trigger] pre_freed[j2] == id
                        && pre_freed[j2].spec_type_id() == assets.spec_type_id() {
                    let j2 = choose|j2: int|
                        0 <= j2 < pre_freed.len() && #[trigger] pre_freed[j2] == id
                            && pre_freed[j2].spec_type_id() == assets.spec_type_id();
                    assert(pre_freed.contains(id));
                }
            }
        }
    }
}

} // verus!
