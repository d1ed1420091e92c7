//! Asset storage: one collection per asset type, addressed by handle id,
//! with an embedded event bus announcing every change.

use vstd::prelude::*;

use crate::event::Events;
use crate::handle::Handle;
use crate::handle::HandleId;
use crate::handle::RefChange;
use crate::handle::channel_sender_clone;
use crate::keyed::assoc_view;
use crate::keyed::key_index;
use crate::keyed::lemma_assoc_view_push;
use crate::keyed::lemma_assoc_view_swap_remove;
use crate::keyed::lemma_assoc_view_update;
use crate::keyed::lemma_key_index;

verus! {

/// Announces a change to one asset; the handle is weak.
pub enum AssetEvent<T> {
    Created { handle: Handle<T> },
    Modified { handle: Handle<T> },
    Removed { handle: Handle<T> },
}

/// The assets of one type, addressed by handle id. Every mutation is
/// announced on the embedded event bus.
pub struct Assets<T> {
    assets: Vec<(HandleId, T)>,
    events: Events<AssetEvent<T>>,
    type_id: u64,
    ref_change_sender: crossbeam_channel::Sender<RefChange>,
}

impl<T> Assets<T> {
    /// The stored assets, as a map from handle id to value.
    pub closed spec fn view(self) -> Map<HandleId, T> {
        assoc_view(self.assets@)
    }

    /// The asset type id this collection serves.
    pub closed spec fn spec_type_id(self) -> u64 {
        self.type_id
    }

    /// How many change events were ever announced.
    pub closed spec fn events_count(self) -> nat {
        self.events.spec_count()
    }

    /// The change events not yet handed to the application's bus.
    pub closed spec fn pending_events(self) -> Seq<AssetEvent<T>> {
        self.events.retained()
    }

    /// Each handle id appears at most once, and the event bus is consistent.
    pub closed spec fn wf(self) -> bool {
        &&& forall|a: int, b: int|
            0 <= a < b < self.assets@.len() ==> (#[trigger] self.assets@[a]).0 != (
            #[trigger] self.assets@[b]).0
        &&& self.events.wf()
    }

    /// An empty collection announcing on `ref_change_sender`.
    pub(crate) fn new(type_id: u64, ref_change_sender: crossbeam_channel::Sender<RefChange>) -> (r:
        Assets<T>)
        ensures
            r.wf(),
            r@ =~= Map::<HandleId, T>::empty(),
            r.spec_type_id() == type_id,
            r.events_count() == 0,
    {
        let r = Assets {
            assets: Vec::new(),
            events: Events::default(),
            type_id,
            ref_change_sender,
        };
        proof {
            assert(r@ =~= Map::<HandleId, T>::empty());
        }
        r
    }

    /// The position of `id`, if present.
    fn find(&self, id: HandleId) -> (r: Option<usize>)
        requires
            self.wf(),
        ensures
            match r {
                Some(j) => j < self.assets@.len() && self.assets@[j as int].0 == id && key_index(
                    self.assets@,
                    id,
                ) == j && self@.dom().contains(id),
                None => !self@.dom().contains(id),
            },
    {
        let mut j: usize = 0;
        while j < self.assets.len()
            invariant
                self.wf(),
                j <= self.assets@.len(),
                forall|k: int| 0 <= k < j ==> (#[trigger] self.assets@[k]).0 != id,
            decreases self.assets@.len() - j,
        {
            if self.assets[j].0 == id {
                proof {
                    lemma_key_index(self.assets@, id);
                    let w = key_index(self.assets@, id);
                    assert(w >= 0) by {
                        if w < 0 {
                            assert(self.assets@[j as int].0 != id);
                        }
                    }
                    assert(w == j) by {
                        if w < j {
                            assert(self.assets@[w].0 != id);
                        }
                        if w > j {
                            assert(self.assets@[j as int].0 != id);
                        }
                    }
                }
                return Some(j);
            }
            j = j + 1;
        }
        proof {
            lemma_key_index(self.assets@, id);
            if self@.dom().contains(id) {
                assert(self.assets@[key_index(self.assets@, id)].0 == id);
            }
        }
        None
    }

    /// A strong handle on the asset with this id: the daemon hears of one
    /// more reference.
    pub fn get_handle(&self, id: HandleId) -> (r: Handle<T>)
        ensures
            r.id == id,
            !r.spec_is_weak(),
    {
        Handle::strong(id, channel_sender_clone(&self.ref_change_sender))
    }

    pub fn get(&self, id: HandleId) -> (r: Option<&T>)
        requires
            self.wf(),
        ensures
            match r {
                Some(v) => self@.dom().contains(id) && *v == self@[id],
                None => !self@.dom().contains(id),
            },
    {
        match self.find(id) {
            Some(j) => Some(&self.assets[j].1),
            None => None,
        }
    }

    /// The asset type id this collection serves.
    pub fn type_id(&self) -> (r: u64)
        ensures
            r == self.spec_type_id(),
    {
        self.type_id
    }

    pub fn has(&self, id: HandleId) -> (r: bool)
        requires
            self.wf(),
        ensures
            r == self@.dom().contains(id),
    {
        self.find(id).is_some()
    }

    /// Stores `asset` under `id`, announcing a creation or a modification,
    /// and returns a strong handle on it.
    pub fn set(&mut self, id: HandleId, asset: T) -> (r: Handle<T>)
        requires
            old(self).wf(),
            old(self).events_count() < usize::MAX,
        ensures
            final(self).wf(),
            final(self)@ == old(self)@.insert(id, asset),
            final(self).spec_type_id() == old(self).spec_type_id(),
            final(self).events_count() == old(self).events_count() + 1,
            old(self)@.dom().contains(id) ==> final(self).pending_events() == old(
                self,
            ).pending_events().push((AssetEvent::Modified { handle: Handle::<T>::weak_spec(id) })),
            !old(self)@.dom().contains(id) ==> final(self).pending_events() == old(
                self,
            ).pending_events().push((AssetEvent::Created { handle: Handle::<T>::weak_spec(id) })),
            r.id == id,
            !r.spec_is_weak(),
    {
        let ghost pre = self.assets@;
        match self.find(id) {
            Some(j) => {
                self.assets[j] = (id, asset);
                proof {
                    lemma_assoc_view_update(pre, j as int, self.assets@[j as int]);
                    assert forall|a: int, b: int|
                        0 <= a < b < self.assets@.len() implies (#[trigger] self.assets@[a]).0 != (
                    #[trigger] self.assets@[b]).0 by {
                        assert(pre[a].0 != pre[b].0);
                    }
                }
                self.events.send(AssetEvent::Modified { handle: Handle::weak(id) });
            },
            None => {
                proof {
                    lemma_key_index(pre, id);
                    lemma_assoc_view_push(pre, (id, asset));
                }
                self.assets.push((id, asset));
                proof {
                    assert forall|a: int, b: int|
                        0 <= a < b < self.assets@.len() implies (#[trigger] self.assets@[a]).0 != (
                    #[trigger] self.assets@[b]).0 by {
                        if b < pre.len() {
                            assert(pre[a].0 != pre[b].0);
                        } else {
                            assert(self.assets@[a] == pre[a]);
                            assert(pre[a].0 != id);
                        }
                    }
                }
                self.events.send(AssetEvent::Created { handle: Handle::weak(id) });
            },
        }
        self.get_handle(id)
    }

    /// Stores a new asset under a freshly drawn id, announcing its creation,
    /// and returns a strong handle on it. An existing asset under the drawn
    /// id is replaced.
    pub fn add(&mut self, asset: T) -> (r: Handle<T>)
        requires
            old(self).wf(),
            old(self).events_count() < usize::MAX,
        ensures
            final(self).wf(),
            final(self)@ == old(self)@.insert(r.id, asset),
            final(self).spec_type_id() == old(self).spec_type_id(),
            final(self).events_count() == old(self).events_count() + 1,
            old(self)@.dom().contains(r.id) ==> final(self).pending_events() == old(
                self,
            ).pending_events().push(
                (AssetEvent::Modified { handle: Handle::<T>::weak_spec(r.id) }),
            ),
            !old(self)@.dom().contains(r.id) ==> final(self).pending_events() == old(
                self,
            ).pending_events().push(
                (AssetEvent::Created { handle: Handle::<T>::weak_spec(r.id) }),
            ),
            r.id.spec_type_id() == old(self).spec_type_id(),
            !r.spec_is_weak(),
    {
        let id = HandleId::random(self.type_id);
        self.set(id, asset)
    }

    /// Removes and returns the asset under `id`, announcing its removal if
    /// one was there.
    pub fn remove(&mut self, id: HandleId) -> (r: Option<T>)
        requires
            old(self).wf(),
            old(self).events_count() < usize::MAX,
        ensures
            final(self).wf(),
            final(self)@ == old(self)@.remove(id),
            final(self).spec_type_id() == old(self).spec_type_id(),
            match r {
                Some(v) => old(self)@.dom().contains(id) && v == old(self)@[id]
                    && final(self).pending_events() == old(self).pending_events().push(
                    (AssetEvent::Removed { handle: Handle::<T>::weak_spec(id) }),
                ) && final(self).events_count() == old(self).events_count() + 1,
                None => !old(self)@.dom().contains(id) && final(self).pending_events() == old(
                    self,
                ).pending_events() && final(self).events_count() == old(self).events_count(),
            },
    {
        let ghost pre = self.assets@;
        match self.find(id) {
            Some(j) => {
                let (_k, v) = self.assets.swap_remove(j);
                proof {
                    lemma_assoc_view_swap_remove(pre, j as int);
                    crate::keyed::lemma_key_index_swap_remove(pre, j as int, id);
                }
                self.events.send(AssetEvent::Removed { handle: Handle::weak(id) });
                Some(v)
            },
            None => {
                proof {
                    assert(self@ =~= old(self)@.remove(id));
                }
                None
            },
        }
    }

    /// Drops every asset; no events are announced.
    pub fn clear(&mut self)
        requires
            old(self).wf(),
        ensures
            final(self).wf(),
            final(self)@ =~= Map::<HandleId, T>::empty(),
            final(self).spec_type_id() == old(self).spec_type_id(),
            final(self).pending_events() == old(self).pending_events(),
    {
        self.assets.clear();
        proof {
            assert(self@ =~= Map::<HandleId, T>::empty());
        }
    }

    /// Hands the accumulated change events to the application's bus, oldest
    /// first.
    pub fn update_events(&mut self, events: &mut Events<AssetEvent<T>>)
        requires
            old(self).wf(),
            old(events).wf(),
            old(events).spec_count() + old(self).pending_events().len() <= usize::MAX,
        ensures
            final(self).wf(),
            final(events).wf(),
            final(self)@ == old(self)@,
            final(self).pending_events() == Seq::<AssetEvent<T>>::empty(),
            final(events).retained() == old(events).retained() + old(self).pending_events(),
            final(events).spec_count() == old(events).spec_count() + old(
                self,
            ).pending_events().len(),
    {
        let drained = self.events.drain();
        events.extend(drained);
    }
}

} // verus!
