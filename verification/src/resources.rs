//! Process-singleton resources, keyed by a resource type id.
//!
//! Each resource type has at most one value. Systems receive the store by
//! mutable reference, so no runtime borrow tracking is needed: exclusivity
//! is the borrow checker's.

use vstd::prelude::*;

use crate::keyed::assoc_view;
use crate::keyed::key_index;
use crate::keyed::lemma_assoc_view_push;
use crate::keyed::lemma_assoc_view_swap_remove;
use crate::keyed::lemma_assoc_view_update;
use crate::keyed::lemma_key_index;

verus! {

/// Identifies one resource type; each logical resource type is named by a
/// small integer id chosen by the application.
#[derive(Clone, Copy, PartialEq, Eq, Structural, Debug, Hash)]
pub struct ResourceTypeId {
    pub id: u64,
}

impl ResourceTypeId {
    pub fn of(id: u64) -> (r: ResourceTypeId)
        ensures
            r.id == id,
    {
        ResourceTypeId { id }
    }
}

/// The resource store: at most one value per resource type.
pub struct Resources<R> {
    map: Vec<(ResourceTypeId, R)>,
}

impl<R> Resources<R> {
    /// The stored resources, as a map from type id to value.
    pub closed spec fn view(self) -> Map<ResourceTypeId, R> {
        assoc_view(self.map@)
    }

    /// Each resource type appears at most once.
    pub closed spec fn wf(self) -> bool {
        forall|a: int, b: int|
            0 <= a < b < self.map@.len() ==> (#[trigger] self.map@[a]).0 != (
            #[trigger] self.map@[b]).0
    }

    pub fn new() -> (r: Resources<R>)
        ensures
            r.wf(),
            r@ =~= Map::<ResourceTypeId, R>::empty(),
    {
        let r = Resources { map: Vec::new() };
        proof {
            assert(r@ =~= Map::<ResourceTypeId, R>::empty());
        }
        r
    }

    /// The position of the resource of type `tid`, if present.
    fn find(&self, tid: ResourceTypeId) -> (r: Option<usize>)
        requires
            self.wf(),
        ensures
            match r {
                Some(j) => j < self.map@.len() && self.map@[j as int].0 == tid && key_index(
                    self.map@,
                    tid,
                ) == j && self@.dom().contains(tid),
                None => !self@.dom().contains(tid),
            },
    {
        let mut j: usize = 0;
        while j < self.map.len()
            invariant
                self.wf(),
                j <= self.map@.len(),
                forall|k: int| 0 <= k < j ==> (#[trigger] self.map@[k]).0 != tid,
            decreases self.map@.len() - j,
        {
            if self.map[j].0 == tid {
                proof {
                    lemma_key_index(self.map@, tid);
                    let w = key_index(self.map@, tid);
                    assert(w >= 0) by {
                        if w < 0 {
                            assert(self.map@[j as int].0 != tid);
                        }
                    }
                    assert(w == j) by {
                        if w < j {
                            assert(self.map@[w].0 != tid);
                        }
                        if w > j {
                            assert(self.map@[j as int].0 != tid);
                        }
                    }
                }
                return Some(j);
            }
            j = j + 1;
        }
        proof {
            lemma_key_index(self.map@, tid);
            if self@.dom().contains(tid) {
                assert(self.map@[key_index(self.map@, tid)].0 == tid);
            }
        }
        None
    }

    pub fn contains(&self, tid: ResourceTypeId) -> (r: bool)
        requires
            self.wf(),
        ensures
            r == self@.dom().contains(tid),
    {
        self.find(tid).is_some()
    }

    /// Stores a resource; an existing value of the same type is replaced.
    pub fn insert(&mut self, tid: ResourceTypeId, value: R)
        requires
            old(self).wf(),
        ensures
            final(self).wf(),
            final(self)@ == old(self)@.insert(tid, value),
    {
        let ghost pre = self.map@;
        match self.find(tid) {
            Some(j) => {
                self.map[j] = (tid, value);
                proof {
                    lemma_assoc_view_update(pre, j as int, self.map@[j as int]);
                    assert forall|a: int, b: int|
                        0 <= a < b < self.map@.len() implies (#[trigger] self.map@[a]).0 != (
                    #[trigger] self.map@[b]).0 by {
                        assert(pre[a].0 != pre[b].0);
                    }
                }
            },
            None => {
                proof {
                    lemma_key_index(pre, tid);
                    lemma_assoc_view_push(pre, (tid, value));
                }
                self.map.push((tid, value));
                proof {
                    assert forall|a: int, b: int|
                        0 <= a < b < self.map@.len() implies (#[trigger] self.map@[a]).0 != (
                    #[trigger] self.map@[b]).0 by {
                        if b < pre.len() {
                            assert(pre[a].0 != pre[b].0);
                        } else {
                            assert(self.map@[a] == pre[a]);
                            assert(pre[a].0 != tid);
                        }
                    }
                }
            },
        }
    }

    /// Removes and returns the resource of type `tid`, if present.
    pub fn remove(&mut self, tid: ResourceTypeId) -> (r: Option<R>)
        requires
            old(self).wf(),
        ensures
            final(self).wf(),
            final(self)@ == old(self)@.remove(tid),
            match r {
                Some(v) => old(self)@.dom().contains(tid) && v == old(self)@[tid],
                None => !old(self)@.dom().contains(tid),
            },
    {
        let ghost pre = self.map@;
        match self.find(tid) {
            Some(j) => {
                let (_k, v) = self.map.swap_remove(j);
                proof {
                    lemma_assoc_view_swap_remove(pre, j as int);
                    crate::keyed::lemma_key_index_swap_remove(pre, j as int, tid);
                }
                Some(v)
            },
            None => {
                proof {
                    assert(self@ =~= old(self)@.remove(tid));
                }
                None
            },
        }
    }

    /// The resource of type `tid`, if present.
    pub fn get(&self, tid: ResourceTypeId) -> (r: Option<&R>)
        requires
            self.wf(),
        ensures
            match r {
                Some(v) => self@.dom().contains(tid) && *v == self@[tid],
                None => !self@.dom().contains(tid),
            },
    {
        match self.find(tid) {
            Some(j) => Some(&self.map[j].1),
            None => None,
        }
    }

    /// Exclusive access to the resource of type `tid`, which must be
    /// present.
    pub fn get_mut(&mut self, tid: ResourceTypeId) -> (r: &mut R)
        requires
            old(self).wf(),
            old(self)@.dom().contains(tid),
        ensures
            final(self).wf(),
            *r == old(self)@[tid],
            final(self)@ == old(self)@.insert(tid, *final(r)),
    {
        let ghost pre = self.map@;
        let j = match self.find(tid) {
            Some(j) => j,
            None => vstd::pervasive::unreached(),
        };
        proof {
            assert forall|v2: R|
                #![trigger pre.update(j as int, (tid, v2))]
                assoc_view(pre.update(j as int, (tid, v2))) == assoc_view(pre).insert(tid, v2)
                    && (forall|a: int, b: int|
                    0 <= a < b < pre.len() ==> (#[trigger] pre.update(j as int, (tid, v2))[a]).0
                        != (#[trigger] pre.update(j as int, (tid, v2))[b]).0) by {
                lemma_assoc_view_update(pre, j as int, (tid, v2));
                assert forall|a: int, b: int|
                    0 <= a < b < pre.len() implies (#[trigger] pre.update(j as int, (tid, v2))[
                a]).0 != (#[trigger] pre.update(j as int, (tid, v2))[b]).0 by {
                    assert(pre[a].0 != pre[b].0);
                }
            }
        }
        &mut self.map[j].1
    }

    /// The resource of type `tid`, inserting `value` first when absent.
    pub fn get_or_insert(&mut self, tid: ResourceTypeId, value: R) -> (r: &R)
        requires
            old(self).wf(),
        ensures
            final(self).wf(),
            final(self)@.dom() == old(self)@.dom().insert(tid),
            old(self)@.dom().contains(tid) ==> final(self)@ == old(self)@ && *r == old(self)@[tid],
            !old(self)@.dom().contains(tid) ==> final(self)@ == old(self)@.insert(tid, value) && *r
                == value,
    {
        let present = self.contains(tid);
        if !present {
            self.insert(tid, value);
        }
        proof {
            if present {
                assert(self@.dom() =~= old(self)@.dom().insert(tid));
            }
        }
        match self.get(tid) {
            Some(v) => v,
            None => vstd::pervasive::unreached(),
        }
    }

    /// Exclusive access to the resource of type `tid`, inserting `value`
    /// first when absent.
    pub fn get_mut_or_insert(&mut self, tid: ResourceTypeId, value: R) -> (r: &mut R)
        requires
            old(self).wf(),
        ensures
            final(self).wf(),
            old(self)@.dom().contains(tid) ==> *r == old(self)@[tid] && final(self)@ == old(
                self,
            )@.insert(tid, *final(r)),
            !old(self)@.dom().contains(tid) ==> *r == value && final(self)@ == old(self)@.insert(
                tid,
                *final(r),
            ),
    {
        let present = self.contains(tid);
        if !present {
            self.insert(tid, value);
        }
        self.get_mut(tid)
    }

    /// Moves every resource of `other` that `self` lacks into `self`;
    /// resources already present keep their value.
    pub fn merge(&mut self, other: Resources<R>)
        requires
            old(self).wf(),
            other.wf(),
        ensures
            final(self).wf(),
            final(self)@.dom() == old(self)@.dom().union(other@.dom()),
            forall|t: ResourceTypeId|
                old(self)@.dom().contains(t) ==> #[trigger] final(self)@[t] == old(self)@[t],
            forall|t: ResourceTypeId|
                other@.dom().contains(t) && !old(self)@.dom().contains(t)
                    ==> #[trigger] final(self)@[t] == other@[t],
    {
        let mut rest = other;
        proof {
            crate::keyed::lemma_assoc_view_dom_finite(rest.map@);
            assert(self@.dom() =~= old(self)@.dom().union(other@.dom().difference(rest@.dom())));
        }
        loop
            invariant
                self.wf(),
                rest.wf(),
                self@.dom() =~= old(self)@.dom().union(other@.dom().difference(rest@.dom())),
                rest@.dom().subset_of(other@.dom()),
                rest@.dom().finite(),
                forall|t: ResourceTypeId|
                    rest@.dom().contains(t) ==> #[trigger] rest@[t] == other@[t],
                forall|t: ResourceTypeId|
                    old(self)@.dom().contains(t) ==> #[trigger] self@[t] == old(self)@[t],
                forall|t: ResourceTypeId|
                    other@.dom().contains(t) && !old(self)@.dom().contains(t) && !rest@.dom().contains(
                        t,
                    ) ==> #[trigger] self@[t] == other@[t],
            ensures
                rest@.dom() =~= Set::<ResourceTypeId>::empty(),
            decreases rest@.dom().len(),
        {
            let next = rest.pop_entry();
            match next {
                Some((tid, value)) => {
                    if !self.contains(tid) {
                        self.insert(tid, value);
                    }
                    proof {
                        assert(self@.dom() =~= old(self)@.dom().union(
                            other@.dom().difference(rest@.dom()),
                        ));
                    }
                },
                None => {
                    break ;
                },
            }
        }
        proof {
            assert(self@.dom() =~= old(self)@.dom().union(other@.dom()));
        }
    }

    /// Removes and returns an arbitrary entry.
    fn pop_entry(&mut self) -> (r: Option<(ResourceTypeId, R)>)
        requires
            old(self).wf(),
        ensures
            final(self).wf(),
            match r {
                Some(p) => old(self)@.dom().contains(p.0) && p.1 == old(self)@[p.0]
                    && final(self)@ == old(self)@.remove(p.0),
                None => final(self)@ == old(self)@ && old(self)@.dom() =~= Set::<
                    ResourceTypeId,
                >::empty(),
            },
    {
        let ghost pre = self.map@;
        if self.map.len() == 0 {
            proof {
                lemma_assoc_view_empty_dom(pre);
            }
            None
        } else {
            let (tid, value) = self.map.pop().unwrap();
            proof {
                lemma_key_index(pre, tid);
                assert(key_index(pre, tid) == pre.len() - 1) by {
                    let w = key_index(pre, tid);
                    if w < pre.len() - 1 {
                        assert(pre[w].0 != pre[pre.len() - 1].0);
                    }
                }
                assert(pre.update(pre.len() - 1, pre[pre.len() - 1]) =~= pre);
                lemma_assoc_view_swap_remove(pre, pre.len() - 1);
                assert(self.map@ =~= pre.update(pre.len() - 1, pre[pre.len() - 1]).drop_last());
            }
            Some((tid, value))
        }
    }

    /// A read-only view of the store for shared contexts.
    pub fn sync(&self) -> (r: SyncResources<'_, R>)
        ensures
            r.internal == self,
    {
        SyncResources { internal: self }
    }
}

/// A shared handle on the resource store: lookups only.
pub struct SyncResources<'a, R> {
    pub internal: &'a Resources<R>,
}

impl<'a, R> SyncResources<'a, R> {
    pub fn get(&self, tid: ResourceTypeId) -> (r: Option<&R>)
        requires
            self.internal.wf(),
        ensures
            match r {
                Some(v) => self.internal@.dom().contains(tid) && *v == self.internal@[tid],
                None => !self.internal@.dom().contains(tid),
            },
    {
        self.internal.get(tid)
    }
}

/// An empty association list has an empty map.
proof fn lemma_assoc_view_empty_dom<K, V>(s: Seq<(K, V)>)
    requires
        s.len() == 0,
    ensures
        assoc_view(s).dom() =~= Set::<K>::empty(),
{
}

} // verus!
