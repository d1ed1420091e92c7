//! Component type identifiers and the per-type component stores.

use vstd::prelude::*;

use crate::bitset::BitSet;
use crate::bitset::bit_set_view;
use crate::entity::Entity;
use crate::keyed::key_index;
use crate::keyed::lemma_key_index;
use crate::keyed::lemma_key_index_push;
use crate::keyed::lemma_key_index_same_keys;
use crate::sparse::SparseSet;

verus! {

/// Identifies one component type. The runtime is generic over the component
/// value type; each logical component type is named by a small integer id
/// chosen by the application.
#[derive(Clone, Copy, PartialEq, Eq, Structural, Debug, Hash)]
pub struct ComponentTypeId {
    pub id: u64,
}

impl ComponentTypeId {
    pub fn of(id: u64) -> (r: ComponentTypeId)
        ensures
            r.id == id,
    {
        ComponentTypeId { id }
    }
}

/// One dense set of component values per component type: the world's
/// column storage. Each set holds at most one value per entity index.
pub struct Components<V> {
    vecs: Vec<(ComponentTypeId, SparseSet<V>)>,
}

impl<V> Components<V> {
    pub closed spec fn has_store(self, t: ComponentTypeId) -> bool {
        key_index(self.vecs@, t) >= 0
    }

    /// The stores, as a map from component type to its entries.
    pub closed spec fn view(self) -> Map<ComponentTypeId, Map<u32, V>> {
        Map::new(
            |t: ComponentTypeId| self.has_store(t),
            |t: ComponentTypeId| self.vecs@[key_index(self.vecs@, t)].1@,
        )
    }

    /// The entries of type `t`; a type never inserted has no entries.
    pub open spec fn store(self, t: ComponentTypeId) -> Map<u32, V> {
        if self@.dom().contains(t) {
            self@[t]
        } else {
            Map::empty()
        }
    }

    /// Each component type appears at most once, and each set is internally
    /// consistent.
    pub closed spec fn wf(self) -> bool {
        &&& forall|j: int, k: int|
            0 <= j < k < self.vecs@.len() ==> (#[trigger] self.vecs@[j]).0 != (
            #[trigger] self.vecs@[k]).0
        &&& forall|j: int|
            0 <= j < self.vecs@.len() ==> (#[trigger] self.vecs@[j]).1.wf()
    }

    pub fn new() -> (r: Components<V>)
        ensures
            r.wf(),
            r@ =~= Map::<ComponentTypeId, Map<u32, V>>::empty(),
    {
        let r = Components { vecs: Vec::new() };
        proof {
            assert(r@ =~= Map::<ComponentTypeId, Map<u32, V>>::empty());
        }
        r
    }

    /// The position of the store for `tid`, if one exists.
    fn find(&self, tid: ComponentTypeId) -> (r: Option<usize>)
        requires
            self.wf(),
        ensures
            match r {
                Some(j) => j < self.vecs@.len() && self.vecs@[j as int].0 == tid
                    && self.has_store(tid) && key_index(self.vecs@, tid) == j,
                None => !self.has_store(tid),
            },
    {
        let mut j: usize = 0;
        while j < self.vecs.len()
            invariant
                self.wf(),
                j <= self.vecs@.len(),
                forall|k: int| 0 <= k < j ==> (#[trigger] self.vecs@[k]).0 != tid,
            decreases self.vecs@.len() - j,
        {
            if self.vecs[j].0 == tid {
                proof {
                    lemma_key_index(self.vecs@, tid);
                    let w = key_index(self.vecs@, tid);
                    assert(w >= 0) by {
                        if w < 0 {
                            assert(self.vecs@[j as int].0 != tid);
                        }
                    }
                    assert(w == j) by {
                        if w < j {
                            assert(self.vecs@[w].0 != tid);
                        }
                        if w > j {
                            assert(self.vecs@[j as int].0 != tid);
                        }
                    }
                }
                return Some(j);
            }
            j = j + 1;
        }
        proof {
            lemma_key_index(self.vecs@, tid);
            if self.has_store(tid) {
                assert(self.vecs@[key_index(self.vecs@, tid)].0 == tid);
            }
        }
        None
    }

    /// The membership bitset of the store for `tid`, if one exists.
    pub fn get_bitset(&self, tid: ComponentTypeId) -> (r: Option<&BitSet>)
        requires
            self.wf(),
        ensures
            match r {
                Some(b) => self@.dom().contains(tid) && bit_set_view(*b) == self.store(tid).dom()
                    && bit_set_view(*b).finite(),
                None => !self@.dom().contains(tid),
            },
    {
        match self.find(tid) {
            Some(j) => Some(self.vecs[j].1.bitset()),
            None => None,
        }
    }

    /// The component of type `tid` stored for `entity`'s index, if any.
    pub fn get(&self, tid: ComponentTypeId, entity: Entity) -> (r: Option<&V>)
        requires
            self.wf(),
        ensures
            match r {
                Some(v) => self.store(tid).dom().contains(entity.id) && *v == self.store(
                    tid,
                )[entity.id],
                None => !self.store(tid).dom().contains(entity.id),
            },
    {
        match self.find(tid) {
            Some(j) => self.vecs[j].1.get(entity.id()),
            None => None,
        }
    }

    /// Stores `component` for `entity` under type `tid`, creating the store
    /// on first use; an existing row is replaced.
    pub fn insert(&mut self, tid: ComponentTypeId, entity: Entity, component: V)
        requires
            old(self).wf(),
        ensures
            final(self).wf(),
            final(self)@.dom() == old(self)@.dom().insert(tid),
            final(self).store(tid) == old(self).store(tid).insert(entity.id, component),
            forall|t: ComponentTypeId|
                t != tid ==> #[trigger] final(self).store(t) == old(self).store(t),
    {
        let ghost pre = *old(self);
        match self.find(tid) {
            Some(j) => {
                self.vecs[j].1.insert(entity.id(), component);
                proof {
                    assert forall|j2: int, k2: int|
                        0 <= j2 < k2 < self.vecs@.len() implies (#[trigger] self.vecs@[j2]).0 != (
                        #[trigger] self.vecs@[k2]).0 by {
                        assert(pre.vecs@[j2].0 != pre.vecs@[k2].0);
                    }
                    assert forall|j2: int|
                        0 <= j2 < self.vecs@.len() implies (#[trigger] self.vecs@[j2]).1.wf() by {
                        if j2 != j {
                            assert(pre.vecs@[j2].1.wf());
                        }
                    }
                    assert forall|t: ComponentTypeId|
                        #![trigger self.has_store(t)]
                        key_index(self.vecs@, t) == key_index(pre.vecs@, t) by {
                        lemma_key_index_same_keys(pre.vecs@, self.vecs@, t);
                    }
                    assert(self@.dom() =~= pre@.dom().insert(tid));
                    assert forall|t: ComponentTypeId|
                        t != tid implies #[trigger] self.store(t) == pre.store(t) by {
                        lemma_key_index_same_keys(pre.vecs@, self.vecs@, t);
                        if pre.has_store(t) {
                            lemma_key_index(pre.vecs@, t);
                            assert(pre.vecs@[key_index(pre.vecs@, t)].0 == t);
                            assert(key_index(pre.vecs@, t) != j);
                            assert(self.store(t) =~= pre.store(t));
                        } else {
                            assert(self.store(t) =~= pre.store(t));
                        }
                    }
                    lemma_key_index_same_keys(pre.vecs@, self.vecs@, tid);
                    assert(self.store(tid) =~= pre.store(tid).insert(entity.id, component));
                }
            },
            None => {
                let mut set: SparseSet<V> = SparseSet::new();
                set.insert(entity.id(), component);
                self.vecs.push((tid, set));
                proof {
                    let n = pre.vecs@.len() as int;
                    let p = self.vecs@[n];
                    lemma_key_index(pre.vecs@, tid);
                    assert forall|j2: int, k2: int|
                        0 <= j2 < k2 < self.vecs@.len() implies (#[trigger] self.vecs@[j2]).0 != (
                        #[trigger] self.vecs@[k2]).0 by {
                        if k2 < n {
                            assert(pre.vecs@[j2].0 != pre.vecs@[k2].0);
                        } else {
                            assert(self.vecs@[j2] == pre.vecs@[j2]);
                            assert(pre.vecs@[j2].0 != tid);
                        }
                    }
                    assert forall|j2: int|
                        0 <= j2 < self.vecs@.len() implies (#[trigger] self.vecs@[j2]).1.wf() by {
                        if j2 < n {
                            assert(pre.vecs@[j2].1.wf());
                        }
                    }
                    assert forall|t: ComponentTypeId|
                        #![trigger self.has_store(t)]
                        self.has_store(t) == (pre.has_store(t) || t == tid) by {
                        assert(self.vecs@ == pre.vecs@.push(p));
                        lemma_key_index_push(pre.vecs@, p, t);
                        lemma_key_index(pre.vecs@, t);
                    }
                    assert(self@.dom() =~= pre@.dom().insert(tid));
                    assert forall|t: ComponentTypeId|
                        t != tid implies #[trigger] self.store(t) == pre.store(t) by {
                        assert(self.vecs@ == pre.vecs@.push(p));
                        lemma_key_index_push(pre.vecs@, p, t);
                        lemma_key_index(pre.vecs@, t);
                        if pre.has_store(t) {
                            assert(self.vecs@[key_index(self.vecs@, t)] == pre.vecs@[key_index(
                                pre.vecs@,
                                t,
                            )]);
                            assert(self.store(t) =~= pre.store(t));
                        } else {
                            assert(self.store(t) =~= pre.store(t));
                        }
                    }
                    assert(self.vecs@ == pre.vecs@.push(p));
                    lemma_key_index_push(pre.vecs@, p, tid);
                    assert(key_index(self.vecs@, tid) == n);
                    assert(!pre@.dom().contains(tid));
                    assert(self.store(tid) =~= pre.store(tid).insert(entity.id, component));
                }
            },
        }
    }

    /// Removes the row for `entity` from the store for `tid`; removing an
    /// absent row or an unknown type is a no-op.
    pub fn remove(&mut self, tid: ComponentTypeId, entity: Entity)
        requires
            old(self).wf(),
        ensures
            final(self).wf(),
            final(self)@.dom() == old(self)@.dom(),
            final(self).store(tid) == old(self).store(tid).remove(entity.id),
            forall|t: ComponentTypeId|
                t != tid ==> #[trigger] final(self).store(t) == old(self).store(t),
    {
        let ghost pre = *old(self);
        match self.find(tid) {
            Some(j) => {
                self.vecs[j].1.remove(entity.id());
                proof {
                    assert forall|j2: int, k2: int|
                        0 <= j2 < k2 < self.vecs@.len() implies (#[trigger] self.vecs@[j2]).0 != (
                        #[trigger] self.vecs@[k2]).0 by {
                        assert(pre.vecs@[j2].0 != pre.vecs@[k2].0);
                    }
                    assert forall|j2: int|
                        0 <= j2 < self.vecs@.len() implies (#[trigger] self.vecs@[j2]).1.wf() by {
                        if j2 != j {
                            assert(pre.vecs@[j2].1.wf());
                        }
                    }
                    assert forall|t: ComponentTypeId|
                        #![trigger self.has_store(t)]
                        key_index(self.vecs@, t) == key_index(pre.vecs@, t) by {
                        lemma_key_index_same_keys(pre.vecs@, self.vecs@, t);
                    }
                    assert(self@.dom() =~= pre@.dom());
                    assert forall|t: ComponentTypeId|
                        t != tid implies #[trigger] self.store(t) == pre.store(t) by {
                        if pre.has_store(t) {
                            lemma_key_index(pre.vecs@, t);
                            assert(pre.vecs@[key_index(pre.vecs@, t)].0 == t);
                            assert(key_index(pre.vecs@, t) != j);
                            assert(self.store(t) =~= pre.store(t));
                        } else {
                            assert(self.store(t) =~= pre.store(t));
                        }
                    }
                    assert(self.store(tid) =~= pre.store(tid).remove(entity.id));
                }
            },
            None => {
                proof {
                    assert(self.store(tid) =~= pre.store(tid).remove(entity.id));
                }
            },
        }
    }

    /// Removes the row for `entity` from the store named by `tid`.
    pub fn remove_raw(&mut self, tid: &ComponentTypeId, entity: Entity)
        requires
            old(self).wf(),
        ensures
            final(self).wf(),
            final(self)@.dom() == old(self)@.dom(),
            final(self).store(*tid) == old(self).store(*tid).remove(entity.id),
            forall|t: ComponentTypeId|
                t != *tid ==> #[trigger] final(self).store(t) == old(self).store(t),
    {
        self.remove(*tid, entity)
    }
}

} // verus!
