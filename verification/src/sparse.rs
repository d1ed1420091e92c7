//! Sparse storage keyed by `u32` indices: a direct-addressed array with a
//! membership bitset, and a dense set layered on top of it.

use vstd::prelude::*;

use crate::bitset::BitSet;
use crate::bitset::bit_set_view;

verus! {

/// A direct-addressed vector from `u32` indices to values, paired with a
/// bitset that tracks exactly the populated slots.
pub struct SparseArray<V> {
    values: Vec<Option<V>>,
    bitset: BitSet,
}

impl<V> SparseArray<V> {
    /// The populated entries, as a map from index to value.
    pub closed spec fn view(self) -> Map<u32, V> {
        Map::new(
            |i: u32| (i as int) < self.values@.len() && self.values@[i as int] is Some,
            |i: u32| self.values@[i as int].unwrap(),
        )
    }

    /// The bitset mirrors the populated slots.
    pub closed spec fn wf(self) -> bool {
        &&& self.values@.len() <= (u32::MAX as int) + 1
        &&& bit_set_view(self.bitset).finite()
        &&& forall|i: u32|
            #![trigger bit_set_view(self.bitset).contains(i)]
            bit_set_view(self.bitset).contains(i) == ((i as int) < self.values@.len()
                && self.values@[i as int] is Some)
    }

    pub fn new() -> (r: SparseArray<V>)
        ensures
            r.wf(),
            r@ =~= Map::<u32, V>::empty(),
    {
        let r = SparseArray { values: Vec::new(), bitset: BitSet::new() };
        proof {
            assert(r@ =~= Map::<u32, V>::empty());
        }
        r
    }

    /// The membership bitset: bit `i` is set exactly when index `i` holds a
    /// value.
    pub fn bitset(&self) -> (r: &BitSet)
        requires
            self.wf(),
        ensures
            bit_set_view(*r) == self@.dom(),
            bit_set_view(*r).finite(),
    {
        proof {
            assert(bit_set_view(self.bitset) =~= self@.dom());
        }
        &self.bitset
    }

    pub fn has(&self, index: u32) -> (r: bool)
        requires
            self.wf(),
        ensures
            r == self@.dom().contains(index),
    {
        self.bitset.contains(index)
    }

    pub fn get(&self, index: u32) -> (r: Option<&V>)
        requires
            self.wf(),
        ensures
            match r {
                Some(v) => self@.dom().contains(index) && *v == self@[index],
                None => !self@.dom().contains(index),
            },
    {
        let i = index as usize;
        if i < self.values.len() {
            match &self.values[i] {
                Some(v) => Some(v),
                None => None,
            }
        } else {
            None
        }
    }

    /// Stores `value` at `index`, growing the array as needed; an existing
    /// value at that index is replaced.
    pub fn insert(&mut self, index: u32, value: V)
        requires
            old(self).wf(),
        ensures
            final(self).wf(),
            final(self)@ == old(self)@.insert(index, value),
    {
        let i = index as usize;
        let ghost pre = *old(self);
        if self.values.len() <= i {
            while self.values.len() <= i
                invariant
                    i == index as int,
                    pre.values@.len() <= self.values@.len() <= i + 1,
                    self.bitset == pre.bitset,
                    forall|j: int|
                        0 <= j < pre.values@.len() ==> self.values@[j] == pre.values@[j],
                    forall|j: int|
                        pre.values@.len() <= j < self.values@.len() ==> self.values@[j] is None,
                decreases i + 1 - self.values@.len(),
            {
                self.values.push(None);
            }
        }
        self.values[i] = Some(value);
        self.bitset.insert(index);
        proof {
            assert(self@ =~= pre@.insert(index, value));
            assert forall|j: u32|
                bit_set_view(self.bitset).contains(j) == ((j as int) < self.values@.len()
                    && self.values@[j as int] is Some) by {
                if j != index {
                    assert(bit_set_view(pre.bitset).contains(j) == ((j as int)
                        < pre.values@.len() && pre.values@[j as int] is Some));
                }
            }
        }
    }

    /// Removes and returns the value at `index`, clearing its bit.
    pub fn remove(&mut self, index: u32) -> (r: Option<V>)
        requires
            old(self).wf(),
        ensures
            final(self).wf(),
            final(self)@ == old(self)@.remove(index),
            match r {
                Some(v) => old(self)@.dom().contains(index) && v == old(self)@[index],
                None => !old(self)@.dom().contains(index),
            },
    {
        let ghost pre = *old(self);
        self.bitset.remove(index);
        let i = index as usize;
        let r = if i < self.values.len() {
            let mut taken: Option<V> = None;
            std::mem::swap(&mut taken, &mut self.values[i]);
            taken
        } else {
            None
        };
        proof {
            assert(self@ =~= pre@.remove(index));
            assert forall|j: u32|
                bit_set_view(self.bitset).contains(j) == ((j as int) < self.values@.len()
                    && self.values@[j as int] is Some) by {
                if j != index {
                    assert(bit_set_view(pre.bitset).contains(j) == ((j as int)
                        < pre.values@.len() && pre.values@[j as int] is Some));
                }
            }
        }
        r
    }
}

/// A dense set over sparse `u32` indices: values are stored contiguously,
/// with a parallel vector of their indices and a sparse array mapping each
/// index back to its dense position.
pub struct SparseSet<V> {
    dense: Vec<V>,
    indices: Vec<u32>,
    sparse: SparseArray<usize>,
}

impl<V> SparseSet<V> {
    /// The stored entries, as a map from index to value.
    pub closed spec fn view(self) -> Map<u32, V> {
        Map::new(
            |i: u32| self.sparse@.dom().contains(i),
            |i: u32| self.dense@[self.sparse@[i] as int],
        )
    }

    /// The dense and sparse layers agree: the sparse array maps index `i` to
    /// a dense position `d` exactly when `indices[d] == i`, round-tripping
    /// both ways.
    pub closed spec fn wf(self) -> bool {
        &&& self.sparse.wf()
        &&& self.dense@.len() == self.indices@.len()
        &&& forall|d: int|
            #![trigger self.indices@[d]]
            0 <= d < self.indices@.len() ==> self.sparse@.dom().contains(self.indices@[d])
                && self.sparse@[self.indices@[d]] == d
        &&& forall|i: u32|
            #![trigger self.sparse@[i]]
            self.sparse@.dom().contains(i) ==> (self.sparse@[i] as int) < self.indices@.len()
                && self.indices@[self.sparse@[i] as int] == i
    }

    pub fn new() -> (r: SparseSet<V>)
        ensures
            r.wf(),
            r@ =~= Map::<u32, V>::empty(),
    {
        let r = SparseSet { dense: Vec::new(), indices: Vec::new(), sparse: SparseArray::new() };
        proof {
            assert(r@ =~= Map::<u32, V>::empty());
        }
        r
    }

    /// The membership bitset: bit `i` is set exactly when the set holds a
    /// value for index `i`.
    pub fn bitset(&self) -> (r: &BitSet)
        requires
            self.wf(),
        ensures
            bit_set_view(*r) == self@.dom(),
            bit_set_view(*r).finite(),
    {
        proof {
            assert(self.sparse@.dom() =~= self@.dom());
        }
        self.sparse.bitset()
    }

    pub fn len(&self) -> (r: usize)
        requires
            self.wf(),
        ensures
            r == self@.dom().len(),
    {
        proof {
            lemma_sparse_set_len(*self);
        }
        self.dense.len()
    }

    pub fn is_empty(&self) -> (r: bool)
        requires
            self.wf(),
        ensures
            r == (self@.dom() =~= Set::<u32>::empty()),
    {
        proof {
            lemma_sparse_set_len(*self);
            if self.dense@.len() == 0 {
                assert(self@.dom() =~= Set::<u32>::empty());
            } else {
                assert(self@.dom().contains(self.indices@[0]));
            }
        }
        self.dense.len() == 0
    }

    pub fn has(&self, index: u32) -> (r: bool)
        requires
            self.wf(),
        ensures
            r == self@.dom().contains(index),
    {
        self.sparse.has(index)
    }

    pub fn get(&self, index: u32) -> (r: Option<&V>)
        requires
            self.wf(),
        ensures
            match r {
                Some(v) => self@.dom().contains(index) && *v == self@[index],
                None => !self@.dom().contains(index),
            },
    {
        match self.sparse.get(index) {
            Some(d) => Some(&self.dense[*d]),
            None => None,
        }
    }

    /// Stores `value` under `index`: replaces in place when present, else
    /// appends to the dense storage and records the position.
    pub fn insert(&mut self, index: u32, value: V)
        requires
            old(self).wf(),
        ensures
            final(self).wf(),
            final(self)@ == old(self)@.insert(index, value),
    {
        let ghost pre = *old(self);
        let present = match self.sparse.get(index) {
            Some(d) => Some(*d),
            None => None,
        };
        match present {
            Some(d) => {
                self.dense[d] = value;
                proof {
                    assert(self@ =~= pre@.insert(index, value));
                }
            },
            None => {
                proof {
                    lemma_sparse_set_len(pre);
                }
                let d = self.dense.len();
                self.sparse.insert(index, d);
                self.indices.push(index);
                self.dense.push(value);
                proof {
                    assert forall|d2: int|
                        0 <= d2 < self.indices@.len() implies self.sparse@.dom().contains(
                        self.indices@[d2],
                    ) && self.sparse@[self.indices@[d2]] == d2 by {
                        if d2 < pre.indices@.len() {
                            assert(pre.sparse@.dom().contains(pre.indices@[d2]));
                            assert(pre.indices@[d2] != index);
                        }
                    }
                    assert(self@ =~= pre@.insert(index, value));
                }
            },
        }
    }

    /// Removes and returns the value under `index`. The dense storage fills
    /// the hole by swapping in its last element, whose sparse entry is
    /// repointed so the round trip keeps holding.
    pub fn remove(&mut self, index: u32) -> (r: Option<V>)
        requires
            old(self).wf(),
        ensures
            final(self).wf(),
            final(self)@ == old(self)@.remove(index),
            match r {
                Some(v) => old(self)@.dom().contains(index) && v == old(self)@[index],
                None => !old(self)@.dom().contains(index),
            },
    {
        let ghost pre = *old(self);
        match self.sparse.remove(index) {
            Some(d) => {
                let last = self.dense.len() - 1;
                let value = self.dense.swap_remove(d);
                self.indices.swap_remove(d);
                if d != last {
                    let moved = self.indices[d];
                    proof {
                        assert(moved == pre.indices@[pre.indices@.len() - 1]);
                        assert(pre.sparse@.dom().contains(moved));
                        assert(moved != index) by {
                            if moved == index {
                                assert(pre.sparse@[moved] == pre.indices@.len() - 1);
                            }
                        }
                    }
                    self.sparse.insert(moved, d);
                }
                proof {
                    assert forall|d2: int|
                        0 <= d2 < self.indices@.len() implies self.sparse@.dom().contains(
                        self.indices@[d2],
                    ) && self.sparse@[self.indices@[d2]] == d2 by {
                        if d2 != d {
                            assert(self.indices@[d2] == pre.indices@[d2]);
                            assert(pre.sparse@.dom().contains(pre.indices@[d2]));
                            assert(pre.indices@[d2] != index);
                            if d != last {
                                assert(pre.indices@[d2] != pre.indices@[pre.indices@.len() - 1]);
                            }
                        }
                    }
                    assert forall|i: u32|
                        self.sparse@.dom().contains(i) implies (self.sparse@[i] as int)
                            < self.indices@.len() && self.indices@[self.sparse@[i] as int]
                            == i by {
                        if d != last && i == pre.indices@[pre.indices@.len() - 1] {
                        } else {
                            assert(pre.sparse@.dom().contains(i));
                            assert(i != index);
                            assert((pre.sparse@[i] as int) != pre.indices@.len() - 1) by {
                                if (pre.sparse@[i] as int) == pre.indices@.len() - 1 {
                                    assert(pre.indices@[pre.sparse@[i] as int] == i);
                                }
                            }
                        }
                    }
                    assert(self@ =~= pre@.remove(index));
                }
                Some(value)
            },
            None => {
                proof {
                    assert(self@ =~= pre@.remove(index));
                }
                None
            },
        }
    }
}

/// The dense length equals the number of stored indices: the `indices`
/// vector enumerates the map's domain without duplicates.
proof fn lemma_sparse_set_len<V>(s: SparseSet<V>)
    requires
        s.wf(),
    ensures
        s@.dom().len() == s.dense@.len(),
        s@.dom().finite(),
{
    broadcast use vstd::seq_lib::seq_to_set_is_finite;

    assert(s.indices@.no_duplicates()) by {
        assert forall|j: int, k: int|
            0 <= j < s.indices@.len() && 0 <= k < s.indices@.len() && j != k implies s.indices@[j]
            != s.indices@[k] by {
            if s.indices@[j] == s.indices@[k] {
                assert(s.sparse@[s.indices@[j]] == j);
                assert(s.sparse@[s.indices@[k]] == k);
            }
        }
    }
    s.indices@.unique_seq_to_set();
    assert(s.indices@.to_set() =~= s@.dom()) by {
        assert forall|i: u32| s@.dom().contains(i) implies s.indices@.to_set().contains(i) by {
            assert(s.indices@[s.sparse@[i] as int] == i);
        }
    }
}

} // verus!
