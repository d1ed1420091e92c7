//! A heterogeneous single-value registry: at most one value per key.

use vstd::prelude::*;

use crate::keyed::assoc_view;
use crate::keyed::key_index;
use crate::keyed::lemma_assoc_view_push;
use crate::keyed::lemma_assoc_view_swap_remove;
use crate::keyed::lemma_assoc_view_update;
use crate::keyed::lemma_key_index;

verus! {

/// Holds at most one value per `u64` key.
pub struct AnyMap<V> {
    map: Vec<(u64, V)>,
}

impl<V> AnyMap<V> {
    /// The stored entries, as a map.
    pub closed spec fn view(self) -> Map<u64, V> {
        assoc_view(self.map@)
    }

    /// Each key appears at most once.
    pub closed spec fn wf(self) -> bool {
        forall|a: int, b: int|
            0 <= a < b < self.map@.len() ==> (#[trigger] self.map@[a]).0 != (
            #[trigger] self.map@[b]).0
    }

    /// The position of `key`, if present.
    fn find(&self, key: u64) -> (r: Option<usize>)
        requires
            self.wf(),
        ensures
            match r {
                Some(j) => j < self.map@.len() && self.map@[j as int].0 == key && key_index(
                    self.map@,
                    key,
                ) == j && self@.dom().contains(key),
                None => !self@.dom().contains(key),
            },
    {
        let mut j: usize = 0;
        while j < self.map.len()
            invariant
                self.wf(),
                j <= self.map@.len(),
                forall|k: int| 0 <= k < j ==> (#[trigger] self.map@[k]).0 != key,
            decreases self.map@.len() - j,
        {
            if self.map[j].0 == key {
                proof {
                    lemma_key_index(self.map@, key);
                    let w = key_index(self.map@, key);
                    assert(w >= 0) by {
                        if w < 0 {
                            assert(self.map@[j as int].0 != key);
                        }
                    }
                    assert(w == j) by {
                        if w < j {
                            assert(self.map@[w].0 != key);
                        }
                        if w > j {
                            assert(self.map@[j as int].0 != key);
                        }
                    }
                }
                return Some(j);
            }
            j = j + 1;
        }
        proof {
            lemma_key_index(self.map@, key);
            if self@.dom().contains(key) {
                assert(self.map@[key_index(self.map@, key)].0 == key);
            }
        }
        None
    }

    pub fn has(&self, key: u64) -> (r: bool)
        requires
            self.wf(),
        ensures
            r == self@.dom().contains(key),
    {
        self.find(key).is_some()
    }

    pub fn get(&self, key: u64) -> (r: Option<&V>)
        requires
            self.wf(),
        ensures
            match r {
                Some(v) => self@.dom().contains(key) && *v == self@[key],
                None => !self@.dom().contains(key),
            },
    {
        match self.find(key) {
            Some(j) => Some(&self.map[j].1),
            None => None,
        }
    }

    /// Exclusive access to the value under `key`, which must be present.
    pub fn get_mut(&mut self, key: u64) -> (r: &mut V)
        requires
            old(self).wf(),
            old(self)@.dom().contains(key),
        ensures
            final(self).wf(),
            *r == old(self)@[key],
            final(self)@ == old(self)@.insert(key, *final(r)),
    {
        let ghost pre = self.map@;
        let j = match self.find(key) {
            Some(j) => j,
            None => vstd::pervasive::unreached(),
        };
        proof {
            assert forall|v2: V|
                #![trigger pre.update(j as int, (key, v2))]
                assoc_view(pre.update(j as int, (key, v2))) == assoc_view(pre).insert(key, v2)
                    && (forall|a: int, b: int|
                    0 <= a < b < pre.len() ==> (#[trigger] pre.update(j as int, (key, v2))[a]).0
                        != (#[trigger] pre.update(j as int, (key, v2))[b]).0) by {
                lemma_assoc_view_update(pre, j as int, (key, v2));
                assert forall|a: int, b: int|
                    0 <= a < b < pre.len() implies (#[trigger] pre.update(j as int, (key, v2))[
                a]).0 != (#[trigger] pre.update(j as int, (key, v2))[b]).0 by {
                    assert(pre[a].0 != pre[b].0);
                }
            }
        }
        &mut self.map[j].1
    }

    /// Stores `value` under its key and returns the value it replaced, if
    /// any.
    pub fn insert(&mut self, key: u64, value: V) -> (r: Option<V>)
        requires
            old(self).wf(),
        ensures
            final(self).wf(),
            final(self)@ == old(self)@.insert(key, value),
            match r {
                Some(v) => old(self)@.dom().contains(key) && v == old(self)@[key],
                None => !old(self)@.dom().contains(key),
            },
    {
        let ghost pre = self.map@;
        match self.find(key) {
            Some(j) => {
                let mut entry = (key, value);
                std::mem::swap(&mut entry, &mut self.map[j]);
                proof {
                    lemma_assoc_view_update(pre, j as int, self.map@[j as int]);
                    assert forall|a: int, b: int|
                        0 <= a < b < self.map@.len() implies (#[trigger] self.map@[a]).0 != (
                    #[trigger] self.map@[b]).0 by {
                        assert(pre[a].0 != pre[b].0);
                    }
                }
                Some(entry.1)
            },
            None => {
                proof {
                    lemma_key_index(pre, key);
                    lemma_assoc_view_push(pre, (key, value));
                }
                self.map.push((key, value));
                proof {
                    assert forall|a: int, b: int|
                        0 <= a < b < self.map@.len() implies (#[trigger] self.map@[a]).0 != (
                    #[trigger] self.map@[b]).0 by {
                        if b < pre.len() {
                            assert(pre[a].0 != pre[b].0);
                        } else {
                            assert(self.map@[a] == pre[a]);
                            assert(pre[a].0 != key);
                        }
                    }
                }
                None
            },
        }
    }

    /// Removes and returns the value under `key`, if any.
    pub fn remove(&mut self, key: u64) -> (r: Option<V>)
        requires
            old(self).wf(),
        ensures
            final(self).wf(),
            final(self)@ == old(self)@.remove(key),
            match r {
                Some(v) => old(self)@.dom().contains(key) && v == old(self)@[key],
                None => !old(self)@.dom().contains(key),
            },
    {
        let ghost pre = self.map@;
        match self.find(key) {
            Some(j) => {
                let (_k, v) = self.map.swap_remove(j);
                proof {
                    lemma_assoc_view_swap_remove(pre, j as int);
                    crate::keyed::lemma_key_index_swap_remove(pre, j as int, key);
                }
                Some(v)
            },
            None => {
                proof {
                    assert(self@ =~= old(self)@.remove(key));
                }
                None
            },
        }
    }
}

impl<V> Default for AnyMap<V> {
    /// An empty registry.
    fn default() -> (r: Self)
        ensures
            r.wf(),
            r@ =~= Map::<u64, V>::empty(),
    {
        let r = AnyMap { map: Vec::new() };
        proof {
            assert(r@ =~= Map::<u64, V>::empty());
        }
        r
    }
}

} // verus!
