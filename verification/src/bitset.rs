//! Membership bitsets over `u32` indices, backed by the `bit_set` crate.
//!
//! `bit_set::BitSet` cannot be named in verified signatures (its `BitBlock`
//! bound is foreign), so it is held in a private field of an opaque struct.
//! The contents are named by the spec function [`bit_set_view`]; every
//! method below states its effect on that view.

use vstd::prelude::*;

verus! {

/// A set of `u32` indices stored as a bit vector.
#[verifier::external_body]
pub struct BitSet {
    inner: bit_set::BitSet,
}

/// The set of indices whose bit is set.
pub uninterp spec fn bit_set_view(b: BitSet) -> Set<u32>;

impl BitSet {
    /// Relies on bit_set::BitSet::new: a freshly created bitset has no bit set.
    #[verifier::external_body]
    pub fn new() -> (r: BitSet)
        ensures
            bit_set_view(r) == Set::<u32>::empty(),
    {
        BitSet { inner: bit_set::BitSet::new() }
    }

    /// Relies on bit_set::BitSet's Clone: the copy has exactly the same bits.
    #[verifier::external_body]
    pub fn clone_bits(&self) -> (r: BitSet)
        ensures
            bit_set_view(r) == bit_set_view(*self),
    {
        BitSet { inner: self.inner.clone() }
    }

    /// Relies on bit_set::BitSet::contains: tests one bit.
    #[verifier::external_body]
    pub fn contains(&self, i: u32) -> (r: bool)
        ensures
            r == bit_set_view(*self).contains(i),
    {
        self.inner.contains(i as usize)
    }

    /// Relies on bit_set::BitSet::insert: sets one bit, growing as needed, and
    /// reports whether the bit was newly set.
    #[verifier::external_body]
    pub fn insert(&mut self, i: u32) -> (r: bool)
        ensures
            bit_set_view(*final(self)) == bit_set_view(*old(self)).insert(i),
            bit_set_view(*final(self)).finite(),
            r == !bit_set_view(*old(self)).contains(i),
    {
        self.inner.insert(i as usize)
    }

    /// Relies on bit_set::BitSet::remove: clears one bit and reports whether
    /// it was set.
    #[verifier::external_body]
    pub fn remove(&mut self, i: u32) -> (r: bool)
        ensures
            bit_set_view(*final(self)) == bit_set_view(*old(self)).remove(i),
            bit_set_view(*final(self)).finite(),
            r == bit_set_view(*old(self)).contains(i),
    {
        self.inner.remove(i as usize)
    }

    /// Relies on bit_set::BitSet::count: counts the set bits.
    #[verifier::external_body]
    pub fn len(&self) -> (r: usize)
        ensures
            bit_set_view(*self).finite() ==> r as nat == bit_set_view(*self).len(),
    {
        self.inner.count()
    }

    /// Relies on bit_set::BitSet::intersect_with: keeps exactly the bits set
    /// in both operands.
    #[verifier::external_body]
    pub fn intersect_with(&mut self, other: &BitSet)
        ensures
            bit_set_view(*final(self)) == bit_set_view(*old(self)).intersect(
                bit_set_view(*other),
            ),
            bit_set_view(*old(self)).finite() ==> bit_set_view(*final(self)).finite(),
    {
        self.inner.intersect_with(&other.inner)
    }

    /// Relies on bit_set::BitSet::union_with: sets exactly the bits set in
    /// either operand.
    #[verifier::external_body]
    pub fn union_with(&mut self, other: &BitSet)
        ensures
            bit_set_view(*final(self)) == bit_set_view(*old(self)).union(bit_set_view(*other)),
            bit_set_view(*old(self)).finite() && bit_set_view(*other).finite()
                ==> bit_set_view(*final(self)).finite(),
    {
        self.inner.union_with(&other.inner)
    }

    /// Relies on bit_set::BitSet::iter, which walks the bit blocks in order
    /// and takes each block's lowest set bit first: the set bits come out in
    /// increasing order, each exactly once.
    #[verifier::external_body]
    pub fn indices(&self) -> (r: Vec<u32>)
        ensures
            forall|j: int, k: int| 0 <= j < k < r@.len() ==> r@[j] < r@[k],
            forall|j: int| 0 <= j < r@.len() ==> bit_set_view(*self).contains(#[trigger] r@[j]),
            forall|x: u32| bit_set_view(*self).contains(x) ==> r@.contains(x),
    {
        self.inner.iter().map(|i| i as u32).collect()
    }
}

} // verus!
