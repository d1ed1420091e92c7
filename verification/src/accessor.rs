//! Resource access declarations: what a system reads and writes.

use vstd::prelude::*;

use crate::resources::ResourceTypeId;

verus! {

/// Declares shared access to a required resource.
#[derive(Clone, Copy, PartialEq, Eq, Structural, Debug)]
pub struct Read {
    pub tid: ResourceTypeId,
}

/// Declares exclusive access to a required resource.
#[derive(Clone, Copy, PartialEq, Eq, Structural, Debug)]
pub struct Write {
    pub tid: ResourceTypeId,
}

/// Declares shared access to a resource that may be absent.
#[derive(Clone, Copy, PartialEq, Eq, Structural, Debug)]
pub struct TryRead {
    pub tid: ResourceTypeId,
}

/// Declares exclusive access to a resource that may be absent.
#[derive(Clone, Copy, PartialEq, Eq, Structural, Debug)]
pub struct TryWrite {
    pub tid: ResourceTypeId,
}

} // verus!
