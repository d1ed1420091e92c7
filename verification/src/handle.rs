//! Asset handles: an identifier plus a strong or weak mode. Strong handles
//! announce their creation and release over a channel to the asset daemon,
//! which reference-counts them; weak handles carry the id alone.

use vstd::prelude::*;

verus! {

#[verifier::external_type_specification]
#[verifier::external_body]
#[verifier::reject_recursive_types(T)]
pub struct ExSender<T>(crossbeam_channel::Sender<T>);

#[verifier::external_type_specification]
#[verifier::external_body]
#[verifier::reject_recursive_types(T)]
pub struct ExReceiver<T>(crossbeam_channel::Receiver<T>);

/// Relies on crossbeam_channel::unbounded: creates a connected
/// sender/receiver pair. What flows through it depends on runtime scheduling,
/// so nothing is promised of the pair.
#[verifier::external_body]
pub(crate) fn channel_unbounded<T>() -> (r: (
    crossbeam_channel::Sender<T>,
    crossbeam_channel::Receiver<T>,
)) {
    crossbeam_channel::unbounded()
}

/// Relies on crossbeam_channel::Sender::send: on an unbounded channel it
/// never blocks and fails only when every receiver is gone. Reports success.
#[verifier::external_body]
pub(crate) fn channel_send<T>(s: &crossbeam_channel::Sender<T>, value: T) -> (r: bool) {
    s.send(value).is_ok()
}

/// Relies on crossbeam_channel::Sender's Clone: the clone feeds the same
/// channel.
#[verifier::external_body]
pub(crate) fn channel_sender_clone<T>(s: &crossbeam_channel::Sender<T>) -> (r:
    crossbeam_channel::Sender<T>) {
    s.clone()
}

/// Relies on crossbeam_channel::Receiver::try_recv: yields a queued message
/// when one is ready, and nothing when the channel is empty or disconnected.
#[verifier::external_body]
pub(crate) fn channel_try_recv<T>(r: &crossbeam_channel::Receiver<T>) -> (out: Option<T>) {
    r.try_recv().ok()
}

/// Relies on rand::random: draws an arbitrary value; nothing is promised of
/// it.
#[verifier::external_body]
pub(crate) fn random_u64() -> (r: u64) {
    rand::random()
}

/// Identifies one asset: the asset type's id paired with the asset's own.
#[derive(Clone, Copy, PartialEq, Eq, Structural, Debug, Hash)]
pub enum HandleId {
    Id(u64, u64),
}

impl HandleId {
    /// The asset type id this handle id belongs to.
    pub open spec fn spec_type_id(self) -> u64 {
        match self {
            HandleId::Id(t, _) => t,
        }
    }

    pub fn new(type_id: u64, id: u64) -> (r: HandleId)
        ensures
            r == HandleId::Id(type_id, id),
    {
        HandleId::Id(type_id, id)
    }

    /// A fresh id for an asset of the given type, drawn at random; distinct
    /// calls may collide, and callers treat the id as theirs only after
    /// storing under it.
    pub fn random(type_id: u64) -> (r: HandleId)
        ensures
            r.spec_type_id() == type_id,
    {
        HandleId::Id(type_id, random_u64())
    }

    /// The conventional default id for an asset type.
    pub fn default(type_id: u64) -> (r: HandleId)
        ensures
            r == HandleId::Id(type_id, 0),
    {
        HandleId::Id(type_id, 0)
    }
}

/// A message to the asset daemon: a strong handle appeared or went away.
pub enum RefChange {
    Increment(HandleId),
    Decrement(HandleId),
}

pub enum HandleType {
    Weak,
    Strong(crossbeam_channel::Sender<RefChange>),
}

/// A reference to an asset. A strong handle announces itself to the daemon
/// on creation and on release; a weak handle is just the id. Two handles
/// refer to the same asset exactly when their `id` fields are equal, whatever
/// their modes; compare the ids directly.
pub struct Handle<T> {
    pub id: HandleId,
    pub handle_type: HandleType,
    pub _marker: core::marker::PhantomData<T>,
}

impl<T> Handle<T> {
    pub open spec fn spec_is_weak(self) -> bool {
        self.handle_type is Weak
    }

    /// The weak handle carrying `id`.
    pub open spec fn weak_spec(id: HandleId) -> Handle<T> {
        Handle { id, handle_type: HandleType::Weak, _marker: core::marker::PhantomData }
    }

    /// A strong handle: announces one more reference to `id`.
    pub(crate) fn strong(id: HandleId, ref_change_sender: crossbeam_channel::Sender<RefChange>) -> (r:
        Handle<T>)
        ensures
            r.id == id,
            !r.spec_is_weak(),
    {
        channel_send(&ref_change_sender, RefChange::Increment(id));
        Handle { id, handle_type: HandleType::Strong(ref_change_sender), _marker: core::marker::PhantomData }
    }

    /// A weak handle: carries the id and announces nothing.
    pub fn weak(id: HandleId) -> (r: Handle<T>)
        ensures
            r == Handle::<T>::weak_spec(id),
            r.id == id,
            r.spec_is_weak(),
    {
        Handle { id, handle_type: HandleType::Weak, _marker: core::marker::PhantomData }
    }

    pub fn is_weak(&self) -> (r: bool)
        ensures
            r == self.spec_is_weak(),
    {
        match self.handle_type {
            HandleType::Weak => true,
            HandleType::Strong(_) => false,
        }
    }

    pub fn is_strong(&self) -> (r: bool)
        ensures
            r == !self.spec_is_weak(),
    {
        match self.handle_type {
            HandleType::Weak => false,
            HandleType::Strong(_) => true,
        }
    }

    /// A weak twin of this handle: same id, no reference count.
    pub fn close_weak(&self) -> (r: Handle<T>)
        ensures
            r.id == self.id,
            r.spec_is_weak(),
    {
        Handle { id: self.id, handle_type: HandleType::Weak, _marker: core::marker::PhantomData }
    }

    /// Another handle to the same asset; a strong one announces one more
    /// reference.
    pub fn clone_handle(&self) -> (r: Handle<T>)
        ensures
            r.id == self.id,
            r.spec_is_weak() == self.spec_is_weak(),
    {
        match &self.handle_type {
            HandleType::Strong(sender) => Self::strong(self.id, channel_sender_clone(sender)),
            HandleType::Weak => Handle {
                id: self.id,
                handle_type: HandleType::Weak,
                _marker: core::marker::PhantomData,
            },
        }
    }

    /// Releases the handle: a strong one announces one reference fewer, so
    /// the daemon can free the asset when none remain.
    pub fn release(self)
    {
        match self.handle_type {
            HandleType::Strong(sender) => {
                channel_send(&sender, RefChange::Decrement(self.id));
            },
            HandleType::Weak => {},
        }
    }
}

} // verus!
