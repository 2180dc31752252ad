//! The global resource through which systems talk to the event loop.
use vstd::prelude::*;
use crate::app::globals::Global;
use crate::entities::entities::Entities;
use crate::entities::entity_id::EntityId;
use crate::uuid::{TypeUuid, Uuid};

verus! {

/// The global resource of the event loop: whether the loop should exit, and the windows to
/// create, each with the entity that gets it and the attributes it is created with.
pub struct EventLoopGlobal<A> {
    /// Whether the event loop should exit as soon as possible.
    exit_requested: bool,
    /// The windows waiting to be created.
    pending_windows: Vec<(EntityId, A)>,
}

impl<A> EventLoopGlobal<A> {
    /// Whether the event loop was asked to exit.
    pub closed spec fn exit_flag(&self) -> bool {
        self.exit_requested
    }

    /// The windows waiting to be created, in the order of the requests.
    pub closed spec fn pending(&self) -> Seq<(EntityId, A)> {
        self.pending_windows@
    }

    /// Creates the resource, with no request.
    pub fn new() -> (r: Self)
        ensures
            !r.exit_flag(),
            r.pending() == Seq::<(EntityId, A)>::empty(),
    {
        EventLoopGlobal { exit_requested: false, pending_windows: Vec::new() }
    }

    /// Requests the event loop to close itself when it can.
    pub fn exit(&mut self)
        ensures
            final(self).exit_flag(),
            final(self).pending() == old(self).pending(),
    {
        self.exit_requested = true;
    }

    /// Returns whether event loop exit has been requested.
    pub fn exit_requested(&self) -> (r: bool)
        ensures
            r == self.exit_flag(),
    {
        self.exit_requested
    }

    /// Queues a window for creation; the window component goes to `target_entity`.
    pub fn create_window_on(&mut self, target_entity: EntityId, attributes: A)
        ensures
            final(self).exit_flag() == old(self).exit_flag(),
            final(self).pending() == old(self).pending().push((target_entity, attributes)),
    {
        self.pending_windows.push((target_entity, attributes));
    }

    /// Removes the pending windows, or returns `None` when there is none.
    pub fn take_pending_windows(&mut self) -> (r: Option<Vec<(EntityId, A)>>)
        ensures
            final(self).exit_flag() == old(self).exit_flag(),
            final(self).pending() == Seq::<(EntityId, A)>::empty(),
            old(self).pending().len() == 0 <==> r is None,
            r matches Some(v) ==> v@ == old(self).pending(),
    {
        if self.pending_windows.len() == 0 {
            None
        } else {
            let mut taken = Vec::new();
            std::mem::swap(&mut taken, &mut self.pending_windows);
            Some(taken)
        }
    }

    /// Reserves an entity and queues a window for creation on it; the entity comes to exist
    /// when the entities are flushed. Returns the entity.
    pub fn create_window<V>(&mut self, entities: &mut Entities<V>, attributes: A) -> (id: EntityId)
        requires
            old(entities).wf(),
            old(entities).allocator().can_reserve(),
        ensures
            final(self).exit_flag() == old(self).exit_flag(),
            final(self).pending() == old(self).pending().push((id, attributes)),
            final(entities).wf(),
            final(entities).view() == old(entities).view(),
            final(entities).flushed_view() == old(entities).flushed_view().insert(id, Map::empty()),
            !old(entities).flushed_view().contains_key(id),
            final(entities).pending().contains(id),
    {
        let id = entities.reserve_one();
        self.create_window_on(id, attributes);
        id
    }
}

impl<A> Default for EventLoopGlobal<A> {
    fn default() -> (r: Self)
        ensures
            !r.exit_flag(),
            r.pending() == Seq::<(EntityId, A)>::empty(),
    {
        EventLoopGlobal::new()
    }
}

impl<A> TypeUuid for EventLoopGlobal<A> {
    open spec fn spec_uuid() -> Uuid {
        Uuid::spec_from_value(0x418bfdb8869365fd7de601bec909a7c1)
    }

    fn uuid() -> (r: Uuid)
        ensures
            r.spec_value() == 0x418bfdb8869365fd7de601bec909a7c1u128,
    {
        Uuid::from_u128(0x418bfdb8869365fd7de601bec909a7c1)
    }
}

impl<A> Global for EventLoopGlobal<A> {
    fn debug_name() -> (r: &'static str)
        ensures
            r@ == "EventLoopGlobal"@,
    {
        "EventLoopGlobal"
    }
}

} // verus!
