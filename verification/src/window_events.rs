//! Events that a window receives.
use vstd::prelude::*;
use crate::app::app::App;
use crate::app::event::Event;
use crate::entities::entity_id::EntityId;
use crate::schedule::schedule::ScheduleSystem;
use crate::uuid::{TypeUuid, Uuid};

verus! {

/// An event sent to a window when it is requested to close itself; the closing can be
/// prevented with [`CloseRequested::prevent`].
pub struct CloseRequested {
    /// Whether the closing has been prevented.
    prevented: bool,
}

impl CloseRequested {
    /// Whether the closing has been prevented.
    pub closed spec fn spec_prevented(&self) -> bool {
        self.prevented
    }

    /// Creates a close request that is not prevented.
    pub fn new() -> (r: Self)
        ensures
            !r.spec_prevented(),
    {
        CloseRequested { prevented: false }
    }

    /// Prevents the window from closing.
    pub fn prevent(&mut self)
        ensures
            final(self).spec_prevented(),
    {
        self.prevented = true;
    }

    /// Returns whether the closing has been prevented.
    pub fn is_prevented(&self) -> (r: bool)
        ensures
            r == self.spec_prevented(),
    {
        self.prevented
    }

    /// Decides, once the request has gone through its handlers, whether the window closes:
    /// it does unless a handler prevented it.
    pub fn closes_window(&self) -> (r: bool)
        ensures
            r == !self.spec_prevented(),
    {
        !self.prevented
    }
}

impl Default for CloseRequested {
    fn default() -> (r: Self)
        ensures
            !r.spec_prevented(),
    {
        CloseRequested::new()
    }
}

impl TypeUuid for CloseRequested {
    open spec fn spec_uuid() -> Uuid {
        Uuid::spec_from_value(0x0C15E82B0D8789100E0A018B7FFF2F47)
    }

    fn uuid() -> (r: Uuid)
        ensures
            r.spec_value() == 0x0c15e82b0d8789100e0a018b7fff2f47u128,
    {
        Uuid::from_u128(0x0C15E82B0D8789100E0A018B7FFF2F47)
    }
}

impl Event for CloseRequested {}

/// An event sent to a window when it gains (`true`) or loses (`false`) the focus.
pub struct Focused(pub bool);

impl TypeUuid for Focused {
    open spec fn spec_uuid() -> Uuid {
        Uuid::spec_from_value(0x1D1CD69CBEE6109FA772246E4A9811F8)
    }

    fn uuid() -> (r: Uuid)
        ensures
            r.spec_value() == 0x1d1cd69cbee6109fa772246e4a9811f8u128,
    {
        Uuid::from_u128(0x1D1CD69CBEE6109FA772246E4A9811F8)
    }
}

impl Event for Focused {}

/// Triggering a focus event on a window runs none of the close-request handlers: those
/// scoped to the window and the global ones are left as they were.
pub proof fn lemma_focus_leaves_close_handlers<V, G, S, H, I>(
    before: App<V, G, S, H>,
    after: App<V, G, S, H>,
    target: EntityId,
    input: I,
    input_after: I,
)
    where H: ScheduleSystem<I, App<V, G, S, H>>
    requires
        App::<V, G, S, H>::triggered::<Focused, I>(before, after, target, input, input_after),
    ensures
        Focused::spec_uuid() != CloseRequested::spec_uuid(),
        before.spec_event_handlers().scoped_schedules().contains_key((target, CloseRequested::spec_uuid()))
            ==> after.spec_event_handlers().scoped_schedules()[(target, CloseRequested::spec_uuid())]
            == before.spec_event_handlers().scoped_schedules()[(target, CloseRequested::spec_uuid())],
        before.spec_event_handlers().global_schedules().contains_key(CloseRequested::spec_uuid())
            ==> after.spec_event_handlers().global_schedules()[CloseRequested::spec_uuid()]
            == before.spec_event_handlers().global_schedules()[CloseRequested::spec_uuid()],
{
    Uuid::lemma_from_value(0x1D1CD69CBEE6109FA772246E4A9811F8);
    Uuid::lemma_from_value(0x0C15E82B0D8789100E0A018B7FFF2F47);
    assert(Focused::spec_uuid().spec_value() != CloseRequested::spec_uuid().spec_value());
    assert((target, CloseRequested::spec_uuid()) != (target, Focused::spec_uuid()));
}

} // verus!
