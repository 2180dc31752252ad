//! A small entity-component-system library: entities grouped by the components that they have,
//! deferred commands, events, global resources and schedules of systems.
use vstd::prelude::*;
use crate::hierarchy::{Children, Parent};
use crate::runner::event_loop::EventLoopGlobal;
use crate::uuid::{TypeUuid, Uuid};
use crate::window_events::{CloseRequested, Focused};

pub mod app;
pub mod collections;
pub mod color;
pub mod entities;
pub mod hierarchy;
pub mod runner;
pub mod schedule;
pub mod system;
pub mod text;
pub mod ui;
pub mod uuid;
pub mod window_events;

verus! {

/// The identifier of the update schedule, which runs any time the window needs to be redrawn.
pub fn update_schedule() -> (r: Uuid)
    ensures
        r == Uuid::spec_from_value(0x3C1391F7321FA09E9BF1F0E50F9694F3),
        r.spec_value() == 0x3c1391f7321fa09e9bf1f0e50f9694f3u128,
{
    Uuid::from_u128(0x3C1391F7321FA09E9BF1F0E50F9694F3)
}

/// The identifier of the render schedule, which draws to the screen, usually after the update
/// schedule.
pub fn render_schedule() -> (r: Uuid)
    ensures
        r == Uuid::spec_from_value(0x54e3cde8ae8f72b74c11cba46ad2d491),
        r.spec_value() == 0x54e3cde8ae8f72b74c11cba46ad2d491u128,
{
    Uuid::from_u128(0x54e3cde8ae8f72b74c11cba46ad2d491)
}

/// The identifier of the fixed update schedule, which runs at a fixed rate, whatever the
/// refresh rate of the monitor.
pub fn fixed_update_schedule() -> (r: Uuid)
    ensures
        r == Uuid::spec_from_value(0x97d6c77247982377234523b8f888cd7f),
        r.spec_value() == 0x97d6c77247982377234523b8f888cd7fu128,
{
    Uuid::from_u128(0x97d6c77247982377234523b8f888cd7f)
}

/// The types of the library that are identified by a [`Uuid`] each have their own identifier:
/// triggering an event, or looking a component or a global resource up by identifier, reaches
/// only the things of that type. The identifiers are those that the types are known by.
pub proof fn lemma_identifiers_distinct<A>()
    ensures
        Focused::spec_uuid().spec_value() == 0x1d1cd69cbee6109fa772246e4a9811f8u128,
        CloseRequested::spec_uuid().spec_value() == 0x0c15e82b0d8789100e0a018b7fff2f47u128,
        Parent::spec_uuid().spec_value() == 0x139530b2d77a1ca1ebf060d28b0cd936u128,
        Children::spec_uuid().spec_value() == 0x4df7aa8a106b12db5d0e3d439760491au128,
        EventLoopGlobal::<A>::spec_uuid().spec_value() == 0x418bfdb8869365fd7de601bec909a7c1u128,
        Focused::spec_uuid() != CloseRequested::spec_uuid(),
        Parent::spec_uuid() != Children::spec_uuid(),
        Parent::spec_uuid() != Focused::spec_uuid(),
        Parent::spec_uuid() != CloseRequested::spec_uuid(),
        Children::spec_uuid() != Focused::spec_uuid(),
        Children::spec_uuid() != CloseRequested::spec_uuid(),
        EventLoopGlobal::<A>::spec_uuid() != Parent::spec_uuid(),
        EventLoopGlobal::<A>::spec_uuid() != Children::spec_uuid(),
        EventLoopGlobal::<A>::spec_uuid() != Focused::spec_uuid(),
        EventLoopGlobal::<A>::spec_uuid() != CloseRequested::spec_uuid(),
{
    Uuid::lemma_from_value(0x1D1CD69CBEE6109FA772246E4A9811F8);
    Uuid::lemma_from_value(0x0C15E82B0D8789100E0A018B7FFF2F47);
    Uuid::lemma_from_value(0x139530b2d77a1ca1ebf060d28b0cd936);
    Uuid::lemma_from_value(0x4df7aa8a106b12db5d0e3d439760491a);
    Uuid::lemma_from_value(0x418bfdb8869365fd7de601bec909a7c1);
}

} // verus!
