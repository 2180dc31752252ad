//! The components of a parent-children hierarchy of entities.
use vstd::prelude::*;
use crate::entities::component::Component;
use crate::entities::entity_id::EntityId;
use crate::uuid::{TypeUuid, Uuid};

verus! {

/// The component that stores the parent of an entity.
#[derive(Debug, Clone, Copy, PartialEq, Eq, Structural)]
pub struct Parent(pub EntityId);

impl TypeUuid for Parent {
    open spec fn spec_uuid() -> Uuid {
        Uuid::spec_from_value(0x139530b2d77a1ca1ebf060d28b0cd936)
    }

    fn uuid() -> (r: Uuid)
        ensures
            r.spec_value() == 0x139530b2d77a1ca1ebf060d28b0cd936u128,
    {
        Uuid::from_u128(0x139530b2d77a1ca1ebf060d28b0cd936)
    }
}

impl Component for Parent {
    fn debug_name() -> (r: &'static str)
        ensures
            r@ == "Parent"@,
    {
        "Parent"
    }
}

/// The component that stores the children of an entity.
#[derive(Debug, Clone)]
pub struct Children(pub Vec<EntityId>);

impl TypeUuid for Children {
    open spec fn spec_uuid() -> Uuid {
        Uuid::spec_from_value(0x4df7aa8a106b12db5d0e3d439760491a)
    }

    fn uuid() -> (r: Uuid)
        ensures
            r.spec_value() == 0x4df7aa8a106b12db5d0e3d439760491au128,
    {
        Uuid::from_u128(0x4df7aa8a106b12db5d0e3d439760491a)
    }
}

impl Component for Children {
    fn debug_name() -> (r: &'static str)
        ensures
            r@ == "Children"@,
    {
        "Children"
    }
}

} // verus!
