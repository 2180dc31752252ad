//! Modifications of the set of components of an entity.
use vstd::prelude::*;
use crate::entities::component::ComponentInfo;
use crate::uuid::Uuid;

verus! {

/// A set of components.
pub trait ComponentSet {
    /// Whether the set holds a component with identifier `uuid`.
    spec fn spec_has_component(&self, uuid: Uuid) -> bool;

    /// Returns whether the set contains a component with the specified UUID.
    fn has_component(&self, uuid: Uuid) -> (r: bool)
        ensures
            r == self.spec_has_component(uuid),
    ;
}

/// A modification that inserts components into an entity, overwriting the components that the
/// entity already has.
pub struct Insert<V>(pub Vec<(ComponentInfo, V)>);

impl<V> ComponentSet for Insert<V> {
    open spec fn spec_has_component(&self, uuid: Uuid) -> bool {
        exists|t: int| 0 <= t < self.0@.len() && (#[trigger] self.0@[t]).0.uuid == uuid
    }

    fn has_component(&self, uuid: Uuid) -> (r: bool) {
        let mut i: usize = 0;
        while i < self.0.len()
            invariant
                i <= self.0@.len(),
                forall|t: int| 0 <= t < i ==> (#[trigger] self.0@[t]).0.uuid != uuid,
            decreases self.0@.len() - i,
        {
            if self.0[i].0.uuid == uuid {
                return true;
            }
            i = i + 1;
        }
        false
    }
}

} // verus!
