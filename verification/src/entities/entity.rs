//! Handles on single entities of an [`Entities`] collection.
use vstd::prelude::*;
use crate::entities::component::Component;
use crate::entities::entities::{Entities, EntityLocation};
use crate::entities::entity_id::{EntityId, EntityIndex};
use crate::uuid::{TypeUuid, Uuid};

verus! {

/// A shared reference to a live entity of an [`Entities`] collection.
pub struct EntityRef<'a, V> {
    /// The collection that the entity is stored in.
    entities: &'a Entities<V>,
    /// The index of the entity.
    index: EntityIndex,
}

impl<'a, V> EntityRef<'a, V> {
    /// The collection that the entity is stored in.
    pub closed spec fn owner(&self) -> Entities<V> {
        *self.entities
    }

    /// The index of the entity.
    pub closed spec fn spec_index(&self) -> EntityIndex {
        self.index
    }

    /// The identifier of the entity.
    pub open spec fn spec_id(&self) -> EntityId {
        EntityId::spec_new(
            self.spec_index(),
            self.owner().allocator().generation_at(self.spec_index() as int),
        )
    }

    /// The components of the entity.
    pub open spec fn components(&self) -> Map<Uuid, V> {
        self.owner().view()[self.spec_id()]
    }

    /// Whether the reference designates a live entity of a consistent collection.
    pub open spec fn wf(&self) -> bool {
        &&& self.owner().wf()
        &&& self.owner().allocator().slot_in_use(self.spec_index() as int)
    }

    /// Creates a reference to the entity at `index`, which must be live.
    pub fn from_raw_parts(entities: &'a Entities<V>, index: EntityIndex) -> (r: Self)
        requires
            entities.wf(),
            entities.allocator().slot_in_use(index as int),
        ensures
            r.wf(),
            r.owner() == *entities,
            r.spec_index() == index,
    {
        EntityRef { entities, index }
    }

    /// Returns the location of the entity within its collection.
    pub fn location(&self) -> (r: EntityLocation)
        requires
            self.wf(),
        ensures
            r == self.owner().location_of(self.spec_index() as int),
    {
        *self.entities.id_allocator().get_unchecked(self.index)
    }

    /// Returns the raw [`EntityIndex`] of the entity.
    pub fn index(&self) -> (r: EntityIndex)
        ensures
            r == self.spec_index(),
    {
        self.index
    }

    /// Returns the identifier of the entity.
    pub fn id(&self) -> (r: EntityId)
        requires
            self.wf(),
        ensures
            r == self.spec_id(),
            self.owner().view().contains_key(r),
    {
        proof {
            self.owner().lemma_location(self.spec_index() as int);
        }
        self.entities.id_allocator().get_id_for_index_unchecked(self.index)
    }

    /// Returns whether the entity has a component with the provided identifier.
    pub fn has_component_raw(&self, uuid: Uuid) -> (r: bool)
        requires
            self.wf(),
        ensures
            r == self.components().contains_key(uuid),
    {
        proof {
            self.owner().lemma_location(self.spec_index() as int);
        }
        let location = self.location();
        self.entities.archetype_storages()[location.archetype].has_component(uuid)
    }

    /// Returns whether the entity has the component `C`.
    pub fn has_component<C: Component>(&self) -> (r: bool)
        requires
            self.wf(),
        ensures
            r == self.components().contains_key(C::spec_uuid()),
    {
        self.has_component_raw(C::uuid())
    }

    /// Returns the component of the entity with the provided identifier, or `None` when the
    /// entity does not have it.
    pub fn get_raw(&self, uuid: Uuid) -> (r: Option<&'a V>)
        requires
            self.wf(),
        ensures
            r is Some <==> self.components().contains_key(uuid),
            r matches Some(v) ==> *v == self.components()[uuid],
    {
        proof {
            self.owner().lemma_location(self.spec_index() as int);
        }
        let location = self.location();
        self.entities.archetype_storages()[location.archetype].get_raw(location.row, uuid)
    }

    /// Returns the component `C` of the entity, or `None` when the entity does not have it.
    pub fn try_get<C: Component>(&self) -> (r: Option<&'a V>)
        requires
            self.wf(),
        ensures
            r is Some <==> self.components().contains_key(C::spec_uuid()),
            r matches Some(v) ==> *v == self.components()[C::spec_uuid()],
    {
        self.get_raw(C::uuid())
    }

    /// Returns the component `C` of the entity, which must have it.
    pub fn get<C: Component>(&self) -> (r: &'a V)
        requires
            self.wf(),
            self.components().contains_key(C::spec_uuid()),
        ensures
            *r == self.components()[C::spec_uuid()],
    {
        match self.get_raw(C::uuid()) {
            Some(v) => v,
            None => vstd::pervasive::unreached(),
        }
    }
}

} // verus!
