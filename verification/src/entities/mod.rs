//! Entities and the storage of their components.
pub mod archetype_components;
pub mod archetype_storage;
pub mod component;
pub mod component_vec;
pub mod entities;
pub mod entity_id;
pub mod entity;
pub mod modify_entity;
