//! Grouping, naming and metadata-cached inspection of the entities of a store.
//!
//! The store is a mutable graph of entities that own typed component
//! values; this library works on a snapshot of it ([`store::Store`]) and
//! never changes it.
//!
//! - [`entity_grouping`] orders a set of entities as a tree, by hierarchy
//!   ([`hierarchy_grouping`]) or by the similarity of archetypes
//!   ([`archetype_similarity_grouping`]); [`hierarchy_laws`] and
//!   [`similarity_laws`] prove that the flattened tree holds every entity
//!   once.
//! - [`component_inspection`] holds the cache of metadata by component type.
//! - [`entity_name_resolution`] resolves the name under which an entity is
//!   displayed, and [`fuzzy_name_mapping`] the type that a loosely written
//!   name means.
//! - [`extension_methods`] inspects entities, components, component types
//!   and resources; [`summary`] summarizes the store.
//!
//! Every function is verified against its contract. What is believed
//! without proof are the contracts of the hash collections
//! ([`collections`]), of the string operations ([`text`]) and of the few
//! operations on type identities.

pub mod archetype_similarity_grouping;
pub mod collections;
pub mod component_inspection;
pub mod entity_grouping;
pub mod entity_inspection;
pub mod entity_name_resolution;
pub mod extension_methods;
pub mod fraction;
pub mod fuzzy_name_mapping;
pub mod hierarchy_grouping;
pub mod hierarchy_laws;
pub mod inspectable;
pub mod memory_size;
pub mod reflection_tools;
pub mod resource_inspection;
pub mod similarity_laws;
pub mod sorting;
pub mod store;
pub mod summary;
pub mod text;
