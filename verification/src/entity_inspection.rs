//! Inspection of entities: its results, its errors, its settings and the
//! filter that picks the entities of a batch.

use vstd::prelude::*;
use vstd::std_specs::convert::FromSpecImpl;
use crate::component_inspection::{
    ComponentDetailLevel, ComponentInspection, ComponentInspectionSettings,
};
use crate::entity_grouping::GroupingStrategy;
use bevy::platform::collections::HashMap;
use bevy::platform::hash::FixedHasher;
use crate::collections::metadata_entries;
use crate::component_inspection::ComponentTypeMetadata;
use crate::entity_name_resolution::{
    candidates_of, resolve_from_components, resolved_text, EntityName,
};
use crate::memory_size::MemorySize;
use crate::store::{ComponentTypeId, EntityId, QueryEntityError, SpawnDetails, Store};
use crate::text::{contains_text, is_substring, lowercase, to_lowercase};

verus! {

/// The result of inspecting an entity.
#[derive(Clone, Debug)]
pub struct EntityInspection {
    /// The entity that was inspected.
    pub entity: EntityId,
    /// The name of the entity, if it has one.
    pub name: Option<EntityName>,
    /// The sum of the sizes of the components whose size is known; `None`
    /// where components were not inspected.
    pub total_memory_size: Option<MemorySize>,
    /// The components of the entity; `None` where they were not inspected.
    pub components: Option<Vec<ComponentInspection>>,
    /// Where and when the entity was spawned.
    pub spawn_details: SpawnDetails,
}

impl EntityInspection {
    /// The name under which the inspected entity is displayed: the name of
    /// the inspection where it has one; else the name that its components
    /// give, if they were inspected and any of them defines names.
    pub open spec fn display_name(&self, entries: Map<u64, ComponentTypeMetadata>) -> Option<
        Seq<char>,
    > {
        match self.name {
            Some(name) => Some(name.name@),
            None => match self.components {
                Some(components) => resolved_text(candidates_of(entries, components@)),
                None => None,
            },
        }
    }

    /// Determines the name to display for the inspected entity; the caller
    /// falls back to a name such as `"Entity"` where there is none.
    pub fn resolve_name(&self, metadata_map: &HashMap<u64, ComponentTypeMetadata, FixedHasher>) -> (name:
        Option<String>)
        ensures
            match name {
                Some(text) => self.display_name(metadata_entries(*metadata_map)) == Some(text@),
                None => self.display_name(metadata_entries(*metadata_map)) is None,
            },
    {
        match &self.name {
            Some(custom_name) => Some(custom_name.name.clone()),
            None => match &self.components {
                Some(components) => resolve_from_components(components, metadata_map),
                None => None,
            },
        }
    }
}

/// Why an entity could not be inspected.
#[derive(Clone, Copy, Debug, PartialEq, Eq, Structural)]
pub enum EntityInspectionError {
    /// The entity does not exist in the store.
    EntityNotFound(EntityId),
    /// A lookup failed in a way that looking up an entity and its metadata never should.
    UnexpectedQueryError(QueryEntityError),
}

impl From<QueryEntityError> for EntityInspectionError {
    fn from(err: QueryEntityError) -> (error: Self) {
        match err {
            QueryEntityError::EntityDoesNotExist(entity) => EntityInspectionError::EntityNotFound(
                entity,
            ),
            _ => EntityInspectionError::UnexpectedQueryError(err),
        }
    }
}

impl FromSpecImpl<QueryEntityError> for EntityInspectionError {
    open spec fn obeys_from_spec() -> bool {
        true
    }

    open spec fn from_spec(err: QueryEntityError) -> Self {
        match err {
            QueryEntityError::EntityDoesNotExist(entity) => EntityInspectionError::EntityNotFound(
                entity,
            ),
            _ => EntityInspectionError::UnexpectedQueryError(err),
        }
    }
}

/// Settings for inspecting one entity.
#[derive(Clone, Copy, Debug)]
pub struct EntityInspectionSettings {
    /// Whether the components of the entity are inspected. Without them
    /// no name can be made from components.
    pub include_components: bool,
    /// The settings for the components.
    pub component_settings: ComponentInspectionSettings,
}

impl Default for EntityInspectionSettings {
    fn default() -> (settings: Self)
        ensures
            settings.include_components,
            settings.component_settings.detail_level == ComponentDetailLevel::Values,
            !settings.component_settings.full_type_names,
    {
        EntityInspectionSettings {
            include_components: true,
            component_settings: ComponentInspectionSettings::default(),
        }
    }
}

/// A filter on the names of entities.
#[derive(Clone, Debug, PartialEq, Eq)]
pub struct NameFilter {
    query: String,
    case_sensitive: bool,
}

impl NameFilter {
    /// The text that a name must hold; in lower case where case does not matter.
    pub closed spec fn query_text(&self) -> Seq<char> {
        self.query@
    }

    /// Whether case matters.
    pub closed spec fn is_case_sensitive(&self) -> bool {
        self.case_sensitive
    }

    /// Whether the filter lets the name pass: whether the name holds the
    /// text of the filter, the name taken in lower case where case does
    /// not matter.
    pub open spec fn matches_spec(&self, name: Seq<char>) -> bool {
        if self.is_case_sensitive() {
            is_substring(self.query_text(), name)
        } else {
            is_substring(self.query_text(), lowercase(name))
        }
    }

    /// A filter for names that hold `query`.
    pub fn new(query: String, case_sensitive: bool) -> (filter: Self)
        ensures
            filter.is_case_sensitive() == case_sensitive,
            filter.query_text() == (if case_sensitive {
                query@
            } else {
                lowercase(query@)
            }),
    {
        if case_sensitive {
            NameFilter { query, case_sensitive }
        } else {
            NameFilter { query: to_lowercase(query.as_str()), case_sensitive }
        }
    }

    /// Whether the filter lets the name pass.
    pub fn matches(&self, name: &str) -> (passes: bool)
        ensures
            passes == self.matches_spec(name@),
    {
        if self.case_sensitive {
            contains_text(name, self.query.as_str())
        } else {
            let lowered = to_lowercase(name);
            contains_text(lowered.as_str(), self.query.as_str())
        }
    }
}

impl From<&str> for NameFilter {
    fn from(value: &str) -> (filter: Self)
        ensures
            !filter.is_case_sensitive(),
            filter.query_text() == lowercase(value@),
    {
        NameFilter { query: to_lowercase(value), case_sensitive: false }
    }
}

impl FromSpecImpl<&str> for NameFilter {
    open spec fn obeys_from_spec() -> bool {
        false
    }

    open spec fn from_spec(value: &str) -> Self {
        arbitrary()
    }
}

impl From<String> for NameFilter {
    fn from(value: String) -> (filter: Self)
        ensures
            !filter.is_case_sensitive(),
            filter.query_text() == lowercase(value@),
    {
        NameFilter { query: to_lowercase(value.as_str()), case_sensitive: false }
    }
}

impl FromSpecImpl<String> for NameFilter {
    open spec fn obeys_from_spec() -> bool {
        false
    }

    open spec fn from_spec(value: String) -> Self {
        arbitrary()
    }
}

/// Settings for inspecting many entities at once.
#[derive(Clone, Debug)]
pub struct MultipleEntityInspectionSettings {
    /// Only entities whose explicit name passes this filter are inspected;
    /// with `None`, names do not matter.
    pub name_filter: Option<NameFilter>,
    /// Component types that an entity must have to be inspected.
    pub with_component_filter: Vec<ComponentTypeId>,
    /// Component types that an entity must not have to be inspected.
    pub without_component_filter: Vec<ComponentTypeId>,
    /// The settings for each entity.
    pub entity_settings: EntityInspectionSettings,
    /// How the entities are grouped, and so ordered.
    pub grouping_strategy: GroupingStrategy,
}

impl Default for MultipleEntityInspectionSettings {
    fn default() -> (settings: Self)
        ensures
            settings.name_filter is None,
            settings.with_component_filter@.len() == 0,
            settings.without_component_filter@.len() == 0,
            settings.entity_settings.include_components,
            settings.entity_settings.component_settings.detail_level == ComponentDetailLevel::Names,
            !settings.entity_settings.component_settings.full_type_names,
            settings.grouping_strategy == GroupingStrategy::Hierarchy,
    {
        MultipleEntityInspectionSettings {
            name_filter: None,
            with_component_filter: Vec::new(),
            without_component_filter: Vec::new(),
            entity_settings: EntityInspectionSettings {
                include_components: true,
                component_settings: ComponentInspectionSettings {
                    detail_level: ComponentDetailLevel::Names,
                    full_type_names: false,
                },
            },
            grouping_strategy: GroupingStrategy::Hierarchy,
        }
    }
}

/// Whether the filter of the settings lets the entity pass: the entity
/// exists; where there is a name filter, the entity has an explicit name
/// that passes it; the entity has every component type asked for and none
/// of those ruled out.
pub open spec fn passes_filter(store: &Store, entity: EntityId, settings: &MultipleEntityInspectionSettings) -> bool {
    &&& store.exists_spec(entity)
    &&& match settings.name_filter {
        Some(filter) => match store.name_spec(entity) {
            Some(name) => filter.matches_spec(name),
            None => false,
        },
        None => true,
    }
    &&& forall|i: int|
        0 <= i < settings.with_component_filter@.len() ==> store.components_spec(entity).contains(
            #[trigger] settings.with_component_filter@[i],
        )
    &&& forall|i: int|
        0 <= i < settings.without_component_filter@.len() ==> !store.components_spec(
            entity,
        ).contains(#[trigger] settings.without_component_filter@[i])
}

/// The predicate that holds of the entities that the filter lets pass.
pub open spec fn passing(store: &Store, settings: &MultipleEntityInspectionSettings) -> spec_fn(EntityId) -> bool {
    |entity: EntityId| passes_filter(store, entity, settings)
}

/// Whether a list of component types holds the component type.
pub fn has_component(components: &Vec<ComponentTypeId>, component: ComponentTypeId) -> (found: bool)
    ensures
        found == components@.contains(component),
{
    let mut i: usize = 0;
    while i < components.len()
        invariant
            i <= components.len(),
            forall|k: int| 0 <= k < i ==> components@[k] != component,
        decreases components.len() - i,
    {
        if components[i].0 == component.0 {
            return true;
        }
        i += 1;
    }
    false
}

/// Whether the filter of the settings lets the entity pass.
pub fn does_entity_match_inspection_filter(
    store: &Store,
    entity: EntityId,
    settings: &MultipleEntityInspectionSettings,
) -> (passes: bool)
    ensures
        passes == passes_filter(store, entity, settings),
{
    let record = match store.entity(entity) {
        Some(record) => record,
        None => {
            return false;
        },
    };
    match &settings.name_filter {
        Some(name_filter) => {
            let name_matches = match &record.name {
                Some(name) => name_filter.matches(name.as_str()),
                None => false,
            };
            if !name_matches {
                return false;
            }
        },
        None => {},
    }
    let none: Vec<ComponentTypeId> = Vec::new();
    let components: &Vec<ComponentTypeId> = match store.archetype(record.archetype) {
        Some(archetype) => &archetype.components,
        None => &none,
    };
    assert(components@ == store.components_spec(entity));
    let mut i: usize = 0;
    while i < settings.with_component_filter.len()
        invariant
            i <= settings.with_component_filter.len(),
            components@ == store.components_spec(entity),
            forall|k: int|
                0 <= k < i ==> components@.contains(#[trigger] settings.with_component_filter@[k]),
        decreases settings.with_component_filter.len() - i,
    {
        if !has_component(components, settings.with_component_filter[i]) {
            return false;
        }
        i += 1;
    }
    let mut j: usize = 0;
    while j < settings.without_component_filter.len()
        invariant
            j <= settings.without_component_filter.len(),
            components@ == store.components_spec(entity),
            forall|k: int|
                0 <= k < j ==> !components@.contains(
                    #[trigger] settings.without_component_filter@[k],
                ),
        decreases settings.without_component_filter.len() - j,
    {
        if has_component(components, settings.without_component_filter[j]) {
            return false;
        }
        j += 1;
    }
    true
}

/// Keeps, of a list of entities, those that the filter of the settings lets pass.
pub fn filter_entity_list_for_inspection(
    store: &Store,
    entities: &mut Vec<EntityId>,
    settings: &MultipleEntityInspectionSettings,
)
    ensures
        final(entities)@ == old(entities)@.filter(passing(store, settings)),
{
    let mut kept: Vec<EntityId> = Vec::new();
    let mut i: usize = 0;
    proof {
        assert(entities@.take(0) =~= Seq::<EntityId>::empty());
        reveal(Seq::filter);
    }
    while i < entities.len()
        invariant
            i <= entities.len(),
            entities@ == old(entities)@,
            kept@ == entities@.take(i as int).filter(passing(store, settings)),
        decreases entities.len() - i,
    {
        let entity = entities[i];
        proof {
            assert(entities@.take(i as int + 1) == entities@.take(i as int).push(entity));
            entities@.take(i as int).lemma_filter_push(entity, passing(store, settings));
        }
        if does_entity_match_inspection_filter(store, entity, settings) {
            kept.push(entity);
        }
        i += 1;
    }
    assert(entities@.take(entities.len() as int) == entities@);
    *entities = kept;
}

} // verus!
