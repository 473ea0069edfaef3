//! The inspections themselves: of one entity, of a batch of entities, of a
//! component, of a component type and of resources.

use vstd::prelude::*;
use vstd::string::StringExecFns;
use crate::component_inspection::{
    is_registered, is_update_of, numbers_of, registered_info, ComponentDetailLevel,
    ComponentInspection, ComponentInspectionError, ComponentInspectionSettings,
    ComponentMetadataMap, ComponentTypeInspection, ComponentTypeMetadata,
};
use crate::collections::{metadata_entries, metadata_get};
use crate::entity_grouping::{grouping_of, EntityGrouping};
use crate::entity_inspection::{
    filter_entity_list_for_inspection, has_component, passing, EntityInspection,
    EntityInspectionError, EntityInspectionSettings, MultipleEntityInspectionSettings,
};
use crate::entity_name_resolution::{resolve_name, resolved_name, EntityName, NameOrigin};
use crate::memory_size::MemorySize;
use crate::reflection_tools::{
    fetch_error_text, get_reflected_component_ref, get_reflected_resource_ref, reflected_component,
    ReflectionFetchError,
};
use crate::resource_inspection::{
    is_resource_view, unreflectable_text, ResourceInspection, ResourceInspectionError,
    ResourceInspectionSettings,
};
use crate::store::{
    copy_of, find_component_type, lemma_find_component_type, ArchetypeRecord, ComponentTypeId,
    EntityId, QueryEntityError, ResourceRecord, SpawnDetails, Store, TypeRegistration,
};

verus! {

/// `inspection` is what inspecting the component of the registered type
/// `id` of `entity` gives: the entity, the type and its name; the value as
/// reflection shows it, printed as the settings ask, and its size; where
/// only names are asked for, neither; where the type is dynamic or
/// reflection fails, a text that says so, and no size.
pub open spec fn is_component_view(
    store: &Store,
    entity: EntityId,
    id: ComponentTypeId,
    metadata: ComponentTypeMetadata,
    settings: ComponentInspectionSettings,
    inspection: ComponentInspection,
) -> bool {
    &&& inspection.entity == entity
    &&& inspection.component_id == id
    &&& inspection.name@ == registered_info(store, id.0).name@
    &&& if settings.detail_level == ComponentDetailLevel::Names {
        inspection.value is None && inspection.memory_size is None
    } else {
        match metadata.type_id {
            None => inspection.memory_size is None && inspection.value is Some
                && inspection.value->0@ == "Dynamic Type"@,
            Some(type_id) => match reflected_component(store, entity, type_id) {
                Ok(value) => inspection.memory_size == Some(MemorySize(value.size))
                    && inspection.value is Some && inspection.value->0@ == (
                if settings.full_type_names {
                    value.full_text@
                } else {
                    value.short_text@
                }),
                Err(error) => inspection.memory_size is None && inspection.value is Some
                    && exists|shown: Seq<char>|
                    inspection.value->0@ == unreflectable_text(fetch_error_text(error, shown)),
            },
        }
    }
}

/// The sum of the sizes of the components whose size is known.
pub open spec fn total_size(components: Seq<ComponentInspection>) -> nat
    decreases components.len(),
{
    if components.len() == 0 {
        0
    } else {
        total_size(components.drop_last()) + match components.last().memory_size {
            Some(size) => size.0 as nat,
            None => 0,
        }
    }
}

/// A number as a size: the number itself, or the greatest size where it is greater.
pub open spec fn saturated(n: nat) -> usize {
    if n > usize::MAX {
        usize::MAX
    } else {
        n as usize
    }
}

/// The predicate that holds of the component types that an inspection
/// with the cache `entries` can show: those in the cache that are registered.
pub open spec fn is_shown(store: &Store, entries: Map<u64, ComponentTypeMetadata>) -> spec_fn(
    ComponentTypeId,
) -> bool {
    |id: ComponentTypeId| entries.contains_key(id.0) && is_registered(store, id.0)
}

/// `inspection` is what inspecting `entity`, which exists, with the cache
/// `entries` gives: without components, neither components nor a size, and
/// the explicit name only; with them, one inspection for each component
/// type of the entity that the cache holds, in the order of the entity's
/// types, the sum of their sizes, and the name that the rules give.
pub open spec fn is_entity_view(
    store: &Store,
    entity: EntityId,
    settings: EntityInspectionSettings,
    entries: Map<u64, ComponentTypeMetadata>,
    inspection: EntityInspection,
) -> bool {
    let shown = store.components_spec(entity).filter(is_shown(store, entries));
    &&& inspection.entity == entity
    &&& store.entity_spec(entity) is Some
    &&& inspection.spawn_details.spawn_tick == store.entity_spec(entity)->0.spawn_details.spawn_tick
    &&& inspection.spawn_details.spawned_by == store.entity_spec(entity)->0.spawn_details.spawned_by
    &&& match inspection.name {
        Some(name) => resolved_name(store, entity, inspection.components, entries) == Some(
            (name.name@, name.origin),
        ),
        None => resolved_name(store, entity, inspection.components, entries) is None,
    }
    &&& if settings.include_components {
        &&& inspection.components is Some
        &&& inspection.components->0@.len() == shown.len()
        &&& forall|i: int|
            0 <= i < shown.len() ==> is_component_view(
                store,
                entity,
                shown[i],
                entries[shown[i].0],
                settings.component_settings,
                #[trigger] inspection.components->0@[i],
            )
        &&& inspection.total_memory_size == Some(
            MemorySize(saturated(total_size(inspection.components->0@))),
        )
    } else {
        inspection.components is None && inspection.total_memory_size is None
    }
}

/// `entries` is the cache for one entity: it holds the registered
/// component types of the entity, and describes each.
pub open spec fn is_entity_cache(store: &Store, entity: EntityId, entries: Map<u64, ComponentTypeMetadata>) -> bool {
    &&& forall|number: u64| #[trigger]
        entries.contains_key(number) <==> numbers_of(store.components_spec(entity)).contains(
            number,
        ) && is_registered(store, number)
    &&& forall|number: u64| #[trigger]
        entries.contains_key(number) ==> entries[number].describes(
            store,
            registered_info(store, number),
        )
}

/// How many entities belong to the archetypes that hold the component type.
pub open spec fn entities_with(archetypes: Seq<ArchetypeRecord>, id: ComponentTypeId) -> nat
    decreases archetypes.len(),
{
    if archetypes.len() == 0 {
        0
    } else {
        entities_with(archetypes.drop_last(), id) + (if archetypes.last().components@.contains(
            id,
        ) {
            archetypes.last().entity_count as nat
        } else {
            0
        })
    }
}

/// The resources that can be inspected: those whose type is registered.
pub open spec fn is_inspectable_resource(store: &Store) -> spec_fn(ResourceRecord) -> bool {
    |resource: ResourceRecord| is_registered(store, resource.id.0)
}

impl Store {
    /// Where and when the entity was spawned; fails for an entity that does not exist.
    pub fn spawn_details(&self, entity: EntityId) -> (result: Result<SpawnDetails, QueryEntityError>)
        ensures
            match result {
                Ok(details) => self.entity_spec(entity) is Some && details.spawn_tick
                    == self.entity_spec(entity)->0.spawn_details.spawn_tick && details.spawned_by
                    == self.entity_spec(entity)->0.spawn_details.spawned_by,
                Err(error) => self.entity_spec(entity) is None && error
                    == QueryEntityError::EntityDoesNotExist(entity),
            },
    {
        match self.entity(entity) {
            Some(record) => Ok(
                SpawnDetails {
                    spawned_by: match &record.spawn_details.spawned_by {
                        Some(location) => Some(location.clone()),
                        None => None,
                    },
                    spawn_tick: record.spawn_details.spawn_tick,
                },
            ),
            None => Err(QueryEntityError::EntityDoesNotExist(entity)),
        }
    }

    /// Inspects one component of an entity.
    ///
    /// Fails where no component type is registered under the identifier,
    /// and where the entity has no component of the type, as an entity
    /// that does not exist has none.
    pub fn inspect_component_by_id(
        &self,
        component_id: ComponentTypeId,
        entity: EntityId,
        metadata: &ComponentTypeMetadata,
        settings: ComponentInspectionSettings,
    ) -> (result: Result<ComponentInspection, ComponentInspectionError>)
        ensures
            match result {
                Ok(inspection) => is_registered(self, component_id.0) && self.components_spec(
                    entity,
                ).contains(component_id) && is_component_view(
                    self,
                    entity,
                    component_id,
                    *metadata,
                    settings,
                    inspection,
                ),
                Err(error) => if !is_registered(self, component_id.0) {
                    error == ComponentInspectionError::ComponentIdNotRegistered(component_id)
                } else {
                    !self.components_spec(entity).contains(component_id) && error
                        == ComponentInspectionError::ComponentNotFound(component_id)
                },
            },
    {
        assert(ComponentTypeId(component_id.0) == component_id);
        let component_info = match self.component_type(component_id) {
            Some(info) => info,
            None => {
                return Err(ComponentInspectionError::ComponentIdNotRegistered(component_id));
            },
        };
        let none: Vec<ComponentTypeId> = Vec::new();
        let components: &Vec<ComponentTypeId> = match self.entity(entity) {
            Some(record) => match self.archetype(record.archetype) {
                Some(archetype) => &archetype.components,
                None => &none,
            },
            None => &none,
        };
        assert(components@ == self.components_spec(entity));
        if !has_component(components, component_id) {
            return Err(ComponentInspectionError::ComponentNotFound(component_id));
        }
        let name = component_info.name.clone();
        let (value, memory_size) = match settings.detail_level {
            ComponentDetailLevel::Names => (None, None),
            ComponentDetailLevel::Values => match metadata.type_id {
                Some(type_id) => match get_reflected_component_ref(self, entity, type_id) {
                    Ok(reflected) => {
                        let text = if settings.full_type_names {
                            reflected.full_text.clone()
                        } else {
                            reflected.short_text.clone()
                        };
                        (Some(text), Some(MemorySize::new(reflected.size)))
                    },
                    Err(error) => (Some(unreflectable(&error)), None),
                },
                None => (Some(String::from_str("Dynamic Type")), None),
            },
        };
        Ok(ComponentInspection { entity, component_id, name, memory_size, value })
    }

    /// Inspects an entity with the metadata of a cache.
    ///
    /// Fails for an entity that does not exist. A component whose type the
    /// cache does not hold is passed over: update the cache first where
    /// every component matters.
    pub fn inspect_cached(
        &self,
        entity: EntityId,
        settings: &EntityInspectionSettings,
        metadata_map: &ComponentMetadataMap,
    ) -> (result: Result<EntityInspection, EntityInspectionError>)
        ensures
            match result {
                Ok(inspection) => self.exists_spec(entity) && is_entity_view(
                    self,
                    entity,
                    *settings,
                    metadata_map.entries(),
                    inspection,
                ),
                Err(error) => !self.exists_spec(entity) && error
                    == EntityInspectionError::EntityNotFound(entity),
            },
    {
        let spawn_details = match self.spawn_details(entity) {
            Ok(details) => details,
            Err(error) => {
                return Err(EntityInspectionError::from(error));
            },
        };
        let ghost entries = metadata_map.entries();
        let (components, total_memory_size) = if settings.include_components {
            let none: Vec<ComponentTypeId> = Vec::new();
            let types: &Vec<ComponentTypeId> = match self.entity(entity) {
                Some(record) => match self.archetype(record.archetype) {
                    Some(archetype) => &archetype.components,
                    None => &none,
                },
                None => &none,
            };
            assert(types@ == self.components_spec(entity));
            let mut components: Vec<ComponentInspection> = Vec::new();
            let mut total_bytes: usize = 0;
            let mut i: usize = 0;
            proof {
                assert(types@.take(0) =~= Seq::<ComponentTypeId>::empty());
                reveal(Seq::filter);
            }
            while i < types.len()
                invariant
                    i <= types.len(),
                    self.exists_spec(entity),
                    entries == metadata_map.entries(),
                    types@ == self.components_spec(entity),
                    components@.len() == types@.take(i as int).filter(
                        is_shown(self, entries),
                    ).len(),
                    forall|k: int|
                        0 <= k < components@.len() ==> is_component_view(
                            self,
                            entity,
                            types@.take(i as int).filter(is_shown(self, entries))[k],
                            entries[types@.take(i as int).filter(is_shown(self, entries))[k].0],
                            settings.component_settings,
                            #[trigger] components@[k],
                        ),
                    total_bytes == saturated(total_size(components@)),
                decreases types.len() - i,
            {
                let component_id = types[i];
                let ghost front = types@.take(i as int);
                let ghost before = components@;
                proof {
                    assert(types@.take(i as int + 1) == front.push(component_id));
                    front.lemma_filter_push(component_id, is_shown(self, entries));
                    assert(types@[i as int] == component_id);
                    assert(self.components_spec(entity).contains(component_id));
                }
                match metadata_get(&metadata_map.map, component_id.0) {
                    Some(metadata) => {
                        match self.inspect_component_by_id(
                            component_id,
                            entity,
                            metadata,
                            settings.component_settings,
                        ) {
                            Ok(inspection) => {
                                let size: usize = match &inspection.memory_size {
                                    Some(size) => size.as_bytes(),
                                    None => 0,
                                };
                                total_bytes = total_bytes.saturating_add(size);
                                components.push(inspection);
                                proof {
                                    assert(components@.drop_last() == before);
                                    assert(components@.last() == inspection);
                                }
                            },
                            Err(_) => {},
                        }
                    },
                    None => {},
                }
                i += 1;
            }
            assert(types@.take(types.len() as int) == types@);
            (Some(components), Some(MemorySize::new(total_bytes)))
        } else {
            (None, None)
        };
        let name = resolve_name(self, entity, &components, &metadata_map.map);
        Ok(EntityInspection { entity, name, total_memory_size, components, spawn_details })
    }

    /// Inspects an entity, with metadata gathered for its component types alone.
    pub fn inspect(&self, entity: EntityId, settings: EntityInspectionSettings) -> (result: Result<
        EntityInspection,
        EntityInspectionError,
    >)
        ensures
            match result {
                Ok(inspection) => self.exists_spec(entity) && exists|
                    entries: Map<u64, ComponentTypeMetadata>,
                |
                    is_entity_cache(self, entity, entries) && #[trigger] is_entity_view(
                        self,
                        entity,
                        settings,
                        entries,
                        inspection,
                    ),
                Err(error) => !self.exists_spec(entity) && error
                    == EntityInspectionError::EntityNotFound(entity),
            },
    {
        let metadata_map = ComponentMetadataMap::for_entity(self, entity);
        let result = self.inspect_cached(entity, &settings, &metadata_map);
        proof {
            if result is Ok {
                assert(is_entity_cache(self, entity, metadata_map.entries()));
                assert(is_entity_view(
                    self,
                    entity,
                    settings,
                    metadata_map.entries(),
                    result->Ok_0,
                ));
            }
        }
        result
    }

    /// Inspects many entities.
    ///
    /// The cache is updated once, and what it held is kept. The entities
    /// are grouped in the way of the settings; the flattened grouping, less
    /// what the filter of the settings holds back, is the order of the
    /// results. Every result is the inspection of the entity at its
    /// position: entities that do not exist were passed over by the
    /// grouping, so that no result is an error.
    pub fn inspect_multiple(
        &self,
        entities: &Vec<EntityId>,
        settings: MultipleEntityInspectionSettings,
        metadata_map: &mut ComponentMetadataMap,
    ) -> (inspections: Vec<Result<EntityInspection, EntityInspectionError>>)
        ensures
            is_update_of(final(metadata_map).entries(), old(metadata_map).entries(), self),
            inspections@.len() == grouping_of(
                self,
                entities@,
                settings.grouping_strategy,
            ).flatten().filter(passing(self, &settings)).len(),
            forall|i: int|
                0 <= i < inspections@.len() ==> (#[trigger] inspections@[i]) is Ok
                    && is_entity_view(
                    self,
                    grouping_of(self, entities@, settings.grouping_strategy).flatten().filter(
                        passing(self, &settings),
                    )[i],
                    settings.entity_settings,
                    final(metadata_map).entries(),
                    inspections@[i]->Ok_0,
                ),
    {
        metadata_map.update(self);
        let entity_grouping = EntityGrouping::generate(self, entities, settings.grouping_strategy);
        let mut entity_list = entity_grouping.flatten();
        let ghost flat = entity_list@;
        filter_entity_list_for_inspection(self, &mut entity_list, &settings);
        let mut inspections: Vec<Result<EntityInspection, EntityInspectionError>> = Vec::new();
        let mut i: usize = 0;
        while i < entity_list.len()
            invariant
                i <= entity_list.len(),
                inspections@.len() == i,
                entity_list@ == flat.filter(passing(self, &settings)),
                forall|k: int|
                    0 <= k < i ==> (#[trigger] inspections@[k]) is Ok && is_entity_view(
                        self,
                        entity_list@[k],
                        settings.entity_settings,
                        metadata_map.entries(),
                        inspections@[k]->Ok_0,
                    ),
            decreases entity_list.len() - i,
        {
            let entity = entity_list[i];
            proof {
                flat.lemma_filter_pred(passing(self, &settings), i as int);
                assert(self.exists_spec(entity));
            }
            let inspection = self.inspect_cached(entity, &settings.entity_settings, metadata_map);
            inspections.push(inspection);
            i += 1;
        }
        inspections
    }

    /// Inspects the resource of the given type.
    ///
    /// Fails where no type is registered under the identifier.
    pub fn inspect_resource_by_id(&self, component_id: ComponentTypeId, settings: ResourceInspectionSettings) -> (result:
        Result<ResourceInspection, ResourceInspectionError>)
        ensures
            match result {
                Ok(inspection) => is_registered(self, component_id.0) && is_resource_view(
                    self,
                    component_id,
                    settings,
                    inspection,
                ),
                Err(error) => !is_registered(self, component_id.0) && error
                    == ResourceInspectionError::ResourceNotFound(component_id),
            },
    {
        assert(ComponentTypeId(component_id.0) == component_id);
        let component_info = match self.component_type(component_id) {
            Some(info) => info,
            None => {
                return Err(ResourceInspectionError::ResourceNotFound(component_id));
            },
        };
        let name = component_info.name.clone();
        let type_id = component_info.type_id;
        let type_registration = match type_id {
            Some(id) => match self.type_registration(id) {
                Some(registration) => Some(
                    TypeRegistration {
                        type_id: registration.type_id,
                        description: registration.description.clone(),
                        reflects_component: registration.reflects_component,
                        reflects_resource: registration.reflects_resource,
                    },
                ),
                None => None,
            },
            None => None,
        };
        let (value, memory_size) = match type_id {
            Some(id) => match get_reflected_resource_ref(self, id) {
                Ok(reflected) => {
                    let text = if settings.full_type_names {
                        reflected.full_text.clone()
                    } else {
                        reflected.short_text.clone()
                    };
                    (text, Some(MemorySize::new(reflected.size)))
                },
                Err(error) => (unreflectable(&error), None),
            },
            None => (String::from_str("Dynamic Type"), None),
        };
        Ok(
            ResourceInspection {
                component_id,
                name,
                value,
                type_id,
                memory_size,
                type_registration,
            },
        )
    }

    /// Inspects every resource of the store whose type is registered, in
    /// the order of the resources.
    pub fn inspect_all_resources(&self, settings: ResourceInspectionSettings) -> (inspections: Vec<
        ResourceInspection,
    >)
        ensures
            inspections@.len() == self.resources@.filter(is_inspectable_resource(self)).len(),
            forall|i: int|
                0 <= i < inspections@.len() ==> is_resource_view(
                    self,
                    self.resources@.filter(is_inspectable_resource(self))[i].id,
                    settings,
                    #[trigger] inspections@[i],
                ),
    {
        let mut inspections: Vec<ResourceInspection> = Vec::new();
        let mut i: usize = 0;
        proof {
            assert(self.resources@.take(0) =~= Seq::<ResourceRecord>::empty());
            reveal(Seq::filter);
        }
        while i < self.resources.len()
            invariant
                i <= self.resources.len(),
                inspections@.len() == self.resources@.take(i as int).filter(
                    is_inspectable_resource(self),
                ).len(),
                forall|k: int|
                    0 <= k < inspections@.len() ==> is_resource_view(
                        self,
                        self.resources@.take(i as int).filter(is_inspectable_resource(self))[k].id,
                        settings,
                        #[trigger] inspections@[k],
                    ),
            decreases self.resources.len() - i,
        {
            let component_id = self.resources[i].id;
            proof {
                assert(self.resources@.take(i as int + 1) == self.resources@.take(i as int).push(
                    self.resources@[i as int],
                ));
                self.resources@.take(i as int).lemma_filter_push(
                    self.resources@[i as int],
                    is_inspectable_resource(self),
                );
            }
            match self.inspect_resource_by_id(component_id, settings) {
                Ok(inspection) => {
                    inspections.push(inspection);
                },
                Err(_) => {},
            }
            i += 1;
        }
        assert(self.resources@.take(self.resources.len() as int) == self.resources@);
        inspections
    }

    /// Inspects a component type: its metadata, and how many entities have
    /// a component of the type.
    ///
    /// Fails where no component type is registered under the identifier.
    pub fn inspect_component_type_by_id(&self, component_id: ComponentTypeId) -> (result: Result<
        ComponentTypeInspection,
        ComponentInspectionError,
    >)
        ensures
            match result {
                Ok(inspection) => is_registered(self, component_id.0)
                    && inspection.metadata.describes(self, registered_info(self, component_id.0))
                    && inspection.entity_count == saturated(
                    entities_with(self.archetypes@, component_id),
                ),
                Err(error) => !is_registered(self, component_id.0) && error
                    == ComponentInspectionError::ComponentIdNotRegistered(component_id),
            },
    {
        let metadata = match ComponentTypeMetadata::new(self, component_id) {
            Ok(metadata) => metadata,
            Err(error) => {
                return Err(error);
            },
        };
        let mut entity_count: usize = 0;
        let mut i: usize = 0;
        proof {
            assert(self.archetypes@.take(0) =~= Seq::<ArchetypeRecord>::empty());
        }
        while i < self.archetypes.len()
            invariant
                i <= self.archetypes.len(),
                entity_count == saturated(entities_with(self.archetypes@.take(i as int), component_id)),
            decreases self.archetypes.len() - i,
        {
            proof {
                assert(self.archetypes@.take(i as int + 1).drop_last() == self.archetypes@.take(
                    i as int,
                ));
                assert(self.archetypes@.take(i as int + 1).last() == self.archetypes@[i as int]);
            }
            if has_component(&self.archetypes[i].components, component_id) {
                entity_count = entity_count.saturating_add(self.archetypes[i].entity_count);
            }
            i += 1;
        }
        assert(self.archetypes@.take(self.archetypes.len() as int) == self.archetypes@);
        Ok(ComponentTypeInspection { entity_count, metadata })
    }
}

/// The text that stands for a value that reflection could not reach.
pub fn unreflectable(error: &ReflectionFetchError) -> (text: String)
    ensures
        exists|shown: Seq<char>| text@ == unreflectable_text(fetch_error_text(*error, shown)),
{
    let message = error.message();
    let mut text = String::from_str("<Unreflectable: ");
    text.append(message.as_str());
    text.append(">");
    text
}

} // verus!
