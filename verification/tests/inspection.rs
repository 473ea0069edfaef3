use feathers_inspector::component_inspection::{
    ComponentDetailLevel, ComponentInspectionError, ComponentInspectionSettings,
    ComponentMetadataMap, ComponentTypeMetadata,
};
use feathers_inspector::entity_grouping::GroupingStrategy;
use feathers_inspector::entity_inspection::{
    does_entity_match_inspection_filter, filter_entity_list_for_inspection,
    EntityInspectionError, EntityInspectionSettings, MultipleEntityInspectionSettings, NameFilter,
};
use feathers_inspector::entity_name_resolution::{NameOrigin, NameResolutionRegistry};
use feathers_inspector::memory_size::MemorySize;
use feathers_inspector::reflection_tools::{
    get_reflected_component_ref, get_reflected_resource_ref, ReflectionFetchError,
};
use feathers_inspector::resource_inspection::{ResourceInspectionError, ResourceInspectionSettings};
use feathers_inspector::store::{
    ArchetypeId, ArchetypeRecord, ComponentTypeId, ComponentTypeInfo, EntityId, EntityRecord,
    QueryEntityError, ReflectedValue, ResourceRecord, SpawnDetails, StorageType, Store,
    TypeRegistration,
};
use std::any::TypeId;

struct Health;
struct Speed;
struct Hidden;
struct Clock;

fn info(id: u64, name: &str, type_id: Option<TypeId>, size: usize) -> ComponentTypeInfo {
    ComponentTypeInfo {
        id: ComponentTypeId(id),
        name: name.to_string(),
        type_id,
        layout_size: size,
        mutable: true,
        storage_type: StorageType::Table,
        is_send_and_sync: true,
        required_components: Vec::new(),
    }
}

fn value(type_id: TypeId, short: &str, full: &str, size: usize) -> ReflectedValue {
    ReflectedValue {
        type_id,
        short_text: short.to_string(),
        full_text: full.to_string(),
        size,
    }
}

fn registration(type_id: TypeId, component: bool, resource: bool) -> TypeRegistration {
    TypeRegistration {
        type_id,
        description: String::new(),
        reflects_component: component,
        reflects_resource: resource,
    }
}

fn spawn(index: u32, name: Option<&str>, archetype: u64, reflected: Vec<ReflectedValue>) -> EntityRecord {
    EntityRecord {
        id: EntityId::new(index, 0),
        name: name.map(|n| n.to_string()),
        parent: None,
        archetype: ArchetypeId(archetype),
        reflected,
        spawn_details: SpawnDetails { spawned_by: Some("main.rs:1".to_string()), spawn_tick: index + 10 },
    }
}

fn world() -> Store {
    let mut name_registry = NameResolutionRegistry::new();
    name_registry.register_name_defining_type::<Health>(0);
    Store {
        entities: vec![
            spawn(
                0,
                None,
                1,
                vec![
                    value(TypeId::of::<Health>(), "Health(3)", "game::Health(3)", 4),
                    value(TypeId::of::<Speed>(), "Speed(2)", "game::Speed(2)", 8),
                ],
            ),
            spawn(1, Some("Boss"), 2, Vec::new()),
            spawn(2, None, 3, Vec::new()),
        ],
        archetypes: vec![
            ArchetypeRecord {
                id: ArchetypeId(1),
                components: vec![ComponentTypeId(1), ComponentTypeId(2)],
                entity_count: 1,
            },
            ArchetypeRecord {
                id: ArchetypeId(2),
                components: vec![ComponentTypeId(1), ComponentTypeId(3), ComponentTypeId(4)],
                entity_count: 5,
            },
            ArchetypeRecord { id: ArchetypeId(3), components: vec![ComponentTypeId(2)], entity_count: 2 },
        ],
        component_types: vec![
            info(1, "game::Health", Some(TypeId::of::<Health>()), 4),
            info(2, "game::Speed", Some(TypeId::of::<Speed>()), 8),
            info(3, "game::Hidden", Some(TypeId::of::<Hidden>()), 2),
            info(4, "game::Scripted", None, 16),
            info(5, "game::Clock", Some(TypeId::of::<Clock>()), 8),
            info(6, "game::Unreached", Some(TypeId::of::<Hidden>()), 8),
        ],
        type_registry: vec![
            registration(TypeId::of::<Health>(), true, false),
            registration(TypeId::of::<Speed>(), true, false),
            registration(TypeId::of::<Clock>(), false, true),
        ],
        name_registry,
        resources: vec![
            ResourceRecord {
                id: ComponentTypeId(5),
                is_send: true,
                reflected: Some(value(TypeId::of::<Clock>(), "Clock(9)", "game::Clock(9)", 8)),
            },
            ResourceRecord { id: ComponentTypeId(4), is_send: true, reflected: None },
            ResourceRecord { id: ComponentTypeId(70), is_send: false, reflected: None },
        ],
    }
}

fn values() -> ComponentInspectionSettings {
    ComponentInspectionSettings { detail_level: ComponentDetailLevel::Values, full_type_names: false }
}

#[test]
fn defaults() {
    let component = ComponentInspectionSettings::default();
    assert_eq!(component.detail_level, ComponentDetailLevel::Values);
    assert!(!component.full_type_names);
    assert_eq!(ComponentDetailLevel::default(), ComponentDetailLevel::Values);
    let entity = EntityInspectionSettings::default();
    assert!(entity.include_components);
    assert_eq!(entity.component_settings.detail_level, ComponentDetailLevel::Values);
    let many = MultipleEntityInspectionSettings::default();
    assert!(many.name_filter.is_none());
    assert!(many.with_component_filter.is_empty());
    assert!(many.without_component_filter.is_empty());
    assert!(many.entity_settings.include_components);
    assert_eq!(many.entity_settings.component_settings.detail_level, ComponentDetailLevel::Names);
    assert_eq!(many.grouping_strategy, GroupingStrategy::Hierarchy);
    assert_eq!(GroupingStrategy::default(), GroupingStrategy::Hierarchy);
    assert!(!ResourceInspectionSettings::default().full_type_names);
}

#[test]
fn inspecting_a_missing_entity_fails() {
    let world = world();
    let result = world.inspect(EntityId::new(7, 0), EntityInspectionSettings::default());
    assert_eq!(result.unwrap_err(), EntityInspectionError::EntityNotFound(EntityId::new(7, 0)));
    let wrong_generation = world.inspect(EntityId::new(0, 1), EntityInspectionSettings::default());
    assert_eq!(
        wrong_generation.unwrap_err(),
        EntityInspectionError::EntityNotFound(EntityId::new(0, 1))
    );
}

#[test]
fn errors_of_lookups_become_inspection_errors() {
    let entity = EntityId::new(1, 0);
    assert_eq!(
        EntityInspectionError::from(QueryEntityError::EntityDoesNotExist(entity)),
        EntityInspectionError::EntityNotFound(entity)
    );
    assert_eq!(
        EntityInspectionError::from(QueryEntityError::QueryDoesNotMatch(entity)),
        EntityInspectionError::UnexpectedQueryError(QueryEntityError::QueryDoesNotMatch(entity))
    );
    assert_eq!(
        EntityInspectionError::from(QueryEntityError::AliasedMutability(entity)),
        EntityInspectionError::UnexpectedQueryError(QueryEntityError::AliasedMutability(entity))
    );
}

#[test]
fn inspection_with_values_sums_the_sizes() {
    let world = world();
    let inspection = world.inspect(EntityId::new(0, 0), EntityInspectionSettings::default()).unwrap();
    assert_eq!(inspection.entity, EntityId::new(0, 0));
    assert_eq!(inspection.total_memory_size, Some(MemorySize::new(12)));
    assert_eq!(inspection.spawn_details.spawn_tick, 10);
    assert_eq!(inspection.spawn_details.spawned_by.as_deref(), Some("main.rs:1"));
    let components = inspection.components.unwrap();
    assert_eq!(components.len(), 2);
    assert_eq!(components[0].component_id, ComponentTypeId(1));
    assert_eq!(components[0].name, "game::Health");
    assert_eq!(components[0].value.as_deref(), Some("Health(3)"));
    assert_eq!(components[0].memory_size, Some(MemorySize::new(4)));
    assert_eq!(components[1].value.as_deref(), Some("Speed(2)"));
    let name = inspection.name.unwrap();
    assert_eq!(name.name, "Health");
    assert_eq!(name.origin, NameOrigin::Resolved);
}

#[test]
fn inspection_without_components() {
    let world = world();
    let settings = EntityInspectionSettings { include_components: false, component_settings: values() };
    let unnamed = world.inspect(EntityId::new(0, 0), settings).unwrap();
    assert!(unnamed.components.is_none());
    assert!(unnamed.total_memory_size.is_none());
    assert!(unnamed.name.is_none());
    let named = world.inspect(EntityId::new(1, 0), settings).unwrap();
    assert_eq!(named.name.unwrap().name, "Boss");
}

#[test]
fn names_only_has_neither_value_nor_size() {
    let world = world();
    let settings = EntityInspectionSettings {
        include_components: true,
        component_settings: ComponentInspectionSettings {
            detail_level: ComponentDetailLevel::Names,
            full_type_names: false,
        },
    };
    let inspection = world.inspect(EntityId::new(0, 0), settings).unwrap();
    assert_eq!(inspection.total_memory_size, Some(MemorySize::new(0)));
    let components = inspection.components.unwrap();
    assert_eq!(components.len(), 2);
    assert!(components.iter().all(|c| c.value.is_none() && c.memory_size.is_none()));
}

#[test]
fn unreflectable_and_dynamic_components_get_a_placeholder() {
    let world = world();
    let inspection = world.inspect(EntityId::new(1, 0), EntityInspectionSettings::default()).unwrap();
    assert_eq!(inspection.total_memory_size, Some(MemorySize::new(0)));
    let components = inspection.components.unwrap();
    assert_eq!(components.len(), 3);
    let missing_value = components[0].value.clone().unwrap();
    assert!(missing_value.starts_with("<Unreflectable: Could not retrieve reflected data for type "));
    assert!(missing_value.ends_with(">"));
    assert!(components[0].memory_size.is_none());
    let unregistered = components[1].value.clone().unwrap();
    assert!(unregistered.starts_with("<Unreflectable: Type "));
    assert!(unregistered.ends_with(" not registered in type registry>"));
    assert_eq!(components[2].value.as_deref(), Some("Dynamic Type"));
    assert!(components[2].memory_size.is_none());
    assert_eq!(inspection.name.unwrap().origin, NameOrigin::Custom);
}

#[test]
fn full_type_names_pick_the_full_text() {
    let world = world();
    let metadata = ComponentTypeMetadata::new(&world, ComponentTypeId(2)).unwrap();
    let settings = ComponentInspectionSettings {
        detail_level: ComponentDetailLevel::Values,
        full_type_names: true,
    };
    let inspection = world
        .inspect_component_by_id(ComponentTypeId(2), EntityId::new(0, 0), &metadata, settings)
        .unwrap();
    assert_eq!(inspection.value.as_deref(), Some("game::Speed(2)"));
    assert_eq!(inspection.memory_size, Some(MemorySize::new(8)));
    assert_eq!(inspection.entity, EntityId::new(0, 0));
}

#[test]
fn inspecting_a_component_that_is_not_there_fails() {
    let world = world();
    let metadata = ComponentTypeMetadata::new(&world, ComponentTypeId(3)).unwrap();
    let absent = world.inspect_component_by_id(ComponentTypeId(3), EntityId::new(0, 0), &metadata, values());
    assert!(matches!(
        absent,
        Err(ComponentInspectionError::ComponentNotFound(ComponentTypeId(3)))
    ));
    let unknown = world.inspect_component_by_id(ComponentTypeId(88), EntityId::new(0, 0), &metadata, values());
    assert!(matches!(
        unknown,
        Err(ComponentInspectionError::ComponentIdNotRegistered(ComponentTypeId(88)))
    ));
}

#[test]
fn a_component_of_an_entity_that_does_not_exist_is_not_found() {
    let world = world();
    let metadata = ComponentTypeMetadata::new(&world, ComponentTypeId(1)).unwrap();
    let gone = EntityId::new(40, 0);
    let result = world.inspect_component_by_id(ComponentTypeId(1), gone, &metadata, values());
    assert!(matches!(
        result,
        Err(ComponentInspectionError::ComponentNotFound(ComponentTypeId(1)))
    ));
    assert!(matches!(
        get_reflected_component_ref(&world, gone, TypeId::of::<Health>()),
        Err(ReflectionFetchError::ReflectionRetrievalFailed(_))
    ));
    assert!(matches!(
        get_reflected_component_ref(&world, gone, TypeId::of::<Hidden>()),
        Err(ReflectionFetchError::NotRegistered(_))
    ));
}

#[test]
fn a_component_missing_from_the_cache_is_passed_over() {
    let world = world();
    let mut cache = ComponentMetadataMap::empty();
    let settings = EntityInspectionSettings::default();
    let bare = world.inspect_cached(EntityId::new(0, 0), &settings, &cache).unwrap();
    assert_eq!(bare.components.unwrap().len(), 0);
    assert_eq!(bare.total_memory_size, Some(MemorySize::new(0)));
    assert!(bare.name.is_none());
    cache.update(&world);
    let full = world.inspect_cached(EntityId::new(0, 0), &settings, &cache).unwrap();
    assert_eq!(full.components.unwrap().len(), 2);
}

#[test]
fn reflection_errors() {
    let world = world();
    let entity = EntityId::new(0, 0);
    let found = get_reflected_component_ref(&world, entity, TypeId::of::<Speed>()).unwrap();
    assert_eq!(found.size, 8);
    assert!(matches!(
        get_reflected_component_ref(&world, entity, TypeId::of::<Hidden>()),
        Err(ReflectionFetchError::NotRegistered(_))
    ));
    assert!(matches!(
        get_reflected_component_ref(&world, entity, TypeId::of::<Clock>()),
        Err(ReflectionFetchError::MissingReflectTrait(_))
    ));
    assert!(matches!(
        get_reflected_component_ref(&world, EntityId::new(1, 0), TypeId::of::<Health>()),
        Err(ReflectionFetchError::ReflectionRetrievalFailed(_))
    ));
    assert_eq!(get_reflected_resource_ref(&world, TypeId::of::<Clock>()).unwrap().short_text, "Clock(9)");
    assert!(matches!(
        get_reflected_resource_ref(&world, TypeId::of::<Health>()),
        Err(ReflectionFetchError::MissingReflectTrait(_))
    ));
    let error = ReflectionFetchError::MissingReflectTrait(TypeId::of::<Clock>());
    assert_eq!(error.describe("T"), "Type T does not implement required reflection trait");
    assert_eq!(error.type_id(), TypeId::of::<Clock>());
    let message = ReflectionFetchError::NotRegistered(TypeId::of::<Clock>()).message();
    assert!(message.starts_with("Type ") && message.ends_with(" not registered in type registry"));
    assert!(message.len() > "Type  not registered in type registry".len());
}

#[test]
fn resources() {
    let world = world();
    let settings = ResourceInspectionSettings { full_type_names: true };
    let clock = world.inspect_resource_by_id(ComponentTypeId(5), settings).unwrap();
    assert_eq!(clock.name, "game::Clock");
    assert_eq!(clock.value, "game::Clock(9)");
    assert_eq!(clock.memory_size, Some(MemorySize::new(8)));
    assert_eq!(clock.type_id, Some(TypeId::of::<Clock>()));
    assert!(clock.type_registration.unwrap().reflects_resource);
    let dynamic = world.inspect_resource_by_id(ComponentTypeId(4), settings).unwrap();
    assert_eq!(dynamic.value, "Dynamic Type");
    assert!(dynamic.memory_size.is_none());
    let unreached = world.inspect_resource_by_id(ComponentTypeId(6), settings).unwrap();
    assert!(unreached.value.starts_with("<Unreflectable: Type "));
    assert!(matches!(
        world.inspect_resource_by_id(ComponentTypeId(70), settings),
        Err(ResourceInspectionError::ResourceNotFound(ComponentTypeId(70)))
    ));
    let all = world.inspect_all_resources(ResourceInspectionSettings::default());
    assert_eq!(all.len(), 2);
    assert_eq!(all[0].value, "Clock(9)");
    assert_eq!(all[1].component_id, ComponentTypeId(4));
}

#[test]
fn component_type_inspection_counts_entities() {
    let world = world();
    let health = world.inspect_component_type_by_id(ComponentTypeId(1)).unwrap();
    assert_eq!(health.entity_count, 6);
    assert_eq!(health.metadata.name, "game::Health");
    let clock = world.inspect_component_type_by_id(ComponentTypeId(5)).unwrap();
    assert_eq!(clock.entity_count, 0);
    assert!(matches!(
        world.inspect_component_type_by_id(ComponentTypeId(42)),
        Err(ComponentInspectionError::ComponentIdNotRegistered(ComponentTypeId(42)))
    ));
}

#[test]
fn filter_by_name_and_components() {
    let world = world();
    let mut settings = MultipleEntityInspectionSettings::default();
    let all = vec![EntityId::new(0, 0), EntityId::new(1, 0), EntityId::new(2, 0), EntityId::new(3, 0)];

    settings.name_filter = Some(NameFilter::from("bo"));
    let mut list = all.clone();
    filter_entity_list_for_inspection(&world, &mut list, &settings);
    assert_eq!(list, vec![EntityId::new(1, 0)]);

    settings.name_filter = None;
    settings.with_component_filter = vec![ComponentTypeId(1)];
    let mut list = all.clone();
    filter_entity_list_for_inspection(&world, &mut list, &settings);
    assert_eq!(list, vec![EntityId::new(0, 0), EntityId::new(1, 0)]);

    settings.without_component_filter = vec![ComponentTypeId(4)];
    let mut list = all.clone();
    filter_entity_list_for_inspection(&world, &mut list, &settings);
    assert_eq!(list, vec![EntityId::new(0, 0)]);

    settings.with_component_filter = Vec::new();
    settings.without_component_filter = Vec::new();
    assert!(does_entity_match_inspection_filter(&world, EntityId::new(2, 0), &settings));
    assert!(!does_entity_match_inspection_filter(&world, EntityId::new(3, 0), &settings));
}

#[test]
fn a_batch_passes_over_a_despawned_entity() {
    let world = world();
    let mut cache = ComponentMetadataMap::empty();
    let gone = EntityId::new(8, 0);
    let entities = vec![EntityId::new(2, 0), gone, EntityId::new(0, 0), EntityId::new(2, 0), EntityId::new(1, 0)];
    let results = world.inspect_multiple(&entities, MultipleEntityInspectionSettings::default(), &mut cache);
    assert_eq!(results.len(), 3);
    assert!(results.iter().all(|result| result.is_ok()));
    let order: Vec<EntityId> = results.iter().map(|result| result.as_ref().unwrap().entity).collect();
    assert_eq!(order, vec![EntityId::new(1, 0), EntityId::new(0, 0), EntityId::new(2, 0)]);
    assert_eq!(cache.map.len(), 6);
    let first = results[0].as_ref().unwrap();
    assert_eq!(first.components.as_ref().unwrap().len(), 3);
    assert!(first.components.as_ref().unwrap()[0].value.is_none());
}

#[test]
fn a_batch_by_similarity_keeps_the_cache_entries() {
    let mut world = world();
    let mut cache = ComponentMetadataMap::generate(&world);
    world.component_types[0].layout_size = 400;
    let mut settings = MultipleEntityInspectionSettings::default();
    settings.grouping_strategy = GroupingStrategy::ArchetypeSimilarity;
    let entities = vec![EntityId::new(2, 0), EntityId::new(1, 0), EntityId::new(0, 0)];
    let results = world.inspect_multiple(&entities, settings, &mut cache);
    let order: Vec<EntityId> = results.iter().map(|result| result.as_ref().unwrap().entity).collect();
    assert_eq!(order, vec![EntityId::new(1, 0), EntityId::new(0, 0), EntityId::new(2, 0)]);
    assert_eq!(cache.map.get(&1).unwrap().memory_size, MemorySize::new(4));
}
