use feathers_inspector::component_inspection::{
    ComponentInspectionError, ComponentMetadataMap, ComponentTypeMetadata,
};
use feathers_inspector::entity_name_resolution::NameResolutionRegistry;
use feathers_inspector::memory_size::MemorySize;
use feathers_inspector::store::{
    ArchetypeId, ArchetypeRecord, ComponentTypeId, ComponentTypeInfo, EntityId, EntityRecord,
    SpawnDetails, StorageType, Store, TypeRegistration,
};
use std::any::TypeId;

struct Player;
struct Enemy;

fn info(id: u64, name: &str, type_id: Option<TypeId>, size: usize) -> ComponentTypeInfo {
    ComponentTypeInfo {
        id: ComponentTypeId(id),
        name: name.to_string(),
        type_id,
        layout_size: size,
        mutable: true,
        storage_type: StorageType::Table,
        is_send_and_sync: true,
        required_components: vec![ComponentTypeId(0)],
    }
}

fn world() -> Store {
    let mut name_registry = NameResolutionRegistry::new();
    name_registry.register_name_defining_type::<Player>(0);
    name_registry.register_name_defining_type_by_type_id(TypeId::of::<Enemy>(), -10);
    name_registry.register_name_defining_type::<u8>(-20);
    name_registry.unregister_name_defining_type::<u8>();
    Store {
        entities: vec![EntityRecord {
            id: EntityId::new(0, 0),
            name: None,
            parent: None,
            archetype: ArchetypeId(4),
            reflected: Vec::new(),
            spawn_details: SpawnDetails { spawned_by: None, spawn_tick: 3 },
        }],
        archetypes: vec![ArchetypeRecord {
            id: ArchetypeId(4),
            components: vec![ComponentTypeId(2), ComponentTypeId(77)],
            entity_count: 1,
        }],
        component_types: vec![
            info(1, "game::Player", Some(TypeId::of::<Player>()), 8),
            info(2, "game::Enemy", Some(TypeId::of::<Enemy>()), 16),
            info(3, "game::Dynamic", None, 4),
            info(4, "core::u8", Some(TypeId::of::<u8>()), 1),
        ],
        type_registry: vec![TypeRegistration {
            type_id: TypeId::of::<Enemy>(),
            description: "Struct Enemy".to_string(),
            reflects_component: true,
            reflects_resource: false,
        }],
        name_registry,
        resources: Vec::new(),
    }
}

#[test]
fn metadata_holds_what_the_store_knows() {
    let world = world();
    let metadata = ComponentTypeMetadata::new(&world, ComponentTypeId(2)).unwrap();
    assert_eq!(metadata.component_id, ComponentTypeId(2));
    assert_eq!(metadata.name, "game::Enemy");
    assert_eq!(metadata.type_id, Some(TypeId::of::<Enemy>()));
    assert_eq!(metadata.memory_size, MemorySize::new(16));
    assert_eq!(metadata.name_definition_priority, Some(-10));
    assert!(metadata.mutable);
    assert_eq!(metadata.storage_type, StorageType::Table);
    assert!(metadata.is_send_and_sync);
    assert_eq!(metadata.required_components, vec![ComponentTypeId(0)]);
    let registration = metadata.type_registration.unwrap();
    assert_eq!(registration.description, "Struct Enemy");
    assert!(registration.reflects_component);
}

#[test]
fn metadata_of_a_type_without_registration_or_priority() {
    let world = world();
    let dynamic = ComponentTypeMetadata::new(&world, ComponentTypeId(3)).unwrap();
    assert_eq!(dynamic.type_id, None);
    assert_eq!(dynamic.name_definition_priority, None);
    assert!(dynamic.type_registration.is_none());
    let unregistered = ComponentTypeMetadata::new(&world, ComponentTypeId(4)).unwrap();
    assert_eq!(unregistered.name_definition_priority, None);
    assert!(unregistered.type_registration.is_none());
    let player = ComponentTypeMetadata::new(&world, ComponentTypeId(1)).unwrap();
    assert_eq!(player.name_definition_priority, Some(0));
}

#[test]
fn metadata_of_an_unknown_type_fails() {
    let world = world();
    let result = ComponentTypeMetadata::new(&world, ComponentTypeId(99));
    assert!(matches!(
        result,
        Err(ComponentInspectionError::ComponentIdNotRegistered(ComponentTypeId(99)))
    ));
}

#[test]
fn registry_answers_by_type() {
    let world = world();
    assert_eq!(world.name_registry.get_priority::<Player>(), Some(0));
    assert_eq!(world.name_registry.get_priority_by_type_id(TypeId::of::<Enemy>()), Some(-10));
    assert_eq!(world.name_registry.get_priority::<u8>(), None);
    let mut registry = NameResolutionRegistry::new();
    assert_eq!(registry.get_priority::<Player>(), None);
    registry.register_name_defining_type::<Player>(5);
    registry.register_name_defining_type::<Player>(7);
    assert_eq!(registry.get_priority::<Player>(), Some(7));
    registry.unregister_name_defining_type_by_type_id(TypeId::of::<Player>());
    assert_eq!(registry.get_priority::<Player>(), None);
}

#[test]
fn empty_cache_holds_nothing() {
    let cache = ComponentMetadataMap::empty();
    assert_eq!(cache.map.len(), 0);
}

#[test]
fn generate_holds_every_registered_type() {
    let world = world();
    let cache = ComponentMetadataMap::generate(&world);
    assert_eq!(cache.map.len(), 4);
    assert_eq!(cache.map.get(&1).unwrap().name, "game::Player");
    assert_eq!(cache.map.get(&3).unwrap().memory_size, MemorySize::new(4));
    assert!(cache.map.get(&77).is_none());
}

#[test]
fn for_entity_holds_the_registered_types_of_the_entity() {
    let world = world();
    let cache = ComponentMetadataMap::for_entity(&world, EntityId::new(0, 0));
    assert_eq!(cache.map.len(), 1);
    assert_eq!(cache.map.get(&2).unwrap().name, "game::Enemy");
    let missing = ComponentMetadataMap::for_entity(&world, EntityId::new(9, 0));
    assert_eq!(missing.map.len(), 0);
}

#[test]
fn update_adds_new_types_and_keeps_old_entries() {
    let mut world = world();
    let mut cache = ComponentMetadataMap::generate(&world);
    world.component_types[1].layout_size = 1000;
    world.component_types.push(info(5, "game::Late", None, 2));
    cache.update(&world);
    assert_eq!(cache.map.len(), 5);
    assert_eq!(cache.map.get(&2).unwrap().memory_size, MemorySize::new(16));
    assert_eq!(cache.map.get(&5).unwrap().name, "game::Late");
}

#[test]
fn update_twice_is_update_once() {
    let world = world();
    let mut once = ComponentMetadataMap::empty();
    once.update(&world);
    let mut twice = ComponentMetadataMap::empty();
    twice.update(&world);
    twice.update(&world);
    assert_eq!(once.map.len(), twice.map.len());
    for (key, value) in once.map.iter() {
        let other = twice.map.get(key).unwrap();
        assert_eq!(format!("{:?}", value), format!("{:?}", other));
    }
}
