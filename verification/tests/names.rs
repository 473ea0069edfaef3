use feathers_inspector::component_inspection::{ComponentInspection, ComponentMetadataMap};
use feathers_inspector::entity_inspection::EntityInspection;
use feathers_inspector::entity_name_resolution::{
    resolve_from_components, resolve_name, EntityName, NameOrigin, NameResolutionRegistry,
};
use feathers_inspector::store::{
    ArchetypeId, ComponentTypeId, ComponentTypeInfo, EntityId, EntityRecord, SpawnDetails,
    StorageType, Store,
};
use feathers_inspector::text::{join, sort_texts};
use std::any::TypeId;

struct User;
struct Library;
struct Fallback;
struct Second;

fn info(id: u64, name: &str, type_id: Option<TypeId>) -> ComponentTypeInfo {
    ComponentTypeInfo {
        id: ComponentTypeId(id),
        name: name.to_string(),
        type_id,
        layout_size: 1,
        mutable: true,
        storage_type: StorageType::SparseSet,
        is_send_and_sync: false,
        required_components: Vec::new(),
    }
}

fn world(name: Option<&str>) -> Store {
    let mut name_registry = NameResolutionRegistry::new();
    name_registry.register_name_defining_type::<User>(0);
    name_registry.register_name_defining_type::<Second>(0);
    name_registry.register_name_defining_type::<Library>(-10);
    name_registry.register_name_defining_type::<Fallback>(-20);
    Store {
        entities: vec![EntityRecord {
            id: EntityId::new(0, 0),
            name: name.map(|n| n.to_string()),
            parent: None,
            archetype: ArchetypeId(0),
            reflected: Vec::new(),
            spawn_details: SpawnDetails { spawned_by: None, spawn_tick: 0 },
        }],
        archetypes: Vec::new(),
        component_types: vec![
            info(1, "game::units::Unit", Some(TypeId::of::<User>())),
            info(2, "engine::render::Sprite", Some(TypeId::of::<Library>())),
            info(3, "engine::Camera", Some(TypeId::of::<Fallback>())),
            info(4, "engine::Transform", Some(TypeId::of::<u64>())),
            info(5, "game::Boss", Some(TypeId::of::<Second>())),
        ],
        type_registry: Vec::new(),
        name_registry,
        resources: Vec::new(),
    }
}

fn component(id: u64, name: &str) -> ComponentInspection {
    ComponentInspection {
        entity: EntityId::new(0, 0),
        component_id: ComponentTypeId(id),
        name: name.to_string(),
        memory_size: None,
        value: None,
    }
}

#[test]
fn explicit_name_wins_over_components() {
    let world = world(Some("Hero"));
    let cache = ComponentMetadataMap::generate(&world);
    let components = Some(vec![component(1, "game::units::Unit")]);
    let name = resolve_name(&world, EntityId::new(0, 0), &components, &cache.map);
    assert_eq!(
        name,
        Some(EntityName { name: "Hero".to_string(), origin: NameOrigin::Custom })
    );
    let without = resolve_name(&world, EntityId::new(0, 0), &None, &cache.map);
    assert_eq!(without.unwrap().as_str(), "Hero");
}

#[test]
fn no_components_and_no_name_gives_none() {
    let world = world(None);
    let cache = ComponentMetadataMap::generate(&world);
    assert_eq!(resolve_name(&world, EntityId::new(0, 0), &None, &cache.map), None);
    assert_eq!(resolve_name(&world, EntityId::new(0, 0), &Some(Vec::new()), &cache.map), None);
}

#[test]
fn components_without_priority_give_none() {
    let world = world(None);
    let cache = ComponentMetadataMap::generate(&world);
    let components = Some(vec![component(4, "engine::Transform"), component(99, "x::Unknown")]);
    assert_eq!(resolve_name(&world, EntityId::new(0, 0), &components, &cache.map), None);
}

#[test]
fn highest_priority_names_the_entity() {
    let world = world(None);
    let cache = ComponentMetadataMap::generate(&world);
    let components = Some(vec![
        component(3, "engine::Camera"),
        component(2, "engine::render::Sprite"),
        component(4, "engine::Transform"),
    ]);
    let name = resolve_name(&world, EntityId::new(0, 0), &components, &cache.map);
    assert_eq!(
        name,
        Some(EntityName { name: "Sprite".to_string(), origin: NameOrigin::Resolved })
    );
}

#[test]
fn equal_priorities_are_joined_in_alphabetical_order() {
    let world = world(None);
    let cache = ComponentMetadataMap::generate(&world);
    let components = Some(vec![
        component(1, "game::units::Unit"),
        component(2, "engine::render::Sprite"),
        component(5, "game::Boss"),
    ]);
    let name = resolve_name(&world, EntityId::new(0, 0), &components, &cache.map);
    assert_eq!(
        name,
        Some(EntityName { name: "Boss | Unit".to_string(), origin: NameOrigin::Resolved })
    );
}

#[test]
fn a_component_missing_from_the_cache_does_not_name() {
    let world = world(None);
    let cache = ComponentMetadataMap::empty();
    let components = Some(vec![component(1, "game::units::Unit")]);
    assert_eq!(resolve_name(&world, EntityId::new(0, 0), &components, &cache.map), None);
}

#[test]
fn entity_name_constructors() {
    assert_eq!(
        EntityName::custom("a"),
        EntityName { name: "a".to_string(), origin: NameOrigin::Custom }
    );
    assert_eq!(
        EntityName::resolved("b"),
        EntityName { name: "b".to_string(), origin: NameOrigin::Resolved }
    );
}

#[test]
fn join_puts_the_separator_between() {
    assert_eq!(join(&Vec::new(), ", "), "");
    assert_eq!(join(&vec!["a".to_string()], ", "), "a");
    assert_eq!(join(&vec!["a".to_string(), "b".to_string(), "c".to_string()], " | "), "a | b | c");
}

#[test]
fn sort_texts_orders_by_code_point() {
    let names = vec!["b".to_string(), "B".to_string(), "a".to_string(), "".to_string(), "ab".to_string(), "a".to_string()];
    assert_eq!(sort_texts(names), vec!["", "B", "a", "a", "ab", "b"]);
}

#[test]
fn an_inspection_resolves_its_own_name() {
    let world = world(None);
    let cache = ComponentMetadataMap::generate(&world);
    let mut inspection = EntityInspection {
        entity: EntityId::new(0, 0),
        name: None,
        total_memory_size: None,
        components: Some(vec![
            component(2, "engine::render::Sprite"),
            component(3, "engine::Camera"),
        ]),
        spawn_details: SpawnDetails { spawned_by: None, spawn_tick: 0 },
    };
    assert_eq!(inspection.resolve_name(&cache.map), Some("Sprite".to_string()));
    inspection.name = Some(EntityName::custom("Hero"));
    assert_eq!(inspection.resolve_name(&cache.map), Some("Hero".to_string()));
    inspection.name = None;
    inspection.components = None;
    assert_eq!(inspection.resolve_name(&cache.map), None);
}

#[test]
fn components_give_a_name_by_priority() {
    let world = world(None);
    let cache = ComponentMetadataMap::generate(&world);
    let components = vec![
        component(5, "game::Boss"),
        component(3, "engine::Camera"),
        component(1, "game::units::Unit"),
        component(5, "other::Boss"),
    ];
    assert_eq!(
        resolve_from_components(&components, &cache.map),
        Some("Boss | Boss | Unit".to_string())
    );
    assert_eq!(resolve_from_components(&Vec::new(), &cache.map), None);
}
