use feathers_inspector::entity_name_resolution::NameResolutionRegistry;
use feathers_inspector::fuzzy_name_mapping::{
    fuzzy_component_name_to_id, fuzzy_match, fuzzy_resource_name_to_id, normalize,
};
use feathers_inspector::store::{
    ComponentTypeId, ComponentTypeInfo, ResourceRecord, StorageType, Store,
};

fn info(id: u64, name: &str) -> ComponentTypeInfo {
    ComponentTypeInfo {
        id: ComponentTypeId(id),
        name: name.to_string(),
        type_id: None,
        layout_size: 1,
        mutable: true,
        storage_type: StorageType::Table,
        is_send_and_sync: true,
        required_components: Vec::new(),
    }
}

fn world() -> Store {
    Store {
        entities: Vec::new(),
        archetypes: Vec::new(),
        component_types: vec![
            info(1, "engine::transform::Transform"),
            info(2, "engine::Transforms"),
            info(3, "engine::view::Visibility"),
            info(4, "game::Time"),
            info(5, "game::Score"),
        ],
        type_registry: Vec::new(),
        name_registry: NameResolutionRegistry::new(),
        resources: vec![
            ResourceRecord { id: ComponentTypeId(9), is_send: true, reflected: None },
            ResourceRecord { id: ComponentTypeId(5), is_send: true, reflected: None },
            ResourceRecord { id: ComponentTypeId(4), is_send: false, reflected: None },
        ],
    }
}

fn names(list: &[&str]) -> Vec<String> {
    list.iter().map(|n| n.to_string()).collect()
}

#[test]
fn normalize_trims_and_lowers() {
    assert_eq!(normalize("  Hello World \n"), "hello world");
    assert_eq!(normalize(""), "");
}

#[test]
fn exact_name_wins_over_similar_names() {
    let world = world();
    assert_eq!(fuzzy_component_name_to_id(&world, "Transforms"), Some(ComponentTypeId(2)));
    assert_eq!(fuzzy_component_name_to_id(&world, "Transform"), Some(ComponentTypeId(1)));
    assert_eq!(fuzzy_component_name_to_id(&world, "  tRANSFORM  "), Some(ComponentTypeId(1)));
}

#[test]
fn the_most_similar_name_is_found() {
    let world = world();
    assert_eq!(fuzzy_component_name_to_id(&world, "visibilty"), Some(ComponentTypeId(3)));
    assert_eq!(fuzzy_component_name_to_id(&world, "transfrms"), Some(ComponentTypeId(2)));
}

#[test]
fn nothing_similar_gives_none() {
    let world = world();
    assert_eq!(fuzzy_component_name_to_id(&world, "zzzzzzzzzzzzzzzzzzzz"), None);
    let empty = Store {
        entities: Vec::new(),
        archetypes: Vec::new(),
        component_types: Vec::new(),
        type_registry: Vec::new(),
        name_registry: NameResolutionRegistry::new(),
        resources: Vec::new(),
    };
    assert_eq!(fuzzy_component_name_to_id(&empty, "Transform"), None);
}

#[test]
fn resources_are_searched_among_registered_resources_only() {
    let world = world();
    assert_eq!(fuzzy_resource_name_to_id(&world, "time"), Some(ComponentTypeId(4)));
    assert_eq!(fuzzy_resource_name_to_id(&world, "scor"), Some(ComponentTypeId(5)));
    assert_eq!(fuzzy_resource_name_to_id(&world, "qqqqqqqqqqqq"), None);
}

#[test]
fn similarity_of_three_tenths_is_enough() {
    let query = "abcdefghij".to_string();
    assert_eq!(fuzzy_match(&query, &names(&["abczzzzzzz"])), Some(0));
    assert_eq!(fuzzy_match(&query, &names(&["abzzzzzzzz"])), None);
}

#[test]
fn the_first_of_equally_similar_names_is_chosen() {
    let query = "abcd".to_string();
    assert_eq!(fuzzy_match(&query, &names(&["abcx", "abcy", "abc"])), Some(0));
    assert_eq!(fuzzy_match(&query, &names(&["axxd", "abcy", "abcx"])), Some(1));
    assert_eq!(fuzzy_match(&query, &names(&["abcy", "abcd", "abcd"])), Some(1));
}

#[test]
fn a_longer_name_with_the_same_distance_is_more_similar() {
    let query = "abcd".to_string();
    assert_eq!(fuzzy_match(&query, &names(&["abc", "abcde"])), Some(1));
}

#[test]
fn an_empty_query_matches_an_empty_name_only() {
    let query = String::new();
    assert_eq!(fuzzy_match(&query, &names(&["a", ""])), Some(1));
    assert_eq!(fuzzy_match(&query, &names(&["a", "bc"])), None);
    assert_eq!(fuzzy_match(&query, &Vec::new()), None);
}
