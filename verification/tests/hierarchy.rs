use bevy::platform::collections::HashSet;
use feathers_inspector::entity_grouping::{distinct_values, EntityGrouping, GroupingStrategy};
use feathers_inspector::entity_name_resolution::NameResolutionRegistry;
use feathers_inspector::hierarchy_grouping::{
    collect_root_entities, generate_forest, generate_grouping_tree, group, sort_entities,
    sorting_key,
};
use feathers_inspector::store::{ArchetypeId, EntityId, EntityRecord, SpawnDetails, Store};

fn spawn(index: u32, name: Option<&str>, parent: Option<EntityId>) -> EntityRecord {
    EntityRecord {
        id: EntityId::new(index, 0),
        name: name.map(|n| n.to_string()),
        parent,
        archetype: ArchetypeId(0),
        reflected: Vec::new(),
        spawn_details: SpawnDetails { spawned_by: None, spawn_tick: 0 },
    }
}

fn world(entities: Vec<EntityRecord>) -> Store {
    Store {
        entities,
        archetypes: Vec::new(),
        component_types: Vec::new(),
        type_registry: Vec::new(),
        name_registry: NameResolutionRegistry::new(),
        resources: Vec::new(),
    }
}

fn tree(entity: EntityId, sub_groups: Vec<EntityGrouping>) -> EntityGrouping {
    EntityGrouping { entities: vec![entity], sub_groups }
}

fn root(sub_groups: Vec<EntityGrouping>) -> EntityGrouping {
    EntityGrouping { entities: Vec::new(), sub_groups }
}

#[test]
fn hierarchy_preservation() {
    let a = EntityId::new(0, 0);
    let b = EntityId::new(1, 0);
    let c = EntityId::new(2, 0);
    let d = EntityId::new(3, 0);
    let e = EntityId::new(4, 0);
    let f = EntityId::new(5, 0);
    let g = EntityId::new(6, 0);
    let world = world(vec![
        spawn(0, None, None),
        spawn(1, None, Some(a)),
        spawn(2, None, Some(a)),
        spawn(3, None, None),
        spawn(4, None, Some(d)),
        spawn(5, None, Some(e)),
        spawn(6, None, None),
    ]);

    let grouping = group(&world, &vec![a, b, c, d, e, f, g]);
    let expected_grouping = root(vec![
        tree(a, vec![tree(b, Vec::new()), tree(c, Vec::new())]),
        tree(d, vec![tree(e, vec![tree(f, Vec::new())])]),
        tree(g, Vec::new()),
    ]);
    assert_eq!(grouping, expected_grouping);
}

#[test]
fn named_vs_unnamed_sorting() {
    let unnamed = EntityId::new(0, 0);
    let parent = EntityId::new(1, 0);
    let beta = EntityId::new(2, 0);
    let alpha = EntityId::new(3, 0);
    let child_unnamed = EntityId::new(4, 0);
    let child_named = EntityId::new(5, 0);
    let world = world(vec![
        spawn(0, None, None),
        spawn(1, None, None),
        spawn(2, Some("Beta"), None),
        spawn(3, Some("alpha"), None),
        spawn(4, None, Some(parent)),
        spawn(5, Some("Child"), Some(parent)),
    ]);

    let grouping = group(
        &world,
        &vec![unnamed, parent, beta, alpha, child_unnamed, child_named],
    );
    let expected_grouping = root(vec![
        tree(alpha, Vec::new()),
        tree(beta, Vec::new()),
        tree(unnamed, Vec::new()),
        tree(
            parent,
            vec![tree(child_named, Vec::new()), tree(child_unnamed, Vec::new())],
        ),
    ]);
    assert_eq!(grouping, expected_grouping);
}

#[test]
fn unicode_sorting_case_insensitive() {
    let lower_a = EntityId::new(0, 0);
    let upper_a_umlaut = EntityId::new(1, 0);
    let world = world(vec![spawn(0, Some("a"), None), spawn(1, Some("Ä"), None)]);
    let grouping = group(&world, &vec![upper_a_umlaut, lower_a]);

    let expected_grouping = root(vec![
        tree(lower_a, Vec::new()),
        tree(upper_a_umlaut, Vec::new()),
    ]);
    assert_eq!(grouping, expected_grouping);
}

#[test]
fn sort_by_index() {
    let first = EntityId::new(0, 0);
    let second = EntityId::new(1, 0);
    let world = world(vec![spawn(0, Some("same"), None), spawn(1, Some("same"), None)]);

    let grouping = group(&world, &vec![second, first]);
    let expected_grouping = root(vec![tree(first, Vec::new()), tree(second, Vec::new())]);
    assert_eq!(grouping, expected_grouping);
}

#[test]
fn child_without_parent_in_set_becomes_root() {
    let parent = EntityId::new(0, 0);
    let child = EntityId::new(1, 0);
    let world = world(vec![spawn(0, None, None), spawn(1, None, Some(parent))]);

    let grouping = group(&world, &vec![child]);
    let expected_grouping = root(vec![tree(child, Vec::new())]);
    assert_eq!(grouping, expected_grouping);
}

#[test]
fn skip_non_existent_entities() {
    let alive = EntityId::new(0, 0);
    let dead = EntityId::new(1, 0);
    let world = world(vec![spawn(0, None, None)]);

    let grouping = group(&world, &vec![alive, dead]);
    let expected_grouping = root(vec![tree(alive, Vec::new())]);
    assert_eq!(grouping, expected_grouping);
}

#[test]
fn deduplication() {
    let entity = EntityId::new(0, 0);
    let world = world(vec![spawn(0, None, None)]);
    let grouping = group(&world, &vec![entity, entity, entity]);

    let expected_grouping = root(vec![tree(entity, Vec::new())]);
    assert_eq!(grouping, expected_grouping);
}

#[test]
fn children_of_one_parent_are_ordered_by_name_then_unnamed() {
    let p = EntityId::new(0, 0);
    let a = EntityId::new(1, 0);
    let b = EntityId::new(2, 0);
    let c = EntityId::new(3, 0);
    let world = world(vec![
        spawn(0, None, None),
        spawn(1, Some("Beta"), Some(p)),
        spawn(2, Some("alpha"), Some(p)),
        spawn(3, None, Some(p)),
    ]);
    let grouping = group(&world, &vec![a, b, c, p]);
    assert_eq!(grouping.flatten(), vec![p, b, a, c]);
    assert_eq!(grouping.sub_groups.len(), 1);
    assert_eq!(grouping.sub_groups[0].sub_groups.len(), 3);
}

#[test]
fn empty_input_gives_an_empty_grouping() {
    let world = world(vec![spawn(0, None, None)]);
    let grouping = group(&world, &Vec::new());
    assert_eq!(grouping, EntityGrouping::new());
    assert_eq!(grouping.flatten(), Vec::new());
}

#[test]
fn a_cycle_of_parents_has_no_root_and_is_left_out() {
    let a = EntityId::new(0, 0);
    let b = EntityId::new(1, 0);
    let c = EntityId::new(2, 0);
    let world = world(vec![
        spawn(0, None, Some(b)),
        spawn(1, None, Some(a)),
        spawn(2, None, None),
    ]);
    let grouping = group(&world, &vec![a, b, c]);
    assert_eq!(grouping, root(vec![tree(c, Vec::new())]));
}

#[test]
fn an_entity_that_is_its_own_parent_is_left_out() {
    let a = EntityId::new(0, 0);
    let world = world(vec![spawn(0, None, Some(a))]);
    let grouping = group(&world, &vec![a]);
    assert_eq!(grouping, root(Vec::new()));
}

#[test]
fn flatten_holds_every_existing_entity_once() {
    let a = EntityId::new(0, 0);
    let b = EntityId::new(1, 0);
    let c = EntityId::new(2, 0);
    let gone = EntityId::new(9, 3);
    let world = world(vec![
        spawn(0, None, None),
        spawn(1, None, Some(a)),
        spawn(2, None, Some(b)),
    ]);
    let grouping = EntityGrouping::generate(
        &world,
        &vec![c, gone, b, a, c, a],
        GroupingStrategy::Hierarchy,
    );
    assert_eq!(grouping.flatten(), vec![a, b, c]);
}

#[test]
fn generations_order_entities_of_one_index() {
    let old = EntityId::new(4, 1);
    let new = EntityId::new(4, 2);
    let low = EntityId::new(3, 7);
    let mut first = spawn(4, None, None);
    first.id = old;
    let mut second = spawn(4, None, None);
    second.id = new;
    let mut third = spawn(3, None, None);
    third.id = low;
    let world = world(vec![second, first, third]);
    assert_eq!(sort_entities(&world, &vec![new, old, low]), vec![low, old, new]);
}

#[test]
fn sorting_key_lowers_the_name() {
    let world = world(vec![spawn(0, Some("MiXed"), None), spawn(1, None, None)]);
    let named = sorting_key(&world, EntityId::new(0, 0));
    assert_eq!(named, (false, "mixed".to_string(), EntityId::new(0, 0).to_key()));
    let unnamed = sorting_key(&world, EntityId::new(1, 0));
    assert_eq!(unnamed, (true, String::new(), EntityId::new(1, 0).to_key()));
    assert_eq!(EntityId::new(1, 0).to_key(), 1u64 << 32);
    assert_eq!(EntityId::from_key((7u64 << 32) + 5), EntityId::new(7, 5));
}

#[test]
fn a_tree_is_made_once_and_marks_what_it_holds() {
    let a = EntityId::new(0, 0);
    let b = EntityId::new(1, 0);
    let c = EntityId::new(2, 0);
    let world = world(vec![
        spawn(0, None, None),
        spawn(1, None, Some(a)),
        spawn(2, None, Some(b)),
    ]);
    let entities = vec![a, b, c];
    let (unique, seen) = distinct_values(&entities);
    let (_, children) = collect_root_entities(&world, &entities, &unique, &seen);
    let mut visited = HashSet::new();
    let first = generate_grouping_tree(&world, a, &entities, &children, &mut visited);
    assert_eq!(first, Some(tree(a, vec![tree(b, vec![tree(c, Vec::new())])])));
    assert_eq!(visited.len(), 3);
    assert!(visited.contains(&a.to_key()) && visited.contains(&b.to_key()));
    assert!(visited.contains(&c.to_key()));
    let second = generate_grouping_tree(&world, a, &entities, &children, &mut visited);
    assert_eq!(second, None);
    let below = generate_grouping_tree(&world, c, &entities, &children, &mut visited);
    assert_eq!(below, None);
    assert_eq!(visited.len(), 3);
}

#[test]
fn an_entity_that_does_not_exist_gives_no_tree() {
    let a = EntityId::new(0, 0);
    let gone = EntityId::new(7, 0);
    let world = world(vec![spawn(0, None, None)]);
    let entities = vec![a, gone];
    let (unique, seen) = distinct_values(&entities);
    let (_, children) = collect_root_entities(&world, &entities, &unique, &seen);
    let mut visited = HashSet::new();
    assert_eq!(generate_grouping_tree(&world, gone, &entities, &children, &mut visited), None);
    assert!(visited.is_empty());
}

#[test]
fn a_cycle_ends_the_descent_at_the_visited_entity() {
    let a = EntityId::new(0, 0);
    let b = EntityId::new(1, 0);
    let world = world(vec![spawn(0, None, Some(b)), spawn(1, None, Some(a))]);
    let entities = vec![a, b];
    let (unique, seen) = distinct_values(&entities);
    let (roots, children) = collect_root_entities(&world, &entities, &unique, &seen);
    assert!(roots.is_empty());
    let mut visited = HashSet::new();
    let found = generate_grouping_tree(&world, a, &entities, &children, &mut visited).unwrap();
    assert_eq!(found, tree(a, vec![tree(b, Vec::new())]));
    assert_eq!(found.flatten(), vec![a, b]);
    assert_eq!(visited.len(), 2);
}

#[test]
fn a_visited_child_is_left_out_of_the_tree_of_its_parent() {
    let a = EntityId::new(0, 0);
    let b = EntityId::new(1, 0);
    let c = EntityId::new(2, 0);
    let world = world(vec![
        spawn(0, None, None),
        spawn(1, None, Some(a)),
        spawn(2, None, Some(a)),
    ]);
    let entities = vec![a, b, c];
    let (unique, seen) = distinct_values(&entities);
    let (_, children) = collect_root_entities(&world, &entities, &unique, &seen);
    let mut visited = HashSet::new();
    visited.insert(b.to_key());
    let found = generate_grouping_tree(&world, a, &entities, &children, &mut visited);
    assert_eq!(found, Some(tree(a, vec![tree(c, Vec::new())])));
    assert_eq!(visited.len(), 3);
}

#[test]
fn a_forest_passes_over_what_an_earlier_tree_holds() {
    let a = EntityId::new(0, 0);
    let b = EntityId::new(1, 0);
    let gone = EntityId::new(5, 0);
    let world = world(vec![spawn(0, None, None), spawn(1, None, Some(a))]);
    let entities = vec![a, b];
    let (unique, seen) = distinct_values(&entities);
    let (roots, children) = collect_root_entities(&world, &entities, &unique, &seen);
    assert_eq!(roots, vec![a]);
    let trees = generate_forest(&world, &entities, &children, &vec![a, gone, b, a]);
    assert_eq!(trees, vec![tree(a, vec![tree(b, Vec::new())])]);
    let alone = generate_forest(&world, &entities, &children, &vec![b, a]);
    assert_eq!(alone, vec![tree(b, Vec::new()), tree(a, Vec::new())]);
}
