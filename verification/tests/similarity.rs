use feathers_inspector::archetype_similarity_grouping::{
    cluster_archetypes, find_closest_pair, get_components_by_archetype,
    get_entities_by_archetype, group, jaccard_distance, merge_clusters, seed_clusters, tie_break,
    Cluster, ClusterPairMetadata, Distance, Signature,
};
use feathers_inspector::entity_grouping::{EntityGrouping, GroupingStrategy};
use feathers_inspector::entity_name_resolution::NameResolutionRegistry;
use feathers_inspector::store::{
    ArchetypeId, ArchetypeRecord, ComponentTypeId, EntityId, EntityRecord, SpawnDetails, Store,
};

fn spawn(index: u32, archetype: u64) -> EntityRecord {
    EntityRecord {
        id: EntityId::new(index, 0),
        name: None,
        parent: None,
        archetype: ArchetypeId(archetype),
        reflected: Vec::new(),
        spawn_details: SpawnDetails { spawned_by: None, spawn_tick: 0 },
    }
}

fn archetype(id: u64, components: &[u64]) -> ArchetypeRecord {
    ArchetypeRecord {
        id: ArchetypeId(id),
        components: components.iter().map(|c| ComponentTypeId(*c)).collect(),
        entity_count: 0,
    }
}

fn world(entities: Vec<EntityRecord>, archetypes: Vec<ArchetypeRecord>) -> Store {
    Store {
        entities,
        archetypes,
        component_types: Vec::new(),
        type_registry: Vec::new(),
        name_registry: NameResolutionRegistry::new(),
        resources: Vec::new(),
    }
}

fn signature(components: &[u64]) -> Signature {
    Signature::from_components(&components.iter().map(|c| ComponentTypeId(*c)).collect())
}

fn leaf(entities: Vec<EntityId>) -> EntityGrouping {
    EntityGrouping { entities, sub_groups: Vec::new() }
}

fn node(sub_groups: Vec<EntityGrouping>) -> EntityGrouping {
    EntityGrouping { entities: Vec::new(), sub_groups }
}

fn cluster(components: &[u64], entities: Vec<EntityId>) -> Cluster {
    Cluster { signature: signature(components), group: leaf(entities) }
}

#[test]
fn jaccard_distance_of_overlapping_sets() {
    let distance = jaccard_distance(&signature(&[1, 2, 3]), &signature(&[2, 3, 4]));
    assert_eq!(distance, Distance { numerator: 2, denominator: 4 });
}

#[test]
fn jaccard_distance_of_equal_sets_is_zero() {
    let distance = jaccard_distance(&signature(&[5, 6]), &signature(&[6, 5, 5]));
    assert_eq!(distance, Distance { numerator: 0, denominator: 2 });
}

#[test]
fn jaccard_distance_of_two_empty_sets_is_zero() {
    let distance = jaccard_distance(&signature(&[]), &signature(&[]));
    assert_eq!(distance, Distance { numerator: 0, denominator: 1 });
}

#[test]
fn jaccard_distance_of_disjoint_sets_is_one() {
    let distance = jaccard_distance(&signature(&[1]), &signature(&[2, 3]));
    assert_eq!(distance, Distance { numerator: 3, denominator: 3 });
    let one_empty = jaccard_distance(&signature(&[]), &signature(&[2]));
    assert_eq!(one_empty, Distance { numerator: 1, denominator: 1 });
}

#[test]
fn distances_compare_as_fractions() {
    let half = Distance { numerator: 1, denominator: 2 };
    let two_thirds = Distance { numerator: 2, denominator: 3 };
    let two_quarters = Distance { numerator: 2, denominator: 4 };
    assert!(half.is_less_than(&two_thirds));
    assert!(!two_thirds.is_less_than(&half));
    assert!(!half.is_less_than(&two_quarters));
    assert!(!two_quarters.is_less_than(&half));
    let large = Distance { numerator: usize::MAX - 1, denominator: usize::MAX };
    let larger = Distance { numerator: usize::MAX, denominator: usize::MAX };
    assert!(large.is_less_than(&larger));
}

#[test]
fn signature_operations() {
    let a = signature(&[1, 2, 3]);
    let b = signature(&[3, 4]);
    assert_eq!(a.len(), 3);
    assert!(a.contains(ComponentTypeId(2)));
    assert!(!a.contains(ComponentTypeId(4)));
    let both = a.intersection(&b);
    assert_eq!(both.len(), 1);
    assert!(both.contains(ComponentTypeId(3)));
    let either = a.union(&b);
    assert_eq!(either.len(), 4);
    assert!(either.contains(ComponentTypeId(4)));
}

#[test]
fn tie_break_prefers_the_earlier_pair() {
    let d = Distance { numerator: 1, denominator: 2 };
    let first = ClusterPairMetadata { low: 0, high: 2, distance: d };
    let second = ClusterPairMetadata { low: 1, high: 2, distance: d };
    let third = ClusterPairMetadata { low: 1, high: 3, distance: d };
    assert!(tie_break(first, second));
    assert!(tie_break(second, third));
    assert!(!tie_break(third, second));
    assert!(!tie_break(second, second));
}

#[test]
fn closest_pair_is_the_first_of_the_closest() {
    let clusters = vec![
        cluster(&[1, 2], Vec::new()),
        cluster(&[7], Vec::new()),
        cluster(&[1, 2, 3], Vec::new()),
        cluster(&[1, 2, 4], Vec::new()),
    ];
    let pair = find_closest_pair(&clusters);
    assert_eq!((pair.low, pair.high), (0, 2));
    assert_eq!(pair.distance, Distance { numerator: 1, denominator: 3 });
}

#[test]
fn merging_moves_the_parent_to_the_end() {
    let e0 = EntityId::new(0, 0);
    let e1 = EntityId::new(1, 0);
    let e2 = EntityId::new(2, 0);
    let mut clusters = vec![
        cluster(&[1, 2], vec![e0]),
        cluster(&[9], vec![e1]),
        cluster(&[2, 3], vec![e2]),
    ];
    let pair = ClusterPairMetadata {
        low: 0,
        high: 2,
        distance: Distance { numerator: 2, denominator: 3 },
    };
    merge_clusters(&mut clusters, pair);
    assert_eq!(clusters.len(), 2);
    assert_eq!(clusters[0].group, leaf(vec![e1]));
    assert_eq!(clusters[1].group, node(vec![leaf(vec![e0]), leaf(vec![e2])]));
    assert_eq!(clusters[1].signature.len(), 1);
    assert!(clusters[1].signature.contains(ComponentTypeId(2)));
}

#[test]
fn clustering_no_cluster_gives_an_empty_grouping() {
    assert_eq!(cluster_archetypes(Vec::new()), EntityGrouping::new());
}

#[test]
fn grouping_no_entities_gives_an_empty_grouping() {
    let world = world(vec![spawn(0, 1)], vec![archetype(1, &[1])]);
    let grouping = group(&world, &Vec::new());
    assert_eq!(grouping, EntityGrouping::new());
    assert!(grouping.sub_groups.is_empty());
}

#[test]
fn one_archetype_gives_one_leaf_sorted_by_index() {
    let world = world(
        vec![spawn(2, 1), spawn(0, 1), spawn(1, 1)],
        vec![archetype(1, &[1, 2])],
    );
    let ids = vec![EntityId::new(2, 0), EntityId::new(0, 0), EntityId::new(1, 0)];
    let grouping = group(&world, &ids);
    assert_eq!(
        grouping,
        leaf(vec![EntityId::new(0, 0), EntityId::new(1, 0), EntityId::new(2, 0)])
    );
}

#[test]
fn similar_archetypes_are_merged_first() {
    let e0 = EntityId::new(0, 0);
    let e1 = EntityId::new(1, 0);
    let e2 = EntityId::new(2, 0);
    let e3 = EntityId::new(3, 0);
    let world = world(
        vec![spawn(0, 1), spawn(1, 1), spawn(2, 2), spawn(3, 3)],
        vec![archetype(1, &[10, 11]), archetype(2, &[10]), archetype(3, &[12])],
    );
    let grouping = EntityGrouping::generate(
        &world,
        &vec![e3, e1, e2, e0],
        GroupingStrategy::ArchetypeSimilarity,
    );
    let expected = node(vec![
        leaf(vec![e3]),
        node(vec![leaf(vec![e0, e1]), leaf(vec![e2])]),
    ]);
    assert_eq!(grouping, expected);
    assert_eq!(grouping.flatten(), vec![e3, e0, e1, e2]);
}

#[test]
fn duplicates_and_missing_entities_are_dropped() {
    let e0 = EntityId::new(0, 0);
    let e1 = EntityId::new(1, 0);
    let gone = EntityId::new(5, 0);
    let world = world(
        vec![spawn(0, 1), spawn(1, 2)],
        vec![archetype(1, &[1]), archetype(2, &[2])],
    );
    let grouping = group(&world, &vec![e1, gone, e0, e1, e0]);
    assert_eq!(grouping, node(vec![leaf(vec![e0]), leaf(vec![e1])]));
    assert_eq!(grouping.flatten(), vec![e0, e1]);
}

#[test]
fn an_unknown_archetype_has_an_empty_signature() {
    let e0 = EntityId::new(0, 0);
    let e1 = EntityId::new(1, 0);
    let e2 = EntityId::new(2, 0);
    let world = world(
        vec![spawn(0, 1), spawn(1, 2), spawn(2, 7)],
        vec![archetype(1, &[1]), archetype(2, &[1, 2])],
    );
    let grouping = group(&world, &vec![e0, e1, e2]);
    assert_eq!(
        grouping,
        node(vec![leaf(vec![e2]), node(vec![leaf(vec![e0]), leaf(vec![e1])])])
    );
}

fn range_signature(from: u64, to: u64) -> Signature {
    Signature::from_components(&(from..to).map(ComponentTypeId).collect())
}

#[test]
fn distances_within_a_hundred_thousandth_are_tied() {
    let clusters = vec![
        Cluster { signature: range_signature(0, 75000), group: leaf(Vec::new()) },
        Cluster { signature: range_signature(25000, 100000), group: leaf(Vec::new()) },
        Cluster { signature: range_signature(49999, 125001), group: leaf(Vec::new()) },
    ];
    let later = jaccard_distance(&clusters[1].signature, &clusters[2].signature);
    assert_eq!(later, Distance { numerator: 50000, denominator: 100001 });
    let pair = find_closest_pair(&clusters);
    assert_eq!((pair.low, pair.high), (0, 1));
    assert_eq!(pair.distance, Distance { numerator: 50000, denominator: 100000 });
    assert!(later.is_less_than(&pair.distance));
    assert!(pair.distance.is_within(&later));
}

#[test]
fn a_distance_smaller_by_a_hundred_thousandth_wins() {
    let clusters = vec![
        Cluster { signature: range_signature(0, 3), group: leaf(Vec::new()) },
        Cluster { signature: range_signature(1, 4), group: leaf(Vec::new()) },
        Cluster { signature: range_signature(1, 5), group: leaf(Vec::new()) },
    ];
    let pair = find_closest_pair(&clusters);
    assert_eq!((pair.low, pair.high), (1, 2));
    assert_eq!(pair.distance, Distance { numerator: 1, denominator: 4 });
}

#[test]
fn within_compares_the_excess_with_a_hundred_thousandth() {
    let half = Distance { numerator: 1, denominator: 2 };
    let near = Distance { numerator: 50001, denominator: 100000 };
    let edge = Distance { numerator: 50001, denominator: 100000 };
    let far = Distance { numerator: 500011, denominator: 1000000 };
    assert!(half.is_within(&near));
    assert!(!near.is_within(&half));
    assert!(edge.is_within(&edge));
    assert!(!far.is_within(&half));
    let close = Distance { numerator: 5000009, denominator: 10000000 };
    assert!(close.is_within(&half));
    let zero = Distance { numerator: 0, denominator: 0 };
    assert!(!zero.is_within(&zero));
}

#[test]
fn buckets_pass_over_entities_that_do_not_exist() {
    let e0 = EntityId::new(0, 0);
    let e1 = EntityId::new(1, 0);
    let e2 = EntityId::new(2, 0);
    let gone = EntityId::new(9, 0);
    let world = world(
        vec![spawn(0, 2), spawn(1, 1), spawn(2, 2)],
        vec![archetype(1, &[1]), archetype(2, &[2])],
    );
    let (buckets, archetypes) = get_entities_by_archetype(&world, &vec![e0, gone, e1, e2]);
    assert_eq!(archetypes, vec![ArchetypeId(2), ArchetypeId(1)]);
    assert_eq!(buckets.len(), 2);
    assert_eq!(buckets.get(&2), Some(&vec![e0, e2]));
    assert_eq!(buckets.get(&1), Some(&vec![e1]));
}

#[test]
fn signatures_are_looked_up_by_archetype() {
    let world = world(
        vec![spawn(0, 2), spawn(1, 1)],
        vec![archetype(1, &[1, 5]), archetype(2, &[2])],
    );
    let archetypes = vec![ArchetypeId(2), ArchetypeId(8), ArchetypeId(1)];
    let components = get_components_by_archetype(&world, &archetypes);
    assert_eq!(components.len(), 3);
    let first = components.get(&1).unwrap();
    assert_eq!(first.len(), 2);
    assert!(first.contains(ComponentTypeId(1)) && first.contains(ComponentTypeId(5)));
    assert_eq!(components.get(&2).unwrap().len(), 1);
    assert_eq!(components.get(&8).unwrap().len(), 0);
    assert!(components.get(&3).is_none());
}

#[test]
fn a_copy_of_a_signature_holds_the_same_types() {
    let first = signature(&[3, 4, 5]);
    let copy = first.clone();
    assert_eq!(copy.len(), 3);
    assert!(copy.contains(ComponentTypeId(4)));
    assert!(!copy.contains(ComponentTypeId(6)));
    assert_eq!(Signature::new().len(), 0);
}

#[test]
fn clusters_are_seeded_from_buckets_and_signatures() {
    let e0 = EntityId::new(0, 0);
    let e1 = EntityId::new(1, 0);
    let e2 = EntityId::new(2, 0);
    let world = world(
        vec![spawn(0, 2), spawn(1, 1), spawn(2, 2)],
        vec![archetype(1, &[1, 5]), archetype(2, &[2])],
    );
    let (buckets, archetypes) = get_entities_by_archetype(&world, &vec![e2, e1, e0]);
    let components = get_components_by_archetype(&world, &archetypes);
    let clusters = seed_clusters(
        &buckets,
        &components,
        &vec![ArchetypeId(1), ArchetypeId(2), ArchetypeId(3)],
    );
    assert_eq!(clusters.len(), 3);
    assert_eq!(clusters[0].group, leaf(vec![e1]));
    assert_eq!(clusters[0].signature.len(), 2);
    assert_eq!(clusters[1].group, leaf(vec![e0, e2]));
    assert!(clusters[1].signature.contains(ComponentTypeId(2)));
    assert_eq!(clusters[2].group, leaf(Vec::new()));
    assert_eq!(clusters[2].signature.len(), 0);
}
