use feathers_inspector::entity_name_resolution::NameResolutionRegistry;
use feathers_inspector::sorting::{sort, Ordered};
use feathers_inspector::store::{
    ArchetypeId, ArchetypeRecord, ComponentTypeId, ComponentTypeInfo, EntityId, EntityRecord,
    ResourceRecord, SpawnDetails, StorageType, Store,
};
use feathers_inspector::summary::{ArchetypeSummary, SummaryRank, SummarySettings, WorldSummary};
use feathers_inspector::text::decimal;

fn info(id: u64, name: &str) -> ComponentTypeInfo {
    ComponentTypeInfo {
        id: ComponentTypeId(id),
        name: name.to_string(),
        type_id: None,
        layout_size: 1,
        mutable: true,
        storage_type: StorageType::Table,
        is_send_and_sync: true,
        required_components: Vec::new(),
    }
}

fn archetype(id: u64, components: &[u64], entity_count: usize) -> ArchetypeRecord {
    ArchetypeRecord {
        id: ArchetypeId(id),
        components: components.iter().map(|c| ComponentTypeId(*c)).collect(),
        entity_count,
    }
}

fn world() -> Store {
    let entity = |index: u32| EntityRecord {
        id: EntityId::new(index, 0),
        name: None,
        parent: None,
        archetype: ArchetypeId(1),
        reflected: Vec::new(),
        spawn_details: SpawnDetails { spawned_by: None, spawn_tick: 0 },
    };
    Store {
        entities: vec![entity(0), entity(1), entity(2)],
        archetypes: vec![
            archetype(0, &[], 0),
            archetype(1, &[1, 2], 2),
            archetype(2, &[2], 2),
            archetype(3, &[1, 9], 5),
            archetype(4, &[3], 2),
            archetype(5, &[1], 0),
        ],
        component_types: vec![
            info(1, "game::Zebra"),
            info(2, "game::units::Ant"),
            info(3, "game::Mole"),
        ],
        type_registry: Vec::new(),
        name_registry: NameResolutionRegistry::new(),
        resources: vec![
            ResourceRecord { id: ComponentTypeId(1), is_send: true, reflected: None },
            ResourceRecord { id: ComponentTypeId(2), is_send: false, reflected: None },
            ResourceRecord { id: ComponentTypeId(3), is_send: true, reflected: None },
        ],
    }
}

#[test]
fn decimal_digits() {
    assert_eq!(decimal(0), "0");
    assert_eq!(decimal(7), "7");
    assert_eq!(decimal(10), "10");
    assert_eq!(decimal(1234567890), "1234567890");
    assert_eq!(decimal(u64::MAX), "18446744073709551615");
}

#[test]
fn summary_settings_default() {
    let settings = SummarySettings::default();
    assert!(settings.include_component_names);
    assert!(!settings.include_empty_archetypes);
    assert_eq!(settings.max_archetype_rows, Some(15));
}

#[test]
fn summary_counts_and_orders_archetypes() {
    let world = world();
    let summary = world.summarize(SummarySettings::default());
    assert_eq!(summary.total_entities, 3);
    assert_eq!(summary.total_archetypes, 6);
    assert_eq!(summary.empty_archetypes, 2);
    assert_eq!(summary.total_send_resources, 2);
    assert_eq!(summary.total_non_send_resources, 1);
    assert_eq!(summary.max_archetype_rows, Some(15));
    let order: Vec<u64> = summary.archetype_summaries.iter().map(|a| a.archetype_id.0).collect();
    assert_eq!(order, vec![3, 2, 4, 1]);
    let first = &summary.archetype_summaries[0];
    assert_eq!(first.entity_count, 5);
    assert_eq!(first.component_ids, vec![ComponentTypeId(1), ComponentTypeId(9)]);
    assert_eq!(
        first.component_names,
        Some(vec!["game::Zebra".to_string(), "Component #9".to_string()])
    );
}

#[test]
fn summary_with_empty_archetypes_and_without_names() {
    let world = world();
    let settings = SummarySettings {
        include_component_names: false,
        include_empty_archetypes: true,
        max_archetype_rows: None,
    };
    let summary = world.summarize(settings);
    assert_eq!(summary.empty_archetypes, 2);
    let order: Vec<u64> = summary.archetype_summaries.iter().map(|a| a.archetype_id.0).collect();
    assert_eq!(order, vec![3, 2, 4, 1, 0, 5]);
    assert!(summary.archetype_summaries.iter().all(|a| a.component_names.is_none()));
    assert_eq!(summary.archetype_summaries[0].signature_short(), "#3");
}

#[test]
fn signature_sorts_short_names() {
    let summary = ArchetypeSummary {
        archetype_id: ArchetypeId(12),
        entity_count: 4,
        component_ids: vec![ComponentTypeId(1), ComponentTypeId(2)],
        component_names: Some(vec!["game::Zebra".to_string(), "game::units::Ant".to_string()]),
    };
    assert_eq!(summary.signature_short(), "Ant, Zebra (#12)");
    assert_eq!(summary.to_text(), "Ant, Zebra (#12) (4 entities)\n");
}

#[test]
fn summary_text() {
    let world = world();
    let mut settings = SummarySettings::default();
    settings.max_archetype_rows = Some(2);
    let text = world.summarize(settings).to_text();
    let expected = "Summary:\nEntity count: 3\nArchetype count: 6 (2 empty)\nResource count: 3 (2 `Send` + 1 non-`Send`)\nArchetypes:\n1. Component #9, Zebra (#3) (5 entities)\n2. Ant (#2) (2 entities)\n... and 2 more archetypes.";
    assert_eq!(text, expected);
    settings.max_archetype_rows = None;
    let all = world.summarize(settings).to_text();
    assert!(all.ends_with("4. Ant, Zebra (#1) (2 entities)\n"));
    let empty = WorldSummary {
        total_entities: 0,
        total_archetypes: 0,
        empty_archetypes: 0,
        total_send_resources: 0,
        total_non_send_resources: 0,
        archetype_summaries: Vec::new(),
        max_archetype_rows: Some(0),
    };
    assert_eq!(
        empty.to_text(),
        "Summary:\nEntity count: 0\nArchetype count: 0 (0 empty)\nResource count: 0 (0 `Send` + 0 non-`Send`)\nArchetypes:\n"
    );
}

#[test]
fn ranks_order_by_count_then_size_then_identifier() {
    let rank = |entity_count, components, archetype, position| SummaryRank {
        entity_count,
        components,
        archetype,
        position,
    };
    let ranks = vec![rank(1, 1, 1, 0), rank(3, 2, 9, 1), rank(3, 1, 8, 2), rank(3, 1, 7, 3), rank(3, 1, 7, 4)];
    let sorted: Vec<usize> = sort(&ranks).iter().map(|r| r.position).collect();
    assert_eq!(sorted, vec![3, 4, 2, 1, 0]);
    assert!(rank(2, 0, 0, 0).le(&rank(1, 0, 0, 0)));
    assert!(!rank(1, 0, 0, 0).le(&rank(2, 0, 0, 0)));
    assert!(EntityId::new(1, 9).le(&EntityId::new(2, 0)));
    assert!(ArchetypeId(3).le(&ArchetypeId(3)));
    assert_eq!(sort(&vec![ArchetypeId(3), ArchetypeId(1), ArchetypeId(2)]), vec![ArchetypeId(1), ArchetypeId(2), ArchetypeId(3)]);
}
