//! What holds of every grouping by similarity: it holds the entities that
//! exist among those given, each once.

use vstd::prelude::*;
use vstd::multiset::Multiset;
use vstd::seq_lib::{lemma_multiset_commutative, to_multiset_build};
use crate::archetype_similarity_grouping::{
    agglomerate, archetype_of, archetypes_of, closest_pair, is_closest_pair, is_near_least,
    jaccard_denominator, jaccard_numerator, lemma_closest_pair_unique,
    lemma_near_least_by_least, merge_pair, of_archetype,
    pair_before, pair_closer, seed_cluster, seed_clusters_of, signature_of, similarity_grouping,
    ClusterView,
};
use crate::fraction::lemma_fraction_less_trans;
use crate::entity_grouping::{
    distinct, exists_in, flatten_prefix, lemma_distinct, lemma_filter_keeps, members,
    GroupingTree,
};
use crate::sorting::{lemma_ordered_total, ordered};
use crate::store::{ArchetypeId, EntityId, Store};

verus! {

/// The entities of all the clusters of a list, each as often as it occurs.
pub open spec fn cluster_entities(clusters: Seq<ClusterView>) -> Multiset<EntityId>
    decreases clusters.len(),
{
    if clusters.len() == 0 {
        Multiset::empty()
    } else {
        cluster_entities(clusters.drop_last()).add(clusters.last().group.flatten().to_multiset())
    }
}

/// The entities of `entities` by archetype, for the archetypes of
/// `archetypes`, each entity as often as it is counted.
pub open spec fn partition_entities(store: &Store, entities: Seq<EntityId>, archetypes: Seq<ArchetypeId>) -> Multiset<
    EntityId,
>
    decreases archetypes.len(),
{
    if archetypes.len() == 0 {
        Multiset::empty()
    } else {
        partition_entities(store, entities, archetypes.drop_last()).add(
            entities.filter(of_archetype(store, archetypes.last())).to_multiset(),
        )
    }
}

/// The entities of a list of clusters are those of the list without one
/// cluster, and those of that cluster.
pub proof fn lemma_cluster_entities_remove(clusters: Seq<ClusterView>, i: int)
    requires
        0 <= i < clusters.len(),
    ensures
        cluster_entities(clusters) == cluster_entities(clusters.remove(i)).add(
            clusters[i].group.flatten().to_multiset(),
        ),
    decreases clusters.len(),
{
    broadcast use vstd::multiset::group_multiset_axioms;

    if i == clusters.len() - 1 {
        assert(clusters.remove(i) =~= clusters.drop_last());
    } else {
        let front = clusters.drop_last();
        lemma_cluster_entities_remove(front, i);
        assert(clusters.remove(i).drop_last() =~= front.remove(i));
        assert(clusters.remove(i).last() == clusters.last());
        assert(cluster_entities(clusters) =~= cluster_entities(clusters.remove(i)).add(
            clusters[i].group.flatten().to_multiset(),
        ));
    }
}

/// A merge keeps the entities of the clusters.
pub proof fn lemma_merge_keeps_entities(clusters: Seq<ClusterView>, low: int, high: int)
    requires
        0 <= low < high < clusters.len(),
    ensures
        cluster_entities(merge_pair(clusters, low, high)) == cluster_entities(clusters),
{
    broadcast use vstd::multiset::group_multiset_axioms;

    let without_high = clusters.remove(high);
    let without_both = without_high.remove(low);
    let merged = merge_pair(clusters, low, high);
    let parent = merged.last();
    lemma_cluster_entities_remove(clusters, high);
    assert(without_high[low] == clusters[low]);
    lemma_cluster_entities_remove(without_high, low);
    assert(merged.drop_last() =~= without_both);
    let left = clusters[low].group;
    let right = clusters[high].group;
    let pair = seq![left, right];
    assert(parent.group.sub_groups == pair);
    assert(flatten_prefix(pair, 0) == Seq::<EntityId>::empty());
    assert(flatten_prefix(pair, 1) == flatten_prefix(pair, 0) + pair[0].flatten());
    assert(flatten_prefix(pair, 2) == flatten_prefix(pair, 1) + pair[1].flatten());
    assert(parent.group.flatten() =~= left.flatten() + right.flatten());
    lemma_multiset_commutative(left.flatten(), right.flatten());
    assert(cluster_entities(merged) =~= cluster_entities(clusters));
}

/// No entity is counted for the archetypes of a list where there is no entity.
pub proof fn lemma_partition_empty(store: &Store, archetypes: Seq<ArchetypeId>)
    ensures
        partition_entities(store, Seq::empty(), archetypes) == Multiset::<EntityId>::empty(),
    decreases archetypes.len(),
{
    broadcast use vstd::multiset::group_multiset_axioms;
    broadcast use vstd::seq_lib::group_to_multiset_ensures;

    if archetypes.len() > 0 {
        lemma_partition_empty(store, archetypes.drop_last());
        let none = Seq::<EntityId>::empty();
        reveal(Seq::filter);
        assert(none.filter(of_archetype(store, archetypes.last())) =~= none);
        assert(none.to_multiset().len() == 0);
        assert(partition_entities(store, none, archetypes) =~= Multiset::<EntityId>::empty());
    }
}

/// One more entity is counted once where its archetype is in the list,
/// which holds no archetype twice, and not at all where it is not.
pub proof fn lemma_partition_push(store: &Store, front: Seq<EntityId>, entity: EntityId, archetypes: Seq<ArchetypeId>)
    requires
        archetypes.no_duplicates(),
    ensures
        partition_entities(store, front.push(entity), archetypes) == (if archetypes.contains(
            archetype_of(store, entity),
        ) {
            partition_entities(store, front, archetypes).insert(entity)
        } else {
            partition_entities(store, front, archetypes)
        }),
    decreases archetypes.len(),
{
    broadcast use vstd::multiset::group_multiset_axioms;

    if archetypes.len() > 0 {
        let rest = archetypes.drop_last();
        let last = archetypes.last();
        lemma_partition_push(store, front, entity, rest);
        front.lemma_filter_push(entity, of_archetype(store, last));
        to_multiset_build(front.filter(of_archetype(store, last)), entity);
        let own = archetype_of(store, entity);
        if rest.contains(own) {
            let k = choose|k: int| 0 <= k < rest.len() && rest[k] == own;
            assert(archetypes[k] == own);
            assert(archetypes[archetypes.len() - 1] == last);
            assert(own != last);
            assert(archetypes.contains(own));
        }
        if own == last {
            assert(archetypes[archetypes.len() - 1] == own);
            assert(archetypes.contains(own));
        }
        if archetypes.contains(own) && own != last {
            let k = choose|k: int| 0 <= k < archetypes.len() && archetypes[k] == own;
            assert(rest[k] == own);
        }
        assert(partition_entities(store, front.push(entity), archetypes) =~= (
        if archetypes.contains(own) {
            partition_entities(store, front, archetypes).insert(entity)
        } else {
            partition_entities(store, front, archetypes)
        }));
    } else {
        assert(!archetypes.contains(archetype_of(store, entity)));
    }
}

/// Counted by archetype, for a list without repetition that holds the
/// archetype of every entity, the entities are counted once each.
pub proof fn lemma_partition_is_all(store: &Store, entities: Seq<EntityId>, archetypes: Seq<ArchetypeId>)
    requires
        archetypes.no_duplicates(),
        forall|i: int|
            0 <= i < entities.len() ==> archetypes.contains(
                archetype_of(store, #[trigger] entities[i]),
            ),
    ensures
        partition_entities(store, entities, archetypes) == entities.to_multiset(),
    decreases entities.len(),
{
    broadcast use vstd::multiset::group_multiset_axioms;
    broadcast use vstd::seq_lib::group_to_multiset_ensures;

    if entities.len() == 0 {
        lemma_partition_empty(store, archetypes);
        assert(entities =~= Seq::<EntityId>::empty());
        assert(entities.to_multiset().len() == 0);
        assert(entities.to_multiset() =~= Multiset::<EntityId>::empty());
    } else {
        let front = entities.drop_last();
        let last = entities.last();
        assert(entities =~= front.push(last));
        assert forall|i: int| 0 <= i < front.len() implies archetypes.contains(
            archetype_of(store, #[trigger] front[i]),
        ) by {
            assert(front[i] == entities[i]);
        }
        lemma_partition_is_all(store, front, archetypes);
        lemma_partition_push(store, front, last, archetypes);
        assert(archetypes.contains(archetype_of(store, entities[entities.len() - 1])));
        to_multiset_build(front, last);
    }
}

/// The clusters that the clustering starts with hold the entities counted
/// by archetype.
pub proof fn lemma_seeds_are_partition(store: &Store, entities: Seq<EntityId>, archetypes: Seq<ArchetypeId>)
    ensures
        cluster_entities(
            Seq::new(archetypes.len(), |i: int| seed_cluster(store, entities, archetypes[i])),
        ) == partition_entities(store, entities, archetypes),
    decreases archetypes.len(),
{
    broadcast use vstd::multiset::group_multiset_axioms;

    let seeds = Seq::new(archetypes.len(), |i: int| seed_cluster(store, entities, archetypes[i]));
    if archetypes.len() > 0 {
        let rest = archetypes.drop_last();
        lemma_seeds_are_partition(store, entities, rest);
        assert(seeds.drop_last() =~= Seq::new(
            rest.len(),
            |i: int| seed_cluster(store, entities, rest[i]),
        ));
        let last = archetypes.last();
        let bucket = entities.filter(of_archetype(store, last));
        lemma_ordered_total::<EntityId>();
        bucket.lemma_sort_by_ensures(ordered::<EntityId>());
        let leaf = seeds.last().group;
        assert(leaf == GroupingTree::leaf(bucket.sort_by(ordered::<EntityId>())));
        assert(flatten_prefix(leaf.sub_groups, 0) == Seq::<EntityId>::empty());
        assert(leaf.flatten() =~= bucket.sort_by(ordered::<EntityId>()));
    }
}

/// The clusters that the clustering starts with hold the given entities,
/// once each.
pub proof fn lemma_seeds_hold_all(store: &Store, entities: Seq<EntityId>)
    ensures
        cluster_entities(seed_clusters_of(store, entities)) == entities.to_multiset(),
{
    let to_archetype = |entity: EntityId| archetype_of(store, entity);
    let all = entities.map_values(to_archetype);
    let unsorted = distinct(all);
    let archetypes = archetypes_of(store, entities);
    lemma_distinct(all);
    lemma_ordered_total::<ArchetypeId>();
    unsorted.lemma_sort_by_ensures(ordered::<ArchetypeId>());
    unsorted.lemma_multiset_has_no_duplicates();
    archetypes.lemma_multiset_has_no_duplicates_conv();
    assert forall|i: int| 0 <= i < entities.len() implies archetypes.contains(
        archetype_of(store, #[trigger] entities[i]),
    ) by {
        broadcast use vstd::seq_lib::group_to_multiset_ensures;

        let own = archetype_of(store, entities[i]);
        assert(all[i] == own);
        assert(all.contains(own));
        assert(unsorted.contains(own));
        assert(unsorted.to_multiset().count(own) > 0);
        assert(archetypes.to_multiset().count(own) > 0);
    }
    lemma_seeds_are_partition(store, entities, archetypes);
    lemma_partition_is_all(store, entities, archetypes);
}

/// The entities that a grouping holds are among those given and exist,
/// and none of them is held twice.
pub proof fn lemma_members(store: &Store, entities: Seq<EntityId>)
    ensures
        members(store, entities).no_duplicates(),
        forall|entity: EntityId|
            members(store, entities).contains(entity) <==> entities.contains(entity)
                && store.exists_spec(entity),
{
    lemma_distinct(entities);
    let unique = distinct(entities);
    let kept = members(store, entities);
    lemma_filter_keeps(unique, exists_in(store));
}

/// Among the pairs that come before `(i, j)`, none is closer than `best`,
/// and `best` is the first of those that are as close.
pub open spec fn is_closest_before(clusters: Seq<ClusterView>, i: int, j: int, best: (int, int)) -> bool {
    &&& 0 <= best.0 < best.1 < clusters.len()
    &&& pair_before(best.0, best.1, i, j)
    &&& forall|p: int, q: int|
        0 <= p < q < clusters.len() && pair_before(p, q, i, j) ==> !#[trigger] pair_closer(
            clusters,
            p,
            q,
            best.0,
            best.1,
        )
    &&& forall|p: int, q: int|
        0 <= p < q < clusters.len() && pair_before(p, q, i, j) && pair_before(
            p,
            q,
            best.0,
            best.1,
        ) ==> #[trigger] pair_closer(clusters, best.0, best.1, p, q)
}

/// Among the pairs of clusters that come before a pair, one is the first
/// than which none is closer.
pub proof fn lemma_closest_before(clusters: Seq<ClusterView>, i: int, j: int) -> (best: (int, int))
    requires
        clusters.len() >= 2,
        0 <= i < clusters.len(),
        i < j <= clusters.len(),
        pair_before(0, 1, i, j),
    ensures
        is_closest_before(clusters, i, j, best),
    decreases i, j,
{
    if j > i + 1 {
        if i == 0 && j == 2 {
            (0, 1)
        } else {
            let before = lemma_closest_before(clusters, i, j - 1);
            let candidate = (i, j - 1);
            if pair_closer(clusters, i, j - 1, before.0, before.1) {
                assert forall|p: int, q: int|
                    0 <= p < q < clusters.len() && pair_before(
                        p,
                        q,
                        i,
                        j,
                    ) implies !#[trigger] pair_closer(clusters, p, q, i, j - 1) by {
                    if pair_before(p, q, i, j - 1) && pair_closer(clusters, p, q, i, j - 1) {
                        assert(!pair_closer(clusters, p, q, before.0, before.1));
                        lemma_fraction_less_trans(
                            jaccard_numerator(clusters[p].signature, clusters[q].signature),
                            jaccard_denominator(clusters[p].signature, clusters[q].signature),
                            jaccard_numerator(clusters[i].signature, clusters[j - 1].signature),
                            jaccard_denominator(clusters[i].signature, clusters[j - 1].signature),
                            jaccard_numerator(
                                clusters[before.0].signature,
                                clusters[before.1].signature,
                            ),
                            jaccard_denominator(
                                clusters[before.0].signature,
                                clusters[before.1].signature,
                            ),
                        );
                    }
                }
                assert forall|p: int, q: int|
                    0 <= p < q < clusters.len() && pair_before(p, q, i, j) && pair_before(
                        p,
                        q,
                        i,
                        j - 1,
                    ) implies #[trigger] pair_closer(clusters, i, j - 1, p, q) by {
                    assert(!pair_closer(clusters, p, q, before.0, before.1));
                    lemma_fraction_less_trans(
                        jaccard_numerator(clusters[i].signature, clusters[j - 1].signature),
                        jaccard_denominator(clusters[i].signature, clusters[j - 1].signature),
                        jaccard_numerator(
                            clusters[before.0].signature,
                            clusters[before.1].signature,
                        ),
                        jaccard_denominator(
                            clusters[before.0].signature,
                            clusters[before.1].signature,
                        ),
                        jaccard_numerator(clusters[p].signature, clusters[q].signature),
                        jaccard_denominator(clusters[p].signature, clusters[q].signature),
                    );
                }
                candidate
            } else {
                assert forall|p: int, q: int|
                    0 <= p < q < clusters.len() && pair_before(
                        p,
                        q,
                        i,
                        j,
                    ) implies !#[trigger] pair_closer(clusters, p, q, before.0, before.1) by {
                    if !pair_before(p, q, i, j - 1) {
                        assert(p == i && q == j - 1);
                    }
                }
                before
            }
        }
    } else {
        let before = lemma_closest_before(clusters, i - 1, clusters.len() as int);
        before
    }
}

/// `found` is the first pair, among those that come before `(i, j)`, that
/// is as close as any pair, give or take a hundred-thousandth; none where
/// no pair before `(i, j)` is that close.
pub open spec fn is_first_near_before(
    clusters: Seq<ClusterView>,
    i: int,
    j: int,
    found: Option<(int, int)>,
) -> bool {
    match found {
        Some(pair) => {
            &&& 0 <= pair.0 < pair.1 < clusters.len()
            &&& pair_before(pair.0, pair.1, i, j)
            &&& is_near_least(clusters, pair.0, pair.1)
            &&& forall|p: int, q: int|
                0 <= p < q < clusters.len() && pair_before(p, q, pair.0, pair.1)
                    ==> !#[trigger] is_near_least(clusters, p, q)
        },
        None => forall|p: int, q: int|
            0 <= p < q < clusters.len() && pair_before(p, q, i, j) ==> !#[trigger] is_near_least(
                clusters,
                p,
                q,
            ),
    }
}

/// Among the pairs that come before a pair, one is the first that is as
/// close as any pair, or none is that close.
pub proof fn lemma_first_near_before(clusters: Seq<ClusterView>, i: int, j: int) -> (found: Option<
    (int, int),
>)
    requires
        0 <= i < clusters.len(),
        i < j <= clusters.len(),
    ensures
        is_first_near_before(clusters, i, j, found),
    decreases i, j,
{
    if j > i + 1 {
        let before = lemma_first_near_before(clusters, i, j - 1);
        match before {
            Some(_) => before,
            None => {
                if is_near_least(clusters, i, j - 1) {
                    Some((i, j - 1))
                } else {
                    assert forall|p: int, q: int|
                        0 <= p < q < clusters.len() && pair_before(
                            p,
                            q,
                            i,
                            j,
                        ) implies !#[trigger] is_near_least(clusters, p, q) by {
                        if !pair_before(p, q, i, j - 1) {
                            assert(p == i && q == j - 1);
                        }
                    }
                    None
                }
            },
        }
    } else if i == 0 {
        None
    } else {
        lemma_first_near_before(clusters, i - 1, clusters.len() as int)
    }
}

/// Among two clusters or more, one pair is the pair to merge.
pub proof fn lemma_closest_pair_exists(clusters: Seq<ClusterView>)
    requires
        clusters.len() >= 2,
    ensures
        is_closest_pair(clusters, closest_pair(clusters).0, closest_pair(clusters).1),
{
    let n = clusters.len() as int;
    let least = lemma_closest_before(clusters, n - 1, n);
    lemma_near_least_by_least(clusters, least, least.0, least.1);
    let found = lemma_first_near_before(clusters, n - 1, n);
    if found is None {
        assert(!is_near_least(clusters, least.0, least.1));
    }
    let pair = found->0;
    assert(is_closest_pair(clusters, pair.0, pair.1));
    lemma_closest_pair_unique(clusters, pair.0, pair.1);
}

/// The grouping that clustering makes holds the entities of the clusters,
/// each as often as the clusters hold it.
pub proof fn lemma_agglomerate_keeps_entities(clusters: Seq<ClusterView>)
    ensures
        agglomerate(clusters).flatten().to_multiset() == cluster_entities(clusters),
    decreases clusters.len(),
{
    broadcast use vstd::multiset::group_multiset_axioms;
    broadcast use vstd::seq_lib::group_to_multiset_ensures;

    if clusters.len() == 0 {
        let none = GroupingTree::empty();
        assert(flatten_prefix(none.sub_groups, 0) == Seq::<EntityId>::empty());
        assert(none.flatten() =~= Seq::<EntityId>::empty());
        assert(none.flatten().to_multiset().len() == 0);
        assert(none.flatten().to_multiset() =~= Multiset::<EntityId>::empty());
    } else if clusters.len() == 1 {
        assert(clusters.drop_last() =~= Seq::<ClusterView>::empty());
        assert(cluster_entities(clusters.drop_last()) == Multiset::<EntityId>::empty());
        assert(cluster_entities(clusters) =~= clusters[0].group.flatten().to_multiset());
    } else {
        lemma_closest_pair_exists(clusters);
        let pair = closest_pair(clusters);
        lemma_merge_keeps_entities(clusters, pair.0, pair.1);
        lemma_agglomerate_keeps_entities(merge_pair(clusters, pair.0, pair.1));
    }
}

/// The flattened grouping by similarity holds exactly the entities that
/// exist among those given, each once: whatever is given twice, and whatever
/// does not exist, is left out.
pub proof fn lemma_similarity_flatten_complete(store: &Store, entities: Seq<EntityId>)
    ensures
        similarity_grouping(store, entities).flatten().to_multiset() == members(
            store,
            entities,
        ).to_multiset(),
        similarity_grouping(store, entities).flatten().no_duplicates(),
        forall|entity: EntityId|
            similarity_grouping(store, entities).flatten().contains(entity) <==> entities.contains(
                entity,
            ) && store.exists_spec(entity),
{
    broadcast use vstd::seq_lib::group_to_multiset_ensures;

    let kept = members(store, entities);
    let flat = similarity_grouping(store, entities).flatten();
    lemma_seeds_hold_all(store, kept);
    lemma_agglomerate_keeps_entities(seed_clusters_of(store, kept));
    lemma_members(store, entities);
    kept.lemma_multiset_has_no_duplicates();
    flat.lemma_multiset_has_no_duplicates_conv();
    assert forall|entity: EntityId|
        flat.contains(entity) <==> entities.contains(entity) && store.exists_spec(entity) by {
        assert(flat.contains(entity) <==> flat.to_multiset().count(entity) > 0);
        assert(kept.contains(entity) <==> kept.to_multiset().count(entity) > 0);
    }
}

/// Grouping no entities by similarity gives a grouping without entities
/// and without sub-groups.
pub proof fn lemma_similarity_of_nothing(store: &Store)
    ensures
        similarity_grouping(store, Seq::empty()) == GroupingTree::empty(),
{
    broadcast use vstd::seq_lib::group_to_multiset_ensures;

    let none = Seq::<EntityId>::empty();
    lemma_members(store, none);
    let kept = members(store, none);
    if kept.len() > 0 {
        assert(kept.contains(kept[0]));
    }
    let all = kept.map_values(|entity: EntityId| archetype_of(store, entity));
    lemma_distinct(all);
    if distinct(all).len() > 0 {
        assert(distinct(all).contains(distinct(all)[0]));
        let k = choose|k: int| 0 <= k < all.len() && all[k] == distinct(all)[0];
    }
    lemma_ordered_total::<ArchetypeId>();
    distinct(all).lemma_sort_by_ensures(ordered::<ArchetypeId>());
    assert(archetypes_of(store, kept).to_multiset().len() == 0);
    assert(seed_clusters_of(store, kept).len() == 0);
}

/// Grouping entities of one archetype by similarity gives one node with
/// all of them, smallest index first.
pub proof fn lemma_similarity_of_one_archetype(store: &Store, entities: Seq<EntityId>, archetype: ArchetypeId)
    requires
        members(store, entities).len() > 0,
        forall|i: int|
            0 <= i < members(store, entities).len() ==> archetype_of(
                store,
                #[trigger] members(store, entities)[i],
            ) == archetype,
    ensures
        similarity_grouping(store, entities) == GroupingTree::leaf(
            members(store, entities).sort_by(ordered::<EntityId>()),
        ),
{
    broadcast use vstd::seq_lib::group_to_multiset_ensures;

    let kept = members(store, entities);
    let all = kept.map_values(|entity: EntityId| archetype_of(store, entity));
    let unique = distinct(all);
    let archetypes = archetypes_of(store, kept);
    lemma_distinct(all);
    lemma_ordered_total::<ArchetypeId>();
    unique.lemma_sort_by_ensures(ordered::<ArchetypeId>());
    assert(all[0] == archetype);
    assert(all.contains(archetype));
    assert(unique.contains(archetype));
    assert forall|k: int| 0 <= k < unique.len() implies unique[k] == archetype by {
        assert(distinct(all).contains(unique[k]));
        assert(all.contains(unique[k]));
        let m = choose|m: int| 0 <= m < all.len() && all[m] == unique[k];
        assert(all[m] == archetype_of(store, kept[m]));
    }
    if unique.len() > 1 {
        assert(unique[0] == unique[1]);
    }
    assert(unique.len() == 1);
    assert(archetypes.to_multiset().len() == 1);
    assert(archetypes.len() == 1);
    assert(archetypes.contains(archetypes[0]));
    assert(archetypes.to_multiset().count(archetypes[0]) > 0);
    assert(unique.contains(archetypes[0]));
    assert(archetypes[0] == archetype);
    lemma_filter_keeps(kept, of_archetype(store, archetype));
    assert(kept.filter(of_archetype(store, archetype)) =~= kept) by {
        lemma_filter_all(kept, of_archetype(store, archetype));
    }
    assert(seed_clusters_of(store, kept).len() == 1);
}

/// In a store whose archetypes stand for signatures, grouping entities
/// that all have the same component types gives one node with all of
/// them, smallest index first.
pub proof fn lemma_similarity_of_one_signature(store: &Store, entities: Seq<EntityId>)
    requires
        store.archetypes_by_signature(),
        members(store, entities).len() > 0,
        forall|i: int, j: int|
            0 <= i < members(store, entities).len() && 0 <= j < members(store, entities).len()
                ==> signature_of(store, #[trigger] members(store, entities)[i]) == signature_of(
                store,
                #[trigger] members(store, entities)[j],
            ),
    ensures
        similarity_grouping(store, entities) == GroupingTree::leaf(
            members(store, entities).sort_by(ordered::<EntityId>()),
        ),
{
    let kept = members(store, entities);
    lemma_members(store, entities);
    let archetype = archetype_of(store, kept[0]);
    assert(kept.contains(kept[0]));
    assert forall|i: int| 0 <= i < kept.len() implies archetype_of(store, #[trigger] kept[i])
        == archetype by {
        assert(kept.contains(kept[i]));
        assert(signature_of(store, kept[i]) == signature_of(store, kept[0]));
    }
    lemma_similarity_of_one_archetype(store, entities, archetype);
}

/// A sequence is kept whole where the predicate holds of all its values.
pub proof fn lemma_filter_all<T>(values: Seq<T>, keep: spec_fn(T) -> bool)
    requires
        forall|i: int| 0 <= i < values.len() ==> keep(#[trigger] values[i]),
    ensures
        values.filter(keep) == values,
    decreases values.len(),
{
    reveal(Seq::filter);
    if values.len() > 0 {
        let front = values.drop_last();
        assert forall|i: int| 0 <= i < front.len() implies keep(#[trigger] front[i]) by {
            assert(front[i] == values[i]);
        }
        lemma_filter_all(front, keep);
        assert(values.filter(keep) =~= values);
    } else {
        assert(values.filter(keep) =~= values);
    }
}

} // verus!
