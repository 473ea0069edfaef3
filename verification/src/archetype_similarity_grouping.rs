//! Grouping entities by how much the component types of their archetypes overlap.

use vstd::prelude::*;
use vstd::set_lib::{lemma_len_subset, lemma_subset_equality};
use bevy::platform::collections::HashSet;
use bevy::platform::hash::FixedHasher;
use bevy::platform::collections::HashMap;
use crate::collections::{
    bucket_at, bucket_entries, buckets_get, buckets_new, buckets_push, set_clone, set_contains,
    set_insert, set_intersection, set_items, set_len, set_new, set_union, signature_entries,
    signatures_get, signatures_insert, signatures_new,
};
use crate::entity_grouping::{
    distinct, distinct_values, exists_in, lemma_distinct, members, EntityGrouping, GroupingTree,
};
use crate::fraction::{
    fraction_is_less, fraction_is_within, fraction_less, fraction_within,
    lemma_fraction_less_trans, lemma_fraction_within_least, lemma_fraction_within_more,
};
use crate::sorting::{lemma_ordered_total, ordered, sort};
use crate::store::{ArchetypeId, ComponentTypeId, EntityId, Store};

verus! {

/// The signature of an archetype or of a cluster: a finite set of component types.
pub struct Signature {
    types: HashSet<u64, FixedHasher>,
}

/// A distance between two signatures: the fraction `numerator / denominator`.
#[derive(Clone, Copy, Debug, PartialEq, Eq, Structural)]
pub struct Distance {
    /// How many component types are in one signature only.
    pub numerator: usize,
    /// How many component types are in either signature; 1 where there is none.
    pub denominator: usize,
}

/// The numbers of the component types in `components`.
pub open spec fn type_numbers(components: Seq<ComponentTypeId>) -> Set<u64> {
    components.map_values(|c: ComponentTypeId| c.0).to_set()
}

/// The numerator of the Jaccard distance of `a` and `b`: the number of
/// elements in their union and not in their intersection.
pub open spec fn jaccard_numerator(a: Set<u64>, b: Set<u64>) -> nat {
    (a.union(b).len() - a.intersect(b).len()) as nat
}

/// The denominator of the Jaccard distance of `a` and `b`: the size of
/// their union, and 1 where both are empty.
pub open spec fn jaccard_denominator(a: Set<u64>, b: Set<u64>) -> nat {
    if a.union(b).len() == 0 {
        1
    } else {
        a.union(b).len()
    }
}

impl Signature {
    #[verifier::type_invariant]
    spec fn is_finite(&self) -> bool {
        set_items(self.types).finite()
    }

    /// The numbers of the component types in the signature.
    pub closed spec fn items(&self) -> Set<u64> {
        set_items(self.types)
    }

    /// A signature without component types.
    pub fn new() -> (signature: Self)
        ensures
            signature.items() == Set::<u64>::empty(),
    {
        Signature { types: set_new() }
    }

    /// The signature of the given component types.
    pub fn from_components(components: &Vec<ComponentTypeId>) -> (signature: Self)
        ensures
            signature.items() == type_numbers(components@),
    {
        let mut types = set_new();
        let ghost numbers = components@.map_values(|c: ComponentTypeId| c.0);
        let mut i: usize = 0;
        while i < components.len()
            invariant
                i <= components.len(),
                numbers == components@.map_values(|c: ComponentTypeId| c.0),
                set_items(types).finite(),
                set_items(types) == numbers.take(i as int).to_set(),
            decreases components.len() - i,
        {
            set_insert(&mut types, components[i].0);
            proof {
                assert(numbers.take(i as int + 1) == numbers.take(i as int).push(
                    numbers[i as int],
                ));
                numbers.take(i as int).lemma_push_to_set_commute(numbers[i as int]);
            }
            i += 1;
        }
        assert(numbers.take(components.len() as int) == numbers);
        Signature { types }
    }

    /// Whether the signature holds the component type.
    pub fn contains(&self, component: ComponentTypeId) -> (found: bool)
        ensures
            found == self.items().contains(component.0),
    {
        set_contains(&self.types, component.0)
    }

    /// The number of component types in the signature.
    pub fn len(&self) -> (len: usize)
        ensures
            self.items().finite(),
            len == self.items().len(),
    {
        proof {
            use_type_invariant(self);
        }
        set_len(&self.types)
    }

    /// The component types that both signatures hold.
    pub fn intersection(&self, other: &Signature) -> (both: Signature)
        ensures
            both.items() == self.items().intersect(other.items()),
    {
        proof {
            use_type_invariant(self);
            use_type_invariant(other);
        }
        Signature { types: set_intersection(&self.types, &other.types) }
    }

    /// The component types that either signature holds.
    pub fn union(&self, other: &Signature) -> (either: Signature)
        ensures
            either.items() == self.items().union(other.items()),
    {
        proof {
            use_type_invariant(self);
            use_type_invariant(other);
        }
        Signature { types: set_union(&self.types, &other.types) }
    }
}

impl Clone for Signature {
    fn clone(&self) -> (copy: Self)
        ensures
            copy.items() == self.items(),
    {
        proof {
            use_type_invariant(self);
        }
        Signature { types: set_clone(&self.types) }
    }
}

impl Distance {
    /// Whether this distance exceeds `other` by less than a
    /// hundred-thousandth, or not at all.
    pub fn is_within(&self, other: &Distance) -> (within: bool)
        ensures
            within == fraction_within(
                self.numerator as nat,
                self.denominator as nat,
                other.numerator as nat,
                other.denominator as nat,
            ),
    {
        fraction_is_within(self.numerator, self.denominator, other.numerator, other.denominator)
    }

    /// Whether this distance is less than `other`.
    pub fn is_less_than(&self, other: &Distance) -> (less: bool)
        ensures
            less == fraction_less(
                self.numerator as nat,
                self.denominator as nat,
                other.numerator as nat,
                other.denominator as nat,
            ),
    {
        fraction_is_less(self.numerator, self.denominator, other.numerator, other.denominator)
    }
}

/// The Jaccard distance of two signatures: 1 less the share of their common
/// component types among all their component types; 0 for two empty signatures.
pub fn jaccard_distance(a: &Signature, b: &Signature) -> (distance: Distance)
    ensures
        distance.numerator == jaccard_numerator(a.items(), b.items()),
        distance.denominator == jaccard_denominator(a.items(), b.items()),
{
    let both = a.intersection(b);
    let either = a.union(b);
    let common = both.len();
    let all = either.len();
    proof {
        use_type_invariant(a);
        use_type_invariant(b);
        lemma_len_subset(a.items().intersect(b.items()), a.items().union(b.items()));
    }
    Distance { numerator: all - common, denominator: if all == 0 { 1 } else { all } }
}

/// The Jaccard distance of two finite sets lies between 0 and 1; it is 0
/// exactly when the sets are equal, and 1 exactly when they have nothing in
/// common and are not both empty.
pub proof fn lemma_jaccard_bounds(a: Set<u64>, b: Set<u64>)
    requires
        a.finite(),
        b.finite(),
    ensures
        0 <= jaccard_numerator(a, b) <= jaccard_denominator(a, b),
        jaccard_denominator(a, b) > 0,
        jaccard_numerator(a, b) == 0 <==> a == b,
        jaccard_numerator(a, b) == jaccard_denominator(a, b) <==> (a.disjoint(b) && !(a.is_empty()
            && b.is_empty())),
{
    let both = a.intersect(b);
    let either = a.union(b);
    lemma_len_subset(both, either);
    if both.len() == either.len() {
        lemma_subset_equality(both, either);
        assert(a =~= b) by {
            assert forall|x: u64| a.contains(x) <==> b.contains(x) by {
                if a.contains(x) || b.contains(x) {
                    assert(either.contains(x));
                    assert(both.contains(x));
                }
            }
        }
    }
    if a == b {
        assert(both =~= either);
    }
    if a.disjoint(b) {
        assert(both =~= Set::<u64>::empty());
    }
    if both.len() == 0 {
        assert(a.disjoint(b)) by {
            assert forall|x: u64| !(a.contains(x) && b.contains(x)) by {
                if a.contains(x) && b.contains(x) {
                    assert(both.contains(x));
                }
            }
        }
    }
    if either.len() == 0 {
        assert(a =~= Set::<u64>::empty() && b =~= Set::<u64>::empty()) by {
            assert forall|x: u64| !a.contains(x) && !b.contains(x) by {
                if a.contains(x) || b.contains(x) {
                    assert(either.contains(x));
                }
            }
        }
    }
    if a.is_empty() && b.is_empty() {
        assert(either =~= Set::<u64>::empty());
    }
}

/// A cluster of archetypes on its way through the clustering.
pub struct Cluster {
    /// The component types that all archetypes of the cluster share.
    pub signature: Signature,
    /// The grouping of the entities of the cluster.
    pub group: EntityGrouping,
}

/// A cluster as mathematical values.
pub struct ClusterView {
    /// The numbers of the component types that all archetypes of the cluster share.
    pub signature: Set<u64>,
    /// The grouping of the entities of the cluster.
    pub group: GroupingTree,
}

/// Two clusters of a list, by their positions, and the distance between them.
#[derive(Clone, Copy, Debug)]
pub struct ClusterPairMetadata {
    /// The position of the cluster that stands first.
    pub low: usize,
    /// The position of the cluster that stands second.
    pub high: usize,
    /// The distance between the signatures of the two.
    pub distance: Distance,
}

impl View for Cluster {
    type V = ClusterView;

    open spec fn view(&self) -> ClusterView {
        ClusterView { signature: self.signature.items(), group: self.group@ }
    }
}

/// The clusters of a list as mathematical values.
pub open spec fn cluster_views(clusters: Seq<Cluster>) -> Seq<ClusterView> {
    Seq::new(clusters.len(), |i: int| clusters[i]@)
}

/// The clusters at `i` and `j` are closer to each other than those at `k` and `l`.
pub open spec fn pair_closer(clusters: Seq<ClusterView>, i: int, j: int, k: int, l: int) -> bool {
    fraction_less(
        jaccard_numerator(clusters[i].signature, clusters[j].signature),
        jaccard_denominator(clusters[i].signature, clusters[j].signature),
        jaccard_numerator(clusters[k].signature, clusters[l].signature),
        jaccard_denominator(clusters[k].signature, clusters[l].signature),
    )
}

/// The pair of positions `(i, j)` comes before `(k, l)` in lexicographic order.
pub open spec fn pair_before(i: int, j: int, k: int, l: int) -> bool {
    i < k || (i == k && j < l)
}

/// The clusters at `i` and `j` are farther from each other than those at
/// `k` and `l` by less than a hundred-thousandth, or not at all.
pub open spec fn pair_within(clusters: Seq<ClusterView>, i: int, j: int, k: int, l: int) -> bool {
    fraction_within(
        jaccard_numerator(clusters[i].signature, clusters[j].signature),
        jaccard_denominator(clusters[i].signature, clusters[j].signature),
        jaccard_numerator(clusters[k].signature, clusters[l].signature),
        jaccard_denominator(clusters[k].signature, clusters[l].signature),
    )
}

/// The clusters at `low` and `high` are as close as any two, give or take
/// a hundred-thousandth: no pair is closer by that much.
pub open spec fn is_near_least(clusters: Seq<ClusterView>, low: int, high: int) -> bool {
    forall|i: int, j: int|
        0 <= i < j < clusters.len() ==> #[trigger] pair_within(clusters, low, high, i, j)
}

/// `(low, high)` is the pair to merge: it is as close as any pair, where
/// distances that differ by less than a hundred-thousandth count as
/// equal, and it is the first such pair in lexicographic order.
pub open spec fn is_closest_pair(clusters: Seq<ClusterView>, low: int, high: int) -> bool {
    &&& 0 <= low < high < clusters.len()
    &&& is_near_least(clusters, low, high)
    &&& forall|i: int, j: int|
        0 <= i < j < clusters.len() && pair_before(i, j, low, high) ==> !#[trigger] is_near_least(
            clusters,
            i,
            j,
        )
}

/// The pair of clusters to merge.
pub open spec fn closest_pair(clusters: Seq<ClusterView>) -> (int, int) {
    choose|pair: (int, int)| is_closest_pair(clusters, pair.0, pair.1)
}

/// The clusters after the two at `low` and `high` have been merged: both
/// are taken out, and a cluster is added at the end whose signature is what
/// the two have in common and whose grouping has the two groupings as its
/// sub-groups.
pub open spec fn merge_pair(clusters: Seq<ClusterView>, low: int, high: int) -> Seq<ClusterView> {
    clusters.remove(high).remove(low).push(
        ClusterView {
            signature: clusters[low].signature.intersect(clusters[high].signature),
            group: GroupingTree {
                entities: Seq::empty(),
                sub_groups: seq![clusters[low].group, clusters[high].group],
            },
        },
    )
}

/// The grouping that clustering makes of `clusters`: the closest pair is
/// merged until one cluster is left.
pub open spec fn agglomerate(clusters: Seq<ClusterView>) -> GroupingTree
    decreases clusters.len(),
{
    if clusters.len() == 0 {
        GroupingTree::empty()
    } else if clusters.len() == 1 {
        clusters[0].group
    } else {
        let pair = closest_pair(clusters);
        if 0 <= pair.0 < pair.1 < clusters.len() {
            agglomerate(merge_pair(clusters, pair.0, pair.1))
        } else {
            GroupingTree::empty()
        }
    }
}

/// Only one pair is the pair to merge.
pub proof fn lemma_closest_pair_unique(clusters: Seq<ClusterView>, low: int, high: int)
    requires
        is_closest_pair(clusters, low, high),
    ensures
        closest_pair(clusters) == (low, high),
{
    let chosen = closest_pair(clusters);
    assert(is_closest_pair(clusters, (low, high).0, (low, high).1));
    assert(is_closest_pair(clusters, chosen.0, chosen.1));
    if pair_before(chosen.0, chosen.1, low, high) {
        assert(!is_near_least(clusters, chosen.0, chosen.1));
    }
    if pair_before(low, high, chosen.0, chosen.1) {
        assert(!is_near_least(clusters, low, high));
    }
}

/// A pair is as close as any pair, give or take a hundred-thousandth,
/// exactly when it is that close to a pair than which none is closer.
pub proof fn lemma_near_least_by_least(clusters: Seq<ClusterView>, least: (int, int), low: int, high: int)
    requires
        0 <= least.0 < least.1 < clusters.len(),
        0 <= low < high < clusters.len(),
        forall|i: int, j: int|
            0 <= i < j < clusters.len() ==> !#[trigger] pair_closer(
                clusters,
                i,
                j,
                least.0,
                least.1,
            ),
    ensures
        is_near_least(clusters, low, high) <==> pair_within(
            clusters,
            low,
            high,
            least.0,
            least.1,
        ),
        is_near_least(clusters, least.0, least.1),
{
    if pair_within(clusters, low, high, least.0, least.1) {
        assert forall|i: int, j: int| 0 <= i < j < clusters.len() implies #[trigger] pair_within(
            clusters,
            low,
            high,
            i,
            j,
        ) by {
            assert(!pair_closer(clusters, i, j, least.0, least.1));
            lemma_fraction_within_more(
                jaccard_numerator(clusters[low].signature, clusters[high].signature),
                jaccard_denominator(clusters[low].signature, clusters[high].signature),
                jaccard_numerator(clusters[least.0].signature, clusters[least.1].signature),
                jaccard_denominator(clusters[least.0].signature, clusters[least.1].signature),
                jaccard_numerator(clusters[i].signature, clusters[j].signature),
                jaccard_denominator(clusters[i].signature, clusters[j].signature),
            );
        }
    }
    if is_near_least(clusters, low, high) {
        assert(pair_within(clusters, low, high, least.0, least.1));
    }
    assert forall|i: int, j: int| 0 <= i < j < clusters.len() implies #[trigger] pair_within(
        clusters,
        least.0,
        least.1,
        i,
        j,
    ) by {
        assert(!pair_closer(clusters, i, j, least.0, least.1));
        lemma_fraction_within_least(
            jaccard_numerator(clusters[least.0].signature, clusters[least.1].signature),
            jaccard_denominator(clusters[least.0].signature, clusters[least.1].signature),
            jaccard_numerator(clusters[i].signature, clusters[j].signature),
            jaccard_denominator(clusters[i].signature, clusters[j].signature),
        );
    }
}

/// The key of a pair of positions: the smaller first.
pub open spec fn pair_key(low: int, high: int) -> (int, int) {
    if low <= high {
        (low, high)
    } else {
        (high, low)
    }
}

/// Whether the first pair is preferred to the second where both are equally
/// close: whether its key comes first in lexicographic order.
pub fn tie_break(pair_a: ClusterPairMetadata, pair_b: ClusterPairMetadata) -> (preferred: bool)
    ensures
        preferred == pair_before(
            pair_key(pair_a.low as int, pair_a.high as int).0,
            pair_key(pair_a.low as int, pair_a.high as int).1,
            pair_key(pair_b.low as int, pair_b.high as int).0,
            pair_key(pair_b.low as int, pair_b.high as int).1,
        ),
{
    let key = if pair_a.low <= pair_a.high {
        (pair_a.low, pair_a.high)
    } else {
        (pair_a.high, pair_a.low)
    };
    let nearest_key = if pair_b.low <= pair_b.high {
        (pair_b.low, pair_b.high)
    } else {
        (pair_b.high, pair_b.low)
    };
    key.0 < nearest_key.0 || (key.0 == nearest_key.0 && key.1 < nearest_key.1)
}

/// Finds a pair of clusters than which none is closer.
fn find_least_pair(clusters: &Vec<Cluster>) -> (pair: ClusterPairMetadata)
    requires
        clusters.len() >= 2,
    ensures
        0 <= pair.low < pair.high < clusters.len(),
        pair.distance.numerator == jaccard_numerator(
            clusters@[pair.low as int].signature.items(),
            clusters@[pair.high as int].signature.items(),
        ),
        pair.distance.denominator == jaccard_denominator(
            clusters@[pair.low as int].signature.items(),
            clusters@[pair.high as int].signature.items(),
        ),
        forall|p: int, q: int|
            0 <= p < q < clusters.len() ==> !#[trigger] pair_closer(
                cluster_views(clusters@),
                p,
                q,
                pair.low as int,
                pair.high as int,
            ),
{
    let ghost views = cluster_views(clusters@);
    let n = clusters.len();
    let mut least = ClusterPairMetadata {
        low: 0,
        high: 1,
        distance: jaccard_distance(&clusters[0].signature, &clusters[1].signature),
    };
    let mut i: usize = 0;
    while i < n
        invariant
            n == clusters.len(),
            n >= 2,
            views == cluster_views(clusters@),
            i <= n,
            0 <= least.low < least.high < n,
            least.distance.numerator == jaccard_numerator(
                views[least.low as int].signature,
                views[least.high as int].signature,
            ),
            least.distance.denominator == jaccard_denominator(
                views[least.low as int].signature,
                views[least.high as int].signature,
            ),
            forall|p: int, q: int|
                0 <= p < q < n && p < i ==> !#[trigger] pair_closer(
                    views,
                    p,
                    q,
                    least.low as int,
                    least.high as int,
                ),
        decreases n - i,
    {
        let mut j: usize = i + 1;
        while j < n
            invariant
                n == clusters.len(),
                n >= 2,
                views == cluster_views(clusters@),
                i < n,
                i < j <= n,
                0 <= least.low < least.high < n,
                least.distance.numerator == jaccard_numerator(
                    views[least.low as int].signature,
                    views[least.high as int].signature,
                ),
                least.distance.denominator == jaccard_denominator(
                    views[least.low as int].signature,
                    views[least.high as int].signature,
                ),
                forall|p: int, q: int|
                    0 <= p < q < n && pair_before(p, q, i as int, j as int)
                        ==> !#[trigger] pair_closer(
                        views,
                        p,
                        q,
                        least.low as int,
                        least.high as int,
                    ),
            decreases n - j,
        {
            let distance = jaccard_distance(&clusters[i].signature, &clusters[j].signature);
            let ghost before = least;
            if distance.is_less_than(&least.distance) {
                least = ClusterPairMetadata { low: i, high: j, distance };
                proof {
                    assert forall|p: int, q: int|
                        0 <= p < q < n && pair_before(
                            p,
                            q,
                            i as int,
                            j as int + 1,
                        ) implies !#[trigger] pair_closer(views, p, q, i as int, j as int) by {
                        if !(p == i && q == j) {
                            assert(!pair_closer(
                                views,
                                p,
                                q,
                                before.low as int,
                                before.high as int,
                            ));
                            if pair_closer(views, p, q, i as int, j as int) {
                                lemma_fraction_less_trans(
                                    jaccard_numerator(views[p].signature, views[q].signature),
                                    jaccard_denominator(views[p].signature, views[q].signature),
                                    jaccard_numerator(
                                        views[i as int].signature,
                                        views[j as int].signature,
                                    ),
                                    jaccard_denominator(
                                        views[i as int].signature,
                                        views[j as int].signature,
                                    ),
                                    jaccard_numerator(
                                        views[before.low as int].signature,
                                        views[before.high as int].signature,
                                    ),
                                    jaccard_denominator(
                                        views[before.low as int].signature,
                                        views[before.high as int].signature,
                                    ),
                                );
                            }
                        }
                    }
                }
            }
            j += 1;
        }
        i += 1;
    }
    least
}

/// Finds the pair of clusters to merge: the first pair, in lexicographic
/// order, that is as close as any pair, where distances that differ by
/// less than a hundred-thousandth count as equal.
pub fn find_closest_pair(clusters: &Vec<Cluster>) -> (pair: ClusterPairMetadata)
    requires
        clusters.len() >= 2,
    ensures
        is_closest_pair(cluster_views(clusters@), pair.low as int, pair.high as int),
        pair.distance.numerator == jaccard_numerator(
            clusters@[pair.low as int].signature.items(),
            clusters@[pair.high as int].signature.items(),
        ),
        pair.distance.denominator == jaccard_denominator(
            clusters@[pair.low as int].signature.items(),
            clusters@[pair.high as int].signature.items(),
        ),
{
    let ghost views = cluster_views(clusters@);
    let n = clusters.len();
    let least = find_least_pair(clusters);
    let mut nearest: Option<ClusterPairMetadata> = None;
    let mut i: usize = 0;
    while i < n
        invariant
            n == clusters.len(),
            n >= 2,
            views == cluster_views(clusters@),
            i <= n,
            0 <= least.low < least.high < n,
            least.distance.numerator == jaccard_numerator(
                views[least.low as int].signature,
                views[least.high as int].signature,
            ),
            least.distance.denominator == jaccard_denominator(
                views[least.low as int].signature,
                views[least.high as int].signature,
            ),
            forall|p: int, q: int|
                0 <= p < q < n ==> !#[trigger] pair_closer(
                    views,
                    p,
                    q,
                    least.low as int,
                    least.high as int,
                ),
            match nearest {
                Some(found) => {
                    &&& is_closest_pair(views, found.low as int, found.high as int)
                    &&& found.distance.numerator == jaccard_numerator(
                        views[found.low as int].signature,
                        views[found.high as int].signature,
                    )
                    &&& found.distance.denominator == jaccard_denominator(
                        views[found.low as int].signature,
                        views[found.high as int].signature,
                    )
                },
                None => forall|p: int, q: int|
                    0 <= p < q < n && p < i ==> !#[trigger] is_near_least(views, p, q),
            },
        decreases n - i,
    {
        let mut j: usize = i + 1;
        while j < n
            invariant
                n == clusters.len(),
                n >= 2,
                views == cluster_views(clusters@),
                i < n,
                i < j <= n,
                0 <= least.low < least.high < n,
                least.distance.numerator == jaccard_numerator(
                    views[least.low as int].signature,
                    views[least.high as int].signature,
                ),
                least.distance.denominator == jaccard_denominator(
                    views[least.low as int].signature,
                    views[least.high as int].signature,
                ),
                forall|p: int, q: int|
                    0 <= p < q < n ==> !#[trigger] pair_closer(
                        views,
                        p,
                        q,
                        least.low as int,
                        least.high as int,
                    ),
                match nearest {
                    Some(found) => {
                        &&& is_closest_pair(views, found.low as int, found.high as int)
                        &&& found.distance.numerator == jaccard_numerator(
                            views[found.low as int].signature,
                            views[found.high as int].signature,
                        )
                        &&& found.distance.denominator == jaccard_denominator(
                            views[found.low as int].signature,
                            views[found.high as int].signature,
                        )
                    },
                    None => forall|p: int, q: int|
                        0 <= p < q < n && pair_before(p, q, i as int, j as int)
                            ==> !#[trigger] is_near_least(views, p, q),
                },
            decreases n - j,
        {
            let candidate = ClusterPairMetadata {
                low: i,
                high: j,
                distance: jaccard_distance(&clusters[i].signature, &clusters[j].signature),
            };
            proof {
                lemma_near_least_by_least(
                    views,
                    (least.low as int, least.high as int),
                    i as int,
                    j as int,
                );
            }
            let tied = candidate.distance.is_within(&least.distance);
            if tied {
                let preferred = match nearest {
                    Some(found) => tie_break(candidate, found),
                    None => true,
                };
                if preferred {
                    proof {
                        if nearest is Some {
                            let found = nearest->0;
                            assert(pair_before(
                                i as int,
                                j as int,
                                found.low as int,
                                found.high as int,
                            ));
                            assert(!is_near_least(views, i as int, j as int));
                        }
                    }
                    nearest = Some(candidate);
                }
            }
            j += 1;
        }
        i += 1;
    }
    match nearest {
        Some(found) => found,
        None => {
            proof {
                lemma_near_least_by_least(
                    views,
                    (least.low as int, least.high as int),
                    least.low as int,
                    least.high as int,
                );
                assert(is_near_least(views, least.low as int, least.high as int));
            }
            least
        },
    }
}

/// Merges the two clusters of `pair`: takes both out of the list and adds
/// their parent at its end.
pub fn merge_clusters(clusters: &mut Vec<Cluster>, pair: ClusterPairMetadata)
    requires
        pair.low < pair.high < old(clusters).len(),
    ensures
        cluster_views(final(clusters)@) == merge_pair(
            cluster_views(old(clusters)@),
            pair.low as int,
            pair.high as int,
        ),
        final(clusters).len() == old(clusters).len() - 1,
{
    let ghost before = clusters@;
    let right_cluster = clusters.remove(pair.high);
    let left_cluster = clusters.remove(pair.low);
    let parent_signature = left_cluster.signature.intersection(&right_cluster.signature);
    let mut sub_groups: Vec<EntityGrouping> = Vec::new();
    sub_groups.push(left_cluster.group);
    sub_groups.push(right_cluster.group);
    let parent_group = EntityGrouping { entities: Vec::new(), sub_groups };
    assert(parent_group@.sub_groups =~= seq![before[pair.low as int]@.group, before[pair.high as int]@.group]);
    clusters.push(Cluster { signature: parent_signature, group: parent_group });
    assert(cluster_views(clusters@) =~= merge_pair(
        cluster_views(before),
        pair.low as int,
        pair.high as int,
    ));
}

/// Finds the closest pair of clusters and merges it.
pub fn clustering_pass(clusters: &mut Vec<Cluster>)
    requires
        old(clusters).len() >= 2,
    ensures
        cluster_views(final(clusters)@) == merge_pair(
            cluster_views(old(clusters)@),
            closest_pair(cluster_views(old(clusters)@)).0,
            closest_pair(cluster_views(old(clusters)@)).1,
        ),
        final(clusters).len() == old(clusters).len() - 1,
        is_closest_pair(
            cluster_views(old(clusters)@),
            closest_pair(cluster_views(old(clusters)@)).0,
            closest_pair(cluster_views(old(clusters)@)).1,
        ),
{
    let nearest_pair = find_closest_pair(clusters);
    proof {
        lemma_closest_pair_unique(
            cluster_views(clusters@),
            nearest_pair.low as int,
            nearest_pair.high as int,
        );
    }
    merge_clusters(clusters, nearest_pair);
}

/// Clusters the given clusters into one grouping: merges the closest pair
/// until one cluster is left.
pub fn cluster_archetypes(clusters: Vec<Cluster>) -> (grouping: EntityGrouping)
    ensures
        grouping@ == agglomerate(cluster_views(clusters@)),
{
    let mut clusters = clusters;
    let ghost start = cluster_views(clusters@);
    while clusters.len() > 1
        invariant
            agglomerate(cluster_views(clusters@)) == agglomerate(start),
        decreases clusters.len(),
    {
        clustering_pass(&mut clusters);
    }
    match clusters.pop() {
        Some(cluster) => cluster.group,
        None => EntityGrouping::new(),
    }
}

/// The archetype of an entity that exists in the store.
pub open spec fn archetype_of(store: &Store, entity: EntityId) -> ArchetypeId {
    match store.entity_spec(entity) {
        Some(record) => record.archetype,
        None => ArchetypeId(0),
    }
}

/// The signature of an entity: the numbers of its component types.
pub open spec fn signature_of(store: &Store, entity: EntityId) -> Set<u64> {
    type_numbers(store.components_spec(entity))
}

impl Store {
    /// The archetypes of the store stand for signatures: two entities
    /// that exist and have the same component types have the same
    /// archetype. A store that is taken from a world is of this kind.
    pub open spec fn archetypes_by_signature(&self) -> bool {
        forall|a: EntityId, b: EntityId|
            self.exists_spec(a) && self.exists_spec(b) && #[trigger] signature_of(self, a)
                == #[trigger] signature_of(self, b) ==> archetype_of(self, a) == archetype_of(
                self,
                b,
            )
    }
}

/// The predicate that holds of the entities of the archetype `archetype`.
pub open spec fn of_archetype(store: &Store, archetype: ArchetypeId) -> spec_fn(EntityId) -> bool {
    |entity: EntityId| archetype_of(store, entity) == archetype
}

/// The archetypes of the given entities, each once, smallest identifier first.
pub open spec fn archetypes_of(store: &Store, entities: Seq<EntityId>) -> Seq<ArchetypeId> {
    distinct(entities.map_values(|entity: EntityId| archetype_of(store, entity))).sort_by(
        ordered::<ArchetypeId>(),
    )
}

/// The cluster that the clustering starts with for one archetype: its
/// signature holds the component types of the archetype, its grouping is one
/// node with the entities of the archetype among `entities`, smallest index first.
pub open spec fn seed_cluster(store: &Store, entities: Seq<EntityId>, archetype: ArchetypeId) -> ClusterView {
    ClusterView {
        signature: type_numbers(store.archetype_components_spec(archetype)),
        group: GroupingTree::leaf(
            entities.filter(of_archetype(store, archetype)).sort_by(ordered::<EntityId>()),
        ),
    }
}

/// The clusters that the clustering starts with: one for each archetype of
/// `entities`, smallest archetype identifier first.
pub open spec fn seed_clusters_of(store: &Store, entities: Seq<EntityId>) -> Seq<ClusterView> {
    let archetypes = archetypes_of(store, entities);
    Seq::new(archetypes.len(), |i: int| seed_cluster(store, entities, archetypes[i]))
}

/// The grouping by similarity of archetypes: the entities that exist are
/// clustered by archetype, and the clusters merged, closest pair first.
pub open spec fn similarity_grouping(store: &Store, entities: Seq<EntityId>) -> GroupingTree {
    agglomerate(seed_clusters_of(store, members(store, entities)))
}

/// The entities that exist, by archetype, with the archetypes in the
/// order in which they first occur. Entities that do not exist are passed over.
pub fn get_entities_by_archetype(store: &Store, entities: &Vec<EntityId>) -> (result: (
    HashMap<u64, Vec<EntityId>, FixedHasher>,
    Vec<ArchetypeId>,
))
    ensures
        result.1@ == distinct(
            entities@.filter(exists_in(store)).map_values(
                |entity: EntityId| archetype_of(store, entity),
            ),
        ),
        forall|archetype: ArchetypeId| #[trigger]
            result.1@.contains(archetype) ==> bucket_entries(result.0).contains_key(archetype.0)
                && bucket_entries(result.0)[archetype.0] == entities@.filter(
                exists_in(store),
            ).filter(of_archetype(store, archetype)),
{
    let mut buckets = buckets_new();
    let mut archetypes: Vec<ArchetypeId> = Vec::new();
    let ghost to_archetype = |entity: EntityId| archetype_of(store, entity);
    let mut i: usize = 0;
    proof {
        reveal(Seq::filter);
        assert(entities@.take(0) =~= Seq::<EntityId>::empty());
        assert(entities@.take(0).filter(exists_in(store)).map_values(to_archetype)
            =~= Seq::<ArchetypeId>::empty());
    }
    while i < entities.len()
        invariant
            i <= entities.len(),
            to_archetype == |entity: EntityId| archetype_of(store, entity),
            archetypes@ == distinct(
                entities@.take(i as int).filter(exists_in(store)).map_values(to_archetype),
            ),
            forall|archetype: ArchetypeId| #[trigger]
                bucket_entries(buckets).contains_key(archetype.0) <==> archetypes@.contains(
                    archetype,
                ),
            forall|archetype: ArchetypeId| #[trigger]
                archetypes@.contains(archetype) ==> bucket_entries(buckets)[archetype.0]
                    == entities@.take(i as int).filter(exists_in(store)).filter(
                    of_archetype(store, archetype),
                ),
        decreases entities.len() - i,
    {
        let entity = entities[i];
        let ghost front = entities@.take(i as int).filter(exists_in(store));
        let ghost next = entities@.take(i as int + 1).filter(exists_in(store));
        let ghost old_buckets = bucket_entries(buckets);
        let ghost old_archetypes = archetypes@;
        proof {
            assert(entities@.take(i as int + 1) == entities@.take(i as int).push(entity));
            entities@.take(i as int).lemma_filter_push(entity, exists_in(store));
        }
        match store.entity(entity) {
            Some(record) => {
                let archetype = record.archetype;
                proof {
                    assert(next == front.push(entity));
                    assert(archetype == archetype_of(store, entity));
                    assert(next.map_values(to_archetype) =~= front.map_values(to_archetype).push(
                        archetype,
                    ));
                    assert(next.map_values(to_archetype).drop_last() == front.map_values(
                        to_archetype,
                    ));
                    lemma_distinct(front.map_values(to_archetype));
                    reveal(Seq::filter);
                }
                let known = buckets_get(&buckets, archetype.0).is_some();
                if !known {
                    archetypes.push(archetype);
                }
                buckets_push(&mut buckets, archetype.0, entity);
                proof {
                    assert(known == old_archetypes.contains(archetype));
                    assert(archetypes@ == distinct(next.map_values(to_archetype)));
                    assert forall|other: ArchetypeId| #[trigger]
                        bucket_entries(buckets).contains_key(other.0)
                            <==> archetypes@.contains(other) by {
                        if other.0 == archetype.0 {
                            assert(other == archetype);
                            if known {
                            } else {
                                assert(archetypes@[archetypes@.len() - 1] == archetype);
                            }
                        } else {
                            if old_archetypes.contains(other) {
                                let k = choose|k: int|
                                    0 <= k < old_archetypes.len() && old_archetypes[k] == other;
                                assert(archetypes@[k] == other);
                            }
                            if archetypes@.contains(other) {
                                let k = choose|k: int|
                                    0 <= k < archetypes@.len() && archetypes@[k] == other;
                                assert(old_archetypes[k] == other);
                            }
                        }
                    }
                    assert forall|other: ArchetypeId| #[trigger]
                        archetypes@.contains(other) implies bucket_entries(buckets)[other.0]
                        == next.filter(of_archetype(store, other)) by {
                        front.lemma_filter_push(entity, of_archetype(store, other));
                        if other.0 == archetype.0 {
                            assert(other == archetype);
                            if !known {
                                assert(!old_buckets.contains_key(archetype.0));
                                lemma_none_of_archetype(store, front, archetype);
                            }
                        } else {
                            assert(bucket_entries(buckets).contains_key(other.0));
                            assert(old_buckets.contains_key(other.0));
                            assert(old_archetypes.contains(other));
                        }
                    }
                }
            },
            None => {
                proof {
                    assert(next == front);
                }
            },
        }
        i += 1;
    }
    proof {
        assert(entities@.take(entities.len() as int) == entities@);
    }
    (buckets, archetypes)
}

/// Where no entity of a sequence has the archetype, none of them passes its filter.
pub proof fn lemma_none_of_archetype(store: &Store, entities: Seq<EntityId>, archetype: ArchetypeId)
    requires
        !distinct(
            entities.map_values(|entity: EntityId| archetype_of(store, entity)),
        ).contains(archetype),
    ensures
        entities.filter(of_archetype(store, archetype)) == Seq::<EntityId>::empty(),
{
    let all = entities.map_values(|entity: EntityId| archetype_of(store, entity));
    lemma_distinct(all);
    let kept = entities.filter(of_archetype(store, archetype));
    if kept.len() > 0 {
        entities.lemma_filter_contains_rev(of_archetype(store, archetype), kept[0]);
        assert(kept.contains(kept[0]));
        let k = choose|k: int| 0 <= k < entities.len() && entities[k] == kept[0];
        assert(all[k] == archetype);
        assert(all.contains(archetype));
    }
    assert(kept =~= Seq::<EntityId>::empty());
}

/// The signature of an archetype: its component types; none where the
/// store does not know the archetype.
fn archetype_signature(store: &Store, archetype: ArchetypeId) -> (signature: Signature)
    ensures
        signature.items() == type_numbers(store.archetype_components_spec(archetype)),
{
    match store.archetype(archetype) {
        Some(record) => Signature::from_components(&record.components),
        None => Signature::new(),
    }
}

/// The signatures of the given archetypes, by the numbers of the archetypes.
pub fn get_components_by_archetype(store: &Store, archetypes: &Vec<ArchetypeId>) -> (components:
    HashMap<u64, Signature, FixedHasher>)
    ensures
        forall|archetype: ArchetypeId| #[trigger]
            archetypes@.contains(archetype) ==> signature_entries(components).contains_key(
                archetype.0,
            ) && signature_entries(components)[archetype.0].items() == type_numbers(
                store.archetype_components_spec(archetype),
            ),
        forall|archetype: ArchetypeId| #[trigger]
            signature_entries(components).contains_key(archetype.0) ==> archetypes@.contains(
                archetype,
            ),
{
    let mut components = signatures_new();
    let mut i: usize = 0;
    while i < archetypes.len()
        invariant
            i <= archetypes.len(),
            forall|archetype: ArchetypeId| #[trigger]
                signature_entries(components).contains_key(archetype.0) <==> archetypes@.take(
                    i as int,
                ).contains(archetype),
            forall|archetype: ArchetypeId| #[trigger]
                signature_entries(components).contains_key(archetype.0) ==> signature_entries(
                    components,
                )[archetype.0].items() == type_numbers(
                    store.archetype_components_spec(archetype),
                ),
        decreases archetypes.len() - i,
    {
        let archetype = archetypes[i];
        let ghost front = archetypes@.take(i as int);
        let ghost next = archetypes@.take(i as int + 1);
        let ghost before = signature_entries(components);
        let signature = archetype_signature(store, archetype);
        signatures_insert(&mut components, archetype.0, signature);
        proof {
            assert(next == front.push(archetype));
            assert forall|other: ArchetypeId| #[trigger]
                signature_entries(components).contains_key(other.0) <==> next.contains(
                    other,
                ) by {
                if other.0 == archetype.0 {
                    assert(other == archetype);
                    assert(next[i as int] == other);
                } else {
                    assert(before.contains_key(other.0) <==> front.contains(other));
                    if front.contains(other) {
                        let k = choose|k: int| 0 <= k < front.len() && front[k] == other;
                        assert(next[k] == other);
                    }
                    if next.contains(other) {
                        let k = choose|k: int| 0 <= k < next.len() && next[k] == other;
                        assert(front[k] == other);
                    }
                }
            }
            assert forall|other: ArchetypeId| #[trigger]
                signature_entries(components).contains_key(other.0) implies signature_entries(
                components,
            )[other.0].items() == type_numbers(store.archetype_components_spec(other)) by {
                if other.0 == archetype.0 {
                    assert(other == archetype);
                } else {
                    assert(before.contains_key(other.0));
                }
            }
        }
        i += 1;
    }
    assert(archetypes@.take(archetypes.len() as int) == archetypes@);
    components
}

/// The signature under the number of `archetype`; without component types
/// where there is none.
pub open spec fn signature_at(signatures: Map<u64, Signature>, archetype: ArchetypeId) -> Set<u64> {
    if signatures.contains_key(archetype.0) {
        signatures[archetype.0].items()
    } else {
        Set::empty()
    }
}

/// The cluster that the clustering starts with for one archetype, from the
/// entities in its bucket and the signature under its number.
pub open spec fn seed_from_bucket(
    buckets: Map<u64, Seq<EntityId>>,
    signatures: Map<u64, Signature>,
    archetype: ArchetypeId,
) -> ClusterView {
    ClusterView {
        signature: signature_at(signatures, archetype),
        group: GroupingTree::leaf(bucket_at(buckets, archetype.0).sort_by(ordered::<EntityId>())),
    }
}

/// Makes the clusters that the clustering starts with: one for each of the
/// given archetypes, in their order, with the entities of its bucket,
/// smallest index first, and with its signature.
pub fn seed_clusters(
    entities_by_archetype: &HashMap<u64, Vec<EntityId>, FixedHasher>,
    components_by_archetype: &HashMap<u64, Signature, FixedHasher>,
    archetypes: &Vec<ArchetypeId>,
) -> (clusters: Vec<Cluster>)
    ensures
        cluster_views(clusters@) == Seq::new(
            archetypes@.len(),
            |i: int|
                seed_from_bucket(
                    bucket_entries(*entities_by_archetype),
                    signature_entries(*components_by_archetype),
                    archetypes@[i],
                ),
        ),
{
    let mut clusters: Vec<Cluster> = Vec::new();
    let mut i: usize = 0;
    while i < archetypes.len()
        invariant
            i <= archetypes.len(),
            clusters.len() == i,
            forall|k: int|
                0 <= k < i ==> (#[trigger] clusters@[k])@ == seed_from_bucket(
                    bucket_entries(*entities_by_archetype),
                    signature_entries(*components_by_archetype),
                    archetypes@[k],
                ),
        decreases archetypes.len() - i,
    {
        let archetype = archetypes[i];
        let sorted = match buckets_get(entities_by_archetype, archetype.0) {
            Some(bucket) => sort(bucket),
            None => {
                let none: Vec<EntityId> = Vec::new();
                sort(&none)
            },
        };
        let signature = match signatures_get(components_by_archetype, archetype.0) {
            Some(signature) => signature.clone(),
            None => Signature::new(),
        };
        let cluster = Cluster { signature, group: EntityGrouping::leaf(sorted) };
        clusters.push(cluster);
        i += 1;
    }
    assert(cluster_views(clusters@) =~= Seq::new(
        archetypes@.len(),
        |i: int|
            seed_from_bucket(
                bucket_entries(*entities_by_archetype),
                signature_entries(*components_by_archetype),
                archetypes@[i],
            ),
    ));
    clusters
}

/// Groups entities by the similarity of their archetypes.
///
/// The entities that exist are taken once each and clustered by archetype;
/// then the two clusters whose signatures are closest are merged, until one
/// is left. No entity yields an empty grouping; one archetype yields one
/// node with its entities, smallest index first.
pub fn group(store: &Store, entities: &Vec<EntityId>) -> (grouping: EntityGrouping)
    ensures
        grouping@ == similarity_grouping(store, entities@),
{
    let (unique, _) = distinct_values(entities);
    let ghost present = unique@.filter(exists_in(store));
    let (entities_by_archetype, archetypes) = get_entities_by_archetype(store, &unique);
    let sorted_archetypes = sort(&archetypes);
    proof {
        lemma_ordered_total::<ArchetypeId>();
        archetypes@.lemma_sort_by_ensures(ordered::<ArchetypeId>());
        assert forall|i: int| 0 <= i < sorted_archetypes.len() implies archetypes@.contains(
            #[trigger] sorted_archetypes@[i],
        ) by {
            assert(sorted_archetypes@.contains(sorted_archetypes@[i]));
        }
    }
    let components_by_archetype = get_components_by_archetype(store, &archetypes);
    let clusters = seed_clusters(
        &entities_by_archetype,
        &components_by_archetype,
        &sorted_archetypes,
    );
    assert(cluster_views(clusters@) =~= seed_clusters_of(store, present));
    cluster_archetypes(clusters)
}

} // verus!
