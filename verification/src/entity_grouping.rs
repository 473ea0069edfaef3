//! Groupings of entities: trees whose flattening is one stable order.

use vstd::prelude::*;
use bevy::platform::collections::HashSet;
use bevy::platform::hash::FixedHasher;
use crate::collections::{set_insert, set_items, set_new};
use crate::sorting::Numbered;
use crate::store::{copy_of, EntityId, Store};

verus! {

/// A grouping of entities: the entities of the group itself, then its sub-groups in order.
#[derive(Debug, PartialEq, Eq)]
pub struct EntityGrouping {
    /// The entities that belong to this group itself.
    pub entities: Vec<EntityId>,
    /// The groups within this group.
    pub sub_groups: Vec<EntityGrouping>,
}

/// A grouping as a mathematical tree.
pub struct GroupingTree {
    /// The entities of the node itself.
    pub entities: Seq<EntityId>,
    /// The children of the node, in order.
    pub sub_groups: Seq<GroupingTree>,
}

/// Which kind of grouping to make.
#[derive(Debug, Clone, Copy, PartialEq, Eq, Structural)]
pub enum GroupingStrategy {
    /// Group by the relation of parent and child.
    Hierarchy,
    /// Group by how much the component types of the archetypes overlap.
    ArchetypeSimilarity,
}

impl Default for GroupingStrategy {
    fn default() -> (strategy: Self)
        ensures
            strategy == GroupingStrategy::Hierarchy,
    {
        GroupingStrategy::Hierarchy
    }
}

impl Default for EntityGrouping {
    fn default() -> (grouping: Self)
        ensures
            grouping@ == GroupingTree::empty(),
    {
        EntityGrouping::new()
    }
}

impl Clone for EntityGrouping {
    fn clone(&self) -> (copy: Self)
        ensures
            copy@ == self@,
        decreases self,
    {
        let mut sub_groups: Vec<EntityGrouping> = Vec::new();
        let mut i: usize = 0;
        while i < self.sub_groups.len()
            invariant
                i <= self.sub_groups.len(),
                sub_groups.len() == i,
                forall|k: int| 0 <= k < i ==> (#[trigger] sub_groups@[k])@ == self.sub_groups@[k]@,
            decreases self.sub_groups.len() - i,
        {
            sub_groups.push(self.sub_groups[i].clone());
            i += 1;
        }
        let copy = EntityGrouping { entities: copy_of(&self.entities), sub_groups };
        assert(copy@.sub_groups =~= self@.sub_groups);
        copy
    }
}

impl GroupingTree {
    /// A tree without entities and without children.
    pub open spec fn empty() -> GroupingTree {
        GroupingTree { entities: Seq::empty(), sub_groups: Seq::empty() }
    }

    /// A tree of one node that holds `entities`.
    pub open spec fn leaf(entities: Seq<EntityId>) -> GroupingTree {
        GroupingTree { entities, sub_groups: Seq::empty() }
    }

    /// All entities of the tree, depth first: those of a node before those
    /// of its children, the children in their order.
    pub open spec fn flatten(self) -> Seq<EntityId>
        decreases self,
    {
        self.entities + flatten_prefix(self.sub_groups, self.sub_groups.len())
    }
}

/// The entities of the first `n` trees of `groups`, tree after tree.
pub open spec fn flatten_prefix(groups: Seq<GroupingTree>, n: nat) -> Seq<EntityId>
    decreases groups, n,
{
    if n == 0 || n > groups.len() {
        Seq::empty()
    } else {
        flatten_prefix(groups, (n - 1) as nat) + groups[n - 1].flatten()
    }
}

/// The groupings of a list as mathematical trees.
pub open spec fn group_views(groups: Seq<EntityGrouping>) -> Seq<GroupingTree> {
    Seq::new(groups.len(), |i: int| groups[i]@)
}

/// The entities of the first trees of a list do not depend on the trees
/// that follow; with one tree more, the entities of that tree follow.
pub proof fn lemma_flatten_prefix_push(groups: Seq<GroupingTree>, last: GroupingTree, n: nat)
    requires
        n <= groups.len(),
    ensures
        flatten_prefix(groups.push(last), n) == flatten_prefix(groups, n),
        n == groups.len() ==> flatten_prefix(groups.push(last), n + 1) == flatten_prefix(
            groups,
            n,
        ) + last.flatten(),
    decreases n,
{
    if n > 0 {
        lemma_flatten_prefix_push(groups, last, (n - 1) as nat);
        assert(groups.push(last)[n - 1] == groups[n - 1]);
    }
    if n == groups.len() {
        let more = groups.push(last);
        assert(more[n as int] == last);
        assert(more.len() == n + 1);
        assert(((n + 1) - 1) as nat == n);
        assert(flatten_prefix(more, n + 1) == flatten_prefix(more, n) + more[n as int].flatten());
    }
}

impl View for EntityGrouping {
    type V = GroupingTree;

    open spec fn view(&self) -> GroupingTree
        decreases self,
    {
        GroupingTree {
            entities: self.entities@,
            sub_groups: Seq::new(
                self.sub_groups@.len(),
                |i: int|
                    if 0 <= i < self.sub_groups@.len() {
                        self.sub_groups@[i]@
                    } else {
                        GroupingTree::empty()
                    },
            ),
        }
    }
}

/// The values of a sequence without repetitions: each where it first occurs.
pub open spec fn distinct<T>(values: Seq<T>) -> Seq<T>
    decreases values.len(),
{
    if values.len() == 0 {
        Seq::empty()
    } else {
        let rest = distinct(values.drop_last());
        if rest.contains(values.last()) {
            rest
        } else {
            rest.push(values.last())
        }
    }
}

/// `distinct` holds every value of the sequence, and each once.
pub proof fn lemma_distinct<T>(values: Seq<T>)
    ensures
        distinct(values).no_duplicates(),
        forall|x: T| distinct(values).contains(x) <==> values.contains(x),
    decreases values.len(),
{
    if values.len() > 0 {
        let front = values.drop_last();
        let last = values.last();
        lemma_distinct(front);
        let rest = distinct(front);
        assert forall|x: T| distinct(values).contains(x) <==> values.contains(x) by {
            if values.contains(x) {
                let k = choose|k: int| 0 <= k < values.len() && values[k] == x;
                if k < values.len() - 1 {
                    assert(front[k] == x);
                    assert(front.contains(x));
                    assert(rest.contains(x));
                    let m = choose|m: int| 0 <= m < rest.len() && rest[m] == x;
                    assert(distinct(values)[m] == x);
                } else if !rest.contains(last) {
                    assert(distinct(values)[rest.len() as int] == x);
                }
            }
            if distinct(values).contains(x) {
                let m = choose|m: int| 0 <= m < distinct(values).len() && distinct(values)[m] == x;
                if m < rest.len() {
                    assert(rest[m] == x);
                    assert(front.contains(x));
                    let k = choose|k: int| 0 <= k < front.len() && front[k] == x;
                    assert(values[k] == x);
                } else {
                    assert(values[values.len() - 1] == x);
                }
            }
        }
    }
}

/// What is kept of a sequence are its values of which the predicate
/// holds; a sequence without repetition is kept without repetition.
pub proof fn lemma_filter_keeps<T>(values: Seq<T>, keep: spec_fn(T) -> bool)
    ensures
        forall|x: T| values.filter(keep).contains(x) <==> values.contains(x) && keep(x),
        values.no_duplicates() ==> values.filter(keep).no_duplicates(),
    decreases values.len(),
{
    reveal(Seq::filter);
    if values.len() > 0 {
        let front = values.drop_last();
        let last = values.last();
        lemma_filter_keeps(front, keep);
        let kept = values.filter(keep);
        let rest = front.filter(keep);
        assert forall|x: T| kept.contains(x) <==> values.contains(x) && keep(x) by {
            if kept.contains(x) {
                let m = choose|m: int| 0 <= m < kept.len() && kept[m] == x;
                if m < rest.len() {
                    assert(rest[m] == x);
                    assert(front.filter(keep).contains(x));
                    assert(front.contains(x) && keep(x));
                    let k = choose|k: int| 0 <= k < front.len() && front[k] == x;
                    assert(values[k] == x);
                } else {
                    assert(values[values.len() - 1] == x);
                }
            }
            if values.contains(x) && keep(x) {
                let k = choose|k: int| 0 <= k < values.len() && values[k] == x;
                if k < front.len() {
                    assert(front[k] == x);
                    assert(front.contains(x));
                    assert(front.filter(keep).contains(x));
                    let m = choose|m: int| 0 <= m < rest.len() && rest[m] == x;
                    assert(kept[m] == x);
                } else {
                    assert(kept[kept.len() - 1] == x);
                }
            }
        }
        if values.no_duplicates() {
            assert forall|i: int, j: int| 0 <= i < j < front.len() implies front[i] != front[j] by {
                assert(values[i] != values[j]);
            }
            assert forall|i: int, j: int| 0 <= i < kept.len() && 0 <= j < kept.len() && i
                != j implies kept[i] != kept[j] by {
                if i < rest.len() && j < rest.len() {
                    assert(rest[i] != rest[j]);
                } else {
                    let inner = if i < rest.len() {
                        i
                    } else {
                        j
                    };
                    assert(rest[inner] == kept[inner]);
                    assert(front.filter(keep).contains(rest[inner]));
                    assert(front.contains(rest[inner]));
                    let k = choose|k: int| 0 <= k < front.len() && front[k] == rest[inner];
                    assert(values[k] != values[values.len() - 1]);
                }
            }
        }
    }
}

/// The predicate that holds of the entities that exist in `store`.
pub open spec fn exists_in(store: &Store) -> spec_fn(EntityId) -> bool {
    |entity: EntityId| store.exists_spec(entity)
}

/// The entities that a grouping of `entities` holds: those that exist in
/// `store`, each once, in the order in which they first occur.
pub open spec fn members(store: &Store, entities: Seq<EntityId>) -> Seq<EntityId> {
    distinct(entities).filter(exists_in(store))
}

/// Takes the repetitions out of a list, and gives the set of the numbers of its values.
pub fn distinct_values<T: Numbered>(values: &Vec<T>) -> (result: (Vec<T>, HashSet<u64, FixedHasher>))
    ensures
        result.0@ == distinct(values@),
        forall|x: T| #[trigger] set_items(result.1).contains(x.number()) <==> values@.contains(x),
{
    let mut seen = set_new();
    let mut kept: Vec<T> = Vec::new();
    let mut i: usize = 0;
    assert(values@.take(0) =~= Seq::<T>::empty());
    while i < values.len()
        invariant
            i <= values.len(),
            kept@ == distinct(values@.take(i as int)),
            forall|x: T| #[trigger]
                set_items(seen).contains(x.number()) <==> values@.take(i as int).contains(x),
        decreases values.len() - i,
    {
        let x = values[i];
        let ghost front = values@.take(i as int);
        let ghost next = values@.take(i as int + 1);
        let ghost before = set_items(seen);
        proof {
            lemma_distinct(front);
            assert(next.drop_last() == front);
            assert(next.last() == x);
        }
        let fresh = set_insert(&mut seen, x.get_number());
        if fresh {
            kept.push(x);
        }
        proof {
            assert forall|y: T| #[trigger]
                set_items(seen).contains(y.number()) <==> next.contains(y) by {
                if y.number() == x.number() {
                    T::lemma_number_injective(y, x);
                    assert(next[i as int] == y);
                } else {
                    if front.contains(y) {
                        let k = choose|k: int| 0 <= k < front.len() && front[k] == y;
                        assert(next[k] == y);
                    }
                    if next.contains(y) {
                        let k = choose|k: int| 0 <= k < next.len() && next[k] == y;
                        assert(front[k] == y);
                    }
                    assert(before.contains(y.number()) <==> front.contains(y));
                }
            }
        }
        i += 1;
    }
    assert(values@.take(values.len() as int) == values@);
    (kept, seen)
}

/// The grouping of `entities` that the strategy makes.
pub open spec fn grouping_of(store: &Store, entities: Seq<EntityId>, strategy: GroupingStrategy) -> GroupingTree {
    match strategy {
        GroupingStrategy::Hierarchy => crate::hierarchy_grouping::hierarchy_grouping(
            store,
            entities,
        ),
        GroupingStrategy::ArchetypeSimilarity => crate::archetype_similarity_grouping::similarity_grouping(
            store,
            entities,
        ),
    }
}

impl EntityGrouping {
    /// Groups the given entities in the way of the strategy.
    pub fn generate(store: &Store, entities: &Vec<EntityId>, strategy: GroupingStrategy) -> (grouping:
        Self)
        ensures
            grouping@ == grouping_of(store, entities@, strategy),
    {
        match strategy {
            GroupingStrategy::Hierarchy => crate::hierarchy_grouping::group(store, entities),
            GroupingStrategy::ArchetypeSimilarity => crate::archetype_similarity_grouping::group(
                store,
                entities,
            ),
        }
    }

    /// A grouping without entities and without sub-groups.
    pub fn new() -> (grouping: Self)
        ensures
            grouping@ == GroupingTree::empty(),
    {
        let grouping = EntityGrouping { entities: Vec::new(), sub_groups: Vec::new() };
        assert(grouping@.sub_groups == Seq::<GroupingTree>::empty());
        grouping
    }

    /// A grouping of one node that holds `entities`.
    pub fn leaf(entities: Vec<EntityId>) -> (grouping: Self)
        ensures
            grouping@ == GroupingTree::leaf(entities@),
    {
        let grouping = EntityGrouping { entities, sub_groups: Vec::new() };
        assert(grouping@.sub_groups == Seq::<GroupingTree>::empty());
        grouping
    }

    /// Flattens the grouping into one list: the entities of a group before
    /// those of its sub-groups, the sub-groups in their order.
    pub fn flatten(&self) -> (all: Vec<EntityId>)
        ensures
            all@ == self@.flatten(),
        decreases self,
    {
        let mut all = copy_of(&self.entities);
        let mut i: usize = 0;
        while i < self.sub_groups.len()
            invariant
                i <= self.sub_groups.len(),
                all@ == self.entities@ + flatten_prefix(self@.sub_groups, i as nat),
            decreases self.sub_groups.len() - i,
        {
            let mut part = self.sub_groups[i].flatten();
            all.append(&mut part);
            i += 1;
        }
        all
    }
}

} // verus!
