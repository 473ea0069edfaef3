//! What holds of every grouping by hierarchy: it holds the entities that
//! have a root among their ancestors, each once.

use vstd::prelude::*;
use vstd::seq_lib::lemma_no_dup_in_concat;
use crate::entity_grouping::{
    distinct, flatten_prefix, grouping_of, lemma_distinct, lemma_filter_keeps, GroupingStrategy,
    GroupingTree,
};
use crate::hierarchy_grouping::{
    by_display, children_among, forest, hierarchy_grouping, is_child_among, is_root_among,
    lemma_by_display_total, parent_among, roots_among, subtree,
};
use crate::store::{keys_of, lemma_key_injective, lemma_keys_of_contains, EntityId, Store};

verus! {

/// `lower` stands `steps` levels below `upper`: `steps` times the parent
/// among `entities` leads from `lower` to `upper`, and `lower` and all
/// between the two exist and are among `entities`.
pub open spec fn descends(store: &Store, entities: Seq<EntityId>, lower: EntityId, upper: EntityId, steps: nat) -> bool
    decreases steps,
{
    if steps == 0 {
        lower == upper
    } else {
        &&& store.exists_spec(lower)
        &&& entities.contains(lower)
        &&& match parent_among(store, entities, lower) {
            Some(parent) => descends(store, entities, parent, upper, (steps - 1) as nat),
            None => false,
        }
    }
}

/// The entity is a root among `entities`: it is one of them, it exists,
/// and its parent is not among them.
pub open spec fn is_root(store: &Store, entities: Seq<EntityId>, entity: EntityId) -> bool {
    entities.contains(entity) && is_root_among(store, entities)(entity)
}

/// The entity is a child of `parent` among `entities`.
pub open spec fn is_child(store: &Store, entities: Seq<EntityId>, entity: EntityId, parent: EntityId) -> bool {
    entities.contains(entity) && is_child_among(store, entities, parent)(entity)
}

/// The entity has a root among its ancestors, or is one: it stands some
/// levels below a root among `entities`.
pub open spec fn is_rooted(store: &Store, entities: Seq<EntityId>, entity: EntityId) -> bool {
    exists|root: EntityId, steps: nat|
        is_root(store, entities, root) && #[trigger] descends(store, entities, entity, root, steps)
}

/// The entities of the first trees of a list are those of each of these trees.
pub proof fn lemma_flatten_prefix_contains(groups: Seq<GroupingTree>, n: nat, entity: EntityId)
    requires
        n <= groups.len(),
    ensures
        flatten_prefix(groups, n).contains(entity) <==> exists|i: int|
            0 <= i < n && (#[trigger] groups[i]).flatten().contains(entity),
    decreases n,
{
    if n > 0 {
        let front = flatten_prefix(groups, (n - 1) as nat);
        let last = groups[n - 1].flatten();
        lemma_flatten_prefix_contains(groups, (n - 1) as nat, entity);
        assert(flatten_prefix(groups, n) == front + last);
        if flatten_prefix(groups, n).contains(entity) {
            let k = choose|k: int|
                0 <= k < (front + last).len() && (front + last)[k] == entity;
            if k < front.len() {
                assert(front[k] == entity);
                assert(front.contains(entity));
                let i = choose|i: int|
                    0 <= i < n - 1 && (#[trigger] groups[i]).flatten().contains(entity);
                assert(0 <= i < n && groups[i].flatten().contains(entity));
            } else {
                assert(last[k - front.len()] == entity);
                assert(last.contains(entity));
                assert(0 <= n - 1 < n && groups[n - 1].flatten().contains(entity));
            }
        }
        if exists|i: int| 0 <= i < n && (#[trigger] groups[i]).flatten().contains(entity) {
            let i = choose|i: int| 0 <= i < n && (#[trigger] groups[i]).flatten().contains(entity);
            if i < n - 1 {
                assert(front.contains(entity));
                let k = choose|k: int| 0 <= k < front.len() && front[k] == entity;
                assert((front + last)[k] == entity);
            } else {
                let k = choose|k: int| 0 <= k < last.len() && last[k] == entity;
                assert((front + last)[front.len() + k] == entity);
            }
        }
    } else {
        assert(flatten_prefix(groups, n) =~= Seq::<EntityId>::empty());
    }
}

/// The children of an entity, in their order, are its children, each once.
pub proof fn lemma_children(store: &Store, entities: Seq<EntityId>, parent: EntityId)
    ensures
        children_among(store, entities, parent).no_duplicates(),
        forall|child: EntityId|
            children_among(store, entities, parent).contains(child) <==> is_child(
                store,
                entities,
                child,
                parent,
            ),
{
    lemma_sorted_kept(store, entities, is_child_among(store, entities, parent));
}

/// The roots, in their order, are the roots, each once.
pub proof fn lemma_roots(store: &Store, entities: Seq<EntityId>)
    ensures
        roots_among(store, entities).no_duplicates(),
        forall|root: EntityId|
            roots_among(store, entities).contains(root) <==> is_root(store, entities, root),
{
    lemma_sorted_kept(store, entities, is_root_among(store, entities));
}

/// What is kept of the given entities and sorted into the order of
/// siblings are the entities of which the predicate holds, each once.
pub proof fn lemma_sorted_kept(store: &Store, entities: Seq<EntityId>, keep: spec_fn(EntityId) -> bool)
    ensures
        distinct(entities).filter(keep).sort_by(by_display(store)).no_duplicates(),
        forall|entity: EntityId|
            distinct(entities).filter(keep).sort_by(by_display(store)).contains(entity) <==> (
            entities.contains(entity) && keep(entity)),
{
    broadcast use vstd::seq_lib::group_to_multiset_ensures;

    let unique = distinct(entities);
    let kept = unique.filter(keep);
    let sorted = kept.sort_by(by_display(store));
    lemma_distinct(entities);
    lemma_filter_keeps(unique, keep);
    lemma_by_display_total(store);
    kept.lemma_sort_by_ensures(by_display(store));
    kept.lemma_multiset_has_no_duplicates();
    sorted.lemma_multiset_has_no_duplicates_conv();
    assert forall|entity: EntityId|
        sorted.contains(entity) <==> (entities.contains(entity) && keep(entity)) by {
        assert(sorted.contains(entity) <==> sorted.to_multiset().count(entity) > 0);
        assert(kept.contains(entity) <==> kept.to_multiset().count(entity) > 0);
        assert(kept.contains(entity) <==> unique.contains(entity) && keep(entity));
    }
}

/// What stands below a child of an entity stands one level more below the entity.
pub proof fn lemma_descends_extend(
    store: &Store,
    entities: Seq<EntityId>,
    lower: EntityId,
    child: EntityId,
    upper: EntityId,
    steps: nat,
)
    requires
        descends(store, entities, lower, child, steps),
        is_child(store, entities, child, upper),
    ensures
        descends(store, entities, lower, upper, steps + 1),
    decreases steps,
{
    if steps == 0 {
        assert(descends(store, entities, upper, upper, 0));
    } else {
        let parent = parent_among(store, entities, lower)->0;
        lemma_descends_extend(store, entities, parent, child, upper, (steps - 1) as nat);
    }
}

/// What stands at least one level below an entity stands below one of its children.
pub proof fn lemma_descends_split(
    store: &Store,
    entities: Seq<EntityId>,
    lower: EntityId,
    upper: EntityId,
    steps: nat,
) -> (child: EntityId)
    requires
        steps >= 1,
        descends(store, entities, lower, upper, steps),
    ensures
        is_child(store, entities, child, upper),
        descends(store, entities, lower, child, (steps - 1) as nat),
    decreases steps,
{
    let parent = parent_among(store, entities, lower)->0;
    if steps == 1 {
        assert(descends(store, entities, parent, upper, 0));
        assert(descends(store, entities, lower, lower, 0));
        lower
    } else {
        let child = lemma_descends_split(store, entities, parent, upper, (steps - 1) as nat);
        child
    }
}

/// Standing below is transitive: the levels add up.
pub proof fn lemma_descends_compose(
    store: &Store,
    entities: Seq<EntityId>,
    lower: EntityId,
    middle: EntityId,
    upper: EntityId,
    first: nat,
    second: nat,
)
    requires
        descends(store, entities, lower, middle, first),
        descends(store, entities, middle, upper, second),
    ensures
        descends(store, entities, lower, upper, first + second),
    decreases first,
{
    if first > 0 {
        let parent = parent_among(store, entities, lower)->0;
        lemma_descends_compose(
            store,
            entities,
            parent,
            middle,
            upper,
            (first - 1) as nat,
            second,
        );
    }
}

/// An entity has one line of ancestors: of two entities above it, the
/// farther stands above the nearer, by the difference of the levels.
pub proof fn lemma_one_line(
    store: &Store,
    entities: Seq<EntityId>,
    lower: EntityId,
    nearer: EntityId,
    farther: EntityId,
    near: nat,
    far: nat,
)
    requires
        near <= far,
        descends(store, entities, lower, nearer, near),
        descends(store, entities, lower, farther, far),
    ensures
        descends(store, entities, nearer, farther, (far - near) as nat),
    decreases near,
{
    if near > 0 {
        let parent = parent_among(store, entities, lower)->0;
        lemma_one_line(
            store,
            entities,
            parent,
            nearer,
            farther,
            (near - 1) as nat,
            (far - 1) as nat,
        );
    }
}

/// Nothing stands above a root but the root itself.
pub proof fn lemma_root_is_top(store: &Store, entities: Seq<EntityId>, root: EntityId, upper: EntityId, steps: nat)
    requires
        is_root(store, entities, root),
        descends(store, entities, root, upper, steps),
    ensures
        steps == 0,
        upper == root,
{
}

/// An entity with a root among its ancestors is not among its own ancestors.
pub proof fn lemma_no_cycle(store: &Store, entities: Seq<EntityId>, entity: EntityId, steps: nat)
    requires
        is_rooted(store, entities, entity),
        descends(store, entities, entity, entity, steps),
    ensures
        steps == 0,
{
    let (root, up) = choose|root: EntityId, up: nat|
        is_root(store, entities, root) && #[trigger] descends(store, entities, entity, root, up);
    lemma_descends_compose(store, entities, entity, entity, root, steps, up);
    lemma_one_line(store, entities, entity, root, root, up, steps + up);
    lemma_root_is_top(store, entities, root, root, steps);
}

/// A child of an entity with a root among its ancestors has one too.
pub proof fn lemma_child_is_rooted(store: &Store, entities: Seq<EntityId>, child: EntityId, parent: EntityId)
    requires
        is_rooted(store, entities, parent),
        is_child(store, entities, child, parent),
    ensures
        is_rooted(store, entities, child),
{
    let (root, up) = choose|root: EntityId, up: nat|
        is_root(store, entities, root) && #[trigger] descends(store, entities, parent, root, up);
    assert(descends(store, entities, child, child, 0));
    lemma_descends_extend(store, entities, child, child, parent, 0);
    lemma_descends_compose(store, entities, child, parent, root, 1, up);
}

/// The tree of an entity holds what stands below the entity, as far down
/// as the tree reaches.
pub proof fn lemma_subtree_contains(
    store: &Store,
    entities: Seq<EntityId>,
    top: EntityId,
    depth: nat,
    entity: EntityId,
)
    ensures
        subtree(store, entities, top, depth).flatten().contains(entity) <==> exists|steps: nat|
            steps <= depth && #[trigger] descends(store, entities, entity, top, steps),
    decreases depth,
{
    let tree = subtree(store, entities, top, depth);
    let subs = tree.sub_groups;
    let below = flatten_prefix(subs, subs.len());
    let flat = tree.flatten();
    let children = children_among(store, entities, top);
    assert(flat == seq![top] + below);
    lemma_flatten_prefix_contains(subs, subs.len(), entity);
    lemma_children(store, entities, top);
    if flat.contains(entity) {
        let k = choose|k: int| 0 <= k < flat.len() && flat[k] == entity;
        if k == 0 {
            assert(descends(store, entities, entity, top, 0));
        } else {
            assert(below[k - 1] == entity);
            assert(below.contains(entity));
            let i = choose|i: int|
                0 <= i < subs.len() && (#[trigger] subs[i]).flatten().contains(entity);
            assert(depth > 0);
            let child = children[i];
            assert(subs[i] == subtree(store, entities, child, (depth - 1) as nat));
            lemma_subtree_contains(store, entities, child, (depth - 1) as nat, entity);
            let inner = choose|inner: nat|
                inner <= depth - 1 && #[trigger] descends(store, entities, entity, child, inner);
            assert(children.contains(child));
            lemma_descends_extend(store, entities, entity, child, top, inner);
            assert(inner + 1 <= depth && descends(store, entities, entity, top, inner + 1));
        }
    }
    if exists|steps: nat|
        steps <= depth && #[trigger] descends(store, entities, entity, top, steps) {
        let steps = choose|steps: nat|
            steps <= depth && #[trigger] descends(store, entities, entity, top, steps);
        if steps == 0 {
            assert(flat[0] == entity);
        } else {
            let child = lemma_descends_split(store, entities, entity, top, steps);
            assert(children.contains(child));
            let i = choose|i: int| 0 <= i < children.len() && children[i] == child;
            assert(subs[i] == subtree(store, entities, child, (depth - 1) as nat));
            lemma_subtree_contains(store, entities, child, (depth - 1) as nat, entity);
            assert((steps - 1) as nat <= depth - 1 && descends(
                store,
                entities,
                entity,
                child,
                (steps - 1) as nat,
            ));
            assert(subs[i].flatten().contains(entity));
            assert(below.contains(entity));
            let k = choose|k: int| 0 <= k < below.len() && below[k] == entity;
            assert(flat[k + 1] == entity);
        }
    }
}

/// The trees of two children of an entity with a root among its ancestors
/// have no entity in common.
pub proof fn lemma_siblings_disjoint(
    store: &Store,
    entities: Seq<EntityId>,
    parent: EntityId,
    one: EntityId,
    other: EntityId,
    depth: nat,
    entity: EntityId,
)
    requires
        is_rooted(store, entities, parent),
        is_child(store, entities, one, parent),
        is_child(store, entities, other, parent),
        one != other,
    ensures
        !(subtree(store, entities, one, depth).flatten().contains(entity) && subtree(
            store,
            entities,
            other,
            depth,
        ).flatten().contains(entity)),
{
    lemma_subtree_contains(store, entities, one, depth, entity);
    lemma_subtree_contains(store, entities, other, depth, entity);
    if subtree(store, entities, one, depth).flatten().contains(entity) && subtree(
        store,
        entities,
        other,
        depth,
    ).flatten().contains(entity) {
        let a = choose|a: nat| a <= depth && #[trigger] descends(store, entities, entity, one, a);
        let b = choose|b: nat|
            b <= depth && #[trigger] descends(store, entities, entity, other, b);
        if a <= b {
            lemma_one_line(store, entities, entity, one, other, a, b);
            lemma_above_sibling(store, entities, parent, one, other, (b - a) as nat);
        } else {
            lemma_one_line(store, entities, entity, other, one, b, a);
            lemma_above_sibling(store, entities, parent, other, one, (a - b) as nat);
        }
    }
}

/// A child of an entity with a root among its ancestors stands below no
/// other child of the entity.
pub proof fn lemma_above_sibling(
    store: &Store,
    entities: Seq<EntityId>,
    parent: EntityId,
    one: EntityId,
    other: EntityId,
    steps: nat,
)
    requires
        is_rooted(store, entities, parent),
        is_child(store, entities, one, parent),
        is_child(store, entities, other, parent),
        descends(store, entities, one, other, steps),
    ensures
        one == other,
{
    if steps > 0 {
        assert(descends(store, entities, parent, other, (steps - 1) as nat));
        assert(descends(store, entities, other, other, 0));
        lemma_descends_extend(store, entities, other, other, parent, 0);
        lemma_descends_compose(
            store,
            entities,
            parent,
            other,
            parent,
            (steps - 1) as nat,
            1,
        );
        lemma_no_cycle(store, entities, parent, steps);
    }
}

/// The trees of two roots have no entity in common.
pub proof fn lemma_roots_disjoint(
    store: &Store,
    entities: Seq<EntityId>,
    one: EntityId,
    other: EntityId,
    depth: nat,
    entity: EntityId,
)
    requires
        is_root(store, entities, one),
        is_root(store, entities, other),
        one != other,
    ensures
        !(subtree(store, entities, one, depth).flatten().contains(entity) && subtree(
            store,
            entities,
            other,
            depth,
        ).flatten().contains(entity)),
{
    lemma_subtree_contains(store, entities, one, depth, entity);
    lemma_subtree_contains(store, entities, other, depth, entity);
    if subtree(store, entities, one, depth).flatten().contains(entity) && subtree(
        store,
        entities,
        other,
        depth,
    ).flatten().contains(entity) {
        let a = choose|a: nat| a <= depth && #[trigger] descends(store, entities, entity, one, a);
        let b = choose|b: nat|
            b <= depth && #[trigger] descends(store, entities, entity, other, b);
        if a <= b {
            lemma_one_line(store, entities, entity, one, other, a, b);
            lemma_root_is_top(store, entities, one, other, (b - a) as nat);
        } else {
            lemma_one_line(store, entities, entity, other, one, b, a);
            lemma_root_is_top(store, entities, other, one, (a - b) as nat);
        }
    }
}

/// Trees that hold no entity twice, and no two of which hold the same
/// entity, hold no entity twice together.
pub proof fn lemma_prefix_no_duplicates(groups: Seq<GroupingTree>, n: nat)
    requires
        n <= groups.len(),
        forall|i: int| 0 <= i < n ==> (#[trigger] groups[i]).flatten().no_duplicates(),
        forall|i: int, j: int, entity: EntityId|
            0 <= i < j < n ==> !(#[trigger] groups[i].flatten().contains(entity)
                && #[trigger] groups[j].flatten().contains(entity)),
    ensures
        flatten_prefix(groups, n).no_duplicates(),
    decreases n,
{
    if n > 0 {
        let front = flatten_prefix(groups, (n - 1) as nat);
        let last = groups[n - 1].flatten();
        lemma_prefix_no_duplicates(groups, (n - 1) as nat);
        assert forall|a: int, b: int| 0 <= a < front.len() && 0 <= b < last.len() implies front[a]
            != last[b] by {
            let entity = front[a];
            assert(front.contains(entity));
            lemma_flatten_prefix_contains(groups, (n - 1) as nat, entity);
            let i = choose|i: int|
                0 <= i < n - 1 && (#[trigger] groups[i]).flatten().contains(entity);
            if last[b] == entity {
                assert(groups[n - 1].flatten().contains(entity));
                assert(!(groups[i].flatten().contains(entity) && groups[n - 1].flatten().contains(
                    entity,
                )));
            }
        }
        lemma_no_dup_in_concat(front, last);
    }
}

/// The tree of an entity with a root among its ancestors holds no entity twice.
pub proof fn lemma_subtree_no_duplicates(store: &Store, entities: Seq<EntityId>, top: EntityId, depth: nat)
    requires
        is_rooted(store, entities, top),
    ensures
        subtree(store, entities, top, depth).flatten().no_duplicates(),
    decreases depth,
{
    let tree = subtree(store, entities, top, depth);
    let subs = tree.sub_groups;
    let below = flatten_prefix(subs, subs.len());
    let children = children_among(store, entities, top);
    lemma_children(store, entities, top);
    if depth > 0 {
        assert forall|i: int| 0 <= i < subs.len() implies (
        #[trigger] subs[i]).flatten().no_duplicates() by {
            assert(children.contains(children[i]));
            lemma_child_is_rooted(store, entities, children[i], top);
            lemma_subtree_no_duplicates(store, entities, children[i], (depth - 1) as nat);
        }
        assert forall|i: int, j: int, entity: EntityId| 0 <= i < j < subs.len() implies !(
        #[trigger] subs[i].flatten().contains(entity) && #[trigger] subs[j].flatten().contains(
            entity,
        )) by {
            assert(children.contains(children[i]));
            assert(children.contains(children[j]));
            lemma_siblings_disjoint(
                store,
                entities,
                top,
                children[i],
                children[j],
                (depth - 1) as nat,
                entity,
            );
        }
    }
    lemma_prefix_no_duplicates(subs, subs.len());
    let own = seq![top];
    assert forall|a: int, b: int| 0 <= a < own.len() && 0 <= b < below.len() implies own[a]
        != below[b] by {
        if below[b] == top {
            assert(below.contains(top));
            lemma_flatten_prefix_contains(subs, subs.len(), top);
            let i = choose|i: int|
                0 <= i < subs.len() && (#[trigger] subs[i]).flatten().contains(top);
            let child = children[i];
            assert(children.contains(child));
            lemma_subtree_contains(store, entities, child, (depth - 1) as nat, top);
            let steps = choose|steps: nat|
                steps <= depth - 1 && #[trigger] descends(store, entities, top, child, steps);
            lemma_descends_extend(store, entities, top, child, top, steps);
            lemma_no_cycle(store, entities, top, steps + 1);
        }
    }
    lemma_no_dup_in_concat(own, below);
}

/// The line of an entity: the entity, its parent among `entities`, the
/// parent of that, and so on, `steps` levels up.
pub open spec fn line(store: &Store, entities: Seq<EntityId>, entity: EntityId, steps: nat) -> Seq<EntityId>
    decreases steps,
{
    if steps == 0 {
        seq![entity]
    } else {
        seq![entity] + line(
            store,
            entities,
            parent_among(store, entities, entity)->0,
            (steps - 1) as nat,
        )
    }
}

/// The line of an entity up to what it stands below holds one entity for
/// each level, each standing below the last by the levels that are left.
pub proof fn lemma_line(store: &Store, entities: Seq<EntityId>, entity: EntityId, upper: EntityId, steps: nat)
    requires
        descends(store, entities, entity, upper, steps),
    ensures
        line(store, entities, entity, steps).len() == steps + 1,
        forall|i: int|
            0 <= i <= steps ==> descends(
                store,
                entities,
                #[trigger] line(store, entities, entity, steps)[i],
                upper,
                (steps - i) as nat,
            ),
    decreases steps,
{
    if steps > 0 {
        let parent = parent_among(store, entities, entity)->0;
        lemma_line(store, entities, parent, upper, (steps - 1) as nat);
        let rest = line(store, entities, parent, (steps - 1) as nat);
        let whole = line(store, entities, entity, steps);
        assert(whole == seq![entity] + rest);
        assert forall|i: int| 0 <= i <= steps implies descends(
            store,
            entities,
            #[trigger] whole[i],
            upper,
            (steps - i) as nat,
        ) by {
            if i > 0 {
                assert(whole[i] == rest[i - 1]);
            }
        }
    }
}

/// A sequence without repetition of entities among `entities` is no
/// longer than `entities` without repetition.
pub proof fn lemma_bounded_by_distinct(some: Seq<EntityId>, entities: Seq<EntityId>)
    requires
        some.no_duplicates(),
        forall|i: int| 0 <= i < some.len() ==> entities.contains(#[trigger] some[i]),
    ensures
        some.len() <= distinct(entities).len(),
{
    let unique = distinct(entities);
    lemma_distinct(entities);
    some.unique_seq_to_set();
    unique.unique_seq_to_set();
    vstd::seq_lib::seq_to_set_is_finite(unique);
    assert(some.to_set().subset_of(unique.to_set())) by {
        assert forall|x: EntityId| some.to_set().contains(x) implies unique.to_set().contains(
            x,
        ) by {
            assert(some.contains(x));
            let i = choose|i: int| 0 <= i < some.len() && some[i] == x;
            assert(entities.contains(some[i]));
            assert(unique.contains(x));
        }
    }
    vstd::set_lib::lemma_len_subset(some.to_set(), unique.to_set());
}

/// An entity stands fewer levels below a root than there are entities.
pub proof fn lemma_levels_bounded(store: &Store, entities: Seq<EntityId>, entity: EntityId, root: EntityId, steps: nat)
    requires
        is_root(store, entities, root),
        descends(store, entities, entity, root, steps),
    ensures
        steps < distinct(entities).len(),
{
    let whole = line(store, entities, entity, steps);
    lemma_line(store, entities, entity, root, steps);
    assert forall|i: int, j: int| 0 <= i < whole.len() && 0 <= j < whole.len() && i
        != j implies whole[i] != whole[j] by {
        if whole[i] == whole[j] {
            let (a, b) = if i < j {
                (i, j)
            } else {
                (j, i)
            };
            assert(descends(store, entities, whole[a], root, (steps - a) as nat));
            assert(descends(store, entities, whole[b], root, (steps - b) as nat));
            lemma_one_line(
                store,
                entities,
                whole[a],
                root,
                root,
                (steps - b) as nat,
                (steps - a) as nat,
            );
            lemma_root_is_top(store, entities, root, root, (b - a) as nat);
        }
    }
    assert forall|i: int| 0 <= i < whole.len() implies entities.contains(#[trigger] whole[i]) by {
        assert(descends(store, entities, whole[i], root, (steps - i) as nat));
    }
    lemma_bounded_by_distinct(whole, entities);
}

/// The flattened grouping by hierarchy holds exactly the entities that
/// have a root among their ancestors, each once.
pub proof fn lemma_hierarchy_flatten(store: &Store, entities: Seq<EntityId>)
    ensures
        hierarchy_grouping(store, entities).flatten().no_duplicates(),
        forall|entity: EntityId|
            hierarchy_grouping(store, entities).flatten().contains(entity) <==> is_rooted(
                store,
                entities,
                entity,
            ),
{
    let whole = hierarchy_grouping(store, entities);
    let subs = whole.sub_groups;
    let flat = whole.flatten();
    let below = flatten_prefix(subs, subs.len());
    let roots = roots_among(store, entities);
    let depth = distinct(entities).len();
    assert(flat =~= below);
    lemma_roots(store, entities);
    if entities.len() > 0 {
        assert forall|i: int| 0 <= i < subs.len() implies (
        #[trigger] subs[i]).flatten().no_duplicates() by {
            assert(roots.contains(roots[i]));
            assert(descends(store, entities, roots[i], roots[i], 0));
            lemma_subtree_no_duplicates(store, entities, roots[i], depth);
        }
        assert forall|i: int, j: int, entity: EntityId| 0 <= i < j < subs.len() implies !(
        #[trigger] subs[i].flatten().contains(entity) && #[trigger] subs[j].flatten().contains(
            entity,
        )) by {
            assert(roots.contains(roots[i]));
            assert(roots.contains(roots[j]));
            lemma_roots_disjoint(store, entities, roots[i], roots[j], depth, entity);
        }
    }
    lemma_prefix_no_duplicates(subs, subs.len());
    assert forall|entity: EntityId| flat.contains(entity) <==> is_rooted(
        store,
        entities,
        entity,
    ) by {
        lemma_flatten_prefix_contains(subs, subs.len(), entity);
        if flat.contains(entity) {
            let i = choose|i: int|
                0 <= i < subs.len() && (#[trigger] subs[i]).flatten().contains(entity);
            assert(roots.contains(roots[i]));
            lemma_subtree_contains(store, entities, roots[i], depth, entity);
            let steps = choose|steps: nat|
                steps <= depth && #[trigger] descends(store, entities, entity, roots[i], steps);
            assert(is_root(store, entities, roots[i]) && descends(
                store,
                entities,
                entity,
                roots[i],
                steps,
            ));
        }
        if is_rooted(store, entities, entity) {
            let (root, steps) = choose|root: EntityId, steps: nat|
                is_root(store, entities, root) && #[trigger] descends(
                    store,
                    entities,
                    entity,
                    root,
                    steps,
                );
            lemma_levels_bounded(store, entities, entity, root, steps);
            assert(roots.contains(root));
            let i = choose|i: int| 0 <= i < roots.len() && roots[i] == root;
            assert(entities.len() > 0) by {
                if entities.len() == 0 {
                    assert(!entities.contains(root));
                }
            }
            lemma_subtree_contains(store, entities, root, depth, entity);
            assert(steps <= depth && descends(store, entities, entity, root, steps));
            assert(subs[i].flatten().contains(entity));
        }
    }
}

/// Where every entity that exists among those given has a root among its
/// ancestors, as in a hierarchy without cycles, the flattened grouping by
/// hierarchy holds exactly the entities that exist among those given, each
/// once: whatever is given twice, and whatever does not exist, is left out.
pub proof fn lemma_hierarchy_flatten_complete(store: &Store, entities: Seq<EntityId>)
    requires
        forall|entity: EntityId|
            entities.contains(entity) && store.exists_spec(entity) ==> #[trigger] is_rooted(
                store,
                entities,
                entity,
            ),
    ensures
        hierarchy_grouping(store, entities).flatten().no_duplicates(),
        forall|entity: EntityId|
            hierarchy_grouping(store, entities).flatten().contains(entity) <==> entities.contains(
                entity,
            ) && store.exists_spec(entity),
{
    lemma_hierarchy_flatten(store, entities);
    assert forall|entity: EntityId|
        hierarchy_grouping(store, entities).flatten().contains(entity) <==> entities.contains(
            entity,
        ) && store.exists_spec(entity) by {
        if is_rooted(store, entities, entity) {
            let (root, steps) = choose|root: EntityId, steps: nat|
                is_root(store, entities, root) && #[trigger] descends(
                    store,
                    entities,
                    entity,
                    root,
                    steps,
                );
            if steps == 0 {
                assert(entity == root);
            }
        }
    }
}

/// The flattened grouping of either strategy holds exactly the entities
/// that exist among those given, each once; for the grouping by hierarchy,
/// where every such entity has a root among its ancestors.
pub proof fn lemma_flatten_complete(store: &Store, entities: Seq<EntityId>, strategy: GroupingStrategy)
    requires
        strategy == GroupingStrategy::Hierarchy ==> forall|entity: EntityId|
            entities.contains(entity) && store.exists_spec(entity) ==> #[trigger] is_rooted(
                store,
                entities,
                entity,
            ),
    ensures
        grouping_of(store, entities, strategy).flatten().no_duplicates(),
        forall|entity: EntityId|
            grouping_of(store, entities, strategy).flatten().contains(entity)
                <==> entities.contains(entity) && store.exists_spec(entity),
{
    match strategy {
        GroupingStrategy::Hierarchy => {
            lemma_hierarchy_flatten_complete(store, entities);
        },
        GroupingStrategy::ArchetypeSimilarity => {
            crate::similarity_laws::lemma_similarity_flatten_complete(store, entities);
        },
    }
}

/// Nothing that stands below `top` has its key in `visited`.
pub open spec fn untouched(store: &Store, entities: Seq<EntityId>, top: EntityId, visited: Set<u64>) -> bool {
    forall|lower: EntityId, steps: nat| #[trigger]
        descends(store, entities, lower, top, steps) ==> !visited.contains(lower.key())
}

/// Nothing stands more than `depth` levels below `top`.
pub open spec fn is_whole(store: &Store, entities: Seq<EntityId>, top: EntityId, depth: nat) -> bool {
    forall|lower: EntityId, steps: nat| #[trigger]
        descends(store, entities, lower, top, steps) ==> steps <= depth
}

/// The tree of an entity is the same at every depth at which nothing
/// below the entity is cut off.
pub proof fn lemma_subtree_stable(store: &Store, entities: Seq<EntityId>, top: EntityId, one: nat, other: nat)
    requires
        is_whole(store, entities, top, one),
        is_whole(store, entities, top, other),
    ensures
        subtree(store, entities, top, one) == subtree(store, entities, top, other),
    decreases one,
{
    let children = children_among(store, entities, top);
    lemma_children(store, entities, top);
    let left = subtree(store, entities, top, one).sub_groups;
    let right = subtree(store, entities, top, other).sub_groups;
    if children.len() == 0 {
        assert(left =~= right);
    } else {
        let first = children[0];
        assert(children.contains(first));
        assert(descends(store, entities, first, first, 0));
        lemma_descends_extend(store, entities, first, first, top, 0);
        assert(descends(store, entities, first, top, 1));
        assert(one >= 1 && other >= 1);
        assert forall|i: int| 0 <= i < children.len() implies subtree(
            store,
            entities,
            children[i],
            (one - 1) as nat,
        ) == subtree(store, entities, children[i], (other - 1) as nat) by {
            let child = children[i];
            assert(children.contains(child));
            assert forall|lower: EntityId, steps: nat| #[trigger]
                descends(store, entities, lower, child, steps) implies steps <= one - 1 && steps
                <= other - 1 by {
                lemma_descends_extend(store, entities, lower, child, top, steps);
                assert(descends(store, entities, lower, top, steps + 1));
            }
            lemma_subtree_stable(store, entities, child, (one - 1) as nat, (other - 1) as nat);
        }
        assert(left =~= right);
    }
}

/// What stands below an entity with a root among its ancestors stands
/// fewer levels below it than there are entities.
pub proof fn lemma_rooted_is_whole(store: &Store, entities: Seq<EntityId>, top: EntityId)
    requires
        is_rooted(store, entities, top),
    ensures
        distinct(entities).len() >= 1,
        is_whole(store, entities, top, (distinct(entities).len() - 1) as nat),
        is_whole(store, entities, top, distinct(entities).len()),
{
    let (root, up) = choose|root: EntityId, up: nat|
        is_root(store, entities, root) && #[trigger] descends(store, entities, top, root, up);
    lemma_levels_bounded(store, entities, top, root, up);
    assert forall|lower: EntityId, steps: nat| #[trigger]
        descends(store, entities, lower, top, steps) implies steps <= distinct(entities).len()
        - 1 by {
        lemma_descends_compose(store, entities, lower, top, root, steps, up);
        lemma_levels_bounded(store, entities, lower, root, steps + up);
    }
}

/// The tree of an entity with a root among its ancestors has the whole
/// trees of its children as sub-groups.
pub proof fn lemma_whole_tree(store: &Store, entities: Seq<EntityId>, top: EntityId)
    requires
        is_rooted(store, entities, top),
    ensures
        subtree(store, entities, top, distinct(entities).len()).sub_groups == forest(
            store,
            entities,
            children_among(store, entities, top),
            distinct(entities).len(),
        ),
{
    let depth = distinct(entities).len();
    let children = children_among(store, entities, top);
    lemma_children(store, entities, top);
    lemma_rooted_is_whole(store, entities, top);
    assert forall|i: int| 0 <= i < children.len() implies subtree(
        store,
        entities,
        children[i],
        (depth - 1) as nat,
    ) == subtree(store, entities, children[i], depth) by {
        assert(children.contains(children[i]));
        lemma_child_is_rooted(store, entities, children[i], top);
        lemma_rooted_is_whole(store, entities, children[i]);
        assert forall|lower: EntityId, steps: nat| #[trigger]
            descends(store, entities, lower, children[i], steps) implies steps <= depth - 1 by {
            lemma_descends_extend(store, entities, lower, children[i], top, steps);
        }
        lemma_subtree_stable(store, entities, children[i], (depth - 1) as nat, depth);
    }
    assert(subtree(store, entities, top, depth).sub_groups =~= forest(
        store,
        entities,
        children,
        depth,
    ));
}

/// What stands below an entity with a root among its ancestors is held
/// by the whole tree of the entity.
pub proof fn lemma_whole_tree_holds(store: &Store, entities: Seq<EntityId>, top: EntityId, lower: EntityId, steps: nat)
    requires
        is_rooted(store, entities, top),
        descends(store, entities, lower, top, steps),
    ensures
        subtree(store, entities, top, distinct(entities).len()).flatten().contains(lower),
{
    lemma_rooted_is_whole(store, entities, top);
    lemma_subtree_contains(store, entities, top, distinct(entities).len(), lower);
}

/// When the trees of the children before it have been made, a child of
/// an entity with a root among its ancestors has a root among its
/// ancestors too, and nothing below it has been visited, if nothing below
/// the entity had been before.
pub proof fn lemma_next_child_untouched(
    store: &Store,
    entities: Seq<EntityId>,
    parent: EntityId,
    visited: Set<u64>,
    i: int,
)
    requires
        is_rooted(store, entities, parent),
        untouched(store, entities, parent, visited),
        0 <= i < children_among(store, entities, parent).len(),
    ensures
        is_rooted(store, entities, children_among(store, entities, parent)[i]),
        untouched(
            store,
            entities,
            children_among(store, entities, parent)[i],
            visited.insert(parent.key()).union(
                keys_of(
                    flatten_prefix(
                        forest(
                            store,
                            entities,
                            children_among(store, entities, parent).take(i),
                            distinct(entities).len(),
                        ),
                        i as nat,
                    ),
                ),
            ),
        ),
{
    let depth = distinct(entities).len();
    let children = children_among(store, entities, parent);
    let child = children[i];
    let trees = forest(store, entities, children.take(i), depth);
    let below = flatten_prefix(trees, i as nat);
    lemma_children(store, entities, parent);
    assert(children.contains(child));
    lemma_child_is_rooted(store, entities, child, parent);
    assert forall|lower: EntityId, steps: nat| #[trigger]
        descends(store, entities, lower, child, steps) implies !visited.insert(
        parent.key(),
    ).union(keys_of(below)).contains(lower.key()) by {
        lemma_descends_extend(store, entities, lower, child, parent, steps);
        assert(descends(store, entities, lower, parent, steps + 1));
        if lower.key() == parent.key() {
            lemma_key_injective(lower, parent);
            lemma_no_cycle(store, entities, parent, steps + 1);
        }
        lemma_keys_of_contains(below, lower);
        if below.contains(lower) {
            lemma_flatten_prefix_contains(trees, i as nat, lower);
            let j = choose|j: int| 0 <= j < i && (#[trigger] trees[j]).flatten().contains(lower);
            assert(trees[j] == subtree(store, entities, children[j], depth));
            assert(children.contains(children[j]));
            lemma_whole_tree_holds(store, entities, child, lower, steps);
            lemma_siblings_disjoint(store, entities, parent, children[j], child, depth, lower);
        }
    }
}

/// When the trees of the roots before it have been made, nothing below a
/// root has been visited.
pub proof fn lemma_next_root_untouched(store: &Store, entities: Seq<EntityId>, roots: Seq<EntityId>, i: int)
    requires
        roots.no_duplicates(),
        forall|k: int| 0 <= k < roots.len() ==> is_root(store, entities, #[trigger] roots[k]),
        0 <= i < roots.len(),
    ensures
        is_rooted(store, entities, roots[i]),
        untouched(
            store,
            entities,
            roots[i],
            keys_of(
                flatten_prefix(
                    forest(store, entities, roots.take(i), distinct(entities).len()),
                    i as nat,
                ),
            ),
        ),
{
    let depth = distinct(entities).len();
    let root = roots[i];
    let trees = forest(store, entities, roots.take(i), depth);
    let below = flatten_prefix(trees, i as nat);
    assert(descends(store, entities, root, root, 0));
    assert forall|lower: EntityId, steps: nat| #[trigger]
        descends(store, entities, lower, root, steps) implies !keys_of(below).contains(
        lower.key(),
    ) by {
        lemma_keys_of_contains(below, lower);
        if below.contains(lower) {
            lemma_flatten_prefix_contains(trees, i as nat, lower);
            let j = choose|j: int| 0 <= j < i && (#[trigger] trees[j]).flatten().contains(lower);
            assert(trees[j] == subtree(store, entities, roots[j], depth));
            lemma_whole_tree_holds(store, entities, root, lower, steps);
            lemma_roots_disjoint(store, entities, roots[j], root, depth, lower);
        }
    }
}

} // verus!
