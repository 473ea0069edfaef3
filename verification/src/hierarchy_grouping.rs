//! Grouping entities by the relation of parent and child.
//!
//! The grouping is a forest: the roots are the entities whose parent is not
//! among the given ones, and below each entity stand its children among
//! them. A hierarchy with a cycle cannot send the grouping round in
//! circles: the entities of a cycle have no root above them and are left
//! out, and the descent keeps a set of the entities that it has visited
//! and passes over what the set holds.

use vstd::prelude::*;
use vstd::relations::{sorted_by, total_ordering};
use vstd::seq_lib::to_multiset_build;
use bevy::platform::collections::{HashMap, HashSet};
use bevy::platform::hash::FixedHasher;
use crate::collections::{
    bucket_at, bucket_entries, buckets_get, buckets_new, buckets_push, set_contains, set_insert,
    set_items, set_new,
};
use crate::entity_grouping::{
    distinct, distinct_values, flatten_prefix, group_views, lemma_flatten_prefix_push,
    EntityGrouping, GroupingTree,
};
use crate::hierarchy_laws::{
    descends, is_child, is_root, is_rooted, lemma_children, lemma_next_child_untouched,
    lemma_next_root_untouched, lemma_roots, lemma_whole_tree, untouched,
};
use crate::sorting::{lemma_insertion_step, lemma_sorted_is_sort, Numbered};
use crate::store::{
    keys_of, lemma_key_injective, lemma_keys_of_concat, lemma_keys_of_contains, lemma_keys_of_one,
    lemma_unvisited_monotone, lemma_visit_decreases, unvisited, EntityId, Store,
};
use crate::text::{
    lemma_text_le_antisym, lemma_text_le_refl, lemma_text_le_total, lemma_text_le_trans,
    lowercase, text_le, text_le_exec, to_lowercase,
};

verus! {

/// What siblings are ordered by: whether the entity lacks a name, its name
/// in lower case, and the number of the entity.
pub type DisplayKey = (bool, Seq<char>, u64);

/// The key of an entity in the order of siblings.
pub open spec fn display_key(store: &Store, entity: EntityId) -> DisplayKey {
    match store.name_spec(entity) {
        Some(name) => (false, lowercase(name), entity.key()),
        None => (true, Seq::empty(), entity.key()),
    }
}

/// The order of keys: named entities before unnamed ones, then by name,
/// then by the number of the entity.
pub open spec fn key_leq(a: DisplayKey, b: DisplayKey) -> bool {
    if a.0 != b.0 {
        !a.0
    } else if a.1 != b.1 {
        text_le(a.1, b.1)
    } else {
        a.2 <= b.2
    }
}

/// The order of siblings: named entities come before unnamed ones; named
/// entities are ordered by their names without regard to case; what is left
/// equal is ordered by index, then generation.
pub open spec fn by_display(store: &Store) -> spec_fn(EntityId, EntityId) -> bool {
    |a: EntityId, b: EntityId| key_leq(display_key(store, a), display_key(store, b))
}

/// The order of siblings is total.
pub proof fn lemma_by_display_total(store: &Store)
    ensures
        total_ordering(by_display(store)),
{
    let leq = by_display(store);
    assert forall|x: EntityId| #[trigger] leq(x, x) by {
        lemma_text_le_refl(display_key(store, x).1);
    }
    assert forall|x: EntityId, y: EntityId| #[trigger] leq(x, y) && #[trigger] leq(
        y,
        x,
    ) implies x == y by {
        let a = display_key(store, x);
        let b = display_key(store, y);
        if a.1 != b.1 {
            lemma_text_le_antisym(a.1, b.1);
        }
        lemma_key_injective(x, y);
    }
    assert forall|x: EntityId, y: EntityId, z: EntityId| #[trigger] leq(x, y) && #[trigger] leq(
        y,
        z,
    ) implies leq(x, z) by {
        let a = display_key(store, x);
        let b = display_key(store, y);
        let c = display_key(store, z);
        if a.0 == b.0 && b.0 == c.0 {
            lemma_text_le_refl(a.1);
            lemma_text_le_refl(b.1);
            lemma_text_le_trans(a.1, b.1, c.1);
            if a.1 == c.1 && a.1 != b.1 {
                lemma_text_le_antisym(a.1, b.1);
            }
        }
    }
    assert forall|x: EntityId, y: EntityId| #[trigger] leq(x, y) || #[trigger] leq(y, x) by {
        lemma_text_le_total(display_key(store, x).1, display_key(store, y).1);
    }
}

/// The parent of an entity, where the parent is among `entities`.
pub open spec fn parent_among(store: &Store, entities: Seq<EntityId>, entity: EntityId) -> Option<
    EntityId,
> {
    match store.parent_spec(entity) {
        Some(parent) => if entities.contains(parent) {
            Some(parent)
        } else {
            None
        },
        None => None,
    }
}

/// The predicate that holds of the roots among `entities`: the entities
/// that exist and have no parent among `entities`.
pub open spec fn is_root_among(store: &Store, entities: Seq<EntityId>) -> spec_fn(EntityId) -> bool {
    |entity: EntityId| store.exists_spec(entity) && parent_among(store, entities, entity) is None
}

/// The predicate that holds of the children of `parent` among `entities`.
pub open spec fn is_child_among(store: &Store, entities: Seq<EntityId>, parent: EntityId) -> spec_fn(
    EntityId,
) -> bool {
    |entity: EntityId|
        store.exists_spec(entity) && parent_among(store, entities, entity) == Some(parent)
}

/// The roots among `entities`, each once, in the order of siblings.
pub open spec fn roots_among(store: &Store, entities: Seq<EntityId>) -> Seq<EntityId> {
    distinct(entities).filter(is_root_among(store, entities)).sort_by(by_display(store))
}

/// The children of `parent` among `entities`, each once, in the order of siblings.
pub open spec fn children_among(store: &Store, entities: Seq<EntityId>, parent: EntityId) -> Seq<
    EntityId,
> {
    distinct(entities).filter(is_child_among(store, entities, parent)).sort_by(by_display(store))
}

/// The tree of `entity`: a node with the entity, and below it the trees of its
/// children among `entities`, down to `depth` levels.
pub open spec fn subtree(store: &Store, entities: Seq<EntityId>, entity: EntityId, depth: nat) -> GroupingTree
    decreases depth,
{
    GroupingTree {
        entities: seq![entity],
        sub_groups: if depth == 0 {
            Seq::empty()
        } else {
            let children = children_among(store, entities, entity);
            Seq::new(
                children.len(),
                |i: int| subtree(store, entities, children[i], (depth - 1) as nat),
            )
        },
    }
}

/// The trees of the given entities, in their order.
pub open spec fn forest(store: &Store, entities: Seq<EntityId>, tops: Seq<EntityId>, depth: nat) -> Seq<
    GroupingTree,
> {
    Seq::new(tops.len(), |i: int| subtree(store, entities, tops[i], depth))
}

/// The grouping by hierarchy: a node without entities, and below it the
/// trees of the roots among `entities`. A chain of ancestors within
/// `entities` has at most as many members as `entities` has distinct ones,
/// so that many levels hold every tree in full.
pub open spec fn hierarchy_grouping(store: &Store, entities: Seq<EntityId>) -> GroupingTree {
    GroupingTree {
        entities: Seq::empty(),
        sub_groups: if entities.len() == 0 {
            Seq::empty()
        } else {
            forest(store, entities, roots_among(store, entities), distinct(entities).len())
        },
    }
}

/// The key of an entity in the order of siblings, as the sort holds it.
pub open spec fn key_view(key: (bool, String, u64)) -> DisplayKey {
    (key.0, key.1@, key.2)
}

/// Makes the key of an entity in the order of siblings.
pub fn sorting_key(store: &Store, entity: EntityId) -> (key: (bool, String, u64))
    ensures
        key_view(key) == display_key(store, entity),
{
    match store.entity(entity) {
        Some(record) => match &record.name {
            Some(name) => (false, to_lowercase(name.as_str()), entity.to_key()),
            None => (true, String::new(), entity.to_key()),
        },
        None => (true, String::new(), entity.to_key()),
    }
}

/// Whether the first key comes before the second, or equals it.
fn key_le(a: &(bool, String, u64), b: &(bool, String, u64)) -> (le: bool)
    ensures
        le == key_leq(key_view(*a), key_view(*b)),
{
    if a.0 != b.0 {
        !a.0
    } else {
        let forth = text_le_exec(a.1.as_str(), b.1.as_str());
        let back = text_le_exec(b.1.as_str(), a.1.as_str());
        proof {
            if forth && back {
                lemma_text_le_antisym(a.1@, b.1@);
            }
            if a.1@ == b.1@ {
                lemma_text_le_refl(a.1@);
            }
        }
        if forth && back {
            a.2 <= b.2
        } else {
            forth
        }
    }
}

/// Sorts entities into the order of siblings.
pub fn sort_entities(store: &Store, entities: &Vec<EntityId>) -> (sorted: Vec<EntityId>)
    ensures
        sorted@ == entities@.sort_by(by_display(store)),
{
    let ghost leq = by_display(store);
    proof {
        lemma_by_display_total(store);
    }
    let mut sorted: Vec<EntityId> = Vec::new();
    let mut keys: Vec<(bool, String, u64)> = Vec::new();
    let mut i: usize = 0;
    assert(sorted@ =~= entities@.take(0));
    while i < entities.len()
        invariant
            i <= entities.len(),
            leq == by_display(store),
            total_ordering(leq),
            sorted_by(sorted@, leq),
            sorted@.to_multiset() == entities@.take(i as int).to_multiset(),
            keys.len() == sorted.len(),
            forall|k: int|
                0 <= k < keys.len() ==> key_view(#[trigger] keys@[k]) == display_key(
                    store,
                    sorted@[k],
                ),
        decreases entities.len() - i,
    {
        let x = entities[i];
        let key = sorting_key(store, x);
        let mut pos: usize = 0;
        while pos < sorted.len() && key_le(&keys[pos], &key)
            invariant
                pos <= sorted.len(),
                keys.len() == sorted.len(),
                leq == by_display(store),
                key_view(key) == display_key(store, x),
                forall|k: int|
                    0 <= k < keys.len() ==> key_view(#[trigger] keys@[k]) == display_key(
                        store,
                        sorted@[k],
                    ),
                forall|k: int| 0 <= k < pos ==> #[trigger] leq(sorted@[k], x),
            decreases sorted.len() - pos,
        {
            pos += 1;
        }
        proof {
            if pos < sorted.len() {
                assert(!leq(sorted@[pos as int], x));
                assert(leq(x, sorted@[pos as int]));
            }
            lemma_insertion_step(sorted@, pos as int, x, leq);
            assert(entities@.take(i as int + 1) == entities@.take(i as int).push(x));
            to_multiset_build(entities@.take(i as int), x);
        }
        sorted.insert(pos, x);
        keys.insert(pos, key);
        i += 1;
    }
    proof {
        assert(entities@.take(entities.len() as int) == entities@);
        lemma_sorted_is_sort(sorted@, entities@, leq);
    }
    sorted
}

/// Divides the entities that exist into roots and children: an entity whose
/// parent is among `entities` goes into the bucket of its parent, every
/// other one is a root.
pub fn collect_root_entities(
    store: &Store,
    entities: &Vec<EntityId>,
    unique: &Vec<EntityId>,
    seen: &HashSet<u64, FixedHasher>,
) -> (result: (Vec<EntityId>, HashMap<u64, Vec<EntityId>, FixedHasher>))
    requires
        forall|x: EntityId| #[trigger] set_items(*seen).contains(x.key()) <==> entities@.contains(x),
    ensures
        result.0@ == unique@.filter(is_root_among(store, entities@)),
        forall|parent: EntityId| #[trigger]
            bucket_at(bucket_entries(result.1), parent.key()) == unique@.filter(
                is_child_among(store, entities@, parent),
            ),
{
    let mut roots: Vec<EntityId> = Vec::new();
    let mut children = buckets_new();
    let mut i: usize = 0;
    proof {
        assert(unique@.take(0) =~= Seq::<EntityId>::empty());
        reveal(Seq::filter);
    }
    while i < unique.len()
        invariant
            i <= unique.len(),
            forall|x: EntityId| #[trigger]
                set_items(*seen).contains(x.key()) <==> entities@.contains(x),
            roots@ == unique@.take(i as int).filter(is_root_among(store, entities@)),
            forall|parent: EntityId| #[trigger]
                bucket_at(bucket_entries(children), parent.key()) == unique@.take(i as int).filter(
                    is_child_among(store, entities@, parent),
                ),
        decreases unique.len() - i,
    {
        let entity = unique[i];
        let ghost front = unique@.take(i as int);
        let ghost old_children = bucket_entries(children);
        proof {
            assert(unique@.take(i as int + 1) == front.push(entity));
            front.lemma_filter_push(entity, is_root_among(store, entities@));
        }
        let mut parent_in_set: Option<EntityId> = None;
        let mut present = false;
        match store.entity(entity) {
            Some(record) => {
                present = true;
                match record.parent {
                    Some(parent) => {
                        if set_contains(seen, parent.to_key()) {
                            parent_in_set = Some(parent);
                        }
                    },
                    None => {},
                }
            },
            None => {},
        }
        assert(present == store.exists_spec(entity));
        assert(parent_in_set == parent_among(store, entities@, entity));
        if present {
            match parent_in_set {
                Some(parent) => {
                    buckets_push(&mut children, parent.to_key(), entity);
                },
                None => {
                    roots.push(entity);
                },
            }
        }
        proof {
            assert forall|other: EntityId| #[trigger]
                bucket_at(bucket_entries(children), other.key()) == unique@.take(
                    i as int + 1,
                ).filter(is_child_among(store, entities@, other)) by {
                front.lemma_filter_push(entity, is_child_among(store, entities@, other));
                assert(bucket_at(old_children, other.key()) == front.filter(
                    is_child_among(store, entities@, other),
                ));
                if present && parent_in_set is Some {
                    let parent = parent_in_set->0;
                    if other.key() == parent.key() {
                        lemma_key_injective(other, parent);
                    }
                }
            }
        }
        i += 1;
    }
    assert(unique@.take(unique.len() as int) == unique@);
    (roots, children)
}

/// The buckets hold, under the key of each entity, its children among
/// `entities`, each once.
pub open spec fn holds_children(
    store: &Store,
    entities: Seq<EntityId>,
    buckets: Map<u64, Seq<EntityId>>,
) -> bool {
    forall|parent: EntityId| #[trigger]
        bucket_at(buckets, parent.key()) == distinct(entities).filter(
            is_child_among(store, entities, parent),
        )
}

/// Makes the tree of `entity`: a node with the entity and, below it, the
/// trees of its children among `entities`, in the order of siblings.
///
/// An entity that does not exist, or that was visited before, gives no
/// tree, and the visited set stays as it is. Otherwise the entity is
/// visited, and so is all that its tree holds: no entity is held twice,
/// and none that was visited before. Children that were visited before
/// are left out, so that parents that form a cycle end the descent.
///
/// Where the entity has a root among its ancestors and nothing below it
/// was visited before, the tree is the whole tree of the entity.
pub fn generate_grouping_tree(
    store: &Store,
    entity: EntityId,
    entities: &Vec<EntityId>,
    children: &HashMap<u64, Vec<EntityId>, FixedHasher>,
    visited: &mut HashSet<u64, FixedHasher>,
) -> (result: Option<EntityGrouping>)
    requires
        holds_children(store, entities@, bucket_entries(*children)),
    ensures
        result is None <==> !store.exists_spec(entity) || set_items(*old(visited)).contains(
            entity.key(),
        ),
        result is None ==> set_items(*final(visited)) == set_items(*old(visited)),
        result matches Some(tree) ==> {
            &&& tree@.entities == seq![entity]
            &&& tree@.flatten().no_duplicates()
            &&& forall|held: EntityId| #[trigger]
                tree@.flatten().contains(held) ==> store.exists_spec(held) && !set_items(
                    *old(visited),
                ).contains(held.key()) && (held == entity || entities@.contains(held))
            &&& set_items(*final(visited)) == set_items(*old(visited)).union(
                keys_of(tree@.flatten()),
            )
            &&& is_rooted(store, entities@, entity) && untouched(
                store,
                entities@,
                entity,
                set_items(*old(visited)),
            ) ==> tree@ == subtree(store, entities@, entity, distinct(entities@).len())
        },
    decreases unvisited(store, set_items(*old(visited))),
{
    if !store.contains(entity) {
        return None;
    }
    let ghost before = set_items(*visited);
    if !set_insert(visited, entity.to_key()) {
        assert(set_items(*visited) =~= before);
        return None;
    }
    let ghost started = before.insert(entity.key());
    let ghost depth = distinct(entities@).len();
    let ghost whole = is_rooted(store, entities@, entity) && untouched(
        store,
        entities@,
        entity,
        before,
    );
    let included_children = match buckets_get(children, entity.to_key()) {
        Some(bucket) => sort_entities(store, bucket),
        None => {
            let none: Vec<EntityId> = Vec::new();
            sort_entities(store, &none)
        },
    };
    proof {
        assert(bucket_at(bucket_entries(*children), entity.key()) == distinct(entities@).filter(
            is_child_among(store, entities@, entity),
        ));
        assert(included_children@ == children_among(store, entities@, entity));
        lemma_children(store, entities@, entity);
        lemma_visit_decreases(store, entity, before);
        assert(flatten_prefix(Seq::<GroupingTree>::empty(), 0) == Seq::<EntityId>::empty());
        assert(keys_of(Seq::<EntityId>::empty()) =~= Set::<u64>::empty());
        assert(forest(store, entities@, included_children@.take(0), depth)
            =~= Seq::<GroupingTree>::empty());
    }
    let mut sub_groups: Vec<EntityGrouping> = Vec::new();
    assert(group_views(sub_groups@) =~= Seq::<GroupingTree>::empty());
    let mut i: usize = 0;
    while i < included_children.len()
        invariant
            i <= included_children.len(),
            sub_groups.len() <= i,
            holds_children(store, entities@, bucket_entries(*children)),
            included_children@ == children_among(store, entities@, entity),
            store.exists_spec(entity),
            before == set_items(*old(visited)),
            !before.contains(entity.key()),
            started == before.insert(entity.key()),
            depth == distinct(entities@).len(),
            whole == (is_rooted(store, entities@, entity) && untouched(
                store,
                entities@,
                entity,
                before,
            )),
            unvisited(store, started) < unvisited(store, before),
            flatten_prefix(group_views(sub_groups@), sub_groups.len() as nat).no_duplicates(),
            forall|held: EntityId| #[trigger]
                flatten_prefix(group_views(sub_groups@), sub_groups.len() as nat).contains(held)
                    ==> store.exists_spec(held) && !started.contains(held.key())
                    && entities@.contains(held),
            set_items(*visited) == started.union(
                keys_of(flatten_prefix(group_views(sub_groups@), sub_groups.len() as nat)),
            ),
            whole ==> sub_groups.len() == i && group_views(sub_groups@) == forest(
                store,
                entities@,
                included_children@.take(i as int),
                depth,
            ),
        decreases included_children.len() - i,
    {
        let child = included_children[i];
        let ghost done = group_views(sub_groups@);
        let ghost below = flatten_prefix(done, sub_groups.len() as nat);
        let ghost now = set_items(*visited);
        proof {
            assert(started.subset_of(now));
            lemma_unvisited_monotone(store, started, now);
            lemma_children(store, entities@, entity);
            assert(children_among(store, entities@, entity).contains(child));
            assert(is_child(store, entities@, child, entity));
            if whole {
                lemma_next_child_untouched(store, entities@, entity, before, i as int);
                assert(descends(store, entities@, child, child, 0));
            }
        }
        match generate_grouping_tree(store, child, entities, children, visited) {
            Some(tree) => {
                let ghost more = tree@.flatten();
                sub_groups.push(tree);
                proof {
                    assert(group_views(sub_groups@) =~= done.push(tree@));
                    lemma_flatten_prefix_push(done, tree@, done.len());
                    let all = flatten_prefix(group_views(sub_groups@), sub_groups.len() as nat);
                    assert(all == below + more);
                    assert forall|a: int, b: int|
                        0 <= a < below.len() && 0 <= b < more.len() implies below[a]
                        != more[b] by {
                        assert(below.contains(below[a]));
                        assert(more.contains(more[b]));
                        lemma_keys_of_contains(below, below[a]);
                        assert(now.contains(below[a].key()));
                    }
                    vstd::seq_lib::lemma_no_dup_in_concat(below, more);
                    lemma_keys_of_concat(below, more);
                    assert(set_items(*visited) =~= started.union(keys_of(all)));
                    assert forall|held: EntityId| #[trigger] all.contains(held) implies
                        store.exists_spec(held) && !started.contains(held.key())
                        && entities@.contains(held) by {
                        let k = choose|k: int| 0 <= k < all.len() && all[k] == held;
                        if k < below.len() {
                            assert(below[k] == held);
                            assert(below.contains(held));
                        } else {
                            assert(more[k - below.len()] == held);
                            assert(more.contains(held));
                        }
                    }
                    if whole {
                        assert(included_children@.take(i as int + 1)
                            =~= included_children@.take(i as int).push(child));
                        assert(group_views(sub_groups@) =~= forest(
                            store,
                            entities@,
                            included_children@.take(i as int + 1),
                            depth,
                        ));
                    }
                }
            },
            None => {
                proof {
                    assert(set_items(*visited) == now);
                    assert(!whole);
                }
            },
        }
        i += 1;
    }
    let mut own: Vec<EntityId> = Vec::new();
    own.push(entity);
    let ghost below = flatten_prefix(group_views(sub_groups@), sub_groups.len() as nat);
    let tree = EntityGrouping { entities: own, sub_groups };
    proof {
        assert(tree@.entities =~= seq![entity]);
        assert(tree@.sub_groups =~= group_views(tree.sub_groups@));
        let flat = tree@.flatten();
        assert(flat == seq![entity] + below);
        assert forall|a: int, b: int|
            0 <= a < seq![entity].len() && 0 <= b < below.len() implies seq![entity][a]
            != below[b] by {
            assert(below.contains(below[b]));
        }
        vstd::seq_lib::lemma_no_dup_in_concat(seq![entity], below);
        lemma_keys_of_concat(seq![entity], below);
        lemma_keys_of_one(entity);
        assert(set_items(*visited) =~= before.union(keys_of(flat)));
        assert forall|held: EntityId| #[trigger] flat.contains(held) implies store.exists_spec(
            held,
        ) && !before.contains(held.key()) && (held == entity || entities@.contains(held)) by {
            let k = choose|k: int| 0 <= k < flat.len() && flat[k] == held;
            if k > 0 {
                assert(below[k - 1] == held);
                assert(below.contains(held));
            }
        }
        if whole {
            assert(included_children@.take(included_children.len() as int)
                == included_children@);
            lemma_whole_tree(store, entities@, entity);
        }
    }
    Some(tree)
}

/// Makes the trees of the given entities, in their order, with a visited
/// set of its own.
///
/// An entity of the list that does not exist, or that an earlier tree
/// holds, gives no tree. Together the trees hold no entity twice, and
/// every entity of the list that exists. Where the list holds roots, each
/// once, the trees are the whole trees of the roots.
pub fn generate_forest(
    store: &Store,
    entities: &Vec<EntityId>,
    children: &HashMap<u64, Vec<EntityId>, FixedHasher>,
    root_entities: &Vec<EntityId>,
) -> (trees: Vec<EntityGrouping>)
    requires
        holds_children(store, entities@, bucket_entries(*children)),
    ensures
        flatten_prefix(group_views(trees@), trees.len() as nat).no_duplicates(),
        forall|held: EntityId| #[trigger]
            flatten_prefix(group_views(trees@), trees.len() as nat).contains(held)
                ==> store.exists_spec(held) && (root_entities@.contains(held) || entities@.contains(
                held,
            )),
        forall|i: int|
            0 <= i < root_entities.len() && store.exists_spec(#[trigger] root_entities@[i])
                ==> flatten_prefix(group_views(trees@), trees.len() as nat).contains(
                root_entities@[i],
            ),
        forall|k: int|
            0 <= k < trees.len() ==> (#[trigger] trees@[k])@.entities.len() == 1
                && root_entities@.contains(trees@[k]@.entities[0]),
        root_entities@.no_duplicates() && (forall|i: int|
            0 <= i < root_entities.len() ==> is_root(store, entities@, #[trigger] root_entities@[i]))
            ==> group_views(trees@) == forest(
            store,
            entities@,
            root_entities@,
            distinct(entities@).len(),
        ),
{
    let mut visited = set_new();
    let mut trees: Vec<EntityGrouping> = Vec::new();
    let ghost depth = distinct(entities@).len();
    let ghost whole = root_entities@.no_duplicates() && (forall|i: int|
        0 <= i < root_entities.len() ==> is_root(store, entities@, #[trigger] root_entities@[i]));
    proof {
        assert(group_views(trees@) =~= Seq::<GroupingTree>::empty());
        assert(flatten_prefix(Seq::<GroupingTree>::empty(), 0) == Seq::<EntityId>::empty());
        assert(keys_of(Seq::<EntityId>::empty()) =~= Set::<u64>::empty());
        assert(forest(store, entities@, root_entities@.take(0), depth)
            =~= Seq::<GroupingTree>::empty());
    }
    let mut i: usize = 0;
    while i < root_entities.len()
        invariant
            i <= root_entities.len(),
            trees.len() <= i,
            holds_children(store, entities@, bucket_entries(*children)),
            depth == distinct(entities@).len(),
            whole == (root_entities@.no_duplicates() && (forall|k: int|
                0 <= k < root_entities.len() ==> is_root(
                    store,
                    entities@,
                    #[trigger] root_entities@[k],
                ))),
            flatten_prefix(group_views(trees@), trees.len() as nat).no_duplicates(),
            forall|held: EntityId| #[trigger]
                flatten_prefix(group_views(trees@), trees.len() as nat).contains(held)
                    ==> store.exists_spec(held) && (root_entities@.contains(held)
                    || entities@.contains(held)),
            forall|k: int|
                0 <= k < i && store.exists_spec(#[trigger] root_entities@[k]) ==> flatten_prefix(
                    group_views(trees@),
                    trees.len() as nat,
                ).contains(root_entities@[k]),
            forall|k: int|
                0 <= k < trees.len() ==> (#[trigger] trees@[k])@.entities.len() == 1
                    && root_entities@.contains(trees@[k]@.entities[0]),
            set_items(visited) == keys_of(
                flatten_prefix(group_views(trees@), trees.len() as nat),
            ),
            whole ==> trees.len() == i && group_views(trees@) == forest(
                store,
                entities@,
                root_entities@.take(i as int),
                depth,
            ),
        decreases root_entities.len() - i,
    {
        let root = root_entities[i];
        let ghost done = group_views(trees@);
        let ghost below = flatten_prefix(done, trees.len() as nat);
        let ghost now = set_items(visited);
        let ghost old_trees = trees@;
        proof {
            assert(root_entities@.contains(root));
            lemma_keys_of_contains(below, root);
            if whole {
                lemma_next_root_untouched(store, entities@, root_entities@, i as int);
                assert(descends(store, entities@, root, root, 0));
            }
        }
        match generate_grouping_tree(store, root, entities, children, &mut visited) {
            Some(tree) => {
                let ghost more = tree@.flatten();
                trees.push(tree);
                proof {
                    assert(group_views(trees@) =~= done.push(tree@));
                    lemma_flatten_prefix_push(done, tree@, done.len());
                    let all = flatten_prefix(group_views(trees@), trees.len() as nat);
                    assert(all == below + more);
                    assert forall|a: int, b: int|
                        0 <= a < below.len() && 0 <= b < more.len() implies below[a]
                        != more[b] by {
                        assert(below.contains(below[a]));
                        assert(more.contains(more[b]));
                        lemma_keys_of_contains(below, below[a]);
                    }
                    vstd::seq_lib::lemma_no_dup_in_concat(below, more);
                    lemma_keys_of_concat(below, more);
                    assert(set_items(visited) =~= keys_of(all));
                    assert(more == seq![root] + flatten_prefix(
                        tree@.sub_groups,
                        tree@.sub_groups.len(),
                    ));
                    assert(more[0] == root);
                    assert forall|held: EntityId| #[trigger] all.contains(held) implies
                        store.exists_spec(held) && (root_entities@.contains(held)
                        || entities@.contains(held)) by {
                        let k = choose|k: int| 0 <= k < all.len() && all[k] == held;
                        if k < below.len() {
                            assert(below[k] == held);
                            assert(below.contains(held));
                        } else {
                            assert(more[k - below.len()] == held);
                            assert(more.contains(held));
                        }
                    }
                    assert forall|k: int|
                        0 <= k < i + 1 && store.exists_spec(
                            #[trigger] root_entities@[k],
                        ) implies all.contains(root_entities@[k]) by {
                        if k < i {
                            assert(below.contains(root_entities@[k]));
                            let m = choose|m: int|
                                0 <= m < below.len() && below[m] == root_entities@[k];
                            assert(all[m] == root_entities@[k]);
                        } else {
                            assert(all[below.len() as int] == root);
                        }
                    }
                    assert forall|k: int| 0 <= k < trees.len() implies (
                    #[trigger] trees@[k])@.entities.len() == 1 && root_entities@.contains(
                        trees@[k]@.entities[0],
                    ) by {
                        if k < old_trees.len() {
                            assert(trees@[k] == old_trees[k]);
                        }
                    }
                    if whole {
                        assert(root_entities@.take(i as int + 1) =~= root_entities@.take(
                            i as int,
                        ).push(root));
                        assert(group_views(trees@) =~= forest(
                            store,
                            entities@,
                            root_entities@.take(i as int + 1),
                            depth,
                        ));
                    }
                }
            },
            None => {
                proof {
                    assert(set_items(visited) == now);
                    assert(!whole);
                    if store.exists_spec(root) {
                        assert(below.contains(root));
                    }
                }
            },
        }
        i += 1;
    }
    assert(root_entities@.take(root_entities.len() as int) == root_entities@);
    trees
}

/// Groups entities by their hierarchy.
///
/// The grouping has no entities of its own; its sub-groups are the trees of
/// the roots: the entities that exist and whose parent is not among the
/// given ones. The tree of an entity holds the entity and, as sub-groups,
/// the trees of its children among the given entities. Siblings, the roots
/// too, are ordered: named before unnamed, then by name without regard to
/// case, then by index. Entities that do not exist are passed over, and an
/// entity given twice is taken once.
pub fn group(store: &Store, entities: &Vec<EntityId>) -> (grouping: EntityGrouping)
    ensures
        grouping@ == hierarchy_grouping(store, entities@),
{
    if entities.len() == 0 {
        return EntityGrouping::new();
    }
    let (unique, seen) = distinct_values(entities);
    proof {
        assert forall|x: EntityId| #[trigger]
            set_items(seen).contains(x.key()) <==> entities@.contains(x) by {
            assert(x.number() == x.key());
        }
    }
    let (root_entities, children) = collect_root_entities(store, entities, &unique, &seen);
    let sorted_roots = sort_entities(store, &root_entities);
    proof {
        assert(holds_children(store, entities@, bucket_entries(children)));
        lemma_roots(store, entities@);
        assert forall|i: int| 0 <= i < sorted_roots.len() implies is_root(
            store,
            entities@,
            #[trigger] sorted_roots@[i],
        ) by {
            assert(sorted_roots@.contains(sorted_roots@[i]));
        }
    }
    let sub_groups = generate_forest(store, entities, &children, &sorted_roots);
    let grouping = EntityGrouping { entities: Vec::new(), sub_groups };
    assert(grouping@.sub_groups =~= hierarchy_grouping(store, entities@).sub_groups);
    grouping
}

} // verus!
