//! The hash sets and hash maps that the inspection logic keeps its working
//! state in, with what each operation does to their contents.
//!
//! The collections are those of `bevy::platform::collections`. Verus
//! does not look into them: what a collection holds has a name here, one
//! for each type of collection that the library uses, and each operation
//! is a function whose contract says, over these names, what the operation
//! does. The contracts are taken on trust; the functions of the library
//! that use the collections are proved from them.

use vstd::prelude::*;
use bevy::platform::collections::{HashMap, HashSet};
use bevy::platform::hash::FixedHasher;
use core::any::TypeId;
use crate::archetype_similarity_grouping::Signature;
use crate::component_inspection::ComponentTypeMetadata;
use crate::store::EntityId;

verus! {

/// The hasher of the collections: a fixed state, the same in every run.
#[verifier::external_type_specification]
#[verifier::external_body]
pub struct ExFixedHasher(FixedHasher);

/// A hash set.
#[verifier::external_type_specification]
#[verifier::external_body]
#[verifier::reject_recursive_types(T)]
#[verifier::reject_recursive_types(S)]
pub struct ExHashSet<T, S>(HashSet<T, S>);

/// A hash map.
#[verifier::external_type_specification]
#[verifier::external_body]
#[verifier::reject_recursive_types(K)]
#[verifier::reject_recursive_types(V)]
#[verifier::reject_recursive_types(S)]
pub struct ExHashMap<K, V, S>(HashMap<K, V, S>);

/// The numbers that a set holds.
pub uninterp spec fn set_items(set: HashSet<u64, FixedHasher>) -> Set<u64>;

/// The lists of entities that a map holds, by key.
pub uninterp spec fn bucket_entries(map: HashMap<u64, Vec<EntityId>, FixedHasher>) -> Map<
    u64,
    Seq<EntityId>,
>;

/// The entities under `key` in `buckets`; none where it has no bucket.
pub open spec fn bucket_at(buckets: Map<u64, Seq<EntityId>>, key: u64) -> Seq<EntityId> {
    if buckets.contains_key(key) {
        buckets[key]
    } else {
        Seq::empty()
    }
}

/// The metadata that a map holds, by the number of the component type.
pub uninterp spec fn metadata_entries(map: HashMap<u64, ComponentTypeMetadata, FixedHasher>) -> Map<
    u64,
    ComponentTypeMetadata,
>;

/// The signatures that a map holds, by the number of the archetype.
pub uninterp spec fn signature_entries(map: HashMap<u64, Signature, FixedHasher>) -> Map<
    u64,
    Signature,
>;

/// The priorities that a map holds, by type.
pub uninterp spec fn priority_entries(map: HashMap<TypeId, i8, FixedHasher>) -> Map<TypeId, i8>;

/// `HashSet::new`: a set that holds nothing.
#[verifier::external_body]
pub(crate) fn set_new() -> (set: HashSet<u64, FixedHasher>)
    ensures
        set_items(set) == Set::<u64>::empty(),
{
    HashSet::new()
}

/// `HashSet::insert`: adds the value to the set and says whether it was new.
#[verifier::external_body]
pub(crate) fn set_insert(set: &mut HashSet<u64, FixedHasher>, value: u64) -> (fresh: bool)
    ensures
        set_items(*final(set)) == set_items(*old(set)).insert(value),
        fresh == !set_items(*old(set)).contains(value),
{
    set.insert(value)
}

/// `HashSet::contains`: whether the set holds the value.
#[verifier::external_body]
pub(crate) fn set_contains(set: &HashSet<u64, FixedHasher>, value: u64) -> (found: bool)
    ensures
        found == set_items(*set).contains(value),
{
    set.contains(&value)
}

/// `HashSet::len`: the number of values in the set.
#[verifier::external_body]
pub(crate) fn set_len(set: &HashSet<u64, FixedHasher>) -> (len: usize)
    ensures
        len == set_items(*set).len(),
{
    set.len()
}

/// `HashSet::intersection`, collected: the values that both sets hold.
#[verifier::external_body]
pub(crate) fn set_intersection(
    a: &HashSet<u64, FixedHasher>,
    b: &HashSet<u64, FixedHasher>,
) -> (both: HashSet<u64, FixedHasher>)
    ensures
        set_items(both) == set_items(*a).intersect(set_items(*b)),
{
    a.intersection(b).copied().collect()
}

/// `HashSet::union`, collected: the values that either set holds.
#[verifier::external_body]
pub(crate) fn set_union(a: &HashSet<u64, FixedHasher>, b: &HashSet<u64, FixedHasher>) -> (either:
    HashSet<u64, FixedHasher>)
    ensures
        set_items(either) == set_items(*a).union(set_items(*b)),
{
    a.union(b).copied().collect()
}

/// `HashSet::clone`: a set that holds the same values.
#[verifier::external_body]
pub(crate) fn set_clone(set: &HashSet<u64, FixedHasher>) -> (copy: HashSet<u64, FixedHasher>)
    ensures
        set_items(copy) == set_items(*set),
{
    set.clone()
}

/// `HashMap::new`: a map that holds nothing.
#[verifier::external_body]
pub(crate) fn signatures_new() -> (signatures: HashMap<u64, Signature, FixedHasher>)
    ensures
        signature_entries(signatures).dom() == Set::<u64>::empty(),
{
    HashMap::new()
}

/// `HashMap::insert`: puts the value under the key, in place of what was there.
#[verifier::external_body]
pub(crate) fn signatures_insert(
    map: &mut HashMap<u64, Signature, FixedHasher>,
    key: u64,
    value: Signature,
)
    ensures
        signature_entries(*final(map)) == signature_entries(*old(map)).insert(key, value),
{
    map.insert(key, value);
}

/// `HashMap::get`: the value under the key, if the map holds the key.
#[verifier::external_body]
pub(crate) fn signatures_get(map: &HashMap<u64, Signature, FixedHasher>, key: u64) -> (found:
    Option<&Signature>)
    ensures
        found is Some == signature_entries(*map).contains_key(key),
        found matches Some(value) ==> *value == signature_entries(*map)[key],
{
    map.get(&key)
}

/// `HashMap::new`: a map that holds nothing.
#[verifier::external_body]
pub(crate) fn buckets_new() -> (buckets: HashMap<u64, Vec<EntityId>, FixedHasher>)
    ensures
        bucket_entries(buckets).dom() == Set::<u64>::empty(),
{
    HashMap::new()
}

/// `HashMap::entry` with `or_default`, then `Vec::push`: appends the entity
/// to the list under the key, which starts empty where the key is new.
#[verifier::external_body]
pub(crate) fn buckets_push(
    map: &mut HashMap<u64, Vec<EntityId>, FixedHasher>,
    key: u64,
    entity: EntityId,
)
    ensures
        bucket_entries(*final(map)) == bucket_entries(*old(map)).insert(
            key,
            if bucket_entries(*old(map)).contains_key(key) {
                bucket_entries(*old(map))[key].push(entity)
            } else {
                seq![entity]
            },
        ),
{
    map.entry(key).or_default().push(entity);
}

/// `HashMap::get`: the list under the key, if the map holds the key.
#[verifier::external_body]
pub(crate) fn buckets_get(map: &HashMap<u64, Vec<EntityId>, FixedHasher>, key: u64) -> (found:
    Option<&Vec<EntityId>>)
    ensures
        found is Some == bucket_entries(*map).contains_key(key),
        found matches Some(list) ==> list@ == bucket_entries(*map)[key],
{
    map.get(&key)
}

/// `HashMap::new`: a map that holds nothing.
#[verifier::external_body]
pub(crate) fn metadata_new() -> (cache: HashMap<u64, ComponentTypeMetadata, FixedHasher>)
    ensures
        metadata_entries(cache).dom() == Set::<u64>::empty(),
{
    HashMap::new()
}

/// `HashMap::insert`: puts the value under the key, in place of what was there.
#[verifier::external_body]
pub(crate) fn metadata_insert(
    map: &mut HashMap<u64, ComponentTypeMetadata, FixedHasher>,
    key: u64,
    value: ComponentTypeMetadata,
)
    ensures
        metadata_entries(*final(map)) == metadata_entries(*old(map)).insert(key, value),
{
    map.insert(key, value);
}

/// `HashMap::get`: the value under the key, if the map holds the key.
#[verifier::external_body]
pub(crate) fn metadata_get(map: &HashMap<u64, ComponentTypeMetadata, FixedHasher>, key: u64) -> (found:
    Option<&ComponentTypeMetadata>)
    ensures
        found is Some == metadata_entries(*map).contains_key(key),
        found matches Some(value) ==> *value == metadata_entries(*map)[key],
{
    map.get(&key)
}

/// `HashMap::contains_key`: whether the map holds the key.
#[verifier::external_body]
pub(crate) fn metadata_contains(map: &HashMap<u64, ComponentTypeMetadata, FixedHasher>, key: u64) -> (found:
    bool)
    ensures
        found == metadata_entries(*map).contains_key(key),
{
    map.contains_key(&key)
}

/// `HashMap::new`: a map that holds nothing.
#[verifier::external_body]
pub(crate) fn priorities_new() -> (priorities: HashMap<TypeId, i8, FixedHasher>)
    ensures
        priority_entries(priorities).dom() == Set::<TypeId>::empty(),
{
    HashMap::new()
}

/// `HashMap::insert`: puts the value under the key, in place of what was there.
#[verifier::external_body]
pub(crate) fn priorities_insert(map: &mut HashMap<TypeId, i8, FixedHasher>, key: TypeId, value: i8)
    ensures
        priority_entries(*final(map)) == priority_entries(*old(map)).insert(key, value),
{
    map.insert(key, value);
}

/// `HashMap::get`, copied: the value under the key, if the map holds the key.
#[verifier::external_body]
pub(crate) fn priorities_get(map: &HashMap<TypeId, i8, FixedHasher>, key: TypeId) -> (found: Option<
    i8,
>)
    ensures
        found is Some == priority_entries(*map).contains_key(key),
        found matches Some(value) ==> value == priority_entries(*map)[key],
{
    map.get(&key).copied()
}

/// `HashMap::remove`: takes the key and its value out of the map.
#[verifier::external_body]
pub(crate) fn priorities_remove(map: &mut HashMap<TypeId, i8, FixedHasher>, key: TypeId)
    ensures
        priority_entries(*final(map)) == priority_entries(*old(map)).remove(key),
{
    map.remove(&key);
}

} // verus!
