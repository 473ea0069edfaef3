//! Rules for the name under which an entity is displayed.

use vstd::prelude::*;
use bevy::platform::collections::HashMap;
use bevy::platform::hash::FixedHasher;
use core::any::TypeId;
use crate::collections::{
    metadata_entries, metadata_get, priorities_get, priorities_insert, priorities_new,
    priorities_remove, priority_entries,
};
use crate::component_inspection::{ComponentInspection, ComponentTypeMetadata};
use crate::store::{EntityId, Store};
use crate::text::{join, join_texts, short_name, short_type_name, sort_texts, text_order, texts};

verus! {

/// Where the name of an inspected entity comes from.
#[derive(Clone, Copy, Debug, PartialEq, Eq, Structural)]
pub enum NameOrigin {
    /// The name is the explicit name of the entity.
    Custom,
    /// The name was made from the name-defining components of the entity.
    Resolved,
}

/// The name of an inspected entity.
#[derive(Clone, Debug, PartialEq, Eq)]
pub struct EntityName {
    /// The name.
    pub name: String,
    /// Where the name comes from.
    pub origin: NameOrigin,
}

/// A component that may name its entity: the short name of its type, and
/// the priority of the type.
pub type Candidate = (Seq<char>, i8);

/// The candidate that a component makes, if its type is in the cache and defines names.
pub open spec fn candidate_of(
    entries: Map<u64, ComponentTypeMetadata>,
    component: ComponentInspection,
) -> Option<Candidate> {
    if entries.contains_key(component.component_id.0) {
        match entries[component.component_id.0].name_definition_priority {
            Some(priority) => Some((short_type_name(component.name@), priority)),
            None => None,
        }
    } else {
        None
    }
}

/// The candidates that the components make, in their order.
pub open spec fn candidates_of(
    entries: Map<u64, ComponentTypeMetadata>,
    components: Seq<ComponentInspection>,
) -> Seq<Candidate>
    decreases components.len(),
{
    if components.len() == 0 {
        Seq::empty()
    } else {
        let rest = candidates_of(entries, components.drop_last());
        match candidate_of(entries, components.last()) {
            Some(candidate) => rest.push(candidate),
            None => rest,
        }
    }
}

/// The highest priority among the candidates; less than any priority where there is none.
pub open spec fn highest_priority(candidates: Seq<Candidate>) -> int
    decreases candidates.len(),
{
    if candidates.len() == 0 {
        -129
    } else {
        let rest = highest_priority(candidates.drop_last());
        if candidates.last().1 > rest {
            candidates.last().1 as int
        } else {
            rest
        }
    }
}

/// The names of the candidates of priority `priority`, in their order.
pub open spec fn names_at(candidates: Seq<Candidate>, priority: int) -> Seq<Seq<char>>
    decreases candidates.len(),
{
    if candidates.len() == 0 {
        Seq::empty()
    } else {
        let rest = names_at(candidates.drop_last(), priority);
        if candidates.last().1 == priority {
            rest.push(candidates.last().0)
        } else {
            rest
        }
    }
}

/// What stands between two names of a resolved name.
pub open spec fn separator() -> Seq<char> {
    seq![' ', '|', ' ']
}

/// The name that the candidates give: the names of those of the highest
/// priority, in the order of their code points, joined by `" | "`. None
/// where there is no candidate.
pub open spec fn resolved_text(candidates: Seq<Candidate>) -> Option<Seq<char>> {
    if candidates.len() == 0 {
        None
    } else {
        Some(
            join_texts(
                names_at(candidates, highest_priority(candidates)).sort_by(text_order()),
                separator(),
            ),
        )
    }
}

/// The name under which an entity is displayed, and where it comes from:
/// the explicit name where the entity has one; else, where components were
/// inspected, the name that they give.
pub open spec fn resolved_name(
    store: &Store,
    entity: EntityId,
    components: Option<Vec<ComponentInspection>>,
    entries: Map<u64, ComponentTypeMetadata>,
) -> Option<(Seq<char>, NameOrigin)> {
    match store.name_spec(entity) {
        Some(name) => Some((name, NameOrigin::Custom)),
        None => match components {
            Some(list) => match resolved_text(candidates_of(entries, list@)) {
                Some(name) => Some((name, NameOrigin::Resolved)),
                None => None,
            },
            None => None,
        },
    }
}

/// The candidates of a list as mathematical values.
pub open spec fn candidate_views(candidates: Seq<(String, i8)>) -> Seq<Candidate> {
    candidates.map_values(|c: (String, i8)| (c.0@, c.1))
}

impl EntityName {
    /// The explicit name `name`.
    pub fn custom(name: &str) -> (made: Self)
        ensures
            made.name@ == name@,
            made.origin == NameOrigin::Custom,
    {
        EntityName { name: name.to_owned(), origin: NameOrigin::Custom }
    }

    /// The name `name`, made from components.
    pub fn resolved(name: &str) -> (made: Self)
        ensures
            made.name@ == name@,
            made.origin == NameOrigin::Resolved,
    {
        EntityName { name: name.to_owned(), origin: NameOrigin::Resolved }
    }

    /// The name as a string slice.
    pub fn as_str(&self) -> (text: &str)
        ensures
            text@ == self.name@,
    {
        self.name.as_str()
    }
}

/// Determines the name under which an entity is displayed.
///
/// The explicit name of the entity always wins. Without one, and with
/// inspected components, the components whose types define names give the
/// name: those of the highest priority, their short type names in the order
/// of their code points, joined by `" | "`. Otherwise there is no name, and
/// the caller falls back to a name such as `"Entity"`.
pub fn resolve_name(
    store: &Store,
    entity: EntityId,
    components: &Option<Vec<ComponentInspection>>,
    metadata_map: &HashMap<u64, ComponentTypeMetadata, FixedHasher>,
) -> (name: Option<EntityName>)
    ensures
        match name {
            Some(made) => resolved_name(store, entity, *components, metadata_entries(*metadata_map))
                == Some((made.name@, made.origin)),
            None => resolved_name(store, entity, *components, metadata_entries(*metadata_map))
                is None,
        },
{
    match store.entity(entity) {
        Some(record) => match &record.name {
            Some(custom_name) => {
                return Some(EntityName::custom(custom_name.as_str()));
            },
            None => {},
        },
        None => {},
    }
    let component_data = match components {
        Some(list) => list,
        None => {
            return None;
        },
    };
    match resolve_from_components(component_data, metadata_map) {
        Some(resolved_name) => Some(EntityName::resolved(resolved_name.as_str())),
        None => None,
    }
}

/// The name that inspected components give: the short type names of the
/// components of the highest priority among those whose types define
/// names, in the order of their code points, joined by `" | "`. None where
/// no component has a type that defines names.
pub fn resolve_from_components(
    component_data: &Vec<ComponentInspection>,
    metadata_map: &HashMap<u64, ComponentTypeMetadata, FixedHasher>,
) -> (name: Option<String>)
    ensures
        match name {
            Some(text) => resolved_text(
                candidates_of(metadata_entries(*metadata_map), component_data@),
            ) == Some(text@),
            None => resolved_text(candidates_of(metadata_entries(*metadata_map), component_data@))
                is None,
        },
{
    let ghost entries = metadata_entries(*metadata_map);
    let mut name_resolution_priorities: Vec<(String, i8)> = Vec::new();
    let mut i: usize = 0;
    proof {
        assert(component_data@.take(0) =~= Seq::<ComponentInspection>::empty());
        assert(candidate_views(name_resolution_priorities@) =~= Seq::<Candidate>::empty());
    }
    while i < component_data.len()
        invariant
            i <= component_data.len(),
            entries == metadata_entries(*metadata_map),
            candidate_views(name_resolution_priorities@) == candidates_of(
                entries,
                component_data@.take(i as int),
            ),
        decreases component_data.len() - i,
    {
        let comp_inspection = &component_data[i];
        let ghost before = candidate_views(name_resolution_priorities@);
        proof {
            assert(component_data@.take(i as int + 1).drop_last() == component_data@.take(
                i as int,
            ));
            assert(component_data@.take(i as int + 1).last() == *comp_inspection);
        }
        match metadata_get(metadata_map, comp_inspection.component_id.0) {
            Some(metadata) => match metadata.name_definition_priority {
                Some(priority) => {
                    let short = short_name(comp_inspection.name.as_str());
                    name_resolution_priorities.push((short, priority));
                    assert(candidate_views(name_resolution_priorities@) =~= before.push(
                        (short@, priority),
                    ));
                },
                None => {},
            },
            None => {},
        }
        i += 1;
    }
    assert(component_data@.take(component_data.len() as int) == component_data@);
    if name_resolution_priorities.len() == 0 {
        return None;
    }
    let ghost all = candidate_views(name_resolution_priorities@);
    let mut highest: i8 = name_resolution_priorities[0].1;
    let mut j: usize = 1;
    proof {
        assert(all.take(1).drop_last() =~= Seq::<Candidate>::empty());
        assert(all.take(1).last() == all[0]);
        assert(highest_priority(all.take(1).drop_last()) == -129);
    }
    while j < name_resolution_priorities.len()
        invariant
            1 <= j <= name_resolution_priorities.len(),
            all == candidate_views(name_resolution_priorities@),
            highest == highest_priority(all.take(j as int)),
        decreases name_resolution_priorities.len() - j,
    {
        proof {
            assert(all.take(j as int + 1).drop_last() == all.take(j as int));
            assert(all.take(j as int + 1).last() == all[j as int]);
        }
        if name_resolution_priorities[j].1 > highest {
            highest = name_resolution_priorities[j].1;
        }
        j += 1;
    }
    assert(all.take(name_resolution_priorities.len() as int) == all);
    let mut names: Vec<String> = Vec::new();
    let mut k: usize = 0;
    proof {
        assert(all.take(0) =~= Seq::<Candidate>::empty());
        assert(texts(names@) =~= Seq::<Seq<char>>::empty());
    }
    while k < name_resolution_priorities.len()
        invariant
            k <= name_resolution_priorities.len(),
            all == candidate_views(name_resolution_priorities@),
            texts(names@) == names_at(all.take(k as int), highest as int),
        decreases name_resolution_priorities.len() - k,
    {
        let ghost before = texts(names@);
        proof {
            assert(all.take(k as int + 1).drop_last() == all.take(k as int));
            assert(all.take(k as int + 1).last() == all[k as int]);
        }
        if name_resolution_priorities[k].1 == highest {
            let name = name_resolution_priorities[k].0.clone();
            names.push(name);
            assert(texts(names@) =~= before.push(all[k as int].0));
        }
        k += 1;
    }
    let sorted = sort_texts(names);
    let separator_text = " | ";
    proof {
        reveal_strlit(" | ");
        assert(separator_text@ =~= separator());
    }
    Some(join(&sorted, separator_text))
}

/// An entity with an explicit name is displayed under that name, whatever
/// its components are.
pub proof fn lemma_explicit_name_wins(
    store: &Store,
    entity: EntityId,
    components: Option<Vec<ComponentInspection>>,
    entries: Map<u64, ComponentTypeMetadata>,
)
    requires
        store.name_spec(entity) is Some,
    ensures
        resolved_name(store, entity, components, entries) == Some(
            (store.name_spec(entity)->0, NameOrigin::Custom),
        ),
{
}

/// Two candidates of the same priority give both names, the one that comes
/// first in the order of code points first, with `" | "` between them, in
/// whichever order the candidates stand.
pub proof fn lemma_equal_priority_joins(first: Seq<char>, second: Seq<char>, priority: i8)
    requires
        crate::text::text_le(first, second),
    ensures
        resolved_text(seq![(first, priority), (second, priority)]) == Some(
            first + separator() + second,
        ),
        resolved_text(seq![(second, priority), (first, priority)]) == Some(
            first + separator() + second,
        ),
{
    let forth = seq![(first, priority), (second, priority)];
    let back = seq![(second, priority), (first, priority)];
    let sorted = seq![first, second];
    crate::text::lemma_text_order_total();
    lemma_pair_names(first, second, priority);
    lemma_pair_names(second, first, priority);
    assert(sorted.to_multiset() =~= seq![second, first].to_multiset()) by {
        vstd::seq_lib::to_multiset_build(seq![first], second);
        vstd::seq_lib::to_multiset_build(seq![second], first);
        vstd::seq_lib::to_multiset_build(Seq::<Seq<char>>::empty(), first);
        vstd::seq_lib::to_multiset_build(Seq::<Seq<char>>::empty(), second);
        assert(seq![first] =~= Seq::<Seq<char>>::empty().push(first));
        assert(seq![second] =~= Seq::<Seq<char>>::empty().push(second));
        assert(sorted =~= seq![first].push(second));
        assert(seq![second, first] =~= seq![second].push(first));
    }
    assert(vstd::relations::sorted_by(sorted, text_order()));
    crate::sorting::lemma_sorted_is_sort(sorted, sorted, text_order());
    crate::sorting::lemma_sorted_is_sort(sorted, seq![second, first], text_order());
    assert(sorted.drop_last() =~= seq![first]);
    assert(join_texts(sorted, separator()) == first + separator() + second) by {
        assert(join_texts(seq![first], separator()) == first);
    }
}

/// Two candidates of the same priority both have the highest priority.
proof fn lemma_pair_names(a: Seq<char>, b: Seq<char>, priority: i8)
    ensures
        names_at(seq![(a, priority), (b, priority)], highest_priority(seq![(a, priority), (b, priority)]))
            == seq![a, b],
{
    let pair = seq![(a, priority), (b, priority)];
    let one = seq![(a, priority)];
    assert(pair.drop_last() =~= one);
    let none = Seq::<Candidate>::empty();
    assert(one.drop_last() =~= none);
    assert(one.last() == (a, priority));
    assert(pair.last() == (b, priority));
    assert(highest_priority(none) == -129);
    assert(highest_priority(one.drop_last()) == -129);
    assert(highest_priority(one) == priority);
    assert(highest_priority(pair.drop_last()) == priority);
    assert(highest_priority(pair) == priority);
    assert(names_at(none, priority as int) =~= Seq::<Seq<char>>::empty());
    assert(names_at(one.drop_last(), priority as int) =~= Seq::<Seq<char>>::empty());
    assert(names_at(one, priority as int) =~= seq![a]);
    assert(names_at(pair.drop_last(), priority as int) =~= seq![a]);
    assert(names_at(pair, priority as int) =~= seq![a, b]);
}

/// `TypeId::of`: the identity of the type `T`.
#[verifier::external_body]
fn type_id_of<T: 'static>() -> TypeId {
    TypeId::of::<T>()
}

/// The name-defining component types and their priorities.
///
/// A type of the application has priority 0 by convention, a type of a
/// library -10, and a marker type that names an entity only for want of
/// anything better -20. The higher priority wins.
pub struct NameResolutionRegistry {
    name_defining_types: HashMap<TypeId, i8, FixedHasher>,
}

impl NameResolutionRegistry {
    /// The priorities by type.
    pub closed spec fn priorities(&self) -> Map<TypeId, i8> {
        priority_entries(self.name_defining_types)
    }

    /// A registry without entries.
    pub fn new() -> (registry: Self)
        ensures
            registry.priorities().dom() == Set::<TypeId>::empty(),
    {
        NameResolutionRegistry { name_defining_types: priorities_new() }
    }

    /// Registers the name-defining type `T`, with its priority.
    pub fn register_name_defining_type<T: 'static>(&mut self, priority: i8)
        ensures
            exists|type_id: TypeId|
                final(self).priorities() == old(self).priorities().insert(type_id, priority),
    {
        let type_id = type_id_of::<T>();
        self.register_name_defining_type_by_type_id(type_id, priority);
    }

    /// The priority of the type `T`, if it is registered.
    pub fn get_priority<T: 'static>(&self) -> (priority: Option<i8>)
        ensures
            exists|type_id: TypeId|
                priority == (if self.priorities().contains_key(type_id) {
                    Some(self.priorities()[type_id])
                } else {
                    None
                }),
    {
        let type_id = type_id_of::<T>();
        self.get_priority_by_type_id(type_id)
    }

    /// Takes the type `T` out of the registry.
    pub fn unregister_name_defining_type<T: 'static>(&mut self)
        ensures
            exists|type_id: TypeId|
                final(self).priorities() == old(self).priorities().remove(type_id),
    {
        let type_id = type_id_of::<T>();
        self.unregister_name_defining_type_by_type_id(type_id);
    }

    /// Registers a name-defining type under its identity, with its priority.
    pub fn register_name_defining_type_by_type_id(&mut self, type_id: TypeId, priority: i8)
        ensures
            final(self).priorities() == old(self).priorities().insert(type_id, priority),
    {
        priorities_insert(&mut self.name_defining_types, type_id, priority);
    }

    /// The priority of a type, if it is registered.
    pub fn get_priority_by_type_id(&self, type_id: TypeId) -> (priority: Option<i8>)
        ensures
            priority == (if self.priorities().contains_key(type_id) {
                Some(self.priorities()[type_id])
            } else {
                None
            }),
    {
        priorities_get(&self.name_defining_types, type_id)
    }

    /// Takes a type out of the registry.
    pub fn unregister_name_defining_type_by_type_id(&mut self, type_id: TypeId)
        ensures
            final(self).priorities() == old(self).priorities().remove(type_id),
    {
        priorities_remove(&mut self.name_defining_types, type_id);
    }
}

} // verus!
