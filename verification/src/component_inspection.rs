//! Inspection of components and of component types, and the cache of
//! per-type metadata.

use vstd::prelude::*;
use bevy::platform::collections::HashMap;
use bevy::platform::hash::FixedHasher;
use core::any::TypeId;
use crate::collections::{
    metadata_contains, metadata_entries, metadata_get, metadata_insert, metadata_new,
};
use crate::memory_size::MemorySize;
use crate::store::{
    copy_of, find_component_type, find_registration, lemma_find_component_type,
    ComponentTypeId, ComponentTypeInfo, EntityId, StorageType, Store, TypeRegistration,
};

verus! {

/// The result of inspecting one component of one entity.
#[derive(Clone, Debug)]
pub struct ComponentInspection {
    /// The entity that owns the component.
    pub entity: EntityId,
    /// The type of the component.
    pub component_id: ComponentTypeId,
    /// The full path of the component's type.
    pub name: String,
    /// The size of the value in bytes; `None` where the value was not
    /// reflected or only names were asked for.
    pub memory_size: Option<MemorySize>,
    /// The value as text; `None` where only names were asked for.
    pub value: Option<String>,
}

/// Metadata of a component type, made to be kept and reused.
#[derive(Clone, Debug)]
pub struct ComponentTypeMetadata {
    /// The identifier of the type.
    pub component_id: ComponentTypeId,
    /// The full path of the type.
    pub name: String,
    /// The identity of the Rust type; dynamic types have none.
    pub type_id: Option<TypeId>,
    /// The size in bytes of a value in place.
    pub memory_size: MemorySize,
    /// The priority with which the type defines names; `None` for a type that defines none.
    pub name_definition_priority: Option<i8>,
    /// Whether values can be changed while in the store.
    pub mutable: bool,
    /// How values are stored.
    pub storage_type: StorageType,
    /// Whether values can be shared between threads.
    pub is_send_and_sync: bool,
    /// The types that are added along with this one.
    pub required_components: Vec<ComponentTypeId>,
    /// The entry of the reflection registry, where the type has one.
    pub type_registration: Option<TypeRegistration>,
}

/// The result of inspecting a component type.
#[derive(Clone, Debug)]
pub struct ComponentTypeInspection {
    /// How many entities have a component of the type.
    pub entity_count: usize,
    /// The metadata of the type.
    pub metadata: ComponentTypeMetadata,
}

/// A cache of metadata by component type.
pub struct ComponentMetadataMap {
    /// The metadata, by the number of the component type.
    pub map: HashMap<u64, ComponentTypeMetadata, FixedHasher>,
}

/// Why a component could not be inspected.
#[derive(Clone, Copy, Debug)]
pub enum ComponentInspectionError {
    /// The entity has no component of the type.
    ComponentNotFound(ComponentTypeId),
    /// The named Rust type is not registered as a component type.
    ComponentNotRegistered(&'static str),
    /// No component type is registered under the identifier.
    ComponentIdNotRegistered(ComponentTypeId),
}

/// How much of a component an inspection holds.
#[derive(Clone, Copy, Debug, PartialEq, Eq, Structural)]
pub enum ComponentDetailLevel {
    /// The names of the component types only.
    Names,
    /// The values as well.
    Values,
}

/// Settings for inspecting a component.
#[derive(Clone, Copy, Debug)]
pub struct ComponentInspectionSettings {
    /// How much of the component the inspection holds.
    pub detail_level: ComponentDetailLevel,
    /// Whether values are printed with full type paths.
    pub full_type_names: bool,
}

impl Default for ComponentDetailLevel {
    fn default() -> (level: Self)
        ensures
            level == ComponentDetailLevel::Values,
    {
        ComponentDetailLevel::Values
    }
}

impl Default for ComponentInspectionSettings {
    fn default() -> (settings: Self)
        ensures
            settings.detail_level == ComponentDetailLevel::Values,
            !settings.full_type_names,
    {
        ComponentInspectionSettings {
            detail_level: ComponentDetailLevel::Values,
            full_type_names: false,
        }
    }
}

/// The entry of the reflection registry for a type identity, if it has one.
pub open spec fn registration_of(store: &Store, type_id: Option<TypeId>) -> Option<TypeRegistration> {
    match type_id {
        Some(id) => find_registration(store.type_registry@, id),
        None => None,
    }
}

/// The priority with which a type identity defines names, if it is registered for that.
pub open spec fn priority_of(store: &Store, type_id: Option<TypeId>) -> Option<i8> {
    match type_id {
        Some(id) => if store.name_registry.priorities().contains_key(id) {
            Some(store.name_registry.priorities()[id])
        } else {
            None
        },
        None => None,
    }
}

/// Two optional registry entries say the same.
pub open spec fn same_registration(a: Option<TypeRegistration>, b: Option<TypeRegistration>) -> bool {
    match (a, b) {
        (Some(x), Some(y)) => x.type_id == y.type_id && x.description@ == y.description@
            && x.reflects_component == y.reflects_component && x.reflects_resource
            == y.reflects_resource,
        (None, None) => true,
        _ => false,
    }
}

/// The component types that are registered in the store, by number.
pub open spec fn is_registered(store: &Store, number: u64) -> bool {
    find_component_type(store.component_types@, ComponentTypeId(number)) is Some
}

/// What the store knows of the registered component type with the given number.
pub open spec fn registered_info(store: &Store, number: u64) -> ComponentTypeInfo {
    find_component_type(store.component_types@, ComponentTypeId(number))->0
}

impl ComponentTypeMetadata {
    /// The metadata says of a component type what the store knows of it:
    /// the facts of its registration, its entry in the reflection registry
    /// and its priority in the registry of name-defining types.
    pub open spec fn describes(&self, store: &Store, info: ComponentTypeInfo) -> bool {
        &&& self.component_id == info.id
        &&& self.name@ == info.name@
        &&& self.type_id == info.type_id
        &&& self.memory_size.0 == info.layout_size
        &&& self.name_definition_priority == priority_of(store, info.type_id)
        &&& self.mutable == info.mutable
        &&& self.storage_type == info.storage_type
        &&& self.is_send_and_sync == info.is_send_and_sync
        &&& self.required_components@ == info.required_components@
        &&& same_registration(self.type_registration, registration_of(store, info.type_id))
    }

    /// Gathers the metadata of a component type from the store. Fails for an
    /// identifier that no component type is registered under.
    pub fn new(store: &Store, component_id: ComponentTypeId) -> (result: Result<
        Self,
        ComponentInspectionError,
    >)
        ensures
            match result {
                Ok(metadata) => is_registered(store, component_id.0) && metadata.describes(
                    store,
                    registered_info(store, component_id.0),
                ),
                Err(error) => !is_registered(store, component_id.0) && error
                    == ComponentInspectionError::ComponentIdNotRegistered(component_id),
            },
    {
        assert(ComponentTypeId(component_id.0) == component_id);
        proof {
            lemma_find_component_type(store.component_types@, component_id);
        }
        let component_info = match store.component_type(component_id) {
            Some(info) => info,
            None => {
                return Err(ComponentInspectionError::ComponentIdNotRegistered(component_id));
            },
        };
        let type_id = component_info.type_id;
        let type_registration = match type_id {
            Some(id) => match store.type_registration(id) {
                Some(registration) => Some(
                    TypeRegistration {
                        type_id: registration.type_id,
                        description: registration.description.clone(),
                        reflects_component: registration.reflects_component,
                        reflects_resource: registration.reflects_resource,
                    },
                ),
                None => None,
            },
            None => None,
        };
        let memory_size = MemorySize::new(component_info.layout_size);
        let name_definition_priority = match type_id {
            Some(id) => store.name_registry.get_priority_by_type_id(id),
            None => None,
        };
        Ok(
            ComponentTypeMetadata {
                component_id,
                name: component_info.name.clone(),
                type_id,
                memory_size,
                name_definition_priority,
                mutable: component_info.mutable,
                storage_type: component_info.storage_type,
                is_send_and_sync: component_info.is_send_and_sync,
                required_components: copy_of(&component_info.required_components),
                type_registration,
            },
        )
    }
}

/// `after` is what an update from `store` makes of `before`: it holds the
/// keys of `before` and the numbers of the registered component types;
/// what `before` held is unchanged; what is new describes its type.
pub open spec fn is_update_of(
    after: Map<u64, ComponentTypeMetadata>,
    before: Map<u64, ComponentTypeMetadata>,
    store: &Store,
) -> bool {
    &&& forall|number: u64| #[trigger]
        after.contains_key(number) <==> before.contains_key(number) || is_registered(
            store,
            number,
        )
    &&& forall|number: u64| #[trigger]
        before.contains_key(number) ==> after[number] == before[number]
    &&& forall|number: u64|
        !before.contains_key(number) && #[trigger] is_registered(store, number)
            ==> after[number].describes(store, registered_info(store, number))
}

/// The numbers of the component types of a sequence.
pub open spec fn numbers_of(components: Seq<ComponentTypeId>) -> Set<u64> {
    Set::new(|number: u64| components.contains(ComponentTypeId(number)))
}

impl ComponentMetadataMap {
    /// The metadata that the cache holds, by the number of the component type.
    pub open spec fn entries(&self) -> Map<u64, ComponentTypeMetadata> {
        metadata_entries(self.map)
    }

    /// A cache that holds nothing.
    pub fn empty() -> (cache: Self)
        ensures
            cache.entries().dom() == Set::<u64>::empty(),
    {
        ComponentMetadataMap { map: metadata_new() }
    }

    /// A cache with the metadata of every component type registered in the store.
    pub fn generate(store: &Store) -> (cache: Self)
        ensures
            is_update_of(cache.entries(), Map::empty(), store),
    {
        let mut cache = ComponentMetadataMap::empty();
        assert(cache.entries() =~= Map::empty());
        cache.update(store);
        cache
    }

    /// A cache with the metadata of the component types of one entity; it
    /// holds nothing where the entity does not exist.
    pub fn for_entity(store: &Store, entity: EntityId) -> (cache: Self)
        ensures
            forall|number: u64| #[trigger]
                cache.entries().contains_key(number) <==> numbers_of(
                    store.components_spec(entity),
                ).contains(number) && is_registered(store, number),
            forall|number: u64| #[trigger]
                cache.entries().contains_key(number) ==> cache.entries()[number].describes(
                    store,
                    registered_info(store, number),
                ),
    {
        let mut map = metadata_new();
        let none: Vec<ComponentTypeId> = Vec::new();
        let components: &Vec<ComponentTypeId> = match store.entity(entity) {
            Some(record) => match store.archetype(record.archetype) {
                Some(archetype) => &archetype.components,
                None => &none,
            },
            None => &none,
        };
        assert(components@ == store.components_spec(entity));
        let mut i: usize = 0;
        while i < components.len()
            invariant
                i <= components.len(),
                forall|number: u64| #[trigger]
                    metadata_entries(map).contains_key(number) <==> components@.take(
                        i as int,
                    ).contains(ComponentTypeId(number)) && is_registered(store, number),
                forall|number: u64| #[trigger]
                    metadata_entries(map).contains_key(number) ==> metadata_entries(
                        map,
                    )[number].describes(store, registered_info(store, number)),
            decreases components.len() - i,
        {
            let component_id = components[i];
            let ghost front = components@.take(i as int);
            let ghost next = components@.take(i as int + 1);
            proof {
                assert(next == front.push(component_id));
                assert forall|number: u64|
                    next.contains(ComponentTypeId(number)) <==> front.contains(
                        ComponentTypeId(number),
                    ) || number == component_id.0 by {
                    if next.contains(ComponentTypeId(number)) {
                        let k = choose|k: int|
                            0 <= k < next.len() && next[k] == ComponentTypeId(number);
                        if k < front.len() {
                            assert(front[k] == ComponentTypeId(number));
                        }
                    }
                    if front.contains(ComponentTypeId(number)) {
                        let k = choose|k: int|
                            0 <= k < front.len() && front[k] == ComponentTypeId(number);
                        assert(next[k] == ComponentTypeId(number));
                    }
                    if number == component_id.0 {
                        assert(next[i as int] == ComponentTypeId(number));
                    }
                }
            }
            match ComponentTypeMetadata::new(store, component_id) {
                Ok(metadata) => {
                    metadata_insert(&mut map, component_id.0, metadata);
                },
                Err(_) => {},
            }
            i += 1;
        }
        assert(components@.take(components.len() as int) == components@);
        ComponentMetadataMap { map }
    }

    /// Adds the metadata of every registered component type that the cache
    /// does not hold yet. What the cache holds already is left as it is.
    ///
    /// A second update from the same store changes nothing: the cache then
    /// holds every registered type.
    pub fn update(&mut self, store: &Store)
        ensures
            is_update_of(final(self).entries(), old(self).entries(), store),
            (forall|number: u64| #[trigger]
                is_registered(store, number) ==> old(self).entries().contains_key(number))
                ==> final(self).entries() == old(self).entries(),
    {
        let ghost before = self.entries();
        let ghost types = store.component_types@;
        let mut i: usize = 0;
        while i < store.component_types.len()
            invariant
                i <= store.component_types.len(),
                types == store.component_types@,
                forall|number: u64| #[trigger]
                    self.entries().contains_key(number) <==> before.contains_key(number) || (
                    exists|j: int| 0 <= j < i && (#[trigger] types[j]).id.0 == number),
                forall|number: u64| #[trigger]
                    before.contains_key(number) ==> self.entries()[number] == before[number],
                forall|number: u64|
                    !before.contains_key(number) && #[trigger] self.entries().contains_key(number)
                        ==> self.entries()[number].describes(
                        store,
                        registered_info(store, number),
                    ),
                (forall|number: u64| #[trigger]
                    is_registered(store, number) ==> before.contains_key(number))
                    ==> self.entries() == before,
            decreases store.component_types.len() - i,
        {
            let component_id = store.component_types[i].id;
            let ghost current = self.entries();
            proof {
                lemma_find_component_type(types, component_id);
                assert(types[i as int].id == component_id);
                assert(is_registered(store, component_id.0));
            }
            if !metadata_contains(&self.map, component_id.0) {
                match ComponentTypeMetadata::new(store, component_id) {
                    Ok(metadata) => {
                        metadata_insert(&mut self.map, component_id.0, metadata);
                    },
                    Err(_) => {},
                }
            }
            proof {
                assert forall|number: u64| #[trigger]
                    self.entries().contains_key(number) <==> before.contains_key(number) || (
                    exists|j: int| 0 <= j < i + 1 && (#[trigger] types[j]).id.0 == number) by {
                    if exists|j: int| 0 <= j < i + 1 && (#[trigger] types[j]).id.0 == number {
                        let j = choose|j: int|
                            0 <= j < i + 1 && (#[trigger] types[j]).id.0 == number;
                        if j < i {
                            assert(current.contains_key(number));
                        }
                    }
                    if current.contains_key(number) && !before.contains_key(number) {
                        let j = choose|j: int| 0 <= j < i && (#[trigger] types[j]).id.0 == number;
                        assert(0 <= j < i + 1 && types[j].id.0 == number);
                    }
                    if number == component_id.0 {
                        assert(0 <= i < i + 1 && types[i as int].id.0 == number);
                    }
                }
            }
            i += 1;
        }
        proof {
            assert forall|number: u64| #[trigger]
                self.entries().contains_key(number) <==> before.contains_key(number)
                    || is_registered(store, number) by {
                lemma_find_component_type(types, ComponentTypeId(number));
                if is_registered(store, number) {
                    let j = choose|j: int|
                        0 <= j < types.len() && (#[trigger] types[j]).id == ComponentTypeId(number);
                    assert(types[j].id.0 == number);
                }
                if exists|j: int| 0 <= j < i && (#[trigger] types[j]).id.0 == number {
                    let j = choose|j: int| 0 <= j < i && (#[trigger] types[j]).id.0 == number;
                    assert(types[j].id == ComponentTypeId(number));
                }
            }
            assert forall|number: u64|
                !before.contains_key(number) && #[trigger] is_registered(
                    store,
                    number,
                ) implies self.entries()[number].describes(
                store,
                registered_info(store, number),
            ) by {
                assert(self.entries().contains_key(number));
            }
        }
    }
}

/// An update of an update changes nothing.
pub proof fn lemma_update_idempotent(
    before: Map<u64, ComponentTypeMetadata>,
    once: Map<u64, ComponentTypeMetadata>,
    twice: Map<u64, ComponentTypeMetadata>,
    store: &Store,
)
    requires
        is_update_of(once, before, store),
        is_update_of(twice, once, store),
    ensures
        twice == once,
{
    assert forall|number: u64| twice.contains_key(number) <==> once.contains_key(number) by {
        if is_registered(store, number) {
            assert(once.contains_key(number));
        }
    }
    assert(twice =~= once);
}

} // verus!
