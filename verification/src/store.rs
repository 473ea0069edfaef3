//! A snapshot of the store that is inspected: its entities, the component
//! types registered in it, its archetypes, its reflection registry and its
//! resources, held as plain values.

use vstd::prelude::*;
use core::any::TypeId;
use crate::entity_name_resolution::NameResolutionRegistry;

verus! {

/// The identity of a Rust type, carried through unchanged.
#[verifier::external_type_specification]
#[verifier::external_body]
pub struct ExTypeId(TypeId);

/// `Clone::clone` of `TypeId`, a `Copy` type, returns its argument.
pub assume_specification[ <TypeId as Clone>::clone ](id: &TypeId) -> (copy: TypeId)
    ensures
        copy == *id,
;

/// Compares two type identities with `==` of `TypeId`, which holds exactly
/// for two identities of the same type.
#[verifier::external_body]
pub(crate) fn same_type(a: TypeId, b: TypeId) -> (same: bool)
    ensures
        same == (a == b),
{
    a == b
}

/// Identifies an entity: a slot of the store and the generation of its use.
#[derive(Clone, Copy, Debug, PartialEq, Eq, Structural)]
pub struct EntityId {
    /// The slot of the store that the entity occupies.
    pub index: u32,
    /// How often the slot had been used before.
    pub generation: u32,
}

/// Identifies a component type registered in the store.
#[derive(Clone, Copy, Debug, PartialEq, Eq, Structural)]
pub struct ComponentTypeId(pub u64);

/// Identifies an archetype: one exact set of component types.
#[derive(Clone, Copy, Debug, PartialEq, Eq, Structural)]
pub struct ArchetypeId(pub u64);

/// How the values of a component type are stored.
#[derive(Clone, Copy, Debug, PartialEq, Eq, Structural)]
pub enum StorageType {
    /// Densely, in the table of the archetype.
    Table,
    /// Sparsely, in a set of the component type's own.
    SparseSet,
}

impl EntityId {
    /// The number that orders entities: by index first, then by generation.
    pub open spec fn key(self) -> u64 {
        (self.index as u64 * 0x1_0000_0000 + self.generation as u64) as u64
    }

    /// An identifier from its two parts.
    pub fn new(index: u32, generation: u32) -> (id: Self)
        ensures
            id.index == index,
            id.generation == generation,
    {
        EntityId { index, generation }
    }

    /// The slot of the store that the entity occupies.
    pub fn index(&self) -> (index: u32)
        ensures
            index == self.index,
    {
        self.index
    }

    /// Computes [`EntityId::key`].
    pub fn to_key(&self) -> (key: u64)
        ensures
            key == self.key(),
    {
        let high: u64 = self.index as u64;
        let low: u64 = self.generation as u64;
        high * 0x1_0000_0000 + low
    }

    /// The identifier with the given key.
    pub open spec fn of_key(key: u64) -> EntityId {
        EntityId {
            index: (key / 0x1_0000_0000) as u32,
            generation: (key % 0x1_0000_0000) as u32,
        }
    }

    /// The identifier with the given key.
    pub fn from_key(key: u64) -> (id: Self)
        ensures
            id == EntityId::of_key(key),
            id.key() == key,
    {
        let index: u32 = (key / 0x1_0000_0000) as u32;
        let generation: u32 = (key % 0x1_0000_0000) as u32;
        EntityId { index, generation }
    }

    /// Whether two identifiers are the same.
    pub fn same(&self, other: &EntityId) -> (same: bool)
        ensures
            same == (*self == *other),
    {
        self.index == other.index && self.generation == other.generation
    }
}

/// Two entities with the same key are the same entity.
pub proof fn lemma_key_injective(a: EntityId, b: EntityId)
    requires
        a.key() == b.key(),
    ensures
        a == b,
{
}

/// Keys and identifiers stand for each other, one for one.
pub proof fn lemma_of_key(entity: EntityId, key: u64)
    ensures
        EntityId::of_key(entity.key()) == entity,
        EntityId::of_key(key).key() == key,
{
}

/// The keys of the identifiers of a sequence.
pub open spec fn keys_of(ids: Seq<EntityId>) -> Set<u64> {
    Set::new(|key: u64| ids.contains(EntityId::of_key(key)))
}

/// The keys of a sequence hold the key of an identifier exactly when the
/// sequence holds the identifier.
pub proof fn lemma_keys_of_contains(ids: Seq<EntityId>, entity: EntityId)
    ensures
        keys_of(ids).contains(entity.key()) <==> ids.contains(entity),
{
    lemma_of_key(entity, 0);
}

/// The keys of two sequences in a row are the keys of either.
pub proof fn lemma_keys_of_concat(a: Seq<EntityId>, b: Seq<EntityId>)
    ensures
        keys_of(a + b) == keys_of(a).union(keys_of(b)),
{
    assert forall|key: u64| keys_of(a + b).contains(key) <==> keys_of(a).contains(key)
        || keys_of(b).contains(key) by {
        let x = EntityId::of_key(key);
        if (a + b).contains(x) {
            let k = choose|k: int| 0 <= k < (a + b).len() && (a + b)[k] == x;
            if k < a.len() {
                assert(a[k] == x);
            } else {
                assert(b[k - a.len()] == x);
            }
        }
        if a.contains(x) {
            let k = choose|k: int| 0 <= k < a.len() && a[k] == x;
            assert((a + b)[k] == x);
        }
        if b.contains(x) {
            let k = choose|k: int| 0 <= k < b.len() && b[k] == x;
            assert((a + b)[a.len() + k] == x);
        }
    }
    assert(keys_of(a + b) =~= keys_of(a).union(keys_of(b)));
}

/// The keys of a sequence of one identifier are its key.
pub proof fn lemma_keys_of_one(entity: EntityId)
    ensures
        keys_of(seq![entity]) == Set::<u64>::empty().insert(entity.key()),
{
    assert forall|key: u64| keys_of(seq![entity]).contains(key) <==> key == entity.key() by {
        lemma_of_key(entity, key);
        let x = EntityId::of_key(key);
        if seq![entity].contains(x) {
            let k = choose|k: int| 0 <= k < seq![entity].len() && seq![entity][k] == x;
        }
        if key == entity.key() {
            assert(seq![entity][0] == x);
        }
    }
    assert(keys_of(seq![entity]) =~= Set::<u64>::empty().insert(entity.key()));
}

/// Where and when an entity was spawned.
#[derive(Clone, Debug)]
pub struct SpawnDetails {
    /// The source location of the spawn, where the store tracks it.
    pub spawned_by: Option<String>,
    /// The tick of the store at the spawn.
    pub spawn_tick: u32,
}

/// Why an entity could not be looked up.
#[derive(Clone, Copy, Debug, PartialEq, Eq, Structural)]
pub enum QueryEntityError {
    /// The entity does not exist in the store.
    EntityDoesNotExist(EntityId),
    /// The entity exists but lacks what the lookup asked for.
    QueryDoesNotMatch(EntityId),
    /// The entity is already borrowed for writing.
    AliasedMutability(EntityId),
}

/// A component value as reflection shows it.
#[derive(Clone, Debug)]
pub struct ReflectedValue {
    /// The type of the value.
    pub type_id: TypeId,
    /// The value printed with short type names.
    pub short_text: String,
    /// The value printed with full type paths.
    pub full_text: String,
    /// The size of the value in bytes, without what it owns on the heap.
    pub size: usize,
}

/// One entity of the store.
#[derive(Clone, Debug)]
pub struct EntityRecord {
    /// The entity's identifier.
    pub id: EntityId,
    /// The explicit display name, if one is set.
    pub name: Option<String>,
    /// The entity's parent, if it has one.
    pub parent: Option<EntityId>,
    /// The archetype that the entity belongs to.
    pub archetype: ArchetypeId,
    /// The component values of the entity that reflection can reach.
    pub reflected: Vec<ReflectedValue>,
    /// Where and when the entity was spawned.
    pub spawn_details: SpawnDetails,
}

/// One archetype of the store.
#[derive(Clone, Debug)]
pub struct ArchetypeRecord {
    /// The archetype's identifier.
    pub id: ArchetypeId,
    /// The component types that every entity of the archetype has.
    pub components: Vec<ComponentTypeId>,
    /// How many entities belong to the archetype.
    pub entity_count: usize,
}

/// What the store knows of a registered component type.
#[derive(Clone, Debug)]
pub struct ComponentTypeInfo {
    /// The identifier of the type.
    pub id: ComponentTypeId,
    /// The full path of the type.
    pub name: String,
    /// The identity of the Rust type; dynamic types have none.
    pub type_id: Option<TypeId>,
    /// The size in bytes of a value in place.
    pub layout_size: usize,
    /// Whether values can be changed while in the store.
    pub mutable: bool,
    /// How values are stored.
    pub storage_type: StorageType,
    /// Whether values can be shared between threads.
    pub is_send_and_sync: bool,
    /// The types that are added along with this one.
    pub required_components: Vec<ComponentTypeId>,
}

/// An entry of the reflection registry.
#[derive(Clone, Debug)]
pub struct TypeRegistration {
    /// The registered type.
    pub type_id: TypeId,
    /// A description of the shape of the type.
    pub description: String,
    /// Whether values of the type can be reflected as components.
    pub reflects_component: bool,
    /// Whether values of the type can be reflected as resources.
    pub reflects_resource: bool,
}

/// One resource of the store.
#[derive(Clone, Debug)]
pub struct ResourceRecord {
    /// The identifier of the resource's type.
    pub id: ComponentTypeId,
    /// Whether the resource can be sent between threads.
    pub is_send: bool,
    /// The resource value, where reflection can reach it.
    pub reflected: Option<ReflectedValue>,
}

/// A snapshot of the store.
pub struct Store {
    /// The entities that exist.
    pub entities: Vec<EntityRecord>,
    /// The archetypes, empty ones included.
    pub archetypes: Vec<ArchetypeRecord>,
    /// The registered component types, in the order of their registration.
    pub component_types: Vec<ComponentTypeInfo>,
    /// The reflection registry.
    pub type_registry: Vec<TypeRegistration>,
    /// The registry of name-defining types.
    pub name_registry: NameResolutionRegistry,
    /// The resources.
    pub resources: Vec<ResourceRecord>,
}

/// The first record of `records` with the identifier `id`.
pub open spec fn find_entity(records: Seq<EntityRecord>, id: EntityId) -> Option<EntityRecord>
    decreases records.len(),
{
    if records.len() == 0 {
        None
    } else if records[0].id == id {
        Some(records[0])
    } else {
        find_entity(records.drop_first(), id)
    }
}

/// The first record of `records` with the identifier `id`.
pub open spec fn find_archetype(records: Seq<ArchetypeRecord>, id: ArchetypeId) -> Option<
    ArchetypeRecord,
>
    decreases records.len(),
{
    if records.len() == 0 {
        None
    } else if records[0].id == id {
        Some(records[0])
    } else {
        find_archetype(records.drop_first(), id)
    }
}

/// The first record of `records` with the identifier `id`.
pub open spec fn find_component_type(records: Seq<ComponentTypeInfo>, id: ComponentTypeId) -> Option<
    ComponentTypeInfo,
>
    decreases records.len(),
{
    if records.len() == 0 {
        None
    } else if records[0].id == id {
        Some(records[0])
    } else {
        find_component_type(records.drop_first(), id)
    }
}

/// The first entry of `records` for the type `type_id`.
pub open spec fn find_registration(records: Seq<TypeRegistration>, type_id: TypeId) -> Option<
    TypeRegistration,
>
    decreases records.len(),
{
    if records.len() == 0 {
        None
    } else if records[0].type_id == type_id {
        Some(records[0])
    } else {
        find_registration(records.drop_first(), type_id)
    }
}

/// The first value of `values` of the type `type_id`.
pub open spec fn find_reflected(values: Seq<ReflectedValue>, type_id: TypeId) -> Option<
    ReflectedValue,
>
    decreases values.len(),
{
    if values.len() == 0 {
        None
    } else if values[0].type_id == type_id {
        Some(values[0])
    } else {
        find_reflected(values.drop_first(), type_id)
    }
}

/// The first record of `records` with the identifier `id`.
pub open spec fn find_resource(records: Seq<ResourceRecord>, id: ComponentTypeId) -> Option<
    ResourceRecord,
>
    decreases records.len(),
{
    if records.len() == 0 {
        None
    } else if records[0].id == id {
        Some(records[0])
    } else {
        find_resource(records.drop_first(), id)
    }
}

/// A copy of a list of plain values.
pub fn copy_of<T: Copy>(values: &Vec<T>) -> (copy: Vec<T>)
    ensures
        copy@ == values@,
{
    let mut copy: Vec<T> = Vec::new();
    let mut i: usize = 0;
    while i < values.len()
        invariant
            i <= values.len(),
            copy@ == values@.take(i as int),
        decreases values.len() - i,
    {
        copy.push(values[i]);
        assert(values@.take(i as int + 1) == values@.take(i as int).push(values@[i as int]));
        i += 1;
    }
    assert(values@.take(values.len() as int) == values@);
    copy
}

/// A record is found under an identifier exactly when some record has the
/// identifier; what is found has the identifier and is one of the records.
pub proof fn lemma_find_component_type(records: Seq<ComponentTypeInfo>, id: ComponentTypeId)
    ensures
        find_component_type(records, id) is Some <==> exists|j: int|
            0 <= j < records.len() && (#[trigger] records[j]).id == id,
        find_component_type(records, id) matches Some(record) ==> record.id == id
            && records.contains(record),
    decreases records.len(),
{
    if records.len() > 0 {
        if records[0].id == id {
            assert(records.contains(records[0]));
        } else {
            let rest = records.drop_first();
            lemma_find_component_type(rest, id);
            if find_component_type(rest, id) is Some {
                let j = choose|j: int| 0 <= j < rest.len() && (#[trigger] rest[j]).id == id;
                assert(records[j + 1].id == id);
                let record = find_component_type(rest, id)->0;
                let k = choose|k: int| 0 <= k < rest.len() && rest[k] == record;
                assert(records[k + 1] == record);
            }
            if exists|j: int| 0 <= j < records.len() && (#[trigger] records[j]).id == id {
                let j = choose|j: int| 0 <= j < records.len() && (#[trigger] records[j]).id == id;
                assert(rest[j - 1].id == id);
            }
        }
    }
}

/// A record is found under an identifier exactly when some record has the
/// identifier; what is found has the identifier.
pub proof fn lemma_find_entity(records: Seq<EntityRecord>, id: EntityId)
    ensures
        find_entity(records, id) is Some <==> exists|j: int|
            0 <= j < records.len() && (#[trigger] records[j]).id == id,
        find_entity(records, id) matches Some(record) ==> record.id == id,
    decreases records.len(),
{
    if records.len() > 0 {
        if records[0].id == id {
        } else {
            let rest = records.drop_first();
            lemma_find_entity(rest, id);
            if find_entity(rest, id) is Some {
                let j = choose|j: int| 0 <= j < rest.len() && (#[trigger] rest[j]).id == id;
                assert(records[j + 1].id == id);
            }
            if exists|j: int| 0 <= j < records.len() && (#[trigger] records[j]).id == id {
                let j = choose|j: int| 0 <= j < records.len() && (#[trigger] records[j]).id == id;
                assert(rest[j - 1].id == id);
            }
        }
    }
}

/// The keys of the entities that exist in the store.
pub open spec fn store_keys(store: &Store) -> Set<u64> {
    store.entities@.map_values(|record: EntityRecord| record.id.key()).to_set()
}

/// How many entities of the store a set of keys does not hold.
pub open spec fn unvisited(store: &Store, visited: Set<u64>) -> nat {
    store_keys(store).difference(visited).len()
}

/// A set of keys that holds one more entity of the store leaves fewer unvisited.
pub proof fn lemma_visit_decreases(store: &Store, entity: EntityId, visited: Set<u64>)
    requires
        store.exists_spec(entity),
        !visited.contains(entity.key()),
    ensures
        unvisited(store, visited.insert(entity.key())) < unvisited(store, visited),
{
    broadcast use vstd::set::group_set_axioms;

    let keys = store.entities@.map_values(|record: EntityRecord| record.id.key());
    vstd::seq_lib::seq_to_set_is_finite(keys);
    lemma_find_entity(store.entities@, entity);
    let j = choose|j: int|
        0 <= j < store.entities@.len() && (#[trigger] store.entities@[j]).id == entity;
    assert(keys[j] == entity.key());
    assert(keys.contains(entity.key()));
    let before = store_keys(store).difference(visited);
    let after = store_keys(store).difference(visited.insert(entity.key()));
    assert(before.contains(entity.key()));
    assert(after =~= before.remove(entity.key()));
    assert(before.finite());
}

/// A larger set of keys leaves no more entities of the store unvisited.
pub proof fn lemma_unvisited_monotone(store: &Store, smaller: Set<u64>, larger: Set<u64>)
    requires
        smaller.subset_of(larger),
    ensures
        unvisited(store, larger) <= unvisited(store, smaller),
{
    broadcast use vstd::set::group_set_axioms;

    let keys = store.entities@.map_values(|record: EntityRecord| record.id.key());
    vstd::seq_lib::seq_to_set_is_finite(keys);
    let few = store_keys(store).difference(larger);
    let many = store_keys(store).difference(smaller);
    assert(few.subset_of(many));
    assert(many.finite());
    vstd::set_lib::lemma_len_subset(few, many);
}

impl Store {
    /// The record of the entity `id`, if the entity exists.
    pub open spec fn entity_spec(&self, id: EntityId) -> Option<EntityRecord> {
        find_entity(self.entities@, id)
    }

    /// Whether the entity `id` exists.
    pub open spec fn exists_spec(&self, id: EntityId) -> bool {
        self.entity_spec(id) is Some
    }

    /// The explicit name of the entity `id`, if it exists and has one.
    pub open spec fn name_spec(&self, id: EntityId) -> Option<Seq<char>> {
        match self.entity_spec(id) {
            Some(record) => match record.name {
                Some(name) => Some(name@),
                None => None,
            },
            None => None,
        }
    }

    /// The parent of the entity `id`, if it exists and has one.
    pub open spec fn parent_spec(&self, id: EntityId) -> Option<EntityId> {
        match self.entity_spec(id) {
            Some(record) => record.parent,
            None => None,
        }
    }

    /// The component types of the archetype `id`; none where the store has no such archetype.
    pub open spec fn archetype_components_spec(&self, id: ArchetypeId) -> Seq<ComponentTypeId> {
        match find_archetype(self.archetypes@, id) {
            Some(record) => record.components@,
            None => Seq::empty(),
        }
    }

    /// The component types of the entity `id`: those of its archetype.
    pub open spec fn components_spec(&self, id: EntityId) -> Seq<ComponentTypeId> {
        match self.entity_spec(id) {
            Some(record) => self.archetype_components_spec(record.archetype),
            None => Seq::empty(),
        }
    }

    /// The record of the entity `id`, if the entity exists.
    pub fn entity(&self, id: EntityId) -> (found: Option<&EntityRecord>)
        ensures
            found matches Some(record) ==> self.entity_spec(id) == Some(*record),
            found is None ==> self.entity_spec(id) is None,
    {
        assert(self.entities@.subrange(0, self.entities.len() as int) =~= self.entities@);
        let mut i: usize = 0;
        while i < self.entities.len()
            invariant
                i <= self.entities.len(),
                find_entity(self.entities@, id) == find_entity(
                    self.entities@.subrange(i as int, self.entities.len() as int),
                    id,
                ),
            decreases self.entities.len() - i,
        {
            let ghost rest = self.entities@.subrange(i as int, self.entities.len() as int);
            assert(rest[0] == self.entities@[i as int]);
            assert(rest.drop_first() == self.entities@.subrange(
                i as int + 1,
                self.entities.len() as int,
            ));
            if self.entities[i].id.same(&id) {
                return Some(&self.entities[i]);
            }
            i += 1;
        }
        None
    }

    /// Whether the entity `id` exists.
    pub fn contains(&self, id: EntityId) -> (found: bool)
        ensures
            found == self.exists_spec(id),
    {
        self.entity(id).is_some()
    }

    /// The record of the archetype `id`, if the store has one.
    pub fn archetype(&self, id: ArchetypeId) -> (found: Option<&ArchetypeRecord>)
        ensures
            found matches Some(record) ==> find_archetype(self.archetypes@, id) == Some(*record),
            found is None ==> find_archetype(self.archetypes@, id) is None,
    {
        assert(self.archetypes@.subrange(0, self.archetypes.len() as int) =~= self.archetypes@);
        let mut i: usize = 0;
        while i < self.archetypes.len()
            invariant
                i <= self.archetypes.len(),
                find_archetype(self.archetypes@, id) == find_archetype(
                    self.archetypes@.subrange(i as int, self.archetypes.len() as int),
                    id,
                ),
            decreases self.archetypes.len() - i,
        {
            let ghost rest = self.archetypes@.subrange(i as int, self.archetypes.len() as int);
            assert(rest[0] == self.archetypes@[i as int]);
            assert(rest.drop_first() == self.archetypes@.subrange(
                i as int + 1,
                self.archetypes.len() as int,
            ));
            if self.archetypes[i].id.0 == id.0 {
                return Some(&self.archetypes[i]);
            }
            i += 1;
        }
        None
    }

    /// What the store knows of the component type `id`, if it is registered.
    pub fn component_type(&self, id: ComponentTypeId) -> (found: Option<&ComponentTypeInfo>)
        ensures
            found matches Some(record) ==> find_component_type(self.component_types@, id) == Some(
                *record,
            ),
            found is None ==> find_component_type(self.component_types@, id) is None,
    {
        assert(self.component_types@.subrange(0, self.component_types.len() as int) =~= self.component_types@);
        let mut i: usize = 0;
        while i < self.component_types.len()
            invariant
                i <= self.component_types.len(),
                find_component_type(self.component_types@, id) == find_component_type(
                    self.component_types@.subrange(i as int, self.component_types.len() as int),
                    id,
                ),
            decreases self.component_types.len() - i,
        {
            let ghost rest = self.component_types@.subrange(
                i as int,
                self.component_types.len() as int,
            );
            assert(rest[0] == self.component_types@[i as int]);
            assert(rest.drop_first() == self.component_types@.subrange(
                i as int + 1,
                self.component_types.len() as int,
            ));
            if self.component_types[i].id.0 == id.0 {
                return Some(&self.component_types[i]);
            }
            i += 1;
        }
        None
    }

    /// The entry of the reflection registry for the type `type_id`, if there is one.
    pub fn type_registration(&self, type_id: TypeId) -> (found: Option<&TypeRegistration>)
        ensures
            found matches Some(record) ==> find_registration(self.type_registry@, type_id) == Some(
                *record,
            ),
            found is None ==> find_registration(self.type_registry@, type_id) is None,
    {
        assert(self.type_registry@.subrange(0, self.type_registry.len() as int) =~= self.type_registry@);
        let mut i: usize = 0;
        while i < self.type_registry.len()
            invariant
                i <= self.type_registry.len(),
                find_registration(self.type_registry@, type_id) == find_registration(
                    self.type_registry@.subrange(i as int, self.type_registry.len() as int),
                    type_id,
                ),
            decreases self.type_registry.len() - i,
        {
            let ghost rest = self.type_registry@.subrange(
                i as int,
                self.type_registry.len() as int,
            );
            assert(rest[0] == self.type_registry@[i as int]);
            assert(rest.drop_first() == self.type_registry@.subrange(
                i as int + 1,
                self.type_registry.len() as int,
            ));
            if same_type(self.type_registry[i].type_id, type_id) {
                return Some(&self.type_registry[i]);
            }
            i += 1;
        }
        None
    }

    /// The resource of the type `id`, if the store holds one.
    pub fn resource(&self, id: ComponentTypeId) -> (found: Option<&ResourceRecord>)
        ensures
            found matches Some(record) ==> find_resource(self.resources@, id) == Some(*record),
            found is None ==> find_resource(self.resources@, id) is None,
    {
        assert(self.resources@.subrange(0, self.resources.len() as int) =~= self.resources@);
        let mut i: usize = 0;
        while i < self.resources.len()
            invariant
                i <= self.resources.len(),
                find_resource(self.resources@, id) == find_resource(
                    self.resources@.subrange(i as int, self.resources.len() as int),
                    id,
                ),
            decreases self.resources.len() - i,
        {
            let ghost rest = self.resources@.subrange(i as int, self.resources.len() as int);
            assert(rest[0] == self.resources@[i as int]);
            assert(rest.drop_first() == self.resources@.subrange(
                i as int + 1,
                self.resources.len() as int,
            ));
            if self.resources[i].id.0 == id.0 {
                return Some(&self.resources[i]);
            }
            i += 1;
        }
        None
    }
}

/// The first value of `values` of the type `type_id`.
pub fn reflected_value(values: &Vec<ReflectedValue>, type_id: TypeId) -> (found: Option<
    &ReflectedValue,
>)
    ensures
        found matches Some(value) ==> find_reflected(values@, type_id) == Some(*value),
        found is None ==> find_reflected(values@, type_id) is None,
{
    assert(values@.subrange(0, values.len() as int) =~= values@);
    let mut i: usize = 0;
    while i < values.len()
        invariant
            i <= values.len(),
            find_reflected(values@, type_id) == find_reflected(
                values@.subrange(i as int, values.len() as int),
                type_id,
            ),
        decreases values.len() - i,
    {
        let ghost rest = values@.subrange(i as int, values.len() as int);
        assert(rest[0] == values@[i as int]);
        assert(rest.drop_first() == values@.subrange(i as int + 1, values.len() as int));
        if same_type(values[i].type_id, type_id) {
            return Some(&values[i]);
        }
        i += 1;
    }
    None
}

} // verus!
