//! Reaching the values of components and resources through reflection.

use vstd::prelude::*;
use vstd::string::StringExecFns;
use core::any::TypeId;
use crate::store::{
    find_entity, find_reflected, find_registration, reflected_value, EntityId, ReflectedValue,
    ResourceRecord, Store,
};

verus! {

/// Why a value could not be reached through reflection.
#[derive(Clone, Copy, Debug)]
pub enum ReflectionFetchError {
    /// The type is not in the reflection registry.
    NotRegistered(TypeId),
    /// The type is registered, but not for the kind of reflection asked for.
    MissingReflectTrait(TypeId),
    /// The value could not be had from the store.
    ReflectionRetrievalFailed(TypeId),
}

/// Prints a type identity with `{:?}`. What is printed differs from one
/// build of a program to the next, so nothing is said of it.
#[verifier::external_body]
fn type_id_text(type_id: TypeId) -> String {
    format!("{:?}", type_id)
}

/// The text of an error, with `shown` for the type.
pub open spec fn fetch_error_text(error: ReflectionFetchError, shown: Seq<char>) -> Seq<char> {
    match error {
        ReflectionFetchError::NotRegistered(_) => "Type "@ + shown
            + " not registered in type registry"@,
        ReflectionFetchError::MissingReflectTrait(_) => "Type "@ + shown
            + " does not implement required reflection trait"@,
        ReflectionFetchError::ReflectionRetrievalFailed(_) => "Could not retrieve reflected data for type "@
            + shown,
    }
}

/// The type that an error is about.
pub open spec fn fetch_error_type(error: ReflectionFetchError) -> TypeId {
    match error {
        ReflectionFetchError::NotRegistered(id) => id,
        ReflectionFetchError::MissingReflectTrait(id) => id,
        ReflectionFetchError::ReflectionRetrievalFailed(id) => id,
    }
}

impl ReflectionFetchError {
    /// The type that the error is about.
    pub fn type_id(&self) -> (id: TypeId)
        ensures
            id == fetch_error_type(*self),
    {
        match self {
            ReflectionFetchError::NotRegistered(id) => *id,
            ReflectionFetchError::MissingReflectTrait(id) => *id,
            ReflectionFetchError::ReflectionRetrievalFailed(id) => *id,
        }
    }

    /// The text of the error, with `shown` for the type.
    pub fn describe(&self, shown: &str) -> (text: String)
        ensures
            text@ == fetch_error_text(*self, shown@),
    {
        match self {
            ReflectionFetchError::NotRegistered(_) => {
                let mut text = String::from_str("Type ");
                text.append(shown);
                text.append(" not registered in type registry");
                text
            },
            ReflectionFetchError::MissingReflectTrait(_) => {
                let mut text = String::from_str("Type ");
                text.append(shown);
                text.append(" does not implement required reflection trait");
                text
            },
            ReflectionFetchError::ReflectionRetrievalFailed(_) => {
                let mut text = String::from_str("Could not retrieve reflected data for type ");
                text.append(shown);
                text
            },
        }
    }

    /// The text of the error, with the type as the build prints it.
    pub fn message(&self) -> (text: String)
        ensures
            exists|shown: Seq<char>| text@ == fetch_error_text(*self, shown),
    {
        let shown = type_id_text(self.type_id());
        self.describe(shown.as_str())
    }
}

/// What reflection gives for the component of type `type_id` of an
/// entity: the value, or why it cannot be reached. Of an entity that does
/// not exist no value can be had.
pub open spec fn reflected_component(store: &Store, entity: EntityId, type_id: TypeId) -> Result<
    ReflectedValue,
    ReflectionFetchError,
> {
    match find_registration(store.type_registry@, type_id) {
        None => Err(ReflectionFetchError::NotRegistered(type_id)),
        Some(registration) => if !registration.reflects_component {
            Err(ReflectionFetchError::MissingReflectTrait(type_id))
        } else {
            match find_entity(store.entities@, entity) {
                Some(record) => match find_reflected(record.reflected@, type_id) {
                    Some(value) => Ok(value),
                    None => Err(ReflectionFetchError::ReflectionRetrievalFailed(type_id)),
                },
                None => Err(ReflectionFetchError::ReflectionRetrievalFailed(type_id)),
            }
        },
    }
}

/// The first resource value of the type `type_id`.
pub open spec fn find_resource_value(resources: Seq<ResourceRecord>, type_id: TypeId) -> Option<
    ReflectedValue,
>
    decreases resources.len(),
{
    if resources.len() == 0 {
        None
    } else {
        match resources[0].reflected {
            Some(value) => if value.type_id == type_id {
                Some(value)
            } else {
                find_resource_value(resources.drop_first(), type_id)
            },
            None => find_resource_value(resources.drop_first(), type_id),
        }
    }
}

/// What reflection gives for the resource of type `type_id`: the value, or
/// why it cannot be reached.
pub open spec fn reflected_resource(store: &Store, type_id: TypeId) -> Result<
    ReflectedValue,
    ReflectionFetchError,
> {
    match find_registration(store.type_registry@, type_id) {
        None => Err(ReflectionFetchError::NotRegistered(type_id)),
        Some(registration) => if !registration.reflects_resource {
            Err(ReflectionFetchError::MissingReflectTrait(type_id))
        } else {
            match find_resource_value(store.resources@, type_id) {
                Some(value) => Ok(value),
                None => Err(ReflectionFetchError::ReflectionRetrievalFailed(type_id)),
            }
        },
    }
}

/// Reaches the component of type `type_id` of an entity through reflection.
///
/// Fails where the type is not in the reflection registry, where it is
/// not registered as a component, and where the entity has no such value
/// or does not exist.
pub fn get_reflected_component_ref<'a>(store: &'a Store, entity: EntityId, type_id: TypeId) -> (result:
    Result<&'a ReflectedValue, ReflectionFetchError>)
    ensures
        match result {
            Ok(value) => reflected_component(store, entity, type_id) == Ok::<
                ReflectedValue,
                ReflectionFetchError,
            >(*value),
            Err(error) => reflected_component(store, entity, type_id) == Err::<
                ReflectedValue,
                ReflectionFetchError,
            >(error),
        },
{
    let type_registration = match store.type_registration(type_id) {
        Some(registration) => registration,
        None => {
            return Err(ReflectionFetchError::NotRegistered(type_id));
        },
    };
    if !type_registration.reflects_component {
        return Err(ReflectionFetchError::MissingReflectTrait(type_id));
    }
    let record = match store.entity(entity) {
        Some(record) => record,
        None => {
            return Err(ReflectionFetchError::ReflectionRetrievalFailed(type_id));
        },
    };
    match reflected_value(&record.reflected, type_id) {
        Some(value) => Ok(value),
        None => Err(ReflectionFetchError::ReflectionRetrievalFailed(type_id)),
    }
}

/// Reaches the resource of type `type_id` through reflection.
///
/// Fails where the type is not in the reflection registry, where it is
/// not registered as a resource, and where the store has no such resource.
pub fn get_reflected_resource_ref<'a>(store: &'a Store, type_id: TypeId) -> (result: Result<
    &'a ReflectedValue,
    ReflectionFetchError,
>)
    ensures
        match result {
            Ok(value) => reflected_resource(store, type_id) == Ok::<
                ReflectedValue,
                ReflectionFetchError,
            >(*value),
            Err(error) => reflected_resource(store, type_id) == Err::<
                ReflectedValue,
                ReflectionFetchError,
            >(error),
        },
{
    let type_registration = match store.type_registration(type_id) {
        Some(registration) => registration,
        None => {
            return Err(ReflectionFetchError::NotRegistered(type_id));
        },
    };
    if !type_registration.reflects_resource {
        return Err(ReflectionFetchError::MissingReflectTrait(type_id));
    }
    let mut i: usize = 0;
    assert(store.resources@.subrange(0, store.resources.len() as int) =~= store.resources@);
    while i < store.resources.len()
        invariant
            i <= store.resources.len(),
            find_registration(store.type_registry@, type_id) == Some(*type_registration),
            type_registration.reflects_resource,
            find_resource_value(store.resources@, type_id) == find_resource_value(
                store.resources@.subrange(i as int, store.resources.len() as int),
                type_id,
            ),
        decreases store.resources.len() - i,
    {
        let ghost rest = store.resources@.subrange(i as int, store.resources.len() as int);
        assert(rest[0] == store.resources@[i as int]);
        assert(rest.drop_first() == store.resources@.subrange(
            i as int + 1,
            store.resources.len() as int,
        ));
        match &store.resources[i].reflected {
            Some(value) => {
                assert(rest[0].reflected == Some(*value));
                if crate::store::same_type(value.type_id, type_id) {
                    assert(find_resource_value(rest, type_id) == Some(*value));
                    return Ok(value);
                }
            },
            None => {},
        }
        i += 1;
    }
    Err(ReflectionFetchError::ReflectionRetrievalFailed(type_id))
}

} // verus!
