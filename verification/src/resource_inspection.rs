//! Inspection of resources.

use vstd::prelude::*;
use core::any::TypeId;
use crate::component_inspection::{is_registered, registered_info, registration_of, same_registration};
use crate::memory_size::MemorySize;
use crate::reflection_tools::{fetch_error_text, reflected_resource};
use crate::store::{ComponentTypeId, Store, TypeRegistration};

verus! {

/// The result of inspecting a resource.
#[derive(Clone, Debug)]
pub struct ResourceInspection {
    /// The identifier of the resource's type.
    pub component_id: ComponentTypeId,
    /// The full path of the resource's type.
    pub name: String,
    /// The value of the resource as text.
    pub value: String,
    /// The identity of the Rust type; dynamic types have none.
    pub type_id: Option<TypeId>,
    /// The size of the value in bytes, where reflection reached the value.
    pub memory_size: Option<MemorySize>,
    /// The entry of the reflection registry, where the type has one.
    pub type_registration: Option<TypeRegistration>,
}

/// Why a resource could not be inspected.
#[derive(Clone, Copy, Debug)]
pub enum ResourceInspectionError {
    /// The named Rust type is not registered as a resource.
    ResourceNotRegistered(&'static str),
    /// No resource type is registered under the identifier.
    ResourceNotFound(ComponentTypeId),
}

/// Settings for inspecting a resource.
#[derive(Clone, Copy, Debug)]
pub struct ResourceInspectionSettings {
    /// Whether values are printed with full type paths.
    pub full_type_names: bool,
}

impl Default for ResourceInspectionSettings {
    fn default() -> (settings: Self)
        ensures
            !settings.full_type_names,
    {
        ResourceInspectionSettings { full_type_names: false }
    }
}

/// The text that stands for a value that reflection could not reach.
pub open spec fn unreflectable_text(message: Seq<char>) -> Seq<char> {
    "<Unreflectable: "@ + message + ">"@
}

/// `inspection` is what inspecting the resource of the registered type
/// `id` gives: the facts of the type, and the value as reflection shows
/// it, printed as the settings ask; where the type is dynamic or
/// reflection fails, a text that says so, and no size.
pub open spec fn is_resource_view(
    store: &Store,
    id: ComponentTypeId,
    settings: ResourceInspectionSettings,
    inspection: ResourceInspection,
) -> bool {
    let info = registered_info(store, id.0);
    &&& inspection.component_id == id
    &&& inspection.name@ == info.name@
    &&& inspection.type_id == info.type_id
    &&& same_registration(inspection.type_registration, registration_of(store, info.type_id))
    &&& match info.type_id {
        None => inspection.value@ == "Dynamic Type"@ && inspection.memory_size is None,
        Some(type_id) => match reflected_resource(store, type_id) {
            Ok(value) => inspection.memory_size == Some(MemorySize(value.size)) && inspection.value@
                == (if settings.full_type_names {
                value.full_text@
            } else {
                value.short_text@
            }),
            Err(error) => inspection.memory_size is None && exists|shown: Seq<char>|
                inspection.value@ == unreflectable_text(fetch_error_text(error, shown)),
        },
    }
}

} // verus!
