//! The semi-structured object type's entry in the engine's type
//! registry.

use vstd::prelude::*;
use vstd::string::StringExecFns;

use crate::value::DataType;
use crate::value::TypeID;

verus! {

/// The semi-structured object type; the core carries such values
/// opaquely.
#[derive(Clone, Copy, Debug, PartialEq, Eq, Hash, Structural)]
pub struct VariantObjectType {}

impl VariantObjectType {
    /// The registry's type descriptor for this type.
    pub fn new_impl() -> (r: DataType)
        ensures
            r.id == TypeID::VariantObject,
            !r.nullable,
    {
        DataType { id: TypeID::VariantObject, nullable: false }
    }

    /// The identifying kind of this type.
    pub fn data_type_id(&self) -> (r: TypeID)
        ensures
            r == TypeID::VariantObject,
    {
        TypeID::VariantObject
    }

    /// The type's display name.
    pub fn display_name(&self) -> (r: String)
        ensures
            r@ == "Object"@,
    {
        String::from_str("Object")
    }
}

} // verus!
