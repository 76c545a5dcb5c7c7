//! Type fingerprints and type-erased value carriers.
//!
//! The engine is zero-knowledge about the values the user's tasks exchange:
//! it transports a payload of the caller's choosing together with a
//! fingerprint of the payload's advertised runtime type, and decides type
//! agreement by comparing fingerprints alone.

use vstd::prelude::*;

verus! {

/// Declares `std::any::TypeId` so fingerprints can carry the standard
/// library's own stable type identities.
#[verifier::external_type_specification]
#[verifier::external_body]
pub struct ExTypeId(std::any::TypeId);

/// Relies on `TypeId::of` returning the identity of the type `T`.
#[verifier::external_body]
pub(crate) fn type_id_of<T: 'static>() -> std::any::TypeId {
    std::any::TypeId::of::<T>()
}

/// Relies on `TypeId`'s equality, which compares the underlying type
/// identities: the result is `true` exactly when the two values are equal.
#[verifier::external_body]
pub(crate) fn type_id_eq(a: &std::any::TypeId, b: &std::any::TypeId) -> (r: bool)
    ensures
        r == (*a == *b),
{
    a == b
}

/// A type fingerprint: a stable identity paired with a human-readable name.
///
/// Equality of interest is equality of `id` alone; the name is advisory and
/// only serves diagnostics.
#[derive(Debug, Clone, Copy)]
pub struct TypeInfo {
    id: std::any::TypeId,
    name: &'static str,
}

impl TypeInfo {
    /// The stable identity.
    pub closed spec fn spec_id(self) -> std::any::TypeId {
        self.id
    }

    /// The advisory name.
    pub closed spec fn spec_name(self) -> &'static str {
        self.name
    }

    /// Gets the identity.
    pub fn id(&self) -> (r: std::any::TypeId)
        ensures
            r == self.spec_id(),
    {
        self.id
    }

    /// Gets the type name.
    pub fn name(&self) -> (r: &'static str)
        ensures
            r == self.spec_name(),
    {
        self.name
    }

    /// Returns the fingerprint of the type this generic function has been
    /// instantiated with, under an empty advisory name.
    pub fn of<T: 'static>() -> TypeInfo {
        TypeInfo { id: type_id_of::<T>(), name: "" }
    }

    /// Returns the fingerprint of the type this generic function has been
    /// instantiated with, under the given advisory name.
    pub fn of_named<T: 'static>(name: &'static str) -> (r: TypeInfo)
        ensures
            r.spec_name() == name,
    {
        TypeInfo { id: type_id_of::<T>(), name }
    }

    /// Builds a fingerprint from an identity and a name.
    pub fn from_parts(id: std::any::TypeId, name: &'static str) -> (r: TypeInfo)
        ensures
            r.spec_id() == id,
            r.spec_name() == name,
    {
        TypeInfo { id, name }
    }

    /// Compares two fingerprints by identity.
    pub fn same_id(&self, other: &TypeInfo) -> (r: bool)
        ensures
            r == (self.spec_id() == other.spec_id()),
    {
        type_id_eq(&self.id, &other.id)
    }
}

/// The fingerprint of the type `T`.
pub fn type_info<T: 'static>() -> TypeInfo {
    TypeInfo::of::<T>()
}

/// A type-erased value: a payload together with the fingerprint of the type
/// the payload stands for.
#[derive(Debug, Clone, Copy)]
pub struct Value<V> {
    /// The payload.
    pub data: V,
    /// The fingerprint of the payload's advertised type.
    pub info: TypeInfo,
}

/// Erases a payload into a carrier labelled with the given fingerprint.
pub fn make_any<V>(data: V, info: TypeInfo) -> (r: Value<V>)
    ensures
        r.data == data,
        r.info == info,
{
    Value { data, info }
}

/// Recovers the payload of `value` as the expected type.
///
/// Succeeds exactly when `value`'s fingerprint matches `expected`; on failure
/// the carrier is handed back unchanged so the caller may retry or report.
pub fn downcast<V>(value: Value<V>, expected: &TypeInfo) -> (r: Result<V, Value<V>>)
    ensures
        value.info.spec_id() == expected.spec_id() ==> r == Ok::<V, Value<V>>(value.data),
        value.info.spec_id() != expected.spec_id() ==> r == Err::<V, Value<V>>(value),
{
    if value.info.same_id(expected) {
        Ok(value.data)
    } else {
        Err(value)
    }
}

} // verus!
