//! Typed keys of services.

use crate::table::TableKey;
use std::any::TypeId;
use vstd::prelude::*;

verus! {

/// The identity of a type, opaque but for its equality.
#[verifier::external_type_specification]
#[verifier::external_body]
pub struct ExTypeId(std::any::TypeId);

/// Makes [`TypeId::of`] known by its name; see [`type_id_of`] for what is
/// claimed of it.
pub assume_specification<T: ?Sized + 'static>[ TypeId::of::<T> ]() -> (r: TypeId)
;

/// Whether this is an identity that [`TypeId::of`] gives to the type.
pub open spec fn identifies<T: ?Sized + 'static>(id: TypeId) -> bool {
    call_ensures(TypeId::of::<T>, (), id)
}

/// Calls [`TypeId::of`]: the result is the type's identity, and the type has
/// no other. Which identity a type has is fixed when the program is compiled.
/// It is left unsaid that two types never have the same.
#[verifier::external_body]
pub(crate) fn type_id_of<T: ?Sized + 'static>() -> (r: TypeId)
    ensures
        identifies::<T>(r),
        forall|x: TypeId| #[trigger] identifies::<T>(x) ==> x == r,
{
    TypeId::of::<T>()
}

/// Calls `==` on two [`TypeId`]s: it holds exactly between equal identities.
#[verifier::external_body]
pub(crate) fn same_type(a: &TypeId, b: &TypeId) -> (r: bool)
    ensures
        r == (*a == *b),
{
    a == b
}

impl TableKey for TypeId {
    fn same(&self, other: &Self) -> (r: bool) {
        same_type(self, other)
    }
}

/// Typed key identifying a service inside a realm's service table.
///
/// The key is derived from the service type. The type's identity is what a
/// key is compared by; a human-readable name goes with it for logs and
/// plugin-graph debugging.
#[derive(Debug, Clone, Copy)]
pub struct ServiceKey {
    pub id: TypeId,
    pub name: &'static str,
}

impl ServiceKey {
    /// Builds the key for a service type: its identity is the type's own, so
    /// all keys of one type are equal. It carries the given name, which should
    /// be the type's path.
    pub fn of<T: ?Sized + 'static>(name: &'static str) -> (r: Self)
        ensures
            identifies::<T>(r.id),
            forall|x: TypeId| #[trigger] identifies::<T>(x) ==> x == r.id,
            r.name == name,
    {
        Self::from_parts(type_id_of::<T>(), name)
    }

    /// The key with the given identity and name.
    pub fn from_parts(id: TypeId, name: &'static str) -> (r: Self)
        ensures
            r.id == id,
            r.name == name,
    {
        ServiceKey { id, name }
    }

    /// The underlying type identity.
    pub fn id(&self) -> (r: TypeId)
        ensures
            r == self.id,
    {
        self.id
    }

    /// The human-readable name recorded with the key.
    pub fn name(&self) -> (r: &'static str)
        ensures
            r == self.name,
    {
        self.name
    }

    /// The text the key renders as: its name.
    pub fn to_string(&self) -> (r: String)
        ensures
            r@ == self.name@,
    {
        self.name.to_owned()
    }
}

impl PartialEq for ServiceKey {
    fn eq(&self, other: &Self) -> (r: bool) {
        same_type(&self.id, &other.id)
    }
}

impl vstd::std_specs::cmp::PartialEqSpecImpl for ServiceKey {
    open spec fn obeys_eq_spec() -> bool {
        true
    }

    open spec fn eq_spec(&self, other: &Self) -> bool {
        self.id == other.id
    }
}

impl Eq for ServiceKey {

}

} // verus!
