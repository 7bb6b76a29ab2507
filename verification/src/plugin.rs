//! What a plugin declares: its name, its dependencies, what it provides.

use crate::service::ServiceKey;
use vstd::prelude::*;

verus! {

/// One declared dependency of a plugin.
///
/// `Hard` is the dependency-graph edge: the plugin stays pending until the
/// service resolves, and replacing or disposing the provider disconnects the
/// plugin. `Soft` waits only for providers that declared themselves: the
/// plugin starts as soon as every pending or starting plugin that declares
/// the key has settled, reads whatever the table holds by then, and is never
/// disconnected.
#[derive(Debug, Clone, Copy)]
pub enum Dependency {
    /// Required before startup; a lifecycle-coupled graph edge.
    Hard(ServiceKey),
    /// Optional: waits for declared providers to settle, never gates on
    /// existence, never disconnects.
    Soft(ServiceKey),
}

/// The service a dependency names.
pub open spec fn dependency_key(dependency: Dependency) -> ServiceKey {
    match dependency {
        Dependency::Hard(key) => key,
        Dependency::Soft(key) => key,
    }
}

impl Dependency {
    /// The service this dependency names.
    pub fn key(&self) -> (r: &ServiceKey)
        ensures
            *r == dependency_key(*self),
    {
        match self {
            Dependency::Hard(key) => key,
            Dependency::Soft(key) => key,
        }
    }

    /// Whether the dependency is soft.
    pub fn is_soft(&self) -> (r: bool)
        ensures
            r == (self is Soft),
    {
        match self {
            Dependency::Hard(_) => false,
            Dependency::Soft(_) => true,
        }
    }

    /// A hard dependency from a bare key.
    pub fn hard(key: ServiceKey) -> (r: Self)
        ensures
            r == Dependency::Hard(key),
    {
        Dependency::Hard(key)
    }

    /// A soft dependency from a bare key.
    pub fn soft(key: ServiceKey) -> (r: Self)
        ensures
            r == Dependency::Soft(key),
    {
        Dependency::Soft(key)
    }
}

impl From<ServiceKey> for Dependency {
    fn from(key: ServiceKey) -> (r: Self) {
        Dependency::Hard(key)
    }
}

impl vstd::std_specs::convert::FromSpecImpl<ServiceKey> for Dependency {
    open spec fn obeys_from_spec() -> bool {
        true
    }

    open spec fn from_spec(key: ServiceKey) -> Self {
        Dependency::Hard(key)
    }
}

impl PartialEq for Dependency {
    fn eq(&self, other: &Self) -> (r: bool) {
        match (self, other) {
            (Dependency::Hard(a), Dependency::Hard(b)) => *a == *b,
            (Dependency::Soft(a), Dependency::Soft(b)) => *a == *b,
            _ => false,
        }
    }
}

impl vstd::std_specs::cmp::PartialEqSpecImpl for Dependency {
    open spec fn obeys_eq_spec() -> bool {
        true
    }

    open spec fn eq_spec(&self, other: &Self) -> bool {
        (self is Soft <==> other is Soft) && dependency_key(*self).id == dependency_key(*other).id
    }
}

impl Eq for Dependency {

}

/// What the kernel needs to know of a plugin before it runs: its name, what
/// it injects, and what it declares to provide.
pub struct FnPlugin {
    pub name: String,
    pub inject: Vec<Dependency>,
    pub provides: Vec<ServiceKey>,
}

/// What a plugin declares.
#[verifier::ext_equal]
pub struct PluginView {
    pub name: Seq<char>,
    pub inject: Seq<Dependency>,
    pub provides: Seq<ServiceKey>,
}

impl View for FnPlugin {
    type V = PluginView;

    open spec fn view(&self) -> PluginView {
        PluginView { name: self.name@, inject: self.inject@, provides: self.provides@ }
    }
}

impl FnPlugin {
    /// Declares the plugin's dependencies; hard and soft alike.
    pub fn inject(self, dependencies: Vec<Dependency>) -> (r: Self)
        ensures
            r.name == self.name,
            r.inject == dependencies,
            r.provides == self.provides,
    {
        FnPlugin { name: self.name, inject: dependencies, provides: self.provides }
    }

    /// Declares the services this plugin will provide, for soft dependents
    /// to wait on.
    pub fn provides(self, keys: Vec<ServiceKey>) -> (r: Self)
        ensures
            r.name == self.name,
            r.inject == self.inject,
            r.provides == keys,
    {
        FnPlugin { name: self.name, inject: self.inject, provides: keys }
    }
}

/// Builds a [`FnPlugin`] that injects and declares nothing yet.
pub fn fn_plugin(name: String) -> (r: FnPlugin)
    ensures
        r.name == name,
        r.inject@.len() == 0,
        r.provides@.len() == 0,
{
    FnPlugin { name, inject: Vec::new(), provides: Vec::new() }
}

} // verus!
