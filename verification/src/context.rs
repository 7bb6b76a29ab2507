//! Realms: nested scopes of typed services.

use crate::fiber::FiberId;
use crate::service::ServiceKey;
use crate::table::Table;
use std::any::TypeId;
use vstd::prelude::*;

verus! {

/// The identity of one provided service instance: two handles are equal
/// exactly when they stand for the same shared value.
#[derive(Debug, Clone, Copy, PartialEq, Eq, Structural, PartialOrd, Ord, Hash)]
pub struct ServiceId(pub u64);

/// A node in the realm tree.
#[derive(Debug, Clone, Copy, PartialEq, Eq, Structural, PartialOrd, Ord, Hash)]
pub struct RealmId(pub u32);

impl RealmId {
    /// The realm every other realm descends from.
    pub fn root() -> (r: Self)
        ensures
            r == RealmId(0),
    {
        RealmId(0)
    }

    /// Whether this is the root realm.
    pub fn is_root(&self) -> (r: bool)
        ensures
            r == (*self == RealmId(0)),
    {
        self.0 == 0
    }
}

/// A plugin's view of the kernel: the fiber it acts for and the realm it
/// acts in.
#[derive(Debug, Clone, Copy, PartialEq, Eq, Structural)]
pub struct Ctx {
    pub fiber: FiberId,
    pub realm: RealmId,
}

/// One realm: its place in the tree and the services bound in it.
pub struct Realm {
    pub id: RealmId,
    pub parent: Option<RealmId>,
    pub services: Table<TypeId, ServiceId>,
}

/// What a realm is: its parent, and the service bound to each type.
#[verifier::ext_equal]
pub struct RealmView {
    pub parent: Option<RealmId>,
    pub services: Map<TypeId, ServiceId>,
}

impl View for Realm {
    type V = RealmView;

    open spec fn view(&self) -> RealmView {
        RealmView { parent: self.parent, services: self.services@ }
    }
}

impl Realm {
    /// The root realm, without services.
    pub fn root() -> (r: Self)
        ensures
            r.id == RealmId(0),
            r@ == (RealmView { parent: None, services: Map::empty() }),
            r.services.wf(),
    {
        Realm { id: RealmId::root(), parent: None, services: Table::new() }
    }

    /// Whether this is the root realm: it has the root's id and no parent.
    pub fn is_root(&self) -> (r: bool)
        ensures
            r == (self.id == RealmId(0) && self.parent is None),
    {
        self.id.is_root() && self.parent.is_none()
    }
}

/// The realms from `realm` up to, and with, the one that has no parent.
pub open spec fn chain(realms: Seq<RealmView>, realm: RealmId) -> Seq<RealmId>
    decreases realm.0,
{
    match parent_of(realms, realm) {
        Some(parent) => seq![realm] + chain(realms, parent),
        None => seq![realm],
    }
}

/// The parent of a realm. Realms are numbered as they are made, so a parent
/// always has a smaller number than its children.
pub open spec fn parent_of(realms: Seq<RealmView>, realm: RealmId) -> Option<RealmId> {
    if realm.0 < realms.len() {
        match realms[realm.0 as int].parent {
            Some(parent) => if parent.0 < realm.0 {
                Some(parent)
            } else {
                None
            },
            None => None,
        }
    } else {
        None
    }
}

/// Whether the realm itself binds the type.
pub open spec fn binds(realms: Seq<RealmView>, realm: RealmId, key: TypeId) -> bool {
    realm.0 < realms.len() && realms[realm.0 as int].services.dom().contains(key)
}

/// The realm whose binding wins a lookup from `realm`: the innermost one on
/// the way up that binds the type.
pub open spec fn resolving(realms: Seq<RealmView>, realm: RealmId, key: TypeId) -> Option<RealmId>
    decreases realm.0,
{
    if binds(realms, realm, key) {
        Some(realm)
    } else {
        match parent_of(realms, realm) {
            Some(parent) => resolving(realms, parent, key),
            None => None,
        }
    }
}

/// What a lookup from `realm` finds.
pub open spec fn resolved(realms: Seq<RealmView>, realm: RealmId, key: TypeId) -> Option<
    ServiceId,
> {
    match resolving(realms, realm, key) {
        Some(winner) => Some(realms[winner.0 as int].services[key]),
        None => None,
    }
}

/// Whether `realm` lies strictly below `ancestor`.
pub open spec fn descends(realms: Seq<RealmView>, realm: RealmId, ancestor: RealmId) -> bool
    decreases realm.0,
{
    match parent_of(realms, realm) {
        Some(parent) => parent == ancestor || descends(realms, parent, ancestor),
        None => false,
    }
}

/// The realms among the first `n` whose parent is `realm`, in the order they
/// were made.
pub open spec fn kids_among(realms: Seq<RealmView>, realm: RealmId, n: nat) -> Seq<RealmId>
    decreases n,
{
    if n == 0 {
        Seq::empty()
    } else {
        let front = kids_among(realms, realm, (n - 1) as nat);
        let last = RealmId((n - 1) as u32);
        if parent_of(realms, last) == Some(realm) {
            front.push(last)
        } else {
            front
        }
    }
}

/// The realms directly below a realm, in the order they were made.
pub open spec fn kids(realms: Seq<RealmView>, realm: RealmId) -> Seq<RealmId> {
    kids_among(realms, realm, realms.len())
}

/// The realm tree.
pub struct Realms {
    pub nodes: Vec<Realm>,
}

impl View for Realms {
    type V = Seq<RealmView>;

    open spec fn view(&self) -> Seq<RealmView> {
        self.nodes@.map_values(|node: Realm| node@)
    }
}

impl Realms {
    /// The realms are numbered in the order they were made, the root first;
    /// each parent was made before its children.
    pub open spec fn wf(&self) -> bool {
        &&& 0 < self.nodes@.len() <= u32::MAX
        &&& self.nodes@[0].parent is None
        &&& forall|i: int|
            #![trigger self.nodes@[i]]
            0 <= i < self.nodes@.len() ==> {
                &&& self.nodes@[i].id.0 == i
                &&& self.nodes@[i].services.wf()
                &&& match self.nodes@[i].parent {
                    Some(parent) => parent.0 < i,
                    None => true,
                }
            }
    }

    /// A tree of the root realm alone.
    pub fn new() -> (r: Self)
        ensures
            r.wf(),
            r@ == seq![RealmView { parent: None, services: Map::empty() }],
    {
        let mut nodes: Vec<Realm> = Vec::new();
        nodes.push(Realm::root());
        Realms { nodes }
    }

    /// Makes a realm below `parent` (or beside the root).
    pub fn create_realm(&mut self, parent: Option<RealmId>) -> (r: RealmId)
        requires
            old(self).wf(),
            old(self)@.len() < u32::MAX,
            parent matches Some(p) ==> p.0 < old(self)@.len(),
        ensures
            final(self).wf(),
            r.0 == old(self)@.len(),
            final(self)@ == old(self)@.push(RealmView { parent, services: Map::empty() }),
    {
        let id = RealmId(self.nodes.len() as u32);
        self.nodes.push(Realm { id, parent, services: Table::new() });
        id
    }

    /// The realm whose binding wins a lookup of `key` from `realm`, if any.
    pub fn resolving_realm(&self, realm: RealmId, key: &ServiceKey) -> (r: Option<RealmId>)
        requires
            self.wf(),
        ensures
            r == resolving(self@, realm, key.id),
    {
        let mut current: RealmId = realm;
        loop
            invariant
                self.wf(),
                resolving(self@, current, key.id) == resolving(self@, realm, key.id),
            decreases current.0,
        {
            let i = current.0 as usize;
            if i >= self.nodes.len() {
                return None;
            }
            assert(self@[i as int] == self.nodes@[i as int]@);
            if self.nodes[i].services.get(&key.id).is_some() {
                return Some(current);
            }
            match self.nodes[i].parent {
                Some(parent) => {
                    current = parent;
                },
                None => {
                    return None;
                },
            }
        }
    }

    /// Looks up a service starting at `realm` and walking up the parent
    /// chain. The innermost realm that provides the key wins.
    pub fn lookup(&self, realm: RealmId, key: &ServiceKey) -> (r: Option<ServiceId>)
        requires
            self.wf(),
        ensures
            r == resolved(self@, realm, key.id),
    {
        let mut current: RealmId = realm;
        loop
            invariant
                self.wf(),
                resolving(self@, current, key.id) == resolving(self@, realm, key.id),
            decreases current.0,
        {
            let i = current.0 as usize;
            if i >= self.nodes.len() {
                return None;
            }
            assert(self@[i as int] == self.nodes@[i as int]@);
            if let Some(service) = self.nodes[i].services.get(&key.id) {
                return Some(*service);
            }
            match self.nodes[i].parent {
                Some(parent) => {
                    current = parent;
                },
                None => {
                    return None;
                },
            }
        }
    }

    /// The realm chain from `realm` up to (and including) the root.
    pub fn realm_chain(&self, realm: RealmId) -> (r: Vec<RealmId>)
        requires
            self.wf(),
        ensures
            r@ == chain(self@, realm),
    {
        let mut out: Vec<RealmId> = Vec::new();
        let mut current: RealmId = realm;
        loop
            invariant
                self.wf(),
                out@ + chain(self@, current) == chain(self@, realm),
            decreases current.0,
        {
            out.push(current);
            let i = current.0 as usize;
            if i >= self.nodes.len() {
                return out;
            }
            assert(self@[i as int] == self.nodes@[i as int]@);
            match self.nodes[i].parent {
                Some(parent) => {
                    assert(out@ + chain(self@, parent) =~= out@.drop_last() + (seq![current]
                        + chain(self@, parent)));
                    current = parent;
                },
                None => {
                    return out;
                },
            }
        }
    }

    /// The realms directly below a realm, in the order they were made.
    pub fn children(&self, realm: RealmId) -> (r: Vec<RealmId>)
        requires
            self.wf(),
        ensures
            r@ == kids(self@, realm),
    {
        let mut out: Vec<RealmId> = Vec::new();
        let mut i: usize = 0;
        while i < self.nodes.len()
            invariant
                self.wf(),
                i <= self.nodes@.len(),
                self@.len() == self.nodes@.len(),
                out@ == kids_among(self@, realm, i as nat),
            decreases self.nodes@.len() - i,
        {
            let id = RealmId(i as u32);
            assert(self@[i as int] == self.nodes@[i as int]@);
            let below = match self.nodes[i].parent {
                Some(parent) => parent == realm,
                None => false,
            };
            if below {
                out.push(id);
            }
            i = i + 1;
        }
        out
    }

    /// Inserts a service into a realm, returning the previous entry if the
    /// key was already provided there.
    pub fn insert_service(&mut self, realm: RealmId, key: &ServiceKey, service: ServiceId) -> (r:
        Option<ServiceId>)
        requires
            old(self).wf(),
            realm.0 < old(self)@.len(),
        ensures
            final(self).wf(),
            final(self)@ == bound(old(self)@, realm, key.id, service),
            r == (if binds(old(self)@, realm, key.id) {
                Some(old(self)@[realm.0 as int].services[key.id])
            } else {
                None
            }),
    {
        let i = realm.0 as usize;
        assert(self@[i as int] == self.nodes@[i as int]@);
        let previous = self.nodes[i].services.insert(key.id, service);
        assert(self@ =~= bound(old(self)@, realm, key.id, service));
        previous
    }

    /// Whether a realm binds the key to this exact value.
    pub fn holds(&self, realm: RealmId, key: &ServiceKey, service: ServiceId) -> (r: bool)
        requires
            self.wf(),
        ensures
            r == (binds(self@, realm, key.id) && self@[realm.0 as int].services[key.id]
                == service),
    {
        let i = realm.0 as usize;
        if i >= self.nodes.len() {
            return false;
        }
        assert(self@[i as int] == self.nodes@[i as int]@);
        match self.nodes[i].services.get(&key.id) {
            Some(current) => *current == service,
            None => false,
        }
    }

    /// Removes a service only when the table still holds this exact value,
    /// so a stale cleanup cannot delete a newer replacement.
    pub fn remove_service_if(&mut self, realm: RealmId, key: &ServiceKey, service: ServiceId)
        requires
            old(self).wf(),
        ensures
            final(self).wf(),
            final(self)@ == unbound_if(old(self)@, realm, key.id, service),
    {
        let i = realm.0 as usize;
        if self.holds(realm, key, service) {
            assert(self@[i as int] == self.nodes@[i as int]@);
            let _ = self.nodes[i].services.remove(&key.id);
        }
        assert(self@ =~= unbound_if(old(self)@, realm, key.id, service));
    }
}

/// The tree after binding a type to a service in one realm.
pub open spec fn bound(
    realms: Seq<RealmView>,
    realm: RealmId,
    key: TypeId,
    service: ServiceId,
) -> Seq<RealmView> {
    realms.update(
        realm.0 as int,
        RealmView {
            parent: realms[realm.0 as int].parent,
            services: realms[realm.0 as int].services.insert(key, service),
        },
    )
}

/// The tree after taking out a binding, if it is still the given one.
pub open spec fn unbound_if(
    realms: Seq<RealmView>,
    realm: RealmId,
    key: TypeId,
    service: ServiceId,
) -> Seq<RealmView> {
    if binds(realms, realm, key) && realms[realm.0 as int].services[key] == service {
        realms.update(
            realm.0 as int,
            RealmView {
                parent: realms[realm.0 as int].parent,
                services: realms[realm.0 as int].services.remove(key),
            },
        )
    } else {
        realms
    }
}

// ---- facts on lookups ----

/// A lookup ends at a realm that binds the type.
pub proof fn lemma_resolving_binds(realms: Seq<RealmView>, realm: RealmId, key: TypeId)
    ensures
        match resolving(realms, realm, key) {
            Some(winner) => binds(realms, winner, key) && winner.0 <= realm.0,
            None => true,
        },
    decreases realm.0,
{
    if !binds(realms, realm, key) {
        if let Some(parent) = parent_of(realms, realm) {
            lemma_resolving_binds(realms, parent, key);
        }
    }
}

/// A new realm changes no lookup from the others.
pub proof fn lemma_resolving_push(
    realms: Seq<RealmView>,
    node: RealmView,
    realm: RealmId,
    key: TypeId,
)
    requires
        realm.0 < realms.len(),
    ensures
        resolving(realms.push(node), realm, key) == resolving(realms, realm, key),
    decreases realm.0,
{
    let after = realms.push(node);
    assert(after[realm.0 as int] == realms[realm.0 as int]);
    if !binds(realms, realm, key) {
        if let Some(parent) = parent_of(realms, realm) {
            lemma_resolving_push(realms, node, parent, key);
        }
    }
}

/// A binding changes only lookups of its own type, and lets none fail that
/// found something before.
pub proof fn lemma_resolving_bound(
    realms: Seq<RealmView>,
    at: RealmId,
    key: TypeId,
    service: ServiceId,
    realm: RealmId,
    other: TypeId,
)
    requires
        at.0 < realms.len(),
    ensures
        other != key ==> resolving(bound(realms, at, key, service), realm, other) == resolving(
            realms,
            realm,
            other,
        ),
        resolving(realms, realm, other) is Some ==> resolving(
            bound(realms, at, key, service),
            realm,
            other,
        ) is Some,
        binds(realms, at, key) ==> resolving(bound(realms, at, key, service), realm, other)
            == resolving(realms, realm, other),
    decreases realm.0,
{
    let after = bound(realms, at, key, service);
    assert(parent_of(after, realm) == parent_of(realms, realm));
    if let Some(parent) = parent_of(realms, realm) {
        lemma_resolving_bound(realms, at, key, service, parent, other);
    }
}

/// Taking a binding out changes only lookups that ended at it.
pub proof fn lemma_resolving_unbound(
    realms: Seq<RealmView>,
    at: RealmId,
    key: TypeId,
    service: ServiceId,
    realm: RealmId,
    other: TypeId,
)
    ensures
        other != key || resolving(realms, realm, key) != Some(at) ==> resolving(
            unbound_if(realms, at, key, service),
            realm,
            other,
        ) == resolving(realms, realm, other),
    decreases realm.0,
{
    let after = unbound_if(realms, at, key, service);
    assert(parent_of(after, realm) == parent_of(realms, realm));
    if let Some(parent) = parent_of(realms, realm) {
        lemma_resolving_unbound(realms, at, key, service, parent, other);
    }
}

} // verus!
