//! Realms isolate: services resolve downward only, and the innermost binding
//! wins.

use crate::context::{
    RealmId, RealmView, ServiceId, binds, bound, chain, descends, lemma_resolving_bound,
    lemma_resolving_push, parent_of, resolved, resolving, unbound_if,
};
use crate::model::{KernelView, bound_to, tree_ok, with_realm};
use std::any::TypeId;
use vstd::prelude::*;

verus! {

/// A realm sees its own and its ancestors' services and no others, and the
/// innermost one wins: a lookup ends at the first realm on the way up that
/// binds the type, and fails exactly where none does.
pub proof fn law_innermost_binding_wins(realms: Seq<RealmView>, realm: RealmId, key: TypeId)
    ensures
        match resolving(realms, realm, key) {
            Some(winner) => exists|n: int|
                0 <= n < chain(realms, realm).len() && #[trigger] chain(realms, realm)[n]
                    == winner && binds(realms, winner, key) && forall|i: int|
                    0 <= i < n ==> !binds(realms, #[trigger] chain(realms, realm)[i], key),
            None => forall|i: int|
                0 <= i < chain(realms, realm).len() ==> !binds(
                    realms,
                    #[trigger] chain(realms, realm)[i],
                    key,
                ),
        },
    decreases realm.0,
{
    let all = chain(realms, realm);
    if binds(realms, realm, key) {
        assert(all[0] == realm);
    } else {
        match parent_of(realms, realm) {
            Some(parent) => {
                law_innermost_binding_wins(realms, parent, key);
                let above = chain(realms, parent);
                assert(all =~= seq![realm] + above);
                if let Some(winner) = resolving(realms, parent, key) {
                    let n = choose|n: int|
                        0 <= n < above.len() && #[trigger] above[n] == winner && binds(
                            realms,
                            winner,
                            key,
                        ) && forall|i: int| 0 <= i < n ==> !binds(realms, #[trigger] above[i], key);
                    assert(all[n + 1] == winner);
                    assert forall|i: int| 0 <= i < n + 1 implies !binds(
                        realms,
                        #[trigger] all[i],
                        key,
                    ) by {
                        if i > 0 {
                            assert(all[i] == above[i - 1]);
                        }
                    }
                } else {
                    assert forall|i: int| 0 <= i < all.len() implies !binds(
                        realms,
                        #[trigger] all[i],
                        key,
                    ) by {
                        if i > 0 {
                            assert(all[i] == above[i - 1]);
                        }
                    }
                }
            },
            None => {},
        }
    }
}

/// The realms on the way up from a realm are the realm itself and those it
/// descends from.
pub proof fn law_chain_holds_the_ancestors(
    realms: Seq<RealmView>,
    realm: RealmId,
    ancestor: RealmId,
)
    ensures
        chain(realms, realm).contains(ancestor) <==> realm == ancestor || descends(
            realms,
            realm,
            ancestor,
        ),
    decreases realm.0,
{
    let all = chain(realms, realm);
    assert(all[0] == realm);
    match parent_of(realms, realm) {
        Some(parent) => {
            law_chain_holds_the_ancestors(realms, parent, ancestor);
            let above = chain(realms, parent);
            assert(all =~= seq![realm] + above);
            if above.contains(ancestor) {
                let i = choose|i: int| 0 <= i < above.len() && above[i] == ancestor;
                assert(all[i + 1] == ancestor);
            }
            if all.contains(ancestor) && realm != ancestor {
                let i = choose|i: int| 0 <= i < all.len() && all[i] == ancestor;
                assert(above[i - 1] == ancestor);
            }
        },
        None => {
            assert(all =~= seq![realm]);
        },
    }
}

/// Services resolve downward only: a service provided in a realm changes no
/// lookup from a realm that is neither that one nor below it. Parents never
/// see their children's services, siblings never each other's.
pub proof fn law_services_resolve_downward_only(
    realms: Seq<RealmView>,
    at: RealmId,
    key: TypeId,
    service: ServiceId,
    realm: RealmId,
    other: TypeId,
)
    requires
        at.0 < realms.len(),
        realm != at,
        !descends(realms, realm, at),
    ensures
        resolved(bound(realms, at, key, service), realm, other) == resolved(realms, realm, other),
    decreases realm.0,
{
    let after = bound(realms, at, key, service);
    assert(parent_of(after, realm) == parent_of(realms, realm));
    assert(binds(after, realm, other) == binds(realms, realm, other));
    if !binds(realms, realm, other) {
        if let Some(parent) = parent_of(realms, realm) {
            law_services_resolve_downward_only(realms, at, key, service, parent, other);
        }
    }
}

/// What was provided in a realm is what the realm reads back, and what every
/// realm below it reads that has no binding of its own, or of a realm in
/// between.
pub proof fn law_provided_services_are_read_back(
    realms: Seq<RealmView>,
    at: RealmId,
    key: TypeId,
    service: ServiceId,
    realm: RealmId,
)
    requires
        at.0 < realms.len(),
        realm == at || descends(realms, realm, at),
    ensures
        realm == at ==> resolved(bound(realms, at, key, service), realm, key) == Some(service),
        !resolves_below(realms, at, key, realm) ==> resolved(
            bound(realms, at, key, service),
            realm,
            key,
        ) == Some(service),
    decreases realm.0,
{
    let after = bound(realms, at, key, service);
    assert(parent_of(after, realm) == parent_of(realms, realm));
    if realm != at {
        assert(binds(after, realm, key) == binds(realms, realm, key));
        if let Some(parent) = parent_of(realms, realm) {
            if parent != at {
                law_provided_services_are_read_back(realms, at, key, service, parent);
            }
        }
    }
}

/// Whether a realm strictly below `at`, on the way up from `realm`, binds the
/// type.
pub open spec fn resolves_below(
    realms: Seq<RealmView>,
    at: RealmId,
    key: TypeId,
    realm: RealmId,
) -> bool
    decreases realm.0,
{
    realm != at && (binds(realms, realm, key) || match parent_of(realms, realm) {
        Some(parent) => resolves_below(realms, at, key, parent),
        None => false,
    })
}

/// A fresh realm sees what its parent sees, and changes nothing for the
/// others.
pub proof fn law_derived_realms_inherit(
    k: KernelView,
    parent: RealmId,
    realm: RealmId,
    key: TypeId,
)
    requires
        tree_ok(k.realms),
        k.realms.len() <= u32::MAX,
        parent.0 < k.realms.len(),
        realm.0 < k.realms.len(),
    ensures
        resolved(
            with_realm(k, Some(parent)).realms,
            RealmId(k.realms.len() as u32),
            key,
        ) == resolved(k.realms, parent, key),
        resolved(with_realm(k, Some(parent)).realms, realm, key) == resolved(
            k.realms,
            realm,
            key,
        ),
        descends(with_realm(k, Some(parent)).realms, RealmId(k.realms.len() as u32), parent),
{
    let node = RealmView { parent: Some(parent), services: Map::empty() };
    let after = with_realm(k, Some(parent)).realms;
    let fresh = RealmId(k.realms.len() as u32);
    assert(after == k.realms.push(node));
    lemma_resolving_push(k.realms, node, parent, key);
    lemma_resolving_push(k.realms, node, realm, key);
    lemma_winner_exists(k.realms, parent, key);
    lemma_winner_exists(k.realms, realm, key);
    assert(parent_of(after, fresh) == Some(parent));
    assert(!binds(after, fresh, key));
}

proof fn lemma_winner_exists(realms: Seq<RealmView>, realm: RealmId, key: TypeId)
    ensures
        resolving(realms, realm, key) matches Some(winner) ==> winner.0 < realms.len(),
    decreases realm.0,
{
    if !binds(realms, realm, key) {
        if let Some(parent) = parent_of(realms, realm) {
            lemma_winner_exists(realms, parent, key);
        }
    }
}

/// A stale cleanup cannot delete a newer replacement: taking back a service
/// that is no longer the one bound changes nothing, and taking back the one
/// that is leaves the realm without a binding.
pub proof fn law_stale_cleanups_spare_replacements(
    realms: Seq<RealmView>,
    at: RealmId,
    key: TypeId,
    stale: ServiceId,
    newer: ServiceId,
)
    requires
        at.0 < realms.len(),
        stale != newer,
    ensures
        unbound_if(bound(realms, at, key, newer), at, key, stale) == bound(
            realms,
            at,
            key,
            newer,
        ),
        !binds(unbound_if(bound(realms, at, key, newer), at, key, newer), at, key),
        !bound_to(unbound_if(realms, at, key, stale), at, key, stale),
{
}

/// Replacing a service moves no lookup to another realm: whoever resolved the
/// type resolves it at the same realm as before.
pub proof fn law_replacing_moves_no_lookup(
    realms: Seq<RealmView>,
    at: RealmId,
    key: TypeId,
    service: ServiceId,
    realm: RealmId,
    other: TypeId,
)
    requires
        binds(realms, at, key),
    ensures
        resolving(bound(realms, at, key, service), realm, other) == resolving(
            realms,
            realm,
            other,
        ),
{
    lemma_resolving_bound(realms, at, key, service, realm, other);
}

} // verus!
