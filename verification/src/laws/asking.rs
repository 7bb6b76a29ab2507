//! What a kernel answers when it is asked.

use crate::context::{
    Ctx, RealmId, RealmView, ServiceId, binds, chain, kids_among, parent_of, resolved, resolving,
};
use crate::events::{EventHandler, EventKey, Events};
use crate::extract::{hard_service, soft_service};
use crate::fiber::{Fiber, FiberId, State, text_view};
use crate::kernel::Kernel;
use crate::model::{fiber_ok, is_hard, needs, tree_ok};
use crate::pipeline::PipelineHandler;
use crate::plugin::Dependency;
use crate::service::ServiceKey;
use crate::upkeep::{lemma_children, lemma_dependents};
use std::any::TypeId;
use vstd::prelude::*;
use vstd::std_specs::cmp::PartialEqSpec;

verus! {

// ---- fibers ----

/// The children of a fiber are the fibers in use that name it as their
/// parent, eldest first. The root, which is its own parent, is nobody's child.
pub proof fn law_who_the_children_are(kernel: Kernel, parent: FiberId, r: Vec<FiberId>, id: FiberId)
    requires
        kernel.wf(),
        call_ensures(Kernel::children_of, (&kernel, parent), r),
    ensures
        r@.contains(id) <==> id.0 < kernel@.fibers.len() && kernel@.fibers[id.0 as int].phase
            is Active && kernel@.fibers[id.0 as int].parent == parent && id != parent,
        forall|a: int, b: int| 0 <= a < b < r@.len() ==> (#[trigger] r@[a]).0 < (#[trigger] r@[b]).0,
{
    lemma_children(kernel@, parent);
}

/// The dependents of a binding are the plugins in use that have started, name
/// its type as a hard dependency, and find it in that very realm, eldest
/// first; the one that is left out is not among them.
pub proof fn law_who_the_dependents_are(
    kernel: Kernel,
    realm: RealmId,
    key: ServiceKey,
    exclude: FiberId,
    r: Vec<FiberId>,
    id: FiberId,
)
    requires
        kernel.wf(),
        call_ensures(Kernel::dependents_of, (&kernel, realm, &key, exclude), r),
    ensures
        ({
            let f = kernel@.fibers[id.0 as int];
            r@.contains(id) <==> {
                &&& id.0 < kernel@.fibers.len()
                &&& id != exclude
                &&& f.phase is Active
                &&& f.state is Starting || f.state is Ready
                &&& resolving(kernel@.realms, f.realm, key.id) == Some(realm)
                &&& exists|i: int|
                    0 <= i < f.inject.len() && (#[trigger] f.inject[i] matches Dependency::Hard(
                        service,
                    ) && service.id == key.id)
            }
        }),
        forall|a: int, b: int| 0 <= a < b < r@.len() ==> (#[trigger] r@[a]).0 < (#[trigger] r@[b]).0,
{
    let f = kernel@.fibers[id.0 as int];
    lemma_dependents(kernel@, realm, key.id, exclude);
    if needs(f, key.id) {
        let i = choose|i: int| 0 <= i < f.inject.len() && is_hard(#[trigger] f.inject[i], key.id);
        assert(f.inject[i] is Hard);
    }
    if exists|i: int|
        0 <= i < f.inject.len() && (#[trigger] f.inject[i] matches Dependency::Hard(service)
            && service.id == key.id) {
        let i = choose|i: int|
            0 <= i < f.inject.len() && (#[trigger] f.inject[i] matches Dependency::Hard(service)
                && service.id == key.id);
        assert(is_hard(f.inject[i], key.id));
    }
}

/// A fiber is handed out until it is gone; its state and the reason it failed
/// for are known for good.
pub proof fn law_what_is_known_of_a_fiber(
    kernel: Kernel,
    id: FiberId,
    fiber: Option<&Fiber>,
    state: Option<State>,
    failure: Option<String>,
    active: bool,
    ctx: Option<Ctx>,
)
    requires
        kernel.wf(),
        call_ensures(Kernel::fiber, (&kernel, id), fiber),
        call_ensures(Kernel::state, (&kernel, id), state),
        call_ensures(Kernel::failure, (&kernel, id), failure),
        call_ensures(Kernel::is_active, (&kernel, id), active),
        call_ensures(Kernel::ctx_of, (&kernel, id), ctx),
    ensures
        ({
            let there = id.0 < kernel@.fibers.len();
            let f = kernel@.fibers[id.0 as int];
            &&& fiber is Some <==> there && !(f.phase is Gone)
            &&& fiber matches Some(g) ==> g.id == id && g@ == f
            &&& state == if there {
                Some(f.state)
            } else {
                None
            }
            &&& there ==> text_view(failure) == f.failure
            &&& !there ==> failure is None
            &&& active <==> there && f.phase is Active
            &&& ctx is Some <==> fiber is Some
            &&& ctx matches Some(c) ==> c.fiber == id && c.realm == f.realm
            &&& active ==> fiber is Some
            &&& fiber is Some ==> !(state == Some(State::Disposed)) && !(state == Some(
                State::Failed,
            ))
        }),
{
    if id.0 < kernel@.fibers.len() {
        assert(fiber_ok(kernel@.fibers[id.0 as int]));
    }
}

/// What a kernel starts out with: a ready root fiber in an empty root realm,
/// and nothing registered.
pub proof fn law_what_kernels_start_with(kernel: Kernel, ctx: Ctx, count: usize)
    requires
        call_ensures(Kernel::new, (), kernel),
        call_ensures(Kernel::root_ctx, (&kernel,), ctx),
        call_ensures(Kernel::fiber_count, (&kernel,), count),
    ensures
        count == 1,
        ctx.fiber.0 == 0,
        ctx.realm.0 == 0,
        kernel@.fibers.len() == 1,
        kernel@.fibers[0].phase is Active,
        kernel@.fibers[0].state is Ready,
        kernel@.fibers[0].disposables.len() == 0,
        kernel@.fibers[0].tasks.len() == 0,
        kernel@.realms.len() == 1,
        kernel@.realms[0].parent is None,
        forall|key: TypeId| !#[trigger] kernel@.realms[0].services.dom().contains(key),
        kernel@.pending.len() == 0,
        kernel@.handlers.len() == 0,
        kernel@.middlewares.len() == 0,
        kernel@.families.len() == 0,
        kernel@.points.len() == 0,
{
}

// ---- realms ----

/// The way up from a realm starts with the realm, goes from each realm to its
/// parent, and ends with one that has none.
pub proof fn law_chains_go_from_child_to_parent(realms: Seq<RealmView>, realm: RealmId)
    requires
        tree_ok(realms),
        realm.0 < realms.len(),
    ensures
        ({
            let up = chain(realms, realm);
            &&& up.len() > 0
            &&& up[0] == realm
            &&& forall|i: int|
                0 <= i < up.len() - 1 ==> (#[trigger] up[i]).0 < realms.len()
                    && realms[up[i].0 as int].parent == Some(up[i + 1])
            &&& up.last().0 < realms.len()
            &&& realms[up.last().0 as int].parent is None
        }),
    decreases realm.0,
{
    let node = realms[realm.0 as int];
    if let Some(parent) = node.parent {
        law_chains_go_from_child_to_parent(realms, parent);
        let rest = chain(realms, parent);
        let up = chain(realms, realm);
        assert(up == seq![realm] + rest);
        assert forall|i: int| 0 <= i < up.len() - 1 implies (#[trigger] up[i]).0 < realms.len()
            && realms[up[i].0 as int].parent == Some(up[i + 1]) by {
            if i > 0 {
                assert(up[i] == rest[i - 1] && up[i + 1] == rest[i]);
            } else {
                assert(up[1] == rest[0]);
            }
        }
        assert(up.last() == rest.last());
    }
}

/// A lookup finds what the realm itself binds, and what its parent finds where
/// it binds nothing; at the top it finds nothing.
pub proof fn law_lookups_go_up(realms: Seq<RealmView>, realm: RealmId, key: TypeId)
    requires
        tree_ok(realms),
        realm.0 < realms.len(),
    ensures
        ({
            let node = realms[realm.0 as int];
            resolved(realms, realm, key) == if node.services.dom().contains(key) {
                Some(node.services[key])
            } else {
                match node.parent {
                    Some(parent) => resolved(realms, parent, key),
                    None => None,
                }
            }
        }),
{
}

/// The same of a context that is asked: what it finds is handed out, and what
/// it does not find is reported where it is needed.
pub proof fn law_contexts_find_what_realms_hold(
    ctx: Ctx,
    kernel: Kernel,
    key: ServiceKey,
    got: Option<ServiceId>,
    seen: Option<ServiceId>,
    soft: Option<ServiceId>,
    hard: Result<ServiceId, String>,
)
    requires
        kernel.wf(),
        ctx.realm.0 < kernel@.realms.len(),
        call_ensures(Ctx::get, (&ctx, &kernel, &key), got),
        call_ensures(Kernel::lookup, (&kernel, ctx.realm, &key), seen),
        call_ensures(soft_service, (&ctx, &kernel, &key), soft),
        call_ensures(hard_service, (&ctx, &kernel, &key), hard),
    ensures
        ({
            let node = kernel@.realms[ctx.realm.0 as int];
            &&& node.services.dom().contains(key.id) ==> got == Some(node.services[key.id])
            &&& !node.services.dom().contains(key.id) && node.parent is None ==> got is None
            &&& seen == got
            &&& soft == got
            &&& got matches Some(service) ==> hard == Ok::<ServiceId, String>(service)
            &&& got is None ==> (hard matches Err(reason) && reason@
                == "the required service "@ + key.name@ + " is missing"@)
        }),
{
    law_lookups_go_up(kernel@.realms, ctx.realm, key.id);
}

/// The realms below a realm are those that name it as their parent, in the
/// order they were made.
pub proof fn law_who_lies_below_a_realm(
    kernel: Kernel,
    realm: RealmId,
    r: Vec<RealmId>,
    below: RealmId,
)
    requires
        kernel.wf(),
        call_ensures(Kernel::realm_children, (&kernel, realm), r),
    ensures
        r@.contains(below) <==> below.0 < kernel@.realms.len()
            && kernel@.realms[below.0 as int].parent == Some(realm),
        forall|a: int, b: int| 0 <= a < b < r@.len() ==> (#[trigger] r@[a]).0 < (#[trigger] r@[b]).0,
{
    lemma_kids(kernel@.realms, realm, kernel@.realms.len());
    if r@.contains(below) {
        let a = choose|a: int| 0 <= a < r@.len() && r@[a] == below;
        assert(r@[a].0 < kernel@.realms.len());
    }
}

pub proof fn lemma_kids(realms: Seq<RealmView>, realm: RealmId, n: nat)
    requires
        n <= realms.len() <= u32::MAX,
        tree_ok(realms),
    ensures
        ({
            let out = kids_among(realms, realm, n);
            &&& forall|a: int|
                0 <= a < out.len() ==> (#[trigger] out[a]).0 < n && realms[out[a].0 as int].parent
                    == Some(realm)
            &&& forall|x: RealmId|
                x.0 < n && (#[trigger] realms[x.0 as int]).parent == Some(realm) ==> out.contains(x)
            &&& forall|a: int, b: int|
                0 <= a < b < out.len() ==> (#[trigger] out[a]).0 < (#[trigger] out[b]).0
        }),
    decreases n,
{
    if n > 0 {
        let m = (n - 1) as nat;
        lemma_kids(realms, realm, m);
        let front = kids_among(realms, realm, m);
        let out = kids_among(realms, realm, n);
        let last = RealmId(m as u32);
        assert(realms[last.0 as int] == realms[m as int]);
        assert(parent_of(realms, last) == realms[m as int].parent);
        assert forall|x: RealmId|
            x.0 < n && (#[trigger] realms[x.0 as int]).parent == Some(realm) implies out.contains(
            x,
        ) by {
            if x.0 < m {
                assert(front.contains(x));
                let a = choose|a: int| 0 <= a < front.len() && front[a] == x;
                assert(out[a] == x);
            } else {
                assert(x == last);
                assert(out[out.len() - 1] == last);
            }
        }
        assert forall|a: int| 0 <= a < out.len() implies (#[trigger] out[a]).0 < n
            && realms[out[a].0 as int].parent == Some(realm) by {
            if a < front.len() {
                assert(out[a] == front[a]);
            }
        }
        assert forall|a: int, b: int| 0 <= a < b < out.len() implies (#[trigger] out[a]).0 < (
        #[trigger] out[b]).0 by {
            assert(out[a] == front[a]);
            if b < front.len() {
                assert(out[b] == front[b]);
            }
        }
    }
}

// ---- contexts and keys ----

/// A context acts for its own fiber, in its own realm.
pub proof fn law_contexts_are_what_they_are(
    ctx: Ctx,
    fiber: FiberId,
    realm: RealmId,
    events: Events,
)
    requires
        call_ensures(Ctx::fiber_id, (&ctx,), fiber),
        call_ensures(Ctx::realm_id, (&ctx,), realm),
        call_ensures(Ctx::events, (&ctx,), events),
    ensures
        fiber == ctx.fiber,
        realm == ctx.realm,
        events.realm == ctx.realm,
{
}

/// What a kernel lists is everything it holds, in order.
pub proof fn law_kernels_list_what_they_hold(
    kernel: Kernel,
    pending: &Vec<FiberId>,
    handlers: &Vec<EventHandler>,
    families: &Vec<EventKey>,
    middlewares: &Vec<PipelineHandler>,
    realms: usize,
    fibers: usize,
)
    requires
        kernel.wf(),
        call_ensures(Kernel::pending_ids, (&kernel,), pending),
        call_ensures(Kernel::event_handlers, (&kernel,), handlers),
        call_ensures(Kernel::event_families, (&kernel,), families),
        call_ensures(Kernel::pipeline_handlers, (&kernel,), middlewares),
        call_ensures(Kernel::realm_count, (&kernel,), realms),
        call_ensures(Kernel::fiber_count, (&kernel,), fibers),
    ensures
        pending@ == kernel@.pending,
        handlers@ == kernel@.handlers,
        families@ == kernel@.families,
        middlewares@ == kernel@.middlewares,
        realms == kernel@.realms.len(),
        fibers == kernel@.fibers.len(),
{
}

/// A dependency names the service it was made for, hard or soft as it was
/// made; a bare key is a hard one. Two are equal exactly where both are hard
/// or both soft, and on the same type.
pub proof fn law_dependencies_are_what_they_were_made(
    key: ServiceKey,
    other: ServiceKey,
    hard: Dependency,
    soft: Dependency,
    is_soft: bool,
    named: &ServiceKey,
)
    requires
        call_ensures(Dependency::hard, (key,), hard),
        call_ensures(Dependency::soft, (other,), soft),
        call_ensures(Dependency::is_soft, (&soft,), is_soft),
        call_ensures(Dependency::key, (&hard,), named),
    ensures
        hard == Dependency::Hard(key),
        soft == Dependency::Soft(other),
        is_soft,
        *named == key,
        !hard.eq_spec(&soft),
        hard.eq_spec(&Dependency::Hard(other)) <==> key.id == other.id,
        soft.eq_spec(&Dependency::Soft(key)) <==> key.id == other.id,
{
}

/// Asked where a type resolves, a kernel names the first realm on the way up
/// that binds it, and none where none does; the way up starts at the realm
/// and goes from child to parent to the top.
pub proof fn law_where_types_resolve(
    kernel: Kernel,
    realm: RealmId,
    key: ServiceKey,
    up: Vec<RealmId>,
    at: Option<RealmId>,
    above: Option<RealmId>,
    parent: RealmId,
)
    requires
        kernel.wf(),
        realm.0 < kernel@.realms.len(),
        call_ensures(Kernel::realm_chain, (&kernel, realm), up),
        call_ensures(Kernel::resolving_realm, (&kernel, realm, &key), at),
        call_ensures(Kernel::resolving_realm, (&kernel, parent, &key), above),
    ensures
        up@.len() > 0,
        up@[0] == realm,
        forall|i: int|
            0 <= i < up@.len() - 1 ==> kernel@.realms[(#[trigger] up@[i]).0 as int].parent == Some(
                up@[i + 1],
            ),
        kernel@.realms[up@[up@.len() - 1].0 as int].parent is None,
        ({
            let node = kernel@.realms[realm.0 as int];
            &&& node.services.dom().contains(key.id) ==> at == Some(realm)
            &&& !node.services.dom().contains(key.id) && node.parent is None ==> at is None
            &&& !node.services.dom().contains(key.id) && node.parent == Some(parent) ==> at == above
        }),
{
    law_chains_go_from_child_to_parent(kernel@.realms, realm);
}

} // verus!
