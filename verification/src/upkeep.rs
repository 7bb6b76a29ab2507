//! Every operation keeps what always holds of a kernel.

use crate::context::{
    Ctx, RealmId, RealmView, ServiceId, binds, lemma_resolving_bound, lemma_resolving_push,
    lemma_resolving_unbound, resolving, unbound_if,
};
use crate::events::{EventHandler, EventKey};
use crate::fiber::{Disposable, FiberId, FiberView, Phase, Stage, State, Task};
use crate::model::{
    KernelView, begin, bound_to, child_of, children, crossed_off, ctx_ok, dependent_on, dependents,
    depends, drain_step, fiber_ok, fiber_step, fibers_ok, fresh_kernel, handlers_ok, is_active,
    is_disposing, is_hard, is_live, kernel_ok, met, middlewares_ok, needs, other_handler,
    other_middleware, other_than, owned, owns, pending_ok, running, satisfied, services_ok,
    setup_done, setup_failed, sheltered, shelters, start, start_all, started, supplied, takes_back,
    tree_ok, unqueued, with_disposable, with_fiber, with_handler, with_middleware, with_plugin,
    with_realm, with_scope, with_service, with_tasks,
};
use crate::pipeline::PipelineHandler;
use crate::plugin::PluginView;
use crate::seqs::{
    lemma_filter_contains, lemma_filter_ordered, lemma_filter_unique, lemma_ids_where,
};
use crate::service::ServiceKey;
use std::any::TypeId;
use vstd::prelude::*;

verus! {

/// Whether every fiber of `k` has in `k2` what it had to clean up, and
/// perhaps more.
pub open spec fn keeps_disposables(k: KernelView, k2: KernelView) -> bool {
    &&& k.fibers.len() <= k2.fibers.len()
    &&& forall|i: int, j: int|
        0 <= i < k.fibers.len() && 0 <= j < k.fibers[i].disposables.len() ==> j
            < k2.fibers[i].disposables.len() && #[trigger] k2.fibers[i].disposables[j]
            == #[trigger] k.fibers[i].disposables[j]
}

/// Where nothing to clean up is lost, every registration keeps its fiber.
pub proof fn lemma_registries(k: KernelView, k2: KernelView)
    requires
        services_ok(k),
        handlers_ok(k),
        middlewares_ok(k),
        keeps_disposables(k, k2),
        k2.realms == k.realms,
        k2.handlers == k.handlers,
        k2.middlewares == k.middlewares,
        k.next_handler <= k2.next_handler <= u64::MAX,
    ensures
        services_ok(k2),
        handlers_ok(k2),
        middlewares_ok(k2),
{
    assert forall|realm: RealmId, key: TypeId|
        #![trigger binds(k2.realms, realm, key)]
        binds(k2.realms, realm, key) implies owned(
        k2,
        realm,
        key,
        k2.realms[realm.0 as int].services[key],
    ) by {
        assert(binds(k.realms, realm, key));
        let service = k.realms[realm.0 as int].services[key];
        assert(owned(k, realm, key, service));
        let i = choose|i: int|
            0 <= i < k.fibers.len() && owns(#[trigger] k.fibers[i], realm, key, service);
        let j = choose|j: int|
            0 <= j < k.fibers[i].disposables.len() && takes_back(
                #[trigger] k.fibers[i].disposables[j],
                realm,
                key,
                service,
            );
        assert(k2.fibers[i].disposables[j] == k.fibers[i].disposables[j]);
        assert(owns(k2.fibers[i], realm, key, service));
    }
    assert forall|i: int| #![trigger k2.handlers[i]] 0 <= i < k2.handlers.len() implies ({
        let h = k2.handlers[i];
        &&& h.id < k2.next_handler
        &&& h.fiber.0 < k2.fibers.len()
        &&& k2.fibers[h.fiber.0 as int].disposables.contains(Disposable::Handler(h.key, h.id))
    }) by {
        let h = k.handlers[i];
        let d = Disposable::Handler(h.key, h.id);
        let f = h.fiber.0 as int;
        assert(k.fibers[f].disposables.contains(d));
        let j = choose|j: int|
            0 <= j < k.fibers[f].disposables.len() && k.fibers[f].disposables[j] == d;
        assert(k2.fibers[f].disposables[j] == k.fibers[f].disposables[j]);
    }
    assert forall|i: int| #![trigger k2.middlewares[i]] 0 <= i < k2.middlewares.len() implies ({
        let m = k2.middlewares[i];
        &&& m.id < k2.next_handler
        &&& m.fiber.0 < k2.fibers.len()
        &&& k2.fibers[m.fiber.0 as int].disposables.contains(Disposable::Middleware(m.point, m.id))
    }) by {
        let m = k.middlewares[i];
        let d = Disposable::Middleware(m.point, m.id);
        let f = m.fiber.0 as int;
        assert(k.fibers[f].disposables.contains(d));
        let j = choose|j: int|
            0 <= j < k.fibers[f].disposables.len() && k.fibers[f].disposables[j] == d;
        assert(k2.fibers[f].disposables[j] == k.fibers[f].disposables[j]);
    }
}

/// A fresh kernel is in order.
pub proof fn lemma_fresh_ok()
    ensures
        kernel_ok(fresh_kernel()),
{
    let k = fresh_kernel();
    assert(k.fibers[0].parent == FiberId(0));
}

/// A new realm keeps the kernel in order.
pub proof fn lemma_realm_ok(k: KernelView, parent: Option<RealmId>)
    requires
        kernel_ok(k),
        k.realms.len() < u32::MAX,
        parent matches Some(p) ==> p.0 < k.realms.len(),
    ensures
        kernel_ok(with_realm(k, parent)),
{
    let node = RealmView { parent, services: Map::empty() };
    let k2 = with_realm(k, parent);
    assert forall|i: int| 0 <= i < k2.fibers.len() implies supplied(
        k2.realms,
        #[trigger] k2.fibers[i],
    ) by {
        let f = k.fibers[i];
        assert(supplied(k.realms, f));
        assert forall|key: TypeId|
            #![trigger resolving(k2.realms, f.realm, key)]
            resolving(k2.realms, f.realm, key) == resolving(k.realms, f.realm, key) by {
            lemma_resolving_push(k.realms, node, f.realm, key);
        }
    }
    assert forall|i: int| 0 <= i < k2.fibers.len() implies #[trigger] sheltered(k2, i) by {
        assert(sheltered(k, i));
    }
    assert forall|realm: RealmId, key: TypeId|
        #![trigger binds(k2.realms, realm, key)]
        binds(k2.realms, realm, key) implies owned(
        k2,
        realm,
        key,
        k2.realms[realm.0 as int].services[key],
    ) by {
        assert(binds(k.realms, realm, key));
        let service = k.realms[realm.0 as int].services[key];
        assert(owned(k, realm, key, service));
        let i = choose|i: int|
            0 <= i < k.fibers.len() && owns(#[trigger] k.fibers[i], realm, key, service);
        assert(owns(k2.fibers[i], realm, key, service));
    }
}

/// Changing one fiber keeps the kernel in order, if the fiber itself is in
/// order, keeps its place and what it had to clean up, leaves no child in use
/// behind, and the queue fits.
pub proof fn lemma_change_ok(k: KernelView, k2: KernelView, id: FiberId)
    requires
        kernel_ok(k),
        id.0 < k.fibers.len(),
        k2.fibers == k.fibers.update(id.0 as int, k2.fibers[id.0 as int]),
        k2.realms == k.realms,
        k2.handlers == k.handlers,
        k2.middlewares == k.middlewares,
        k2.next_handler == k.next_handler,
        k2.fibers[id.0 as int].parent == k.fibers[id.0 as int].parent,
        k2.fibers[id.0 as int].realm == k.fibers[id.0 as int].realm,
        fiber_ok(k2.fibers[id.0 as int]),
        supplied(k.realms, k2.fibers[id.0 as int]),
        k2.fibers[id.0 as int].phase is Active ==> k.fibers[id.0 as int].phase is Active,
        shelters(k.fibers[id.0 as int].phase) ==> shelters(k2.fibers[id.0 as int].phase) || (
        forall|i: int|
            0 <= i < k.fibers.len() && i != id.0 && (#[trigger] k.fibers[i]).parent == id
                ==> !(k.fibers[i].phase is Active)),
        keeps_disposables(k, k2),
        pending_ok(k2),
    ensures
        kernel_ok(k2),
{
    lemma_registries(k, k2);
    assert forall|i: int| #![trigger k2.fibers[i]] 0 <= i < k2.fibers.len() implies ({
        &&& fiber_ok(k2.fibers[i])
        &&& k2.fibers[i].realm.0 < k2.realms.len()
        &&& i > 0 ==> k2.fibers[i].parent.0 < i
        &&& i == 0 ==> k2.fibers[i].parent.0 == 0
        &&& supplied(k2.realms, k2.fibers[i])
    }) by {
        assert(k2.fibers[i].parent == k.fibers[i].parent);
    }
    assert forall|i: int| 0 <= i < k2.fibers.len() implies #[trigger] sheltered(k2, i) by {
        if i > 0 && k2.fibers[i].phase is Active {
            let p = k.fibers[i].parent.0 as int;
            assert(sheltered(k, i));
            assert(k.fibers[i].phase is Active);
            assert(k2.fibers[i].parent == k.fibers[i].parent);
            if p == id.0 {
                assert(k.fibers[i].parent == id);
            }
        }
    }
}

/// Taking a fiber out of the queue.
pub proof fn lemma_unqueued(pending: Seq<FiberId>, id: FiberId)
    requires
        pending.no_duplicates(),
    ensures
        unqueued(pending, id).no_duplicates(),
        forall|p: FiberId| #[trigger]
            unqueued(pending, id).contains(p) <==> pending.contains(p) && p != id,
{
    let keep = other_than(id);
    lemma_filter_unique(pending, keep);
    lemma_filter_contains(pending, keep);
}

/// Starting a disposal keeps the kernel in order.
pub proof fn lemma_begin_ok(k: KernelView, id: FiberId, outcome: State)
    requires
        kernel_ok(k),
        outcome is Failed || outcome is Disposed,
    ensures
        kernel_ok(begin(k, id, outcome)),
{
    if is_active(k, id) {
        let k2 = begin(k, id, outcome);
        lemma_unqueued(k.pending, id);
        assert(pending_ok(k2)) by {
            assert forall|p: FiberId| #[trigger]
                k2.pending.contains(p) <==> p.0 < k2.fibers.len() && k2.fibers[p.0 as int].phase
                    is Active && k2.fibers[p.0 as int].state is Pending by {
                assert(k2.pending.contains(p) <==> k.pending.contains(p) && p != id);
            }
        }
        lemma_change_ok(k, k2, id);
    }
}

/// Starting a waiting fiber whose hard dependencies resolve keeps the kernel
/// in order.
pub proof fn lemma_start_ok(k: KernelView, id: FiberId)
    requires
        kernel_ok(k),
        k.pending.contains(id),
        forall|key: TypeId|
            #![trigger resolving(k.realms, k.fibers[id.0 as int].realm, key)]
            needs(k.fibers[id.0 as int], key) ==> resolving(
                k.realms,
                k.fibers[id.0 as int].realm,
                key,
            ) is Some,
    ensures
        kernel_ok(start(k, id)),
{
    let k2 = start(k, id);
    lemma_unqueued(k.pending, id);
    assert(pending_ok(k2)) by {
        assert forall|p: FiberId| #[trigger]
            k2.pending.contains(p) <==> p.0 < k2.fibers.len() && k2.fibers[p.0 as int].phase
                is Active && k2.fibers[p.0 as int].state is Pending by {
            assert(k2.pending.contains(p) <==> k.pending.contains(p) && p != id);
        }
    }
    lemma_change_ok(k, k2, id);
}

/// What starting fibers one after the other comes to: those fibers run their
/// setup and have left the queue, and nothing else has changed.
pub proof fn lemma_start_all(k: KernelView, ids: Seq<FiberId>)
    requires
        kernel_ok(k),
        ids.no_duplicates(),
        forall|i: int| 0 <= i < ids.len() ==> k.pending.contains(#[trigger] ids[i]) && satisfied(
            k,
            ids[i],
        ),
    ensures
        kernel_ok(start_all(k, ids)),
        start_all(k, ids).fibers.len() == k.fibers.len(),
        forall|i: int|
            0 <= i < k.fibers.len() ==> #[trigger] start_all(k, ids).fibers[i] == (
            if ids.contains(FiberId(i as u32)) {
                started(k.fibers[i])
            } else {
                k.fibers[i]
            }),
        forall|p: FiberId| #[trigger]
            start_all(k, ids).pending.contains(p) <==> k.pending.contains(p) && !ids.contains(p),
        start_all(k, ids) == (KernelView {
            fibers: start_all(k, ids).fibers,
            pending: start_all(k, ids).pending,
            ..k
        }),
    decreases ids.len(),
{
    if ids.len() > 0 {
        let front = ids.drop_last();
        let id = ids.last();
        assert(ids.contains(id)) by {
            assert(ids[ids.len() - 1] == id);
        }
        assert forall|i: int| 0 <= i < front.len() implies k.pending.contains(#[trigger] front[i])
            && satisfied(k, front[i]) by {
            assert(front[i] == ids[i]);
        }
        lemma_start_all(k, front);
        let mid = start_all(k, front);
        assert(k.pending.contains(ids[ids.len() - 1]));
        assert(!front.contains(id)) by {
            if front.contains(id) {
                let i = choose|i: int| 0 <= i < front.len() && front[i] == id;
                assert(ids[i] == ids[ids.len() - 1]);
            }
        }
        assert(mid.pending.contains(id));
        assert(mid.fibers[id.0 as int] == k.fibers[id.0 as int]) by {
            assert(FiberId(id.0 as int as u32) == id);
        }
        assert forall|key: TypeId|
            #![trigger resolving(mid.realms, mid.fibers[id.0 as int].realm, key)]
            needs(mid.fibers[id.0 as int], key) implies resolving(
            mid.realms,
            mid.fibers[id.0 as int].realm,
            key,
        ) is Some by {
            let f = k.fibers[id.0 as int];
            let i = choose|i: int| 0 <= i < f.inject.len() && is_hard(#[trigger] f.inject[i], key);
            assert(satisfied(k, id));
            assert(met(k, id, f.inject[i]));
        }
        lemma_start_ok(mid, id);
        lemma_unqueued(mid.pending, id);
        assert forall|p: FiberId| #[trigger] ids.contains(p) <==> front.contains(p) || p == id by {
            if ids.contains(p) {
                let i = choose|i: int| 0 <= i < ids.len() && ids[i] == p;
                if i < front.len() {
                    assert(front[i] == p);
                }
            }
            if front.contains(p) {
                let i = choose|i: int| 0 <= i < front.len() && front[i] == p;
                assert(ids[i] == p);
            }
        }
        let k2 = start_all(k, ids);
        assert forall|i: int| 0 <= i < k.fibers.len() implies #[trigger] k2.fibers[i] == (
        if ids.contains(FiberId(i as u32)) {
            started(k.fibers[i])
        } else {
            k.fibers[i]
        }) by {
            if i == id.0 {
                assert(FiberId(i as u32) == id);
            } else {
                assert(FiberId(i as u32) != id);
                assert(k2.fibers[i] == mid.fibers[i]);
            }
        }
        assert forall|p: FiberId| #[trigger] k2.pending.contains(p) <==> k.pending.contains(p)
            && !ids.contains(p) by {
            assert(k2.pending.contains(p) <==> mid.pending.contains(p) && p != id);
        }
    }
}

/// The end of a setup keeps the kernel in order.
pub proof fn lemma_setup_ok(k: KernelView, id: FiberId, reason: Seq<char>)
    requires
        kernel_ok(k),
    ensures
        kernel_ok(setup_done(k, id)),
        kernel_ok(setup_failed(k, id, reason)),
{
    if is_active(k, id) && k.fibers[id.0 as int].setup {
        let k2 = setup_done(k, id);
        assert(pending_ok(k2)) by {
            assert forall|p: FiberId| #[trigger]
                k2.pending.contains(p) <==> p.0 < k2.fibers.len() && k2.fibers[p.0 as int].phase
                    is Active && k2.fibers[p.0 as int].state is Pending by {
                assert(k.pending.contains(p) == k2.pending.contains(p));
            }
        }
        assert(supplied(k.realms, k2.fibers[id.0 as int])) by {
            assert(supplied(k.realms, k.fibers[id.0 as int]));
            assert(k2.fibers[id.0 as int].inject == k.fibers[id.0 as int].inject);
            assert forall|key: TypeId| needs(k2.fibers[id.0 as int], key) implies needs(
                k.fibers[id.0 as int],
                key,
            ) by {}
        }
        lemma_change_ok(k, k2, id);
        let mid = with_fiber(
            k,
            id,
            FiberView { failure: Some(reason), ..k.fibers[id.0 as int] },
        );
        assert(pending_ok(mid)) by {
            assert forall|p: FiberId| #[trigger]
                mid.pending.contains(p) <==> p.0 < mid.fibers.len() && mid.fibers[p.0 as int].phase
                    is Active && mid.fibers[p.0 as int].state is Pending by {
                assert(k.pending.contains(p) == mid.pending.contains(p));
            }
        }
        assert(supplied(k.realms, mid.fibers[id.0 as int])) by {
            assert(supplied(k.realms, k.fibers[id.0 as int]));
            assert forall|key: TypeId| needs(mid.fibers[id.0 as int], key) implies needs(
                k.fibers[id.0 as int],
                key,
            ) by {}
        }
        lemma_change_ok(k, mid, id);
        lemma_begin_ok(mid, id, State::Failed);
    }
}

/// A new fiber below one in use keeps the kernel in order.
pub proof fn lemma_plugin_ok(
    k: KernelView,
    ctx: Ctx,
    plugin: PluginView,
    name: Seq<char>,
)
    requires
        kernel_ok(k),
        ctx_ok(k, ctx),
        k.fibers.len() < u32::MAX,
    ensures
        kernel_ok(with_plugin(k, ctx, plugin)),
        kernel_ok(with_scope(k, ctx, name)),
{
    let id = FiberId(k.fibers.len() as u32);
    let k2 = with_plugin(k, ctx, plugin);
    lemma_registries(k, k2);
    assert forall|i: int| 0 <= i < k2.fibers.len() implies #[trigger] sheltered(k2, i) by {
        if i < k.fibers.len() {
            assert(sheltered(k, i));
            assert(k2.fibers[i] == k.fibers[i]);
            if i > 0 {
                assert(k.fibers[i].parent.0 < i);
            }
        }
    }
    assert(pending_ok(k2)) by {
        assert(!k.pending.contains(id));
        assert forall|p: FiberId| #[trigger]
            k2.pending.contains(p) <==> p.0 < k2.fibers.len() && k2.fibers[p.0 as int].phase
                is Active && k2.fibers[p.0 as int].state is Pending by {
            assert(k.pending.contains(p) ==> k2.pending.contains(p)) by {
                if k.pending.contains(p) {
                    let j = choose|j: int| 0 <= j < k.pending.len() && k.pending[j] == p;
                    assert(k2.pending[j] == p);
                }
            }
            if is_active(k, ctx.fiber) {
                assert(k2.pending[k.pending.len() as int] == id);
                if k2.pending.contains(p) && p != id {
                    let j = choose|j: int| 0 <= j < k2.pending.len() && k2.pending[j] == p;
                    assert(k.pending[j] == p);
                }
            } else {
                assert(k2.pending == k.pending);
            }
            if p.0 < k.fibers.len() {
                assert(k2.fibers[p.0 as int] == k.fibers[p.0 as int]);
            } else if p.0 < k2.fibers.len() {
                assert(p == id);
            }
            assert(k.pending.contains(p) <==> p.0 < k.fibers.len()
                && k.fibers[p.0 as int].phase is Active && k.fibers[p.0 as int].state is Pending);
        }
        assert(k2.pending.no_duplicates()) by {
            assert forall|i: int, j: int|
                0 <= i < k2.pending.len() && 0 <= j < k2.pending.len() && i != j implies
                k2.pending[i] != k2.pending[j] by {
                if i < k.pending.len() {
                    assert(k.pending.contains(k.pending[i]));
                }
                if j < k.pending.len() {
                    assert(k.pending.contains(k.pending[j]));
                }
            }
        }
    }
    assert(supplied(k2.realms, k2.fibers[k.fibers.len() as int]));
    let k3 = with_scope(k, ctx, name);
    lemma_registries(k, k3);
    assert forall|i: int| 0 <= i < k3.fibers.len() implies #[trigger] sheltered(k3, i) by {
        if i < k.fibers.len() {
            assert(sheltered(k, i));
            assert(k3.fibers[i] == k.fibers[i]);
            if i > 0 {
                assert(k.fibers[i].parent.0 < i);
            }
        }
    }
    assert forall|key: TypeId| !needs(k3.fibers[k.fibers.len() as int], key) by {}
    assert(pending_ok(k3)) by {
        assert forall|p: FiberId| #[trigger]
            k3.pending.contains(p) <==> p.0 < k3.fibers.len() && k3.fibers[p.0 as int].phase
                is Active && k3.fibers[p.0 as int].state is Pending by {
            assert(k3.pending.contains(p) == k.pending.contains(p));
        }
    }
}

/// Changing the tasks of a live fiber keeps the kernel in order.
pub proof fn lemma_tasks_ok(k: KernelView, id: FiberId, tasks: Seq<Task>)
    requires
        kernel_ok(k),
        is_live(k, id),
        is_active(k, id) || tasks.len() <= k.fibers[id.0 as int].tasks.len(),
    ensures
        kernel_ok(with_tasks(k, id, tasks)),
{
    let k2 = with_tasks(k, id, tasks);
    lemma_same_queue(k, k2, id);
    lemma_same_needs(k.realms, k.fibers[id.0 as int], k2.fibers[id.0 as int]);
    lemma_change_ok(k, k2, id);
}

/// The queue fits as long as no fiber changes its state or phase.
proof fn lemma_same_queue(k: KernelView, k2: KernelView, id: FiberId)
    requires
        pending_ok(k),
        id.0 < k.fibers.len(),
        k2.fibers == k.fibers.update(id.0 as int, k2.fibers[id.0 as int]),
        k2.pending == k.pending,
        k2.fibers[id.0 as int].phase is Active <==> k.fibers[id.0 as int].phase is Active,
        k2.fibers[id.0 as int].state == k.fibers[id.0 as int].state || !(
        k2.fibers[id.0 as int].phase is Active),
    ensures
        pending_ok(k2),
{
    assert forall|p: FiberId| #[trigger]
        k2.pending.contains(p) <==> p.0 < k2.fibers.len() && k2.fibers[p.0 as int].phase is Active
            && k2.fibers[p.0 as int].state is Pending by {
        assert(k2.pending.contains(p) == k.pending.contains(p));
    }
}

/// A fiber is supplied as long as it runs on the same dependencies.
proof fn lemma_same_needs(realms: Seq<RealmView>, f: FiberView, f2: FiberView)
    requires
        supplied(realms, f),
        f2.inject == f.inject,
        f2.realm == f.realm,
        running(f2) ==> running(f),
    ensures
        supplied(realms, f2),
{
    assert forall|key: TypeId| needs(f2, key) implies needs(f, key) by {
        let i = choose|i: int| 0 <= i < f2.inject.len() && is_hard(#[trigger] f2.inject[i], key);
        assert(is_hard(f.inject[i], key));
    }
}

/// One more thing to clean up keeps the kernel in order.
pub proof fn lemma_disposable_ok(k: KernelView, id: FiberId, disposable: Disposable)
    requires
        kernel_ok(k),
        is_live(k, id),
    ensures
        kernel_ok(with_disposable(k, id, disposable)),
{
    let k2 = with_disposable(k, id, disposable);
    lemma_same_queue(k, k2, id);
    lemma_same_needs(k.realms, k.fibers[id.0 as int], k2.fibers[id.0 as int]);
    lemma_change_ok(k, k2, id);
}

/// A new event handler keeps the kernel in order.
pub proof fn lemma_handler_ok(k: KernelView, ctx: Ctx, key: EventKey)
    requires
        kernel_ok(k),
        is_live(k, ctx.fiber),
        k.next_handler < u64::MAX,
    ensures
        kernel_ok(with_handler(k, ctx, key)),
{
    let fiber = ctx.fiber;
    let id = k.next_handler as u64;
    let d = Disposable::Handler(key, id);
    let mid = with_disposable(k, fiber, d);
    lemma_disposable_ok(k, fiber, d);
    let k2 = with_handler(k, ctx, key);
    assert(k2.fibers == mid.fibers);
    assert forall|i: int| 0 <= i < k2.fibers.len() implies #[trigger] sheltered(k2, i) by {
        assert(sheltered(mid, i));
    }
    assert(services_ok(k2)) by {
        assert forall|r: RealmId, t: TypeId|
            #![trigger binds(k2.realms, r, t)]
            binds(k2.realms, r, t) implies owned(
            k2,
            r,
            t,
            k2.realms[r.0 as int].services[t],
        ) by {
            assert(binds(mid.realms, r, t));
            let s = mid.realms[r.0 as int].services[t];
            assert(owned(mid, r, t, s));
            let i = choose|i: int|
                0 <= i < mid.fibers.len() && owns(#[trigger] mid.fibers[i], r, t, s);
            assert(owns(k2.fibers[i], r, t, s));
        }
    }
    assert(k2.fibers[fiber.0 as int].disposables.last() == d);
    assert(k2.fibers[fiber.0 as int].disposables.contains(d));
    assert forall|i: int| #![trigger k2.handlers[i]] 0 <= i < k2.handlers.len() implies ({
        let h = k2.handlers[i];
        &&& h.id < k2.next_handler
        &&& h.fiber.0 < k2.fibers.len()
        &&& k2.fibers[h.fiber.0 as int].disposables.contains(Disposable::Handler(h.key, h.id))
    }) by {
        if i < k.handlers.len() {
            assert(k2.handlers[i] == mid.handlers[i]);
        }
    }
    assert forall|i: int| #![trigger k2.middlewares[i]] 0 <= i < k2.middlewares.len() implies ({
        let m = k2.middlewares[i];
        &&& m.id < k2.next_handler
        &&& m.fiber.0 < k2.fibers.len()
        &&& k2.fibers[m.fiber.0 as int].disposables.contains(Disposable::Middleware(m.point, m.id))
    }) by {
        assert(k2.middlewares[i] == mid.middlewares[i]);
    }
    assert(pending_ok(k2)) by {
        assert forall|p: FiberId| #[trigger]
            k2.pending.contains(p) <==> p.0 < k2.fibers.len() && k2.fibers[p.0 as int].phase
                is Active && k2.fibers[p.0 as int].state is Pending by {
            assert(k2.pending.contains(p) == mid.pending.contains(p));
        }
    }
}

/// A new middleware keeps the kernel in order.
pub proof fn lemma_middleware_ok(
    k: KernelView,
    ctx: Ctx,
    point: TypeId,
    prepend: bool,
)
    requires
        kernel_ok(k),
        is_live(k, ctx.fiber),
        k.next_handler < u64::MAX,
    ensures
        kernel_ok(with_middleware(k, ctx, point, prepend)),
{
    let fiber = ctx.fiber;
    let id = k.next_handler as u64;
    let d = Disposable::Middleware(point, id);
    let mid = with_disposable(k, fiber, d);
    lemma_disposable_ok(k, fiber, d);
    let k2 = with_middleware(k, ctx, point, prepend);
    assert(k2.fibers == mid.fibers);
    assert forall|i: int| 0 <= i < k2.fibers.len() implies #[trigger] sheltered(k2, i) by {
        assert(sheltered(mid, i));
    }
    assert(services_ok(k2)) by {
        assert forall|r: RealmId, t: TypeId|
            #![trigger binds(k2.realms, r, t)]
            binds(k2.realms, r, t) implies owned(
            k2,
            r,
            t,
            k2.realms[r.0 as int].services[t],
        ) by {
            assert(binds(mid.realms, r, t));
            let s = mid.realms[r.0 as int].services[t];
            assert(owned(mid, r, t, s));
            let i = choose|i: int|
                0 <= i < mid.fibers.len() && owns(#[trigger] mid.fibers[i], r, t, s);
            assert(owns(k2.fibers[i], r, t, s));
        }
    }
    assert(k2.fibers[fiber.0 as int].disposables.last() == d);
    assert(k2.fibers[fiber.0 as int].disposables.contains(d));
    assert forall|i: int| #![trigger k2.handlers[i]] 0 <= i < k2.handlers.len() implies ({
        let h = k2.handlers[i];
        &&& h.id < k2.next_handler
        &&& h.fiber.0 < k2.fibers.len()
        &&& k2.fibers[h.fiber.0 as int].disposables.contains(Disposable::Handler(h.key, h.id))
    }) by {
        assert(k2.handlers[i] == mid.handlers[i]);
    }
    assert forall|i: int| #![trigger k2.middlewares[i]] 0 <= i < k2.middlewares.len() implies ({
        let m = k2.middlewares[i];
        &&& m.id < k2.next_handler
        &&& m.fiber.0 < k2.fibers.len()
        &&& k2.fibers[m.fiber.0 as int].disposables.contains(Disposable::Middleware(m.point, m.id))
    }) by {
        if i < k.middlewares.len() {
            assert(k2.middlewares[i] == mid.middlewares[i]);
        }
    }
    assert(pending_ok(k2)) by {
        assert forall|p: FiberId| #[trigger]
            k2.pending.contains(p) <==> p.0 < k2.fibers.len() && k2.fibers[p.0 as int].phase
                is Active && k2.fibers[p.0 as int].state is Pending by {
            assert(k2.pending.contains(p) == mid.pending.contains(p));
        }
    }
}

/// Providing a service keeps the kernel in order.
pub proof fn lemma_service_ok(
    k: KernelView,
    ctx: Ctx,
    key: ServiceKey,
    service: ServiceId,
)
    requires
        kernel_ok(k),
        is_live(k, ctx.fiber),
        ctx.realm.0 < k.realms.len(),
    ensures
        kernel_ok(with_service(k, ctx, key, service)),
{
    let fiber = ctx.fiber;
    let realm = ctx.realm;
    let d = Disposable::Service(realm, key, service);
    let mid = with_disposable(k, fiber, d);
    lemma_disposable_ok(k, fiber, d);
    let k2 = with_service(k, ctx, key, service);
    assert(k2.fibers == mid.fibers);
    assert forall|i: int| 0 <= i < k2.fibers.len() implies #[trigger] sheltered(k2, i) by {
        assert(sheltered(mid, i));
    }
    assert forall|i: int| 0 <= i < k2.fibers.len() implies supplied(
        k2.realms,
        #[trigger] k2.fibers[i],
    ) by {
        let f = mid.fibers[i];
        assert(supplied(mid.realms, f));
        assert forall|other: TypeId|
            #![trigger resolving(k2.realms, f.realm, other)]
            resolving(k.realms, f.realm, other) is Some implies resolving(
            k2.realms,
            f.realm,
            other,
        ) is Some by {
            lemma_resolving_bound(k.realms, realm, key.id, service, f.realm, other);
        }
    }
    assert(services_ok(k2)) by {
        assert forall|r: RealmId, t: TypeId|
            #![trigger binds(k2.realms, r, t)]
            binds(k2.realms, r, t) implies owned(
            k2,
            r,
            t,
            k2.realms[r.0 as int].services[t],
        ) by {
            if r == realm && t == key.id {
                let f = k2.fibers[fiber.0 as int];
                let last = f.disposables.len() - 1;
                assert(takes_back(f.disposables[last], r, t, service));
                assert(owns(f, r, t, service));
            } else {
                assert(binds(mid.realms, r, t));
                let s = mid.realms[r.0 as int].services[t];
                assert(owned(mid, r, t, s));
                let i = choose|i: int|
                    0 <= i < mid.fibers.len() && owns(#[trigger] mid.fibers[i], r, t, s);
                assert(owns(k2.fibers[i], r, t, s));
            }
        }
    }
    assert(pending_ok(k2)) by {
        assert forall|p: FiberId| #[trigger]
            k2.pending.contains(p) <==> p.0 < k2.fibers.len() && k2.fibers[p.0 as int].phase
                is Active && k2.fibers[p.0 as int].state is Pending by {
            assert(k2.pending.contains(p) == mid.pending.contains(p));
        }
    }
    assert(handlers_ok(k2)) by {
        assert(handlers_ok(mid));
    }
    assert(middlewares_ok(k2)) by {
        assert(middlewares_ok(mid));
    }
}

/// Crossing off the last thing a fiber had to clean up keeps the kernel in
/// order, if what it stood for is no longer there.
proof fn lemma_cross_off_ok(k: KernelView, k2: KernelView, id: FiberId)
    requires
        kernel_ok(k),
        is_disposing(k, id),
        k.fibers[id.0 as int].disposables.len() > 0,
        k2.fibers == crossed_off(k, id).fibers,
        k2.pending == k.pending,
        k2.next_handler == k.next_handler,
        k2.realms.len() == k.realms.len(),
        tree_ok(k2.realms),
        forall|i: int| 0 <= i < k.fibers.len() ==> supplied(k2.realms, #[trigger] k.fibers[i]),
        forall|r: RealmId, t: TypeId|
            #![trigger binds(k2.realms, r, t)]
            binds(k2.realms, r, t) ==> binds(k.realms, r, t) && k2.realms[r.0 as int].services[t]
                == k.realms[r.0 as int].services[t] && !takes_back(
                k.fibers[id.0 as int].disposables.last(),
                r,
                t,
                k.realms[r.0 as int].services[t],
            ),
        forall|i: int|
            #![trigger k2.handlers[i]]
            0 <= i < k2.handlers.len() ==> k.handlers.contains(k2.handlers[i])
                && k.fibers[id.0 as int].disposables.last() != Disposable::Handler(
                k2.handlers[i].key,
                k2.handlers[i].id,
            ),
        forall|i: int, j: int|
            0 <= i < j < k2.handlers.len() ==> (#[trigger] k2.handlers[i]).id < (
            #[trigger] k2.handlers[j]).id,
        forall|i: int|
            #![trigger k2.middlewares[i]]
            0 <= i < k2.middlewares.len() ==> k.middlewares.contains(k2.middlewares[i])
                && k.fibers[id.0 as int].disposables.last() != Disposable::Middleware(
                k2.middlewares[i].point,
                k2.middlewares[i].id,
            ),
        forall|i: int, j: int|
            0 <= i < j < k2.middlewares.len() ==> (#[trigger] k2.middlewares[i]).id < (
            #[trigger] k2.middlewares[j]).id,
    ensures
        kernel_ok(k2),
{
    let f = k.fibers[id.0 as int];
    let f2 = k2.fibers[id.0 as int];
    let last = f.disposables.last();
    lemma_same_queue(k, k2, id);
    assert forall|d: Disposable| f.disposables.contains(d) && d != last implies
        #[trigger] f2.disposables.contains(d) by {
        let j = choose|j: int| 0 <= j < f.disposables.len() && f.disposables[j] == d;
        assert(f2.disposables[j] == d);
    }
    assert forall|i: int| #![trigger k2.fibers[i]] 0 <= i < k2.fibers.len() implies ({
        &&& fiber_ok(k2.fibers[i])
        &&& k2.fibers[i].realm.0 < k2.realms.len()
        &&& i > 0 ==> k2.fibers[i].parent.0 < i
        &&& i == 0 ==> k2.fibers[i].parent.0 == 0
        &&& supplied(k2.realms, k2.fibers[i])
    }) by {
        assert(supplied(k2.realms, k.fibers[i]));
        if i != id.0 {
            assert(k2.fibers[i] == k.fibers[i]);
        }
    }
    assert forall|i: int| 0 <= i < k2.fibers.len() implies #[trigger] sheltered(k2, i) by {
        assert(sheltered(k, i));
        assert(k2.fibers[i].parent == k.fibers[i].parent);
        assert(k2.fibers[i].phase == k.fibers[i].phase);
        if i > 0 {
            let p = k.fibers[i].parent.0 as int;
            assert(k2.fibers[p].phase == k.fibers[p].phase);
        }
    }
    assert forall|r: RealmId, t: TypeId|
        #![trigger binds(k2.realms, r, t)]
        binds(k2.realms, r, t) implies owned(k2, r, t, k2.realms[r.0 as int].services[t]) by {
        let s = k.realms[r.0 as int].services[t];
        assert(binds(k.realms, r, t));
        assert(owned(k, r, t, s));
        let i = choose|i: int| 0 <= i < k.fibers.len() && owns(#[trigger] k.fibers[i], r, t, s);
        let j = choose|j: int|
            0 <= j < k.fibers[i].disposables.len() && takes_back(
                #[trigger] k.fibers[i].disposables[j],
                r,
                t,
                s,
            );
        if i == id.0 {
            assert(j < f.disposables.len() - 1);
        }
        assert(k2.fibers[i].disposables[j] == k.fibers[i].disposables[j]);
        assert(owns(k2.fibers[i], r, t, s));
    }
    assert forall|i: int| #![trigger k2.handlers[i]] 0 <= i < k2.handlers.len() implies ({
        let h = k2.handlers[i];
        &&& h.id < k2.next_handler
        &&& h.fiber.0 < k2.fibers.len()
        &&& k2.fibers[h.fiber.0 as int].disposables.contains(Disposable::Handler(h.key, h.id))
    }) by {
        let h = k2.handlers[i];
        let a = choose|a: int| 0 <= a < k.handlers.len() && k.handlers[a] == h;
        assert(k.handlers[a] == h);
        if h.fiber == id {
            assert(f.disposables.contains(Disposable::Handler(h.key, h.id)));
            assert(f2.disposables.contains(Disposable::Handler(h.key, h.id)));
        }
    }
    assert forall|i: int| #![trigger k2.middlewares[i]] 0 <= i < k2.middlewares.len() implies ({
        let m = k2.middlewares[i];
        &&& m.id < k2.next_handler
        &&& m.fiber.0 < k2.fibers.len()
        &&& k2.fibers[m.fiber.0 as int].disposables.contains(Disposable::Middleware(m.point, m.id))
    }) by {
        let m = k2.middlewares[i];
        let a = choose|a: int| 0 <= a < k.middlewares.len() && k.middlewares[a] == m;
        assert(k.middlewares[a] == m);
        if m.fiber == id {
            assert(f.disposables.contains(Disposable::Middleware(m.point, m.id)));
            assert(f2.disposables.contains(Disposable::Middleware(m.point, m.id)));
        }
    }
}

/// Where a fiber's disposal has come to its children, its step names an
/// eldest child in use, or none is left.
pub proof fn lemma_children(k: KernelView, parent: FiberId)
    requires
        fibers_ok(k),
    ensures
        forall|id: FiberId| #[trigger]
            children(k, parent).contains(id) <==> id.0 < k.fibers.len() && id != parent
                && k.fibers[id.0 as int].parent == parent && k.fibers[id.0 as int].phase is Active,
        forall|i: int, j: int|
            0 <= i < j < children(k, parent).len() ==> (#[trigger] children(k, parent)[i]).0 < (
            #[trigger] children(k, parent)[j]).0,
{
    lemma_ids_where(k.fibers.len(), child_of(k, parent));
}

/// Who runs on a binding.
pub proof fn lemma_dependents(k: KernelView, realm: RealmId, key: TypeId, exclude: FiberId)
    requires
        fibers_ok(k),
    ensures
        forall|id: FiberId| #[trigger]
            dependents(k, realm, key, exclude).contains(id) <==> id.0 < k.fibers.len() && id
                != exclude && depends(k, id, realm, key),
        forall|i: int, j: int|
            0 <= i < j < dependents(k, realm, key, exclude).len() ==> (#[trigger] dependents(
                k,
                realm,
                key,
                exclude,
            )[i]).0 < (#[trigger] dependents(k, realm, key, exclude)[j]).0,
{
    lemma_ids_where(k.fibers.len(), dependent_on(k, realm, key, exclude));
}

/// Cleaning up the last thing a fiber registered keeps the kernel in order.
pub proof fn lemma_drain_ok(k: KernelView, id: FiberId)
    requires
        kernel_ok(k),
        is_disposing(k, id),
        k.fibers[id.0 as int].disposables.len() > 0,
    ensures
        kernel_ok(drain_step(k, id).0),
{
    let k2 = drain_step(k, id).0;
    let f = k.fibers[id.0 as int];
    assert forall|i: int| 0 <= i < k.handlers.len() implies k.handlers.contains(
        #[trigger] k.handlers[i],
    ) by {}
    assert forall|i: int| 0 <= i < k.middlewares.len() implies k.middlewares.contains(
        #[trigger] k.middlewares[i],
    ) by {}
    match f.disposables.last() {
        Disposable::Effect(_) => {
            lemma_cross_off_ok(k, k2, id);
        },
        Disposable::Handler(key, handler) => {
            let keep = other_handler(key, handler);
            let before = |a: EventHandler, b: EventHandler| a.id < b.id;
            lemma_filter_contains(k.handlers, keep);
            lemma_filter_ordered(k.handlers, keep, before);
            assert forall|i: int|
                #![trigger k2.handlers[i]]
                0 <= i < k2.handlers.len() implies k.handlers.contains(k2.handlers[i])
                && f.disposables.last() != Disposable::Handler(
                k2.handlers[i].key,
                k2.handlers[i].id,
            ) by {
                assert(k2.handlers.contains(k2.handlers[i]));
            }
            assert forall|i: int, j: int| 0 <= i < j < k2.handlers.len() implies (
            #[trigger] k2.handlers[i]).id < (#[trigger] k2.handlers[j]).id by {
                assert(before(k2.handlers[i], k2.handlers[j]));
            }
            lemma_cross_off_ok(k, k2, id);
        },
        Disposable::Middleware(point, middleware) => {
            let keep = other_middleware(point, middleware);
            let before = |a: PipelineHandler, b: PipelineHandler| a.id < b.id;
            lemma_filter_contains(k.middlewares, keep);
            lemma_filter_ordered(k.middlewares, keep, before);
            assert forall|i: int|
                #![trigger k2.middlewares[i]]
                0 <= i < k2.middlewares.len() implies k.middlewares.contains(k2.middlewares[i])
                && f.disposables.last() != Disposable::Middleware(
                k2.middlewares[i].point,
                k2.middlewares[i].id,
            ) by {
                assert(k2.middlewares.contains(k2.middlewares[i]));
            }
            assert forall|i: int, j: int| 0 <= i < j < k2.middlewares.len() implies (
            #[trigger] k2.middlewares[i]).id < (#[trigger] k2.middlewares[j]).id by {
                assert(before(k2.middlewares[i], k2.middlewares[j]));
            }
            lemma_cross_off_ok(k, k2, id);
        },
        Disposable::Service(realm, key, service) => {
            let first = dependents(k, realm, key.id, id);
            if bound_to(k.realms, realm, key.id, service) && first.len() > 0 {
                lemma_begin_ok(k, first[0], State::Disposed);
            } else {
                assert forall|i: int| 0 <= i < k.fibers.len() implies supplied(
                    k2.realms,
                    #[trigger] k.fibers[i],
                ) by {
                    lemma_still_supplied(k, id, realm, key, service, i);
                }
                assert(k2.realms[0].parent == k.realms[0].parent);
                assert forall|i: int| 0 <= i < k2.realms.len() implies match (
                #[trigger] k2.realms[i]).parent {
                    Some(parent) => parent.0 < i,
                    None => true,
                } by {
                    assert(k2.realms[i].parent == k.realms[i].parent);
                }
                lemma_cross_off_ok(k, k2, id);
            }
        },
    }
}

/// A service that nobody else runs on can be taken back: every plugin that
/// runs keeps what it hard-depends on.
proof fn lemma_still_supplied(
    k: KernelView,
    id: FiberId,
    realm: RealmId,
    key: ServiceKey,
    service: ServiceId,
    i: int,
)
    requires
        kernel_ok(k),
        is_disposing(k, id),
        0 <= i < k.fibers.len(),
        bound_to(k.realms, realm, key.id, service) ==> dependents(k, realm, key.id, id).len() == 0,
    ensures
        supplied(unbound_if(k.realms, realm, key.id, service), k.fibers[i]),
{
    let f = k.fibers[i];
    let after = unbound_if(k.realms, realm, key.id, service);
    assert(supplied(k.realms, f));
    if bound_to(k.realms, realm, key.id, service) && running(f) {
        lemma_dependents(k, realm, key.id, id);
        let me = FiberId(i as u32);
        assert(!dependents(k, realm, key.id, id).contains(me));
        assert(me.0 == i);
        assert(!depends(k, me, realm, key.id));
        assert forall|other: TypeId|
            #![trigger resolving(after, f.realm, other)]
            needs(f, other) implies resolving(after, f.realm, other) is Some by {
            assert(resolving(k.realms, f.realm, other) is Some);
            lemma_resolving_unbound(k.realms, realm, key.id, service, f.realm, other);
        }
    }
}

/// Every step in the disposal of a fiber keeps the kernel in order.
pub proof fn lemma_fiber_step_ok(k: KernelView, id: FiberId)
    requires
        kernel_ok(k),
        is_disposing(k, id),
    ensures
        kernel_ok(fiber_step(k, id).0),
{
    let f = k.fibers[id.0 as int];
    let k2 = fiber_step(k, id).0;
    match f.phase {
        Phase::Disposing(Stage::Children, _) => {
            let first = children(k, id);
            lemma_children(k, id);
            if first.len() > 0 {
                lemma_begin_ok(k, first[0], State::Disposed);
            } else {
                assert forall|i: int|
                    0 <= i < k.fibers.len() && i != id.0 && (#[trigger] k.fibers[i]).parent
                        == id implies !(k.fibers[i].phase is Active) by {
                    let c = FiberId(i as u32);
                    assert(!first.contains(c));
                }
                lemma_same_queue(k, k2, id);
                lemma_change_ok(k, k2, id);
            }
        },
        Phase::Disposing(Stage::Drain, _) => {
            if f.disposables.len() > 0 {
                lemma_drain_ok(k, id);
            } else {
                lemma_same_queue(k, k2, id);
                lemma_change_ok(k, k2, id);
            }
        },
        _ => {
            lemma_same_queue(k, k2, id);
            lemma_change_ok(k, k2, id);
        },
    }
}

} // verus!
