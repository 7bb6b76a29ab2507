//! Disposal reaches everything it has to and nothing else.

use crate::context::{
    Ctx, RealmId, ServiceId, binds, lemma_resolving_binds, lemma_resolving_bound,
    lemma_resolving_unbound, resolved, resolving,
};
use crate::ctx::{disconnected, displaced, provided};
use crate::disposal::{
    after_steps, course, disposal_of, disposal_of_all, effects_run, lemma_step_progress,
    lemma_step_shape, nth_step, quiet, stack_ok,
};
use crate::fiber::{Disposable, FiberId, FiberView, Phase, Stage, State};
use crate::laws::lifecycle::{
    above, evolves, law_disposals_move_onward, law_whole_disposals_move_onward, lemma_run_onward,
    lemma_satisfied_ids, onward,
};
use crate::model::{
    KernelView, Step, begin, bound_to, children, ctx_ok, dependents, depends, dispose_step,
    fiber_step, is_active, is_disposing, is_hard, kernel_ok, needs, next_stack, owned, owns,
    running, satisfied_ids, sheltered, start, start_all, started, takes_back, with_service,
};
use crate::service::ServiceKey;
use crate::upkeep::{
    lemma_begin_ok, lemma_children, lemma_dependents, lemma_service_ok, lemma_start_all,
};
use std::any::TypeId;
use vstd::prelude::*;

verus! {

/// Whether a set of fibers takes no other fiber down with it: it holds the
/// children in use of its fibers, and the plugins that run on a service that
/// one of its fibers provided.
pub open spec fn self_contained(k: KernelView, doomed: spec_fn(FiberId) -> bool) -> bool {
    &&& forall|i: int|
        #![trigger k.fibers[i]]
        0 < i < k.fibers.len() && k.fibers[i].phase is Active && doomed(k.fibers[i].parent)
            ==> doomed(FiberId(i as u32))
    &&& forall|i: int, t: int, key: TypeId|
        0 <= i < k.fibers.len() && 0 <= t < k.fibers.len() && #[trigger] runs_on(k, i, t, key)
            && doomed(FiberId(t as u32)) ==> doomed(FiberId(i as u32))
}

/// Whether fiber `i` runs on a binding of the type that fiber `t` will take
/// back.
pub open spec fn runs_on(k: KernelView, i: int, t: int, key: TypeId) -> bool {
    let f = k.fibers[i];
    running(f) && needs(f, key) && match resolving(k.realms, f.realm, key) {
        Some(realm) => owns(k.fibers[t], realm, key, k.realms[realm.0 as int].services[key]),
        None => false,
    }
}

/// Whether the fibers outside a set are as they were, and those of them that
/// run find what they hard-depend on where they found it.
pub open spec fn spares(k: KernelView, k2: KernelView, doomed: spec_fn(FiberId) -> bool) -> bool {
    &&& k2.fibers.len() == k.fibers.len()
    &&& forall|i: int|
        0 <= i < k.fibers.len() && !doomed(FiberId(i as u32)) ==> #[trigger] k2.fibers[i]
            == k.fibers[i]
    &&& forall|i: int, key: TypeId|
        #![trigger resolved(k2.realms, k.fibers[i].realm, key)]
        0 <= i < k.fibers.len() && !doomed(FiberId(i as u32)) && running(k.fibers[i]) && needs(
            k.fibers[i],
            key,
        ) ==> resolved(k2.realms, k.fibers[i].realm, key) == resolved(
            k.realms,
            k.fibers[i].realm,
            key,
        )
}

proof fn lemma_owns_less(f: FiberView, f2: FiberView, realm: RealmId, key: TypeId, service: ServiceId)
    requires
        owns(f2, realm, key, service),
        f2.disposables == f.disposables || f.disposables.len() > 0 && f2.disposables
            == f.disposables.drop_last(),
    ensures
        owns(f, realm, key, service),
{
    let j = choose|j: int|
        0 <= j < f2.disposables.len() && takes_back(
            #[trigger] f2.disposables[j],
            realm,
            key,
            service,
        );
    assert(f.disposables[j] == f2.disposables[j]);
}

/// What one step on a fiber of a self-contained set leaves alone.
proof fn lemma_step_spares(k: KernelView, stack: Seq<FiberId>, doomed: spec_fn(FiberId) -> bool)
    requires
        kernel_ok(k),
        stack_ok(k, stack),
        stack.len() > 0,
        self_contained(k, doomed),
        forall|i: int| 0 <= i < stack.len() ==> doomed(#[trigger] stack[i]),
    ensures
        ({
            let (k2, step) = dispose_step(k, stack);
            &&& self_contained(k2, doomed)
            &&& spares(k, k2, doomed)
            &&& forall|i: int|
                0 <= i < next_stack(stack, step).len() ==> doomed(
                    #[trigger] next_stack(stack, step)[i],
                )
        }),
{
    let (k2, step) = dispose_step(k, stack);
    let stack2 = next_stack(stack, step);
    let top = stack.last();
    assert(stack[stack.len() - 1] == top);
    assert(is_disposing(k, top));
    let f = k.fibers[top.0 as int];
    lemma_step_shape(k, stack);
    lemma_top_step(k, top);
    match step {
        Step::Began(id, _) => {
            assert(doomed(id)) by {
                if k.fibers[id.0 as int].parent == top && id.0 > 0 {
                    assert(doomed(k.fibers[id.0 as int].parent));
                    assert(FiberId(id.0 as int as u32) == id);
                } else {
                    let (realm, key, service) = choose|realm: RealmId, key: TypeId, service: ServiceId|
                        #[trigger] owns(f, realm, key, service) && depends(k, id, realm, key)
                            && bound_to(k.realms, realm, key, service);
                    assert(runs_on(k, id.0 as int, top.0 as int, key));
                    assert(FiberId(id.0 as int as u32) == id);
                    assert(FiberId(top.0 as int as u32) == top);
                }
            }
            assert forall|i: int| 0 <= i < stack2.len() implies doomed(#[trigger] stack2[i]) by {
                if i < stack.len() {
                    assert(stack2[i] == stack[i]);
                }
            }
            assert forall|i: int, t: int, key: TypeId|
                0 <= i < k2.fibers.len() && 0 <= t < k2.fibers.len() && #[trigger] runs_on(
                    k2,
                    i,
                    t,
                    key,
                ) && doomed(FiberId(t as u32)) implies doomed(FiberId(i as u32)) by {
                let realm = resolving(k.realms, k.fibers[i].realm, key)->0;
                lemma_owns_less(
                    k.fibers[t],
                    k2.fibers[t],
                    realm,
                    key,
                    k.realms[realm.0 as int].services[key],
                );
                lemma_same_needs_of(k.fibers[i], k2.fibers[i], key);
                assert(runs_on(k, i, t, key));
            }
            assert(FiberId(id.0 as int as u32) == id);
        },
        _ => {
            assert forall|i: int| 0 <= i < stack2.len() implies doomed(#[trigger] stack2[i]) by {
                assert(stack2[i] == stack[i]);
            }
            assert(FiberId(top.0 as int as u32) == top);
            assert forall|i: int, key: TypeId|
                #![trigger resolved(k2.realms, k.fibers[i].realm, key)]
                0 <= i < k.fibers.len() && i != top.0 && running(k.fibers[i]) && needs(
                    k.fibers[i],
                    key,
                ) implies resolved(k2.realms, k.fibers[i].realm, key) == resolved(
                k.realms,
                k.fibers[i].realm,
                key,
            ) && resolving(k2.realms, k.fibers[i].realm, key) == resolving(
                k.realms,
                k.fibers[i].realm,
                key,
            ) by {
                lemma_step_keeps_lookups(k, top, i, key);
            }
            assert forall|i: int, t: int, key: TypeId|
                0 <= i < k2.fibers.len() && 0 <= t < k2.fibers.len() && #[trigger] runs_on(
                    k2,
                    i,
                    t,
                    key,
                ) && doomed(FiberId(t as u32)) implies doomed(FiberId(i as u32)) by {
                if i != top.0 {
                    assert(k2.fibers[i] == k.fibers[i]);
                    assert(resolved(k2.realms, k.fibers[i].realm, key) == resolved(
                        k.realms,
                        k.fibers[i].realm,
                        key,
                    ));
                    let realm = resolving(k.realms, k.fibers[i].realm, key)->0;
                    lemma_owns_less(
                        k.fibers[t],
                        k2.fibers[t],
                        realm,
                        key,
                        k.realms[realm.0 as int].services[key],
                    );
                    assert(runs_on(k, i, t, key));
                }
            }
        },
    }
}

proof fn lemma_same_needs_of(a: FiberView, b: FiberView, key: TypeId)
    requires
        a.inject == b.inject,
        needs(b, key),
    ensures
        needs(a, key),
{
    let i = choose|i: int| 0 <= i < b.inject.len() && is_hard(#[trigger] b.inject[i], key);
    assert(is_hard(a.inject[i], key));
}

/// Whom a step starts to dispose, and what it does to the fiber's own list.
proof fn lemma_top_step(k: KernelView, top: FiberId)
    requires
        kernel_ok(k),
        is_disposing(k, top),
    ensures
        ({
            let (k2, step) = fiber_step(k, top);
            let f = k.fibers[top.0 as int];
            let f2 = k2.fibers[top.0 as int];
            &&& step matches Step::Began(id, _) ==> {
                ||| id.0 > 0 && k.fibers[id.0 as int].parent == top
                ||| exists|realm: RealmId, key: TypeId, service: ServiceId| #[trigger]
                    owns(f, realm, key, service) && depends(k, id, realm, key) && bound_to(
                        k.realms,
                        realm,
                        key,
                        service,
                    )
            }
            &&& f2.disposables == f.disposables || f.disposables.len() > 0 && f2.disposables
                == f.disposables.drop_last()
            &&& f2.inject == f.inject
        }),
{
    let f = k.fibers[top.0 as int];
    match f.phase {
        Phase::Disposing(Stage::Children, _) => {
            lemma_children(k, top);
            let first = children(k, top);
            if first.len() > 0 {
                assert(first.contains(first[0]));
            }
        },
        Phase::Disposing(Stage::Drain, _) => {
            if f.disposables.len() > 0 {
                if let Disposable::Service(realm, key, service) = f.disposables.last() {
                    lemma_dependents(k, realm, key.id, top);
                    let first = dependents(k, realm, key.id, top);
                    if first.len() > 0 {
                        assert(first.contains(first[0]));
                        let n = f.disposables.len() - 1;
                        assert(takes_back(f.disposables[n], realm, key.id, service));
                        assert(owns(f, realm, key.id, service));
                    }
                }
            }
        },
        _ => {},
    }
}

/// A step that starts no disposal changes no lookup of a plugin that runs.
proof fn lemma_step_keeps_lookups(k: KernelView, top: FiberId, i: int, key: TypeId)
    requires
        kernel_ok(k),
        is_disposing(k, top),
        !(fiber_step(k, top).1 is Began),
        0 <= i < k.fibers.len(),
        i != top.0,
        running(k.fibers[i]),
        needs(k.fibers[i], key),
    ensures
        resolving(fiber_step(k, top).0.realms, k.fibers[i].realm, key) == resolving(
            k.realms,
            k.fibers[i].realm,
            key,
        ),
        resolved(fiber_step(k, top).0.realms, k.fibers[i].realm, key) == resolved(
            k.realms,
            k.fibers[i].realm,
            key,
        ),
{
    let k2 = fiber_step(k, top).0;
    let f = k.fibers[top.0 as int];
    let me = FiberId(i as u32);
    if f.phase matches Phase::Disposing(Stage::Drain, _) && f.disposables.len() > 0 {
        if let Disposable::Service(realm, name, service) = f.disposables.last() {
            if bound_to(k.realms, realm, name.id, service) {
                lemma_dependents(k, realm, name.id, top);
                let first = dependents(k, realm, name.id, top);
                assert(first.len() == 0);
                assert(!first.contains(me));
                assert(!depends(k, me, realm, name.id));
                lemma_resolving_unbound(
                    k.realms,
                    realm,
                    name.id,
                    service,
                    k.fibers[i].realm,
                    key,
                );
                lemma_resolving_binds(k.realms, k.fibers[i].realm, key);
            }
        }
    }
}

/// Bystanders survive: disposing fibers of a self-contained set leaves every
/// other fiber exactly as it was, and what the others depend on stays in the
/// table.
pub proof fn law_bystanders_survive(
    k: KernelView,
    k2: KernelView,
    ids: Seq<FiberId>,
    steps: Seq<Step>,
    doomed: spec_fn(FiberId) -> bool,
)
    requires
        kernel_ok(k),
        disposal_of_all(k, k2, ids, steps),
        self_contained(k, doomed),
        forall|i: int| 0 <= i < ids.len() ==> doomed(#[trigger] ids[i]),
    ensures
        spares(k, k2, doomed),
        self_contained(k2, doomed),
        kernel_ok(k2),
    decreases ids.len(),
{
    if ids.len() > 0 {
        let (mid, n) = choose|mid: KernelView, n: int|
            0 <= n <= steps.len() && disposal_of_all(
                k,
                mid,
                ids.drop_last(),
                steps.take(n),
            ) && #[trigger] disposal_of(mid, k2, ids.last(), State::Disposed, steps.skip(n));
        let front = ids.drop_last();
        assert forall|i: int| 0 <= i < front.len() implies doomed(#[trigger] front[i]) by {
            assert(front[i] == ids[i]);
        }
        law_bystanders_survive(k, mid, front, steps.take(n), doomed);
        assert(doomed(ids[ids.len() - 1]));
        law_bystanders_survive_a_disposal(
            mid,
            k2,
            ids.last(),
            State::Disposed,
            steps.skip(n),
            doomed,
        );
        lemma_spares_twice(k, mid, k2, doomed);
    }
}

/// The same of a single disposal.
pub proof fn law_bystanders_survive_a_disposal(
    k: KernelView,
    k2: KernelView,
    id: FiberId,
    outcome: State,
    steps: Seq<Step>,
    doomed: spec_fn(FiberId) -> bool,
)
    requires
        kernel_ok(k),
        outcome is Failed || outcome is Disposed,
        disposal_of(k, k2, id, outcome, steps),
        self_contained(k, doomed),
        doomed(id),
    ensures
        spares(k, k2, doomed),
        self_contained(k2, doomed),
        kernel_ok(k2),
{
    if is_active(k, id) {
        let start = begin(k, id, outcome);
        lemma_begin_ok(k, id, outcome);
        assert(FiberId(id.0 as int as u32) == id);
        assert forall|i: int, t: int, key: TypeId|
            0 <= i < start.fibers.len() && 0 <= t < start.fibers.len() && #[trigger] runs_on(
                start,
                i,
                t,
                key,
            ) && doomed(FiberId(t as u32)) implies doomed(FiberId(i as u32)) by {
            let realm = resolving(k.realms, k.fibers[i].realm, key)->0;
            lemma_owns_less(
                k.fibers[t],
                start.fibers[t],
                realm,
                key,
                k.realms[realm.0 as int].services[key],
            );
            lemma_same_needs_of(k.fibers[i], start.fibers[i], key);
            assert(runs_on(k, i, t, key));
        }
        assert(self_contained(start, doomed));
        assert(spares(k, start, doomed));
        lemma_run_spares(start, seq![id], (steps.len() - 1) as nat, doomed);
        lemma_spares_twice(k, start, k2, doomed);
    }
}

proof fn lemma_run_spares(
    k: KernelView,
    stack: Seq<FiberId>,
    n: nat,
    doomed: spec_fn(FiberId) -> bool,
)
    requires
        kernel_ok(k),
        stack_ok(k, stack),
        self_contained(k, doomed),
        forall|i: int| 0 <= i < stack.len() ==> doomed(#[trigger] stack[i]),
    ensures
        ({
            let (k2, rest) = after_steps(k, stack, n);
            &&& kernel_ok(k2)
            &&& stack_ok(k2, rest)
            &&& self_contained(k2, doomed)
            &&& spares(k, k2, doomed)
            &&& forall|i: int| 0 <= i < rest.len() ==> doomed(#[trigger] rest[i])
        }),
    decreases n,
{
    if n > 0 {
        lemma_run_spares(k, stack, (n - 1) as nat, doomed);
        let (mid, rest) = after_steps(k, stack, (n - 1) as nat);
        if rest.len() > 0 {
            lemma_step_progress(mid, rest);
            lemma_step_spares(mid, rest, doomed);
            lemma_spares_twice(k, mid, dispose_step(mid, rest).0, doomed);
        }
    }
}

proof fn lemma_spares_twice(
    a: KernelView,
    b: KernelView,
    c: KernelView,
    doomed: spec_fn(FiberId) -> bool,
)
    requires
        spares(a, b, doomed),
        spares(b, c, doomed),
    ensures
        spares(a, c, doomed),
{
    assert forall|i: int| 0 <= i < a.fibers.len() && !doomed(FiberId(i as u32)) implies
        #[trigger] c.fibers[i] == a.fibers[i] by {
        assert(b.fibers[i] == a.fibers[i]);
    }
    assert forall|i: int, key: TypeId|
        #![trigger resolved(c.realms, a.fibers[i].realm, key)]
        0 <= i < a.fibers.len() && !doomed(FiberId(i as u32)) && running(a.fibers[i]) && needs(
            a.fibers[i],
            key,
        ) implies resolved(c.realms, a.fibers[i].realm, key) == resolved(
        a.realms,
        a.fibers[i].realm,
        key,
    ) by {
        assert(b.fibers[i] == a.fibers[i]);
        assert(resolved(b.realms, a.fibers[i].realm, key) == resolved(
            a.realms,
            a.fibers[i].realm,
            key,
        ));
    }
}

/// Replacing a service disconnects everybody who ran on the binding it
/// replaces, but for the provider itself; where no disposal is under way,
/// they end disposed.
pub proof fn law_replacing_disconnects_dependents(
    k: KernelView,
    k3: KernelView,
    ctx: Ctx,
    key: ServiceKey,
    service: ServiceId,
    steps: Seq<Step>,
    started: Seq<FiberId>,
    id: FiberId,
)
    requires
        kernel_ok(k),
        ctx_ok(k, ctx),
        is_active(k, ctx.fiber),
        provided(k, k3, ctx, key, service, steps, started),
        binds(k.realms, ctx.realm, key.id),
        id.0 < k.fibers.len(),
        id != ctx.fiber,
        depends(k, id, ctx.realm, key.id),
    ensures
        !is_active(k3, id),
        k3.fibers[id.0 as int].phase is Gone,
        k3.fibers[id.0 as int].state == State::Disposed,
{
    let k1 = with_service(k, ctx, key, service);
    let lost = displaced(k, ctx, key, service);
    let k2 = choose|k2: KernelView| #[trigger]
        disconnected(k1, k2, lost, steps) && started == satisfied_ids(k2) && k3 == start_all(
            k2,
            started,
        );
    lemma_service_ok(k, ctx, key, service);
    lemma_dependents(k1, ctx.realm, key.id, ctx.fiber);
    lemma_resolving_bound(
        k.realms,
        ctx.realm,
        key.id,
        service,
        k.fibers[id.0 as int].realm,
        key.id,
    );
    assert(k1.fibers[id.0 as int] == k.fibers[id.0 as int]);
    assert(depends(k1, id, ctx.realm, key.id));
    assert(lost.contains(id));
    let i = choose|i: int| 0 <= i < lost.len() && lost[i] == id;
    assert(!is_active(k2, lost[i]));
    assert(course(
        k1.fibers[id.0 as int],
        k2.fibers[id.0 as int],
        effects_run(steps, FiberId(id.0 as int as u32)),
        false,
        State::Disposed,
    ));
    lemma_satisfied_ids(k2);
    lemma_start_all(k2, started);
    assert(!k2.pending.contains(id));
    assert(!started.contains(id));
    assert(FiberId(id.0 as int as u32) == id);
    assert(k3.fibers[id.0 as int] == k2.fibers[id.0 as int]);
}

/// Whether a plugin that is in use still runs on a binding that a fiber will
/// take back.
pub open spec fn rests_on(
    k: KernelView,
    d: FiberId,
    owner: FiberId,
    realm: RealmId,
    key: TypeId,
    service: ServiceId,
) -> bool {
    is_active(k, d) ==> {
        &&& depends(k, d, realm, key)
        &&& bound_to(k.realms, realm, key, service)
        &&& owns(k.fibers[owner.0 as int], realm, key, service)
    }
}

proof fn lemma_step_rests(
    k: KernelView,
    stack: Seq<FiberId>,
    d: FiberId,
    owner: FiberId,
    realm: RealmId,
    key: TypeId,
    service: ServiceId,
)
    requires
        kernel_ok(k),
        stack_ok(k, stack),
        stack.len() > 0,
        owner.0 < k.fibers.len(),
        rests_on(k, d, owner, realm, key, service),
    ensures
        rests_on(dispose_step(k, stack).0, d, owner, realm, key, service),
{
    let (k2, step) = dispose_step(k, stack);
    let top = stack.last();
    assert(is_disposing(k, stack[stack.len() - 1]));
    lemma_step_shape(k, stack);
    let f = k.fibers[top.0 as int];
    if is_active(k2, d) {
        assert(is_active(k, d));
        assert(k2.fibers[d.0 as int] == k.fibers[d.0 as int]);
        match step {
            Step::Began(id, _) => {
                let g = k.fibers[owner.0 as int];
                let j = choose|j: int|
                    0 <= j < g.disposables.len() && takes_back(
                        #[trigger] g.disposables[j],
                        realm,
                        key,
                        service,
                    );
                assert(k2.fibers[owner.0 as int].disposables[j] == g.disposables[j]);
            },
            _ => {
                lemma_step_keeps_lookups(k, top, d.0 as int, key);
                lemma_dependents(k, realm, key, top);
                assert(dependents(k, realm, key, top).contains(d));
                let g = k.fibers[owner.0 as int];
                let g2 = k2.fibers[owner.0 as int];
                let j = choose|j: int|
                    0 <= j < g.disposables.len() && takes_back(
                        #[trigger] g.disposables[j],
                        realm,
                        key,
                        service,
                    );
                if top == owner {
                    lemma_top_step(k, top);
                    if j < g2.disposables.len() {
                        assert(g2.disposables[j] == g.disposables[j]);
                    } else {
                        assert(g.disposables.last() == g.disposables[j]);
                    }
                }
                assert(owns(g2, realm, key, service));
            },
        }
    }
}

proof fn lemma_run_rests(
    k: KernelView,
    stack: Seq<FiberId>,
    n: nat,
    d: FiberId,
    owner: FiberId,
    realm: RealmId,
    key: TypeId,
    service: ServiceId,
)
    requires
        kernel_ok(k),
        stack_ok(k, stack),
        owner.0 < k.fibers.len(),
        rests_on(k, d, owner, realm, key, service),
    ensures
        rests_on(after_steps(k, stack, n).0, d, owner, realm, key, service),
    decreases n,
{
    if n > 0 {
        lemma_run_onward(k, stack, (n - 1) as nat);
        lemma_run_rests(k, stack, (n - 1) as nat, d, owner, realm, key, service);
        let (mid, rest) = after_steps(k, stack, (n - 1) as nat);
        if rest.len() > 0 {
            lemma_step_rests(mid, rest, d, owner, realm, key, service);
        }
    }
}

/// Disposing a provider disconnects its dependents: whoever ran on a binding
/// that the disposed fiber held goes with it, and is not left dangling.
pub proof fn law_disposing_a_provider_disconnects_dependents(
    k: KernelView,
    k2: KernelView,
    owner: FiberId,
    outcome: State,
    steps: Seq<Step>,
    realm: RealmId,
    key: TypeId,
    service: ServiceId,
    d: FiberId,
)
    requires
        kernel_ok(k),
        outcome is Failed || outcome is Disposed,
        is_active(k, owner),
        disposal_of(k, k2, owner, outcome, steps),
        owns(k.fibers[owner.0 as int], realm, key, service),
        bound_to(k.realms, realm, key, service),
        d.0 < k.fibers.len(),
        d != owner,
        depends(k, d, realm, key),
    ensures
        !is_active(k2, d),
{
    let start = begin(k, owner, outcome);
    lemma_begin_ok(k, owner, outcome);
    let f = k.fibers[owner.0 as int];
    let j = choose|j: int|
        0 <= j < f.disposables.len() && takes_back(
            #[trigger] f.disposables[j],
            realm,
            key,
            service,
        );
    assert(start.fibers[owner.0 as int].disposables[j] == f.disposables[j]);
    assert(start.fibers[d.0 as int] == k.fibers[d.0 as int]);
    assert(rests_on(start, d, owner, realm, key, service));
    let n = (steps.len() - 1) as nat;
    lemma_run_rests(start, seq![owner], n, d, owner, realm, key, service);
    lemma_run_onward(start, seq![owner], n);
    lemma_run_stack_holds(start, owner, n);
    assert(!is_disposing(k2, owner)) by {
        if is_disposing(k2, owner) {
            assert(Seq::<FiberId>::empty().contains(owner));
        }
    }
    assert(onward(start.fibers[owner.0 as int], k2.fibers[owner.0 as int]));
    assert(k2.fibers[owner.0 as int].phase is Gone);
}

/// The fiber a disposal is about stays on the stack until it is gone.
proof fn lemma_run_stack_holds(k: KernelView, id: FiberId, n: nat)
    requires
        kernel_ok(k),
        is_disposing(k, id),
    ensures
        ({
            let (k2, rest) = after_steps(k, seq![id], n);
            is_disposing(k2, id) ==> rest.contains(id)
        }),
    decreases n,
{
    let stack = seq![id];
    if n == 0 {
        assert(stack[0] == id);
    } else {
        lemma_run_stack_holds(k, id, (n - 1) as nat);
        lemma_run_onward(k, stack, (n - 1) as nat);
        let (mid, rest) = after_steps(k, stack, (n - 1) as nat);
        if rest.len() > 0 {
            lemma_step_shape(mid, rest);
            let (k2, step) = dispose_step(mid, rest);
            let rest2 = next_stack(rest, step);
            let top = rest.last();
            assert(is_disposing(mid, rest[rest.len() - 1]));
            if is_disposing(k2, id) {
                if step is Began {
                    assert(!is_active(mid, id)) by {
                        assert(onward(k.fibers[id.0 as int], mid.fibers[id.0 as int]));
                    }
                }
                assert(is_disposing(mid, id)) by {
                    if id != top {
                        assert(k2.fibers[id.0 as int] == mid.fibers[id.0 as int]);
                    }
                }
                let j = choose|j: int| 0 <= j < rest.len() && rest[j] == id;
                match step {
                    Step::Began(_, _) => {
                        assert(rest2[j] == id);
                    },
                    Step::Settled(_, _) => {
                        assert(id != top);
                        assert(rest2[j] == id);
                    },
                    _ => {},
                }
            }
        }
    }
}

/// Whether the only fiber that will take this service back is the given one,
/// and the table binds it.
pub open spec fn held_by(
    k: KernelView,
    owner: FiberId,
    realm: RealmId,
    key: TypeId,
    service: ServiceId,
) -> bool {
    &&& bound_to(k.realms, realm, key, service)
    &&& forall|i: int|
        0 <= i < k.fibers.len() && i != owner.0 ==> !owns(
            #[trigger] k.fibers[i],
            realm,
            key,
            service,
        )
}

proof fn lemma_step_keeps_binding(
    k: KernelView,
    stack: Seq<FiberId>,
    owner: FiberId,
    realm: RealmId,
    key: TypeId,
    service: ServiceId,
)
    requires
        kernel_ok(k),
        stack_ok(k, stack),
        stack.len() > 0,
        is_active(k, owner),
        held_by(k, owner, realm, key, service),
    ensures
        held_by(dispose_step(k, stack).0, owner, realm, key, service),
{
    let (k2, step) = dispose_step(k, stack);
    let top = stack.last();
    assert(is_disposing(k, stack[stack.len() - 1]));
    lemma_step_shape(k, stack);
    lemma_top_step(k, top);
    let f = k.fibers[top.0 as int];
    assert forall|i: int| 0 <= i < k2.fibers.len() && i != owner.0 implies !owns(
        #[trigger] k2.fibers[i],
        realm,
        key,
        service,
    ) by {
        assert(!owns(k.fibers[i], realm, key, service));
        if owns(k2.fibers[i], realm, key, service) {
            lemma_owns_less(k.fibers[i], k2.fibers[i], realm, key, service);
        }
    }
    if f.phase matches Phase::Disposing(Stage::Drain, _) && f.disposables.len() > 0 {
        if let Disposable::Service(r, name, s) = f.disposables.last() {
            if r == realm && name.id == key && s == service {
                let n = f.disposables.len() - 1;
                assert(takes_back(f.disposables[n], realm, key, service));
                assert(owns(f, realm, key, service));
                assert(top != owner);
            }
        }
    }
}

proof fn lemma_run_keeps_binding(
    k: KernelView,
    stack: Seq<FiberId>,
    n: nat,
    owner: FiberId,
    realm: RealmId,
    key: TypeId,
    service: ServiceId,
)
    requires
        kernel_ok(k),
        stack_ok(k, stack),
        held_by(k, owner, realm, key, service),
        is_active(after_steps(k, stack, n).0, owner),
    ensures
        held_by(after_steps(k, stack, n).0, owner, realm, key, service),
        is_active(k, owner),
    decreases n,
{
    lemma_run_onward(k, stack, n);
    if n > 0 {
        lemma_run_onward(k, stack, (n - 1) as nat);
        let (mid, rest) = after_steps(k, stack, (n - 1) as nat);
        if rest.len() > 0 {
            lemma_step_shape(mid, rest);
            assert(is_disposing(mid, rest[rest.len() - 1]));
            assert(is_active(mid, owner));
            lemma_run_keeps_binding(k, stack, (n - 1) as nat, owner, realm, key, service);
            lemma_step_keeps_binding(mid, rest, owner, realm, key, service);
        } else {
            lemma_run_keeps_binding(k, stack, (n - 1) as nat, owner, realm, key, service);
        }
    }
}

proof fn lemma_disposals_keep_binding(
    k: KernelView,
    k2: KernelView,
    ids: Seq<FiberId>,
    steps: Seq<Step>,
    owner: FiberId,
    realm: RealmId,
    key: TypeId,
    service: ServiceId,
)
    requires
        kernel_ok(k),
        disposal_of_all(k, k2, ids, steps),
        held_by(k, owner, realm, key, service),
        is_active(k2, owner),
    ensures
        held_by(k2, owner, realm, key, service),
        is_active(k, owner),
        kernel_ok(k2),
    decreases ids.len(),
{
    if ids.len() > 0 {
        let (mid, n) = choose|mid: KernelView, n: int|
            0 <= n <= steps.len() && disposal_of_all(
                k,
                mid,
                ids.drop_last(),
                steps.take(n),
            ) && #[trigger] disposal_of(mid, k2, ids.last(), State::Disposed, steps.skip(n));
        law_disposals_move_onward(k, mid, ids.drop_last(), steps.take(n));
        law_whole_disposals_move_onward(mid, k2, ids.last(), State::Disposed, steps.skip(n));
        assert(onward(mid.fibers[owner.0 as int], k2.fibers[owner.0 as int]));
        lemma_disposals_keep_binding(
            k,
            mid,
            ids.drop_last(),
            steps.take(n),
            owner,
            realm,
            key,
            service,
        );
        let id = ids.last();
        if is_active(mid, id) {
            let start = begin(mid, id, State::Disposed);
            lemma_begin_ok(mid, id, State::Disposed);
            assert forall|i: int| 0 <= i < start.fibers.len() && i != owner.0 implies !owns(
                #[trigger] start.fibers[i],
                realm,
                key,
                service,
            ) by {
                assert(!owns(mid.fibers[i], realm, key, service));
                if owns(start.fibers[i], realm, key, service) {
                    lemma_owns_less(mid.fibers[i], start.fibers[i], realm, key, service);
                }
            }
            lemma_run_keeps_binding(
                start,
                seq![id],
                (steps.skip(n).len() - 1) as nat,
                owner,
                realm,
                key,
                service,
            );
        }
    }
}

/// What was provided is what is read back: after a service that nobody had
/// provided before has been provided in a realm, the realm resolves the type
/// to it, as long as the provider itself did not fall to the replacement.
pub proof fn law_reads_give_back_what_was_provided(
    k: KernelView,
    k3: KernelView,
    ctx: Ctx,
    key: ServiceKey,
    service: ServiceId,
    steps: Seq<Step>,
    started: Seq<FiberId>,
)
    requires
        kernel_ok(k),
        ctx_ok(k, ctx),
        is_active(k, ctx.fiber),
        provided(k, k3, ctx, key, service, steps, started),
        !owned(k, ctx.realm, key.id, service),
        is_active(k3, ctx.fiber),
    ensures
        resolved(k3.realms, ctx.realm, key.id) == Some(service),
{
    let k1 = with_service(k, ctx, key, service);
    let lost = displaced(k, ctx, key, service);
    let k2 = choose|k2: KernelView| #[trigger]
        disconnected(k1, k2, lost, steps) && started == satisfied_ids(k2) && k3 == start_all(
            k2,
            started,
        );
    lemma_service_ok(k, ctx, key, service);
    lemma_satisfied_ids(k2);
    lemma_start_all(k2, started);
    assert forall|i: int| 0 <= i < k1.fibers.len() && i != ctx.fiber.0 implies !owns(
        #[trigger] k1.fibers[i],
        ctx.realm,
        key.id,
        service,
    ) by {
        assert(k1.fibers[i] == k.fibers[i]);
    }
    assert(held_by(k1, ctx.fiber, ctx.realm, key.id, service));
    lemma_disposals_keep_binding(
        k1,
        k2,
        lost,
        steps,
        ctx.fiber,
        ctx.realm,
        key.id,
        service,
    );
}

/// Providing where nothing was bound disposes nobody: what comes of it is the
/// binding, and the plugins that waited for it start.
pub proof fn law_first_provision_disposes_nobody(
    k: KernelView,
    k3: KernelView,
    ctx: Ctx,
    key: ServiceKey,
    service: ServiceId,
    steps: Seq<Step>,
    started: Seq<FiberId>,
)
    requires
        provided(k, k3, ctx, key, service, steps, started),
        !binds(k.realms, ctx.realm, key.id),
    ensures
        steps.len() == 0,
        started == satisfied_ids(with_service(k, ctx, key, service)),
        k3 == start_all(with_service(k, ctx, key, service), started),
{
}

// ---- the order of cleanups ----

proof fn lemma_run_stack(k: KernelView, id: FiberId, n: nat)
    requires
        kernel_ok(k),
        is_disposing(k, id),
        forall|i: int|
            0 <= i < k.fibers.len() && i != id.0 ==> !((#[trigger] k.fibers[i]).phase is Disposing),
    ensures
        ({
            let (k2, rest) = after_steps(k, seq![id], n);
            &&& rest.len() > 0 ==> rest[0] == id
            &&& forall|i: int|
                0 <= i < k2.fibers.len() && (#[trigger] k2.fibers[i]).phase is Disposing
                    ==> rest.contains(FiberId(i as u32))
        }),
    decreases n,
{
    let stack = seq![id];
    if n == 0 {
        assert(stack[0] == id);
        assert(FiberId(id.0 as int as u32) == id);
    } else {
        lemma_run_stack(k, id, (n - 1) as nat);
        lemma_run_onward(k, stack, (n - 1) as nat);
        let (mid, rest) = after_steps(k, stack, (n - 1) as nat);
        if rest.len() > 0 {
            lemma_step_shape(mid, rest);
            let (k2, step) = dispose_step(mid, rest);
            let rest2 = next_stack(rest, step);
            let top = rest.last();
            assert(is_disposing(mid, rest[rest.len() - 1]));
            assert forall|i: int|
                0 <= i < k2.fibers.len() && (#[trigger] k2.fibers[i]).phase is Disposing implies
                rest2.contains(FiberId(i as u32)) by {
                let me = FiberId(i as u32);
                match step {
                    Step::Began(other, _) => {
                        if me == other {
                            assert(rest2[rest2.len() - 1] == me);
                        } else {
                            assert(mid.fibers[i].phase is Disposing);
                            let j = choose|j: int| 0 <= j < rest.len() && rest[j] == me;
                            assert(rest2[j] == me);
                        }
                    },
                    Step::Settled(_, _) => {
                        assert(i != top.0);
                        assert(k2.fibers[i] == mid.fibers[i]);
                        let j = choose|j: int| 0 <= j < rest.len() && rest[j] == me;
                        assert(rest[j] != top);
                        assert(rest2[j] == me);
                    },
                    _ => {
                        if i == top.0 {
                            assert(rest[rest.len() - 1] == me);
                            assert(rest2.contains(me));
                        } else {
                            assert(k2.fibers[i] == mid.fibers[i]);
                        }
                    },
                }
            }
        }
    }
}

/// Descendants clean up before their ancestors: where no other disposal is
/// under way, every fiber below the one that is disposed is gone by the time
/// one of its own cleanups runs.
pub proof fn law_descendants_clean_up_first(
    k: KernelView,
    k2: KernelView,
    id: FiberId,
    outcome: State,
    steps: Seq<Step>,
    at: int,
    effect: u64,
    i: int,
    n: nat,
)
    requires
        kernel_ok(k),
        quiet(k),
        outcome is Failed || outcome is Disposed,
        disposal_of(k, k2, id, outcome, steps),
        is_active(k, id),
        1 <= at < steps.len(),
        steps[at] == Step::RunEffect(id, effect),
        0 <= i < k.fibers.len(),
        i != id.0,
        above(k.fibers, i, n) == id.0,
    ensures
        after_steps(begin(k, id, outcome), seq![id], (at - 1) as nat).0.fibers[i].phase is Gone,
{
    let start = begin(k, id, outcome);
    lemma_begin_ok(k, id, outcome);
    let m = (at - 1) as nat;
    lemma_run_onward(start, seq![id], m);
    lemma_run_stack(start, id, m);
    let (mid, rest) = after_steps(start, seq![id], m);
    assert(steps[at] == nth_step(start, seq![id], m));
    assert(rest.len() > 0);
    lemma_step_shape(mid, rest);
    assert(rest.last() == id);
    assert(rest[0] == id && rest[rest.len() - 1] == id);
    assert(rest.len() == 1);
    assert(rest =~= seq![id]);
    assert(evolves(start, mid));
    assert forall|j: int| 0 <= j < k.fibers.len() implies (#[trigger] mid.fibers[j]).parent
        == k.fibers[j].parent by {
        assert(onward(start.fibers[j], mid.fibers[j]));
    }
    lemma_above_same(k.fibers, mid.fibers, i, n);
    lemma_below_is_gone(mid, rest, id, i, n);
}

proof fn lemma_above_same(a: Seq<FiberView>, b: Seq<FiberView>, i: int, n: nat)
    requires
        a.len() == b.len(),
        0 <= i < a.len(),
        forall|j: int| 0 <= j < a.len() ==> (#[trigger] b[j]).parent == a[j].parent,
        forall|j: int| 0 <= j < a.len() ==> (#[trigger] a[j]).parent.0 <= j,
    ensures
        above(b, i, n) == above(a, i, n),
        0 <= above(a, i, n) <= i,
    decreases n,
{
    if n > 0 {
        lemma_above_same(a, b, i, (n - 1) as nat);
        let p = above(a, i, (n - 1) as nat);
        assert(b[p].parent == a[p].parent);
    }
}

/// The fiber above one's parent, one level less, is the fiber above oneself.
pub proof fn lemma_above_parent(fibers: Seq<FiberView>, i: int, n: nat)
    requires
        n > 0,
    ensures
        above(fibers, i, n) == above(fibers, fibers[i].parent.0 as int, (n - 1) as nat),
    decreases n,
{
    if n > 1 {
        lemma_above_parent(fibers, i, (n - 1) as nat);
        assert(above(fibers, i, n) == fibers[above(fibers, i, (n - 1) as nat)].parent.0);
    } else {
        assert(above(fibers, i, 0) == i);
        assert(above(fibers, fibers[i].parent.0 as int, 0) == fibers[i].parent.0);
        assert(above(fibers, i, 1) == fibers[above(fibers, i, 0)].parent.0);
    }
}

proof fn lemma_below_is_gone(k: KernelView, stack: Seq<FiberId>, id: FiberId, i: int, n: nat)
    requires
        kernel_ok(k),
        stack == seq![id],
        is_disposing(k, id),
        dispose_step(k, stack).1 is RunEffect,
        forall|j: int|
            0 <= j < k.fibers.len() && (#[trigger] k.fibers[j]).phase is Disposing
                ==> stack.contains(FiberId(j as u32)),
        0 <= i < k.fibers.len(),
        i != id.0,
        above(k.fibers, i, n) == id.0,
    ensures
        k.fibers[i].phase is Gone,
    decreases n,
{
    let parent = k.fibers[i].parent.0 as int;
    assert(n > 0);
    lemma_above_parent(k.fibers, i, n);
    if k.fibers[i].phase is Disposing {
        assert(stack.contains(FiberId(i as u32)));
        assert(false);
    }
    if i == 0 {
        assert(parent == 0);
        lemma_above_root(k.fibers, n);
    }
    assert(sheltered(k, i));
    if parent == id.0 {
        let f = k.fibers[parent];
        assert(dispose_step(k, stack) == fiber_step(k, id));
        assert(!(f.phase matches Phase::Disposing(Stage::Children, _)));
    } else {
        lemma_below_is_gone(k, stack, id, parent, (n - 1) as nat);
    }
}

proof fn lemma_above_root(fibers: Seq<FiberView>, n: nat)
    requires
        fibers.len() > 0,
        fibers[0].parent.0 == 0,
    ensures
        above(fibers, 0, n) == 0,
    decreases n,
{
    if n > 0 {
        lemma_above_root(fibers, (n - 1) as nat);
    }
}

} // verus!
