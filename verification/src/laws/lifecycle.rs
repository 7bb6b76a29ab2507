//! Lifecycles move onward only, plugins run on what they asked for, and
//! nothing outlives its fiber.

use crate::context::{Ctx, RealmId, ServiceId, binds, resolved, resolving};
use crate::disposal::{
    after_steps, disposal_of, disposal_of_all, effects_due, ends_with_the_queue,
    lemma_step_progress, lemma_step_shape, quiet, stack_ok, whole_disposal, wound_down,
};
use crate::events::{EventHandler, EventKey};
use crate::fiber::{Disposable, FiberId, FiberView, Phase, Stage, State, Task};
use crate::model::{
    KernelView, Step, announces, awaited, begin, dependents, dispose_step, fiber_step, is_active,
    is_disposing, is_hard, is_live, kernel_ok, may_start, met, needs, outcome_of, owned, owns,
    running, satisfied, satisfied_ids, setup_done, setup_failed, sheltered, start, start_all,
    started, supplied, unsettled, with_disposable, with_handler, with_late_handler,
    with_late_middleware, with_middleware, with_plugin, with_plugins, with_realm, with_scope,
    with_service, with_tasks,
};
use crate::pipeline::PipelineHandler;
use crate::plugin::{Dependency, PluginView};
use crate::seqs::{lemma_filter_contains, lemma_filter_unique};
use crate::service::ServiceKey;
use crate::upkeep::{lemma_begin_ok, lemma_dependents, lemma_start_all};
use std::any::TypeId;
use vstd::prelude::*;

verus! {

/// How far a state is along the way from `Pending` over `Starting` and
/// `Ready` to the end.
pub open spec fn rank(state: State) -> nat {
    match state {
        State::Pending => 0,
        State::Starting => 1,
        State::Ready => 2,
        State::Failed => 3,
        State::Disposed => 3,
    }
}

/// Whether a fiber has only moved on: it is the same plugin in the same
/// place, its state has not gone back, and once its disposal has started it
/// is not in use again. A fiber that is gone stays as it is.
pub open spec fn onward(a: FiberView, b: FiberView) -> bool {
    &&& b.parent == a.parent
    &&& b.realm == a.realm
    &&& b.name == a.name
    &&& b.inject == a.inject
    &&& b.declares == a.declares
    &&& rank(a.state) <= rank(b.state)
    &&& !(a.phase is Active) ==> !(b.phase is Active)
    &&& a.phase is Gone ==> b == a
}

/// Whether every fiber has only moved on. In between, fibers may have been
/// added.
pub open spec fn evolves(k: KernelView, k2: KernelView) -> bool {
    &&& k.fibers.len() <= k2.fibers.len()
    &&& forall|i: int| 0 <= i < k.fibers.len() ==> onward(k.fibers[i], #[trigger] k2.fibers[i])
}

/// Moving on twice is moving on. A plugin that was disposed never starts
/// again, whatever is done to the kernel.
pub proof fn law_lifecycles_compose(a: KernelView, b: KernelView, c: KernelView)
    requires
        evolves(a, b),
        evolves(b, c),
    ensures
        evolves(a, c),
        forall|i: int|
            0 <= i < a.fibers.len() && a.fibers[i].phase is Gone ==> #[trigger] c.fibers[i]
                == a.fibers[i],
{
    assert forall|i: int| 0 <= i < a.fibers.len() implies onward(
        a.fibers[i],
        #[trigger] c.fibers[i],
    ) by {
        assert(onward(a.fibers[i], b.fibers[i]));
        assert(onward(b.fibers[i], c.fibers[i]));
    }
}

/// Registering moves lifecycles onward only: new realms, new fibers, and
/// whatever a fiber in use registers.
pub proof fn law_registering_moves_onward(
    k: KernelView,
    ctx: Ctx,
    plugin: PluginView,
    name: Seq<char>,
    disposable: Disposable,
    tasks: Seq<Task>,
)
    ensures
        evolves(k, with_realm(k, Some(ctx.realm))),
        evolves(k, with_plugin(k, ctx, plugin)),
        evolves(k, with_scope(k, ctx, name)),
        is_active(k, ctx.fiber) ==> evolves(k, with_disposable(k, ctx.fiber, disposable)),
        is_active(k, ctx.fiber) ==> evolves(k, with_tasks(k, ctx.fiber, tasks)),
{
}

/// A pass of registrations moves lifecycles onward only.
pub proof fn law_batches_move_onward(k: KernelView, ctx: Ctx, plugins: Seq<PluginView>)
    ensures
        evolves(k, with_plugins(k, ctx, plugins)),
    decreases plugins.len(),
{
    if plugins.len() > 0 {
        let mid = with_plugins(k, ctx, plugins.drop_last());
        law_batches_move_onward(k, ctx, plugins.drop_last());
        assert forall|i: int| 0 <= i < k.fibers.len() implies onward(
            k.fibers[i],
            #[trigger] with_plugins(k, ctx, plugins).fibers[i],
        ) by {
            assert(onward(k.fibers[i], mid.fibers[i]));
        }
    }
}

/// Handlers, middlewares and services move lifecycles onward only.
pub proof fn law_providing_moves_onward(
    k: KernelView,
    ctx: Ctx,
    key: EventKey,
    point: TypeId,
    prepend: bool,
    service: ServiceKey,
    id: ServiceId,
)
    requires
        is_active(k, ctx.fiber),
    ensures
        evolves(k, with_handler(k, ctx, key)),
        evolves(k, with_middleware(k, ctx, point, prepend)),
        evolves(k, with_late_handler(k, key)),
        evolves(k, with_late_middleware(k)),
        evolves(k, with_service(k, ctx, service, id)),
{
}

/// Starting what can start moves lifecycles onward only.
pub proof fn law_starting_moves_onward(k: KernelView)
    requires
        kernel_ok(k),
    ensures
        evolves(k, start_all(k, satisfied_ids(k))),
        kernel_ok(start_all(k, satisfied_ids(k))),
{
    let ids = satisfied_ids(k);
    let k2 = start_all(k, ids);
    lemma_satisfied_ids(k);
    lemma_start_all(k, ids);
    assert forall|i: int| 0 <= i < k.fibers.len() implies onward(
        k.fibers[i],
        #[trigger] k2.fibers[i],
    ) by {
        let me = FiberId(i as u32);
        if ids.contains(me) {
            assert(k.pending.contains(me));
        }
    }
}

/// The end of a setup, well or not, moves lifecycles onward only. A setup that
/// failed never makes the fiber ready: its disposal starts, and it will end
/// failed.
pub proof fn law_setups_move_onward(k: KernelView, id: FiberId, reason: Seq<char>)
    requires
        kernel_ok(k),
    ensures
        evolves(k, setup_done(k, id)),
        evolves(k, setup_failed(k, id, reason)),
        is_active(k, id) && k.fibers[id.0 as int].setup ==> ({
            let f = setup_failed(k, id, reason).fibers[id.0 as int];
            &&& f.phase is Disposing
            &&& outcome_of(f) == State::Failed
            &&& f.failure == Some(reason)
        }),
{
}

/// Every step of a disposal moves lifecycles onward only.
pub proof fn law_disposal_moves_onward(k: KernelView, id: FiberId, outcome: State)
    requires
        kernel_ok(k),
    ensures
        evolves(k, begin(k, id, outcome)),
        is_disposing(k, id) ==> evolves(k, fiber_step(k, id).0),
{
    if is_disposing(k, id) {
        lemma_step_shape(k, seq![id]);
        assert(dispose_step(k, seq![id]) == fiber_step(k, id));
        let f = k.fibers[id.0 as int];
        let (k2, step) = fiber_step(k, id);
        match step {
            Step::Began(_, _) => {},
            _ => {
                let f2 = k2.fibers[id.0 as int];
                assert(onward(f, f2));
                assert forall|i: int| 0 <= i < k.fibers.len() implies onward(
                    k.fibers[i],
                    #[trigger] k2.fibers[i],
                ) by {
                    if i != id.0 {
                        assert(k2.fibers[i] == k.fibers[i]);
                    }
                }
            },
        }
    }
}

/// Whole disposals move lifecycles onward only.
pub proof fn law_disposals_move_onward(k: KernelView, k2: KernelView, ids: Seq<FiberId>, steps: Seq<Step>)
    requires
        kernel_ok(k),
        disposal_of_all(k, k2, ids, steps),
    ensures
        evolves(k, k2),
        kernel_ok(k2),
    decreases ids.len(),
{
    if ids.len() > 0 {
        let (mid, n) = choose|mid: KernelView, n: int|
            0 <= n <= steps.len() && disposal_of_all(
                k,
                mid,
                ids.drop_last(),
                steps.take(n),
            ) && #[trigger] disposal_of(mid, k2, ids.last(), State::Disposed, steps.skip(n));
        law_disposals_move_onward(k, mid, ids.drop_last(), steps.take(n));
        law_whole_disposals_move_onward(mid, k2, ids.last(), State::Disposed, steps.skip(n));
        law_lifecycles_compose(k, mid, k2);
    }
}

/// A whole disposal moves lifecycles onward only.
pub proof fn law_whole_disposals_move_onward(
    k: KernelView,
    k2: KernelView,
    id: FiberId,
    outcome: State,
    steps: Seq<Step>,
)
    requires
        kernel_ok(k),
        outcome is Failed || outcome is Disposed,
        disposal_of(k, k2, id, outcome, steps),
    ensures
        evolves(k, k2),
        kernel_ok(k2),
{
    if is_active(k, id) {
        let start = begin(k, id, outcome);
        lemma_begin_ok(k, id, outcome);
        law_disposal_moves_onward(k, id, outcome);
        lemma_run_onward(start, seq![id], (steps.len() - 1) as nat);
        law_lifecycles_compose(k, start, k2);
    }
}

/// What a number of steps keeps.
pub proof fn lemma_run_onward(k: KernelView, stack: Seq<FiberId>, n: nat)
    requires
        kernel_ok(k),
        stack_ok(k, stack),
    ensures
        ({
            let (k2, rest) = after_steps(k, stack, n);
            &&& evolves(k, k2)
            &&& kernel_ok(k2)
            &&& stack_ok(k2, rest)
            &&& k2.fibers.len() == k.fibers.len()
        }),
    decreases n,
{
    if n > 0 {
        lemma_run_onward(k, stack, (n - 1) as nat);
        let (mid, rest) = after_steps(k, stack, (n - 1) as nat);
        if rest.len() > 0 {
            lemma_step_progress(mid, rest);
            lemma_step_shape(mid, rest);
            assert(is_disposing(mid, rest[rest.len() - 1]));
            law_disposal_moves_onward(mid, rest.last(), State::Disposed);
            let k2 = dispose_step(mid, rest).0;
            law_lifecycles_compose(k, mid, k2);
        }
    }
}

/// What can start, starts: once the plugins that may start have been started,
/// none that may start is left waiting.
pub proof fn law_nothing_that_may_start_waits(k: KernelView, id: FiberId)
    requires
        kernel_ok(k),
    ensures
        ({
            let k2 = start_all(k, satisfied_ids(k));
            k2.pending.contains(id) ==> !satisfied(k2, id)
        }),
{
    let ids = satisfied_ids(k);
    let k2 = start_all(k, ids);
    lemma_satisfied_ids(k);
    lemma_start_all(k, ids);
    if k2.pending.contains(id) {
        let f = k.fibers[id.0 as int];
        assert(k2.fibers[id.0 as int] == f);
        assert(!satisfied(k, id));
        let i = choose|i: int|
            0 <= i < f.inject.len() && !met(k, id, #[trigger] f.inject[i]);
        assert(k2.fibers[id.0 as int].inject[i] == f.inject[i]);
        if let Dependency::Soft(key) = f.inject[i] {
            let j = choose|j: int|
                0 <= j < k.fibers.len() && j != id.0 && unsettled(#[trigger] k.fibers[j])
                    && announces(k.fibers[j], key.id);
            if ids.contains(FiberId(j as u32)) {
                assert(k2.fibers[j] == started(k.fibers[j]));
            }
            assert(unsettled(k2.fibers[j]));
            assert(announces(k2.fibers[j], key.id)) by {
                let m = choose|m: int|
                    0 <= m < k.fibers[j].declares.len() && (#[trigger] k.fibers[j].declares[m]).id
                        == key.id;
                assert(k2.fibers[j].declares[m].id == key.id);
            }
            assert(awaited(k2, id, key.id));
        }
        assert(!met(k2, id, f.inject[i]));
    }
}

/// The fibers that may start wait in the queue, each once.
pub proof fn lemma_satisfied_ids(k: KernelView)
    requires
        kernel_ok(k),
    ensures
        satisfied_ids(k).no_duplicates(),
        forall|i: int|
            0 <= i < satisfied_ids(k).len() ==> k.pending.contains(#[trigger] satisfied_ids(k)[i])
                && satisfied(k, satisfied_ids(k)[i]),
        forall|id: FiberId| #[trigger]
            satisfied_ids(k).contains(id) <==> k.pending.contains(id) && satisfied(k, id),
{
    let ids = satisfied_ids(k);
    lemma_filter_unique(k.pending, may_start(k));
    lemma_filter_contains(k.pending, may_start(k));
    assert forall|i: int| 0 <= i < ids.len() implies k.pending.contains(#[trigger] ids[i])
        && satisfied(k, ids[i]) by {
        assert(ids.contains(ids[i]));
    }
}

/// A plugin that has started and is in use has everything it hard-depends on,
/// at every moment: when its setup runs, the services are in the table.
pub proof fn law_running_plugins_are_supplied(k: KernelView, id: FiberId, key: TypeId)
    requires
        kernel_ok(k),
        id.0 < k.fibers.len(),
        running(k.fibers[id.0 as int]),
        needs(k.fibers[id.0 as int], key),
    ensures
        resolved(k.realms, k.fibers[id.0 as int].realm, key) is Some,
{
    assert(supplied(k.realms, k.fibers[id.0 as int]));
    assert(resolving(k.realms, k.fibers[id.0 as int].realm, key) is Some);
}

/// A plugin waits exactly while a hard dependency does not resolve in its
/// realm, or another fiber that declared to provide a soft one has yet to
/// settle. Waiting for a soft dependency never needs the service to exist.
pub proof fn law_what_plugins_wait_for(k: KernelView, id: FiberId)
    ensures
        !satisfied(k, id) <==> exists|i: int|
            0 <= i < k.fibers[id.0 as int].inject.len() && holds_back(
                k,
                id,
                #[trigger] k.fibers[id.0 as int].inject[i],
            ),
{
    let f = k.fibers[id.0 as int];
    assert forall|i: int| 0 <= i < f.inject.len() implies holds_back(
        k,
        id,
        #[trigger] f.inject[i],
    ) == !met(k, id, f.inject[i]) by {}
}

/// Whether a dependency keeps the fiber waiting.
pub open spec fn holds_back(k: KernelView, id: FiberId, dependency: Dependency) -> bool {
    match dependency {
        Dependency::Hard(key) => resolved(
            k.realms,
            k.fibers[id.0 as int].realm,
            key.id,
        ) is None,
        Dependency::Soft(key) => exists|j: int|
            0 <= j < k.fibers.len() && j != id.0 && unsettled(#[trigger] k.fibers[j])
                && announces(k.fibers[j], key.id),
    }
}

/// Who is disconnected when a binding goes: exactly the plugins that run,
/// hard-depend on the type and resolve it at that realm, but for the one that
/// holds the binding. A soft dependency never disconnects, and neither does a
/// binding that another realm shadows.
pub proof fn law_who_is_disconnected(
    k: KernelView,
    realm: RealmId,
    key: TypeId,
    owner: FiberId,
    id: FiberId,
)
    requires
        kernel_ok(k),
    ensures
        dependents(k, realm, key, owner).contains(id) <==> id.0 < k.fibers.len() && id != owner
            && running(k.fibers[id.0 as int]) && needs(k.fibers[id.0 as int], key) && resolving(
            k.realms,
            k.fibers[id.0 as int].realm,
            key,
        ) == Some(realm),
        dependents(k, realm, key, owner).contains(id) ==> exists|i: int|
            0 <= i < k.fibers[id.0 as int].inject.len() && is_hard(
                #[trigger] k.fibers[id.0 as int].inject[i],
                key,
            ),
{
    lemma_dependents(k, realm, key, owner);
}

/// A fiber in use hangs off one that is in use, or that is only just
/// disposing its children: no plugin is left running under a parent whose
/// tasks have been stopped or whose cleanups have run.
pub proof fn law_children_go_first(k: KernelView, i: int)
    requires
        kernel_ok(k),
        0 < i < k.fibers.len(),
        k.fibers[i].phase is Active,
    ensures
        ({
            let parent = k.fibers[k.fibers[i].parent.0 as int];
            parent.phase is Active || parent.phase matches Phase::Disposing(Stage::Children, _)
        }),
{
    assert(sheltered(k, i));
}

/// The fiber `n` levels above a fiber.
pub open spec fn above(fibers: Seq<FiberView>, i: int, n: nat) -> int
    decreases n,
{
    if n == 0 {
        i
    } else {
        fibers[above(fibers, i, (n - 1) as nat)].parent.0 as int
    }
}

/// Disposing a parent cascades: where no disposal is under way, everything
/// above a fiber in use is in use, all the way up to the root.
pub proof fn law_disposal_cascades(k: KernelView, i: int, n: nat)
    requires
        kernel_ok(k),
        quiet(k),
        0 <= i < k.fibers.len(),
        k.fibers[i].phase is Active,
    ensures
        0 <= above(k.fibers, i, n) <= i,
        k.fibers[above(k.fibers, i, n)].phase is Active,
    decreases n,
{
    if n > 0 {
        law_disposal_cascades(k, i, (n - 1) as nat);
        let p = above(k.fibers, i, (n - 1) as nat);
        assert(sheltered(k, p));
        let up = k.fibers[p].parent.0 as int;
        assert(!(k.fibers[up].phase is Disposing));
    }
}

/// Nothing outlives its fiber: no event handler and no middleware belongs to
/// a fiber that is gone, and every service in the table has a fiber that is
/// not gone and will take it back.
pub proof fn law_nothing_outlives_its_fiber(
    k: KernelView,
    handler: EventHandler,
    middleware: PipelineHandler,
    realm: RealmId,
    key: TypeId,
)
    requires
        kernel_ok(k),
    ensures
        k.handlers.contains(handler) ==> is_live(k, handler.fiber),
        k.middlewares.contains(middleware) ==> is_live(k, middleware.fiber),
        binds(k.realms, realm, key) ==> exists|i: int|
            0 <= i < k.fibers.len() && !(k.fibers[i].phase is Gone) && owns(
                #[trigger] k.fibers[i],
                realm,
                key,
                k.realms[realm.0 as int].services[key],
            ),
{
    if binds(k.realms, realm, key) {
        let service = k.realms[realm.0 as int].services[key];
        assert(owned(k, realm, key, service));
        let i = choose|i: int|
            0 <= i < k.fibers.len() && owns(#[trigger] k.fibers[i], realm, key, service);
        assert(!(k.fibers[i].phase is Gone));
    }
}

/// Cleanups run last in first out: whatever a fiber registers is cleaned up
/// before everything it registered earlier.
pub proof fn law_last_registered_is_cleaned_up_first(
    k: KernelView,
    id: FiberId,
    effect: u64,
)
    requires
        is_active(k, id),
    ensures
        ({
            let k2 = with_disposable(k, id, Disposable::Effect(effect));
            effects_due(k2.fibers[id.0 as int].disposables) == seq![effect] + effects_due(
                k.fibers[id.0 as int].disposables,
            )
        }),
{
    let d = k.fibers[id.0 as int].disposables;
    assert(d.push(Disposable::Effect(effect)).drop_last() =~= d);
}

/// A kernel that was disposed stays so: disposing it again changes nothing and
/// takes no steps, and a plugin registered on the root context later is
/// disposed from the start and never started.
pub proof fn law_a_disposed_kernel_stays_disposed(
    k: KernelView,
    k2: KernelView,
    steps: Seq<Step>,
    plugin: PluginView,
    realm: RealmId,
)
    requires
        kernel_ok(k),
        wound_down(k),
        whole_disposal(k, k2, steps),
    ensures
        k2 == k,
        steps.len() == 0,
        ({
            let later = with_plugin(k, Ctx { fiber: FiberId(0), realm }, plugin);
            &&& later.fibers.last().state is Disposed
            &&& later.fibers.last().phase is Gone
            &&& wound_down(later)
            &&& satisfied_ids(later) == Seq::<FiberId>::empty()
        }),
{
    let (mid, n) = choose|mid: KernelView, n: int| ends_with_the_queue(k, mid, k2, n, steps);
    assert(mid == k);
    assert(steps.take(n).len() == 0);
    assert(steps.skip(n).len() == 0);
    let later = with_plugin(k, Ctx { fiber: FiberId(0), realm }, plugin);
    assert(k.pending =~= Seq::<FiberId>::empty());
    reveal(Seq::filter);
    assert(satisfied_ids(later) =~= Seq::<FiberId>::empty());
}

} // verus!
