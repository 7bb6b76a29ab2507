//! The kernel as a state, and what each operation makes of it.

use crate::context::{Ctx, RealmId, RealmView, ServiceId, binds, bound, resolving, unbound_if};
use crate::events::{EventHandler, EventKey};
use crate::fiber::{Disposable, FiberId, FiberView, Phase, Stage, State, Task, fresh_fiber};
use crate::pipeline::PipelineHandler;
use crate::plugin::{Dependency, PluginView};
use crate::seqs::ids_where;
use crate::service::ServiceKey;
use crate::table::rows_map;
use std::any::TypeId;
use vstd::prelude::*;

verus! {

/// Everything the kernel holds.
#[verifier::ext_equal]
pub struct KernelView {
    pub realms: Seq<RealmView>,
    /// Every fiber that was ever made, by number.
    pub fibers: Seq<FiberView>,
    /// The fibers that wait for their dependencies, in the order they came.
    pub pending: Seq<FiberId>,
    /// The event handlers, in the order they were registered.
    pub handlers: Seq<EventHandler>,
    /// The middlewares, in the order they were registered.
    pub middlewares: Seq<PipelineHandler>,
    pub next_handler: int,
    /// The event families that a handler was ever registered for.
    pub families: Seq<EventKey>,
    /// The name of each event or decision type, as first recorded.
    pub type_names: Seq<(TypeId, &'static str)>,
    /// The name of each extension point that had a middleware once, as last
    /// recorded.
    pub points: Seq<(TypeId, &'static str)>,
}

/// Whether the fiber exists and is not gone.
pub open spec fn is_live(k: KernelView, id: FiberId) -> bool {
    id.0 < k.fibers.len() && !(k.fibers[id.0 as int].phase is Gone)
}

/// Whether the fiber exists and nothing has started to dispose it.
pub open spec fn is_active(k: KernelView, id: FiberId) -> bool {
    id.0 < k.fibers.len() && k.fibers[id.0 as int].phase is Active
}

/// Whether the fiber's disposal has started and not finished.
pub open spec fn is_disposing(k: KernelView, id: FiberId) -> bool {
    id.0 < k.fibers.len() && k.fibers[id.0 as int].phase is Disposing
}

/// Whether the plugin has started and nothing has started to dispose it.
pub open spec fn running(f: FiberView) -> bool {
    f.phase is Active && (f.state is Starting || f.state is Ready)
}

/// Whether the plugin has yet to show what it provides.
pub open spec fn unsettled(f: FiberView) -> bool {
    f.phase is Active && (f.state is Pending || f.state is Starting)
}

/// Whether the plugin hard-depends on the type.
pub open spec fn needs(f: FiberView, key: TypeId) -> bool {
    exists|i: int| 0 <= i < f.inject.len() && is_hard(#[trigger] f.inject[i], key)
}

/// Whether this is a hard dependency on the type.
pub open spec fn is_hard(dependency: Dependency, key: TypeId) -> bool {
    match dependency {
        Dependency::Hard(service) => service.id == key,
        Dependency::Soft(_) => false,
    }
}

/// Whether the plugin declared to provide the type.
pub open spec fn announces(f: FiberView, key: TypeId) -> bool {
    exists|i: int| 0 <= i < f.declares.len() && (#[trigger] f.declares[i]).id == key
}

/// Whether another fiber that declared the type has yet to settle.
pub open spec fn awaited(k: KernelView, id: FiberId, key: TypeId) -> bool {
    exists|j: int|
        0 <= j < k.fibers.len() && j != id.0 && unsettled(#[trigger] k.fibers[j]) && announces(
            k.fibers[j],
            key,
        )
}

/// Whether a dependency lets the fiber start: a hard one must resolve, a soft
/// one must have nobody left to wait for.
pub open spec fn met(k: KernelView, id: FiberId, dependency: Dependency) -> bool {
    match dependency {
        Dependency::Hard(key) => resolving(
            k.realms,
            k.fibers[id.0 as int].realm,
            key.id,
        ) is Some,
        Dependency::Soft(key) => !awaited(k, id, key.id),
    }
}

/// Whether every dependency of the fiber lets it start.
pub open spec fn satisfied(k: KernelView, id: FiberId) -> bool {
    forall|i: int|
        0 <= i < k.fibers[id.0 as int].inject.len() ==> met(
            k,
            id,
            #[trigger] k.fibers[id.0 as int].inject[i],
        )
}

/// Picks the fibers whose dependencies let them start.
pub open spec fn may_start(k: KernelView) -> spec_fn(FiberId) -> bool {
    |id: FiberId| satisfied(k, id)
}

/// The waiting fibers that may start, in the order they came.
pub open spec fn satisfied_ids(k: KernelView) -> Seq<FiberId> {
    k.pending.filter(may_start(k))
}

/// Picks the children whose disposal has not started.
pub open spec fn child_of(k: KernelView, parent: FiberId) -> spec_fn(FiberId) -> bool {
    |id: FiberId|
        id != parent && k.fibers[id.0 as int].parent == parent
            && k.fibers[id.0 as int].phase is Active
}

/// The children whose disposal has not started, eldest first.
pub open spec fn children(k: KernelView, parent: FiberId) -> Seq<FiberId> {
    ids_where(k.fibers.len(), child_of(k, parent))
}

/// Whether the fiber runs on the binding that `realm` holds for the type.
pub open spec fn depends(k: KernelView, id: FiberId, realm: RealmId, key: TypeId) -> bool {
    let f = k.fibers[id.0 as int];
    running(f) && needs(f, key) && resolving(k.realms, f.realm, key) == Some(realm)
}

/// The fibers that run on the binding that `realm` holds for the type, but
/// for one, eldest first.
pub open spec fn dependents(
    k: KernelView,
    realm: RealmId,
    key: TypeId,
    exclude: FiberId,
) -> Seq<FiberId> {
    ids_where(k.fibers.len(), dependent_on(k, realm, key, exclude))
}

/// Picks the fibers that run on the binding, but for one.
pub open spec fn dependent_on(
    k: KernelView,
    realm: RealmId,
    key: TypeId,
    exclude: FiberId,
) -> spec_fn(FiberId) -> bool {
    |id: FiberId| id != exclude && depends(k, id, realm, key)
}

/// Picks everything but one fiber.
pub open spec fn other_than(id: FiberId) -> spec_fn(FiberId) -> bool {
    |p: FiberId| p != id
}

/// The queue without one fiber.
pub open spec fn unqueued(pending: Seq<FiberId>, id: FiberId) -> Seq<FiberId> {
    pending.filter(other_than(id))
}

/// The kernel with one fiber changed.
pub open spec fn with_fiber(k: KernelView, id: FiberId, f: FiberView) -> KernelView {
    KernelView { fibers: k.fibers.update(id.0 as int, f), ..k }
}

/// Whether the context's fiber and realm exist.
pub open spec fn ctx_ok(k: KernelView, ctx: Ctx) -> bool {
    ctx.fiber.0 < k.fibers.len() && ctx.realm.0 < k.realms.len()
}

// ---- operations ----

/// A kernel with a ready root fiber and an empty root realm.
pub open spec fn fresh_kernel() -> KernelView {
    KernelView {
        realms: seq![RealmView { parent: None, services: Map::empty() }],
        fibers: seq![
            fresh_fiber(
                FiberId(0),
                RealmId(0),
                "root"@,
                State::Ready,
                Phase::Active,
                Seq::empty(),
                Seq::empty(),
            ),
        ],
        pending: Seq::empty(),
        handlers: Seq::empty(),
        middlewares: Seq::empty(),
        next_handler: 0,
        families: Seq::empty(),
        type_names: Seq::empty(),
        points: Seq::empty(),
    }
}

/// The kernel with one more realm.
pub open spec fn with_realm(k: KernelView, parent: Option<RealmId>) -> KernelView {
    KernelView { realms: k.realms.push(RealmView { parent, services: Map::empty() }), ..k }
}

/// The kernel with one more fiber below the context's: waiting in the queue
/// if that one is in use, gone from the start if not.
pub open spec fn with_plugin(
    k: KernelView,
    ctx: Ctx,
    plugin: PluginView,
) -> KernelView {
    if is_active(k, ctx.fiber) {
        KernelView {
            fibers: k.fibers.push(plugin_fiber(ctx, plugin, State::Pending, Phase::Active)),
            pending: k.pending.push(FiberId(k.fibers.len() as u32)),
            ..k
        }
    } else {
        KernelView {
            fibers: k.fibers.push(plugin_fiber(ctx, plugin, State::Disposed, Phase::Gone)),
            ..k
        }
    }
}

/// A fiber for a plugin, below the context's fiber and in its realm.
pub open spec fn plugin_fiber(
    ctx: Ctx,
    plugin: PluginView,
    state: State,
    phase: Phase,
) -> FiberView {
    fresh_fiber(
        ctx.fiber,
        ctx.realm,
        plugin.name,
        state,
        phase,
        plugin.inject,
        plugin.provides,
    )
}

/// The kernel with one more fiber for each plugin, in order.
pub open spec fn with_plugins(k: KernelView, ctx: Ctx, plugins: Seq<PluginView>) -> KernelView
    decreases plugins.len(),
{
    if plugins.len() == 0 {
        k
    } else {
        with_plugin(with_plugins(k, ctx, plugins.drop_last()), ctx, plugins.last())
    }
}

/// The kernel with one more fiber below the context's that runs no plugin:
/// ready at once if that one is in use, gone from the start if not.
pub open spec fn with_scope(k: KernelView, ctx: Ctx, name: Seq<char>) -> KernelView {
    let (state, phase) = if is_active(k, ctx.fiber) {
        (State::Ready, Phase::Active)
    } else {
        (State::Disposed, Phase::Gone)
    };
    KernelView {
        fibers: k.fibers.push(
            fresh_fiber(ctx.fiber, ctx.realm, name, state, phase, Seq::empty(), Seq::empty()),
        ),
        ..k
    }
}

/// The fiber with its setup running.
pub open spec fn started(f: FiberView) -> FiberView {
    FiberView { state: State::Starting, setup: true, ..f }
}

/// The kernel with a waiting fiber taken out of the queue and started.
pub open spec fn start(k: KernelView, id: FiberId) -> KernelView {
    KernelView {
        pending: unqueued(k.pending, id),
        ..with_fiber(k, id, started(k.fibers[id.0 as int]))
    }
}

/// The kernel with the given waiting fibers started, one after the other.
pub open spec fn start_all(k: KernelView, ids: Seq<FiberId>) -> KernelView
    decreases ids.len(),
{
    if ids.len() == 0 {
        k
    } else {
        start(start_all(k, ids.drop_last()), ids.last())
    }
}

/// The kernel once a running setup has ended well.
pub open spec fn setup_done(k: KernelView, id: FiberId) -> KernelView {
    if is_active(k, id) && k.fibers[id.0 as int].setup {
        with_fiber(
            k,
            id,
            FiberView { state: State::Ready, setup: false, ..k.fibers[id.0 as int] },
        )
    } else {
        k
    }
}

/// The kernel once a running setup has failed: the reason is kept and the
/// fiber's disposal starts; it will end failed.
pub open spec fn setup_failed(k: KernelView, id: FiberId, reason: Seq<char>) -> KernelView {
    if is_active(k, id) && k.fibers[id.0 as int].setup {
        begin(
            with_fiber(k, id, FiberView { failure: Some(reason), ..k.fibers[id.0 as int] }),
            id,
            State::Failed,
        )
    } else {
        k
    }
}

/// The kernel with the disposal of a fiber started. A fiber whose disposal
/// has started before, or that does not exist, is left alone.
pub open spec fn begin(k: KernelView, id: FiberId, outcome: State) -> KernelView {
    if is_active(k, id) {
        KernelView {
            pending: unqueued(k.pending, id),
            ..with_fiber(
                k,
                id,
                FiberView {
                    phase: Phase::Disposing(Stage::Children, outcome),
                    setup: false,
                    ..k.fibers[id.0 as int]
                },
            )
        }
    } else {
        k
    }
}

/// The kernel with one more thing for a fiber to clean up.
pub open spec fn with_disposable(
    k: KernelView,
    id: FiberId,
    disposable: Disposable,
) -> KernelView {
    let f = k.fibers[id.0 as int];
    with_fiber(k, id, FiberView { disposables: f.disposables.push(disposable), ..f })
}

/// Adds an element that is not there yet.
pub open spec fn noted<A>(s: Seq<A>, x: A) -> Seq<A> {
    if s.contains(x) {
        s
    } else {
        s.push(x)
    }
}

/// The rows with a name recorded for a type, unless there is one already.
pub open spec fn recorded(
    rows: Seq<(TypeId, &'static str)>,
    id: TypeId,
    name: &'static str,
) -> Seq<(TypeId, &'static str)> {
    if rows_map(rows).dom().contains(id) {
        rows
    } else {
        rows.push((id, name))
    }
}

/// A row with the name replaced where it is the type's.
pub open spec fn relabel(id: TypeId, name: &'static str) -> spec_fn((TypeId, &'static str)) -> (
    TypeId,
    &'static str,
) {
    |row: (TypeId, &'static str)|
        if row.0 == id {
            (id, name)
        } else {
            row
        }
}

/// The rows with a name recorded for a type, in place of the one before.
pub open spec fn renamed(
    rows: Seq<(TypeId, &'static str)>,
    id: TypeId,
    name: &'static str,
) -> Seq<(TypeId, &'static str)> {
    if rows_map(rows).dom().contains(id) {
        rows.map_values(relabel(id, name))
    } else {
        rows.push((id, name))
    }
}

/// The kernel with an event handler registered on a fiber in use.
pub open spec fn with_handler(
    k: KernelView,
    ctx: Ctx,
    key: EventKey,
) -> KernelView {
    let id = k.next_handler as u64;
    with_disposable(
        KernelView {
            handlers: k.handlers.push(
                EventHandler { key, realm: ctx.realm, fiber: ctx.fiber, id },
            ),
            next_handler: k.next_handler + 1,
            families: noted(k.families, key),
            ..k
        },
        ctx.fiber,
        Disposable::Handler(key, id),
    )
}

/// The kernel with a middleware registered on a fiber in use.
pub open spec fn with_middleware(
    k: KernelView,
    ctx: Ctx,
    point: TypeId,
    prepend: bool,
) -> KernelView {
    let id = k.next_handler as u64;
    with_disposable(
        KernelView {
            middlewares: k.middlewares.push(
                PipelineHandler { point, realm: ctx.realm, fiber: ctx.fiber, id, prepend },
            ),
            next_handler: k.next_handler + 1,
            ..k
        },
        ctx.fiber,
        Disposable::Middleware(point, id),
    )
}

/// The kernel once an event handler came to a fiber that is not in use: it
/// gets its number and its family is noted, but it is not kept.
pub open spec fn with_late_handler(k: KernelView, key: EventKey) -> KernelView {
    KernelView { next_handler: k.next_handler + 1, families: noted(k.families, key), ..k }
}

/// The kernel once a middleware came to a fiber that is not in use: it gets
/// its number, but it is not kept.
pub open spec fn with_late_middleware(k: KernelView) -> KernelView {
    KernelView { next_handler: k.next_handler + 1, ..k }
}

/// The kernel with a service provided by a fiber in use.
pub open spec fn with_service(
    k: KernelView,
    ctx: Ctx,
    key: ServiceKey,
    service: ServiceId,
) -> KernelView {
    with_disposable(
        KernelView { realms: bound(k.realms, ctx.realm, key.id, service), ..k },
        ctx.fiber,
        Disposable::Service(ctx.realm, key, service),
    )
}

/// The kernel with the tasks of one fiber changed.
pub open spec fn with_tasks(k: KernelView, id: FiberId, tasks: Seq<Task>) -> KernelView {
    with_fiber(k, id, FiberView { tasks, ..k.fibers[id.0 as int] })
}

/// The event handlers without one.
pub open spec fn unheard(handlers: Seq<EventHandler>, key: EventKey, id: u64) -> Seq<EventHandler> {
    handlers.filter(other_handler(key, id))
}

/// Picks everything but one event handler.
pub open spec fn other_handler(key: EventKey, id: u64) -> spec_fn(EventHandler) -> bool {
    |h: EventHandler| !(h.key == key && h.id == id)
}

/// The middlewares without one.
pub open spec fn unwrapped(
    middlewares: Seq<PipelineHandler>,
    point: TypeId,
    id: u64,
) -> Seq<PipelineHandler> {
    middlewares.filter(other_middleware(point, id))
}

/// Picks everything but one middleware.
pub open spec fn other_middleware(point: TypeId, id: u64) -> spec_fn(PipelineHandler) -> bool {
    |m: PipelineHandler| !(m.point == point && m.id == id)
}

// ---- disposal ----

/// What one step of a disposal did, and what is to be done before the next.
#[derive(Debug, Clone, Copy, PartialEq, Eq, Structural)]
pub enum Step {
    /// The disposal of another fiber has to come first and has started. If
    /// the flag is set, that fiber's setup was running and is to be cut off.
    Began(FiberId, bool),
    /// The fiber's tasks are to be stopped: plain ones cut off, graceful ones
    /// told to stop and waited for.
    StopTasks(FiberId),
    /// The cleanup with this number is to be run.
    RunEffect(FiberId, u64),
    /// Nothing is to be done.
    Quiet(FiberId),
    /// The fiber is gone and has ended in this state.
    Settled(FiberId, State),
    /// Nothing is left of the disposal.
    Done,
}

/// How the fiber being disposed will end.
pub open spec fn outcome_of(f: FiberView) -> State {
    match f.phase {
        Phase::Disposing(_, outcome) => outcome,
        _ => f.state,
    }
}

/// The fiber with its disposal moved on to a stage.
pub open spec fn at_stage(f: FiberView, stage: Stage) -> FiberView {
    FiberView { phase: Phase::Disposing(stage, outcome_of(f)), ..f }
}

/// The kernel with the last thing a fiber had to clean up crossed off.
pub open spec fn crossed_off(k: KernelView, id: FiberId) -> KernelView {
    let f = k.fibers[id.0 as int];
    with_fiber(k, id, FiberView { disposables: f.disposables.drop_last(), ..f })
}

/// Starts the disposal of a fiber that has to go first.
pub open spec fn begin_first(k: KernelView, id: FiberId) -> (KernelView, Step) {
    (
        begin(k, id, State::Disposed),
        Step::Began(id, k.fibers[id.0 as int].setup),
    )
}

/// Cleans up the last thing a fiber registered. A service leaves the table
/// only once nobody runs on it, and only if it is still the one bound there.
pub open spec fn drain_step(k: KernelView, id: FiberId) -> (KernelView, Step) {
    match k.fibers[id.0 as int].disposables.last() {
        Disposable::Effect(effect) => (crossed_off(k, id), Step::RunEffect(id, effect)),
        Disposable::Handler(key, handler) => (
            crossed_off(
                KernelView { handlers: unheard(k.handlers, key, handler), ..k },
                id,
            ),
            Step::Quiet(id),
        ),
        Disposable::Middleware(point, middleware) => (
            crossed_off(
                KernelView { middlewares: unwrapped(k.middlewares, point, middleware), ..k },
                id,
            ),
            Step::Quiet(id),
        ),
        Disposable::Service(realm, key, service) => {
            let first = dependents(k, realm, key.id, id);
            if bound_to(k.realms, realm, key.id, service) && first.len() > 0 {
                begin_first(k, first[0])
            } else {
                (
                    crossed_off(
                        KernelView { realms: unbound_if(k.realms, realm, key.id, service), ..k },
                        id,
                    ),
                    Step::Quiet(id),
                )
            }
        },
    }
}

/// Whether the realm binds the type to this service.
pub open spec fn bound_to(
    realms: Seq<RealmView>,
    realm: RealmId,
    key: TypeId,
    service: ServiceId,
) -> bool {
    binds(realms, realm, key) && realms[realm.0 as int].services[key] == service
}

/// One step in the disposal of a fiber: its children go first, eldest first;
/// its tasks are stopped; what it registered is cleaned up, last in first
/// out; and it is gone.
pub open spec fn fiber_step(k: KernelView, id: FiberId) -> (KernelView, Step) {
    let f = k.fibers[id.0 as int];
    match f.phase {
        Phase::Disposing(Stage::Children, _) => {
            let first = children(k, id);
            if first.len() > 0 {
                begin_first(k, first[0])
            } else {
                (with_fiber(k, id, at_stage(f, Stage::Tasks)), Step::Quiet(id))
            }
        },
        Phase::Disposing(Stage::Tasks, _) => if f.tasks.len() > 0 {
            (with_fiber(k, id, at_stage(f, Stage::Joining)), Step::StopTasks(id))
        } else {
            (with_fiber(k, id, at_stage(f, Stage::Drain)), Step::Quiet(id))
        },
        Phase::Disposing(Stage::Joining, _) => (
            with_fiber(
                k,
                id,
                FiberView { tasks: Seq::empty(), ..at_stage(f, Stage::Drain) },
            ),
            Step::Quiet(id),
        ),
        Phase::Disposing(Stage::Drain, outcome) => if f.disposables.len() > 0 {
            drain_step(k, id)
        } else {
            (
                with_fiber(
                    k,
                    id,
                    FiberView { state: outcome, phase: Phase::Gone, tasks: Seq::empty(), ..f },
                ),
                Step::Settled(id, outcome),
            )
        },
        _ => (k, Step::Done),
    }
}

/// One step of a disposal: the fiber on top of the stack is worked on.
pub open spec fn dispose_step(k: KernelView, stack: Seq<FiberId>) -> (KernelView, Step) {
    if stack.len() == 0 {
        (k, Step::Done)
    } else {
        fiber_step(k, stack.last())
    }
}

/// The stack after a step: a fiber that has to go first is put on top, a
/// fiber that is gone is taken off.
pub open spec fn next_stack(stack: Seq<FiberId>, step: Step) -> Seq<FiberId> {
    match step {
        Step::Began(id, _) => stack.push(id),
        Step::Settled(_, _) => stack.drop_last(),
        _ => stack,
    }
}

// ---- what always holds ----

/// Parents come before their children in the realm tree.
pub open spec fn tree_ok(realms: Seq<RealmView>) -> bool {
    &&& realms.len() > 0
    &&& realms[0].parent is None
    &&& forall|i: int|
        0 <= i < realms.len() ==> match (#[trigger] realms[i]).parent {
            Some(parent) => parent.0 < i,
            None => true,
        }
}

/// A plugin that runs has everything it hard-depends on.
pub open spec fn supplied(realms: Seq<RealmView>, f: FiberView) -> bool {
    running(f) ==> forall|key: TypeId|
        #![trigger resolving(realms, f.realm, key)]
        needs(f, key) ==> resolving(realms, f.realm, key) is Some
}

/// What holds of one fiber by itself.
pub open spec fn fiber_ok(f: FiberView) -> bool {
    match f.phase {
        Phase::Active => {
            &&& f.state is Pending || f.state is Starting || f.state is Ready
            &&& f.setup == (f.state is Starting)
        },
        Phase::Disposing(stage, outcome) => {
            &&& f.state is Pending || f.state is Starting || f.state is Ready
            &&& outcome is Failed || outcome is Disposed
            &&& !f.setup
            &&& stage is Drain ==> f.tasks.len() == 0
        },
        Phase::Gone => {
            &&& f.state is Failed || f.state is Disposed
            &&& f.disposables.len() == 0
            &&& f.tasks.len() == 0
            &&& !f.setup
        },
    }
}

/// Whether a fiber in this phase may have children in use.
pub open spec fn shelters(phase: Phase) -> bool {
    match phase {
        Phase::Active => true,
        Phase::Disposing(stage, _) => stage is Children,
        Phase::Gone => false,
    }
}

/// A fiber in use hangs off one that is in use or still has its children to
/// dispose.
pub open spec fn sheltered(k: KernelView, i: int) -> bool {
    i > 0 && k.fibers[i].phase is Active ==> shelters(
        k.fibers[k.fibers[i].parent.0 as int].phase,
    )
}

/// What holds of every fiber: it is in order by itself, and has its place in
/// the tree, where parents come before their children.
pub open spec fn fibers_ok(k: KernelView) -> bool {
    &&& 0 < k.fibers.len() <= u32::MAX
    &&& k.realms.len() <= u32::MAX
    &&& forall|i: int|
        #![trigger k.fibers[i]]
        0 <= i < k.fibers.len() ==> {
            &&& fiber_ok(k.fibers[i])
            &&& k.fibers[i].realm.0 < k.realms.len()
            &&& i > 0 ==> k.fibers[i].parent.0 < i
            &&& i == 0 ==> k.fibers[i].parent.0 == 0
            &&& supplied(k.realms, k.fibers[i])
        }
    &&& forall|i: int| 0 <= i < k.fibers.len() ==> #[trigger] sheltered(k, i)
}

/// The queue holds each waiting fiber once, and nothing else.
pub open spec fn pending_ok(k: KernelView) -> bool {
    &&& k.pending.no_duplicates()
    &&& forall|id: FiberId| #[trigger]
        k.pending.contains(id) <==> id.0 < k.fibers.len() && k.fibers[id.0 as int].phase is Active
            && k.fibers[id.0 as int].state is Pending
}

/// Whether this is the entry for taking a service back.
pub open spec fn takes_back(
    d: Disposable,
    realm: RealmId,
    key: TypeId,
    service: ServiceId,
) -> bool {
    match d {
        Disposable::Service(r, k, s) => r == realm && k.id == key && s == service,
        _ => false,
    }
}

/// Whether the fiber will take the service back.
pub open spec fn owns(f: FiberView, realm: RealmId, key: TypeId, service: ServiceId) -> bool {
    exists|j: int|
        0 <= j < f.disposables.len() && takes_back(
            #[trigger] f.disposables[j],
            realm,
            key,
            service,
        )
}

/// Whether some fiber will take the service back.
pub open spec fn owned(k: KernelView, realm: RealmId, key: TypeId, service: ServiceId) -> bool {
    exists|i: int| 0 <= i < k.fibers.len() && owns(#[trigger] k.fibers[i], realm, key, service)
}

/// Every service in the table has a fiber that will take it back.
pub open spec fn services_ok(k: KernelView) -> bool {
    forall|realm: RealmId, key: TypeId|
        #![trigger binds(k.realms, realm, key)]
        binds(k.realms, realm, key) ==> owned(
            k,
            realm,
            key,
            k.realms[realm.0 as int].services[key],
        )
}

/// Every event handler has a fiber that will take it out; they are numbered
/// in the order of registration.
pub open spec fn handlers_ok(k: KernelView) -> bool {
    &&& 0 <= k.next_handler <= u64::MAX
    &&& forall|i: int|
        #![trigger k.handlers[i]]
        0 <= i < k.handlers.len() ==> {
            let h = k.handlers[i];
            &&& h.id < k.next_handler
            &&& h.fiber.0 < k.fibers.len()
            &&& k.fibers[h.fiber.0 as int].disposables.contains(Disposable::Handler(h.key, h.id))
        }
    &&& forall|i: int, j: int|
        0 <= i < j < k.handlers.len() ==> (#[trigger] k.handlers[i]).id < (
        #[trigger] k.handlers[j]).id
}

/// Every middleware has a fiber that will take it out; they are numbered in
/// the order of registration.
pub open spec fn middlewares_ok(k: KernelView) -> bool {
    &&& forall|i: int|
        #![trigger k.middlewares[i]]
        0 <= i < k.middlewares.len() ==> {
            let m = k.middlewares[i];
            &&& m.id < k.next_handler
            &&& m.fiber.0 < k.fibers.len()
            &&& k.fibers[m.fiber.0 as int].disposables.contains(
                Disposable::Middleware(m.point, m.id),
            )
        }
    &&& forall|i: int, j: int|
        0 <= i < j < k.middlewares.len() ==> (#[trigger] k.middlewares[i]).id < (
        #[trigger] k.middlewares[j]).id
}

/// What always holds of a kernel.
pub open spec fn kernel_ok(k: KernelView) -> bool {
    &&& tree_ok(k.realms)
    &&& fibers_ok(k)
    &&& pending_ok(k)
    &&& services_ok(k)
    &&& handlers_ok(k)
    &&& middlewares_ok(k)
}

} // verus!
