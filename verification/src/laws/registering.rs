//! What is registered on a fiber, and what becomes of it.

use crate::context::{Ctx, RealmId, ServiceId, binds};
use crate::ctx::{Provided, disconnected, displaced};
use crate::events::{EventHandler, EventKey, TypeTag};
use crate::fiber::{Disposable, FiberId, FiberView, State, Task};
use crate::kernel::{Kernel, lemma_names_are_unique};
use crate::laws::disposing::law_replacing_disconnects_dependents;
use crate::laws::ending::runs_on_binding;
use crate::laws::lifecycle::{law_nothing_that_may_start_waits, lemma_satisfied_ids};
use crate::laws::starting::{lemma_ready, ready_to_start};
use crate::model::{
    KernelView, ctx_ok, depends, is_hard, needs, noted, satisfied_ids, start_all, with_disposable,
    with_service,
};
use crate::pipeline::PipelineHandler;
use crate::plugin::Dependency;
use crate::service::ServiceKey;
use crate::table::lemma_rows_map;
use crate::tree::lemma_push_contains;
use crate::upkeep::lemma_start_all;
use std::any::TypeId;
use vstd::prelude::*;

verus! {

/// Whether a fiber in use was given one more thing to clean up, behind those
/// it had, and no fiber was changed otherwise.
pub open spec fn deferred(k: KernelView, k2: KernelView, id: FiberId, what: Disposable) -> bool {
    let f = k.fibers[id.0 as int];
    k2.fibers == k.fibers.update(
        id.0 as int,
        FiberView { disposables: f.disposables + seq![what], ..f },
    )
}

/// Whether the fiber is there and in use.
pub open spec fn usable(k: KernelView, id: FiberId) -> bool {
    id.0 < k.fibers.len() && k.fibers[id.0 as int].phase is Active
}

proof fn lemma_deferred(k: KernelView, id: FiberId, what: Disposable)
    ensures
        k.fibers[id.0 as int].disposables.push(what) == k.fibers[id.0 as int].disposables + seq![
            what,
        ],
        with_disposable(k, id, what).fibers == k.fibers.update(
            id.0 as int,
            FiberView {
                disposables: k.fibers[id.0 as int].disposables + seq![what],
                ..k.fibers[id.0 as int]
            },
        ),
{
    let f = k.fibers[id.0 as int];
    assert(f.disposables.push(what) =~= f.disposables + seq![what]);
}

/// A cleanup is taken on by a fiber in use, behind what it has to clean up
/// already, and refused by any other.
pub proof fn law_cleanups_are_taken_on(kernel: &mut Kernel, ctx: Ctx, effect: u64, r: bool)
    requires
        old(kernel).wf(),
        call_ensures(Ctx::effect, (&ctx, kernel, effect), r),
    ensures
        ({
            let (k, k2) = (old(kernel)@, final(kernel)@);
            &&& r <==> usable(k, ctx.fiber)
            &&& !r ==> k2 == k
            &&& r ==> deferred(k, k2, ctx.fiber, Disposable::Effect(effect))
            &&& KernelView { fibers: k2.fibers, ..k } == k2
        }),
{
    lemma_deferred(old(kernel)@, ctx.fiber, Disposable::Effect(effect));
}

/// A service is bound in the realm of the context that provides it, and there
/// alone, and its fiber will take it back; on a fiber that is not in use
/// nothing happens. Who ran on a binding that was there is handed out, and
/// nobody where there was none.
pub proof fn law_services_are_bound_where_they_are_provided(
    kernel: &mut Kernel,
    ctx: Ctx,
    key: ServiceKey,
    service: ServiceId,
    r: Option<Vec<FiberId>>,
    realm: RealmId,
    other: TypeId,
)
    requires
        old(kernel).wf(),
        ctx_ok(old(kernel)@, ctx),
        realm.0 < old(kernel)@.realms.len(),
        call_ensures(Kernel::insert_service, (kernel, ctx, key, service), r),
    ensures
        ({
            let (k, k2) = (old(kernel)@, final(kernel)@);
            let (node, node2) = (k.realms[realm.0 as int], k2.realms[realm.0 as int]);
            let here = realm == ctx.realm && other == key.id;
            &&& r is Some <==> usable(k, ctx.fiber)
            &&& r is None ==> k2 == k
            &&& KernelView { realms: k2.realms, fibers: k2.fibers, ..k } == k2
            &&& k2.realms.len() == k.realms.len()
            &&& r is Some ==> {
                &&& deferred(k, k2, ctx.fiber, Disposable::Service(ctx.realm, key, service))
                &&& node2.parent == node.parent
                &&& here ==> node2.services.dom().contains(other) && node2.services[other]
                    == service
                &&& !here ==> (node2.services.dom().contains(other)
                    <==> node.services.dom().contains(other))
                &&& !here && node.services.dom().contains(other) ==> node2.services[other]
                    == node.services[other]
                &&& !k.realms[ctx.realm.0 as int].services.dom().contains(key.id)
                    ==> r->0@.len() == 0
            }
        }),
{
    lemma_deferred(old(kernel)@, ctx.fiber, Disposable::Service(ctx.realm, key, service));
}

/// A handler gets the next number, and its family is known from then on. On a
/// fiber in use it is kept, behind all that came before it, in the realm of
/// its context, until the fiber goes; on any other it is not kept.
pub proof fn law_handlers_are_kept_in_order(kernel: &mut Kernel, ctx: Ctx, key: EventKey, r: u64)
    requires
        old(kernel).wf(),
        old(kernel)@.next_handler < u64::MAX,
        call_ensures(Kernel::add_handler, (kernel, ctx, key), r),
    ensures
        ({
            let (k, k2) = (old(kernel)@, final(kernel)@);
            &&& r == k.next_handler
            &&& k2.next_handler == k.next_handler + 1
            &&& forall|x: EventKey| #[trigger]
                k2.families.contains(x) <==> k.families.contains(x) || x == key
            &&& k.families.is_prefix_of(k2.families)
            &&& k.families.contains(key) ==> k2.families == k.families
            &&& usable(k, ctx.fiber) ==> {
                &&& k2.handlers == k.handlers + seq![
                    EventHandler { key, realm: ctx.realm, fiber: ctx.fiber, id: r },
                ]
                &&& deferred(k, k2, ctx.fiber, Disposable::Handler(key, r))
            }
            &&& !usable(k, ctx.fiber) ==> k2.handlers == k.handlers && k2.fibers == k.fibers
            &&& KernelView {
                handlers: k2.handlers,
                fibers: k2.fibers,
                families: k2.families,
                next_handler: k2.next_handler,
                ..k
            } == k2
        }),
{
    let k = old(kernel)@;
    lemma_deferred(k, ctx.fiber, Disposable::Handler(key, r));
    assert(k.handlers.push(EventHandler { key, realm: ctx.realm, fiber: ctx.fiber, id: r })
        =~= k.handlers + seq![
        EventHandler { key, realm: ctx.realm, fiber: ctx.fiber, id: r },
    ]);
    assert forall|x: EventKey| #[trigger] noted(k.families, key).contains(x)
        <==> k.families.contains(x) || x == key by {
        lemma_push_contains(k.families, key, x);
    }
}

/// A middleware gets the next number. On a fiber in use it is kept, behind all
/// that came before it, in the realm of its context, until the fiber goes; on
/// any other it is not kept.
pub proof fn law_middlewares_are_kept_in_order(
    kernel: &mut Kernel,
    ctx: Ctx,
    point: TypeId,
    prepend: bool,
    r: u64,
)
    requires
        old(kernel).wf(),
        old(kernel)@.next_handler < u64::MAX,
        call_ensures(Kernel::add_pipeline, (kernel, ctx, point, prepend), r),
    ensures
        ({
            let (k, k2) = (old(kernel)@, final(kernel)@);
            &&& r == k.next_handler
            &&& k2.next_handler == k.next_handler + 1
            &&& usable(k, ctx.fiber) ==> {
                &&& k2.middlewares == k.middlewares + seq![
                    PipelineHandler {
                        point,
                        realm: ctx.realm,
                        fiber: ctx.fiber,
                        id: r,
                        prepend,
                    },
                ]
                &&& deferred(k, k2, ctx.fiber, Disposable::Middleware(point, r))
            }
            &&& !usable(k, ctx.fiber) ==> k2.middlewares == k.middlewares && k2.fibers == k.fibers
            &&& KernelView {
                middlewares: k2.middlewares,
                fibers: k2.fibers,
                next_handler: k2.next_handler,
                ..k
            } == k2
        }),
{
    lemma_deferred(old(kernel)@, ctx.fiber, Disposable::Middleware(point, r));
}

/// The first name of an event type stands, whatever is recorded later.
pub proof fn law_first_names_stand(kernel: &mut Kernel, tag: TypeTag)
    requires
        old(kernel).wf(),
        call_ensures(Kernel::note_type, (kernel, tag), ()),
    ensures
        ({
            let (k, k2) = (old(kernel)@, final(kernel)@);
            &&& KernelView { type_names: k2.type_names, ..k } == k2
            &&& k.type_names.is_prefix_of(k2.type_names)
            &&& (exists|a: int|
                0 <= a < k.type_names.len() && (#[trigger] k.type_names[a]).0 == tag.id)
                ==> k2.type_names == k.type_names
            &&& !(exists|a: int|
                0 <= a < k.type_names.len() && (#[trigger] k.type_names[a]).0 == tag.id)
                ==> k2.type_names == k.type_names + seq![(tag.id, tag.name)]
        }),
{
    lemma_names_are_unique(*old(kernel));
    lemma_rows_map(old(kernel)@.type_names);
}

/// The last name of an extension point stands, in the place of the one before.
pub proof fn law_last_names_of_points_stand(kernel: &mut Kernel, point: TypeTag, i: int)
    requires
        old(kernel).wf(),
        call_ensures(Kernel::note_pipeline, (kernel, point), ()),
        0 <= i < old(kernel)@.points.len(),
    ensures
        ({
            let (k, k2) = (old(kernel)@, final(kernel)@);
            &&& KernelView { points: k2.points, ..k } == k2
            &&& k2.points[i].0 == k.points[i].0
            &&& k2.points[i].1 == if k.points[i].0 == point.id {
                point.name
            } else {
                k.points[i].1
            }
            &&& (exists|a: int| 0 <= a < k.points.len() && (#[trigger] k.points[a]).0 == point.id)
                ==> k2.points.len() == k.points.len()
            &&& !(exists|a: int| 0 <= a < k.points.len() && (#[trigger] k.points[a]).0 == point.id)
                ==> k2.points == k.points + seq![(point.id, point.name)]
        }),
{
    lemma_names_are_unique(*old(kernel));
    lemma_rows_map(old(kernel)@.points);
}

/// A spawned task is tracked as one to cut off, a graceful one as one to tell
/// to stop; a fiber that is not in use refuses both.
pub proof fn law_spawned_tasks_are_tracked(
    kernel: &mut Kernel,
    ctx: Ctx,
    task: u64,
    graceful: bool,
    r: bool,
)
    requires
        old(kernel).wf(),
        if graceful {
            call_ensures(Ctx::spawn_graceful, (&ctx, kernel, task), r)
        } else {
            call_ensures(Ctx::spawn, (&ctx, kernel, task), r)
        },
    ensures
        ({
            let (k, k2) = (old(kernel)@, final(kernel)@);
            let f = k.fibers[ctx.fiber.0 as int];
            &&& r <==> usable(k, ctx.fiber)
            &&& !r ==> k2 == k
            &&& r ==> k2.fibers == k.fibers.update(
                ctx.fiber.0 as int,
                FiberView { tasks: f.tasks.push(Task { id: task, graceful }), ..f },
            )
            &&& KernelView { fibers: k2.fibers, ..k } == k2
        }),
{
}

/// A derived context keeps its fiber and gets a realm of its own, new and
/// empty, right below the one it was derived from.
pub proof fn law_derived_contexts_get_a_realm(kernel: &mut Kernel, ctx: Ctx, r: Ctx)
    requires
        old(kernel).wf(),
        ctx_ok(old(kernel)@, ctx),
        old(kernel)@.realms.len() < u32::MAX,
        call_ensures(Ctx::derive, (&ctx, kernel), r),
    ensures
        ({
            let (k, k2) = (old(kernel)@, final(kernel)@);
            &&& r.fiber == ctx.fiber
            &&& r.realm.0 == k.realms.len()
            &&& k2.realms.drop_last() == k.realms
            &&& k2.realms.last().parent == Some(ctx.realm)
            &&& forall|key: TypeId| !#[trigger] k2.realms.last().services.dom().contains(key)
            &&& KernelView { realms: k2.realms, ..k } == k2
        }),
{
}

/// A realm is new and empty, below the one it was made for or beside the root.
pub proof fn law_realms_are_made_empty(
    kernel: &mut Kernel,
    parent: Option<RealmId>,
    r: RealmId,
)
    requires
        old(kernel).wf(),
        old(kernel)@.realms.len() < u32::MAX,
        parent matches Some(p) ==> p.0 < old(kernel)@.realms.len(),
        call_ensures(Kernel::create_realm, (kernel, parent), r),
    ensures
        ({
            let (k, k2) = (old(kernel)@, final(kernel)@);
            &&& r.0 == k.realms.len()
            &&& k2.realms.drop_last() == k.realms
            &&& k2.realms.last().parent == parent
            &&& forall|key: TypeId| !#[trigger] k2.realms.last().services.dom().contains(key)
            &&& KernelView { realms: k2.realms, ..k } == k2
        }),
{
}

/// Providing does nothing on a fiber that is not in use. On one that is, it
/// binds the service; disposes whoever ran on the binding it replaces, and
/// nobody where it replaces none; and leaves nothing waiting that may start.
pub proof fn law_what_providing_does(
    kernel: &mut Kernel,
    ctx: Ctx,
    key: ServiceKey,
    service: ServiceId,
    r: Option<Provided>,
    i: int,
)
    requires
        old(kernel).wf(),
        ctx_ok(old(kernel)@, ctx),
        call_ensures(Ctx::provide, (&ctx, kernel, key, service), r),
        0 <= i < old(kernel)@.fibers.len(),
    ensures
        ({
            let (k, k2) = (old(kernel)@, final(kernel)@);
            let replaces = k.realms[ctx.realm.0 as int].services.dom().contains(key.id);
            &&& r is Some <==> usable(k, ctx.fiber)
            &&& r is None ==> k2 == k
            &&& k2.fibers.len() == k.fibers.len()
            &&& r matches Some(done) ==> {
                &&& !replaces ==> done.steps@.len() == 0
                &&& replaces && i != ctx.fiber.0 && runs_on_binding(k, ctx.realm, key.id, i)
                    ==> k2.fibers[i].phase is Gone && k2.fibers[i].state is Disposed
                &&& !replaces && i != ctx.fiber.0 ==> k2.fibers[i] == (if done.started@.contains(
                    FiberId(i as u32),
                ) {
                    FiberView { state: State::Starting, setup: true, ..k.fibers[i] }
                } else {
                    k.fibers[i]
                })
                &&& forall|id: FiberId| #[trigger]
                    k2.pending.contains(id) ==> !ready_to_start(k2, id)
            }
        }),
{
    let (k, k2) = (old(kernel)@, final(kernel)@);
    if let Some(done) = r {
        let start = with_service(k, ctx, key, service);
        let mid = choose|mid: KernelView| #[trigger]
            disconnected(start, mid, displaced(k, ctx, key, service), done.steps@)
                && done.started@ == satisfied_ids(mid) && k2 == start_all(mid, done.started@);
        lemma_satisfied_ids(mid);
        lemma_start_all(mid, done.started@);
        assert forall|id: FiberId| #[trigger] k2.pending.contains(id) implies !ready_to_start(
            k2,
            id,
        ) by {
            law_nothing_that_may_start_waits(mid, id);
            lemma_ready(k2, id);
        }
        if !k.realms[ctx.realm.0 as int].services.dom().contains(key.id) {
            assert(!binds(k.realms, ctx.realm, key.id));
            assert(mid == start);
            if i != ctx.fiber.0 {
                assert(start.fibers[i] == k.fibers[i]);
            }
        } else {
            assert(binds(k.realms, ctx.realm, key.id));
            if i != ctx.fiber.0 && runs_on_binding(k, ctx.realm, key.id, i) {
                let g = k.fibers[i];
                let a = choose|a: int|
                    0 <= a < g.inject.len() && (#[trigger] g.inject[a] matches Dependency::Hard(
                        s,
                    ) && s.id == key.id);
                assert(is_hard(g.inject[a], key.id));
                assert(needs(g, key.id));
                assert(depends(k, FiberId(i as u32), ctx.realm, key.id));
                law_replacing_disconnects_dependents(
                    k,
                    k2,
                    ctx,
                    key,
                    service,
                    done.steps@,
                    done.started@,
                    FiberId(i as u32),
                );
            }
        }
    }
}

} // verus!
