//! What one step of a disposal takes back and what it leaves alone, and what
//! shorthands stand for.

use crate::context::{Ctx, RealmId, Realms, ServiceId};
use crate::events::{EventHandler, EventKey};
use crate::fiber::{Disposable, FiberId, FiberView, Phase, Stage};
use crate::kernel::{Disposal, Kernel};
use crate::model::{
    KernelView, Step, children, ctx_ok, dependents, is_active, other_handler, other_middleware,
    other_than,
};
use crate::pipeline::PipelineHandler;
use crate::service::ServiceKey;
use crate::setup::Outcome;
use crate::upkeep::{lemma_children, lemma_dependents};
use std::any::TypeId;
use vstd::prelude::*;

verus! {

// ---- steps ----

/// Whether the fiber is past its children and its tasks and the thing was the
/// last that it registered.
pub open spec fn is_next(f: FiberView, thing: Disposable) -> bool {
    &&& f.phase matches Phase::Disposing(Stage::Drain, _)
    &&& f.disposables.len() > 0
    &&& f.disposables[f.disposables.len() - 1] == thing
}

/// A step touches the fiber it works on or the one it begins with, and no
/// other; only a beginning changes the queue. Names, families and numbers are
/// as they were, and so is the shape of the realm tree.
pub proof fn law_what_a_step_touches(kernel: &mut Kernel, disposal: &mut Disposal, r: Step)
    requires
        old(kernel).wf(),
        forall|i: int|
            0 <= i < old(disposal)@.len() ==> (#[trigger] old(disposal)@[i]).0 < old(
                kernel,
            )@.fibers.len(),
        call_ensures(Kernel::step, (kernel, disposal), r),
    ensures
        ({
            let (k, k2) = (old(kernel)@, final(kernel)@);
            let stack = old(disposal)@;
            &&& KernelView {
                realms: k2.realms,
                fibers: k2.fibers,
                pending: k2.pending,
                handlers: k2.handlers,
                middlewares: k2.middlewares,
                ..k
            } == k2
            &&& k2.fibers.len() == k.fibers.len()
            &&& k2.realms.len() == k.realms.len()
            &&& forall|i: int|
                0 <= i < k.realms.len() ==> (#[trigger] k2.realms[i]).parent == k.realms[i].parent
            &&& stack.len() == 0 ==> k2 == k && r is Done
            &&& forall|i: int|
                0 <= i < k.fibers.len() && !(stack.len() > 0 && i == stack.last().0) && !(
                r matches Step::Began(id, _) && id.0 == i) ==> #[trigger] k2.fibers[i]
                    == k.fibers[i]
            &&& !(r is Began) ==> k2.pending == k.pending
            &&& r matches Step::Began(id, _) ==> {
                &&& k2.realms == k.realms
                &&& k2.handlers == k.handlers
                &&& k2.middlewares == k.middlewares
                &&& k2.pending == k.pending.filter(|x: FiberId| x != id)
                &&& final(disposal)@ == stack + seq![id]
            }
            &&& r is Settled ==> final(disposal)@ == stack.subrange(0, stack.len() - 1)
            &&& !(r is Began) && !(r is Settled) ==> final(disposal)@ == stack
        }),
{
    let k = old(kernel)@;
    let stack = old(disposal)@;
    if stack.len() > 0 {
        let top = stack.last();
        let f = k.fibers[top.0 as int];
        assert(stack[stack.len() - 1] == top);
        lemma_children(k, top);
        if children(k, top).len() > 0 {
            assert(children(k, top).contains(children(k, top)[0]));
        }
        if f.disposables.len() > 0 {
            if let Disposable::Service(realm, key, _) = f.disposables.last() {
                let users = dependents(k, realm, key.id, top);
                lemma_dependents(k, realm, key.id, top);
                if users.len() > 0 {
                    assert(users.contains(users[0]));
                }
            }
        }
        if let Step::Began(id, _) = r {
            assert(is_active(k, id));
            assert(other_than(id) =~= (|x: FiberId| x != id));
            assert(stack.push(id) =~= stack + seq![id]);
        }
        assert(stack.drop_last() =~= stack.subrange(0, stack.len() - 1));
    }
}

/// A step takes an event handler away where it is what the fiber registered
/// last, and that one alone; the others keep their order. Middlewares go the
/// same way.
pub proof fn law_steps_take_handlers_back(kernel: &mut Kernel, disposal: &mut Disposal, r: Step)
    requires
        old(kernel).wf(),
        old(disposal)@.len() > 0,
        old(disposal)@.last().0 < old(kernel)@.fibers.len(),
        call_ensures(Kernel::step, (kernel, disposal), r),
    ensures
        ({
            let (k, k2) = (old(kernel)@, final(kernel)@);
            let f = k.fibers[old(disposal)@.last().0 as int];
            &&& forall|key: EventKey, id: u64|
                #![trigger is_next(f, Disposable::Handler(key, id))]
                is_next(f, Disposable::Handler(key, id)) ==> k2.handlers == k.handlers.filter(
                    |h: EventHandler| h.key != key || h.id != id,
                )
            &&& (forall|key: EventKey, id: u64| ! #[trigger] is_next(f, Disposable::Handler(key, id)))
                ==> k2.handlers == k.handlers
            &&& forall|point: TypeId, id: u64|
                #![trigger is_next(f, Disposable::Middleware(point, id))]
                is_next(f, Disposable::Middleware(point, id)) ==> k2.middlewares
                    == k.middlewares.filter(
                    |m: PipelineHandler| m.point != point || m.id != id,
                )
            &&& (forall|point: TypeId, id: u64|
                ! #[trigger] is_next(f, Disposable::Middleware(point, id))) ==> k2.middlewares
                == k.middlewares
        }),
{
    let k = old(kernel)@;
    let f = k.fibers[old(disposal)@.last().0 as int];
    assert(old(disposal)@[old(disposal)@.len() - 1] == old(disposal)@.last());
    if f.disposables.len() > 0 {
        match f.disposables.last() {
            Disposable::Handler(key, id) => {
                assert(f.phase matches Phase::Disposing(Stage::Drain, _) ==> is_next(
                    f,
                    Disposable::Handler(key, id),
                ));
                assert(other_handler(key, id) =~= (|h: EventHandler| h.key != key || h.id != id));
            },
            Disposable::Middleware(point, id) => {
                assert(f.phase matches Phase::Disposing(Stage::Drain, _) ==> is_next(
                    f,
                    Disposable::Middleware(point, id),
                ));
                assert(other_middleware(point, id) =~= (|m: PipelineHandler|
                    m.point != point || m.id != id));
            },
            _ => {},
        }
    }
}

/// A step takes a service back where it is what the fiber registered last,
/// where it is still bound and the step does not begin with another fiber.
/// Every other binding in every realm stays.
pub proof fn law_steps_take_services_back(
    kernel: &mut Kernel,
    disposal: &mut Disposal,
    r: Step,
    at: int,
    key: TypeId,
)
    requires
        old(kernel).wf(),
        old(disposal)@.len() > 0,
        old(disposal)@.last().0 < old(kernel)@.fibers.len(),
        call_ensures(Kernel::step, (kernel, disposal), r),
        0 <= at < old(kernel)@.realms.len(),
    ensures
        ({
            let (k, k2) = (old(kernel)@, final(kernel)@);
            let f = k.fibers[old(disposal)@.last().0 as int];
            let (bound, bound2) = (k.realms[at].services, k2.realms[at].services);
            let taken = !(r is Began) && bound.dom().contains(key) && exists|
                realm: RealmId,
                service: ServiceKey,
            |
                {
                    &&& realm.0 == at
                    &&& service.id == key
                    &&& #[trigger] is_next(f, Disposable::Service(realm, service, bound[key]))
                };
            &&& bound2.dom().contains(key) <==> bound.dom().contains(key) && !taken
            &&& bound2.dom().contains(key) ==> bound2[key] == bound[key]
        }),
{
    let k = old(kernel)@;
    let f = k.fibers[old(disposal)@.last().0 as int];
    if f.disposables.len() > 0 {
        if let Disposable::Service(realm, service, id) = f.disposables.last() {
            assert(f.phase matches Phase::Disposing(Stage::Drain, _) ==> is_next(
                f,
                Disposable::Service(realm, service, id),
            ));
        }
    }
}

// ---- realms ----

/// Taking a service back where another is bound by now changes nothing;
/// otherwise its binding goes, and every other binding stays.
pub proof fn law_only_the_service_itself_is_taken_back(
    realms: &mut Realms,
    realm: RealmId,
    key: ServiceKey,
    service: ServiceId,
    at: int,
    other: TypeId,
    held: bool,
)
    requires
        old(realms).wf(),
        call_ensures(Realms::remove_service_if, (realms, realm, &key, service), ()),
        call_ensures(Realms::holds, (&*old(realms), realm, &key, service), held),
        0 <= at < old(realms)@.len(),
    ensures
        ({
            let (node, node2) = (old(realms)@[at], final(realms)@[at]);
            let gone = held && at == realm.0 && other == key.id;
            &&& final(realms)@.len() == old(realms)@.len()
            &&& node2.parent == node.parent
            &&& node2.services.dom().contains(other) <==> node.services.dom().contains(other)
                && !gone
            &&& node2.services.dom().contains(other) ==> node2.services[other]
                == node.services[other]
            &&& at == realm.0 ==> (held <==> node.services.dom().contains(key.id)
                && node.services[key.id] == service)
        }),
{
}

// ---- shorthands ----

/// A context forks as the kernel makes a scope, and defers a cleanup to its
/// own fiber as the kernel does.
pub proof fn law_contexts_work_on_their_own_fiber(
    forked: &mut Kernel,
    made: &mut Kernel,
    deferring: &mut Kernel,
    told: &mut Kernel,
    ctx: Ctx,
    name: String,
    effect: u64,
    a: FiberId,
    b: FiberId,
    c: bool,
    d: bool,
)
    requires
        old(forked).wf(),
        ctx_ok(old(forked)@, ctx),
        old(forked)@.fibers.len() < u32::MAX,
        old(made)@ == old(forked)@,
        old(deferring)@ == old(told)@,
        call_ensures(Ctx::fork, (&ctx, forked, name), a),
        call_ensures(Kernel::create_scope, (made, ctx, name), b),
        call_ensures(Ctx::effect, (&ctx, deferring, effect), c),
        call_ensures(Kernel::add_effect, (told, ctx.fiber, effect), d),
    ensures
        a == b,
        final(forked)@ == final(made)@,
        c == d,
        final(deferring)@ == final(told)@,
{
}

/// Finishing a setup is ending it well, and failing it is ending it with that
/// reason.
pub proof fn law_setups_are_finished_or_failed(
    finished: &mut Kernel,
    done: &mut Kernel,
    failed: &mut Kernel,
    ended: &mut Kernel,
    id: FiberId,
    reason: String,
    a: bool,
    b: bool,
    c: bool,
)
    requires
        old(finished).wf(),
        old(failed).wf(),
        old(done)@ == old(finished)@,
        old(ended)@ == old(failed)@,
        call_ensures(Kernel::finish_setup, (finished, id), ()),
        call_ensures(Kernel::end_setup, (done, id, Outcome::Done), a),
        call_ensures(Kernel::fail_setup, (failed, id, reason), b),
        call_ensures(Kernel::end_setup, (ended, id, Outcome::Failed(reason)), c),
    ensures
        final(finished)@ == final(done)@,
        !a,
        final(failed)@ == final(ended)@,
        b == c,
{
}

} // verus!
