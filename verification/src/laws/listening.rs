//! What is registered is what a dispatch runs.

use crate::context::{Ctx, RealmId, RealmView, descends, parent_of};
use crate::events::{
    Attempt, EventAggregate, EventHandler, EventKey, EventKind, EventNext, Events, HandlerId, Layer,
    Serial, Turn, TypeTag, awake, deciders_of, dispatched, messages, next_awake, observers_of,
    panics, reached, undecided,
};
use crate::kernel::Kernel;
use crate::laws::dispatch::{
    law_dispatches_run_handlers_in_use, law_events_bubble_innermost_first,
    law_events_bubble_up_only, law_pipelines_run_the_slice,
};
use crate::laws::starting::{comes_before, lemma_kept_in_order};
use crate::model::{KernelView, is_active, kernel_ok};
use crate::pipeline::{Next, PipelineHandler, PipelineId, onion};
use std::any::TypeId;
use vstd::prelude::*;

verus! {

// ---- handlers ----

/// A handler that is kept on a fiber in use is run by the dispatches of its
/// own family, from its realm and the realms below it, and by no others.
proof fn lemma_run_by(k: KernelView, h: EventHandler, key: EventKey, realm: RealmId)
    requires
        kernel_ok(k),
        k.handlers.contains(h),
        is_active(k, h.fiber),
    ensures
        dispatched(k, key, realm).contains(h.id) <==> h.key == key && (realm == h.realm
            || descends(k.realms, realm, h.realm)),
        reached(k, key, realm).contains(h) <==> h.key == key && (realm == h.realm || descends(
            k.realms,
            realm,
            h.realm,
        )),
{
    law_dispatches_run_handlers_in_use(k, key, realm, h.id);
    law_events_bubble_up_only(k, key, realm, h);
    if dispatched(k, key, realm).contains(h.id) {
        let other = choose|other: EventHandler| #[trigger]
            reached(k, key, realm).contains(other) && is_active(k, other.fiber) && other.id == h.id;
        law_events_bubble_up_only(k, key, realm, other);
        let a = choose|a: int| 0 <= a < k.handlers.len() && k.handlers[a] == h;
        let b = choose|b: int| 0 <= b < k.handlers.len() && k.handlers[b] == other;
        if a < b {
            assert(k.handlers[a].id < k.handlers[b].id);
        }
        if b < a {
            assert(k.handlers[b].id < k.handlers[a].id);
        }
    }
}

/// An observer that was registered on a fiber in use is run whenever its event
/// is emitted, detached or waited for, in its realm or a realm below, and
/// whenever anything else is emitted it is not.
pub proof fn law_observers_hear_their_event(
    kernel: &mut Kernel,
    ctx: Ctx,
    event: TypeTag,
    h: HandlerId,
    at: Events,
    emitted: TypeId,
    detached: Vec<u64>,
    awaited: Vec<u64>,
)
    requires
        old(kernel).wf(),
        old(kernel)@.next_handler < u64::MAX,
        is_active(old(kernel)@, ctx.fiber),
        call_ensures(Ctx::on, (&ctx, kernel, event), h),
        call_ensures(Events::emit, (&at, &*final(kernel), emitted), detached),
        call_ensures(Events::parallel, (&at, &*final(kernel), emitted), awaited),
    ensures
        detached@ == awaited@,
        detached@.contains(h.id) <==> emitted == event.id && (at.realm == ctx.realm || descends(
            final(kernel)@.realms,
            at.realm,
            ctx.realm,
        )),
{
    let k = final(kernel)@;
    let key = EventKey { kind: EventKind::Observer, event: event.id, result: None };
    let handler = EventHandler { key, realm: ctx.realm, fiber: ctx.fiber, id: h.id };
    assert(k.handlers[k.handlers.len() - 1] == handler);
    lemma_run_by(k, handler, observers_of(emitted), at.realm);
}

/// A decider that was registered on a fiber in use is asked by the dispatches
/// of its own kind, of its event and decision types, from its realm and the
/// realms below it, and by no others.
pub proof fn law_deciders_are_asked_by_their_kind(
    kernel: &mut Kernel,
    ctx: Ctx,
    event: TypeTag,
    result: TypeTag,
    bail: bool,
    serial: bool,
    h: HandlerId,
    at: Events,
    e: TypeId,
    r: TypeId,
    asked: Vec<u64>,
    course: Serial,
    layers: EventNext,
    heard: Vec<u64>,
)
    requires
        old(kernel).wf(),
        old(kernel)@.next_handler < u64::MAX,
        is_active(old(kernel)@, ctx.fiber),
        if bail {
            call_ensures(Ctx::on_bail, (&ctx, kernel, event, result), h)
        } else if serial {
            call_ensures(Ctx::on_serial, (&ctx, kernel, event, result), h)
        } else {
            call_ensures(Ctx::on_waterfall, (&ctx, kernel, event, result), h)
        },
        call_ensures(Events::deciders, (&at, &*final(kernel), e, r), asked),
        call_ensures(Events::serial, (&at, &*final(kernel), e, r), course),
        call_ensures(Events::waterfall, (&at, &*final(kernel), e, r), layers),
        call_ensures(Events::emit, (&at, &*final(kernel), e), heard),
    ensures
        ({
            let fits = e == event.id && r == result.id && (at.realm == ctx.realm || descends(
                final(kernel)@.realms,
                at.realm,
                ctx.realm,
            ));
            &&& asked@.contains(h.id) <==> bail && fits
            &&& (exists|i: int|
                0 <= i < course.handlers@.len() && (#[trigger] course.handlers@[i]).id == h.id)
                <==> !bail && serial && fits
            &&& layers.chain@.contains(h.id) <==> !bail && !serial && fits
            &&& !heard@.contains(h.id)
            &&& course.index == 0
            &&& layers.index == 0
        }),
{
    let k = final(kernel)@;
    let kind = if bail {
        EventKind::Bail
    } else if serial {
        EventKind::Serial
    } else {
        EventKind::Waterfall
    };
    let key = EventKey { kind, event: event.id, result: Some(result.id) };
    let handler = EventHandler { key, realm: ctx.realm, fiber: ctx.fiber, id: h.id };
    assert(k.handlers[k.handlers.len() - 1] == handler);
    lemma_run_by(k, handler, deciders_of(EventKind::Bail, e, r), at.realm);
    lemma_run_by(k, handler, deciders_of(EventKind::Serial, e, r), at.realm);
    lemma_run_by(k, handler, deciders_of(EventKind::Waterfall, e, r), at.realm);
    lemma_run_by(k, handler, observers_of(e), at.realm);
    let all = reached(k, deciders_of(EventKind::Serial, e, r), at.realm);
    assert(course.handlers@ == all);
    if all.contains(handler) {
        let i = choose|i: int| 0 <= i < all.len() && all[i] == handler;
        assert(course.handlers@[i].id == h.id);
    }
    if exists|i: int|
        0 <= i < course.handlers@.len() && (#[trigger] course.handlers@[i]).id == h.id {
        let i = choose|i: int|
            0 <= i < course.handlers@.len() && (#[trigger] course.handlers@[i]).id == h.id;
        let other = all[i];
        assert(all.contains(other));
        law_events_bubble_up_only(
            k,
            deciders_of(EventKind::Serial, e, r),
            at.realm,
            other,
        );
        let a = choose|a: int| 0 <= a < k.handlers.len() && k.handlers[a] == other;
        if a < k.handlers.len() - 1 {
            assert(k.handlers[a].id < k.handlers[k.handlers.len() - 1].id);
        }
    }
}

/// A dispatch runs its handlers in the order in which it reaches them, and
/// none of them twice.
pub proof fn law_dispatches_keep_the_order(
    k: KernelView,
    key: EventKey,
    realm: RealmId,
    a: int,
    b: int,
)
    requires
        kernel_ok(k),
        0 <= a < b < dispatched(k, key, realm).len(),
    ensures
        dispatched(k, key, realm)[a] != dispatched(k, key, realm)[b],
        exists|x: EventHandler, y: EventHandler|
            #![trigger comes_before(reached(k, key, realm), x, y)]
            comes_before(reached(k, key, realm), x, y) && x.id == dispatched(k, key, realm)[a]
                && y.id == dispatched(k, key, realm)[b],
{
    let all = reached(k, key, realm);
    let run = all.filter(awake(k));
    lemma_kept_in_order(all, awake(k), a, b);
    assert(comes_before(all, run[a], run[b]));
    let (i, j) = choose|i: int, j: int|
        0 <= i < j < all.len() && #[trigger] all[i] == run[a] && #[trigger] all[j] == run[b];
    law_events_bubble_innermost_first(k, key, realm, i, j);
    assert(all.contains(all[i]) && all.contains(all[j]));
    law_events_bubble_up_only(k, key, realm, all[i]);
    law_events_bubble_up_only(k, key, realm, all[j]);
    if all[i].id == all[j].id {
        let x = choose|x: int| 0 <= x < k.handlers.len() && k.handlers[x] == all[i];
        let y = choose|y: int| 0 <= y < k.handlers.len() && k.handlers[y] == all[j];
        if x < y {
            assert(k.handlers[x].id < k.handlers[y].id);
        }
        if y < x {
            assert(k.handlers[y].id < k.handlers[x].id);
        }
        assert(all[i] == all[j]);
        lemma_not_below_itself(k.realms, all[i].realm);
    }
}

/// No realm lies below itself.
proof fn lemma_not_below_itself(realms: Seq<RealmView>, realm: RealmId)
    ensures
        !descends(realms, realm, realm),
{
    lemma_below_is_older(realms, realm, realm);
}

proof fn lemma_below_is_older(
    realms: Seq<RealmView>,
    realm: RealmId,
    above: RealmId,
)
    ensures
        descends(realms, realm, above) ==> above.0 < realm.0,
    decreases realm.0,
{
    if let Some(parent) = parent_of(realms, realm) {
        lemma_below_is_older(realms, parent, above);
    }
}

// ---- panics ----

/// How many of the first `n` outcomes are panics.
pub open spec fn panics_before(outcomes: Seq<Option<String>>, n: nat) -> nat
    decreases n,
{
    if n == 0 {
        0
    } else {
        panics_before(outcomes, (n - 1) as nat) + if outcomes[n - 1] is Some {
            1nat
        } else {
            0nat
        }
    }
}

proof fn lemma_panics(outcomes: Seq<Option<String>>, n: nat)
    requires
        n <= outcomes.len(),
    ensures
        panics(outcomes.take(n as int)).len() == panics_before(outcomes, n),
        forall|i: int|
            0 <= i < n && (#[trigger] outcomes[i]) is Some ==> panics_before(outcomes, i as nat)
                < panics(outcomes.take(n as int)).len() && panics(
                outcomes.take(n as int),
            )[panics_before(outcomes, i as nat) as int] == outcomes[i]->0@,
    decreases n,
{
    if n > 0 {
        let m = (n - 1) as nat;
        lemma_panics(outcomes, m);
        assert(outcomes.take(n as int).drop_last() =~= outcomes.take(m as int));
        assert(outcomes.take(n as int).last() == outcomes[n - 1]);
    }
}

/// Every observer that panicked is reported, with its message, in order, and
/// nothing else is; where none panicked there is nothing to report.
pub proof fn law_every_panic_is_reported(
    outcomes: Vec<Option<String>>,
    r: Result<(), EventAggregate>,
)
    requires
        call_ensures(Events::aggregate, (&outcomes,), r),
    ensures
        r is Ok <==> forall|i: int| 0 <= i < outcomes@.len() ==> (#[trigger] outcomes@[i]) is None,
        r matches Err(failure) ==> {
            &&& failure.errors@.len() == panics_before(outcomes@, outcomes@.len())
            &&& forall|i: int|
                0 <= i < outcomes@.len() && (#[trigger] outcomes@[i]) is Some ==> {
                    let at = panics_before(outcomes@, i as nat);
                    at < failure.errors@.len() && failure.errors@[at as int].message@
                        == outcomes@[i]->0@
                }
        },
{
    let n = outcomes@.len();
    lemma_panics(outcomes@, n);
    assert(outcomes@.take(n as int) =~= outcomes@);
    if let Err(failure) = r {
        assert(messages(failure.errors@) == panics(outcomes@));
        assert forall|i: int| 0 <= i < n && (#[trigger] outcomes@[i]) is Some implies ({
            let at = panics_before(outcomes@, i as nat);
            at < failure.errors@.len() && failure.errors@[at as int].message@ == outcomes@[i]->0@
        }) by {
            let at = panics_before(outcomes@, i as nat) as int;
            assert(messages(failure.errors@)[at] == failure.errors@[at].message@);
        }
        if forall|i: int| 0 <= i < n ==> (#[trigger] outcomes@[i]) is None {
            lemma_no_panics(outcomes@, n);
        }
    }
}

proof fn lemma_no_panics(outcomes: Seq<Option<String>>, n: nat)
    requires
        n <= outcomes.len(),
        forall|i: int| 0 <= i < outcomes.len() ==> (#[trigger] outcomes[i]) is None,
    ensures
        panics_before(outcomes, n) == 0,
    decreases n,
{
    if n > 0 {
        lemma_no_panics(outcomes, (n - 1) as nat);
        assert(outcomes[n - 1] is None);
    }
}

// ---- deciding ----

/// Deciders are asked in order until one decides: the first decision comes
/// out, and nothing where nobody decides. One that passes or panics decides
/// nothing.
pub proof fn law_the_first_decision_comes_out<R, F: Fn(u64) -> Attempt<R>>(
    ids: Vec<u64>,
    run: F,
    answer: spec_fn(u64) -> Attempt<R>,
    r: Option<R>,
)
    requires
        forall|id: u64, attempt: Attempt<R>|
            #![trigger call_ensures(run, (id,), attempt)]
            call_ensures(run, (id,), attempt) ==> attempt == answer(id),
        call_ensures(Events::decide::<R, F>, (&ids, run), r),
    ensures
        r is None <==> forall|i: int|
            0 <= i < ids@.len() ==> !(answer(#[trigger] ids@[i]) is Decided),
        r matches Some(decision) ==> exists|n: int|
            {
                &&& 0 <= n < ids@.len()
                &&& answer(#[trigger] ids@[n]) == Attempt::Decided(decision)
                &&& forall|i: int| 0 <= i < n ==> !(answer(#[trigger] ids@[i]) is Decided)
            },
{
    if let Some(decision) = r {
        let n = choose|n: int|
            0 <= n < ids@.len() && undecided(ids@.take(n), run) && call_ensures(
                run,
                (#[trigger] ids@[n],),
                Attempt::Decided(decision),
            );
        assert forall|i: int| 0 <= i < n implies !(answer(#[trigger] ids@[i]) is Decided) by {
            assert(ids@.take(n)[i] == ids@[i]);
        }
        assert(answer(ids@[n]) is Decided);
    }
}

/// A serial dispatch goes on with the first decider left whose fiber is in use
/// by then, and ends without a decision where there is none.
pub proof fn law_serial_dispatches_skip_what_is_gone<R>(
    course: &mut Serial,
    kernel: Kernel,
    r: Turn<R>,
)
    requires
        kernel.wf(),
        old(course).index <= old(course).handlers@.len(),
        call_ensures(Serial::go_on::<R>, (course, &kernel), r),
    ensures
        ({
            let all = old(course).handlers@;
            let from = old(course).index as int;
            let to = final(course).index as int;
            &&& final(course).handlers@ == all
            &&& from <= to <= all.len()
            &&& match r {
                Turn::Run(id) => {
                    &&& from < to
                    &&& all[to - 1].id == id
                    &&& is_active(kernel@, all[to - 1].fiber)
                    &&& forall|i: int|
                        from <= i < to - 1 ==> !is_active(kernel@, (#[trigger] all[i]).fiber)
                },
                Turn::Done(decision) => {
                    &&& decision is None
                    &&& to == all.len()
                    &&& forall|i: int|
                        from <= i < all.len() ==> !is_active(kernel@, (#[trigger] all[i]).fiber)
                },
            }
        }),
{
    lemma_next_in_use(kernel@, old(course).handlers@, old(course).index as int);
}

proof fn lemma_next_in_use(k: KernelView, handlers: Seq<EventHandler>, from: int)
    requires
        0 <= from <= handlers.len(),
    ensures
        match next_awake(k, handlers, from) {
            Some(n) => from <= n < handlers.len() && is_active(k, handlers[n].fiber) && (forall|
                i: int,
            |
                from <= i < n ==> !is_active(k, (#[trigger] handlers[i]).fiber)),
            None => forall|i: int|
                from <= i < handlers.len() ==> !is_active(k, (#[trigger] handlers[i]).fiber),
        },
    decreases handlers.len() - from,
{
    if from < handlers.len() && !is_active(k, handlers[from].fiber) {
        lemma_next_in_use(k, handlers, from + 1);
    }
}

/// A decision ends a serial dispatch and is what it comes to; anything else
/// lets it go on as if nothing had been said.
pub proof fn law_decisions_end_serial_dispatches<R>(
    course: &mut Serial,
    kernel: Kernel,
    attempt: Attempt<R>,
    r: Turn<R>,
)
    requires
        kernel.wf(),
        old(course).index <= old(course).handlers@.len(),
        call_ensures(Serial::answer::<R>, (course, &kernel, attempt), r),
    ensures
        attempt matches Attempt::Decided(decision) ==> r == Turn::Done(Some(decision)),
        attempt is Decided ==> final(course).index == old(course).handlers@.len(),
        !(attempt is Decided) ==> ({
            let all = old(course).handlers@;
            match r {
                Turn::Run(id) => exists|n: int|
                    {
                        &&& old(course).index <= n < all.len()
                        &&& (#[trigger] all[n]).id == id
                        &&& is_active(kernel@, all[n].fiber)
                        &&& final(course).index == n + 1
                        &&& forall|i: int|
                            old(course).index <= i < n ==> !is_active(
                                kernel@,
                                (#[trigger] all[i]).fiber,
                            )
                    },
                Turn::Done(decision) => decision is None && forall|i: int|
                    old(course).index <= i < all.len() ==> !is_active(
                        kernel@,
                        (#[trigger] all[i]).fiber,
                    ),
            }
        }),
{
    let all = old(course).handlers@;
    lemma_next_in_use(kernel@, all, old(course).index as int);
    if !(attempt is Decided) {
        if let Some(n) = next_awake(kernel@, all, old(course).index as int) {
            assert(all[n].id == all[n].id);
        }
    }
}

// ---- onions ----

/// Running an onion peels off its layers one by one, in order, and comes to
/// the built-in behavior behind the last.
pub proof fn law_onions_are_peeled_in_order(
    event: EventNext,
    next: Next,
    a: Layer<EventNext>,
    b: Layer<Next>,
)
    requires
        call_ensures(EventNext::run, (&event,), a),
        call_ensures(Next::run, (&next,), b),
    ensures
        a is BuiltIn <==> event.index >= event.chain@.len(),
        a matches Layer::Inner(id, rest) ==> id == event.chain@[event.index as int]
            && rest.chain@ == event.chain@ && rest.index == event.index + 1,
        b is BuiltIn <==> next.index >= next.chain@.len(),
        b matches Layer::Inner(id, rest) ==> id == next.chain@[next.index as int] && rest.chain@
            == next.chain@ && rest.index == next.index + 1,
{
}

/// A middleware that was registered on a fiber in use is in every onion of its
/// extension point along its own branch, above and below it, and in no other.
pub proof fn law_middlewares_join_their_branch(
    kernel: &mut Kernel,
    ctx: Ctx,
    point: TypeTag,
    prepend: bool,
    m: PipelineId,
    at: Ctx,
    dispatched_point: TypeId,
    onions: Next,
)
    requires
        old(kernel).wf(),
        old(kernel)@.next_handler < u64::MAX,
        is_active(old(kernel)@, ctx.fiber),
        at.realm.0 < old(kernel)@.realms.len(),
        ctx.realm.0 < old(kernel)@.realms.len(),
        if prepend {
            call_ensures(Ctx::middleware_before, (&ctx, kernel, point), m)
        } else {
            call_ensures(Ctx::middleware, (&ctx, kernel, point), m)
        },
        call_ensures(Ctx::waterfall, (&at, &*final(kernel), dispatched_point), onions),
    ensures
        onions.index == 0,
        m.type_id == point.id,
        onions.chain@.contains(m.id) <==> dispatched_point == point.id && (at.realm == ctx.realm
            || descends(final(kernel)@.realms, at.realm, ctx.realm) || descends(
            final(kernel)@.realms,
            ctx.realm,
            at.realm,
        )),
{
    let k = final(kernel)@;
    let new = PipelineHandler {
        point: point.id,
        realm: ctx.realm,
        fiber: ctx.fiber,
        id: m.id,
        prepend,
    };
    let last = k.middlewares.len() - 1;
    assert(k.middlewares[last] == new);
    let all = onion(k, dispatched_point, at.realm);
    law_pipelines_run_the_slice(k, dispatched_point, at.realm, new);
    if all.contains(new) {
        let i = choose|i: int| 0 <= i < all.len() && all[i] == new;
        assert(onions.chain@[i] == m.id);
    }
    if onions.chain@.contains(m.id) {
        let i = choose|i: int| 0 <= i < onions.chain@.len() && onions.chain@[i] == m.id;
        let other = all[i];
        assert(all.contains(other));
        law_pipelines_run_the_slice(k, dispatched_point, at.realm, other);
        let a = choose|a: int| 0 <= a < k.middlewares.len() && k.middlewares[a] == other;
        if a < last {
            assert(k.middlewares[a].id < k.middlewares[last].id);
        }
        assert(other == new);
    }
}

/// Emitting from a context is emitting in its realm.
pub proof fn law_contexts_emit_in_their_realm(
    ctx: Ctx,
    kernel: Kernel,
    event: TypeId,
    a: Vec<u64>,
    b: Vec<u64>,
)
    requires
        kernel.wf(),
        call_ensures(Ctx::emit, (&ctx, &kernel, event), a),
        call_ensures(Events::emit, (&Events { realm: ctx.realm }, &kernel, event), b),
    ensures
        a@ == b@,
{
}

/// A bail asks the deciders that a dispatch from its realm reaches, in order,
/// until one decides.
pub proof fn law_bails_take_the_first_decision<R, F: Fn(u64) -> Attempt<R>>(
    events: Events,
    kernel: Kernel,
    event: TypeId,
    result: TypeId,
    asked: Vec<u64>,
    run: F,
    answer: spec_fn(u64) -> Attempt<R>,
    r: Option<R>,
)
    requires
        kernel.wf(),
        forall|id: u64, attempt: Attempt<R>|
            #![trigger call_ensures(run, (id,), attempt)]
            call_ensures(run, (id,), attempt) ==> attempt == answer(id),
        call_ensures(Events::deciders, (&events, &kernel, event, result), asked),
        call_ensures(Events::bail::<R, F>, (&events, &kernel, event, result, run), r),
    ensures
        r is None <==> forall|i: int|
            0 <= i < asked@.len() ==> !(answer(#[trigger] asked@[i]) is Decided),
        r matches Some(decision) ==> exists|n: int|
            {
                &&& 0 <= n < asked@.len()
                &&& answer(#[trigger] asked@[n]) == Attempt::Decided(decision)
                &&& forall|i: int| 0 <= i < n ==> !(answer(#[trigger] asked@[i]) is Decided)
            },
{
    if let Some(decision) = r {
        let n = choose|n: int|
            0 <= n < asked@.len() && undecided(asked@.take(n), run) && call_ensures(
                run,
                (#[trigger] asked@[n],),
                Attempt::Decided(decision),
            );
        assert forall|i: int| 0 <= i < n implies !(answer(#[trigger] asked@[i]) is Decided) by {
            assert(asked@.take(n)[i] == asked@[i]);
        }
        assert(answer(asked@[n]) is Decided);
    }
}

/// Asked for handlers, a kernel and its events name the handlers of the family
/// in the realm and above it, in whatever state their fibers are, innermost
/// realm first and in the order they came; asked for a pipeline, a kernel
/// numbers the middlewares of the point in the order they wrap.
pub proof fn law_what_a_dispatch_would_reach(
    kernel: Kernel,
    events: Events,
    key: EventKey,
    point: TypeId,
    asked: Vec<EventHandler>,
    seen: Vec<EventHandler>,
    numbers: Vec<u64>,
    h: EventHandler,
    i: int,
    j: int,
)
    requires
        kernel.wf(),
        call_ensures(Kernel::handlers_for, (&kernel, key, events.realm), asked),
        call_ensures(Events::handlers, (&events, &kernel, key), seen),
        call_ensures(Kernel::pipeline_chain, (&kernel, point, events.realm), numbers),
    ensures
        seen@ == asked@,
        asked@.contains(h) <==> kernel@.handlers.contains(h) && h.key == key && (h.realm
            == events.realm || descends(kernel@.realms, events.realm, h.realm)),
        0 <= i < j < asked@.len() ==> if asked@[i].realm == asked@[j].realm {
            asked@[i].id < asked@[j].id
        } else {
            descends(kernel@.realms, asked@[i].realm, asked@[j].realm)
        },
        numbers@.len() == onion(kernel@, point, events.realm).len(),
        0 <= i < numbers@.len() ==> numbers@[i] == onion(kernel@, point, events.realm)[i].id,
{
    law_events_bubble_up_only(kernel@, key, events.realm, h);
    if 0 <= i < j < asked@.len() {
        law_events_bubble_innermost_first(kernel@, key, events.realm, i, j);
    }
}

} // verus!
