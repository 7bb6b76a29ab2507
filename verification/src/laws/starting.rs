//! When plugins start, and how their setups end.

use crate::context::{Ctx, resolved};
use crate::ctx::{lemma_with_plugins, plugin_views};
use crate::fiber::{FiberId, FiberView, Phase, Stage, State};
use crate::kernel::Kernel;
use crate::laws::lifecycle::{
    holds_back, law_nothing_that_may_start_waits, law_what_plugins_wait_for, lemma_satisfied_ids,
};
use crate::model::{
    KernelView, announces, ctx_ok, kernel_ok, may_start, other_than, satisfied, unsettled,
    with_plugin, with_plugins,
};
use crate::plugin::{Dependency, FnPlugin, PluginView};
use crate::seqs::{lemma_filter_contains, lemma_filter_origin, lemma_filter_unique};
use crate::setup::Outcome;
use crate::upkeep::{lemma_plugin_ok, lemma_start_all};
use std::any::TypeId;
use vstd::prelude::*;

verus! {

/// Whether a fiber is there, in use and in this state.
pub open spec fn in_use_as(k: KernelView, i: int, state: State) -> bool {
    0 <= i < k.fibers.len() && k.fibers[i].phase is Active && k.fibers[i].state == state
}

/// Whether a fiber in use that is waiting or starting declared the type.
pub open spec fn coming(k: KernelView, j: int, key: TypeId) -> bool {
    (in_use_as(k, j, State::Pending) || in_use_as(k, j, State::Starting)) && exists|d: int|
        0 <= d < k.fibers[j].declares.len() && (#[trigger] k.fibers[j].declares[d]).id == key
}

/// Whether everything a fiber asks for lets it start: each hard dependency is
/// there, and of each soft one no other fiber that is still to come declared
/// it.
pub open spec fn ready_to_start(k: KernelView, id: FiberId) -> bool {
    let f = k.fibers[id.0 as int];
    forall|i: int|
        0 <= i < f.inject.len() ==> match #[trigger] f.inject[i] {
            Dependency::Hard(key) => resolved(k.realms, f.realm, key.id) is Some,
            Dependency::Soft(key) => forall|j: int| j != id.0 ==> !#[trigger] coming(k, j, key.id),
        }
}

pub proof fn lemma_ready(k: KernelView, id: FiberId)
    ensures
        satisfied(k, id) <==> ready_to_start(k, id),
{
    law_what_plugins_wait_for(k, id);
    let f = k.fibers[id.0 as int];
    assert forall|j: int, key: TypeId| #[trigger] coming(k, j, key) <==> 0 <= j < k.fibers.len()
        && unsettled(k.fibers[j]) && announces(k.fibers[j], key) by {}
    if !satisfied(k, id) {
        let i = choose|i: int|
            0 <= i < f.inject.len() && holds_back(
                k,
                id,
                #[trigger] f.inject[i],
            );
        if let Dependency::Soft(key) = f.inject[i] {
            let j = choose|j: int|
                0 <= j < k.fibers.len() && j != id.0 && unsettled(#[trigger] k.fibers[j])
                    && announces(k.fibers[j], key.id);
            assert(coming(k, j, key.id));
        }
    }
    if !ready_to_start(k, id) {
        let i = choose|i: int|
            0 <= i < f.inject.len() && !(match #[trigger] f.inject[i] {
                Dependency::Hard(key) => resolved(k.realms, f.realm, key.id) is Some,
                Dependency::Soft(key) => forall|j: int|
                    j != id.0 ==> !#[trigger] coming(k, j, key.id),
            });
        if let Dependency::Soft(key) = f.inject[i] {
            let j = choose|j: int| j != id.0 && #[trigger] coming(k, j, key.id);
            assert(unsettled(k.fibers[j]));
        }
        assert(holds_back(k, id, f.inject[i]));
    }
}

/// A plugin may start exactly if each of its hard dependencies is there, and
/// nobody else that is still to come declared one of its soft ones.
pub proof fn law_when_plugins_may_start(kernel: Kernel, id: FiberId, r: bool)
    requires
        kernel.wf(),
        id.0 < kernel@.fibers.len(),
        call_ensures(Kernel::is_satisfied, (&kernel, id), r),
    ensures
        r <==> ready_to_start(kernel@, id),
{
    lemma_ready(kernel@, id);
}

/// Whether nothing differs but fibers and the queue.
pub open spec fn only_fibers_change(k: KernelView, k2: KernelView) -> bool {
    KernelView { fibers: k2.fibers, pending: k2.pending, ..k } == k2
}

/// Every waiting plugin that may start starts, in the order of the queue, and
/// nothing else changes: they run their setups from then on and wait no more.
pub proof fn law_all_that_may_start_starts(kernel: &mut Kernel, r: Vec<FiberId>)
    requires
        old(kernel).wf(),
        call_ensures(Kernel::take_satisfied, (kernel,), r),
    ensures
        ({
            let (k, k2) = (old(kernel)@, final(kernel)@);
            &&& only_fibers_change(k, k2)
            &&& k2.fibers.len() == k.fibers.len()
            &&& r@.no_duplicates()
            &&& forall|id: FiberId| #[trigger]
                r@.contains(id) <==> k.pending.contains(id) && ready_to_start(k, id)
            &&& forall|a: int, b: int|
                0 <= a < b < r@.len() ==> comes_before(
                    k.pending,
                    #[trigger] r@[a],
                    #[trigger] r@[b],
                )
            &&& forall|id: FiberId| #[trigger]
                k2.pending.contains(id) <==> k.pending.contains(id) && !r@.contains(id)
            &&& forall|i: int|
                0 <= i < k.fibers.len() ==> #[trigger] k2.fibers[i] == (if r@.contains(
                    FiberId(i as u32),
                ) {
                    FiberView { state: State::Starting, setup: true, ..k.fibers[i] }
                } else {
                    k.fibers[i]
                })
        }),
{
    let (k, k2) = (old(kernel)@, final(kernel)@);
    lemma_satisfied_ids(k);
    lemma_start_all(k, r@);
    assert forall|id: FiberId| #[trigger] r@.contains(id) <==> k.pending.contains(id)
        && ready_to_start(k, id) by {
        lemma_ready(k, id);
        lemma_filter_contains(k.pending, may_start(k));
    }
    lemma_filter_unique(k.pending, may_start(k));
    assert forall|a: int, b: int| 0 <= a < b < r@.len() implies comes_before(
        k.pending,
        #[trigger] r@[a],
        #[trigger] r@[b],
    ) by {
        lemma_kept_in_order(k.pending, may_start(k), a, b);
    }
}

/// Whether one stands before the other.
pub open spec fn comes_before<A>(s: Seq<A>, x: A, y: A) -> bool {
    exists|i: int, j: int| 0 <= i < j < s.len() && #[trigger] s[i] == x && #[trigger] s[j] == y
}

/// What is kept of a sequence stays in order.
pub proof fn lemma_kept_in_order<A>(s: Seq<A>, keep: spec_fn(A) -> bool, a: int, b: int)
    requires
        0 <= a < b < s.filter(keep).len(),
    ensures
        comes_before(s, s.filter(keep)[a], s.filter(keep)[b]),
    decreases s.len(),
{
    reveal(Seq::filter);
    if s.len() > 0 {
        let front = s.drop_last();
        let kept = front.filter(keep);
        let out = s.filter(keep);
        if b < kept.len() {
            lemma_kept_in_order(front, keep, a, b);
            assert(out[a] == kept[a] && out[b] == kept[b]);
            let (i, j) = choose|i: int, j: int|
                0 <= i < j < front.len() && #[trigger] front[i] == kept[a] && #[trigger] front[j]
                    == kept[b];
            assert(s[i] == out[a] && s[j] == out[b]);
        } else {
            lemma_filter_origin(front, keep);
            assert(front.contains(kept[a]));
            let i = choose|i: int| 0 <= i < front.len() && front[i] == kept[a];
            assert(s[i] == out[a] && s[s.len() - 1] == out[b]);
        }
    }
}

// ---- registering ----

/// Whether this fiber has nothing yet but its place, its name and what its
/// plugin declared.
pub open spec fn newborn(f: FiberView, ctx: Ctx, name: Seq<char>) -> bool {
    &&& f.parent == ctx.fiber
    &&& f.realm == ctx.realm
    &&& f.name == name
    &&& !f.setup
    &&& f.failure is None
    &&& f.tasks.len() == 0
    &&& f.disposables.len() == 0
}

/// A registered plugin gets a new fiber below the one it is registered on,
/// with what it injects and declares. Below a fiber in use it waits, last in
/// the queue; below any other it is disposed from the start.
pub proof fn law_registered_plugins_wait(
    kernel: &mut Kernel,
    ctx: Ctx,
    plugin: FnPlugin,
    r: FiberId,
)
    requires
        old(kernel).wf(),
        ctx_ok(old(kernel)@, ctx),
        old(kernel)@.fibers.len() < u32::MAX,
        call_ensures(Kernel::create_fiber, (kernel, ctx, plugin), r),
    ensures
        ({
            let (k, k2) = (old(kernel)@, final(kernel)@);
            let f = k2.fibers[r.0 as int];
            let below = k.fibers[ctx.fiber.0 as int].phase is Active;
            &&& only_fibers_change(k, k2)
            &&& r.0 == k.fibers.len()
            &&& k2.fibers.drop_last() == k.fibers
            &&& newborn(f, ctx, plugin.name@)
            &&& f.inject == plugin.inject@
            &&& f.declares == plugin.provides@
            &&& below ==> f.phase is Active && f.state is Pending && k2.pending == k.pending
                + seq![r]
            &&& !below ==> f.phase is Gone && f.state is Disposed && k2.pending == k.pending
        }),
{
}

/// A scope gets a new fiber below the one it is made on, and depends on
/// nothing. Below a fiber in use it is ready at once; below any other it is
/// disposed from the start.
pub proof fn law_scopes_are_ready_at_once(
    kernel: &mut Kernel,
    ctx: Ctx,
    name: String,
    r: FiberId,
)
    requires
        old(kernel).wf(),
        ctx_ok(old(kernel)@, ctx),
        old(kernel)@.fibers.len() < u32::MAX,
        call_ensures(Kernel::create_scope, (kernel, ctx, name), r),
    ensures
        ({
            let (k, k2) = (old(kernel)@, final(kernel)@);
            let f = k2.fibers[r.0 as int];
            let below = k.fibers[ctx.fiber.0 as int].phase is Active;
            &&& only_fibers_change(k, k2)
            &&& k2.pending == k.pending
            &&& r.0 == k.fibers.len()
            &&& k2.fibers.drop_last() == k.fibers
            &&& newborn(f, ctx, name@)
            &&& f.inject.len() == 0
            &&& f.declares.len() == 0
            &&& below ==> f.phase is Active && f.state is Ready
            &&& !below ==> f.phase is Gone && f.state is Disposed
        }),
{
}

// ---- the end of a setup ----

/// A setup that ends well leaves its fiber ready. One that returns an error or
/// panics leaves the reason and starts the disposal of its fiber, which will
/// end failed. A fiber whose setup does not run any more is left alone, and
/// no other fiber is touched in any case.
pub proof fn law_how_setups_end(kernel: &mut Kernel, id: FiberId, outcome: Outcome, r: bool)
    requires
        old(kernel).wf(),
        call_ensures(Kernel::end_setup, (kernel, id, outcome), r),
    ensures
        ({
            let (k, k2) = (old(kernel)@, final(kernel)@);
            let runs = id.0 < k.fibers.len() && k.fibers[id.0 as int].phase is Active
                && k.fibers[id.0 as int].state is Starting;
            let f = k.fibers[id.0 as int];
            let f2 = k2.fibers[id.0 as int];
            &&& r <==> runs && !(outcome is Done)
            &&& !runs ==> k2 == k
            &&& only_fibers_change(k, k2)
            &&& k2.fibers.len() == k.fibers.len()
            &&& k2.pending == k.pending
            &&& forall|i: int|
                0 <= i < k.fibers.len() && i != id.0 ==> #[trigger] k2.fibers[i] == k.fibers[i]
            &&& runs && outcome is Done ==> f2 == (FiberView {
                state: State::Ready,
                setup: false,
                ..f
            })
            &&& runs && !(outcome is Done) ==> f2 == (FiberView {
                phase: Phase::Disposing(Stage::Children, State::Failed),
                setup: false,
                failure: f2.failure,
                ..f
            })
            &&& runs ==> (outcome matches Outcome::Failed(reason) ==> f2.failure == Some(reason@))
            &&& runs ==> (outcome matches Outcome::Panicked(message) ==> f2.failure == Some(
                "plugin setup panicked: "@ + message@,
            ))
        }),
{
    let (k, k2) = (old(kernel)@, final(kernel)@);
    if id.0 < k.fibers.len() && k.fibers[id.0 as int].phase is Active && k.fibers[id.0 as int].setup {
        let f = k.fibers[id.0 as int];
        assert(!k.pending.contains(id));
        lemma_keeps_all(k.pending, other_than(id));
    }
}

/// Where everything is picked, nothing is lost.
pub proof fn lemma_keeps_all<A>(s: Seq<A>, keep: spec_fn(A) -> bool)
    requires
        forall|i: int| 0 <= i < s.len() ==> keep(#[trigger] s[i]),
    ensures
        s.filter(keep) == s,
    decreases s.len(),
{
    reveal(Seq::filter);
    if s.len() > 0 {
        let front = s.drop_last();
        assert forall|i: int| 0 <= i < front.len() implies keep(#[trigger] front[i]) by {
            assert(front[i] == s[i]);
        }
        lemma_keeps_all(front, keep);
        assert(keep(s[s.len() - 1]));
        assert(s =~= front.push(s.last()));
    } else {
        assert(s.filter(keep) =~= s);
    }
}

// ---- the start of a disposal ----

/// A disposal starts on a fiber in use and on no other: the fiber leaves the
/// queue and is no longer in use, with the end it will come to noted; whether
/// its setup was running is handed out, so that it can be cut off.
pub proof fn law_how_disposals_start(
    kernel: &mut Kernel,
    id: FiberId,
    outcome: State,
    r: Option<bool>,
)
    requires
        old(kernel).wf(),
        outcome is Failed || outcome is Disposed,
        call_ensures(Kernel::begin_dispose, (kernel, id, outcome), r),
    ensures
        ({
            let (k, k2) = (old(kernel)@, final(kernel)@);
            let f = k.fibers[id.0 as int];
            &&& r is Some <==> id.0 < k.fibers.len() && f.phase is Active
            &&& r is None ==> k2 == k
            &&& r is Some ==> {
                &&& r->0 <==> f.state is Starting
                &&& only_fibers_change(k, k2)
                &&& k2.fibers == k.fibers.update(
                    id.0 as int,
                    FiberView {
                        phase: Phase::Disposing(Stage::Children, outcome),
                        setup: false,
                        ..f
                    },
                )
                &&& forall|p: FiberId| #[trigger]
                    k2.pending.contains(p) <==> k.pending.contains(p) && p != id
            }
        }),
{
    lemma_filter_contains(old(kernel)@.pending, other_than(id));
}

/// Starting a single plugin starts it exactly if it waits: it leaves the queue
/// and its setup runs; no other fiber is touched.
pub proof fn law_waiting_plugins_are_started(kernel: &mut Kernel, id: FiberId, r: bool)
    requires
        old(kernel).wf(),
        call_ensures(Kernel::start_fiber, (kernel, id), r),
    ensures
        ({
            let (k, k2) = (old(kernel)@, final(kernel)@);
            let f = k.fibers[id.0 as int];
            &&& r <==> id.0 < k.fibers.len() && f.phase is Active && f.state is Pending
            &&& !r ==> k2 == k
            &&& only_fibers_change(k, k2)
            &&& r ==> k2.fibers == k.fibers.update(
                id.0 as int,
                FiberView { state: State::Starting, setup: true, ..f },
            )
            &&& r ==> forall|p: FiberId| #[trigger]
                k2.pending.contains(p) <==> k.pending.contains(p) && p != id
        }),
{
    lemma_filter_contains(old(kernel)@.pending, other_than(id));
}

/// An outcome has a reason exactly if it is no good one: the text of the error,
/// or that the setup panicked and with what.
pub proof fn law_bad_outcomes_have_a_reason(outcome: Outcome, r: Option<String>)
    requires
        call_ensures(Outcome::failure, (outcome,), r),
    ensures
        r is None <==> outcome is Done,
        outcome matches Outcome::Failed(reason) ==> r->0@ == reason@,
        outcome matches Outcome::Panicked(message) ==> r->0@ == "plugin setup panicked: "@
            + message@,
{
}

/// Registering a plugin on a fiber in use gives it a fiber, and whatever may
/// start by then, itself included, has started when the call is over.
pub proof fn law_registering_starts_what_may_start(
    kernel: &mut Kernel,
    ctx: Ctx,
    plugin: FnPlugin,
    r: (FiberId, Vec<FiberId>),
)
    requires
        old(kernel).wf(),
        ctx_ok(old(kernel)@, ctx),
        old(kernel)@.fibers.len() < u32::MAX,
        call_ensures(Ctx::register, (&ctx, kernel, plugin), r),
    ensures
        ({
            let (k, k2) = (old(kernel)@, final(kernel)@);
            let f = k2.fibers[r.0.0 as int];
            &&& r.0.0 == k.fibers.len()
            &&& k2.fibers.len() == k.fibers.len() + 1
            &&& newborn(FiberView { setup: false, ..f }, ctx, plugin.name@)
            &&& f.inject == plugin.inject@
            &&& f.declares == plugin.provides@
            &&& f.state is Starting <==> r.1@.contains(r.0)
            &&& f.phase is Active <==> k.fibers[ctx.fiber.0 as int].phase is Active
            &&& forall|i: int|
                0 <= i < k.fibers.len() ==> #[trigger] k2.fibers[i] == (if r.1@.contains(
                    FiberId(i as u32),
                ) {
                    FiberView { state: State::Starting, setup: true, ..k.fibers[i] }
                } else {
                    k.fibers[i]
                })
            &&& forall|id: FiberId| #[trigger]
                k2.pending.contains(id) ==> !ready_to_start(k2, id)
            &&& only_fibers_change(k, k2)
        }),
{
    let (k, k2) = (old(kernel)@, final(kernel)@);
    let queued = with_plugin(k, ctx, plugin@);
    lemma_plugin_ok(k, ctx, plugin@, Seq::empty());
    lemma_satisfied_ids(queued);
    lemma_start_all(queued, r.1@);
    assert forall|i: int| 0 <= i < k.fibers.len() implies queued.fibers[i] == k.fibers[i] by {}
    assert forall|i: int| 0 <= i < k.fibers.len() implies #[trigger] k2.fibers[i] == (
    if r.1@.contains(FiberId(i as u32)) {
        FiberView { state: State::Starting, setup: true, ..k.fibers[i] }
    } else {
        k.fibers[i]
    }) by {
        assert(queued.fibers[i] == k.fibers[i]);
    }
    assert(FiberId(r.0.0 as int as u32) == r.0);
    assert(queued.fibers[r.0.0 as int] == queued.fibers.last());
    assert forall|id: FiberId| #[trigger] k2.pending.contains(id) implies !ready_to_start(
        k2,
        id,
    ) by {
        law_nothing_that_may_start_waits(queued, id);
        lemma_ready(k2, id);
    }
}

/// Registering a whole pass gives every plugin a fiber, in order, before any
/// starts, and whatever may start by then has started when the call is over.
pub proof fn law_registering_a_pass_starts_what_may_start(
    kernel: &mut Kernel,
    ctx: Ctx,
    plugins: Vec<FnPlugin>,
    r: (Vec<FiberId>, Vec<FiberId>),
    j: int,
)
    requires
        old(kernel).wf(),
        ctx_ok(old(kernel)@, ctx),
        old(kernel)@.fibers.len() + plugins@.len() <= u32::MAX,
        call_ensures(Ctx::register_batch, (&ctx, kernel, plugins), r),
        0 <= j < plugins@.len(),
    ensures
        ({
            let (k, k2) = (old(kernel)@, final(kernel)@);
            let f = k2.fibers[k.fibers.len() + j];
            &&& r.0@.len() == plugins@.len()
            &&& r.0@[j].0 == k.fibers.len() + j
            &&& k2.fibers.len() == k.fibers.len() + plugins@.len()
            &&& newborn(FiberView { setup: false, ..f }, ctx, plugins@[j].name@)
            &&& f.inject == plugins@[j].inject@
            &&& f.declares == plugins@[j].provides@
            &&& f.state is Starting <==> r.1@.contains(r.0@[j])
            &&& forall|i: int|
                0 <= i < k.fibers.len() ==> #[trigger] k2.fibers[i] == (if r.1@.contains(
                    FiberId(i as u32),
                ) {
                    FiberView { state: State::Starting, setup: true, ..k.fibers[i] }
                } else {
                    k.fibers[i]
                })
            &&& forall|id: FiberId| #[trigger]
                k2.pending.contains(id) ==> !ready_to_start(k2, id)
        }),
{
    let (k, k2) = (old(kernel)@, final(kernel)@);
    let all = plugin_views(plugins@);
    let queued = with_plugins(k, ctx, all);
    lemma_with_plugins(k, ctx, all);
    lemma_queued_newborn(k, ctx, all, j);
    lemma_satisfied_ids(queued);
    lemma_start_all(queued, r.1@);
    assert(all[j] == plugins@[j]@);
    assert forall|i: int| 0 <= i < k.fibers.len() implies #[trigger] k2.fibers[i] == (
    if r.1@.contains(FiberId(i as u32)) {
        FiberView { state: State::Starting, setup: true, ..k.fibers[i] }
    } else {
        k.fibers[i]
    }) by {
        assert(queued.fibers[i] == k.fibers[i]);
    }
    assert forall|id: FiberId| #[trigger] k2.pending.contains(id) implies !ready_to_start(
        k2,
        id,
    ) by {
        law_nothing_that_may_start_waits(queued, id);
        lemma_ready(k2, id);
    }
}

proof fn lemma_queued_newborn(k: KernelView, ctx: Ctx, plugins: Seq<PluginView>, j: int)
    requires
        kernel_ok(k),
        ctx_ok(k, ctx),
        k.fibers.len() + plugins.len() <= u32::MAX,
        0 <= j < plugins.len(),
    ensures
        ({
            let f = with_plugins(k, ctx, plugins).fibers[k.fibers.len() + j];
            &&& newborn(f, ctx, plugins[j].name)
            &&& f.inject == plugins[j].inject
            &&& f.declares == plugins[j].provides
            &&& !(f.state is Starting)
        }),
    decreases plugins.len(),
{
    let front = plugins.drop_last();
    lemma_with_plugins(k, ctx, front);
    if j < front.len() {
        lemma_queued_newborn(k, ctx, front, j);
        assert(with_plugins(k, ctx, plugins).fibers[k.fibers.len() + j] == with_plugins(
            k,
            ctx,
            front,
        ).fibers[k.fibers.len() + j]);
    }
}

} // verus!
