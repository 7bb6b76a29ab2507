//! In what order things come to their end.

use crate::context::{RealmId, binds, resolving};
use crate::disposal::{disposal_of, disposal_of_all, effects_due, effects_run, quiet};
use crate::fiber::{Disposable, FiberId, FiberView, Phase, Stage, State};
use crate::kernel::Kernel;
use crate::model::{
    KernelView, Step, children, dependents, fiber_step, is_active, is_hard, kernel_ok, needs,
};
use crate::plugin::Dependency;
use crate::upkeep::{lemma_children, lemma_dependents};
use std::any::TypeId;
use vstd::prelude::*;

verus! {

/// Whether fiber `x` is a child of the fiber and in use.
pub open spec fn child_in_use(k: KernelView, id: FiberId, x: int) -> bool {
    0 <= x < k.fibers.len() && x != id.0 && k.fibers[x].parent == id && k.fibers[x].phase is Active
}

/// Whether fiber `x` has started, is in use, and hard-depends on the type as
/// the realm binds it.
pub open spec fn runs_on_binding(k: KernelView, realm: RealmId, key: TypeId, x: int) -> bool {
    &&& 0 <= x < k.fibers.len()
    &&& k.fibers[x].phase is Active
    &&& k.fibers[x].state is Starting || k.fibers[x].state is Ready
    &&& resolving(k.realms, k.fibers[x].realm, key) == Some(realm)
    &&& exists|i: int|
        0 <= i < k.fibers[x].inject.len() && (#[trigger] k.fibers[x].inject[i] matches
            Dependency::Hard(service) && service.id == key)
}

/// Whether the step starts the disposal of fiber `x`, and of no other: whether
/// its setup was running is noted, and it will end disposed.
pub open spec fn sends_first(k: KernelView, k2: KernelView, step: Step, x: int) -> bool {
    let f = k.fibers[x];
    &&& step == Step::Began(FiberId(x as u32), f.state is Starting)
    &&& k2.fibers == k.fibers.update(
        x,
        FiberView { phase: Phase::Disposing(Stage::Children, State::Disposed), setup: false, ..f },
    )
    &&& k2.realms == k.realms
    &&& k2.handlers == k.handlers
    &&& k2.middlewares == k.middlewares
}

/// Children go before their parent, eldest first: as long as one is in use, a
/// fiber that is being disposed sends the eldest first, and gets on to its
/// tasks only when none is.
pub proof fn law_eldest_children_go_first(k: KernelView, id: FiberId, outcome: State)
    requires
        kernel_ok(k),
        id.0 < k.fibers.len(),
        k.fibers[id.0 as int].phase == Phase::Disposing(Stage::Children, outcome),
    ensures
        ({
            let (k2, step) = fiber_step(k, id);
            &&& (exists|x: int| child_in_use(k, id, x)) ==> exists|x: int|
                {
                    &&& #[trigger] child_in_use(k, id, x)
                    &&& forall|y: int| #[trigger] child_in_use(k, id, y) ==> x <= y
                    &&& sends_first(k, k2, step, x)
                }
            &&& !(exists|x: int| child_in_use(k, id, x)) ==> step == Step::Quiet(id)
                && k2.fibers[id.0 as int].phase == Phase::Disposing(Stage::Tasks, outcome)
        }),
{
    let first = children(k, id);
    lemma_children(k, id);
    if first.len() > 0 {
        let x = first[0].0 as int;
        assert(first.contains(first[0]));
        assert(child_in_use(k, id, x));
        assert(FiberId(x as u32) == first[0]);
        assert forall|y: int| #[trigger] child_in_use(k, id, y) implies x <= y by {
            assert(first.contains(FiberId(y as u32)));
            let j = choose|j: int| 0 <= j < first.len() && first[j] == FiberId(y as u32);
            if j > 0 {
                assert(first[0].0 < first[j].0);
            }
        }
        assert(sends_first(k, fiber_step(k, id).0, fiber_step(k, id).1, x));
    } else {
        assert forall|x: int| !child_in_use(k, id, x) by {
            if child_in_use(k, id, x) {
                assert(first.contains(FiberId(x as u32)));
            }
        }
    }
}

/// What a fiber registered is cleaned up backwards, one thing at a step. A
/// service that others run on sends them first, eldest first, and is taken
/// back only when nobody does; when nothing is left the fiber ends as it was
/// to end.
pub proof fn law_cleaning_up_goes_backwards(k: KernelView, id: FiberId, outcome: State)
    requires
        kernel_ok(k),
        id.0 < k.fibers.len(),
        k.fibers[id.0 as int].phase == Phase::Disposing(Stage::Drain, outcome),
    ensures
        ({
            let (k2, step) = fiber_step(k, id);
            let (f, f2) = (k.fibers[id.0 as int], k2.fibers[id.0 as int]);
            let n = f.disposables.len();
            &&& n == 0 ==> step == Step::Settled(id, outcome) && f2.phase is Gone && f2.state
                == outcome
            &&& n > 0 ==> match f.disposables[n - 1] {
                Disposable::Effect(effect) => step == Step::RunEffect(id, effect),
                Disposable::Service(realm, key, service) => {
                    let bound = realm.0 < k.realms.len()
                        && k.realms[realm.0 as int].services.dom().contains(key.id)
                        && k.realms[realm.0 as int].services[key.id] == service;
                    let used = exists|x: int|
                        x != id.0 && runs_on_binding(k, realm, key.id, x);
                    if bound && used {
                        exists|x: int|
                            {
                                &&& x != id.0
                                &&& #[trigger] runs_on_binding(k, realm, key.id, x)
                                &&& forall|y: int|
                                    y != id.0 && #[trigger] runs_on_binding(k, realm, key.id, y)
                                        ==> x <= y
                                &&& sends_first(k, k2, step, x)
                            }
                    } else {
                        step == Step::Quiet(id) && (realm.0 < k2.realms.len()
                            && k2.realms[realm.0 as int].services.dom().contains(key.id)
                            ==> k2.realms[realm.0 as int].services[key.id] != service)
                    }
                },
                _ => step == Step::Quiet(id),
            }
            &&& n > 0 && !(step is Began) ==> f2.disposables == f.disposables.subrange(0, n - 1)
            &&& n > 0 && step is Began ==> f2 == f
        }),
{
    let (k2, step) = fiber_step(k, id);
    let f = k.fibers[id.0 as int];
    let n = f.disposables.len();
    if n > 0 {
        assert(f.disposables.drop_last() =~= f.disposables.subrange(0, n - 1));
        if let Disposable::Service(realm, key, service) = f.disposables[n - 1] {
            let first = dependents(k, realm, key.id, id);
            lemma_dependents(k, realm, key.id, id);
            assert forall|x: int| x != id.0 && #[trigger] runs_on_binding(k, realm, key.id, x)
                implies first.contains(FiberId(x as u32)) by {
                let g = k.fibers[x];
                let i = choose|i: int|
                    0 <= i < g.inject.len() && (#[trigger] g.inject[i] matches Dependency::Hard(
                        s,
                    ) && s.id == key.id);
                assert(is_hard(g.inject[i], key.id));
                assert(needs(g, key.id));
            }
            if first.len() > 0 {
                let x = first[0].0 as int;
                let g = k.fibers[x];
                assert(first.contains(first[0]));
                assert(needs(g, key.id));
                let i = choose|i: int|
                    0 <= i < g.inject.len() && is_hard(#[trigger] g.inject[i], key.id);
                assert(g.inject[i] is Hard);
                assert(runs_on_binding(k, realm, key.id, x));
                assert(FiberId(x as u32) == first[0]);
                assert forall|y: int| y != id.0 && #[trigger] runs_on_binding(
                    k,
                    realm,
                    key.id,
                    y,
                ) implies x <= y by {
                    assert(first.contains(FiberId(y as u32)));
                    let j = choose|j: int| 0 <= j < first.len() && first[j] == FiberId(y as u32);
                    if j > 0 {
                        assert(first[0].0 < first[j].0);
                    }
                }
                if step is Began {
                    assert(sends_first(k, k2, step, x));
                }
            }
        }
    }
}

// ---- several disposals ----

/// Some disposals and one more.
proof fn lemma_one_more_disposal(
    k: KernelView,
    mid: KernelView,
    k2: KernelView,
    ids: Seq<FiberId>,
    steps: Seq<Step>,
    n: int,
)
    requires
        ids.len() > 0,
        0 <= n <= steps.len(),
        disposal_of_all(k, mid, ids.drop_last(), steps.take(n)),
        disposal_of(mid, k2, ids.last(), State::Disposed, steps.skip(n)),
    ensures
        disposal_of_all(k, k2, ids, steps),
{
}

/// Whether the first `at` fibers are disposed in the first `n` steps, up to
/// `mid`, and the others in the rest.
pub open spec fn parted(
    k: KernelView,
    mid: KernelView,
    k2: KernelView,
    ids: Seq<FiberId>,
    steps: Seq<Step>,
    at: int,
    n: int,
) -> bool {
    &&& 0 <= n <= steps.len()
    &&& disposal_of_all(k, mid, ids.take(at), steps.take(n))
    &&& disposal_of_all(mid, k2, ids.skip(at), steps.skip(n))
}

proof fn lemma_parted_on(
    k: KernelView,
    mid: KernelView,
    last: KernelView,
    k2: KernelView,
    ids: Seq<FiberId>,
    steps: Seq<Step>,
    at: int,
    n: int,
    m: int,
)
    requires
        0 <= at < ids.len(),
        0 <= m <= steps.len(),
        parted(k, mid, last, ids.drop_last(), steps.take(m), at, n),
        disposal_of(last, k2, ids.last(), State::Disposed, steps.skip(m)),
    ensures
        parted(k, mid, k2, ids, steps, at, n),
{
    let front = ids.drop_last();
    let done = steps.take(m);
    let rest = ids.skip(at);
    let more = steps.skip(n);
    assert(front.take(at) =~= ids.take(at));
    assert(done.take(n) =~= steps.take(n));
    assert(rest.drop_last() =~= front.skip(at));
    assert(rest.last() == ids.last());
    assert(more.take(m - n) =~= done.skip(n));
    assert(more.skip(m - n) =~= steps.skip(m));
    lemma_one_more_disposal(mid, last, k2, rest, more, m - n);
}

/// Disposing several fibers is disposing the first of them and then the rest,
/// wherever the line is drawn.
pub proof fn law_disposals_come_one_after_the_other(
    k: KernelView,
    k2: KernelView,
    ids: Seq<FiberId>,
    steps: Seq<Step>,
    at: int,
)
    requires
        disposal_of_all(k, k2, ids, steps),
        0 <= at <= ids.len(),
    ensures
        exists|mid: KernelView, n: int| #[trigger] parted(k, mid, k2, ids, steps, at, n),
    decreases ids.len(),
{
    if at == ids.len() {
        let n = steps.len() as int;
        assert(ids.take(at) =~= ids);
        assert(steps.take(n) =~= steps);
        assert(steps.skip(n) =~= Seq::<Step>::empty());
        assert(disposal_of_all(k2, k2, ids.skip(at), steps.skip(n)));
        assert(parted(k, k2, k2, ids, steps, at, n));
    } else {
        let (last, m) = choose|last: KernelView, m: int|
            0 <= m <= steps.len() && disposal_of_all(
                k,
                last,
                ids.drop_last(),
                steps.take(m),
            ) && #[trigger] disposal_of(last, k2, ids.last(), State::Disposed, steps.skip(m));
        law_disposals_come_one_after_the_other(k, last, ids.drop_last(), steps.take(m), at);
        let (mid, n) = choose|mid: KernelView, n: int| #[trigger]
            parted(k, mid, last, ids.drop_last(), steps.take(m), at, n);
        lemma_parted_on(k, mid, last, k2, ids, steps, at, n, m);
    }
}

/// Disposing one fiber is a disposal of that fiber, and of none nothing.
pub proof fn law_one_disposal_is_a_disposal(
    k: KernelView,
    k2: KernelView,
    id: FiberId,
    steps: Seq<Step>,
)
    ensures
        disposal_of_all(k, k2, seq![id], steps) <==> disposal_of(
            k,
            k2,
            id,
            State::Disposed,
            steps,
        ),
        disposal_of_all(k, k2, Seq::empty(), steps) <==> k2 == k && steps.len() == 0,
{
    let one = seq![id];
    assert(one.drop_last() =~= Seq::<FiberId>::empty());
    assert(one.last() == id);
    if disposal_of_all(k, k2, one, steps) {
        let (mid, n) = choose|mid: KernelView, n: int|
            0 <= n <= steps.len() && disposal_of_all(
                k,
                mid,
                one.drop_last(),
                steps.take(n),
            ) && #[trigger] disposal_of(mid, k2, one.last(), State::Disposed, steps.skip(n));
        assert(n == 0);
        assert(steps.skip(0) =~= steps);
    }
    if disposal_of(k, k2, id, State::Disposed, steps) {
        assert(steps.take(0) =~= Seq::<Step>::empty());
        assert(steps.skip(0) =~= steps);
        assert(disposal_of_all(k, k, one.drop_last(), steps.take(0)));
        assert(disposal_of(k, k2, one.last(), State::Disposed, steps.skip(0)));
    }
}

// ---- whole disposals ----

/// A fiber in use that is disposed ends as it was to end; whatever went with
/// it ends disposed, and every other fiber is as it was. On a fiber that is
/// not in use nothing happens.
pub proof fn law_disposed_fibers_end_as_told(
    kernel: &mut Kernel,
    id: FiberId,
    outcome: State,
    r: Vec<Step>,
    i: int,
)
    requires
        old(kernel).wf(),
        outcome is Failed || outcome is Disposed,
        call_ensures(Kernel::dispose_fiber, (kernel, id, outcome), r),
        0 <= i < old(kernel)@.fibers.len(),
    ensures
        ({
            let (f, g) = (old(kernel)@.fibers[i], final(kernel)@.fibers[i]);
            &&& final(kernel)@.fibers.len() == old(kernel)@.fibers.len()
            &&& i == id.0 && f.phase is Active ==> g.phase is Gone && g.state == outcome && r@[0]
                == Step::Began(id, f.state is Starting)
            &&& i == id.0 && !(f.phase is Active) ==> r@.len() == 0 && final(kernel)@ == old(
                kernel,
            )@
            &&& i != id.0 ==> g == f || f.phase is Active && g.phase is Gone && g.state
                == State::Disposed
        }),
{
}

/// Disposing several fibers leaves none of them in use, and every fiber either
/// as it was or, if it was in use, disposed.
pub proof fn law_disposing_several_leaves_none_in_use(
    kernel: &mut Kernel,
    ids: Vec<FiberId>,
    r: Vec<Step>,
    i: int,
)
    requires
        old(kernel).wf(),
        call_ensures(Kernel::dispose_all, (kernel, &ids), r),
        0 <= i < old(kernel)@.fibers.len(),
    ensures
        ({
            let (f, g) = (old(kernel)@.fibers[i], final(kernel)@.fibers[i]);
            &&& ids@.contains(FiberId(i as u32)) ==> !(g.phase is Active)
            &&& g == f || f.phase is Active && g.phase is Gone && g.state == State::Disposed
        }),
{
    if ids@.contains(FiberId(i as u32)) {
        let a = choose|a: int| 0 <= a < ids@.len() && ids@[a] == FiberId(i as u32);
        assert(!is_active(final(kernel)@, ids@[a]));
    }
}

/// Disposing a kernel leaves its root out of use and nothing waiting; where no
/// disposal was under way it leaves nothing at all.
pub proof fn law_disposing_a_kernel_ends_everything(
    kernel: &mut Kernel,
    r: Vec<Step>,
    i: int,
    realm: int,
    key: TypeId,
)
    requires
        old(kernel).wf(),
        call_ensures(Kernel::dispose, (kernel,), r),
        0 <= i < old(kernel)@.fibers.len(),
        0 <= realm < final(kernel)@.realms.len(),
    ensures
        ({
            let (k, k2) = (old(kernel)@, final(kernel)@);
            &&& !(k2.fibers[0].phase is Active)
            &&& k2.pending.len() == 0
            &&& k2.fibers[i] == k.fibers[i] || k.fibers[i].phase is Active && k2.fibers[i].phase
                is Gone && k2.fibers[i].state == State::Disposed
            &&& quiet(k) ==> {
                &&& k2.fibers[i].phase is Gone
                &&& k2.handlers.len() == 0
                &&& k2.middlewares.len() == 0
                &&& realm <= u32::MAX ==> !k2.realms[realm].services.dom().contains(key)
            }
        }),
{
    if realm <= u32::MAX {
        let at = RealmId(realm as u32);
        assert(binds(final(kernel)@.realms, at, key)
            <==> final(kernel)@.realms[realm].services.dom().contains(key));
    }
}

/// What is to be disposed next on the way to disposing everything is the root
/// while it is in use, then what waits first; nothing is left exactly when
/// neither is there.
pub proof fn law_what_is_doomed_next(kernel: Kernel, r: Option<FiberId>)
    requires
        kernel.wf(),
        call_ensures(Kernel::next_doomed, (&kernel,), r),
    ensures
        kernel@.fibers[0].phase is Active ==> r == Some(FiberId(0)),
        !(kernel@.fibers[0].phase is Active) && kernel@.pending.len() > 0 ==> r == Some(
            kernel@.pending[0],
        ),
        r is None <==> !(kernel@.fibers[0].phase is Active) && kernel@.pending.len() == 0,
{
}

/// What is due when a fiber goes is every cleanup it registered, the last
/// first; what was run is every cleanup of the fiber among the steps, in
/// order.
pub proof fn law_what_is_due_and_what_was_run(
    disposables: Seq<Disposable>,
    what: Disposable,
    steps: Seq<Step>,
    step: Step,
    id: FiberId,
)
    ensures
        effects_due(Seq::empty()) == Seq::<u64>::empty(),
        effects_due(disposables.push(what)) == match what {
            Disposable::Effect(effect) => seq![effect] + effects_due(disposables),
            _ => effects_due(disposables),
        },
        effects_run(Seq::empty(), id) == Seq::<u64>::empty(),
        effects_run(steps.push(step), id) == match step {
            Step::RunEffect(fiber, effect) => if fiber == id {
                effects_run(steps, id).push(effect)
            } else {
                effects_run(steps, id)
            },
            _ => effects_run(steps, id),
        },
{
    assert(disposables.push(what).drop_last() =~= disposables);
    assert(steps.push(step).drop_last() =~= steps);
}

} // verus!
