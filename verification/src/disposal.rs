//! Disposing a fiber from beginning to end.

use crate::context::{RealmId, binds};
use crate::fiber::{Disposable, FiberId, FiberView, Phase, Stage, State};
use crate::kernel::{Disposal, Kernel};
use crate::model::{
    KernelView, Step, begin, children, dependents, dispose_step, fiber_ok, is_active, is_disposing,
    kernel_ok, next_stack, outcome_of, owned, owns, sheltered, start,
};
use crate::upkeep::{lemma_children, lemma_dependents, lemma_fiber_step_ok};
use std::any::TypeId;
use vstd::prelude::*;

verus! {

/// The kernel and the stack after `n` steps.
pub open spec fn after_steps(k: KernelView, stack: Seq<FiberId>, n: nat) -> (
    KernelView,
    Seq<FiberId>,
)
    decreases n,
{
    if n == 0 {
        (k, stack)
    } else {
        let (mid, rest) = after_steps(k, stack, (n - 1) as nat);
        let (next, step) = dispose_step(mid, rest);
        (next, next_stack(rest, step))
    }
}

/// What step number `n` does, counted from zero.
pub open spec fn nth_step(k: KernelView, stack: Seq<FiberId>, n: nat) -> Step {
    let (mid, rest) = after_steps(k, stack, n);
    dispose_step(mid, rest).1
}

/// The cleanups of one fiber that the steps ran, in the order they ran.
pub open spec fn effects_run(steps: Seq<Step>, id: FiberId) -> Seq<u64>
    decreases steps.len(),
{
    if steps.len() == 0 {
        Seq::empty()
    } else {
        let front = effects_run(steps.drop_last(), id);
        match steps.last() {
            Step::RunEffect(fiber, effect) => if fiber == id {
                front.push(effect)
            } else {
                front
            },
            _ => front,
        }
    }
}

/// The cleanups among what a fiber registered, last registered first.
pub open spec fn effects_due(disposables: Seq<Disposable>) -> Seq<u64>
    decreases disposables.len(),
{
    if disposables.len() == 0 {
        Seq::empty()
    } else {
        let rest = effects_due(disposables.drop_last());
        match disposables.last() {
            Disposable::Effect(effect) => seq![effect] + rest,
            _ => rest,
        }
    }
}

/// Whether no disposal is under way.
pub open spec fn quiet(k: KernelView) -> bool {
    forall|i: int| 0 <= i < k.fibers.len() ==> !((#[trigger] k.fibers[i]).phase is Disposing)
}

/// Whether the stack holds fibers that are being disposed, each once.
pub open spec fn stack_ok(k: KernelView, stack: Seq<FiberId>) -> bool {
    &&& stack.no_duplicates()
    &&& forall|i: int| 0 <= i < stack.len() ==> is_disposing(k, #[trigger] stack[i])
}

/// How many of the first `n` fibers are in use.
pub open spec fn in_use(fibers: Seq<FiberView>, n: nat) -> nat
    decreases n,
{
    if n == 0 {
        0
    } else {
        in_use(fibers, (n - 1) as nat) + (if fibers[n - 1].phase is Active {
            1nat
        } else {
            0nat
        })
    }
}

/// How much is left to do for one fiber.
pub open spec fn remaining(f: FiberView) -> nat {
    f.disposables.len() + match f.phase {
        Phase::Disposing(Stage::Children, _) => 4nat,
        Phase::Disposing(Stage::Tasks, _) => 3nat,
        Phase::Disposing(Stage::Joining, _) => 2nat,
        Phase::Disposing(Stage::Drain, _) => 1nat,
        _ => 0nat,
    }
}

/// How much is left to do for the fibers on the stack.
pub open spec fn remaining_all(fibers: Seq<FiberView>, stack: Seq<FiberId>) -> nat
    decreases stack.len(),
{
    if stack.len() == 0 {
        0
    } else {
        remaining_all(fibers, stack.drop_last()) + remaining(fibers[stack.last().0 as int])
    }
}

proof fn lemma_in_use_same(a: Seq<FiberView>, b: Seq<FiberView>, n: nat)
    requires
        forall|i: int|
            0 <= i < n ==> ((#[trigger] a[i]).phase is Active <==> (#[trigger] b[i]).phase
                is Active),
    ensures
        in_use(a, n) == in_use(b, n),
    decreases n,
{
    if n > 0 {
        lemma_in_use_same(a, b, (n - 1) as nat);
        assert(a[n - 1].phase is Active <==> b[n - 1].phase is Active);
    }
}

proof fn lemma_in_use_less(a: Seq<FiberView>, b: Seq<FiberView>, i: int, n: nat)
    requires
        0 <= i < n,
        a[i].phase is Active,
        !(b[i].phase is Active),
        forall|j: int|
            0 <= j < n && j != i ==> ((#[trigger] a[j]).phase is Active <==> (#[trigger] b[j]).phase
                is Active),
    ensures
        in_use(b, n) < in_use(a, n),
    decreases n,
{
    if i == n - 1 {
        lemma_in_use_same(a, b, (n - 1) as nat);
    } else {
        lemma_in_use_less(a, b, i, (n - 1) as nat);
        assert(a[n - 1].phase is Active <==> b[n - 1].phase is Active);
    }
}

proof fn lemma_remaining_same(a: Seq<FiberView>, b: Seq<FiberView>, stack: Seq<FiberId>)
    requires
        forall|i: int|
            0 <= i < stack.len() ==> a[(#[trigger] stack[i]).0 as int] == b[stack[i].0 as int],
    ensures
        remaining_all(a, stack) == remaining_all(b, stack),
    decreases stack.len(),
{
    if stack.len() > 0 {
        let rest = stack.drop_last();
        assert forall|i: int| 0 <= i < rest.len() implies a[(#[trigger] rest[i]).0 as int]
            == b[rest[i].0 as int] by {
            assert(rest[i] == stack[i]);
        }
        lemma_remaining_same(a, b, rest);
        assert(a[stack[stack.len() - 1].0 as int] == b[stack[stack.len() - 1].0 as int]);
    }
}

/// What one step changes: it starts the disposal of one fiber in use, or it
/// works on the fiber on top of the stack and on no other.
pub proof fn lemma_step_shape(k: KernelView, stack: Seq<FiberId>)
    requires
        kernel_ok(k),
        stack_ok(k, stack),
        stack.len() > 0,
    ensures
        ({
            let (k2, step) = dispose_step(k, stack);
            let top = stack.last();
            let f = k.fibers[top.0 as int];
            let f2 = k2.fibers[top.0 as int];
            &&& k2.fibers.len() == k.fibers.len()
            &&& !(step is Done)
            &&& match step {
                Step::Began(id, setup) => {
                    &&& is_active(k, id)
                    &&& setup == k.fibers[id.0 as int].setup
                    &&& k2 == begin(k, id, State::Disposed)
                },
                _ => {
                    &&& forall|i: int|
                        0 <= i < k.fibers.len() && i != top.0 ==> #[trigger] k2.fibers[i]
                            == k.fibers[i]
                    &&& k2.pending == k.pending
                    &&& remaining(f2) < remaining(f)
                    &&& if step is Settled {
                        &&& f2.phase is Gone
                        &&& f2.state == outcome_of(f)
                        &&& step == Step::Settled(top, outcome_of(f))
                        &&& f.disposables.len() == 0
                    } else {
                        &&& f2.phase is Disposing
                        &&& outcome_of(f2) == outcome_of(f)
                    }
                },
            }
            &&& step matches Step::RunEffect(id, effect) ==> id == top && f.disposables.len() > 0
                && f.disposables.last() == Disposable::Effect(effect)
            &&& step is RunEffect ==> f2.disposables == f.disposables.drop_last()
            &&& !(step is RunEffect) ==> effects_due(f2.disposables) == effects_due(f.disposables)
        }),
{
    let top = stack.last();
    assert(is_disposing(k, stack[stack.len() - 1]));
    let f = k.fibers[top.0 as int];
    match f.phase {
        Phase::Disposing(Stage::Children, _) => {
            lemma_children(k, top);
            let first = children(k, top);
            if first.len() > 0 {
                assert(first.contains(first[0]));
            }
        },
        Phase::Disposing(Stage::Drain, _) => {
            if f.disposables.len() > 0 {
                if let Disposable::Service(realm, key, service) = f.disposables.last() {
                    lemma_dependents(k, realm, key.id, top);
                    let first = dependents(k, realm, key.id, top);
                    if first.len() > 0 {
                        assert(first.contains(first[0]));
                    }
                }
            }
        },
        _ => {},
    }
}

/// After a step the stack is still in order, and there is less left to do.
pub proof fn lemma_step_progress(k: KernelView, stack: Seq<FiberId>)
    requires
        kernel_ok(k),
        stack_ok(k, stack),
        stack.len() > 0,
    ensures
        ({
            let (k2, step) = dispose_step(k, stack);
            let stack2 = next_stack(stack, step);
            let n = k.fibers.len();
            &&& kernel_ok(k2)
            &&& stack_ok(k2, stack2)
            &&& in_use(k2.fibers, n) < in_use(k.fibers, n) || (in_use(k2.fibers, n) == in_use(
                k.fibers,
                n,
            ) && remaining_all(k2.fibers, stack2) < remaining_all(k.fibers, stack))
        }),
{
    lemma_step_shape(k, stack);
    let (k2, step) = dispose_step(k, stack);
    let stack2 = next_stack(stack, step);
    let n = k.fibers.len();
    let top = stack.last();
    assert(is_disposing(k, stack[stack.len() - 1]));
    lemma_fiber_step_ok(k, top);
    match step {
        Step::Began(id, _) => {
            assert forall|i: int| 0 <= i < stack.len() implies stack[i] != id by {
                assert(is_disposing(k, stack[i]));
            }
            assert forall|i: int| 0 <= i < stack2.len() implies is_disposing(
                k2,
                #[trigger] stack2[i],
            ) by {
                if i < stack.len() {
                    assert(is_disposing(k, stack[i]));
                }
            }
            lemma_in_use_less(k.fibers, k2.fibers, id.0 as int, n);
        },
        _ => {
            let rest = stack.drop_last();
            assert forall|i: int| 0 <= i < rest.len() implies (#[trigger] rest[i]) != top by {
                assert(rest[i] == stack[i]);
                assert(stack[i] != stack[stack.len() - 1]);
            }
            assert forall|i: int| 0 <= i < rest.len() implies k2.fibers[(
            #[trigger] rest[i]).0 as int] == k.fibers[rest[i].0 as int] by {
                assert(rest[i] == stack[i]);
                assert(is_disposing(k, stack[i]));
            }
            lemma_remaining_same(k2.fibers, k.fibers, rest);
            assert forall|i: int| 0 <= i < n implies ((#[trigger] k2.fibers[i]).phase is Active
                <==> (#[trigger] k.fibers[i]).phase is Active) by {}
            lemma_in_use_same(k2.fibers, k.fibers, n);
            assert forall|i: int| 0 <= i < stack2.len() implies is_disposing(
                k2,
                #[trigger] stack2[i],
            ) by {
                assert(is_disposing(k, stack[i]));
                if i < rest.len() {
                    assert(k2.fibers[rest[i].0 as int] == k.fibers[rest[i].0 as int]);
                }
            }
        },
    }
}

/// How a fiber stands in the course of a disposal, given how it stood at the
/// start, what the steps so far did, and whether it is on the stack.
pub open spec fn course(
    before: FiberView,
    now: FiberView,
    run: Seq<u64>,
    on_stack: bool,
    outcome: State,
) -> bool {
    if on_stack {
        &&& now.phase is Disposing
        &&& outcome_of(now) == outcome
        &&& before.phase is Active
        &&& run + effects_due(now.disposables) == effects_due(before.disposables)
    } else {
        ||| now == before && run.len() == 0
        ||| {
            &&& before.phase is Active
            &&& now.phase is Gone
            &&& now.state == outcome
            &&& run == effects_due(before.disposables)
        }
    }
}

/// Whether these are the steps of disposing a fiber, and `k2` is what they
/// make of `k`. A fiber that is not in use takes no steps.
pub open spec fn disposal_of(
    k: KernelView,
    k2: KernelView,
    id: FiberId,
    outcome: State,
    steps: Seq<Step>,
) -> bool {
    if is_active(k, id) {
        let start = begin(k, id, outcome);
        &&& steps.len() > 0
        &&& steps[0] == Step::Began(id, k.fibers[id.0 as int].setup)
        &&& forall|i: int|
            1 <= i < steps.len() ==> #[trigger] steps[i] == nth_step(
                start,
                seq![id],
                (i - 1) as nat,
            )
        &&& after_steps(start, seq![id], (steps.len() - 1) as nat) == (
            k2,
            Seq::<FiberId>::empty(),
        )
    } else {
        k2 == k && steps.len() == 0
    }
}

/// Whether these are the steps of disposing the fibers one after the other,
/// and `k2` is what they make of `k`.
pub open spec fn disposal_of_all(
    k: KernelView,
    k2: KernelView,
    ids: Seq<FiberId>,
    steps: Seq<Step>,
) -> bool
    decreases ids.len(),
{
    if ids.len() == 0 {
        k2 == k && steps.len() == 0
    } else {
        exists|mid: KernelView, n: int|
            0 <= n <= steps.len() && disposal_of_all(
                k,
                mid,
                ids.drop_last(),
                steps.take(n),
            ) && #[trigger] disposal_of(mid, k2, ids.last(), State::Disposed, steps.skip(n))
    }
}

/// What whole disposals did, fiber by fiber: a fiber was either not touched,
/// or it was in use and is gone now, and its cleanups ran last in first out.
pub open spec fn swept(k: KernelView, k2: KernelView, steps: Seq<Step>) -> bool {
    &&& k2.fibers.len() == k.fibers.len()
    &&& forall|i: int|
        0 <= i < k.fibers.len() ==> course(
            k.fibers[i],
            #[trigger] k2.fibers[i],
            effects_run(steps, FiberId(i as u32)),
            false,
            State::Disposed,
        )
}

/// What a whole disposal did, fiber by fiber: a fiber was either not touched,
/// or it was in use and is gone now, and its cleanups ran last in first out.
pub open spec fn disposed(
    k: KernelView,
    k2: KernelView,
    id: FiberId,
    outcome: State,
    steps: Seq<Step>,
) -> bool {
    &&& k2.fibers.len() == k.fibers.len()
    &&& forall|i: int|
        0 <= i < k.fibers.len() ==> course(
            k.fibers[i],
            #[trigger] k2.fibers[i],
            effects_run(steps, FiberId(i as u32)),
            false,
            if i == id.0 {
                outcome
            } else {
                State::Disposed
            },
        )
    &&& is_active(k, id) ==> k2.fibers[id.0 as int].phase is Gone
}

impl Kernel {
    /// Disposes a fiber from beginning to end: everything that has to go
    /// before it goes, and every step is listed in the order it was done. A
    /// fiber whose disposal has started before, or that does not exist, is
    /// left alone.
    pub fn dispose_fiber(&mut self, id: FiberId, outcome: State) -> (r: Vec<Step>)
        requires
            old(self).wf(),
            outcome is Failed || outcome is Disposed,
        ensures
            final(self).wf(),
            disposal_of(old(self)@, final(self)@, id, outcome, r@),
            disposed(old(self)@, final(self)@, id, outcome, r@),
    {
        let ghost k0 = self@;
        let mut log: Vec<Step> = Vec::new();
        let setup = match self.begin_dispose(id, outcome) {
            Some(setup) => setup,
            None => {
                return log;
            },
        };
        let ghost k = self@;
        log.push(Step::Began(id, setup));
        let mut disposal = Disposal::of(id);
        proof {
            assert(disposal@ =~= seq![id]);
            assert(log@.drop_last() =~= Seq::<Step>::empty());
            assert forall|i: int| 0 <= i < k0.fibers.len() implies course(
                k0.fibers[i],
                #[trigger] self@.fibers[i],
                effects_run(log@, FiberId(i as u32)),
                disposal@.contains(FiberId(i as u32)),
                if i == id.0 {
                    outcome
                } else {
                    State::Disposed
                },
            ) by {
                assert(effects_run(log@.drop_last(), FiberId(i as u32)).len() == 0);
                if i == id.0 {
                    assert(disposal@[0] == FiberId(i as u32));
                    assert(effects_run(log@, FiberId(i as u32)) + effects_due(
                        self@.fibers[i].disposables,
                    ) =~= effects_due(k0.fibers[i].disposables));
                } else {
                    assert(!disposal@.contains(FiberId(i as u32)));
                }
            }
        }
        while disposal.stack.len() > 0
            invariant
                self.wf(),
                stack_ok(self@, disposal@),
                log@.len() > 0,
                log@[0] == Step::Began(id, setup),
                is_active(k0, id),
                outcome is Failed || outcome is Disposed,
                k == begin(k0, id, outcome),
                self@.fibers.len() == k0.fibers.len() <= u32::MAX,
                after_steps(k, seq![id], (log@.len() - 1) as nat) == (self@, disposal@),
                forall|i: int|
                    1 <= i < log@.len() ==> #[trigger] log@[i] == nth_step(
                        k,
                        seq![id],
                        (i - 1) as nat,
                    ),
                forall|i: int|
                    0 <= i < k0.fibers.len() ==> course(
                        k0.fibers[i],
                        #[trigger] self@.fibers[i],
                        effects_run(log@, FiberId(i as u32)),
                        disposal@.contains(FiberId(i as u32)),
                        if i == id.0 {
                            outcome
                        } else {
                            State::Disposed
                        },
                    ),
                !(self@.fibers[id.0 as int].phase is Active),
            decreases
                in_use(self@.fibers, self@.fibers.len()),
                remaining_all(self@.fibers, disposal@),
        {
            let ghost before = self@;
            let ghost stack = disposal@;
            let ghost done = log@;
            proof {
                lemma_step_shape(before, stack);
                lemma_step_progress(before, stack);
                assert forall|i: int| 0 <= i < stack.len() implies (#[trigger] stack[i]).0
                    < before.fibers.len() by {
                    assert(is_disposing(before, stack[i]));
                }
            }
            let step = self.step(&mut disposal);
            log.push(step);
            proof {
                assert(log@.drop_last() =~= done);
                assert(nth_step(k, seq![id], (log@.len() - 2) as nat) == step);
                assert forall|i: int| 0 <= i < k0.fibers.len() implies course(
                    k0.fibers[i],
                    #[trigger] self@.fibers[i],
                    effects_run(log@, FiberId(i as u32)),
                    disposal@.contains(FiberId(i as u32)),
                    if i == id.0 {
                        outcome
                    } else {
                        State::Disposed
                    },
                ) by {
                    lemma_course_step(k0, before, stack, done, id, outcome, i);
                }
            }
        }
        proof {
            assert(disposal@ =~= Seq::<FiberId>::empty());
            assert forall|f: FiberId| !disposal@.contains(f) by {}
            assert(course(
                k0.fibers[id.0 as int],
                self@.fibers[id.0 as int],
                effects_run(log@, FiberId(id.0 as int as u32)),
                disposal@.contains(FiberId(id.0 as int as u32)),
                outcome,
            ));
        }
        log
    }
}

/// One step carries the course of every fiber on.
proof fn lemma_course_step(
    k0: KernelView,
    k: KernelView,
    stack: Seq<FiberId>,
    done: Seq<Step>,
    id: FiberId,
    outcome: State,
    i: int,
)
    requires
        kernel_ok(k),
        stack_ok(k, stack),
        stack.len() > 0,
        k.fibers.len() == k0.fibers.len(),
        0 <= i < k.fibers.len() <= u32::MAX,
        !(k.fibers[id.0 as int].phase is Active),
        id.0 < k.fibers.len(),
        course(
            k0.fibers[i],
            k.fibers[i],
            effects_run(done, FiberId(i as u32)),
            stack.contains(FiberId(i as u32)),
            if i == id.0 {
                outcome
            } else {
                State::Disposed
            },
        ),
    ensures
        ({
            let (k2, step) = dispose_step(k, stack);
            course(
                k0.fibers[i],
                k2.fibers[i],
                effects_run(done.push(step), FiberId(i as u32)),
                next_stack(stack, step).contains(FiberId(i as u32)),
                if i == id.0 {
                    outcome
                } else {
                    State::Disposed
                },
            )
        }),
{
    lemma_step_shape(k, stack);
    let (k2, step) = dispose_step(k, stack);
    let stack2 = next_stack(stack, step);
    let me = FiberId(i as u32);
    let top = stack.last();
    assert(is_disposing(k, stack[stack.len() - 1]));
    let log = done.push(step);
    assert(log.drop_last() =~= done);
    assert(stack.contains(top)) by {
        assert(stack[stack.len() - 1] == top);
    }
    assert(stack2.contains(me) == match step {
        Step::Began(first, _) => stack.contains(me) || me == first,
        Step::Settled(_, _) => stack.contains(me) && me != top,
        _ => stack.contains(me),
    }) by {
        match step {
            Step::Began(first, _) => {
                assert(stack2[stack.len() as int] == first);
                if stack.contains(me) {
                    let a = choose|a: int| 0 <= a < stack.len() && stack[a] == me;
                    assert(stack2[a] == me);
                }
                if stack2.contains(me) {
                    let a = choose|a: int| 0 <= a < stack2.len() && stack2[a] == me;
                    if a < stack.len() {
                        assert(stack[a] == me);
                    }
                }
            },
            Step::Settled(_, _) => {
                if stack.contains(me) && me != top {
                    let a = choose|a: int| 0 <= a < stack.len() && stack[a] == me;
                    assert(stack2[a] == me);
                }
                if stack2.contains(me) {
                    let a = choose|a: int| 0 <= a < stack2.len() && stack2[a] == me;
                    assert(stack[a] == me);
                    assert(stack[a] != stack[stack.len() - 1]);
                }
            },
            _ => {},
        }
    }
    let run = effects_run(done, me);
    let run2 = effects_run(log, me);
    match step {
        Step::Began(first, _) => {
            assert(run2 == run);
            if me == first {
                assert(!stack.contains(me)) by {
                    if stack.contains(me) {
                        let a = choose|a: int| 0 <= a < stack.len() && stack[a] == me;
                        assert(is_disposing(k, stack[a]));
                    }
                }
                assert(k.fibers[i] == k0.fibers[i]);
                assert(run2 + effects_due(k2.fibers[i].disposables) =~= effects_due(
                    k0.fibers[i].disposables,
                ));
            } else {
                assert(k2.fibers[i] == k.fibers[i]);
            }
        },
        Step::RunEffect(fiber, effect) => {
            if me == top {
                let ds = k.fibers[i].disposables;
                assert(effects_due(ds) =~= seq![effect] + effects_due(ds.drop_last()));
                assert(run2 + effects_due(k2.fibers[i].disposables) =~= run + effects_due(ds));
            } else {
                assert(i != top.0);
            }
        },
        Step::Settled(_, _) => {
            if me == top {
                assert(effects_due(k.fibers[i].disposables).len() == 0);
                assert(run2 =~= effects_due(k0.fibers[i].disposables));
            } else {
                assert(i != top.0);
            }
        },
        _ => {
            if me == top {
            } else {
                assert(i != top.0);
            }
        },
    }
}

/// The cleanups run over two lists of steps.
pub proof fn lemma_effects_run_add(a: Seq<Step>, b: Seq<Step>, id: FiberId)
    ensures
        effects_run(a + b, id) == effects_run(a, id) + effects_run(b, id),
    decreases b.len(),
{
    if b.len() == 0 {
        assert(a + b =~= a);
        assert(effects_run(a, id) + effects_run(b, id) =~= effects_run(a, id));
    } else {
        assert((a + b).drop_last() =~= a + b.drop_last());
        assert((a + b).last() == b.last());
        lemma_effects_run_add(a, b.drop_last(), id);
        assert(effects_run(a + b, id) =~= effects_run(a, id) + effects_run(b, id));
    }
}

/// Without a disposal under way, a kernel whose root is gone has no fiber in
/// use.
pub proof fn lemma_none_in_use(k: KernelView, i: int)
    requires
        kernel_ok(k),
        quiet(k),
        k.fibers[0].phase is Gone,
        0 <= i < k.fibers.len(),
    ensures
        k.fibers[i].phase is Gone,
    decreases i,
{
    assert(!(k.fibers[i].phase is Disposing));
    if i > 0 && k.fibers[i].phase is Active {
        assert(sheltered(k, i));
        let p = k.fibers[i].parent.0 as int;
        lemma_none_in_use(k, p);
    }
}

/// Whether nothing is left in the kernel: every fiber is gone, and with them
/// the queue, the handlers, the middlewares and the services.
pub open spec fn cleared(k: KernelView) -> bool {
    &&& forall|i: int| 0 <= i < k.fibers.len() ==> (#[trigger] k.fibers[i]).phase is Gone
    &&& k.pending.len() == 0
    &&& k.handlers.len() == 0
    &&& k.middlewares.len() == 0
    &&& forall|realm: RealmId, key: TypeId| !#[trigger] binds(k.realms, realm, key)
}

/// Without a disposal under way, a kernel whose root is gone is cleared.
pub proof fn lemma_cleared(k: KernelView)
    requires
        kernel_ok(k),
        quiet(k),
        k.fibers[0].phase is Gone,
    ensures
        cleared(k),
{
    assert forall|i: int| 0 <= i < k.fibers.len() implies (#[trigger] k.fibers[i]).phase
        is Gone by {
        lemma_none_in_use(k, i);
    }
    if k.pending.len() > 0 {
        assert(k.pending.contains(k.pending[0]));
    }
    if k.handlers.len() > 0 {
        let h = k.handlers[0];
        assert(k.fibers[h.fiber.0 as int].phase is Gone);
    }
    if k.middlewares.len() > 0 {
        let m = k.middlewares[0];
        assert(k.fibers[m.fiber.0 as int].phase is Gone);
    }
    assert forall|realm: RealmId, key: TypeId| !#[trigger] binds(k.realms, realm, key) by {
        if binds(k.realms, realm, key) {
            let service = k.realms[realm.0 as int].services[key];
            assert(owned(k, realm, key, service));
            let i = choose|i: int|
                0 <= i < k.fibers.len() && owns(#[trigger] k.fibers[i], realm, key, service);
            assert(k.fibers[i].phase is Gone);
        }
    }
}

/// What two disposals, one after the other, did to a fiber.
proof fn lemma_course_join(a: FiberView, b: FiberView, c: FiberView, x: Seq<u64>, y: Seq<u64>)
    requires
        course(a, b, x, false, State::Disposed),
        course(b, c, y, false, State::Disposed),
    ensures
        course(a, c, x + y, false, State::Disposed),
{
    if y.len() == 0 {
        assert(x + y =~= x);
    }
    if x.len() == 0 {
        assert(x + y =~= y);
    }
}

/// What two rounds of disposals, one after the other, did.
pub proof fn lemma_swept_join(
    a: KernelView,
    b: KernelView,
    c: KernelView,
    x: Seq<Step>,
    y: Seq<Step>,
)
    requires
        swept(a, b, x),
        swept(b, c, y),
    ensures
        swept(a, c, x + y),
{
    assert forall|i: int| 0 <= i < a.fibers.len() implies course(
        a.fibers[i],
        #[trigger] c.fibers[i],
        effects_run(x + y, FiberId(i as u32)),
        false,
        State::Disposed,
    ) by {
        let me = FiberId(i as u32);
        lemma_effects_run_add(x, y, me);
        assert(course(a.fibers[i], b.fibers[i], effects_run(x, me), false, State::Disposed));
        lemma_course_join(
            a.fibers[i],
            b.fibers[i],
            c.fibers[i],
            effects_run(x, me),
            effects_run(y, me),
        );
    }
}

impl Kernel {
    /// Disposes the given fibers, one after the other. Every step is listed
    /// in the order it was done.
    pub fn dispose_all(&mut self, ids: &Vec<FiberId>) -> (r: Vec<Step>)
        requires
            old(self).wf(),
        ensures
            final(self).wf(),
            disposal_of_all(old(self)@, final(self)@, ids@, r@),
            swept(old(self)@, final(self)@, r@),
            forall|i: int| 0 <= i < ids@.len() ==> !is_active(final(self)@, #[trigger] ids@[i]),
    {
        let ghost k0 = self@;
        let mut log: Vec<Step> = Vec::new();
        let mut n: usize = 0;
        assert(ids@.take(0) =~= Seq::<FiberId>::empty());
        while n < ids.len()
            invariant
                self.wf(),
                n <= ids@.len(),
                disposal_of_all(k0, self@, ids@.take(n as int), log@),
                swept(k0, self@, log@),
                forall|i: int| 0 <= i < n ==> !is_active(self@, #[trigger] ids@[i]),
            decreases ids@.len() - n,
        {
            let id = ids[n];
            let ghost before = self@;
            let ghost done = log@;
            let mut more = self.dispose_fiber(id, State::Disposed);
            let ghost steps = more@;
            log.append(&mut more);
            proof {
                assert(log@ =~= done + steps);
                assert(swept(before, self@, steps));
                lemma_swept_join(k0, before, self@, done, steps);
                let m = done.len() as int;
                assert(log@.take(m) =~= done);
                assert(log@.skip(m) =~= steps);
                assert(ids@.take(n + 1).drop_last() =~= ids@.take(n as int));
                assert(disposal_of_all(k0, before, ids@.take(n + 1).drop_last(), log@.take(m)));
                assert(disposal_of(
                    before,
                    self@,
                    ids@.take(n + 1).last(),
                    State::Disposed,
                    log@.skip(m),
                ));
                assert forall|i: int| 0 <= i < n + 1 implies !is_active(
                    self@,
                    #[trigger] ids@[i],
                ) by {
                    let f = ids@[i];
                    if i < n {
                        assert(!is_active(before, f));
                    }
                    if f.0 < self@.fibers.len() {
                        assert(course(
                            before.fibers[f.0 as int],
                            self@.fibers[f.0 as int],
                            effects_run(steps, FiberId(f.0 as int as u32)),
                            false,
                            State::Disposed,
                        ));
                    }
                }
            }
            n = n + 1;
        }
        assert(ids@.take(n as int) =~= ids@);
        log
    }

    /// The fiber to dispose next on the way to disposing everything: the root
    /// as long as it is in use, then whatever waits, in the order of the
    /// queue.
    pub fn next_doomed(&self) -> (r: Option<FiberId>)
        requires
            self.wf(),
        ensures
            r == (if is_active(self@, FiberId(0)) {
                Some(FiberId(0))
            } else if self@.pending.len() > 0 {
                Some(self@.pending[0])
            } else {
                None
            }),
            r is None <==> wound_down(self@),
    {
        if self.is_active(FiberId::root()) {
            return Some(FiberId::root());
        }
        if self.pending_ids().len() > 0 {
            return Some(self.pending_ids()[0]);
        }
        None
    }

    /// Disposes the root fiber, which cascades through every fiber the kernel
    /// knows about, then sweeps any leftover pending fibers. Every step is
    /// listed in the order it was done. Idempotent.
    ///
    /// What others have started to dispose is left to them, with whatever
    /// still hangs below it.
    pub fn dispose(&mut self) -> (r: Vec<Step>)
        requires
            old(self).wf(),
        ensures
            final(self).wf(),
            whole_disposal(old(self)@, final(self)@, r@),
            swept(old(self)@, final(self)@, r@),
            wound_down(final(self)@),
            forall|i: int|
                0 <= i < final(self)@.fibers.len() ==> (#[trigger] final(self)@.fibers[i]).phase
                    is Gone || under_disposal(old(self)@, i),
            wound_down(old(self)@) ==> r@.len() == 0 && final(self)@ == old(self)@,
            quiet(old(self)@) ==> cleared(final(self)@),
    {
        let ghost k0 = self@;
        let mut log = self.dispose_fiber(FiberId::root(), State::Disposed);
        let ghost mid = self@;
        let ghost first = log@;
        let mut waiting: Vec<FiberId> = Vec::new();
        let mut i: usize = 0;
        while i < self.pending_ids().len()
            invariant
                self@ == mid,
                i <= mid.pending.len(),
                waiting@ == mid.pending.take(i as int),
            decreases mid.pending.len() - i,
        {
            waiting.push(self.pending_ids()[i]);
            assert(waiting@ =~= mid.pending.take(i + 1));
            i = i + 1;
        }
        assert(waiting@ =~= mid.pending);
        let mut more = self.dispose_all(&waiting);
        let ghost then = more@;
        log.append(&mut more);
        proof {
            assert(log@ =~= first + then);
            lemma_swept_join(k0, mid, self@, first, then);
            assert(log@.take(first.len() as int) =~= first);
            assert(log@.skip(first.len() as int) =~= then);
            assert(ends_with_the_queue(k0, mid, self@, first.len() as int, log@));
            assert(!(mid.fibers[0].phase is Active));
            lemma_queue_ends(mid, self@, then);
            assert forall|i: int| 0 <= i < self@.fibers.len() implies (
            #[trigger] self@.fibers[i]).phase is Gone || under_disposal(k0, i) by {
                lemma_left_over(k0, self@, log@, i);
            }
            if quiet(k0) {
                assert forall|i: int| 0 <= i < self@.fibers.len() implies !((
                #[trigger] self@.fibers[i]).phase is Disposing) by {
                    assert(!(k0.fibers[i].phase is Disposing));
                }
                lemma_cleared(self@);
            }
            if wound_down(k0) {
                assert(mid == k0);
                assert(mid.pending =~= Seq::<FiberId>::empty());
            }
        }
        log
    }
}

/// Whether these steps dispose the root up to `n`, and behind that the fibers
/// that were waiting then.
pub open spec fn ends_with_the_queue(
    k: KernelView,
    mid: KernelView,
    k2: KernelView,
    n: int,
    steps: Seq<Step>,
) -> bool {
    &&& 0 <= n <= steps.len()
    &&& disposal_of(k, mid, FiberId(0), State::Disposed, steps.take(n))
    &&& disposal_of_all(mid, k2, mid.pending, steps.skip(n))
}

/// Whether these are the steps of disposing a whole kernel, and `k2` is what
/// they make of `k`: the root goes, with everything below it, and then what
/// is still waiting.
pub open spec fn whole_disposal(k: KernelView, k2: KernelView, steps: Seq<Step>) -> bool {
    exists|mid: KernelView, n: int| ends_with_the_queue(k, mid, k2, n, steps)
}

/// Whether the root is not in use any more and nothing waits.
pub open spec fn wound_down(k: KernelView) -> bool {
    !(k.fibers[0].phase is Active) && k.pending.len() == 0
}

/// Whether the fiber, or one that it hangs off, is being disposed.
pub open spec fn under_disposal(k: KernelView, i: int) -> bool
    decreases i,
{
    k.fibers[i].phase is Disposing || 0 < i && k.fibers[i].parent.0 < i && under_disposal(
        k,
        k.fibers[i].parent.0 as int,
    )
}

/// Once everything that waited has been disposed, nothing waits.
proof fn lemma_queue_ends(k: KernelView, k2: KernelView, steps: Seq<Step>)
    requires
        kernel_ok(k),
        kernel_ok(k2),
        swept(k, k2, steps),
        forall|i: int|
            0 <= i < k.pending.len() ==> !is_active(k2, #[trigger] k.pending[i]),
    ensures
        k2.pending.len() == 0,
{
    if k2.pending.len() > 0 {
        let p = k2.pending[0];
        assert(k2.pending.contains(p));
        let i = p.0 as int;
        assert(course(
            k.fibers[i],
            k2.fibers[i],
            effects_run(steps, FiberId(i as u32)),
            false,
            State::Disposed,
        ));
        assert(k.pending.contains(p));
        let j = choose|j: int| 0 <= j < k.pending.len() && k.pending[j] == p;
        assert(!is_active(k2, k.pending[j]));
    }
}

/// What is left once the root is not in use any more was being disposed
/// before, or hangs below what was.
proof fn lemma_left_over(k: KernelView, k2: KernelView, steps: Seq<Step>, i: int)
    requires
        kernel_ok(k2),
        swept(k, k2, steps),
        !(k2.fibers[0].phase is Active),
        0 <= i < k2.fibers.len(),
    ensures
        k2.fibers[i].phase is Gone || under_disposal(k, i),
    decreases i,
{
    assert(course(
        k.fibers[i],
        k2.fibers[i],
        effects_run(steps, FiberId(i as u32)),
        false,
        State::Disposed,
    ));
    if i > 0 && k2.fibers[i].phase is Active {
        assert(sheltered(k2, i));
        let p = k2.fibers[i].parent.0 as int;
        assert(k.fibers[i].parent == k2.fibers[i].parent);
        assert(p < i) by {
            assert(fiber_ok(k2.fibers[i]));
        }
        lemma_left_over(k, k2, steps, p);
    }
}

} // verus!
