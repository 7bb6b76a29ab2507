//! No task is forgotten.

use crate::context::{Ctx, ServiceId};
use crate::ctx::{Provided, disconnected, displaced, lemma_with_plugins};
use crate::disposal::{
    after_steps, course, disposal_of, disposal_of_all, effects_due, effects_run,
    ends_with_the_queue, lemma_step_progress, lemma_step_shape, nth_step, stack_ok, swept,
};
use crate::fiber::{FiberId, FiberView, Phase, Stage, State, Task};
use crate::kernel::{Kernel, other_task};
use crate::laws::lifecycle::{law_whole_disposals_move_onward, lemma_satisfied_ids};
use crate::loader::{
    Loader, Pass, Setback, batched, built_views, candidates, doomed, plan_of, root_ctx, verdict,
};
use crate::model::{
    KernelView, Step, begin, ctx_ok, dispose_step, fiber_ok, fiber_step, is_active, is_disposing,
    kernel_ok, next_stack, satisfied_ids, start_all, with_plugins, with_service,
};
use crate::plugin::FnPlugin;
use crate::seqs::lemma_filter_contains;
use crate::service::ServiceKey;
use crate::tree::EntryTree;
use crate::upkeep::{lemma_begin_ok, lemma_service_ok, lemma_start_all};
use vstd::prelude::*;

verus! {

/// Whether step number `at` stops the tasks of the fiber.
pub open spec fn stops_at(steps: Seq<Step>, id: FiberId, at: int) -> bool {
    0 <= at < steps.len() && steps[at] == Step::StopTasks(id)
}

/// Whether step number `at` runs a cleanup of the fiber.
pub open spec fn cleans_at(steps: Seq<Step>, id: FiberId, at: int) -> bool {
    0 <= at < steps.len() && (steps[at] matches Step::RunEffect(fiber, _) && fiber == id)
}

/// Whether step number `at` ends the fiber.
pub open spec fn settles_at(steps: Seq<Step>, id: FiberId, at: int) -> bool {
    0 <= at < steps.len() && (steps[at] matches Step::Settled(fiber, _) && fiber == id)
}

/// Whether the fiber's tasks were stopped once, or not at all where it had
/// none.
pub open spec fn stopped_once(steps: Seq<Step>, id: FiberId, had: bool) -> bool {
    &&& had ==> exists|at: int| stops_at(steps, id, at)
    &&& !had ==> forall|at: int| !stops_at(steps, id, at)
    &&& forall|a: int, b: int|
        #![trigger stops_at(steps, id, a), stops_at(steps, id, b)]
        stops_at(steps, id, a) && stops_at(steps, id, b) ==> a == b
}

/// Whether the fiber's tasks were stopped before any of its cleanups ran and
/// before it ended.
pub open spec fn stopped_first(steps: Seq<Step>, id: FiberId) -> bool {
    forall|a: int, b: int|
        #![trigger stops_at(steps, id, a), cleans_at(steps, id, b)]
        #![trigger stops_at(steps, id, a), settles_at(steps, id, b)]
        stops_at(steps, id, a) && (cleans_at(steps, id, b) || settles_at(steps, id, b)) ==> a < b
}

/// Whether the fiber ended at most once, and nothing was done for it behind
/// that.
pub open spec fn settled_last(steps: Seq<Step>, id: FiberId) -> bool {
    &&& forall|a: int, b: int|
        #![trigger settles_at(steps, id, a), settles_at(steps, id, b)]
        settles_at(steps, id, a) && settles_at(steps, id, b) ==> a == b
    &&& forall|a: int, b: int|
        #![trigger cleans_at(steps, id, a), settles_at(steps, id, b)]
        cleans_at(steps, id, a) && settles_at(steps, id, b) ==> a < b
}

/// How far the disposal of a fiber has come, told by what the steps so far
/// did to it.
spec fn so_far(before: FiberView, now: FiberView, steps: Seq<Step>, id: FiberId) -> bool {
    &&& match now.phase {
        Phase::Disposing(Stage::Drain, _) if before.phase is Active => stopped_once(
            steps,
            id,
            before.tasks.len() > 0,
        ) && stopped_first(steps, id),
        Phase::Gone if before.phase is Active => stopped_once(steps, id, before.tasks.len() > 0)
            && stopped_first(steps, id),
        Phase::Disposing(Stage::Joining, _) if before.phase is Active => {
            &&& before.tasks.len() > 0
            &&& stopped_once(steps, id, true)
            &&& forall|at: int| !cleans_at(steps, id, at)
        },
        _ => {
            &&& now.tasks == before.tasks
            &&& forall|at: int| !stops_at(steps, id, at)
            &&& forall|at: int| !cleans_at(steps, id, at)
        },
    }
    &&& before.phase is Active && now.phase is Gone <==> exists|at: int|
        settles_at(steps, id, at)
    &&& settled_last(steps, id)
    &&& !(before.phase is Active) ==> now == before
    &&& now.phase is Active ==> now == before
}

/// The first `n` steps, behind the one with which the disposal began.
spec fn trace(first: Step, k: KernelView, stack: Seq<FiberId>, n: nat) -> Seq<Step> {
    seq![first] + Seq::new(n, |i: int| nth_step(k, stack, i as nat))
}

/// One more step says of itself what it does, and of the others what was said.
proof fn lemma_one_more(steps: Seq<Step>, step: Step, id: FiberId)
    ensures
        forall|at: int|
            #![trigger stops_at(steps.push(step), id, at)]
            stops_at(steps.push(step), id, at) <==> stops_at(steps, id, at) || at == steps.len()
                && step == Step::StopTasks(id),
        forall|at: int|
            #![trigger cleans_at(steps.push(step), id, at)]
            cleans_at(steps.push(step), id, at) <==> cleans_at(steps, id, at) || at == steps.len()
                && (step matches Step::RunEffect(fiber, _) && fiber == id),
        forall|at: int|
            #![trigger settles_at(steps.push(step), id, at)]
            settles_at(steps.push(step), id, at) <==> settles_at(steps, id, at) || at
                == steps.len() && (step matches Step::Settled(fiber, _) && fiber == id),
        step == Step::StopTasks(id) ==> stops_at(steps.push(step), id, steps.len() as int),
        (step matches Step::Settled(fiber, _) && fiber == id) ==> settles_at(
            steps.push(step),
            id,
            steps.len() as int,
        ),
        forall|at: int|
            #![trigger stops_at(steps, id, at)]
            stops_at(steps, id, at) ==> stops_at(steps.push(step), id, at),
        forall|at: int|
            #![trigger settles_at(steps, id, at)]
            settles_at(steps, id, at) ==> settles_at(steps.push(step), id, at),
{
}

/// What a step says is of the fiber on top of the stack.
proof fn lemma_steps_are_of_the_top(k: KernelView, stack: Seq<FiberId>)
    requires
        kernel_ok(k),
        stack_ok(k, stack),
        stack.len() > 0,
    ensures
        match dispose_step(k, stack).1 {
            Step::StopTasks(id) => id == stack.last(),
            Step::RunEffect(id, _) => id == stack.last(),
            Step::Settled(id, _) => id == stack.last(),
            _ => true,
        },
{
    assert(is_disposing(k, stack[stack.len() - 1]));
}

proof fn lemma_so_far(
    first: Step,
    k: KernelView,
    stack: Seq<FiberId>,
    before: FiberView,
    i: int,
    n: nat,
)
    requires
        first is Began,
        kernel_ok(k),
        stack_ok(k, stack),
        0 <= i < k.fibers.len(),
        before.tasks == k.fibers[i].tasks,
        if stack.contains(FiberId(i as u32)) {
            before.phase is Active && k.fibers[i].phase matches Phase::Disposing(
                Stage::Children,
                _,
            )
        } else {
            before == k.fibers[i]
        },
    ensures
        ({
            let (k2, rest) = after_steps(k, stack, n);
            &&& kernel_ok(k2)
            &&& stack_ok(k2, rest)
            &&& k2.fibers.len() == k.fibers.len()
            &&& so_far(before, k2.fibers[i], trace(first, k, stack, n), FiberId(i as u32))
            &&& !(before.phase is Active) ==> !rest.contains(FiberId(i as u32))
            &&& before.phase is Active && k2.fibers[i].phase is Disposing ==> rest.contains(
                FiberId(i as u32),
            )
        }),
    decreases n,
{
    let me = FiberId(i as u32);
    if n > 0 {
        let m = (n - 1) as nat;
        lemma_so_far(first, k, stack, before, i, m);
        let (mid, rest) = after_steps(k, stack, m);
        let step = nth_step(k, stack, m);
        let steps = trace(first, k, stack, m);
        assert(trace(first, k, stack, n) =~= steps.push(step));
        lemma_one_more(steps, step, me);
        if rest.len() > 0 {
            lemma_step_shape(mid, rest);
            lemma_step_progress(mid, rest);
            lemma_steps_are_of_the_top(mid, rest);
            let top = rest.last();
            assert(is_disposing(mid, rest[rest.len() - 1]));
            lemma_one_step(before, mid, rest, steps, i);
            let rest2 = next_stack(rest, step);
            if !(before.phase is Active) && rest2.contains(me) {
                let a = choose|a: int| 0 <= a < rest2.len() && rest2[a] == me;
                if a < rest.len() {
                    assert(rest[a] == me);
                }
            }
            let k2 = dispose_step(mid, rest).0;
            if before.phase is Active && k2.fibers[i].phase is Disposing {
                if me == top {
                    assert(rest[rest.len() - 1] == me);
                    assert(rest2[rest.len() - 1] == me);
                } else if step matches Step::Began(other, _) && other == me {
                    assert(rest2[rest2.len() - 1] == me);
                } else {
                    assert(i != top.0);
                    assert(k2.fibers[i] == mid.fibers[i]);
                    let a = choose|a: int| 0 <= a < rest.len() && rest[a] == me;
                    assert(rest2[a] == me);
                }
            }
        }
    } else {
        assert(trace(first, k, stack, n) =~= seq![first]);
    }
}

proof fn lemma_one_step(
    before: FiberView,
    k: KernelView,
    stack: Seq<FiberId>,
    steps: Seq<Step>,
    i: int,
)
    requires
        kernel_ok(k),
        stack_ok(k, stack),
        stack.len() > 0,
        0 <= i < k.fibers.len(),
        so_far(before, k.fibers[i], steps, FiberId(i as u32)),
        !(before.phase is Active) ==> !stack.contains(FiberId(i as u32)),
    ensures
        ({
            let (k2, step) = dispose_step(k, stack);
            so_far(before, k2.fibers[i], steps.push(step), FiberId(i as u32))
        }),
{
    let me = FiberId(i as u32);
    let (k2, step) = dispose_step(k, stack);
    let top = stack.last();
    assert(is_disposing(k, stack[stack.len() - 1]));
    lemma_step_shape(k, stack);
    lemma_steps_are_of_the_top(k, stack);
    lemma_one_more(steps, step, me);
    if me == top {
        assert(stack.contains(me)) by {
            assert(stack[stack.len() - 1] == me);
        }
    } else {
        assert(i != top.0);
    }
}

/// No task is forgotten: a fiber that goes and keeps track of any task has
/// its tasks stopped exactly once, before any of its cleanups runs and before
/// it ends. Where it keeps track of none, or does not go, nothing is stopped.
/// A fiber that goes ends exactly once, and nothing is done for it after.
pub proof fn law_tasks_are_stopped_first(
    k: KernelView,
    k2: KernelView,
    id: FiberId,
    outcome: State,
    steps: Seq<Step>,
    i: int,
)
    requires
        kernel_ok(k),
        outcome is Failed || outcome is Disposed,
        disposal_of(k, k2, id, outcome, steps),
        0 <= i < k.fibers.len(),
    ensures
        ({
            let me = FiberId(i as u32);
            let goes = k.fibers[i].phase is Active && k2.fibers[i].phase is Gone;
            &&& goes && k.fibers[i].tasks.len() > 0 <==> exists|at: int| stops_at(steps, me, at)
            &&& forall|a: int, b: int|
                #![trigger stops_at(steps, me, a), stops_at(steps, me, b)]
                stops_at(steps, me, a) && stops_at(steps, me, b) ==> a == b
            &&& stopped_first(steps, me)
            &&& goes <==> exists|at: int| settles_at(steps, me, at)
            &&& settled_last(steps, me)
            &&& !goes ==> forall|at: int| !cleans_at(steps, me, at)
            &&& !goes ==> k2.fibers[i] == k.fibers[i]
        }),
        k2.fibers.len() == k.fibers.len(),
{
    let me = FiberId(i as u32);
    if is_active(k, id) {
        let start = begin(k, id, outcome);
        lemma_begin_ok(k, id, outcome);
        let n = (steps.len() - 1) as nat;
        assert(seq![id].contains(me) <==> me == id) by {
            assert(seq![id][0] == id);
        }
        lemma_so_far(steps[0], start, seq![id], k.fibers[i], i, n);
        assert(steps =~= trace(steps[0], start, seq![id], n));
    }
}

/// Whether the steps of some disposals are what becomes of a fiber in them:
/// where it goes, its tasks are stopped exactly once if it has any, before any
/// of its cleanups runs and before it ends, which it does once, with nothing
/// done for it after; where it does not go, nothing is done for it.
pub open spec fn seen_off(k: KernelView, k2: KernelView, steps: Seq<Step>, i: int) -> bool {
    let me = FiberId(i as u32);
    let goes = k.fibers[i].phase is Active && k2.fibers[i].phase is Gone;
    &&& goes && k.fibers[i].tasks.len() > 0 <==> exists|at: int| stops_at(steps, me, at)
    &&& forall|a: int, b: int|
        #![trigger stops_at(steps, me, a), stops_at(steps, me, b)]
        stops_at(steps, me, a) && stops_at(steps, me, b) ==> a == b
    &&& stopped_first(steps, me)
    &&& goes <==> exists|at: int| settles_at(steps, me, at)
    &&& settled_last(steps, me)
    &&& !goes ==> forall|at: int| !cleans_at(steps, me, at)
}

/// What two lists of steps say of a fiber, one behind the other.
proof fn lemma_two_parts(steps: Seq<Step>, n: int, id: FiberId)
    requires
        0 <= n <= steps.len(),
    ensures
        forall|at: int|
            #![trigger stops_at(steps, id, at)]
            stops_at(steps, id, at) <==> stops_at(steps.take(n), id, at) || stops_at(
                steps.skip(n),
                id,
                at - n,
            ),
        forall|at: int|
            #![trigger cleans_at(steps, id, at)]
            cleans_at(steps, id, at) <==> cleans_at(steps.take(n), id, at) || cleans_at(
                steps.skip(n),
                id,
                at - n,
            ),
        forall|at: int|
            #![trigger settles_at(steps, id, at)]
            settles_at(steps, id, at) <==> settles_at(steps.take(n), id, at) || settles_at(
                steps.skip(n),
                id,
                at - n,
            ),
        forall|at: int|
            #![trigger stops_at(steps.take(n), id, at)]
            stops_at(steps.take(n), id, at) ==> stops_at(steps, id, at) && at < n,
        forall|at: int|
            #![trigger settles_at(steps.take(n), id, at)]
            settles_at(steps.take(n), id, at) ==> settles_at(steps, id, at) && at < n,
        forall|at: int|
            #![trigger stops_at(steps.skip(n), id, at)]
            stops_at(steps.skip(n), id, at) ==> stops_at(steps, id, at + n) && at >= 0,
        forall|at: int|
            #![trigger settles_at(steps.skip(n), id, at)]
            settles_at(steps.skip(n), id, at) ==> settles_at(steps, id, at + n) && at >= 0,
{
}

/// Whether the fiber is as it was, or was in use and is gone.
pub open spec fn stays_or_goes(k: KernelView, k2: KernelView, i: int) -> bool {
    k2.fibers[i] == k.fibers[i] || k.fibers[i].phase is Active && k2.fibers[i].phase is Gone
}

proof fn lemma_seen_off_join(
    k: KernelView,
    mid: KernelView,
    k2: KernelView,
    steps: Seq<Step>,
    n: int,
    i: int,
)
    requires
        0 <= n <= steps.len(),
        seen_off(k, mid, steps.take(n), i),
        stays_or_goes(k, mid, i),
        seen_off(mid, k2, steps.skip(n), i),
        stays_or_goes(mid, k2, i),
    ensures
        seen_off(k, k2, steps, i),
        stays_or_goes(k, k2, i),
{
    lemma_two_parts(steps, n, FiberId(i as u32));
}

/// No task is forgotten in several disposals either.
pub proof fn law_tasks_are_stopped_in_every_disposal(
    k: KernelView,
    k2: KernelView,
    ids: Seq<FiberId>,
    steps: Seq<Step>,
    i: int,
)
    requires
        kernel_ok(k),
        disposal_of_all(k, k2, ids, steps),
        0 <= i < k.fibers.len(),
    ensures
        kernel_ok(k2),
        k2.fibers.len() == k.fibers.len(),
        seen_off(k, k2, steps, i),
        k2.fibers[i] == k.fibers[i] || k.fibers[i].phase is Active && k2.fibers[i].phase is Gone,
    decreases ids.len(),
{
    if ids.len() > 0 {
        let (mid, n) = choose|mid: KernelView, n: int|
            0 <= n <= steps.len() && disposal_of_all(
                k,
                mid,
                ids.drop_last(),
                steps.take(n),
            ) && #[trigger] disposal_of(mid, k2, ids.last(), State::Disposed, steps.skip(n));
        law_tasks_are_stopped_in_every_disposal(k, mid, ids.drop_last(), steps.take(n), i);
        law_tasks_are_stopped_first(mid, k2, ids.last(), State::Disposed, steps.skip(n), i);
        law_whole_disposals_move_onward(mid, k2, ids.last(), State::Disposed, steps.skip(n));
        lemma_seen_off_join(k, mid, k2, steps, n, i);
    }
}

/// The same of a kernel that disposes a fiber.
pub proof fn law_disposing_stops_tasks(
    kernel: &mut Kernel,
    id: FiberId,
    outcome: State,
    r: Vec<Step>,
    i: int,
)
    requires
        old(kernel).wf(),
        outcome is Failed || outcome is Disposed,
        0 <= i < old(kernel)@.fibers.len(),
        call_ensures(Kernel::dispose_fiber, (kernel, id, outcome), r),
    ensures
        ({
            let me = FiberId(i as u32);
            let (f, g) = (old(kernel)@.fibers[i], final(kernel)@.fibers[i]);
            &&& f.phase is Active && g.phase is Gone && f.tasks.len() > 0 <==> exists|at: int|
                stops_at(r@, me, at)
            &&& stopped_first(r@, me)
            &&& f.phase is Active && g.phase is Gone <==> exists|at: int| settles_at(r@, me, at)
            &&& settled_last(r@, me)
        }),
        is_active(old(kernel)@, id) ==> final(kernel)@.fibers[id.0 as int].phase is Gone,
{
    law_tasks_are_stopped_first(old(kernel)@, final(kernel)@, id, outcome, r@, i);
}

/// Nor does any single step forget a task, whatever else is done to the kernel
/// between the steps: a fiber that reaches its tasks and has any is told to
/// stop them, only then are they let go, and a fiber that ends has none.
pub proof fn law_no_step_forgets_a_task(k: KernelView, id: FiberId)
    requires
        kernel_ok(k),
        is_disposing(k, id),
    ensures
        ({
            let (k2, step) = fiber_step(k, id);
            let (f, f2) = (k.fibers[id.0 as int], k2.fibers[id.0 as int]);
            &&& (f.phase matches Phase::Disposing(Stage::Tasks, _)) && f.tasks.len() > 0 <==> step
                == Step::StopTasks(id)
            &&& (f2.phase matches Phase::Disposing(Stage::Joining, _)) <==> step
                == Step::StopTasks(id) || (f.phase matches Phase::Disposing(Stage::Joining, _))
                && f2 == f
            &&& f2.tasks != f.tasks ==> (f.phase matches Phase::Disposing(Stage::Joining, _))
                && f2.tasks.len() == 0
            &&& step is Settled ==> f.tasks.len() == 0
            &&& k2.fibers.len() == k.fibers.len()
            &&& forall|i: int|
                0 <= i < k.fibers.len() && i != id.0 ==> (#[trigger] k2.fibers[i]).tasks
                    == k.fibers[i].tasks
        }),
{
    lemma_step_shape(k, seq![id]);
    assert(seq![id].last() == id);
    if fiber_step(k, id).1 is Settled {
        assert(k.fibers[id.0 as int].tasks =~= Seq::<Task>::empty());
    }
}

/// A fiber in use keeps track of every task it is given, behind those it had;
/// any other fiber refuses.
pub proof fn law_tasks_are_tracked(kernel: &mut Kernel, id: FiberId, task: Task, r: bool)
    requires
        old(kernel).wf(),
        call_ensures(Kernel::add_task, (kernel, id, task), r),
    ensures
        r <==> id.0 < old(kernel)@.fibers.len() && old(kernel)@.fibers[id.0 as int].phase is Active,
        !r ==> final(kernel)@ == old(kernel)@,
        r ==> final(kernel)@.fibers[id.0 as int].tasks == old(kernel)@.fibers[id.0 as int].tasks
            + seq![task],
        only_the_tasks_change(old(kernel)@, final(kernel)@, id),
{
}

/// A task that has ended is let go, and no other is.
pub proof fn law_finished_tasks_are_let_go(
    kernel: &mut Kernel,
    id: FiberId,
    task: u64,
    other: Task,
)
    requires
        old(kernel).wf(),
        call_ensures(Kernel::finish_task, (kernel, id, task), ()),
    ensures
        id.0 < old(kernel)@.fibers.len() ==> ({
            let f = old(kernel)@.fibers[id.0 as int];
            let f2 = final(kernel)@.fibers[id.0 as int];
            f2.tasks.contains(other) <==> f.tasks.contains(other) && other.id != task
        }),
        only_the_tasks_change(old(kernel)@, final(kernel)@, id),
{
    if id.0 < old(kernel)@.fibers.len() {
        lemma_filter_contains(old(kernel)@.fibers[id.0 as int].tasks, other_task(task));
    }
}

/// Cutting off the tasks of a fiber hands out every one of them, once.
pub proof fn law_cut_off_tasks_are_handed_out(kernel: &mut Kernel, id: FiberId, r: Vec<Task>)
    requires
        old(kernel).wf(),
        call_ensures(Kernel::abort_tasks, (kernel, id), r),
    ensures
        id.0 < old(kernel)@.fibers.len() ==> r@ == old(kernel)@.fibers[id.0 as int].tasks,
        id.0 < old(kernel)@.fibers.len() ==> final(kernel)@.fibers[id.0 as int].tasks.len() == 0,
        id.0 >= old(kernel)@.fibers.len() ==> r@.len() == 0,
        only_the_tasks_change(old(kernel)@, final(kernel)@, id),
{
    if id.0 < old(kernel)@.fibers.len() && old(kernel)@.fibers[id.0 as int].phase is Gone {
        assert(old(kernel)@.fibers[id.0 as int].tasks =~= Seq::<Task>::empty());
    }
}

/// Whether nothing differs but the tasks of one fiber.
pub open spec fn only_the_tasks_change(k: KernelView, k2: KernelView, id: FiberId) -> bool {
    &&& KernelView { fibers: k2.fibers, ..k } == k2
    &&& k2.fibers.len() == k.fibers.len()
    &&& forall|i: int|
        0 <= i < k.fibers.len() && i != id.0 ==> #[trigger] k2.fibers[i] == k.fibers[i]
    &&& id.0 < k.fibers.len() ==> FiberView {
        tasks: k2.fibers[id.0 as int].tasks,
        ..k.fibers[id.0 as int]
    } == k2.fibers[id.0 as int]
}

// ---- what is handed out ----

/// Whether every cleanup that a fiber registered is among the steps exactly
/// where the fiber goes, the last registered first.
pub open spec fn cleaned_up(k: KernelView, k2: KernelView, steps: Seq<Step>, i: int) -> bool {
    effects_run(steps, FiberId(i as u32)) == if k.fibers[i].phase is Active && k2.fibers[i].phase
        is Gone {
        effects_due(k.fibers[i].disposables)
    } else {
        Seq::empty()
    }
}

proof fn lemma_cleaned_up(k: KernelView, k2: KernelView, steps: Seq<Step>, i: int)
    requires
        swept(k, k2, steps),
        0 <= i < k.fibers.len(),
        !(k.fibers[i].phase is Active && k2.fibers[i].phase is Gone) ==> k2.fibers[i]
            == k.fibers[i],
    ensures
        cleaned_up(k, k2, steps, i),
{
    let run = effects_run(steps, FiberId(i as u32));
    assert(course(k.fibers[i], k2.fibers[i], run, false, State::Disposed));
    if run.len() == 0 {
        assert(run =~= Seq::<u64>::empty());
    }
}

/// The steps that a kernel hands out when it disposes fibers, or everything,
/// see every fiber off that goes: its tasks are stopped, its cleanups run.
pub proof fn law_disposing_hands_out_every_step(
    kernel: &mut Kernel,
    all: bool,
    ids: Vec<FiberId>,
    r: Vec<Step>,
    i: int,
)
    requires
        old(kernel).wf(),
        if all {
            call_ensures(Kernel::dispose, (kernel,), r)
        } else {
            call_ensures(Kernel::dispose_all, (kernel, &ids), r)
        },
        0 <= i < old(kernel)@.fibers.len(),
    ensures
        stays_or_goes(old(kernel)@, final(kernel)@, i),
        seen_off(old(kernel)@, final(kernel)@, r@, i),
        cleaned_up(old(kernel)@, final(kernel)@, r@, i),
{
    let (k, k2) = (old(kernel)@, final(kernel)@);
    if all {
        let (mid, n) = choose|mid: KernelView, n: int| ends_with_the_queue(k, mid, k2, n, r@);
        law_tasks_are_stopped_first(k, mid, FiberId(0), State::Disposed, r@.take(n), i);
        law_whole_disposals_move_onward(k, mid, FiberId(0), State::Disposed, r@.take(n));
        law_tasks_are_stopped_in_every_disposal(mid, k2, mid.pending, r@.skip(n), i);
        lemma_seen_off_join(k, mid, k2, r@, n, i);
    } else {
        law_tasks_are_stopped_in_every_disposal(k, k2, ids@, r@, i);
    }
    lemma_cleaned_up(k, k2, r@, i);
}

/// The steps that providing a service hands out see every fiber off that goes
/// because of it.
pub proof fn law_providing_hands_out_every_step(
    kernel: &mut Kernel,
    ctx: Ctx,
    key: ServiceKey,
    service: ServiceId,
    r: Option<Provided>,
    i: int,
)
    requires
        old(kernel).wf(),
        ctx_ok(old(kernel)@, ctx),
        call_ensures(Ctx::provide, (&ctx, kernel, key, service), r),
        0 <= i < old(kernel)@.fibers.len(),
    ensures
        r matches Some(done) ==> {
            &&& seen_off(old(kernel)@, final(kernel)@, done.steps@, i)
            &&& cleaned_up(old(kernel)@, final(kernel)@, done.steps@, i)
            &&& done.started@.contains(FiberId(i as u32)) <==> old(kernel)@.fibers[i].state
                is Pending && final(kernel)@.fibers[i].state is Starting
        },
{
    let (k, k2) = (old(kernel)@, final(kernel)@);
    if let Some(done) = r {
        let start = with_service(k, ctx, key, service);
        let mid = choose|mid: KernelView| #[trigger]
            disconnected(start, mid, displaced(k, ctx, key, service), done.steps@)
                && done.started@ == satisfied_ids(mid) && k2 == start_all(mid, done.started@);
        lemma_service_ok(k, ctx, key, service);
        law_tasks_are_stopped_in_every_disposal(
            start,
            mid,
            displaced(k, ctx, key, service),
            done.steps@,
            i,
        );
        lemma_cleaned_up(start, mid, done.steps@, i);
        lemma_satisfied_ids(mid);
        lemma_start_all(mid, done.started@);
        let f = k.fibers[i];
        assert(effects_due(start.fibers[i].disposables) == effects_due(f.disposables)) by {
            if i == ctx.fiber.0 {
                assert(start.fibers[i].disposables.drop_last() =~= f.disposables);
            }
        }
        assert(k2.fibers[i].phase == mid.fibers[i].phase);
        if done.started@.contains(FiberId(i as u32)) {
            assert(mid.pending.contains(FiberId(i as u32)));
            assert(mid.fibers[i].state is Pending);
        } else if k2.fibers[i].state is Starting {
            assert(k2.fibers[i] == mid.fibers[i]);
            assert(fiber_ok(mid.fibers[i]));
        }
    }
}

/// The steps that a pass hands out, whether it went through or not, see every
/// fiber off that goes because of it.
pub proof fn law_passes_hand_out_every_step(
    loader: &mut Loader,
    kernel: &mut Kernel,
    next: EntryTree,
    checks: Vec<Option<String>>,
    built: Vec<Result<FnPlugin, String>>,
    r: Result<Pass, Setback>,
    i: int,
)
    requires
        old(loader).wf(),
        old(kernel).wf(),
        next.wf(),
        built@.len() == candidates(plan_of(old(loader).spec_mounted(), next@)).len(),
        old(kernel)@.fibers.len() + built@.len() <= u32::MAX,
        call_ensures(Loader::reconcile, (loader, kernel, &next, &checks, built), r),
        0 <= i < old(kernel)@.fibers.len(),
    ensures
        ({
            let steps = match r {
                Ok(pass) => pass.steps@,
                Err(setback) => setback.steps@,
            };
            &&& seen_off(old(kernel)@, final(kernel)@, steps, i)
            &&& cleaned_up(old(kernel)@, final(kernel)@, steps, i)
        }),
{
    let (k, k2) = (old(kernel)@, final(kernel)@);
    let mounted = old(loader).spec_mounted();
    let actions = plan_of(mounted, next@);
    let me = FiberId(i as u32);
    let steps = match r {
        Ok(pass) => pass.steps@,
        Err(setback) => setback.steps@,
    };
    if verdict(old(loader).spec_kinds(), candidates(actions), checks@) is Some {
        assert(k2 == k);
        assert(steps =~= Seq::<Step>::empty());
        assert forall|at: int|
            !stops_at(steps, me, at) && !cleans_at(steps, me, at) && !settles_at(
                steps,
                me,
                at,
            ) by {}
        assert(effects_run(steps, me) =~= Seq::<u64>::empty());
    } else {
        let mid = choose|mid: KernelView| #[trigger]
            disconnected(k, mid, doomed(actions), steps) && match r {
                Ok(pass) => batched(mid, k2, built_views(built@), pass.started@),
                Err(_) => k2 == mid,
            };
        law_tasks_are_stopped_in_every_disposal(k, mid, doomed(actions), steps, i);
        lemma_cleaned_up(k, mid, steps, i);
        if let Ok(pass) = r {
            let plugins = built_views(built@);
            let queued = with_plugins(mid, root_ctx(), plugins);
            lemma_with_plugins(mid, root_ctx(), plugins);
            lemma_satisfied_ids(queued);
            lemma_start_all(queued, pass.started@);
            assert(queued.fibers[i] == mid.fibers[i]);
            assert(k2.fibers[i].phase == mid.fibers[i].phase);
        }
    }
}

} // verus!
