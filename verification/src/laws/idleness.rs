//! When a kernel is idle.

use crate::disposal::quiet;
use crate::fiber::FiberId;
use crate::kernel::{Kernel, idle};
use crate::model::{KernelView, kernel_ok};
use vstd::prelude::*;

verus! {

/// A kernel is idle exactly where every fiber that is not gone is ready and
/// keeps track of no task. An idle kernel has nothing waiting in its queue.
pub proof fn law_idle_kernels_have_no_work(k: KernelView)
    requires
        kernel_ok(k),
    ensures
        idle(k) <==> forall|i: int|
            0 <= i < k.fibers.len() && !((#[trigger] k.fibers[i]).phase is Gone)
                ==> k.fibers[i].state is Ready && k.fibers[i].tasks.len() == 0,
        idle(k) ==> k.pending.len() == 0,
        idle(k) ==> forall|i: int|
            0 <= i < k.fibers.len() ==> (#[trigger] k.fibers[i]).tasks.len() == 0,
{
    if idle(k) && k.pending.len() > 0 {
        let id = k.pending[0];
        assert(k.pending.contains(id));
        assert(k.fibers[id.0 as int].state is Pending);
    }
    if forall|i: int|
        0 <= i < k.fibers.len() && !((#[trigger] k.fibers[i]).phase is Gone)
            ==> k.fibers[i].state is Ready && k.fibers[i].tasks.len() == 0 {
        assert(idle(k));
    }
}

/// Where no disposal is under way, a kernel is idle as soon as nothing waits,
/// no fiber in use is starting, and no task is tracked.
pub proof fn law_kernels_without_work_are_idle(k: KernelView)
    requires
        kernel_ok(k),
        quiet(k),
        k.pending.len() == 0,
        forall|i: int|
            0 <= i < k.fibers.len() && (#[trigger] k.fibers[i]).phase is Active
                ==> !(k.fibers[i].state is Starting) && k.fibers[i].tasks.len() == 0,
    ensures
        idle(k),
{
    assert forall|i: int|
        0 <= i < k.fibers.len() && !((#[trigger] k.fibers[i]).phase is Gone) implies
        k.fibers[i].state is Ready && k.fibers[i].tasks.len() == 0 by {
        assert(!(k.fibers[i].phase is Disposing));
        if k.fibers[i].state is Pending {
            assert(k.pending.contains(FiberId(i as u32)));
        }
    }
    law_idle_kernels_have_no_work(k);
}

/// A plugin that waits, a setup that runs and a task that is tracked keep the
/// kernel busy; nothing else does.
pub proof fn law_what_keeps_a_kernel_busy(kernel: Kernel, r: bool)
    requires
        kernel.wf(),
        call_ensures(Kernel::is_idle, (&kernel,), r),
    ensures
        r ==> kernel@.pending.len() == 0,
        !r <==> exists|i: int|
            0 <= i < kernel@.fibers.len() && !((#[trigger] kernel@.fibers[i]).phase is Gone) && (
            kernel@.fibers[i].state is Pending || kernel@.fibers[i].state is Starting
                || kernel@.fibers[i].tasks.len() > 0),
{
    law_idle_kernels_have_no_work(kernel@);
    let k = kernel@;
    if !r {
        let i = choose|i: int|
            0 <= i < k.fibers.len() && !((#[trigger] k.fibers[i]).phase is Gone) && !(
            k.fibers[i].state is Ready && k.fibers[i].tasks.len() == 0);
        assert(!(k.fibers[i].phase is Gone));
    }
}

} // verus!
