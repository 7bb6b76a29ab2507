//! What a plugin can do through its context.

use crate::context::{Ctx, RealmId, ServiceId, binds, resolved};
use crate::disposal::{disposal_of_all, swept};
use crate::fiber::{Disposable, FiberId, Task};
use crate::kernel::Kernel;
use crate::model::{
    KernelView, Step, ctx_ok, dependents, is_active, is_live, kernel_ok, satisfied_ids, start_all,
    started, with_disposable, with_plugin, with_plugins, with_realm, with_scope, with_service,
    with_tasks,
};
use crate::plugin::{FnPlugin, PluginView};
use crate::service::ServiceKey;
use crate::upkeep::lemma_plugin_ok;
use vstd::prelude::*;

verus! {

/// What each of the plugins declares.
pub open spec fn plugin_views(plugins: Seq<FnPlugin>) -> Seq<PluginView> {
    plugins.map_values(|p: FnPlugin| p@)
}

/// The numbers `from` up to `from + n`, as fibers.
pub open spec fn fiber_range(from: int, n: nat) -> Seq<FiberId> {
    Seq::new(n, |i: int| FiberId((from + i) as u32))
}

/// What queueing plugins leaves as it was.
pub proof fn lemma_with_plugins(k: KernelView, ctx: Ctx, plugins: Seq<PluginView>)
    requires
        kernel_ok(k),
        ctx_ok(k, ctx),
        k.fibers.len() + plugins.len() <= u32::MAX,
    ensures
        kernel_ok(with_plugins(k, ctx, plugins)),
        ctx_ok(with_plugins(k, ctx, plugins), ctx),
        with_plugins(k, ctx, plugins).fibers.len() == k.fibers.len() + plugins.len(),
        is_active(with_plugins(k, ctx, plugins), ctx.fiber) == is_active(k, ctx.fiber),
        with_plugins(k, ctx, plugins).realms == k.realms,
        forall|i: int|
            0 <= i < k.fibers.len() ==> #[trigger] with_plugins(k, ctx, plugins).fibers[i]
                == k.fibers[i],
    decreases plugins.len(),
{
    if plugins.len() > 0 {
        let front = plugins.drop_last();
        lemma_with_plugins(k, ctx, front);
        let mid = with_plugins(k, ctx, front);
        lemma_plugin_ok(mid, ctx, plugins.last(), Seq::empty());
        let k2 = with_plugins(k, ctx, plugins);
        assert forall|i: int| 0 <= i < k.fibers.len() implies #[trigger] k2.fibers[i]
            == k.fibers[i] by {
            assert(mid.fibers[i] == k.fibers[i]);
        }
    }
}

/// The fibers that run on a binding that providing the service replaces, but
/// for the provider itself.
pub open spec fn displaced(
    k: KernelView,
    ctx: Ctx,
    key: ServiceKey,
    service: ServiceId,
) -> Seq<FiberId> {
    if binds(k.realms, ctx.realm, key.id) {
        dependents(with_service(k, ctx, key, service), ctx.realm, key.id, ctx.fiber)
    } else {
        Seq::empty()
    }
}

/// Whether disposing the fibers one after the other takes these steps and
/// leads from `k` to `k2`. Afterwards none of them is in use.
pub open spec fn disconnected(
    k: KernelView,
    k2: KernelView,
    ids: Seq<FiberId>,
    steps: Seq<Step>,
) -> bool {
    &&& disposal_of_all(k, k2, ids, steps)
    &&& swept(k, k2, steps)
    &&& kernel_ok(k2)
    &&& forall|i: int| 0 <= i < ids.len() ==> !is_active(k2, #[trigger] ids[i])
}

/// Whether providing a service takes these steps, starts these fibers and
/// leads from `k` to `k3`: the fibers that ran on a replaced binding are
/// disposed, and what can start by then starts.
pub open spec fn provided(
    k: KernelView,
    k3: KernelView,
    ctx: Ctx,
    key: ServiceKey,
    service: ServiceId,
    steps: Seq<Step>,
    started: Seq<FiberId>,
) -> bool {
    exists|k2: KernelView| #[trigger]
        disconnected(
            with_service(k, ctx, key, service),
            k2,
            displaced(k, ctx, key, service),
            steps,
        ) && started == satisfied_ids(k2) && k3 == start_all(k2, started)
}

/// What came of providing a service.
pub struct Provided {
    /// The steps of disposing the fibers that ran on a replaced binding.
    pub steps: Vec<Step>,
    /// The fibers that started; their setups are to be run.
    pub started: Vec<FiberId>,
}

impl Ctx {
    /// The fiber this context acts for.
    pub fn fiber_id(&self) -> (r: FiberId)
        ensures
            r == self.fiber,
    {
        self.fiber
    }

    /// The realm this context acts in.
    pub fn realm_id(&self) -> (r: RealmId)
        ensures
            r == self.realm,
    {
        self.realm
    }

    /// The service bound to the type in this realm or the nearest of its
    /// ancestors.
    pub fn get(&self, kernel: &Kernel, key: &ServiceKey) -> (r: Option<ServiceId>)
        requires
            kernel.wf(),
        ensures
            r == resolved(kernel@.realms, self.realm, key.id),
    {
        kernel.lookup(self.realm, key)
    }

    /// Provides a service in this realm, on behalf of this fiber. The fibers
    /// that ran on a binding that this one replaces are disposed; the plugins
    /// that waited for it start. On a fiber that is not in use nothing
    /// happens.
    pub fn provide(&self, kernel: &mut Kernel, key: ServiceKey, service: ServiceId) -> (r: Option<
        Provided,
    >)
        requires
            old(kernel).wf(),
            ctx_ok(old(kernel)@, *self),
        ensures
            final(kernel).wf(),
            match r {
                Some(done) => {
                    &&& is_active(old(kernel)@, self.fiber)
                    &&& provided(
                        old(kernel)@,
                        final(kernel)@,
                        *self,
                        key,
                        service,
                        done.steps@,
                        done.started@,
                    )
                },
                None => !is_active(old(kernel)@, self.fiber) && final(kernel)@ == old(kernel)@,
            },
    {
        match kernel.insert_service(*self, key, service) {
            Some(lost) => {
                let steps = kernel.dispose_all(&lost);
                let ghost k2 = kernel@;
                let started = kernel.take_satisfied();
                let done = Provided { steps, started };
                assert(disconnected(
                    with_service(old(kernel)@, *self, key, service),
                    k2,
                    displaced(old(kernel)@, *self, key, service),
                    done.steps@,
                ));
                Some(done)
            },
            None => None,
        }
    }

    /// A context with a fresh realm below this one: it sees this realm's
    /// services, and keeps its own to itself and its descendants.
    pub fn derive(&self, kernel: &mut Kernel) -> (r: Ctx)
        requires
            old(kernel).wf(),
            ctx_ok(old(kernel)@, *self),
            old(kernel)@.realms.len() < u32::MAX,
        ensures
            final(kernel).wf(),
            final(kernel)@ == with_realm(old(kernel)@, Some(self.realm)),
            r == (Ctx { fiber: self.fiber, realm: RealmId(old(kernel)@.realms.len() as u32) }),
            ctx_ok(final(kernel)@, r),
    {
        let realm = kernel.create_realm(Some(self.realm));
        Ctx { fiber: self.fiber, realm }
    }

    /// Makes a child fiber that runs no plugin: a scope that collects its own
    /// cleanups.
    pub fn fork(&self, kernel: &mut Kernel, name: String) -> (r: FiberId)
        requires
            old(kernel).wf(),
            ctx_ok(old(kernel)@, *self),
            old(kernel)@.fibers.len() < u32::MAX,
        ensures
            final(kernel).wf(),
            r.0 == old(kernel)@.fibers.len(),
            final(kernel)@ == with_scope(old(kernel)@, *self, name@),
    {
        kernel.create_scope(*self, name)
    }

    /// Registers a cleanup on this fiber; the result says whether the fiber
    /// is in use, without which nothing is registered.
    pub fn effect(&self, kernel: &mut Kernel, effect: u64) -> (r: bool)
        requires
            old(kernel).wf(),
        ensures
            final(kernel).wf(),
            r == is_active(old(kernel)@, self.fiber),
            final(kernel)@ == (if r {
                with_disposable(old(kernel)@, self.fiber, Disposable::Effect(effect))
            } else {
                old(kernel)@
            }),
    {
        kernel.add_effect(self.fiber, effect)
    }

    /// Makes this fiber keep track of a task that is cut off at disposal. A
    /// fiber that is not in use refuses it.
    pub fn spawn(&self, kernel: &mut Kernel, task: u64) -> (r: bool)
        requires
            old(kernel).wf(),
        ensures
            final(kernel).wf(),
            r == is_active(old(kernel)@, self.fiber),
            final(kernel)@ == (if r {
                with_tasks(
                    old(kernel)@,
                    self.fiber,
                    old(kernel)@.fibers[self.fiber.0 as int].tasks.push(
                        Task { id: task, graceful: false },
                    ),
                )
            } else {
                old(kernel)@
            }),
    {
        kernel.add_task(self.fiber, Task { id: task, graceful: false })
    }

    /// Makes this fiber keep track of a task that is told to stop and waited
    /// for at disposal. A fiber that is not in use refuses it.
    pub fn spawn_graceful(&self, kernel: &mut Kernel, task: u64) -> (r: bool)
        requires
            old(kernel).wf(),
        ensures
            final(kernel).wf(),
            r == is_active(old(kernel)@, self.fiber),
            final(kernel)@ == (if r {
                with_tasks(
                    old(kernel)@,
                    self.fiber,
                    old(kernel)@.fibers[self.fiber.0 as int].tasks.push(
                        Task { id: task, graceful: true },
                    ),
                )
            } else {
                old(kernel)@
            }),
    {
        kernel.add_task(self.fiber, Task { id: task, graceful: true })
    }

    /// Registers a plugin on its own fiber below this one, and starts what
    /// can start. The result names the new fiber and the fibers that started;
    /// their setups are to be run.
    pub fn register(&self, kernel: &mut Kernel, plugin: FnPlugin) -> (r: (FiberId, Vec<FiberId>))
        requires
            old(kernel).wf(),
            ctx_ok(old(kernel)@, *self),
            old(kernel)@.fibers.len() < u32::MAX,
        ensures
            final(kernel).wf(),
            r.0.0 == old(kernel)@.fibers.len(),
            ({
                let queued = with_plugin(old(kernel)@, *self, plugin@);
                &&& r.1@ == satisfied_ids(queued)
                &&& final(kernel)@ == start_all(queued, r.1@)
            }),
    {
        let id = kernel.create_fiber(*self, plugin);
        let started = kernel.take_satisfied();
        (id, started)
    }

    /// Registers a whole pass of plugins: all are queued before any starts,
    /// so what each declares to provide is visible to every other. The result
    /// names the new fibers, in order, and the fibers that started.
    pub fn register_batch(&self, kernel: &mut Kernel, plugins: Vec<FnPlugin>) -> (r: (
        Vec<FiberId>,
        Vec<FiberId>,
    ))
        requires
            old(kernel).wf(),
            ctx_ok(old(kernel)@, *self),
            old(kernel)@.fibers.len() + plugins@.len() <= u32::MAX,
        ensures
            final(kernel).wf(),
            r.0@ == fiber_range(old(kernel)@.fibers.len() as int, plugins@.len()),
            ({
                let queued = with_plugins(old(kernel)@, *self, plugin_views(plugins@));
                &&& r.1@ == satisfied_ids(queued)
                &&& final(kernel)@ == start_all(queued, r.1@)
            }),
    {
        let ghost k0 = kernel@;
        let ghost all = plugin_views(plugins@);
        let mut plugins = plugins;
        let mut ids: Vec<FiberId> = Vec::new();
        assert(all.take(0) =~= Seq::<PluginView>::empty());
        while plugins.len() > 0
            invariant
                kernel.wf(),
                kernel_ok(k0),
                ctx_ok(k0, *self),
                k0.fibers.len() + all.len() <= u32::MAX,
                ids@.len() + plugins@.len() == all.len(),
                all.skip(ids@.len() as int) == plugin_views(plugins@),
                kernel@ == with_plugins(k0, *self, all.take(ids@.len() as int)),
                ids@ == fiber_range(k0.fibers.len() as int, ids@.len()),
            decreases plugins@.len(),
        {
            let ghost rest = plugins@;
            let ghost n = ids@.len() as int;
            proof {
                lemma_with_plugins(k0, *self, all.take(n));
            }
            let plugin = plugins.remove(0);
            proof {
                assert(all[n] == plugin@) by {
                    assert(all.skip(n)[0] == plugin_views(rest)[0]);
                }
                assert(all.take(n + 1).drop_last() =~= all.take(n));
                assert(all.skip(n + 1) =~= plugin_views(plugins@)) by {
                    assert forall|i: int| 0 <= i < plugins@.len() implies all.skip(n + 1)[i]
                        == #[trigger] plugin_views(plugins@)[i] by {
                        assert(all.skip(n)[i + 1] == plugin_views(rest)[i + 1]);
                    }
                }
            }
            let id = kernel.create_fiber(*self, plugin);
            ids.push(id);
            assert(ids@ =~= fiber_range(k0.fibers.len() as int, ids@.len()));
        }
        assert(all.take(ids@.len() as int) =~= all);
        let started = kernel.take_satisfied();
        (ids, started)
    }
}

impl Kernel {
    /// The context of a live fiber: the fiber in its own realm.
    pub fn ctx_of(&self, id: FiberId) -> (r: Option<Ctx>)
        requires
            self.wf(),
        ensures
            r == (if is_live(self@, id) {
                Some(Ctx { fiber: id, realm: self@.fibers[id.0 as int].realm })
            } else {
                None
            }),
    {
        match self.fiber(id) {
            Some(fiber) => Some(Ctx { fiber: id, realm: fiber.realm }),
            None => None,
        }
    }
}

} // verus!
