//! The kernel: registries for fibers, realms, pending plugins, and events.

use crate::context::{Ctx, RealmId, Realms, ServiceId, binds, chain, kids, resolved, resolving};
use crate::events::{EventHandler, EventKey, TypeTag};
use crate::fiber::{Disposable, Fiber, FiberId, FiberView, Phase, Stage, State, Task, text_view};
use crate::model::{
    KernelView, Step, announces, at_stage, awaited, begin, begin_first, child_of, children,
    crossed_off, ctx_ok, dependent_on, dependents, dispose_step, drain_step, fiber_step,
    fresh_kernel, is_active, is_disposing, is_hard, is_live, kernel_ok, may_start, met, needs,
    next_stack, noted, other_handler, other_middleware, other_than, plugin_fiber, recorded, renamed,
    satisfied, satisfied_ids, setup_done, setup_failed, sheltered, start, start_all, unheard,
    unqueued, unsettled, unwrapped, with_disposable, with_fiber, with_handler, with_late_handler,
    with_late_middleware, with_middleware, with_plugin, with_realm, with_scope, with_service,
    with_tasks,
};
use crate::pipeline::PipelineHandler;
use crate::plugin::{Dependency, FnPlugin, PluginView};
use crate::seqs::{
    ids_where, lemma_filter_contains, lemma_filter_none, lemma_filter_step, lemma_filter_unique,
};
use crate::service::{ServiceKey, same_type};
use crate::table::{Table, rows_map, rows_unique};
use crate::upkeep::{
    lemma_begin_ok, lemma_children, lemma_dependents, lemma_disposable_ok, lemma_drain_ok,
    lemma_fiber_step_ok, lemma_fresh_ok, lemma_handler_ok, lemma_middleware_ok, lemma_plugin_ok,
    lemma_realm_ok, lemma_registries, lemma_service_ok, lemma_setup_ok, lemma_start_all,
    lemma_start_ok, lemma_tasks_ok,
};
use std::any::TypeId;
use vstd::prelude::*;

verus! {

/// A plugin kernel: fibers, realm-scoped services, scoped events and
/// pipelines under one registry.
///
/// The kernel owns the root fiber and the root realm. It decides; running
/// plugins, handlers and cleanups is left to its host.
pub struct Kernel {
    realms: Realms,
    fibers: Vec<Fiber>,
    pending: Vec<FiberId>,
    handlers: Vec<EventHandler>,
    middlewares: Vec<PipelineHandler>,
    next_handler: u64,
    families: Vec<EventKey>,
    type_names: Table<TypeId, &'static str>,
    points: Table<TypeId, &'static str>,
}

/// What each of the fibers is.
pub open spec fn fiber_views(fibers: Seq<Fiber>) -> Seq<FiberView> {
    fibers.map_values(|f: Fiber| f@)
}

impl View for Kernel {
    type V = KernelView;

    closed spec fn view(&self) -> KernelView {
        KernelView {
            realms: self.realms@,
            fibers: fiber_views(self.fibers@),
            pending: self.pending@,
            handlers: self.handlers@,
            middlewares: self.middlewares@,
            next_handler: self.next_handler as int,
            families: self.families@,
            type_names: self.type_names.rows@,
            points: self.points.rows@,
        }
    }
}

impl Kernel {
    /// The registries are in order by themselves.
    pub closed spec fn registries_ok(&self) -> bool {
        &&& self.realms.wf()
        &&& self.type_names.wf()
        &&& self.points.wf()
        &&& forall|i: int| 0 <= i < self.fibers@.len() ==> (#[trigger] self.fibers@[i]).id.0 == i
    }

    /// The kernel is in order.
    pub open spec fn wf(&self) -> bool {
        self.registries_ok() && kernel_ok(self@)
    }

    /// Creates a kernel with a ready root fiber and an empty root realm.
    pub fn new() -> (r: Self)
        ensures
            r.wf(),
            r@ == fresh_kernel(),
    {
        let mut root = Fiber::new(
            FiberId::root(),
            FiberId::root(),
            RealmId::root(),
            "root".to_owned(),
        );
        root.state = State::Ready;
        let mut fibers: Vec<Fiber> = Vec::new();
        fibers.push(root);
        let kernel = Kernel {
            realms: Realms::new(),
            fibers,
            pending: Vec::new(),
            handlers: Vec::new(),
            middlewares: Vec::new(),
            next_handler: 0,
            families: Vec::new(),
            type_names: Table::new(),
            points: Table::new(),
        };
        proof {
            lemma_fresh_ok();
            assert(kernel.fibers@[0]@ =~= fresh_kernel().fibers[0]);
            assert(kernel@ =~= fresh_kernel());
        }
        kernel
    }

    /// A context bound to the root fiber and root realm.
    pub fn root_ctx(&self) -> (r: Ctx)
        requires
            self.wf(),
        ensures
            r == (Ctx { fiber: FiberId(0), realm: RealmId(0) }),
            ctx_ok(self@, r),
    {
        Ctx { fiber: FiberId::root(), realm: RealmId::root() }
    }

    // ---- looking things up ----

    /// How many fibers were ever made.
    pub fn fiber_count(&self) -> (r: usize)
        ensures
            r == self@.fibers.len(),
    {
        self.fibers.len()
    }

    /// A fiber that is not gone.
    pub fn fiber(&self, id: FiberId) -> (r: Option<&Fiber>)
        requires
            self.wf(),
        ensures
            match r {
                Some(f) => is_live(self@, id) && f.id == id && f@ == self@.fibers[id.0 as int],
                None => !is_live(self@, id),
            },
    {
        let i = id.0 as usize;
        if i < self.fibers.len() {
            assert(self@.fibers[i as int] == self.fibers@[i as int]@);
            match self.fibers[i].phase {
                Phase::Gone => None,
                _ => Some(&self.fibers[i]),
            }
        } else {
            None
        }
    }

    /// The state of a fiber; one that is gone keeps the state it ended in.
    pub fn state(&self, id: FiberId) -> (r: Option<State>)
        requires
            self.wf(),
        ensures
            r == (if id.0 < self@.fibers.len() {
                Some(self@.fibers[id.0 as int].state)
            } else {
                None
            }),
    {
        let i = id.0 as usize;
        if i < self.fibers.len() {
            assert(self@.fibers[i as int] == self.fibers@[i as int]@);
            Some(self.fibers[i].state)
        } else {
            None
        }
    }

    /// Why a fiber's setup failed, if it did.
    pub fn failure(&self, id: FiberId) -> (r: Option<String>)
        requires
            self.wf(),
        ensures
            text_view(r) == (if id.0 < self@.fibers.len() {
                self@.fibers[id.0 as int].failure
            } else {
                None
            }),
    {
        let i = id.0 as usize;
        if i < self.fibers.len() {
            assert(self@.fibers[i as int] == self.fibers@[i as int]@);
            match &self.fibers[i].failure {
                Some(reason) => Some(reason.clone()),
                None => None,
            }
        } else {
            None
        }
    }

    /// Whether the fiber exists and nothing has started to dispose it.
    pub fn is_active(&self, id: FiberId) -> (r: bool)
        requires
            self.wf(),
        ensures
            r == is_active(self@, id),
    {
        let i = id.0 as usize;
        if i < self.fibers.len() {
            assert(self@.fibers[i as int] == self.fibers@[i as int]@);
            match self.fibers[i].phase {
                Phase::Active => true,
                _ => false,
            }
        } else {
            false
        }
    }

    /// Whether the kernel has no outstanding work: no fiber is pending or
    /// starting, and no fiber tracks a task. Ready fibers that only provide
    /// services do not count as work.
    pub fn is_idle(&self) -> (r: bool)
        requires
            self.wf(),
        ensures
            r == idle(self@),
    {
        let mut i: usize = 0;
        while i < self.fibers.len()
            invariant
                self.wf(),
                i <= self.fibers@.len(),
                self@.fibers.len() == self.fibers@.len(),
                forall|j: int| 0 <= j < i ==> at_rest(#[trigger] self@.fibers[j]),
            decreases self.fibers@.len() - i,
        {
            let f = &self.fibers[i];
            assert(self@.fibers[i as int] == self.fibers@[i as int]@);
            let resting = match f.phase {
                Phase::Gone => true,
                _ => match f.state {
                    State::Pending => false,
                    State::Starting => false,
                    _ => f.tasks.len() == 0,
                },
            };
            if !resting {
                assert(!at_rest(self@.fibers[i as int]));
                return false;
            }
            i = i + 1;
        }
        true
    }

    /// The children of a fiber whose disposal has not started, eldest first.
    pub fn children_of(&self, parent: FiberId) -> (r: Vec<FiberId>)
        requires
            self.wf(),
        ensures
            r@ == children(self@, parent),
    {
        let mut out: Vec<FiberId> = Vec::new();
        let mut i: usize = 0;
        while i < self.fibers.len()
            invariant
                self.wf(),
                i <= self.fibers@.len() <= u32::MAX,
                self@.fibers.len() == self.fibers@.len(),
                out@ == ids_where(i as nat, child_of(self@, parent)),
            decreases self.fibers@.len() - i,
        {
            let f = &self.fibers[i];
            let id = FiberId(i as u32);
            assert(self@.fibers[i as int] == self.fibers@[i as int]@);
            let active = match f.phase {
                Phase::Active => true,
                _ => false,
            };
            if id != parent && f.parent == parent && active {
                out.push(id);
            }
            i = i + 1;
        }
        out
    }

    /// Whether the fiber's plugin hard-depends on the service.
    fn needs(&self, i: usize, key: &ServiceKey) -> (r: bool)
        requires
            self.wf(),
            i < self@.fibers.len(),
        ensures
            r == needs(self@.fibers[i as int], key.id),
    {
        assert(self@.fibers[i as int] == self.fibers@[i as int]@);
        let f = &self.fibers[i];
        let ghost inject = self@.fibers[i as int].inject;
        let mut j: usize = 0;
        while j < f.inject.len()
            invariant
                j <= f.inject@.len(),
                inject == f.inject@,
                inject == self@.fibers[i as int].inject,
                forall|a: int| 0 <= a < j ==> !is_hard(#[trigger] inject[a], key.id),
            decreases f.inject@.len() - j,
        {
            if let Dependency::Hard(service) = &f.inject[j] {
                if *service == *key {
                    assert(is_hard(inject[j as int], key.id));
                    return true;
                }
            }
            j = j + 1;
        }
        false
    }

    /// The fibers that resolved `key` to the binding held by `realm` and must
    /// therefore be disconnected when that binding goes away, eldest first.
    ///
    /// Injecting the same key is not enough: a fiber in a sibling realm that
    /// shadows the key resolved a different value entirely and is left alone.
    pub fn dependents_of(&self, realm: RealmId, key: &ServiceKey, exclude: FiberId) -> (r: Vec<
        FiberId,
    >)
        requires
            self.wf(),
        ensures
            r@ == dependents(self@, realm, key.id, exclude),
    {
        let mut out: Vec<FiberId> = Vec::new();
        let mut i: usize = 0;
        while i < self.fibers.len()
            invariant
                self.wf(),
                i <= self.fibers@.len() <= u32::MAX,
                self@.fibers.len() == self.fibers@.len(),
                out@ == ids_where(i as nat, dependent_on(self@, realm, key.id, exclude)),
            decreases self.fibers@.len() - i,
        {
            let id = FiberId(i as u32);
            assert(self@.fibers[i as int] == self.fibers@[i as int]@);
            let active = match self.fibers[i].phase {
                Phase::Active => true,
                _ => false,
            };
            let begun = match self.fibers[i].state {
                State::Starting => true,
                State::Ready => true,
                _ => false,
            };
            if id != exclude && active && begun && self.needs(i, key) {
                let found = self.realms.resolving_realm(self.fibers[i].realm, key);
                let here = match found {
                    Some(winner) => winner == realm,
                    None => false,
                };
                if here {
                    out.push(id);
                }
            }
            i = i + 1;
        }
        out
    }

    /// The realm whose binding wins a lookup of `key` from `realm`, if any.
    pub fn resolving_realm(&self, realm: RealmId, key: &ServiceKey) -> (r: Option<RealmId>)
        requires
            self.wf(),
        ensures
            r == resolving(self@.realms, realm, key.id),
    {
        self.realms.resolving_realm(realm, key)
    }

    /// Looks up a service starting at `realm` and walking up the parent
    /// chain. The innermost realm that provides the key wins.
    pub fn lookup(&self, realm: RealmId, key: &ServiceKey) -> (r: Option<ServiceId>)
        requires
            self.wf(),
        ensures
            r == resolved(self@.realms, realm, key.id),
    {
        self.realms.lookup(realm, key)
    }

    /// The realm chain from `realm` up to (and including) the root.
    pub fn realm_chain(&self, realm: RealmId) -> (r: Vec<RealmId>)
        requires
            self.wf(),
        ensures
            r@ == chain(self@.realms, realm),
    {
        self.realms.realm_chain(realm)
    }

    /// The realms directly below a realm, in the order they were made.
    pub fn realm_children(&self, realm: RealmId) -> (r: Vec<RealmId>)
        requires
            self.wf(),
        ensures
            r@ == kids(self@.realms, realm),
    {
        self.realms.children(realm)
    }

    /// How many realms there are.
    pub fn realm_count(&self) -> (r: usize)
        requires
            self.wf(),
        ensures
            r == self@.realms.len(),
    {
        self.realms.nodes.len()
    }

    /// The fibers that wait for their dependencies, in the order they came.
    pub fn pending_ids(&self) -> (r: &Vec<FiberId>)
        ensures
            r@ == self@.pending,
    {
        &self.pending
    }

    /// The event handlers, in the order they were registered.
    pub fn event_handlers(&self) -> (r: &Vec<EventHandler>)
        ensures
            r@ == self@.handlers,
    {
        &self.handlers
    }

    /// The event families that a handler was ever registered for.
    pub fn event_families(&self) -> (r: &Vec<EventKey>)
        ensures
            r@ == self@.families,
    {
        &self.families
    }

    /// The extension points that had a middleware once, with their names.
    pub fn pipeline_points(&self) -> (r: &Vec<(TypeId, &'static str)>)
        ensures
            r@ == self@.points,
    {
        &self.points.rows
    }

    /// The name recorded for an event or decision type.
    pub fn label_of(&self, id: &TypeId) -> (r: Option<&'static str>)
        requires
            self.wf(),
        ensures
            match r {
                Some(name) => rows_map(self@.type_names).dom().contains(*id) && name == rows_map(
                    self@.type_names,
                )[*id],
                None => !rows_map(self@.type_names).dom().contains(*id),
            },
    {
        match self.type_names.get(id) {
            Some(name) => Some(*name),
            None => None,
        }
    }

    /// The middlewares, in the order they were registered.
    pub fn pipeline_handlers(&self) -> (r: &Vec<PipelineHandler>)
        ensures
            r@ == self@.middlewares,
    {
        &self.middlewares
    }

    // ---- starting plugins ----

    /// Whether another fiber that declared the service has yet to settle.
    fn awaited(&self, id: FiberId, key: &ServiceKey) -> (r: bool)
        requires
            self.wf(),
        ensures
            r == awaited(self@, id, key.id),
    {
        let mut i: usize = 0;
        while i < self.fibers.len()
            invariant
                self.wf(),
                i <= self.fibers@.len(),
                self@.fibers.len() == self.fibers@.len(),
                forall|j: int|
                    0 <= j < i && j != id.0 && unsettled(#[trigger] self@.fibers[j])
                        ==> !announces(self@.fibers[j], key.id),
            decreases self.fibers@.len() - i,
        {
            assert(self@.fibers[i as int] == self.fibers@[i as int]@);
            let active = match self.fibers[i].phase {
                Phase::Active => true,
                _ => false,
            };
            let open = match self.fibers[i].state {
                State::Pending => true,
                State::Starting => true,
                _ => false,
            };
            if i != id.0 as usize && active && open && self.announces(i, key) {
                return true;
            }
            i = i + 1;
        }
        false
    }

    /// Whether the fiber's plugin declared to provide the service.
    fn announces(&self, i: usize, key: &ServiceKey) -> (r: bool)
        requires
            self.wf(),
            i < self@.fibers.len(),
        ensures
            r == announces(self@.fibers[i as int], key.id),
    {
        assert(self@.fibers[i as int] == self.fibers@[i as int]@);
        let f = &self.fibers[i];
        let ghost declares = self@.fibers[i as int].declares;
        let mut j: usize = 0;
        while j < f.declares.len()
            invariant
                j <= f.declares@.len(),
                declares == f.declares@,
                declares == self@.fibers[i as int].declares,
                forall|a: int| 0 <= a < j ==> (#[trigger] declares[a]).id != key.id,
            decreases f.declares@.len() - j,
        {
            if f.declares[j] == *key {
                assert(declares[j as int].id == key.id);
                return true;
            }
            j = j + 1;
        }
        false
    }

    /// Whether every dependency of the fiber lets it start.
    pub fn is_satisfied(&self, id: FiberId) -> (r: bool)
        requires
            self.wf(),
            id.0 < self@.fibers.len(),
        ensures
            r == satisfied(self@, id),
    {
        let i = id.0 as usize;
        assert(self@.fibers[i as int] == self.fibers@[i as int]@);
        let f = &self.fibers[i];
        let ghost inject = self@.fibers[i as int].inject;
        let mut j: usize = 0;
        while j < f.inject.len()
            invariant
                self.wf(),
                i == id.0,
                i < self.fibers@.len(),
                self@.fibers.len() == self.fibers@.len(),
                *f == self.fibers@[i as int],
                self@.fibers[i as int] == f@,
                inject == f.inject@,
                inject == self@.fibers[i as int].inject,
                j <= f.inject@.len(),
                forall|a: int| 0 <= a < j ==> met(self@, id, #[trigger] inject[a]),
            decreases f.inject@.len() - j,
        {
            let ok = match &f.inject[j] {
                Dependency::Hard(key) => self.realms.resolving_realm(f.realm, key).is_some(),
                Dependency::Soft(key) => !self.awaited(id, key),
            };
            assert(ok == met(self@, id, inject[j as int]));
            if !ok {
                return false;
            }
            j = j + 1;
        }
        true
    }

    /// Takes a fiber out of the queue.
    fn remove_pending(&mut self, id: FiberId)
        requires
            old(self).registries_ok(),
        ensures
            final(self).registries_ok(),
            final(self)@ == (KernelView { pending: unqueued(old(self)@.pending, id), ..old(self)@ }),
    {
        let mut kept: Vec<FiberId> = Vec::new();
        let mut i: usize = 0;
        proof {
            lemma_filter_none(self.pending@, other_than(id));
        }
        while i < self.pending.len()
            invariant
                i <= self.pending@.len(),
                kept@ == self.pending@.take(i as int).filter(other_than(id)),
            decreases self.pending@.len() - i,
        {
            proof {
                lemma_filter_step(self.pending@, i as int, other_than(id));
            }
            if self.pending[i] != id {
                kept.push(self.pending[i]);
            }
            i = i + 1;
        }
        assert(self.pending@.take(i as int) =~= self.pending@);
        self.pending = kept;
    }

    /// Starts a waiting plugin whose dependencies are satisfied: its setup is
    /// to be run. A fiber that is not waiting is left alone, so one whose
    /// disposal has started never starts.
    pub fn start_fiber(&mut self, id: FiberId) -> (r: bool)
        requires
            old(self).wf(),
            old(self)@.pending.contains(id) ==> forall|key: TypeId|
                #![trigger resolving(
                    old(self)@.realms,
                    old(self)@.fibers[id.0 as int].realm,
                    key,
                )]
                needs(old(self)@.fibers[id.0 as int], key) ==> resolving(
                    old(self)@.realms,
                    old(self)@.fibers[id.0 as int].realm,
                    key,
                ) is Some,
        ensures
            final(self).wf(),
            r == old(self)@.pending.contains(id),
            final(self)@ == (if r {
                start(old(self)@, id)
            } else {
                old(self)@
            }),
    {
        let i = id.0 as usize;
        if i >= self.fibers.len() {
            return false;
        }
        assert(self@.fibers[i as int] == self.fibers@[i as int]@);
        let active = match self.fibers[i].phase {
            Phase::Active => true,
            _ => false,
        };
        let waiting = match self.fibers[i].state {
            State::Pending => true,
            _ => false,
        };
        if !active || !waiting {
            return false;
        }
        self.remove_pending(id);
        self.fibers[i].state = State::Starting;
        self.fibers[i].setup = true;
        proof {
            lemma_start_ok(old(self)@, id);
            assert(self@ =~= start(old(self)@, id));
        }
        true
    }

    /// Starts every waiting plugin whose dependencies are satisfied now, in
    /// the order they came. Their setups are to be run.
    pub fn take_satisfied(&mut self) -> (r: Vec<FiberId>)
        requires
            old(self).wf(),
        ensures
            final(self).wf(),
            r@ == satisfied_ids(old(self)@),
            final(self)@ == start_all(old(self)@, r@),
    {
        let ghost k = self@;
        let mut ready: Vec<FiberId> = Vec::new();
        let mut i: usize = 0;
        proof {
            lemma_filter_none(self.pending@, may_start(k));
        }
        while i < self.pending.len()
            invariant
                self.wf(),
                self@ == k,
                k.pending == self.pending@,
                i <= self.pending@.len(),
                ready@ == k.pending.take(i as int).filter(may_start(k)),
            decreases self.pending@.len() - i,
        {
            let id = self.pending[i];
            assert(k.pending.contains(id));
            proof {
                lemma_filter_step(k.pending, i as int, may_start(k));
            }
            if self.is_satisfied(id) {
                ready.push(id);
            }
            i = i + 1;
        }
        assert(k.pending.take(i as int) =~= k.pending);
        proof {
            lemma_filter_contains(k.pending, may_start(k));
            lemma_filter_unique(k.pending, may_start(k));
            assert forall|j: int| 0 <= j < ready@.len() implies k.pending.contains(
                #[trigger] ready@[j],
            ) && satisfied(k, ready@[j]) by {
                assert(ready@.contains(ready@[j]));
            }
        }
        let mut n: usize = 0;
        assert(ready@.take(0) =~= Seq::<FiberId>::empty());
        while n < ready.len()
            invariant
                self.wf(),
                kernel_ok(k),
                n <= ready@.len(),
                ready@ == satisfied_ids(k),
                ready@.no_duplicates(),
                forall|j: int|
                    0 <= j < ready@.len() ==> k.pending.contains(#[trigger] ready@[j])
                        && satisfied(k, ready@[j]),
                self@ == start_all(k, ready@.take(n as int)),
            decreases ready@.len() - n,
        {
            let id = ready[n];
            proof {
                let done = ready@.take(n as int);
                lemma_start_all(k, done);
                assert(!done.contains(id));
                assert(k.pending.contains(ready@[n as int]));
                assert(self@.pending.contains(id));
                assert(FiberId(id.0 as int as u32) == id);
                assert(self@.fibers[id.0 as int] == k.fibers[id.0 as int]);
                lemma_satisfied_supplies(k, id);
                assert(ready@.take(n + 1).drop_last() =~= done);
            }
            let _ = self.start_fiber(id);
            n = n + 1;
        }
        assert(ready@.take(n as int) =~= ready@);
        ready
    }

    // ---- making realms and fibers ----

    /// Makes a realm below `parent` (or beside the root).
    pub fn create_realm(&mut self, parent: Option<RealmId>) -> (r: RealmId)
        requires
            old(self).wf(),
            old(self)@.realms.len() < u32::MAX,
            parent matches Some(p) ==> p.0 < old(self)@.realms.len(),
        ensures
            final(self).wf(),
            r.0 == old(self)@.realms.len(),
            final(self)@ == with_realm(old(self)@, parent),
    {
        let id = self.realms.create_realm(parent);
        proof {
            lemma_realm_ok(old(self)@, parent);
            assert(self@ =~= with_realm(old(self)@, parent));
        }
        id
    }

    /// Makes a fiber for a plugin below the context's fiber and queues it,
    /// without starting anything. Below a fiber that is no longer in use the
    /// new one is born disposed.
    pub fn create_fiber(&mut self, ctx: Ctx, plugin: FnPlugin) -> (r: FiberId)
        requires
            old(self).wf(),
            ctx_ok(old(self)@, ctx),
            old(self)@.fibers.len() < u32::MAX,
        ensures
            final(self).wf(),
            r.0 == old(self)@.fibers.len(),
            final(self)@ == with_plugin(old(self)@, ctx, plugin@),
    {
        let id = FiberId(self.fibers.len() as u32);
        let active = self.is_active(ctx.fiber);
        let ghost view = plugin@;
        let mut fiber = Fiber::new(id, ctx.fiber, ctx.realm, plugin.name);
        fiber.inject = plugin.inject;
        fiber.declares = plugin.provides;
        if active {
            assert(fiber@ =~= plugin_fiber(ctx, view, State::Pending, Phase::Active));
            self.pending.push(id);
        } else {
            fiber.state = State::Disposed;
            fiber.phase = Phase::Gone;
            assert(fiber@ =~= plugin_fiber(ctx, view, State::Disposed, Phase::Gone));
        }
        self.fibers.push(fiber);
        proof {
            lemma_plugin_ok(old(self)@, ctx, view, Seq::empty());
            assert(self@.fibers =~= with_plugin(old(self)@, ctx, view).fibers);
            assert(self@ =~= with_plugin(old(self)@, ctx, view));
        }
        id
    }

    /// Makes a fiber below the context's that runs no plugin and is ready at
    /// once: a scope that collects its own cleanups. Below a fiber that is no
    /// longer in use the new one is born disposed.
    pub fn create_scope(&mut self, ctx: Ctx, name: String) -> (r: FiberId)
        requires
            old(self).wf(),
            ctx_ok(old(self)@, ctx),
            old(self)@.fibers.len() < u32::MAX,
        ensures
            final(self).wf(),
            r.0 == old(self)@.fibers.len(),
            final(self)@ == with_scope(old(self)@, ctx, name@),
    {
        let id = FiberId(self.fibers.len() as u32);
        let active = self.is_active(ctx.fiber);
        let ghost text = name@;
        let mut fiber = Fiber::new(id, ctx.fiber, ctx.realm, name);
        if active {
            fiber.state = State::Ready;
        } else {
            fiber.state = State::Disposed;
            fiber.phase = Phase::Gone;
        }
        assert(fiber@ =~= with_scope(old(self)@, ctx, text).fibers.last());
        self.fibers.push(fiber);
        proof {
            let none = PluginView { name: text, inject: Seq::empty(), provides: Seq::empty() };
            lemma_plugin_ok(old(self)@, ctx, none, text);
            assert(self@.fibers =~= with_scope(old(self)@, ctx, text).fibers);
            assert(self@ =~= with_scope(old(self)@, ctx, text));
        }
        id
    }

    // ---- the end of a setup ----

    /// Reports that a setup has ended well: the fiber becomes ready. A fiber
    /// whose disposal has started in the meantime stays as it is.
    pub fn finish_setup(&mut self, id: FiberId)
        requires
            old(self).wf(),
        ensures
            final(self).wf(),
            final(self)@ == setup_done(old(self)@, id),
    {
        let i = id.0 as usize;
        if i >= self.fibers.len() {
            return;
        }
        assert(self@.fibers[i as int] == self.fibers@[i as int]@);
        proof {
            lemma_setup_ok(self@, id, Seq::empty());
        }
        if self.is_active(id) && self.fibers[i].setup {
            self.fibers[i].state = State::Ready;
            self.fibers[i].setup = false;
        }
        assert(self@ =~= setup_done(old(self)@, id));
    }

    /// Reports that a setup has failed: the reason is kept and the fiber's
    /// disposal starts; it will end failed. The result says whether it
    /// started. A fiber whose disposal had started before stays as it is.
    pub fn fail_setup(&mut self, id: FiberId, reason: String) -> (r: bool)
        requires
            old(self).wf(),
        ensures
            final(self).wf(),
            r == (is_active(old(self)@, id) && old(self)@.fibers[id.0 as int].setup),
            final(self)@ == setup_failed(old(self)@, id, reason@),
    {
        let i = id.0 as usize;
        proof {
            lemma_setup_ok(self@, id, reason@);
        }
        if i >= self.fibers.len() {
            return false;
        }
        assert(self@.fibers[i as int] == self.fibers@[i as int]@);
        if !self.is_active(id) || !self.fibers[i].setup {
            return false;
        }
        self.remove_pending(id);
        self.fibers[i].failure = Some(reason);
        self.fibers[i].setup = false;
        self.fibers[i].phase = Phase::Disposing(Stage::Children, State::Failed);
        assert(self@ =~= setup_failed(old(self)@, id, reason@));
        true
    }

    /// Starts the disposal of a fiber, which will end in the state `outcome`.
    /// The result says whether it did, and if so whether the fiber's setup
    /// was running and is to be cut off. A fiber whose disposal has started
    /// before, or that does not exist, is left alone.
    pub fn begin_dispose(&mut self, id: FiberId, outcome: State) -> (r: Option<bool>)
        requires
            old(self).wf(),
            outcome is Failed || outcome is Disposed,
        ensures
            final(self).wf(),
            r == (if is_active(old(self)@, id) {
                Some(old(self)@.fibers[id.0 as int].setup)
            } else {
                None
            }),
            final(self)@ == begin(old(self)@, id, outcome),
    {
        let i = id.0 as usize;
        if !self.is_active(id) {
            return None;
        }
        assert(self@.fibers[i as int] == self.fibers@[i as int]@);
        proof {
            lemma_begin_ok(self@, id, outcome);
        }
        let setup = self.fibers[i].setup;
        self.remove_pending(id);
        self.fibers[i].setup = false;
        self.fibers[i].phase = Phase::Disposing(Stage::Children, outcome);
        assert(self@ =~= begin(old(self)@, id, outcome));
        Some(setup)
    }

    // ---- what a fiber registers ----

    /// Adds one more thing for a live fiber to clean up.
    fn defer(&mut self, id: FiberId, disposable: Disposable)
        requires
            old(self).registries_ok(),
            id.0 < old(self)@.fibers.len(),
        ensures
            final(self).registries_ok(),
            final(self)@ == with_disposable(old(self)@, id, disposable),
    {
        let i = id.0 as usize;
        assert(self@.fibers[i as int] == self.fibers@[i as int]@);
        self.fibers[i].effect(disposable);
        assert(self@ =~= with_disposable(old(self)@, id, disposable));
    }

    /// Registers a cleanup on a fiber in use, to be run when it is disposed.
    /// On any other fiber nothing is registered.
    pub fn add_effect(&mut self, id: FiberId, effect: u64) -> (r: bool)
        requires
            old(self).wf(),
        ensures
            final(self).wf(),
            r == is_active(old(self)@, id),
            final(self)@ == (if r {
                with_disposable(old(self)@, id, Disposable::Effect(effect))
            } else {
                old(self)@
            }),
    {
        if !self.is_active(id) {
            return false;
        }
        proof {
            lemma_disposable_ok(self@, id, Disposable::Effect(effect));
        }
        self.defer(id, Disposable::Effect(effect));
        true
    }

    /// Makes a fiber in use keep track of a task. On any other fiber the task
    /// is refused.
    pub fn add_task(&mut self, id: FiberId, task: Task) -> (r: bool)
        requires
            old(self).wf(),
        ensures
            final(self).wf(),
            r == is_active(old(self)@, id),
            final(self)@ == (if r {
                with_tasks(old(self)@, id, old(self)@.fibers[id.0 as int].tasks.push(task))
            } else {
                old(self)@
            }),
    {
        if !self.is_active(id) {
            return false;
        }
        let i = id.0 as usize;
        assert(self@.fibers[i as int] == self.fibers@[i as int]@);
        proof {
            lemma_tasks_ok(self@, id, self@.fibers[i as int].tasks.push(task));
        }
        self.fibers[i].tasks.push(task);
        assert(self@ =~= with_tasks(
            old(self)@,
            id,
            old(self)@.fibers[id.0 as int].tasks.push(task),
        ));
        true
    }

    /// Reports that a task has ended: the fiber no longer keeps track of it.
    pub fn finish_task(&mut self, id: FiberId, task: u64)
        requires
            old(self).wf(),
        ensures
            final(self).wf(),
            final(self)@ == (if is_live(old(self)@, id) {
                with_tasks(
                    old(self)@,
                    id,
                    old(self)@.fibers[id.0 as int].tasks.filter(other_task(task)),
                )
            } else {
                old(self)@
            }),
    {
        if self.fiber(id).is_none() {
            return;
        }
        let i = id.0 as usize;
        assert(self@.fibers[i as int] == self.fibers@[i as int]@);
        let ghost tasks = self@.fibers[i as int].tasks;
        let mut kept: Vec<Task> = Vec::new();
        let mut j: usize = 0;
        proof {
            lemma_filter_none(tasks, other_task(task));
        }
        while j < self.fibers[i].tasks.len()
            invariant
                i < self.fibers@.len(),
                tasks == self.fibers@[i as int].tasks@,
                j <= tasks.len(),
                kept@ == tasks.take(j as int).filter(other_task(task)),
                kept@.len() <= j,
            decreases tasks.len() - j,
        {
            proof {
                lemma_filter_step(tasks, j as int, other_task(task));
            }
            if self.fibers[i].tasks[j].id != task {
                kept.push(self.fibers[i].tasks[j]);
            }
            j = j + 1;
        }
        assert(tasks.take(j as int) =~= tasks);
        proof {
            lemma_tasks_ok(self@, id, tasks.filter(other_task(task)));
        }
        self.fibers[i].tasks = kept;
        assert(self@ =~= with_tasks(old(self)@, id, tasks.filter(other_task(task))));
    }

    /// Takes all tasks off a live fiber; they are to be cut off.
    pub fn abort_tasks(&mut self, id: FiberId) -> (r: Vec<Task>)
        requires
            old(self).wf(),
        ensures
            final(self).wf(),
            r@ == (if is_live(old(self)@, id) {
                old(self)@.fibers[id.0 as int].tasks
            } else {
                Seq::empty()
            }),
            final(self)@ == (if is_live(old(self)@, id) {
                with_tasks(old(self)@, id, Seq::empty())
            } else {
                old(self)@
            }),
    {
        let mut out: Vec<Task> = Vec::new();
        if self.fiber(id).is_none() {
            return out;
        }
        let i = id.0 as usize;
        assert(self@.fibers[i as int] == self.fibers@[i as int]@);
        proof {
            lemma_tasks_ok(self@, id, Seq::empty());
        }
        std::mem::swap(&mut out, &mut self.fibers[i].tasks);
        assert(self@ =~= with_tasks(old(self)@, id, Seq::empty()));
        out
    }

    /// Numbers are handed out to handlers and middlewares in order.
    fn alloc_handler_id(&mut self) -> (r: u64)
        requires
            old(self).registries_ok(),
            old(self)@.next_handler < u64::MAX,
        ensures
            final(self).registries_ok(),
            r == old(self)@.next_handler,
            final(self)@ == (KernelView {
                next_handler: old(self)@.next_handler + 1,
                ..old(self)@
            }),
    {
        let id = self.next_handler;
        self.next_handler = id + 1;
        id
    }

    /// Records the name of a type that appears in the event registry, unless
    /// one is recorded already.
    pub fn note_type(&mut self, tag: TypeTag)
        requires
            old(self).wf(),
        ensures
            final(self).wf(),
            final(self)@ == (KernelView {
                type_names: recorded(old(self)@.type_names, tag.id, tag.name),
                ..old(self)@
            }),
    {
        if self.type_names.get(&tag.id).is_none() {
            let _ = self.type_names.insert(tag.id, tag.name);
        }
        proof {
            lemma_names_ok(old(self)@, self@);
        }
    }

    /// Records the name of an extension point, in place of the one before.
    pub fn note_pipeline(&mut self, point: TypeTag)
        requires
            old(self).wf(),
        ensures
            final(self).wf(),
            final(self)@ == (KernelView {
                points: renamed(old(self)@.points, point.id, point.name),
                ..old(self)@
            }),
    {
        let ghost rows = self.points.rows@;
        let _ = self.points.insert(point.id, point.name);
        proof {
            assert(self.points.rows@ =~= renamed(rows, point.id, point.name));
            lemma_names_ok(old(self)@, self@);
        }
    }

    /// Notes that an event family has a handler.
    fn note_family(&mut self, key: EventKey)
        requires
            old(self).registries_ok(),
        ensures
            final(self).registries_ok(),
            final(self)@ == (KernelView {
                families: noted(old(self)@.families, key),
                ..old(self)@
            }),
    {
        let mut known = false;
        let mut i: usize = 0;
        while i < self.families.len()
            invariant
                i <= self.families@.len(),
                known == self.families@.take(i as int).contains(key),
            decreases self.families@.len() - i,
        {
            proof {
                let more = self.families@.take(i + 1);
                assert(more.drop_last() =~= self.families@.take(i as int));
                assert(more.contains(key) == (self.families@.take(i as int).contains(key)
                    || self.families@[i as int] == key)) by {
                    assert(more =~= self.families@.take(i as int).push(self.families@[i as int]));
                    if more.contains(key) {
                        let a = choose|a: int| 0 <= a < more.len() && more[a] == key;
                        if a < i {
                            assert(self.families@.take(i as int)[a] == key);
                        }
                    }
                    if self.families@.take(i as int).contains(key) {
                        let a = choose|a: int|
                            0 <= a < i && self.families@.take(i as int)[a] == key;
                        assert(more[a] == key);
                    }
                    assert(more[i as int] == self.families@[i as int]);
                }
            }
            if self.families[i] == key {
                known = true;
            }
            i = i + 1;
        }
        assert(self.families@.take(i as int) =~= self.families@);
        if !known {
            self.families.push(key);
        }
        assert(self@ =~= (KernelView {
            families: noted(old(self)@.families, key),
            ..old(self)@
        }));
    }

    /// Registers an event handler and hands back its number. On a fiber in
    /// use it goes when the fiber does; on any other fiber it is not kept.
    pub fn add_handler(&mut self, ctx: Ctx, key: EventKey) -> (r: u64)
        requires
            old(self).wf(),
            old(self)@.next_handler < u64::MAX,
        ensures
            final(self).wf(),
            r == old(self)@.next_handler,
            final(self)@ == (if is_active(old(self)@, ctx.fiber) {
                with_handler(old(self)@, ctx, key)
            } else {
                with_late_handler(old(self)@, key)
            }),
    {
        let in_use = self.is_active(ctx.fiber);
        proof {
            if in_use {
                lemma_handler_ok(self@, ctx, key);
            } else {
                lemma_names_ok(self@, with_late_handler(self@, key));
            }
        }
        let id = self.alloc_handler_id();
        self.note_family(key);
        if in_use {
            self.handlers.push(EventHandler { key, realm: ctx.realm, fiber: ctx.fiber, id });
            self.defer(ctx.fiber, Disposable::Handler(key, id));
            assert(self@ =~= with_handler(old(self)@, ctx, key));
        }
        id
    }

    /// Takes an event handler out.
    fn remove_handler(&mut self, key: EventKey, id: u64)
        requires
            old(self).registries_ok(),
        ensures
            final(self).registries_ok(),
            final(self)@ == (KernelView {
                handlers: unheard(old(self)@.handlers, key, id),
                ..old(self)@
            }),
    {
        let mut kept: Vec<EventHandler> = Vec::new();
        let mut i: usize = 0;
        proof {
            lemma_filter_none(self.handlers@, other_handler(key, id));
        }
        while i < self.handlers.len()
            invariant
                i <= self.handlers@.len(),
                kept@ == self.handlers@.take(i as int).filter(other_handler(key, id)),
            decreases self.handlers@.len() - i,
        {
            proof {
                lemma_filter_step(self.handlers@, i as int, other_handler(key, id));
            }
            let h = self.handlers[i];
            if !(h.key == key && h.id == id) {
                kept.push(h);
            }
            i = i + 1;
        }
        assert(self.handlers@.take(i as int) =~= self.handlers@);
        self.handlers = kept;
    }

    /// Registers a middleware and hands back its number. On a fiber in use it
    /// goes when the fiber does; on any other fiber it is not kept.
    pub fn add_pipeline(&mut self, ctx: Ctx, point: TypeId, prepend: bool) -> (r: u64)
        requires
            old(self).wf(),
            old(self)@.next_handler < u64::MAX,
        ensures
            final(self).wf(),
            r == old(self)@.next_handler,
            final(self)@ == (if is_active(old(self)@, ctx.fiber) {
                with_middleware(old(self)@, ctx, point, prepend)
            } else {
                with_late_middleware(old(self)@)
            }),
    {
        let in_use = self.is_active(ctx.fiber);
        proof {
            if in_use {
                lemma_middleware_ok(self@, ctx, point, prepend);
            } else {
                lemma_names_ok(self@, with_late_middleware(self@));
            }
        }
        let id = self.alloc_handler_id();
        if in_use {
            self.middlewares.push(
                PipelineHandler { point, realm: ctx.realm, fiber: ctx.fiber, id, prepend },
            );
            self.defer(ctx.fiber, Disposable::Middleware(point, id));
            assert(self@ =~= with_middleware(old(self)@, ctx, point, prepend));
        }
        id
    }

    /// Takes a middleware out.
    fn remove_pipeline(&mut self, point: TypeId, id: u64)
        requires
            old(self).registries_ok(),
        ensures
            final(self).registries_ok(),
            final(self)@ == (KernelView {
                middlewares: unwrapped(old(self)@.middlewares, point, id),
                ..old(self)@
            }),
    {
        let mut kept: Vec<PipelineHandler> = Vec::new();
        let mut i: usize = 0;
        proof {
            lemma_filter_none(self.middlewares@, other_middleware(point, id));
        }
        while i < self.middlewares.len()
            invariant
                i <= self.middlewares@.len(),
                kept@ == self.middlewares@.take(i as int).filter(other_middleware(point, id)),
            decreases self.middlewares@.len() - i,
        {
            proof {
                lemma_filter_step(self.middlewares@, i as int, other_middleware(point, id));
            }
            let m = self.middlewares[i];
            if !(same_type(&m.point, &point) && m.id == id) {
                kept.push(m);
            }
            i = i + 1;
        }
        assert(self.middlewares@.take(i as int) =~= self.middlewares@);
        self.middlewares = kept;
    }

    /// Provides a service in the context's realm on behalf of its fiber. The
    /// result names the fibers that ran on a binding that this one replaced:
    /// they are to be disposed. On a fiber that is not in use nothing is
    /// provided.
    pub fn insert_service(&mut self, ctx: Ctx, key: ServiceKey, service: ServiceId) -> (r: Option<
        Vec<FiberId>,
    >)
        requires
            old(self).wf(),
            ctx_ok(old(self)@, ctx),
        ensures
            final(self).wf(),
            match r {
                Some(lost) => {
                    &&& is_active(old(self)@, ctx.fiber)
                    &&& final(self)@ == with_service(old(self)@, ctx, key, service)
                    &&& lost@ == (if binds(old(self)@.realms, ctx.realm, key.id) {
                        dependents(final(self)@, ctx.realm, key.id, ctx.fiber)
                    } else {
                        Seq::empty()
                    })
                },
                None => !is_active(old(self)@, ctx.fiber) && final(self)@ == old(self)@,
            },
    {
        if !self.is_active(ctx.fiber) {
            return None;
        }
        proof {
            lemma_service_ok(self@, ctx, key, service);
        }
        let previous = self.realms.insert_service(ctx.realm, &key, service);
        self.defer(ctx.fiber, Disposable::Service(ctx.realm, key, service));
        assert(self@ =~= with_service(old(self)@, ctx, key, service));
        if previous.is_some() {
            Some(self.dependents_of(ctx.realm, &key, ctx.fiber))
        } else {
            Some(Vec::new())
        }
    }

    // ---- disposal ----

    /// Moves a fiber's disposal on to a stage.
    fn enter(&mut self, id: FiberId, stage: Stage)
        requires
            old(self).registries_ok(),
            is_disposing(old(self)@, id),
        ensures
            final(self).registries_ok(),
            final(self)@ == with_fiber(
                old(self)@,
                id,
                at_stage(old(self)@.fibers[id.0 as int], stage),
            ),
    {
        let i = id.0 as usize;
        assert(self@.fibers[i as int] == self.fibers@[i as int]@);
        if let Phase::Disposing(_, outcome) = self.fibers[i].phase {
            self.fibers[i].phase = Phase::Disposing(stage, outcome);
        }
        assert(self@ =~= with_fiber(
            old(self)@,
            id,
            at_stage(old(self)@.fibers[id.0 as int], stage),
        ));
    }

    /// Crosses off the last thing a fiber had to clean up.
    fn cross_off(&mut self, id: FiberId)
        requires
            old(self).registries_ok(),
            id.0 < old(self)@.fibers.len(),
            old(self)@.fibers[id.0 as int].disposables.len() > 0,
        ensures
            final(self).registries_ok(),
            final(self)@ == crossed_off(old(self)@, id),
    {
        let i = id.0 as usize;
        assert(self@.fibers[i as int] == self.fibers@[i as int]@);
        let _ = self.fibers[i].disposable.inner.pop();
        assert(self@ =~= crossed_off(old(self)@, id));
    }

    /// Starts the disposal of a fiber that has to go first.
    fn begin_first(&mut self, id: FiberId) -> (r: Step)
        requires
            old(self).wf(),
            is_active(old(self)@, id),
        ensures
            final(self).wf(),
            (final(self)@, r) == begin_first(old(self)@, id),
    {
        match self.begin_dispose(id, State::Disposed) {
            Some(setup) => Step::Began(id, setup),
            None => Step::Done,
        }
    }

    /// Cleans up the last thing a fiber registered.
    fn drain_step(&mut self, id: FiberId) -> (r: Step)
        requires
            old(self).wf(),
            is_disposing(old(self)@, id),
            old(self)@.fibers[id.0 as int].disposables.len() > 0,
        ensures
            final(self).wf(),
            (final(self)@, r) == drain_step(old(self)@, id),
    {
        proof {
            lemma_drain_ok(self@, id);
        }
        let i = id.0 as usize;
        assert(self@.fibers[i as int] == self.fibers@[i as int]@);
        match self.fibers[i].disposable.last() {
            Some(Disposable::Effect(effect)) => {
                self.cross_off(id);
                Step::RunEffect(id, effect)
            },
            Some(Disposable::Handler(key, handler)) => {
                self.remove_handler(key, handler);
                self.cross_off(id);
                Step::Quiet(id)
            },
            Some(Disposable::Middleware(point, middleware)) => {
                self.remove_pipeline(point, middleware);
                self.cross_off(id);
                Step::Quiet(id)
            },
            Some(Disposable::Service(realm, key, service)) => {
                if self.realms.holds(realm, &key, service) {
                    let first = self.dependents_of(realm, &key, id);
                    if first.len() > 0 {
                        proof {
                            lemma_dependents(self@, realm, key.id, id);
                            assert(first@.contains(first@[0]));
                        }
                        return self.begin_first(first[0]);
                    }
                }
                self.realms.remove_service_if(realm, &key, service);
                self.cross_off(id);
                Step::Quiet(id)
            },
            None => Step::Quiet(id),
        }
    }

    /// One step in the disposal of a fiber: its children go first, eldest
    /// first; its tasks are stopped; what it registered is cleaned up, last
    /// in first out; and it is gone. A fiber that is not being disposed is
    /// left alone.
    fn fiber_step(&mut self, id: FiberId) -> (r: Step)
        requires
            old(self).wf(),
        ensures
            final(self).wf(),
            id.0 < old(self)@.fibers.len() ==> (final(self)@, r) == fiber_step(old(self)@, id),
            id.0 >= old(self)@.fibers.len() ==> final(self)@ == old(self)@ && r is Done,
    {
        let i = id.0 as usize;
        if i >= self.fibers.len() {
            return Step::Done;
        }
        assert(self@.fibers[i as int] == self.fibers@[i as int]@);
        match self.fibers[i].phase {
            Phase::Disposing(stage, outcome) => {
                proof {
                    lemma_fiber_step_ok(self@, id);
                }
                match stage {
                    Stage::Children => {
                        let first = self.children_of(id);
                        if first.len() > 0 {
                            proof {
                                lemma_children(self@, id);
                                assert(first@.contains(first@[0]));
                            }
                            self.begin_first(first[0])
                        } else {
                            self.enter(id, Stage::Tasks);
                            Step::Quiet(id)
                        }
                    },
                    Stage::Tasks => {
                        if self.fibers[i].tasks.len() > 0 {
                            self.enter(id, Stage::Joining);
                            Step::StopTasks(id)
                        } else {
                            self.enter(id, Stage::Drain);
                            Step::Quiet(id)
                        }
                    },
                    Stage::Joining => {
                        self.fibers[i].tasks = Vec::new();
                        self.fibers[i].phase = Phase::Disposing(Stage::Drain, outcome);
                        assert(self@ =~= fiber_step(old(self)@, id).0);
                        Step::Quiet(id)
                    },
                    Stage::Drain => {
                        if self.fibers[i].disposable.inner.len() > 0 {
                            self.drain_step(id)
                        } else {
                            self.fibers[i].state = outcome;
                            self.fibers[i].phase = Phase::Gone;
                            self.fibers[i].tasks = Vec::new();
                            assert(self@ =~= fiber_step(old(self)@, id).0);
                            Step::Settled(id, outcome)
                        }
                    },
                }
            },
            _ => Step::Done,
        }
    }

    /// One step of a disposal. What the step asks for is to be done before
    /// the next.
    pub fn step(&mut self, disposal: &mut Disposal) -> (r: Step)
        requires
            old(self).wf(),
            forall|i: int|
                0 <= i < old(disposal)@.len() ==> (#[trigger] old(disposal)@[i]).0 < old(
                    self,
                )@.fibers.len(),
        ensures
            final(self).wf(),
            (final(self)@, r) == dispose_step(old(self)@, old(disposal)@),
            final(disposal)@ == next_stack(old(disposal)@, r),
    {
        let n = disposal.stack.len();
        if n == 0 {
            return Step::Done;
        }
        let id = disposal.stack[n - 1];
        assert(disposal@[n - 1].0 < self@.fibers.len());
        let step = self.fiber_step(id);
        match step {
            Step::Began(first, _) => {
                disposal.stack.push(first);
            },
            Step::Settled(_, _) => {
                let _ = disposal.stack.pop();
            },
            _ => {},
        }
        step
    }
}

/// The disposal of a fiber and of what has to go before it: a stack with the
/// fiber being worked on on top.
pub struct Disposal {
    pub stack: Vec<FiberId>,
}

impl View for Disposal {
    type V = Seq<FiberId>;

    open spec fn view(&self) -> Seq<FiberId> {
        self.stack@
    }
}

impl Disposal {
    /// The disposal of one fiber, once it has begun.
    pub fn of(id: FiberId) -> (r: Self)
        ensures
            r@ == seq![id],
    {
        let mut stack: Vec<FiberId> = Vec::new();
        stack.push(id);
        Disposal { stack }
    }
}

/// Names, and numbers that were handed out, have no bearing on whether a
/// kernel is in order.
proof fn lemma_names_ok(k: KernelView, k2: KernelView)
    requires
        kernel_ok(k),
        k.next_handler <= k2.next_handler <= u64::MAX,
        k2 == (KernelView {
            next_handler: k2.next_handler,
            families: k2.families,
            type_names: k2.type_names,
            points: k2.points,
            ..k
        }),
    ensures
        kernel_ok(k2),
{
    lemma_registries(k, k2);
    assert forall|i: int| 0 <= i < k2.fibers.len() implies #[trigger] sheltered(k2, i) by {
        assert(sheltered(k, i));
    }
    assert forall|p: FiberId| #[trigger]
        k2.pending.contains(p) <==> p.0 < k2.fibers.len() && k2.fibers[p.0 as int].phase is Active
            && k2.fibers[p.0 as int].state is Pending by {
        assert(k2.pending.contains(p) == k.pending.contains(p));
    }
}

/// Picks every task but one.
pub open spec fn other_task(task: u64) -> spec_fn(Task) -> bool {
    |t: Task| t.id != task
}

/// A fiber whose dependencies let it start has everything it hard-depends on.
pub proof fn lemma_satisfied_supplies(k: KernelView, id: FiberId)
    requires
        satisfied(k, id),
    ensures
        forall|key: TypeId|
            #![trigger resolving(k.realms, k.fibers[id.0 as int].realm, key)]
            needs(k.fibers[id.0 as int], key) ==> resolving(
                k.realms,
                k.fibers[id.0 as int].realm,
                key,
            ) is Some,
{
    let f = k.fibers[id.0 as int];
    assert forall|key: TypeId|
        #![trigger resolving(k.realms, f.realm, key)]
        needs(f, key) implies resolving(k.realms, f.realm, key) is Some by {
        let i = choose|i: int| 0 <= i < f.inject.len() && is_hard(#[trigger] f.inject[i], key);
        assert(met(k, id, f.inject[i]));
    }
}

/// Whether a fiber gives the kernel nothing to wait for.
pub open spec fn at_rest(f: FiberView) -> bool {
    f.phase is Gone || (!(f.state is Pending) && !(f.state is Starting) && f.tasks.len() == 0)
}

/// Whether the kernel has no outstanding work.
pub open spec fn idle(k: KernelView) -> bool {
    forall|i: int| 0 <= i < k.fibers.len() ==> at_rest(#[trigger] k.fibers[i])
}

/// No type and no extension point has two names.
pub proof fn lemma_names_are_unique(kernel: Kernel)
    requires
        kernel.registries_ok(),
    ensures
        rows_unique(kernel@.type_names),
        rows_unique(kernel@.points),
{
}

} // verus!
