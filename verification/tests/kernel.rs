//! Reactive plugin start, cascade disposal, realm-scoped services, effects,
//! tasks, and scoped events, driven by a small host that runs setups and
//! cleanups one after the other.

use std::any::TypeId;
use std::collections::HashMap;
use std::rc::Rc;

use chorda::{
    fn_plugin, Attempt, Ctx, Disposal, Events, FiberId, FnPlugin, Kernel, Layer, Outcome,
    PluginRegistration, ServiceId, ServiceKey, State, Step, Turn, TypeTag,
};

type Apply = Rc<dyn Fn(&mut Host, Ctx) -> Outcome>;

/// Runs what the kernel asks for.
struct Host {
    kernel: Kernel,
    values: Vec<u64>,
    applies: HashMap<u32, Apply>,
    queue: Vec<FiberId>,
    effects: Vec<&'static str>,
    ran: Vec<&'static str>,
    stopped: Vec<FiberId>,
    next_task: u64,
}

impl Host {
    fn new() -> Self {
        Host {
            kernel: Kernel::new(),
            values: Vec::new(),
            applies: HashMap::new(),
            queue: Vec::new(),
            effects: Vec::new(),
            ran: Vec::new(),
            stopped: Vec::new(),
            next_task: 0,
        }
    }

    fn root(&self) -> Ctx {
        self.kernel.root_ctx()
    }

    fn get<T: 'static>(&self, ctx: Ctx) -> Option<u64> {
        ctx.get(&self.kernel, &ServiceKey::of::<T>("T"))
            .map(|service| self.values[service.0 as usize])
    }

    fn provide<T: 'static>(&mut self, ctx: Ctx, value: u64) {
        let service = ServiceId(self.values.len() as u64);
        self.values.push(value);

        if let Some(done) = ctx.provide(&mut self.kernel, ServiceKey::of::<T>("T"), service) {
            for step in done.steps {
                self.perform(step);
            }
            self.queue.extend(done.started);
        }
    }

    fn register(
        &mut self,
        ctx: Ctx,
        plugin: FnPlugin,
        apply: impl Fn(&mut Host, Ctx) -> Outcome + 'static,
    ) -> FiberId {
        let (id, started) = ctx.register(&mut self.kernel, plugin);
        self.applies.insert(id.0, Rc::new(apply));
        self.queue.extend(started);
        id
    }

    fn effect(&mut self, ctx: Ctx, label: &'static str) -> bool {
        let effect = self.effects.len() as u64;
        self.effects.push(label);
        ctx.effect(&mut self.kernel, effect)
    }

    fn perform(&mut self, step: Step) {
        match step {
            Step::RunEffect(_, effect) => self.ran.push(self.effects[effect as usize]),
            Step::StopTasks(id) => self.stopped.push(id),
            Step::Began(id, _) => self.queue.retain(|other| *other != id),
            _ => {}
        }
    }

    fn finish_disposal(&mut self, id: FiberId) {
        let mut disposal = Disposal::of(id);
        loop {
            let step = self.kernel.step(&mut disposal);
            self.perform(step);
            if step == Step::Done {
                return;
            }
        }
    }

    fn dispose(&mut self, id: FiberId) {
        if self.kernel.begin_dispose(id, State::Disposed).is_some() {
            self.queue.retain(|other| *other != id);
            self.finish_disposal(id);
        }
        let started = self.kernel.take_satisfied();
        self.queue.extend(started);
    }

    /// Runs the setups that are due until none is left.
    fn settle(&mut self) {
        while !self.queue.is_empty() {
            let id = self.queue.remove(0);
            let ctx = self.kernel.ctx_of(id).expect("a starting fiber is live");
            let apply = self.applies[&id.0].clone();
            let outcome = apply(self, ctx);
            if self.kernel.end_setup(id, outcome) {
                self.finish_disposal(id);
            }
            let started = self.kernel.take_satisfied();
            self.queue.extend(started);
        }
    }

    fn state(&self, id: FiberId) -> State {
        self.kernel.state(id).expect("the fiber was made")
    }

    fn task_count(&self, id: FiberId) -> usize {
        self.kernel.fiber(id).map(|fiber| fiber.tasks.len()).unwrap_or(0)
    }

    fn spawn(&mut self, ctx: Ctx, graceful: bool) -> Option<u64> {
        let task = self.next_task;
        self.next_task += 1;
        let taken = if graceful {
            ctx.spawn_graceful(&mut self.kernel, task)
        } else {
            ctx.spawn(&mut self.kernel, task)
        };
        taken.then_some(task)
    }
}

fn named(name: &str) -> FnPlugin {
    fn_plugin(name.to_owned())
}

fn idle(_host: &mut Host, _ctx: Ctx) -> Outcome {
    Outcome::Done
}

#[test]
fn services_resolve_through_the_realm_chain() {
    let mut host = Host::new();
    let root = host.root();
    host.provide::<u32>(root, 1);

    let child = root.derive(&mut host.kernel);
    assert_eq!(host.get::<u32>(child), Some(1));

    let grandchild = child.derive(&mut host.kernel);
    assert_eq!(host.get::<u32>(grandchild), Some(1));

    host.provide::<u64>(child, 2);

    assert_eq!(host.get::<u64>(child), Some(2));
    assert_eq!(host.get::<u64>(grandchild), Some(2));
    assert!(
        host.get::<u64>(root).is_none(),
        "parent realms must not see child services"
    );
}

#[test]
fn pending_plugins_start_once_dependencies_are_provided() {
    let mut host = Host::new();
    let root = host.root();

    let plugin = named("needs-counter").inject(vec![ServiceKey::of::<u32>("u32").into()]);
    let fiber = host.register(root, plugin, |host, ctx| {
        assert_eq!(host.get::<u32>(ctx), Some(7), "counter injected");
        Outcome::Done
    });
    assert_eq!(
        host.state(fiber),
        State::Pending,
        "missing dependencies keep the plugin pending"
    );

    host.provide::<u32>(root, 7);
    assert_eq!(host.state(fiber), State::Starting);
    host.settle();
    assert_eq!(host.state(fiber), State::Ready);
}

#[test]
fn pending_plugins_can_be_disposed_without_starting() {
    let mut host = Host::new();
    let root = host.root();

    let plugin = named("never-starts").inject(vec![ServiceKey::of::<u32>("u32").into()]);
    let fiber = host.register(root, plugin, |_, _| unreachable!());
    assert_eq!(host.state(fiber), State::Pending);

    host.dispose(fiber);
    assert_eq!(host.state(fiber), State::Disposed);

    host.provide::<u32>(root, 1);
    host.settle();

    assert_eq!(
        host.state(fiber),
        State::Disposed,
        "a disposed plugin must never start"
    );
}

#[test]
fn effects_run_last_in_first_out_on_disposal() {
    let mut host = Host::new();
    let root = host.root();

    let fiber = host.register(root, named("effects"), |host, ctx| {
        host.effect(ctx, "first-registered");
        host.effect(ctx, "second-registered");
        Outcome::Done
    });
    host.settle();
    host.dispose(fiber);

    assert_eq!(
        host.ran,
        vec!["second-registered", "first-registered"],
        "effects must drain last-in-first-out"
    );
}

#[test]
fn disposing_a_provider_disconnects_dependents_and_removes_services() {
    let mut host = Host::new();
    let root = host.root();

    let provider = host.register(root, named("provider"), |host, ctx| {
        host.provide::<u32>(ctx, 1);
        Outcome::Done
    });
    host.settle();

    let dependent = named("dependent").inject(vec![ServiceKey::of::<u32>("u32").into()]);
    let dependent = host.register(root, dependent, |host, ctx| {
        assert_eq!(host.get::<u32>(ctx), Some(1));
        Outcome::Done
    });
    host.settle();
    let bystander = host.register(root, named("bystander"), idle);
    host.settle();

    host.dispose(provider);

    assert_eq!(
        host.state(dependent),
        State::Disposed,
        "dependents must be disconnected"
    );
    assert_eq!(
        host.state(bystander),
        State::Ready,
        "unrelated fibers must survive"
    );
    assert!(
        host.get::<u32>(root).is_none(),
        "the service must leave the table"
    );
}

#[test]
fn disposal_cascades_to_child_fibers() {
    let mut host = Host::new();
    let root = host.root();

    let fiber = host.register(root, named("parent"), |host, ctx| {
        let child = ctx.fork(&mut host.kernel, "child".to_owned());
        let child = host.kernel.ctx_of(child).unwrap();
        host.effect(child, "child");
        Outcome::Done
    });
    host.settle();
    host.dispose(fiber);

    assert_eq!(host.state(fiber), State::Disposed);
    assert_eq!(
        host.ran,
        vec!["child"],
        "child effects must run during the cascade"
    );
}

#[test]
fn a_failing_plugin_is_marked_failed_and_still_cleans_up() {
    let mut host = Host::new();
    let root = host.root();

    let fiber = host.register(root, named("fails"), |host, ctx| {
        host.effect(ctx, "cleaned");
        Outcome::Failed("boom".to_owned())
    });
    host.settle();

    assert_eq!(host.state(fiber), State::Failed);
    assert_eq!(host.kernel.failure(fiber), Some("boom".to_owned()));
    assert_eq!(
        host.ran,
        vec!["cleaned"],
        "effects registered before the failure must run"
    );
}

#[test]
fn a_panicking_plugin_is_contained_and_cleans_up() {
    let mut host = Host::new();
    let root = host.root();

    let fiber = host.register(root, named("panics"), |host, ctx| {
        host.effect(ctx, "cleaned");
        Outcome::Panicked("boom".to_owned())
    });
    host.settle();

    assert_eq!(host.state(fiber), State::Failed);
    assert_eq!(
        host.kernel.failure(fiber),
        Some("plugin setup panicked: boom".to_owned())
    );
    assert_eq!(
        host.ran,
        vec!["cleaned"],
        "effects registered before the panic must run"
    );

    // The kernel must still be fully operational afterwards.
    let survivor = host.register(root, named("survivor"), idle);
    host.settle();
    assert_eq!(host.state(survivor), State::Ready);
    host.dispose(FiberId::root());
    assert_eq!(host.state(survivor), State::Disposed);
}

#[test]
fn disposing_a_starting_fiber_aborts_setup_and_runs_effects() {
    let mut host = Host::new();
    let root = host.root();

    // The setup registers an effect and then hangs.
    let fiber = host.register(root, named("hangs"), |_, _| unreachable!());
    assert_eq!(host.state(fiber), State::Starting);
    let ctx = host.kernel.ctx_of(fiber).unwrap();
    host.effect(ctx, "cleaned");

    assert_eq!(
        host.kernel.begin_dispose(fiber, State::Disposed),
        Some(true),
        "the running setup is to be cut off"
    );
    host.finish_disposal(fiber);

    assert_eq!(
        host.ran,
        vec!["cleaned"],
        "effects registered before the abort must run"
    );
    assert_eq!(host.state(fiber), State::Disposed);

    // A late end of the setup changes nothing any more.
    assert!(!host.kernel.end_setup(fiber, Outcome::Done));
    assert_eq!(host.state(fiber), State::Disposed);
}

struct Message;

fn message() -> TypeTag {
    TypeTag { id: TypeId::of::<Message>(), name: "Message" }
}

fn text() -> TypeTag {
    TypeTag { id: TypeId::of::<String>(), name: "String" }
}

fn observers(host: &Host, ctx: Ctx) -> Vec<u64> {
    ctx.events().parallel(&host.kernel, message().id)
}

#[test]
fn events_reach_scoped_handlers_and_die_with_the_fiber() {
    let mut host = Host::new();
    let root = host.root();

    let fiber = host.register(root, named("listener"), |host, ctx| {
        ctx.on(&mut host.kernel, message());
        Outcome::Done
    });
    host.settle();

    assert_eq!(observers(&host, root), vec![0]);

    host.dispose(fiber);

    assert!(
        observers(&host, root).is_empty(),
        "handlers must be removed with their fiber"
    );
}

#[test]
fn events_emitted_in_a_realm_bubble_up_to_ancestor_handlers() {
    let mut host = Host::new();
    let root = host.root();
    let child = root.derive(&mut host.kernel);

    let parent_saw = root.on(&mut host.kernel, message()).id;
    let child_saw = child.on(&mut host.kernel, message()).id;

    assert_eq!(
        observers(&host, root),
        vec![parent_saw],
        "parent emits must not reach child handlers"
    );
    assert_eq!(
        observers(&host, child),
        vec![child_saw, parent_saw],
        "child emits must bubble up to ancestors"
    );
}

#[test]
fn replacing_a_service_disconnects_its_dependents() {
    let mut host = Host::new();
    let root = host.root();

    let dependent = named("dependent").inject(vec![ServiceKey::of::<u32>("u32").into()]);
    let fiber = host.register(root, dependent, |host, ctx| {
        assert_eq!(host.get::<u32>(ctx), Some(1));
        Outcome::Done
    });
    host.provide::<u32>(root, 1);
    host.settle();
    assert_eq!(host.state(fiber), State::Ready);

    host.provide::<u32>(root, 2);

    assert_eq!(
        host.state(fiber),
        State::Disposed,
        "dependents of a replaced service must be disconnected"
    );
    assert_eq!(host.get::<u32>(root), Some(2));
}

#[test]
fn forked_scopes_collect_their_own_effects() {
    let mut host = Host::new();
    let root = host.root();

    let child = root.fork(&mut host.kernel, "scope".to_owned());
    let ctx = host.kernel.ctx_of(child).unwrap();
    host.effect(ctx, "cleaned");

    assert_eq!(host.state(child), State::Ready);
    assert!(host.ran.is_empty());

    host.dispose(child);

    assert_eq!(host.ran, vec!["cleaned"]);
    assert_eq!(
        root.fiber_id(),
        FiberId::root(),
        "the root fiber is untouched"
    );
    assert_eq!(host.state(FiberId::root()), State::Ready);
}

#[test]
fn registering_on_a_dead_fiber_yields_a_born_disposed_child() {
    let mut host = Host::new();
    let root = host.root();
    let _ = host.kernel.dispose();

    let fiber = host.register(root, named("late"), idle);

    assert_eq!(host.state(fiber), State::Disposed);
    assert!(!host.effect(root, "never"), "nothing registers on a dead fiber");
    let late = root.on(&mut host.kernel, message());
    let later = root.on(&mut host.kernel, message());
    assert_ne!(late, later, "every registration has its own id");
    assert!(observers(&host, root).is_empty(), "a handler on a dead fiber is never run");
    assert!(root.provide(&mut host.kernel, ServiceKey::of::<u32>("u32"), ServiceId(0)).is_none());
}

#[test]
fn kernel_dispose_cascades_everything() {
    let mut host = Host::new();
    let root = host.root();

    let fiber = host.register(root, named("long-lived"), idle);
    host.settle();

    let steps = host.kernel.dispose();

    assert_eq!(host.state(fiber), State::Disposed);
    assert_eq!(steps.last(), Some(&Step::Settled(FiberId::root(), State::Disposed)));
    assert!(host.kernel.dispose().is_empty(), "disposing twice does nothing");
}

#[test]
fn plugins_can_derive_realms_to_isolate_their_services() {
    let mut host = Host::new();
    let root = host.root();

    let fiber = host.register(root, named("isolator"), |host, ctx| {
        let private = ctx.derive(&mut host.kernel);
        host.provide::<u32>(private, 99);

        assert_eq!(host.get::<u32>(private), Some(99));
        assert!(
            host.get::<u32>(ctx).is_none(),
            "the parent realm must not see it"
        );
        Outcome::Done
    });
    host.settle();

    assert_eq!(host.state(fiber), State::Ready);
    assert!(
        host.get::<u32>(root).is_none(),
        "the isolation must outlive the plugin's turn"
    );
}

#[test]
fn struct_plugins_chain_through_the_service_table() {
    let mut host = Host::new();
    let root = host.root();
    host.provide::<u32>(root, 1);

    let counter = named("counter").inject(vec![ServiceKey::of::<u32>("u32").into()]);
    let fiber = host.register(root, counter, |host, ctx| {
        let initial = host.get::<u32>(ctx).expect("counter service injected");
        assert_eq!(initial, 1);
        host.provide::<u32>(ctx, initial + 1);
        Outcome::Done
    });
    host.settle();

    assert_eq!(host.state(fiber), State::Ready, "a provider is not its own dependent");
    assert_eq!(
        host.get::<u32>(root),
        Some(2),
        "the plugin re-provided +1"
    );
    assert_eq!(host.kernel.fiber(fiber).unwrap().name, "counter");
}

#[test]
fn nested_plugins_form_a_tree_and_cascade_together() {
    let mut host = Host::new();
    let root = host.root();

    // The parent plugin registers a child plugin inside its own setup: the
    // child becomes a fiber under the parent's fiber.
    let parent = host.register(root, named("parent"), |host, ctx| {
        host.provide::<u32>(ctx, 1);
        let child = named("child").inject(vec![ServiceKey::of::<u32>("u32").into()]);
        host.register(ctx, child, |host, ctx| {
            assert_eq!(host.get::<u32>(ctx), Some(1), "inherited");
            Outcome::Done
        });
        Outcome::Done
    });
    host.settle();

    // The tree is observable from the outside.
    assert_eq!(host.kernel.fiber(FiberId::root()).unwrap().parent, FiberId::root());
    assert_eq!(
        host.kernel.fiber(parent).unwrap().parent,
        FiberId::root(),
        "top-level plugins hang off the root"
    );

    let children = host.kernel.children_of(parent);
    assert_eq!(children.len(), 1);
    let child = children[0];
    assert_eq!(host.kernel.fiber(child).unwrap().name, "child");
    assert_eq!(host.kernel.fiber(child).unwrap().parent, parent);
    assert_eq!(host.state(child), State::Ready);

    host.dispose(parent);

    assert_eq!(
        host.state(child),
        State::Disposed,
        "the child cascades with its parent"
    );
}

#[test]
fn a_deeply_nested_tree_disposes_bottom_up() {
    let mut host = Host::new();
    let root = host.root();

    let fiber = host.register(root, named("grandparent"), |host, ctx| {
        host.effect(ctx, "grandparent");

        let middle = ctx.fork(&mut host.kernel, "middle".to_owned());
        let middle = host.kernel.ctx_of(middle).unwrap();
        host.effect(middle, "middle");

        let leaf = middle.fork(&mut host.kernel, "leaf".to_owned());
        let leaf = host.kernel.ctx_of(leaf).unwrap();
        host.effect(leaf, "leaf");
        Outcome::Done
    });
    host.settle();
    host.dispose(fiber);

    assert_eq!(
        host.ran,
        vec!["leaf", "middle", "grandparent"],
        "descendants must clean up before their ancestors"
    );
}

#[test]
fn plain_tasks_are_aborted_on_disposal_not_awaited() {
    let mut host = Host::new();
    let root = host.root();

    let fiber = host.register(root, named("spawner"), |host, ctx| {
        host.spawn(ctx, false).expect("fiber is active during setup");
        Outcome::Done
    });
    host.settle();
    assert_eq!(host.task_count(fiber), 1);
    assert!(!host.kernel.fiber(fiber).unwrap().tasks[0].graceful, "cut off, not awaited");

    host.dispose(fiber);

    assert_eq!(host.task_count(fiber), 0);
    assert_eq!(host.stopped, vec![fiber]);
    let ctx = Ctx { fiber, realm: root.realm_id() };
    assert!(host.spawn(ctx, false).is_none(), "a disposed fiber takes no task");
}

#[test]
fn graceful_tasks_are_signalled_then_joined_on_disposal() {
    let mut host = Host::new();
    let root = host.root();

    let fiber = host.register(root, named("server"), |host, ctx| {
        host.spawn(ctx, true).expect("fiber is active during setup");
        host.effect(ctx, "after the join");
        Outcome::Done
    });
    host.settle();
    assert_eq!(host.task_count(fiber), 1);
    assert!(host.kernel.fiber(fiber).unwrap().tasks[0].graceful);

    // The tasks are stopped, with the fiber still there to be joined, before
    // any cleanup runs.
    assert_eq!(host.kernel.begin_dispose(fiber, State::Disposed), Some(false));
    let mut disposal = Disposal::of(fiber);
    assert_eq!(host.kernel.step(&mut disposal), Step::Quiet(fiber));
    assert_eq!(host.kernel.step(&mut disposal), Step::StopTasks(fiber));
    assert_eq!(host.task_count(fiber), 1, "the task is still being joined");
    assert_eq!(host.kernel.step(&mut disposal), Step::Quiet(fiber));
    assert_eq!(host.task_count(fiber), 0);
    assert_eq!(host.kernel.step(&mut disposal), Step::RunEffect(fiber, 0));
    assert_eq!(
        host.kernel.step(&mut disposal),
        Step::Settled(fiber, State::Disposed)
    );
    assert_eq!(host.kernel.step(&mut disposal), Step::Done);
}

#[test]
fn graceful_tasks_that_ignore_the_signal_can_be_force_aborted() {
    let mut host = Host::new();
    let root = host.root();

    let fiber = host.register(root, named("stubborn"), |host, ctx| {
        host.spawn(ctx, true).expect("fiber is active during setup");
        Outcome::Done
    });
    host.settle();

    let aborted = host.kernel.abort_tasks(fiber);
    assert_eq!(aborted.len(), 1);
    assert_eq!(host.task_count(fiber), 0);

    host.dispose(fiber);
    assert!(host.stopped.is_empty(), "there is nothing left to wait for");
    assert_eq!(host.state(fiber), State::Disposed);
}

#[test]
fn kernels_go_idle_once_their_tasks_end() {
    let mut host = Host::new();
    let root = host.root();
    assert!(host.kernel.is_idle());

    let fiber = host.register(root, named("batch"), |host, ctx| {
        host.spawn(ctx, false).expect("fiber is active during setup");
        Outcome::Done
    });
    assert!(!host.kernel.is_idle(), "a starting fiber is work");
    host.settle();
    assert!(!host.kernel.is_idle(), "a tracked task is work");

    host.kernel.finish_task(fiber, 0);
    assert!(host.kernel.is_idle(), "ready fibers do not count as work");

    let _ = host.kernel.dispose();
    assert!(host.kernel.fiber(FiberId::root()).is_none(), "everything is disposed");
}

#[test]
fn disposing_the_kernel_stops_endless_tasks() {
    let mut host = Host::new();
    let root = host.root();

    let fiber = host.register(root, named("daemon"), |host, ctx| {
        host.spawn(ctx, false).expect("fiber is active during setup");
        Outcome::Done
    });
    host.settle();
    assert!(!host.kernel.is_idle(), "the endless task keeps the kernel busy");

    let steps = host.kernel.dispose();

    assert!(
        steps.contains(&Step::StopTasks(fiber)),
        "the endless task must be cut off"
    );
    assert!(host.kernel.is_idle());
}

#[test]
fn tasks_can_be_joined_individually_inside_a_plugin() {
    let mut host = Host::new();
    let root = host.root();

    let fiber = host.register(root, named("fanout"), |host, ctx| {
        let tasks: Vec<u64> = (0..3)
            .map(|_| host.spawn(ctx, false).expect("fiber is active during setup"))
            .collect();
        assert_eq!(host.task_count(ctx.fiber_id()), 3);
        for task in tasks {
            host.kernel.finish_task(ctx.fiber_id(), task);
        }
        Outcome::Done
    });
    host.settle();

    assert_eq!(host.state(fiber), State::Ready);
    assert_eq!(host.task_count(fiber), 0, "joined tasks leave the set");
}

#[test]
fn emit_returns_immediately_and_observers_run_detached() {
    let mut host = Host::new();
    let root = host.root();
    let first = root.on(&mut host.kernel, message());

    // The dispatch only names its observers; running them is up to the host.
    assert_eq!(root.emit(&host.kernel, message().id), vec![first.id]);
    assert_eq!(root.events().emit(&host.kernel, message().id), vec![first.id]);
}

#[test]
fn parallel_awaits_every_observer_and_aggregates_panics() {
    let mut host = Host::new();
    let root = host.root();
    let _ = root.on(&mut host.kernel, message());
    let _ = root.on(&mut host.kernel, message());

    let reached = observers(&host, root);
    assert_eq!(reached.len(), 2, "a panicking peer must not stop the other observers");

    let outcome = Events::aggregate(&vec![None, Some("observer exploded".to_owned())]);
    let failure = outcome.expect_err("the panic must be reported");
    assert_eq!(failure.errors.len(), 1);
    assert_eq!(failure.errors[0].to_string(), "event handler panicked");
    assert_eq!(failure.errors[0].message, "observer exploded");
    assert_eq!(failure.to_string(), "1 event handler(s) panicked");
    assert!(Events::aggregate(&vec![None, None]).is_ok());
}

#[test]
fn serial_stops_at_the_first_decision() {
    let mut host = Host::new();
    let root = host.root();
    let answers = [None, Some("decided"), Some("unreached")];
    let names = ["first", "second", "third"];
    for _ in 0..3 {
        root.on_serial(&mut host.kernel, message(), text());
    }

    let mut consulted = Vec::new();
    let mut dispatch = root.events().serial(&host.kernel, message().id, text().id);
    let mut turn = dispatch.go_on(&host.kernel);
    while let Turn::Run(id) = turn {
        consulted.push(names[id as usize]);
        let attempt = match answers[id as usize] {
            Some(answer) => Attempt::Decided(answer),
            None => Attempt::Passed,
        };
        turn = dispatch.answer(&host.kernel, attempt);
    }
    let Turn::Done(decision) = turn else { panic!("the dispatch is over") };

    assert_eq!(decision, Some("decided"));
    assert_eq!(
        consulted,
        vec!["first", "second"],
        "dispatch stops at the first decision"
    );
}

#[test]
fn serial_without_a_decision_asks_everybody() {
    let mut host = Host::new();
    let root = host.root();
    for _ in 0..2 {
        root.on_serial(&mut host.kernel, message(), text());
    }
    let mut dispatch = root.events().serial(&host.kernel, message().id, text().id);
    assert!(matches!(dispatch.go_on::<()>(&host.kernel), Turn::Run(0)));
    assert!(matches!(dispatch.answer(&host.kernel, Attempt::<()>::Passed), Turn::Run(1)));
    assert!(matches!(
        dispatch.answer(&host.kernel, Attempt::<()>::Passed),
        Turn::Done(None)
    ));
}

#[test]
fn kernel_dispose_leaves_to_others_what_they_dispose() {
    let mut kernel = Kernel::new();
    let root = kernel.root_ctx();
    let scope = root.fork(&mut kernel, "scope".to_owned());
    let other = root.fork(&mut kernel, "other".to_owned());
    assert_eq!(kernel.begin_dispose(scope, State::Disposed), Some(false));

    assert_eq!(kernel.next_doomed(), Some(FiberId::root()));
    assert!(!kernel.dispose().is_empty());
    assert_eq!(kernel.next_doomed(), None);
    assert_eq!(kernel.state(other), Some(State::Disposed));
    assert_eq!(kernel.state(scope), Some(State::Ready), "its disposal is not over");
    assert!(kernel.dispose().is_empty(), "a second time there is nothing to do");

    let mut disposal = Disposal::of(scope);
    while !matches!(kernel.step(&mut disposal), Step::Done) {}
    assert_eq!(kernel.state(scope), Some(State::Disposed));
}

#[test]
fn serial_skips_deciders_whose_fiber_has_gone_meanwhile() {
    let mut host = Host::new();
    let root = host.root();
    let fiber = host.register(root, named("guard"), |host, ctx| {
        ctx.on_serial(&mut host.kernel, message(), text());
        Outcome::Done
    });
    host.settle();
    root.on_serial(&mut host.kernel, message(), text());

    let mut dispatch = root.events().serial(&host.kernel, message().id, text().id);
    host.dispose(fiber);
    assert!(matches!(dispatch.go_on::<()>(&host.kernel), Turn::Run(1)));
    assert!(matches!(
        dispatch.answer(&host.kernel, Attempt::<()>::Panicked),
        Turn::Done(None)
    ));
}

#[test]
fn bail_decides_without_awaiting() {
    let mut host = Host::new();
    let root = host.root();
    root.on_bail(&mut host.kernel, message(), text());

    let ask = |payload: &'static str| {
        root.events().bail(&host.kernel, message().id, text().id, move |_| {
            if payload == "blocked" {
                Attempt::Decided("denied")
            } else {
                Attempt::Passed
            }
        })
    };

    assert_eq!(ask("blocked"), Some("denied"));
    assert_eq!(ask("allowed"), None);
}

#[test]
fn panicking_deciders_are_skipped() {
    let mut host = Host::new();
    let root = host.root();
    root.on_bail(&mut host.kernel, message(), text());
    root.on_bail(&mut host.kernel, message(), text());

    let decision = root.events().bail(&host.kernel, message().id, text().id, |id| match id {
        0 => Attempt::Panicked,
        _ => Attempt::Decided(id),
    });
    assert_eq!(decision, Some(1));
}

#[test]
fn deciders_die_with_their_fiber() {
    let mut host = Host::new();
    let root = host.root();

    let fiber = host.register(root, named("guard"), |host, ctx| {
        ctx.on_bail(&mut host.kernel, message(), text());
        Outcome::Done
    });
    host.settle();

    let ask = |host: &Host| {
        root.events()
            .bail(&host.kernel, message().id, text().id, |_| Attempt::Decided("guarded"))
    };
    assert_eq!(ask(&host), Some("guarded"));

    host.dispose(fiber);

    assert_eq!(ask(&host), None, "deciders must be removed with their fiber");
}

/// Runs an onion of `outer` and `inner`, in the order of registration.
fn unfold(next: &chorda::EventNext, names: &[&str]) -> String {
    match next.run() {
        Layer::Inner(id, rest) => format!("{}({})", names[id as usize], unfold(&rest, names)),
        Layer::BuiltIn => "core".to_owned(),
    }
}

#[test]
fn waterfall_composes_around_the_builtin_and_can_veto() {
    let mut host = Host::new();
    let root = host.root();
    root.on_waterfall(&mut host.kernel, message(), text());
    root.on_waterfall(&mut host.kernel, message(), text());

    let next = root.events().waterfall(&host.kernel, message().id, text().id);
    assert_eq!(
        unfold(&next, &["outer", "inner"]),
        "outer(inner(core))",
        "layers run outermost-first around the built-in behavior"
    );

    // The outermost layer comes first and alone decides whether anything
    // inside it runs at all.
    match next.run() {
        Layer::Inner(id, rest) => {
            assert_eq!(id, 0);
            assert_eq!(rest.index, 1);
        }
        Layer::BuiltIn => panic!("there are layers"),
    }
}

#[test]
fn deciders_bubble_up_to_ancestor_realms() {
    let mut host = Host::new();
    let root = host.root();
    let child = root.derive(&mut host.kernel);
    root.on_bail(&mut host.kernel, message(), text());

    let decision = child.events().bail(&host.kernel, message().id, text().id, |_| {
        Attempt::Decided("handled-upstairs")
    });

    assert_eq!(
        decision,
        Some("handled-upstairs"),
        "child dispatches must consult ancestor deciders"
    );
}

#[test]
fn families_do_not_mix() {
    let mut host = Host::new();
    let root = host.root();
    root.on_bail(&mut host.kernel, message(), text());
    assert!(root.emit(&host.kernel, message().id).is_empty());
    assert!(root
        .events()
        .waterfall(&host.kernel, message().id, text().id)
        .chain
        .is_empty());
    let other = TypeId::of::<u8>();
    let decision = root
        .events()
        .bail(&host.kernel, message().id, other, |_| Attempt::Decided(()));
    assert_eq!(decision, None, "the decision type is part of the family");
}

// ---- soft dependencies ----

#[test]
fn soft_dependencies_wait_for_declared_providers_only() {
    let mut host = Host::new();
    let root = host.root();

    let alone = named("alone").inject(vec![chorda::Dependency::soft(ServiceKey::of::<u32>("u32"))]);
    let alone = host.register(root, alone, |host, ctx| {
        assert_eq!(host.get::<u32>(ctx), None);
        Outcome::Done
    });
    assert_eq!(host.state(alone), State::Starting, "nobody declared the service");
    host.settle();

    let reader = named("reader").inject(vec![chorda::Dependency::soft(ServiceKey::of::<u32>("u32"))]);
    let provider = named("provider").provides(vec![ServiceKey::of::<u32>("u32")]);
    let (ids, started) = root.register_batch(&mut host.kernel, vec![reader, provider]);
    assert_eq!(host.state(ids[0]), State::Pending, "the provider has yet to settle");
    assert_eq!(started, vec![ids[1]]);

    // A declaration that is never fulfilled is harmless.
    assert!(!host.kernel.end_setup(ids[1], Outcome::Done));
    assert_eq!(host.kernel.take_satisfied(), vec![ids[0]]);
    assert!(!host.kernel.end_setup(ids[0], Outcome::Done));

    // A soft dependent is never disconnected.
    host.provide::<u32>(root, 1);
    host.provide::<u32>(root, 2);
    assert_eq!(host.state(ids[0]), State::Ready);
    assert_eq!(host.state(alone), State::Ready);
}

#[test]
fn batches_start_the_same_plugins_in_any_order() {
    for swapped in [false, true] {
        let mut kernel = Kernel::new();
        let root = kernel.root_ctx();
        let reader =
            named("reader").inject(vec![chorda::Dependency::soft(ServiceKey::of::<u32>("u32"))]);
        let provider = named("provider").provides(vec![ServiceKey::of::<u32>("u32")]);
        let plugins = if swapped { vec![provider, reader] } else { vec![reader, provider] };
        let (ids, started) = root.register_batch(&mut kernel, plugins);
        assert_eq!(started, vec![ids[if swapped { 0 } else { 1 }]]);
    }
}

#[test]
fn a_plugin_that_declares_what_it_reads_does_not_wait_for_itself() {
    let mut kernel = Kernel::new();
    let root = kernel.root_ctx();
    let plugin = named("both")
        .inject(vec![chorda::Dependency::soft(ServiceKey::of::<u32>("u32"))])
        .provides(vec![ServiceKey::of::<u32>("u32")]);
    let (id, started) = root.register(&mut kernel, plugin);
    assert_eq!(started, vec![id]);
}

#[test]
fn stale_cleanups_spare_newer_services() {
    let mut host = Host::new();
    let root = host.root();
    let first = root.fork(&mut host.kernel, "first".to_owned());
    let first_ctx = host.kernel.ctx_of(first).unwrap();
    host.provide::<u32>(first_ctx, 1);
    host.provide::<u32>(root, 2);
    host.dispose(first);
    assert_eq!(host.get::<u32>(root), Some(2), "the replacement stays");
}

// ---- discovery ----

/// What two plugin crates submit, as the linker might hand it out.
fn submitted() -> Vec<PluginRegistration> {
    vec![
        PluginRegistration { name: "beta", build: 0 },
        PluginRegistration { name: "alpha", build: 1 },
        PluginRegistration { name: "beta", build: 2 },
    ]
}

fn discovered_names() -> Vec<String> {
    let plugins = chorda::plugin_registrations(&submitted())
        .iter()
        .map(|registration| named(registration.name))
        .collect();
    let (kernel, ids, started) = Kernel::with_discovered_plugins(plugins);
    assert_eq!(ids, started, "plugins without dependencies start at once");
    kernel
        .children_of(FiberId::root())
        .into_iter()
        .map(|id| kernel.fiber(id).unwrap().name.clone())
        .collect()
}

#[test]
fn submitted_plugins_are_discovered_and_registered() {
    let names = discovered_names();
    assert!(names.contains(&"alpha".to_owned()), "names: {names:?}");
}

#[test]
fn every_submitted_plugin_is_discovered() {
    let names = discovered_names();
    assert!(names.contains(&"beta".to_owned()), "names: {names:?}");
}

#[test]
fn registrations_are_sorted_by_name_and_duplicates_collapse_to_the_first() {
    let registrations = chorda::plugin_registrations(&submitted());
    let found: Vec<(&str, usize)> = registrations.iter().map(|r| (r.name, r.build)).collect();
    assert_eq!(found, vec![("alpha", 1), ("beta", 0)]);
    assert_eq!(
        chorda::discover_plugin_names(&submitted()),
        vec!["alpha".to_owned(), "beta".to_owned()]
    );
}
