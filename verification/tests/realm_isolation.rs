//! A service change in one realm must not disturb a sibling realm.

use chorda::{fn_plugin, Ctx, FiberId, Kernel, Outcome, ServiceId, ServiceKey, State};

struct Db;

fn provide(kernel: &mut Kernel, ctx: Ctx, service: u64) {
    ctx.provide(kernel, ServiceKey::of::<Db>("Db"), ServiceId(service))
        .expect("the fiber is in use");
}

fn consumer(kernel: &mut Kernel, ctx: Ctx, name: &str) -> FiberId {
    let plugin = fn_plugin(name.to_owned()).inject(vec![ServiceKey::of::<Db>("Db").into()]);
    let (id, started) = ctx.register(kernel, plugin);
    assert_eq!(started, vec![id], "db injected");
    kernel.end_setup(id, Outcome::Done);
    id
}

fn get(kernel: &Kernel, ctx: Ctx) -> Option<u64> {
    ctx.get(kernel, &ServiceKey::of::<Db>("Db")).map(|service| service.0)
}

const A_1: u64 = 1;
const A_2: u64 = 2;
const B_1: u64 = 3;

/// Two sibling realms each provide their own `Db` and each run a consumer
/// that injected `Db`. Replacing the `Db` of realm A must not touch the
/// consumer living in realm B: it resolved a different value entirely.
#[test]
fn replacing_a_service_leaves_sibling_realms_alone() {
    let mut kernel = Kernel::new();
    let root = kernel.root_ctx();
    let (session_a, session_b) = (root.derive(&mut kernel), root.derive(&mut kernel));

    provide(&mut kernel, session_a, A_1);
    provide(&mut kernel, session_b, B_1);

    let fiber_a = consumer(&mut kernel, session_a, "consumer-a");
    let fiber_b = consumer(&mut kernel, session_b, "consumer-b");

    // Replace only realm A's binding.
    provide(&mut kernel, session_a, A_2);

    assert_eq!(
        kernel.state(fiber_a),
        Some(State::Disposed),
        "consumer-a bound the replaced value, so it must be disconnected"
    );
    assert_eq!(
        kernel.state(fiber_b),
        Some(State::Ready),
        "consumer-b resolved Db from its own realm and must be untouched"
    );
    assert_eq!(get(&kernel, session_b), Some(B_1));
    assert_eq!(get(&kernel, session_a), Some(A_2));
}

/// The same question for disposal rather than replacement.
#[test]
fn disposing_a_provider_leaves_sibling_realms_alone() {
    let mut kernel = Kernel::new();
    let root = kernel.root_ctx();
    let (session_a, session_b) = (root.derive(&mut kernel), root.derive(&mut kernel));

    let (provider_a, _) = session_a.register(&mut kernel, fn_plugin("provider-a".to_owned()));
    let ctx = kernel.ctx_of(provider_a).unwrap();
    provide(&mut kernel, ctx, A_1);
    kernel.end_setup(provider_a, Outcome::Done);

    provide(&mut kernel, session_b, B_1);
    let consumer_b = consumer(&mut kernel, session_b, "consumer-b");

    let _ = kernel.dispose_fiber(provider_a, State::Disposed);

    assert_eq!(
        kernel.state(consumer_b),
        Some(State::Ready),
        "consumer-b never depended on realm A's provider"
    );
    assert_eq!(get(&kernel, session_b), Some(B_1));
    assert_eq!(get(&kernel, session_a), None);
}

/// A consumer that inherits the key from an ancestor realm is still a
/// dependent: shadowing is what makes a fiber independent, not depth.
#[test]
fn consumers_inheriting_from_an_ancestor_realm_are_still_disconnected() {
    let mut kernel = Kernel::new();
    let root = kernel.root_ctx();
    provide(&mut kernel, root, A_1);

    let child = root.derive(&mut kernel);
    let fiber = consumer(&mut kernel, child, "consumer");

    provide(&mut kernel, root, A_2);

    assert_eq!(
        kernel.state(fiber),
        Some(State::Disposed),
        "the consumer resolved the root binding, which was replaced"
    );
}
