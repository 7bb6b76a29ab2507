//! Pipelines: onion composition, vetoing, payload transformation, realm
//! slicing, prepend ordering, and fiber scoping.

use std::any::TypeId;

use chorda::{fn_plugin, Ctx, Kernel, Layer, Next, Outcome, RealmId, State, TypeTag};

struct PreRequest;

fn point() -> TypeTag {
    TypeTag { id: TypeId::of::<PreRequest>(), name: "test/pre-request" }
}

fn chain(kernel: &Kernel, ctx: Ctx) -> Vec<u64> {
    ctx.waterfall(kernel, point().id).chain
}

/// Runs an onion whose layers push their name on the payload on the way in
/// and append it to the response on the way out.
fn unfold(next: &Next, names: &[&str], mut messages: Vec<String>, entered: &mut Vec<String>) -> String {
    match next.run() {
        Layer::Inner(id, rest) => {
            let name = names[id as usize].to_owned();
            entered.push(name.clone());
            messages.push(name.clone());
            let response = unfold(&rest, names, messages, entered);
            format!("{response}+{name}")
        }
        Layer::BuiltIn => messages.join(","),
    }
}

#[test]
fn waterfall_composes_middlewares_around_the_fallback() {
    let mut kernel = Kernel::new();
    let root = kernel.root_ctx();
    let names = ["m1", "m2", "m3"];
    for _ in names {
        root.middleware(&mut kernel, point());
    }

    let mut entered = Vec::new();
    let next = root.waterfall(&kernel, point().id);
    let response = unfold(&next, &names, vec!["base".to_owned()], &mut entered);

    assert_eq!(
        response, "base,m1,m2,m3+m3+m2+m1",
        "payloads flow down in order, results flow back out in reverse"
    );
    assert_eq!(entered, vec!["m1", "m2", "m3"], "middlewares run outermost first");
}

#[test]
fn a_middleware_can_veto_by_not_calling_next() {
    let mut kernel = Kernel::new();
    let root = kernel.root_ctx();
    root.middleware(&mut kernel, point());

    let mut fallback_ran = false;
    let response = match root.waterfall(&kernel, point().id).run() {
        Layer::Inner(_, _) => "vetoed".to_owned(),
        Layer::BuiltIn => {
            fallback_ran = true;
            "base".to_owned()
        }
    };

    assert_eq!(response, "vetoed");
    assert!(!fallback_ran, "the builtin must not run");
}

#[test]
fn a_middleware_can_transform_the_payload_for_downstream() {
    let mut kernel = Kernel::new();
    let root = kernel.root_ctx();
    root.middleware(&mut kernel, point());

    let mut messages = vec!["original".to_owned()];
    let response = match root.waterfall(&kernel, point().id).run() {
        Layer::Inner(_, rest) => {
            messages.clear();
            messages.push("rewritten".to_owned());
            match rest.run() {
                Layer::Inner(_, _) => panic!("there is one layer"),
                Layer::BuiltIn => messages.join(","),
            }
        }
        Layer::BuiltIn => panic!("there is a layer"),
    };

    assert_eq!(response, "rewritten");
}

#[test]
fn the_slice_covers_descendants_and_excludes_sibling_branches() {
    let mut kernel = Kernel::new();
    let root = kernel.root_ctx();
    let session = root.derive(&mut kernel);
    let sibling = root.derive(&mut kernel);

    let root_id = root.middleware(&mut kernel, point()).id;
    let s1 = session.middleware(&mut kernel, point()).id;
    let s2 = sibling.middleware(&mut kernel, point()).id;

    assert_eq!(
        chain(&kernel, root),
        vec![root_id, s1, s2],
        "depth ascending: root wraps its descendants"
    );
    assert_eq!(
        chain(&kernel, session),
        vec![root_id, s1],
        "sibling realms must not join the dispatch"
    );
}

#[test]
fn the_slice_is_ordered_by_depth() {
    let mut kernel = Kernel::new();
    let root = kernel.root_ctx();
    let a = root.derive(&mut kernel);
    let a_a = a.derive(&mut kernel);
    let b = root.derive(&mut kernel);
    let a_b = a.derive(&mut kernel);

    assert_eq!(
        kernel.pipeline_slice(RealmId::root()),
        vec![root.realm_id(), a.realm_id(), b.realm_id(), a_a.realm_id(), a_b.realm_id()]
    );
    assert_eq!(
        kernel.pipeline_slice(a.realm_id()),
        vec![root.realm_id(), a.realm_id(), a_a.realm_id(), a_b.realm_id()]
    );
    assert_eq!(
        kernel.pipeline_slice(a_b.realm_id()),
        vec![root.realm_id(), a.realm_id(), a_b.realm_id()]
    );
}

#[test]
fn prepends_run_before_appends_within_a_realm() {
    let mut kernel = Kernel::new();
    let root = kernel.root_ctx();
    let first = root.middleware(&mut kernel, point()).id;
    let early = root.middleware_before(&mut kernel, point()).id;
    let last = root.middleware(&mut kernel, point()).id;

    assert_eq!(
        chain(&kernel, root),
        vec![early, first, last],
        "prepends run before appends regardless of registration order"
    );

    let earlier = root.middleware_before(&mut kernel, point()).id;
    assert_eq!(
        chain(&kernel, root),
        vec![earlier, early, first, last],
        "the newest prepend comes first"
    );
}

#[test]
fn middlewares_die_with_their_fiber() {
    let mut kernel = Kernel::new();
    let root = kernel.root_ctx();
    let (fiber, _) = root.register(&mut kernel, fn_plugin("piped".to_owned()));
    let ctx = kernel.ctx_of(fiber).unwrap();
    let plugin = ctx.middleware(&mut kernel, point());
    kernel.end_setup(fiber, Outcome::Done);

    assert_eq!(
        chain(&kernel, root),
        vec![plugin.id],
        "sanity: the plugin middleware runs while the fiber lives"
    );

    let _ = kernel.dispose_fiber(fiber, State::Disposed);

    assert!(
        chain(&kernel, root).is_empty(),
        "the disposed fiber's middleware must be gone"
    );
    assert_ne!(ctx.middleware(&mut kernel, point()), plugin);
    assert!(
        chain(&kernel, root).is_empty(),
        "a middleware on a dead fiber is never run"
    );
}

#[test]
fn dispatches_snapshot_the_chain() {
    let mut kernel = Kernel::new();
    let root = kernel.root_ctx();
    let outer = root.middleware(&mut kernel, point()).id;

    let dispatch = root.waterfall(&kernel, point().id);
    let late = root.middleware(&mut kernel, point()).id;

    assert_eq!(
        dispatch.chain,
        vec![outer],
        "a middleware registered mid-dispatch must not join it"
    );
    assert_eq!(
        chain(&kernel, root),
        vec![outer, late],
        "the late middleware joins later dispatches"
    );
}

#[test]
fn an_empty_chain_falls_straight_through_to_the_fallback() {
    let kernel = Kernel::new();
    let root = kernel.root_ctx();
    let labels: Vec<String> = "a,b".split(',').map(str::to_owned).collect();

    let response = match root.waterfall(&kernel, point().id).run() {
        Layer::Inner(_, _) => panic!("there is no layer"),
        Layer::BuiltIn => labels.join("+"),
    };

    assert_eq!(response, "a+b");
}

#[test]
fn points_do_not_mix() {
    let mut kernel = Kernel::new();
    let root = kernel.root_ctx();
    let other = TypeTag { id: TypeId::of::<u8>(), name: "test/other" };
    root.middleware(&mut kernel, other);
    assert!(chain(&kernel, root).is_empty());
}

#[test]
fn the_rest_of_a_chain_can_run_more_than_once() {
    let mut kernel = Kernel::new();
    let root = kernel.root_ctx();
    let first = root.middleware(&mut kernel, point());
    let second = root.middleware(&mut kernel, point());
    assert!(first == first && first != second, "every registration has its own id");

    let next = root.waterfall(&kernel, point().id);
    let names = ["m1", "m2"];
    let mut entered = Vec::new();
    let once = unfold(&next, &names, vec!["base".to_owned()], &mut entered);
    let again = unfold(&next.clone(), &names, vec!["base".to_owned()], &mut entered);
    assert_eq!(once, again);
    assert_eq!(entered, vec!["m1", "m2", "m1", "m2"]);
}
