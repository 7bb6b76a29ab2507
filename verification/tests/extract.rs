//! Service extraction: hard and soft parameters, and what the plugin
//! attribute makes of an impl block.

use std::any::TypeId;

use chorda::{
    fn_plugin, hard_service, soft_service, Argument, Arguments, Complaint, Ctx, Dependency,
    Expansion, FnPlugin, ImplBlock, Input, Item, Kernel, Outcome, Segment, ServiceId, ServiceKey,
    State, TypeShape,
};

struct Config;

fn config_key() -> ServiceKey {
    ServiceKey::from_parts(TypeId::of::<Config>(), "extract::Config")
}

fn sink_key() -> ServiceKey {
    ServiceKey::from_parts(TypeId::of::<String>(), "alloc::string::String")
}

// ---- shapes ----

fn path(source: usize, name: &str, arguments: Vec<Argument>) -> TypeShape {
    let arguments = if arguments.is_empty() {
        Arguments::Other
    } else {
        Arguments::Angle(arguments)
    };
    TypeShape::Path(source, false, vec![Segment { name: name.to_owned(), arguments }])
}

fn arc(source: usize, inner: TypeShape) -> TypeShape {
    path(source, "Arc", vec![Argument::Type(inner)])
}

fn option(source: usize, inner: TypeShape) -> TypeShape {
    path(source, "Option", vec![Argument::Type(inner)])
}

fn receiver() -> Input {
    Input::Receiver(true, false)
}

fn ctx_input() -> Input {
    Input::Typed(Some("ctx".to_owned()), path(0, "Ctx", vec![]))
}

fn method(name: &str, inputs: Vec<Input>) -> Item {
    Item { method: Some(name.to_owned()), inputs }
}

fn plugin_impl(items: Vec<Item>) -> ImplBlock {
    ImplBlock { trait_path: Some(vec!["chorda".to_owned(), "Plugin".to_owned()]), items }
}

/// `apply(&self, ctx: Ctx, config: Arc<Config>, sink: Option<Arc<String>>)`.
fn greeter_apply() -> Item {
    method(
        "apply",
        vec![
            receiver(),
            ctx_input(),
            Input::Typed(Some("config".to_owned()), arc(1, path(2, "Config", vec![]))),
            Input::Typed(
                Some("sink".to_owned()),
                option(3, arc(4, path(5, "String", vec![]))),
            ),
        ],
    )
}

fn expanded(items: Vec<Item>) -> Expansion {
    chorda::plugin(false, &plugin_impl(items)).expect("the block is in order")
}

fn refused(inputs: Vec<Input>) -> Complaint {
    chorda::split_apply_inputs(&inputs).expect_err("the parameters are wrong")
}

/// The dependencies derived for the greeter, keyed by the sources of its
/// service types.
fn derived(expansion: &Expansion) -> Vec<Dependency> {
    assert!(expansion.inject);
    expansion
        .services
        .iter()
        .map(|service| {
            let key = if service.dependency == 2 { config_key() } else { sink_key() };
            if service.soft {
                Dependency::soft(key)
            } else {
                Dependency::hard(key)
            }
        })
        .collect()
}

fn greeter() -> FnPlugin {
    let expansion = expanded(vec![method("name", vec![receiver()]), greeter_apply()]);
    fn_plugin("greeter".to_owned()).inject(derived(&expansion))
}

fn provide(kernel: &mut Kernel, ctx: Ctx, key: ServiceKey, service: u64) {
    ctx.provide(kernel, key, ServiceId(service)).expect("the fiber is in use");
}

#[test]
fn the_macro_extracts_hard_and_soft_services() {
    let mut kernel = Kernel::new();
    let root = kernel.root_ctx();
    provide(&mut kernel, root, config_key(), 1);
    provide(&mut kernel, root, sink_key(), 2);

    let (fiber, started) = root.register(&mut kernel, greeter());
    assert_eq!(started, vec![fiber], "both services present");
    let ctx = kernel.ctx_of(fiber).unwrap();

    assert_eq!(hard_service(&ctx, &kernel, &config_key()), Ok(ServiceId(1)));
    assert_eq!(
        soft_service(&ctx, &kernel, &sink_key()),
        Some(ServiceId(2)),
        "hard and soft parameters were extracted from the context"
    );
    let done = ctx.provide(&mut kernel, sink_key(), ServiceId(3)).expect("the fiber is in use");
    assert!(done.steps.is_empty(), "soft dependents are not disconnected");
    kernel.end_setup(fiber, Outcome::Done);
    assert_eq!(kernel.state(fiber), Some(State::Ready));
    assert_eq!(
        root.get(&kernel, &sink_key()),
        Some(ServiceId(3)),
        "what the plugin provides is read back"
    );
    let _ = kernel.dispose();
    assert_eq!(kernel.state(fiber), Some(State::Disposed));
}

#[test]
fn the_derived_inject_gates_on_hard_dependencies_only() {
    let mut kernel = Kernel::new();
    let root = kernel.root_ctx();

    // No Config provided: the derived hard dependency holds the fiber
    // pending, even though the soft dependency is absent too.
    let (fiber, _) = root.register(&mut kernel, greeter());
    assert_eq!(kernel.state(fiber), Some(State::Pending));

    provide(&mut kernel, root, config_key(), 1);

    assert_eq!(
        kernel.state(fiber),
        Some(State::Starting),
        "the hard dependency resolved and the soft one is optional"
    );
    let ctx = kernel.ctx_of(fiber).unwrap();
    assert_eq!(hard_service(&ctx, &kernel, &config_key()), Ok(ServiceId(1)));
    assert_eq!(
        soft_service(&ctx, &kernel, &sink_key()),
        None,
        "the plugin started without the soft service and read None"
    );
}

#[test]
fn soft_macro_parameters_wait_for_declared_providers() {
    let mut kernel = Kernel::new();
    let root = kernel.root_ctx();
    provide(&mut kernel, root, config_key(), 1);

    // The greeter is queued before the provider is even registered: the
    // batch makes the provider's provides declaration visible to the soft
    // dependency before anything starts.
    let provider = fn_plugin("sink-provider".to_owned()).provides(vec![sink_key()]);
    let (handles, _) = root.register_batch(&mut kernel, vec![greeter(), provider]);

    assert_eq!(
        kernel.state(handles[0]),
        Some(State::Pending),
        "the batch's provider is still settling"
    );

    let ctx = kernel.ctx_of(handles[1]).unwrap();
    provide(&mut kernel, ctx, sink_key(), 2);
    kernel.end_setup(handles[1], Outcome::Done);
    assert_eq!(kernel.take_satisfied(), vec![handles[0]], "started after settle");

    let ctx = kernel.ctx_of(handles[0]).unwrap();
    assert_eq!(soft_service(&ctx, &kernel, &sink_key()), Some(ServiceId(2)));
}

#[test]
fn a_hand_written_inject_wins_over_the_derivation() {
    let expansion = expanded(vec![greeter_apply(), method("inject", vec![receiver()])]);
    assert!(!expansion.inject, "the hand-written inject stays");
    assert_eq!(expansion.remaining, vec![1]);

    let mut kernel = Kernel::new();
    let root = kernel.root_ctx();
    provide(&mut kernel, root, ServiceKey::of::<u8>("u8"), 1);

    // Config is missing, but the hand-written inject does not name it: the
    // plugin starts and the hard extraction fails honestly.
    let plugin = fn_plugin("overriding".to_owned()).inject(vec![ServiceKey::of::<u8>("u8").into()]);
    let (fiber, started) = root.register(&mut kernel, plugin);
    assert_eq!(
        started,
        vec![fiber],
        "the overriding inject started the plugin without Config"
    );

    let ctx = kernel.ctx_of(fiber).unwrap();
    let reason = hard_service(&ctx, &kernel, &config_key()).unwrap_err();
    assert_eq!(reason, "the required service extract::Config is missing");
    assert!(kernel.end_setup(fiber, Outcome::Failed(reason.clone())));
    assert_eq!(kernel.failure(fiber), Some(reason));
    let mut disposal = chorda::Disposal::of(fiber);
    while kernel.step(&mut disposal) != chorda::Step::Done {}
    assert_eq!(
        kernel.state(fiber),
        Some(State::Failed),
        "the missing hard service surfaces as an apply failure"
    );
}

#[test]
fn the_attribute_passes_everything_else_through() {
    let expansion = expanded(vec![
        Item { method: None, inputs: Vec::new() },
        greeter_apply(),
        method("name", vec![receiver()]),
    ]);
    assert_eq!(expansion.apply, 1);
    assert_eq!(expansion.remaining, vec![0, 2]);
    let services: Vec<(&str, usize, usize, bool)> = expansion
        .services
        .iter()
        .map(|s| (s.pat.as_str(), s.ty, s.dependency, s.soft))
        .collect();
    assert_eq!(services, vec![("config", 1, 2, false), ("sink", 3, 5, true)]);

    let plain = expanded(vec![method("apply", vec![receiver(), ctx_input()])]);
    assert!(!plain.inject, "there is nothing to inject");
}

#[test]
fn wrong_blocks_are_refused_with_their_reason() {
    let apply = || method("apply", vec![receiver(), ctx_input()]);
    let complaint = |block: &ImplBlock| chorda::plugin(false, block).unwrap_err();

    let with_arguments = chorda::plugin(true, &plugin_impl(vec![apply()])).unwrap_err();
    assert_eq!(with_arguments, Complaint::TakesNoArguments);
    assert_eq!(with_arguments.text(), "#[plugin] takes no arguments");

    let other = ImplBlock { trait_path: Some(vec!["Clone".to_owned()]), items: vec![apply()] };
    assert_eq!(complaint(&other), Complaint::NotAPluginImpl);
    let inherent = ImplBlock { trait_path: None, items: vec![apply()] };
    assert_eq!(
        complaint(&inherent).text(),
        "#[plugin] must annotate an `impl Plugin for Type` block"
    );

    let twice = complaint(&plugin_impl(vec![apply(), method("name", vec![]), apply()]));
    assert_eq!(twice, Complaint::DuplicateApply(2));
    assert_eq!(twice.text(), "duplicate `apply` in a #[plugin] impl");

    let none = complaint(&plugin_impl(vec![method("name", vec![])]));
    assert_eq!(none, Complaint::NoApply);
    assert_eq!(none.text(), "#[plugin] requires an `apply` method in the impl");
}

#[test]
fn wrong_parameters_are_refused_with_their_reason() {
    assert_eq!(refused(vec![]), Complaint::NoReceiver);
    assert_eq!(refused(vec![]).text(), "#[plugin] `apply` must take `&self`");
    assert_eq!(refused(vec![Input::Receiver(false, false)]), Complaint::NotByReference);
    assert_eq!(refused(vec![Input::Receiver(true, true)]), Complaint::NotByReference);
    assert_eq!(
        refused(vec![Input::Receiver(true, true)]).text(),
        "#[plugin] `apply` must take `&self`"
    );
    assert_eq!(refused(vec![ctx_input()]), Complaint::NoReceiverFirst);
    assert_eq!(
        refused(vec![ctx_input()]).text(),
        "#[plugin] `apply` must start with `&self`"
    );
    assert_eq!(refused(vec![receiver()]), Complaint::NoCtx);
    assert_eq!(refused(vec![receiver(), receiver()]), Complaint::NotCtx);
    let wrong = Input::Typed(Some("ctx".to_owned()), path(0, "Context", vec![]));
    assert_eq!(refused(vec![receiver(), wrong]), Complaint::NotCtx);
    assert_eq!(
        refused(vec![receiver()]).text(),
        "#[plugin] `apply` must take `ctx: Ctx` after `&self`"
    );
    assert_eq!(
        refused(vec![receiver(), ctx_input(), receiver()]),
        Complaint::SecondReceiver(2)
    );
    assert_eq!(
        Complaint::SecondReceiver(2).text(),
        "only one `self` receiver is allowed"
    );

    let service = |pat: Option<&str>, ty: TypeShape| {
        refused(vec![
            receiver(),
            ctx_input(),
            Input::Typed(pat.map(str::to_owned), ty),
        ])
    };
    let config = || path(9, "Config", vec![]);
    assert_eq!(service(None, arc(1, config())), Complaint::NotPlain(2));
    assert_eq!(
        Complaint::NotPlain(2).text(),
        "service parameters must be plain identifiers"
    );
    assert_eq!(service(Some("c"), config()), Complaint::NotAService(2));
    assert_eq!(service(Some("c"), TypeShape::Other(1)), Complaint::NotAService(2));
    let qualified = TypeShape::Path(
        1,
        true,
        vec![Segment { name: "Arc".to_owned(), arguments: Arguments::Other }],
    );
    assert_eq!(service(Some("c"), qualified), Complaint::NotAService(2));
    assert_eq!(
        Complaint::NotAService(2).text(),
        "service parameters must be `Arc<T>` or `Option<Arc<T>>`"
    );
    assert_eq!(service(Some("c"), path(1, "Arc", vec![])), Complaint::BareArc(2));
    assert_eq!(
        service(Some("c"), path(1, "Arc", vec![Argument::Other])),
        Complaint::BareArc(2)
    );
    assert_eq!(
        Complaint::BareArc(2).text(),
        "`Arc` service parameters take one type argument"
    );
    assert_eq!(service(Some("c"), path(1, "Option", vec![])), Complaint::BareOption(2));
    assert_eq!(
        Complaint::BareOption(2).text(),
        "`Option` service parameters take one type argument"
    );
    assert_eq!(service(Some("c"), option(1, config())), Complaint::NotSoft(2));
    assert_eq!(
        service(Some("c"), option(1, TypeShape::Other(2))),
        Complaint::NotSoft(2)
    );
    assert_eq!(
        Complaint::NotSoft(2).text(),
        "soft dependencies must be `Option<Arc<T>>`"
    );
    assert_eq!(
        service(Some("c"), option(1, path(2, "Arc", vec![]))),
        Complaint::BareArc(2)
    );
}

#[test]
fn service_types_are_known_by_their_last_segment() {
    let qualified = TypeShape::Path(
        1,
        false,
        vec![
            Segment { name: "std".to_owned(), arguments: Arguments::Other },
            Segment { name: "sync".to_owned(), arguments: Arguments::Other },
            Segment {
                name: "Arc".to_owned(),
                arguments: Arguments::Angle(vec![Argument::Type(TypeShape::Other(7))]),
            },
        ],
    );
    assert_eq!(chorda::classify_service(&qualified, 2), Ok((7, false)));
}

#[test]
fn service_types_take_exactly_one_argument() {
    let two = || vec![Argument::Type(TypeShape::Other(7)), Argument::Type(TypeShape::Other(8))];
    let pair = path(1, "Arc", two());
    assert_eq!(chorda::classify_service(&pair, 2), Err(Complaint::BareArc(2)));
    let soft = option(1, path(2, "Arc", two()));
    assert_eq!(chorda::classify_service(&soft, 2), Err(Complaint::BareArc(2)));
    let pair = path(1, "Option", two());
    assert_eq!(chorda::classify_service(&pair, 2), Err(Complaint::BareOption(2)));
}
