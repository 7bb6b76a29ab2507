//! The snapshot a kernel renders.

use std::any::TypeId;

use chorda::{
    fn_plugin, Dependency, Kernel, Outcome, ServiceId, ServiceKey, State, Task, TypeTag,
};

struct ToolSink;
struct Config;
struct ToolCall;
struct ToolGate;

fn tag<T: 'static>(name: &'static str) -> TypeTag {
    TypeTag { id: TypeId::of::<T>(), name }
}

fn key<T: 'static>(name: &'static str) -> ServiceKey {
    ServiceKey::from_parts(TypeId::of::<T>(), name)
}

#[test]
fn a_fresh_kernel_is_one_line() {
    assert_eq!(Kernel::new().describe(), "fiber \"root\" [Ready]\n");
}

#[test]
fn the_snapshot_shows_everything_the_kernel_knows() {
    let mut kernel = Kernel::new();
    let root = kernel.root_ctx();

    let waiting = fn_plugin("waiting".to_owned()).inject(vec![
        key::<Config>("h_tools::Config").into(),
        Dependency::soft(key::<ToolSink>("h_tools::ToolSink")),
    ]);
    let _ = root.register(&mut kernel, waiting);
    let (tool, _) = root.register(&mut kernel, fn_plugin("tool".to_owned()));
    let ctx = kernel.ctx_of(tool).unwrap();
    ctx.provide(&mut kernel, key::<ToolSink>("h_tools::ToolSink"), ServiceId(0)).unwrap();
    kernel.end_setup(tool, Outcome::Done);

    let user = fn_plugin("user".to_owned())
        .inject(vec![key::<ToolSink>("h_tools::ToolSink").into()]);
    let (user, _) = ctx.register(&mut kernel, user);
    assert!(kernel.add_task(user, Task { id: 0, graceful: false }));

    for _ in 0..2 {
        root.on_bail(&mut kernel, tag::<ToolCall>("h_core::ToolCall"), tag::<bool>("bool"));
        root.middleware(&mut kernel, tag::<ToolGate>("h/agent/tool-gate"));
    }
    ctx.middleware(&mut kernel, tag::<ToolGate>("h/agent/tool-gate"));
    ctx.on(&mut kernel, tag::<ToolCall>("h_core::ToolCall"));

    assert_eq!(
        kernel.describe(),
        r#"fiber "root" [Ready]
  fiber "tool" [Ready]
    provides: h_tools::ToolSink
    fiber "user" [Starting]
      injects: h_tools::ToolSink
      tasks: 1
  fiber "waiting" [Pending]
pending:
  "waiting" waits for [h_tools::Config, h_tools::ToolSink (soft)]
events:
  bail<h_core::ToolCall, result bool> × 2
  observer<h_core::ToolCall> × 1
pipelines:
  h/agent/tool-gate × 3 middleware(s)
"#
    );

    // What a fiber registered leaves the snapshot with it; a family that had
    // handlers once stays listed.
    let _ = kernel.dispose_fiber(tool, State::Disposed);
    assert_eq!(
        kernel.describe(),
        r#"fiber "root" [Ready]
  fiber "waiting" [Pending]
pending:
  "waiting" waits for [h_tools::Config, h_tools::ToolSink (soft)]
events:
  bail<h_core::ToolCall, result bool> × 2
  observer<h_core::ToolCall> × 0
pipelines:
  h/agent/tool-gate × 2 middleware(s)
"#
    );
}

#[test]
fn siblings_are_shown_by_name_and_names_are_recorded_first_come() {
    let mut kernel = Kernel::new();
    let root = kernel.root_ctx();
    for name in ["b", "c", "a"] {
        let _ = root.fork(&mut kernel, name.to_owned());
    }
    root.on_serial(&mut kernel, tag::<ToolCall>("first"), tag::<bool>("bool"));
    root.on_waterfall(&mut kernel, tag::<ToolCall>("second"), tag::<bool>("bool"));
    assert_eq!(
        kernel.describe(),
        "fiber \"root\" [Ready]\n  fiber \"a\" [Ready]\n  fiber \"b\" [Ready]\n  fiber \"c\" [Ready]\n\
         events:\n  serial<first, result bool> × 1\n  waterfall<first, result bool> × 1\n"
    );
}
