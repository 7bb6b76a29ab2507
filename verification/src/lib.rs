//! Chorda: a plugin kernel.
//!
//! A [`Kernel`] owns a tree of fibers (units of lifecycle), a tree of realms
//! (scopes of typed services), and a set of scoped event handlers and
//! pipeline middlewares. A plugin declares the services it injects and starts
//! on its own fiber through [`Ctx::register`]. Plugins whose dependencies are
//! missing stay [`State::Pending`] and start once [`Ctx::provide`] satisfies
//! them. Everything a fiber registered is cleaned up in last-in-first-out
//! order, cascading through child fibers and disconnecting dependents, when
//! the fiber is disposed.
//!
//! The library decides; the host acts. Plugins, cleanups, handlers and
//! services are numbers here, by which the host finds the code and the values
//! they stand for: every operation says which setups to run, which cleanups
//! to run and in what order, and which handlers a dispatch reaches. [`model`]
//! says what each operation makes of a kernel, and [`laws`] what holds of the
//! library as a whole.

pub mod context;
pub mod ctx;
pub mod describe;
pub mod disposal;
pub mod document;
pub mod entries;
pub mod events;
pub mod extract;
pub mod fiber;
pub mod json;
pub mod kernel;
pub mod laws;
pub mod loader;
pub mod model;
pub mod pipeline;
pub mod plugin;
pub mod plugin_macro;
pub mod reconcile;
pub mod registry;
pub mod seqs;
pub mod service;
pub mod setup;
pub mod shelf;
pub mod table;
pub mod text;
pub mod tree;
pub mod upkeep;

pub use context::{Ctx, Realm, RealmId, Realms, ServiceId};
pub use ctx::Provided;
pub use entries::{EntrySpec, LoadError};
pub use events::{
    decider_key, observer_key, Attempt, Event, EventAggregate, EventHandler, EventKey, EventKind,
    EventNext, Events, HandlerId, HandlerPanic, Layer, Serial, Turn, TypeTag,
};
pub use extract::{hard_service, soft_service};
pub use fiber::{Disposable, DisposableList, Fiber, FiberId, Phase, Stage, State, Task};
pub use json::{read_json, write_json, Json, Number, Object};
pub use kernel::{Disposal, Kernel};
pub use loader::{
    entry_kind, Action, EntryKind, EntryKinds, Loader, LoaderReport, Mounted, Pass, Setback,
};
pub use model::Step;
pub use pipeline::{Next, Pipeline, PipelineHandler, PipelineId};
pub use plugin::{fn_plugin, Dependency, FnPlugin};
pub use plugin_macro::{
    classify_service, expand, plugin, split_apply_inputs, Argument, Arguments, Complaint,
    Expansion, ImplBlock, Input, Item, Segment, ServiceParam, TypeShape,
};
pub use registry::{discover_plugin_names, plugin_registrations, PluginRegistration};
pub use service::ServiceKey;
pub use setup::Outcome;
pub use tree::EntryTree;
