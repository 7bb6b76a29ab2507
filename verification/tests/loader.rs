//! Entry trees and the loader: mounting, reconciliation, and failure paths.

use std::collections::HashMap;

use chorda::{
    entry_kind, fn_plugin, Action, EntryKinds, EntrySpec, EntryTree, FiberId, FnPlugin, Json,
    Kernel, LoadError, Loader, LoaderReport, Object, Outcome, ServiceId, ServiceKey, State, Step,
};

struct TaggedService;
struct DependentSaw;

/// A kernel and a loader, with the plugins of two kinds: a `tagged` entry
/// provides a service with its tag, a `dependent` entry injects that service
/// and provides what it saw.
struct Host {
    kernel: Kernel,
    loader: Loader,
    values: Vec<String>,
    counts: HashMap<String, usize>,
    queue: Vec<FiberId>,
}

fn tag_of(config: &Json) -> Option<String> {
    match config {
        Json::Object(fields) => match fields.get("tag") {
            Some(Json::String(tag)) => Some(tag.clone()),
            _ => None,
        },
        _ => None,
    }
}

impl Host {
    fn new() -> Self {
        let mut loader = Loader::new();
        loader.register_entry_kind(entry_kind("tagged".to_owned(), Json::Null)).unwrap();
        loader.register_entry_kind(entry_kind("dependent".to_owned(), Json::Null)).unwrap();
        Host {
            kernel: Kernel::new(),
            loader,
            values: Vec::new(),
            counts: HashMap::new(),
            queue: Vec::new(),
        }
    }

    fn count(&self, tag: &str) -> usize {
        *self.counts.get(tag).unwrap_or(&0)
    }

    /// Checks each entry's config against its kind.
    fn checks(&self, entries: &Vec<(EntrySpec, bool)>) -> Vec<Option<String>> {
        entries
            .iter()
            .map(|(row, _)| match self.loader.build_entry(row) {
                Ok((kind, config)) if kind.name() == "tagged" && tag_of(&config).is_none() => {
                    Some("invalid config for kind \"tagged\": missing field `tag`".to_owned())
                }
                _ => None,
            })
            .collect()
    }

    /// Builds each entry.
    fn build(&self, entries: &Vec<(EntrySpec, bool)>) -> Vec<Result<FnPlugin, String>> {
        entries
            .iter()
            .map(|(row, _)| match self.loader.build_entry(row) {
                Ok((kind, config)) if kind.name() == "tagged" => match tag_of(&config) {
                    Some(tag) => Ok(fn_plugin(tag)),
                    None => Err("missing field `tag`".to_owned()),
                },
                Ok(_) => Ok(fn_plugin("dependent".to_owned())
                    .inject(vec![ServiceKey::of::<TaggedService>("TaggedService").into()])),
                Err(error) => Err(error.to_string()),
            })
            .collect()
    }

    fn mount(&mut self, tree: &EntryTree) -> Result<Vec<String>, LoadError> {
        let entries = Loader::fresh(tree);
        let checks = self.checks(&entries);
        let built = self.build(&entries);
        let (ids, started) = self.loader.mount(&mut self.kernel, tree, &checks, built)?;
        self.queue.extend(started);
        Ok(ids)
    }

    fn reconcile(&mut self, tree: &EntryTree) -> Result<LoaderReport, LoadError> {
        let (_, actions) = self.loader.plan(tree);
        let entries = Loader::candidates(&actions);
        let checks = self.checks(&entries);
        let built = self.build(&entries);
        let pass = self
            .loader
            .reconcile(&mut self.kernel, tree, &checks, built)
            .map_err(|setback| setback.error)?;
        let mut report = pass.report;
        self.queue.extend(pass.started);
        loop {
            let dead = self.loader.dead_entries(&self.kernel);
            if dead.is_empty() {
                return Ok(report);
            }
            let built = self.build(&dead);
            let started = self.loader.repair_collateral(&mut self.kernel, &mut report, built)?;
            self.queue.extend(started);
        }
    }

    /// Runs the setups that are due until none is left.
    fn settle(&mut self) {
        while !self.queue.is_empty() {
            let id = self.queue.remove(0);
            let Some(ctx) = self.kernel.ctx_of(id) else { continue };
            let name = self.kernel.fiber(id).unwrap().name.clone();
            let (key, value) = if name == "dependent" {
                let saw = ctx.get(&self.kernel, &ServiceKey::of::<TaggedService>("TaggedService"));
                let saw = saw.expect("dependency injected");
                (ServiceKey::of::<DependentSaw>("DependentSaw"), self.values[saw.0 as usize].clone())
            } else {
                *self.counts.entry(name.clone()).or_default() += 1;
                (ServiceKey::of::<TaggedService>("TaggedService"), name)
            };
            let service = ServiceId(self.values.len() as u64);
            self.values.push(value);
            let done = ctx.provide(&mut self.kernel, key, service).expect("the fiber is in use");
            self.queue.extend(done.started);
            self.kernel.end_setup(id, Outcome::Done);
            let started = self.kernel.take_satisfied();
            self.queue.extend(started);
        }
    }

    fn seen<T: 'static>(&self, id: &str) -> Option<String> {
        let fiber = self.loader.fiber_of(id)?;
        let ctx = self.kernel.ctx_of(fiber)?;
        let service = ctx.get(&self.kernel, &ServiceKey::of::<T>("service"))?;
        Some(self.values[service.0 as usize].clone())
    }
}

fn tree(json: &str) -> EntryTree {
    EntryTree::from_json_str(json).unwrap()
}

fn refused(json: &str) -> String {
    chain(&EntryTree::from_json_str(json).unwrap_err())
}

/// An error with its cause behind it.
fn chain(error: &LoadError) -> String {
    match error.cause() {
        Some(cause) => format!("{}: {cause}", error.to_string()),
        None => error.to_string(),
    }
}

fn ids(tree: &EntryTree) -> Vec<&str> {
    tree.entries().iter().map(|row| row.id.as_str()).collect()
}

#[test]
fn mount_registers_one_fiber_per_enabled_entry() {
    let mut host = Host::new();

    let mounted = host
        .mount(&tree(
            r#"[
        { "id": "a", "plugin": "tagged", "config": { "tag": "mount/a" } },
        { "id": "off", "plugin": "tagged", "config": { "tag": "mount/off" }, "disabled": true }
    ]"#,
        ))
        .unwrap();

    assert_eq!(mounted, vec!["a".to_owned()]);

    host.settle();

    assert_eq!(host.count("mount/a"), 1);
    assert_eq!(host.count("mount/off"), 0, "disabled entries mount no fiber");
    assert_eq!(host.seen::<TaggedService>("a"), Some("mount/a".to_owned()));
}

#[test]
fn reconcile_touches_only_changed_entries() {
    let mut host = Host::new();
    let both = r#"[
        { "id": "a", "plugin": "tagged", "config": { "tag": "recon/a" } },
        { "id": "b", "plugin": "tagged", "config": { "tag": "recon/b" } }
    ]"#;
    host.mount(&tree(both)).unwrap();
    host.settle();
    let fiber_b = host.loader.fiber_of("b");

    // Same tree: everything kept, nothing rebuilt.
    let report = host.reconcile(&tree(both)).unwrap();
    host.settle();

    assert_eq!(
        (report.created.len(), report.updated.len(), report.removed.len()),
        (0, 0, 0)
    );
    assert_eq!(report.kept, 2);
    assert_eq!(host.count("recon/a"), 1);
    assert_eq!(host.count("recon/b"), 1);
    assert_eq!(host.loader.fiber_of("b"), fiber_b);

    // Change a's config, drop b, add c: only a and c rebuild; b disposes.
    let report = host
        .reconcile(&tree(
            r#"[
        { "id": "a", "plugin": "tagged", "config": { "tag": "recon/a2" } },
        { "id": "c", "plugin": "tagged", "config": { "tag": "recon/c" } }
    ]"#,
        ))
        .unwrap();

    assert_eq!(report.updated, vec!["a".to_owned()]);
    assert_eq!(report.created, vec!["c".to_owned()]);
    assert_eq!(report.removed, vec!["b".to_owned()]);
    assert_eq!(report.kept, 0);
    host.settle();
    assert_eq!(host.count("recon/a2"), 1, "the new config built a fresh instance");
    assert_eq!(
        host.count("recon/b"),
        1,
        "the removed entry ran its apply exactly once"
    );
    assert!(host.loader.fiber_of("b").is_none());
    assert_eq!(
        host.loader.mounted_ids(),
        vec!["a".to_owned(), "c".to_owned()]
    );
}

#[test]
fn disabling_an_entry_removes_it_and_enabling_restores_it() {
    let mut host = Host::new();
    let on = r#"[{ "id": "a", "plugin": "tagged", "config": { "tag": "dis/a" } }]"#;
    host.mount(&tree(on)).unwrap();
    host.settle();

    host.reconcile(&tree(
        r#"[{ "id": "a", "plugin": "tagged", "config": { "tag": "dis/a" }, "disabled": true }]"#,
    ))
    .unwrap();
    host.settle();

    assert!(host.loader.fiber_of("a").is_none());
    assert_eq!(host.count("dis/a"), 1, "disposal, not re-apply");

    host.reconcile(&tree(on)).unwrap();
    host.settle();
    assert_eq!(host.count("dis/a"), 2, "re-enabling rebuilds the instance");
}

#[test]
fn dependents_start_reactively_and_follow_the_dependency() {
    let mut host = Host::new();

    // The dependent is declared first; its dependency comes later in the file.
    host.mount(&tree(
        r#"[
        { "id": "watcher", "plugin": "dependent", "config": {} },
        { "id": "b", "plugin": "tagged", "config": { "tag": "react/b" } }
    ]"#,
    ))
    .unwrap();
    host.settle();

    assert_eq!(
        host.seen::<DependentSaw>("watcher"),
        Some("react/b".to_owned()),
        "reactive injection started the dependent after its dependency"
    );

    // Swapping the dependency's config revokes the old service, which
    // disconnects the dependent; it must re-register against the new one.
    let report = host
        .reconcile(&tree(
            r#"[
        { "id": "watcher", "plugin": "dependent", "config": {} },
        { "id": "b", "plugin": "tagged", "config": { "tag": "react/b2" } }
    ]"#,
        ))
        .unwrap();
    host.settle();

    assert_eq!(report.restarted, vec!["watcher".to_owned()]);
    assert_eq!(report.kept, 1);
    assert_eq!(
        host.seen::<DependentSaw>("watcher"),
        Some("react/b2".to_owned()),
        "the dependent re-registered against the replacement service"
    );
}

#[test]
fn invalid_trees_are_rejected_without_touching_the_mounted_set() {
    let mut host = Host::new();
    host.mount(&tree(
        r#"[{ "id": "a", "plugin": "tagged", "config": { "tag": "inv/a" } }]"#,
    ))
    .unwrap();
    host.settle();
    assert_eq!(host.count("inv/a"), 1);
    let fiber = host.loader.fiber_of("a");

    // Unknown kind.
    let error = host
        .reconcile(&tree(r#"[{ "id": "x", "plugin": "ghost", "config": {} }]"#))
        .unwrap_err();
    assert_eq!(chain(&error), "entry \"x\" is invalid: unknown kind \"ghost\"");

    // Config that does not fit the kind (missing `tag`).
    let error = host
        .reconcile(&tree(r#"[{ "id": "x", "plugin": "tagged", "config": {} }]"#))
        .unwrap_err();
    assert_eq!(
        chain(&error),
        "entry \"x\" is invalid: invalid config for kind \"tagged\": missing field `tag`"
    );

    // Duplicate ids in one tree.
    assert!(EntryTree::from_json_str(
        r#"[
        { "id": "x", "plugin": "tagged", "config": { "tag": "1" } },
        { "id": "x", "plugin": "tagged", "config": { "tag": "2" } }
    ]"#,
    )
    .is_err());

    // A non-array document.
    assert!(EntryTree::from_json_str(r#"{"entries": []}"#).is_err());

    host.settle();
    assert_eq!(
        host.count("inv/a"),
        1,
        "every rejected reconcile left the running entry alone"
    );
    assert_eq!(host.loader.fiber_of("a"), fiber);
    assert_eq!(host.kernel.state(fiber.unwrap()), Some(State::Ready));
}

#[test]
fn duplicate_kind_names_are_rejected() {
    let mut loader = Loader::new();
    loader
        .register_entry_kind(entry_kind("dup/tagged".to_owned(), Json::Null))
        .unwrap();
    let error = loader
        .register_entry_kind(entry_kind("dup/tagged".to_owned(), Json::Null))
        .unwrap_err();
    assert_eq!(
        chain(&error),
        "entry kind \"dup/tagged\" is already registered"
    );
    assert_eq!(loader.kind_names(), vec!["dup/tagged".to_owned()]);
}

#[test]
fn mounting_twice_requires_reconcile() {
    let mut host = Host::new();
    let one = tree(r#"[{ "id": "a", "plugin": "tagged", "config": { "tag": "twice/a" } }]"#);
    host.mount(&one).unwrap();

    let two = tree(r#"[{ "id": "b", "plugin": "tagged", "config": { "tag": "twice/b" } }]"#);
    let error = host.mount(&two).unwrap_err();
    assert_eq!(
        chain(&error),
        "the loader already has entries mounted; use reconcile"
    );
    assert_eq!(host.loader.mounted_ids(), vec!["a".to_owned()]);
}

#[test]
fn an_entry_that_cannot_be_built_stops_the_pass() {
    let mut host = Host::new();
    host.mount(&tree(
        r#"[{ "id": "a", "plugin": "tagged", "config": { "tag": "build/a" } }]"#,
    ))
    .unwrap();
    host.settle();

    let next = tree(r#"[{ "id": "b", "plugin": "tagged", "config": { "tag": "build/b" } }]"#);
    let gone = host.loader.fiber_of("a").unwrap();
    let setback = host
        .loader
        .reconcile(&mut host.kernel, &next, &vec![None], vec![Err("boom".to_owned())])
        .err()
        .expect("the entry cannot be built");
    assert_eq!(chain(&setback.error), "entry \"b\" failed to build: boom");
    assert_eq!(setback.steps.last(), Some(&Step::Settled(gone, State::Disposed)));
    assert!(host.loader.is_empty(), "what went is gone, and nothing was mounted");
}

#[test]
fn failed_entries_are_never_restarted() {
    let mut host = Host::new();
    let on = r#"[{ "id": "a", "plugin": "tagged", "config": { "tag": "fail/a" } }]"#;
    host.mount(&tree(on)).unwrap();
    let fiber = host.loader.fiber_of("a").unwrap();
    host.queue.clear();
    let _ = host.kernel.dispose_fiber(fiber, State::Failed);

    let report = host.reconcile(&tree(on)).unwrap();
    assert_eq!(report.kept, 1);
    assert!(report.restarted.is_empty());
    assert_eq!(host.kernel.state(fiber), Some(State::Failed));
}

// ---- plans ----

#[test]
fn plans_go_through_all_ids_in_order() {
    let mut host = Host::new();
    host.mount(&tree(
        r#"[
        { "id": "b", "plugin": "tagged", "config": { "tag": "b" } },
        { "id": "d", "plugin": "tagged", "config": { "tag": "d" } },
        { "id": "e", "plugin": "tagged", "config": { "tag": "e" } }
    ]"#,
    ))
    .unwrap();
    let (kept, actions) = host.loader.plan(&tree(
        r#"[
        { "id": "e", "plugin": "tagged", "config": { "tag": "changed" } },
        { "id": "d", "plugin": "tagged", "config": { "tag": "d" } },
        { "id": "c", "plugin": "tagged", "disabled": true },
        { "id": "a", "plugin": "tagged", "config": { "tag": "a" } }
    ]"#,
    ));
    let planned: Vec<&str> = actions.iter().map(|(id, _)| id.as_str()).collect();
    assert_eq!(planned, vec!["a", "b", "c", "d", "e"]);
    assert!(matches!(actions[0].1, Action::Create(_)));
    assert!(matches!(actions[1].1, Action::Remove(_)));
    assert!(matches!(actions[2].1, Action::Keep), "an unmountable row counts as kept");
    assert!(matches!(actions[3].1, Action::Keep));
    assert!(matches!(actions[4].1, Action::Replace(_, _)));
    assert_eq!(kept, 2);
}

#[test]
fn a_zero_with_a_sign_is_no_change() {
    let mut host = Host::new();
    host.mount(&tree(
        r#"[{ "id": "a", "plugin": "tagged", "config": { "tag": "t", "x": -0.0 } }]"#,
    ))
    .unwrap();
    let (kept, _) = host.loader.plan(&tree(
        r#"[{ "id": "a", "plugin": "tagged", "config": { "x": 0.0, "tag": "t" } }]"#,
    ));
    assert_eq!(kept, 1, "the order of fields does not matter either");
    let (kept, _) = host.loader.plan(&tree(
        r#"[{ "id": "a", "plugin": "tagged", "config": { "x": 0, "tag": "t" } }]"#,
    ));
    assert_eq!(kept, 0, "an integer is not a fraction");
}

// ---- trees ----

#[test]
fn groups_cascade_their_disabled_flag() {
    let rows = tree(
        r#"[
        { "id": "leaf", "plugin": "tagged", "parent": "inner" },
        { "id": "inner", "parent": "outer" },
        { "id": "outer", "disabled": true },
        { "id": "free", "plugin": "tagged" }
    ]"#,
    );
    assert_eq!(ids(&rows), vec!["free", "inner", "leaf", "outer"]);
    assert!(!rows.effectively_enabled("leaf"), "one flag retires the subtree");
    assert!(rows.effectively_enabled("free"));
    assert!(!rows.effectively_enabled("outer"));
    assert!(!rows.effectively_enabled("missing"));

    let rows = tree(
        r#"[
        { "id": "leaf", "plugin": "tagged", "parent": "inner" },
        { "id": "inner", "parent": "outer" },
        { "id": "outer" }
    ]"#,
    );
    assert!(rows.effectively_enabled("leaf"));
    assert!(!rows.effectively_enabled("inner"), "groups are not mounted");
    assert!(rows.get("inner").unwrap().is_group());
    assert!(rows.get("inner").unwrap().enabled());
}

#[test]
fn malformed_documents_are_refused_with_their_reason() {
    assert_eq!(
        refused("[{]"),
        "invalid entry tree document: key must be a string at line 1 column 3"
    );
    assert_eq!(refused("{}"), "an entry tree is an array of entry rows");
    for (rows, reason) in [
        ("[1]", "invalid type: integer `1`, expected struct EntrySpec"),
        ("[null]", "invalid type: null, expected struct EntrySpec"),
        (r#"[{ "plugin": "p" }]"#, "missing field `id`"),
        (r#"[{ "id": 1.5 }]"#, "invalid type: floating point `1.5`, expected a string"),
        (r#"[{ "id": null }]"#, "invalid type: null, expected a string"),
        (r#"[{ "id": {} }]"#, "invalid type: map, expected a string"),
        (r#"[{ "id": "a", "plugin": [] }]"#, "invalid type: sequence, expected a string"),
        (r#"[{ "id": "a", "parent": true }]"#, "invalid type: boolean `true`, expected a string"),
        (
            r#"[{ "id": "a", "disabled": "y\"es\n" }]"#,
            r#"invalid type: string "y\"es\n", expected a boolean"#,
        ),
        (r#"[{ "id": 1, "disabled": 2 }]"#, "invalid type: integer `2`, expected a boolean"),
        ("[[]]", "invalid length 0, expected struct EntrySpec with 5 elements"),
        (
            r#"[["a", "p", null, null, false, 6]]"#,
            "invalid length 6, expected fewer elements in array",
        ),
    ] {
        assert_eq!(refused(rows), format!("invalid entry row: {reason}"));
    }
    assert_eq!(refused(r#"[{ "id": "" }]"#), "entry ids must be non-empty");
    assert_eq!(
        refused(r#"[{ "id": "g", "config": {} }]"#),
        "group \"g\" must not carry a config"
    );
    assert_eq!(
        refused(r#"[{ "id": "a" }, { "id": "a" }]"#),
        "duplicate entry id \"a\""
    );
    assert_eq!(
        refused(r#"[{ "id": "a", "parent": "nowhere" }]"#),
        "entry \"a\" references unknown parent \"nowhere\""
    );
    assert_eq!(
        refused(r#"[{ "id": "a", "parent": "b" }, { "id": "b", "plugin": "p" }]"#),
        "entry \"a\" declares \"b\" as parent, but only groups can parent"
    );
    assert_eq!(
        refused(r#"[{ "id": "a", "parent": "b" }, { "id": "b", "parent": "a" }]"#),
        "entry \"a\" sits on a parent cycle"
    );
}

fn layer(json: &str) -> Json {
    chorda::read_json(json).unwrap()
}

#[test]
fn later_layers_win_row_by_row() {
    let rows = EntryTree::compose(&vec![
        layer(r#"[{ "id": "a", "plugin": "p", "config": { "x": 1 } }, { "id": "b", "plugin": "p" }]"#),
        layer(r#"[{ "id": "a", "plugin": "q" }]"#),
        layer(r#"[{ "id": "b", "plugin": "p", "disabled": true }, { "id": "c", "plugin": "r" }]"#),
    ])
    .unwrap();
    assert_eq!(ids(&rows), vec!["a", "b", "c"]);
    let a = rows.get("a").unwrap();
    assert_eq!(a.plugin.as_deref(), Some("q"));
    assert!(a.config.is_none(), "there is no field-level merge");
    assert!(!rows.effectively_enabled("b"));

    let error = EntryTree::compose(&vec![layer("[]"), layer("{}")]).unwrap_err();
    assert_eq!(
        chain(&error),
        "an entry layer must be an array of entry rows"
    );
    assert!(EntryTree::compose(&Vec::new()).unwrap().entries().is_empty());
}

#[test]
fn trees_are_written_in_id_order_and_read_back() {
    let rows = tree(
        r#"[{"disabled":false,"id":"b","plugin":"p","config":{"z":[1,2.5,"x\n",null,true],"a":{}}},{"id":"a"}]"#,
    );
    let text = rows.to_json_str().unwrap();
    assert_eq!(
        text,
        r#"[
  {
    "id": "a"
  },
  {
    "id": "b",
    "plugin": "p",
    "config": {
      "a": {},
      "z": [
        1,
        2.5,
        "x\n",
        null,
        true
      ]
    },
    "disabled": false
  }
]"#
    );
    let again = tree(&text);
    assert_eq!(ids(&again), ids(&rows));
    assert!(again.get("b").unwrap().same(rows.get("b").unwrap()));
    assert_eq!(again.to_json_str().unwrap(), text);
}

#[test]
fn absent_and_null_fields_are_the_same() {
    let rows = tree(r#"[{ "id": "a", "plugin": "p", "config": null, "parent": null }]"#);
    let a = rows.get("a").unwrap();
    assert!(a.config.is_none());
    assert!(a.parent.is_none());
    assert!(a.enabled());
}

#[test]
fn entries_without_a_config_build_from_an_empty_object() {
    let host = Host::new();
    let rows = tree(r#"[{ "id": "a", "plugin": "dependent" }]"#);
    let (kind, config) = host.loader.build_entry(rows.get("a").unwrap()).unwrap();
    assert_eq!(kind.name(), "dependent");
    assert!(config.same(&Json::Object(Object::new())));
    assert!(kind.schema().same(&Json::Null));
}

#[test]
fn building_from_an_unknown_kind_is_an_error() {
    let host = Host::new();
    let rows = tree(r#"[{ "id": "a", "plugin": "missing" }]"#);
    let error = host.loader.build_entry(rows.get("a").unwrap()).unwrap_err();
    assert!(matches!(error, LoadError::UsesUnknownKind(_, _)));
    assert_eq!(chain(&error), "entry \"a\" uses unknown kind \"missing\"");
}

#[test]
fn the_order_of_fields_does_not_matter() {
    let mut row = Object::new();
    row.insert("plugin".to_owned(), Json::String("p".to_owned()));
    row.insert("id".to_owned(), Json::String("a".to_owned()));
    let value = Json::Array(vec![Json::Object(row)]);
    let expected = tree(r#"[{ "id": "a", "plugin": "p" }]"#);
    let read = EntryTree::from_value(&value).unwrap();
    assert!(read.get("a").unwrap() == expected.get("a").unwrap());
    let composed = EntryTree::compose(&vec![value.clone(), value]).unwrap();
    assert!(composed.get("a").unwrap() == expected.get("a").unwrap());
    assert_eq!(ids(&composed), ids(&expected));
}

#[test]
fn clones_say_the_same_and_defaults_are_empty() {
    let rows = tree(r#"[{ "id": "a", "plugin": "p", "config": { "n": [1, null] } }]"#);
    let again = rows.clone();
    assert_eq!(ids(&again), ids(&rows));
    assert!(again.get("a").unwrap().clone() == *rows.get("a").unwrap());
    assert!(EntryTree::default().entries().is_empty());
    assert!(EntryKinds::default().names().is_empty());
    let nothing = LoaderReport::default();
    assert_eq!(nothing.kept, 0);
    assert_eq!(nothing.clone(), nothing);
    let kind = entry_kind("k".to_owned(), Json::Bool(true));
    assert_eq!(kind.clone().name(), "k");
    assert!(*kind.clone().schema() == Json::Bool(true));
    assert!(*kind.schema() != Json::Null);
}

#[test]
fn trees_that_were_read_can_be_written_and_read_again() {
    let deep = format!("{}{}", "[".repeat(125), "]".repeat(125));
    let rows = tree(&format!(r#"[{{ "id": "a", "plugin": "p", "config": {deep} }}]"#));
    let again = tree(&rows.to_json_str().unwrap());
    assert!(again.get("a").unwrap() == rows.get("a").unwrap());
    let deeper = format!(r#"[{{ "id": "a", "plugin": "p", "config": [{deep}] }}]"#);
    assert!(refused(&deeper).starts_with("invalid entry tree document: recursion limit exceeded"));
}

#[test]
fn errors_render_without_their_cause() {
    let error = EntryTree::from_json_str("[1]").unwrap_err();
    assert_eq!(error.to_string(), "invalid entry row");
    assert_eq!(
        error.cause().unwrap(),
        "invalid type: integer `1`, expected struct EntrySpec"
    );
    let error = EntryTree::from_json_str("").unwrap_err();
    assert_eq!(error.to_string(), "invalid entry tree document");
    assert_eq!(
        error.cause().unwrap(),
        "EOF while parsing a value at line 1 column 0"
    );
    let error = EntryTree::from_json_str("{}").unwrap_err();
    assert!(error.cause().is_none());

    let mut host = Host::new();
    let error = host.mount(&tree(r#"[{ "id": "x", "plugin": "ghost" }]"#)).unwrap_err();
    assert_eq!(error.to_string(), "entry \"x\" is invalid");
    assert_eq!(error.cause().unwrap(), "unknown kind \"ghost\"");
    let error = host.mount(&tree(r#"[{ "id": "x", "plugin": "tagged" }]"#)).unwrap_err();
    assert_eq!(error.to_string(), "entry \"x\" is invalid");
    assert_eq!(
        error.cause().unwrap(),
        "invalid config for kind \"tagged\": missing field `tag`"
    );
    let error = LoadError::BuildFailed("x".to_owned(), "boom".to_owned());
    assert_eq!(error.to_string(), "entry \"x\" failed to build");
    assert_eq!(error.cause().unwrap(), "boom");
}
