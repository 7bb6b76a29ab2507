//! The loader: config-driven mounting of entries, reconciled against the
//! running kernel.
//!
//! A plugin *kind* is a compiled-in constructor from a config value; an
//! *entry* is one configured instance of a kind with a stable id. The loader
//! registers a fiber per enabled entry and diffs a new tree against the
//! mounted one: entries absent from the new tree are disposed, changed
//! entries are disposed and registered again, and untouched entries keep
//! running. Checking a config against a kind and building a plugin from it
//! are the host's; the loader takes what came of it.

use crate::context::{Ctx, RealmId};
use crate::entries::{EntrySpec, EntryView, LoadError, LoadErrorView, same_entry};
use crate::fiber::{FiberId, State};
use crate::json::{Json, JsonView, Object, lemma_value_view};
use crate::kernel::Kernel;
use crate::model::{KernelView, Step, satisfied_ids, start_all, started, with_plugins};
use crate::plugin::{FnPlugin, PluginView};
use crate::shelf::{
    Shelf, found, in_line, keys_of, lemma_shelved, lemma_unshelved, shelved, unshelved,
};
use crate::text::{insert_sorted, inserted, lemma_texts_push, precedes, texts_view};
use crate::tree::{EntryTree, mountable, position, row_views};
use vstd::prelude::*;

verus! {

/// One compiled-in plugin kind: a name, and the JSON schema of its config.
#[derive(Debug)]
pub struct EntryKind {
    name: String,
    schema: Json,
}

impl EntryKind {
    /// The kind's name.
    pub closed spec fn spec_name(&self) -> Seq<char> {
        self.name@
    }

    /// The schema of the kind's config.
    pub closed spec fn spec_schema(&self) -> JsonView {
        self.schema@
    }

    /// The kind's registered name.
    pub fn name(&self) -> (r: &String)
        ensures
            r@ == self.spec_name(),
    {
        &self.name
    }

    /// The JSON schema of this kind's config.
    pub fn schema(&self) -> (r: &Json)
        ensures
            r@ == self.spec_schema(),
    {
        &self.schema
    }
}

/// Creates an entry kind.
pub fn entry_kind(name: String, schema: Json) -> (r: EntryKind)
    ensures
        r.spec_name() == name@,
        r.spec_schema() == schema@,
{
    EntryKind { name, schema }
}

impl Clone for EntryKind {
    fn clone(&self) -> (r: Self)
        ensures
            r.spec_name() == self.spec_name(),
            r.spec_schema() == self.spec_schema(),
    {
        EntryKind { name: self.name.clone(), schema: self.schema.copy() }
    }
}

/// The registry of compiled-in plugin kinds a [`Loader`] mounts from.
pub struct EntryKinds {
    kinds: Shelf<EntryKind>,
}

impl View for EntryKinds {
    type V = Seq<(Seq<char>, EntryKind)>;

    closed spec fn view(&self) -> Seq<(Seq<char>, EntryKind)> {
        self.kinds@
    }
}

impl EntryKinds {
    /// The kinds are in the order of their names.
    pub open spec fn wf(&self) -> bool {
        in_line(self@)
    }

    /// A registry without kinds.
    pub fn new() -> (r: Self)
        ensures
            r.wf(),
            r@ == Seq::<(Seq<char>, EntryKind)>::empty(),
    {
        EntryKinds { kinds: Shelf::new() }
    }

    /// Registers a kind. A duplicate kind name is an error.
    pub fn register(&mut self, kind: EntryKind) -> (r: Result<(), LoadError>)
        requires
            old(self).wf(),
        ensures
            final(self).wf(),
            match r {
                Ok(()) => {
                    &&& found(old(self)@, kind.spec_name()) is None
                    &&& final(self)@ == shelved(old(self)@, kind.spec_name(), kind)
                },
                Err(error) => {
                    &&& found(old(self)@, kind.spec_name()) is Some
                    &&& final(self)@ == old(self)@
                    &&& error@ == LoadErrorView::DuplicateKind(kind.spec_name())
                },
            },
    {
        if self.kinds.get(kind.name.as_str()).is_some() {
            return Err(LoadError::DuplicateKind(kind.name));
        }
        let name = kind.name.clone();
        self.kinds.insert(name, kind);
        Ok(())
    }

    /// The kind of a name.
    pub fn get(&self, name: &str) -> (r: Option<&EntryKind>)
        ensures
            match r {
                Some(kind) => found(self@, name@) == Some(*kind),
                None => found(self@, name@) is None,
            },
    {
        self.kinds.get(name)
    }

    /// The registered kind names, sorted.
    pub fn names(&self) -> (r: Vec<String>)
        ensures
            texts_view(r@) == keys_of(self@),
    {
        self.kinds.keys()
    }
}

impl Default for EntryKinds {
    fn default() -> (r: Self)
        ensures
            r.wf(),
            r@ == Seq::<(Seq<char>, EntryKind)>::empty(),
    {
        EntryKinds::new()
    }
}

/// What one [`Loader::reconcile`] pass did.
#[derive(Debug, Clone, PartialEq, Eq)]
pub struct LoaderReport {
    /// Entries whose fibers were created.
    pub created: Vec<String>,
    /// Entries disposed and registered again because their options changed.
    pub updated: Vec<String>,
    /// Entries disposed because they disappeared from the new tree (or were
    /// disabled).
    pub removed: Vec<String>,
    /// Kept entries whose fiber was disposed as a side effect of the pass and
    /// were therefore registered again. Fibers that failed on their own are
    /// never restarted.
    pub restarted: Vec<String>,
    /// Entries left untouched.
    pub kept: usize,
}

/// What a report says.
#[verifier::ext_equal]
pub struct ReportView {
    pub created: Seq<Seq<char>>,
    pub updated: Seq<Seq<char>>,
    pub removed: Seq<Seq<char>>,
    pub restarted: Seq<Seq<char>>,
    pub kept: nat,
}

impl View for LoaderReport {
    type V = ReportView;

    open spec fn view(&self) -> ReportView {
        ReportView {
            created: texts_view(self.created@),
            updated: texts_view(self.updated@),
            removed: texts_view(self.removed@),
            restarted: texts_view(self.restarted@),
            kept: self.kept as nat,
        }
    }
}

/// The report of a pass that did nothing.
pub open spec fn nothing_done() -> ReportView {
    ReportView {
        created: Seq::empty(),
        updated: Seq::empty(),
        removed: Seq::empty(),
        restarted: Seq::empty(),
        kept: 0,
    }
}

impl Default for LoaderReport {
    fn default() -> (r: Self)
        ensures
            r@ == nothing_done(),
    {
        let r = LoaderReport {
            created: Vec::new(),
            updated: Vec::new(),
            removed: Vec::new(),
            restarted: Vec::new(),
            kept: 0,
        };
        assert(r@ =~= nothing_done());
        r
    }
}

/// One mounted entry: its options and its fiber.
#[derive(Debug)]
pub struct Mounted {
    pub options: EntrySpec,
    pub fiber: FiberId,
}

/// What a mounted entry is.
#[verifier::ext_equal]
pub struct MountedView {
    pub options: EntryView,
    pub fiber: FiberId,
}

impl View for Mounted {
    type V = MountedView;

    open spec fn view(&self) -> MountedView {
        MountedView { options: self.options@, fiber: self.fiber }
    }
}

/// The mounted entries, by id.
pub type MountedRows = Seq<(Seq<char>, MountedView)>;

/// What each of the mounted entries is.
pub open spec fn mounted_views(rows: Seq<(Seq<char>, Mounted)>) -> MountedRows {
    rows.map_values(|row: (Seq<char>, Mounted)| (row.0, row.1@))
}

/// Looking an entry up and seeing what it is go together.
proof fn lemma_found_view(rows: Seq<(Seq<char>, Mounted)>, id: Seq<char>)
    ensures
        found(mounted_views(rows), id) == (match found(rows, id) {
            Some(m) => Some(m@),
            None => None,
        }),
    decreases rows.len(),
{
    if rows.len() > 0 {
        lemma_found_view(rows.drop_last(), id);
        assert(mounted_views(rows).drop_last() =~= mounted_views(rows.drop_last()));
    }
}

proof fn lemma_shelved_view(rows: Seq<(Seq<char>, Mounted)>, id: Seq<char>, m: Mounted)
    ensures
        mounted_views(shelved(rows, id, m)) == shelved(mounted_views(rows), id, m@),
    decreases rows.len(),
{
    let views = mounted_views(rows);
    if rows.len() > 0 {
        lemma_shelved_view(rows.drop_last(), id, m);
        assert(views.drop_last() =~= mounted_views(rows.drop_last()));
        assert(views.last() == (rows.last().0, rows.last().1@));
    }
    assert(mounted_views(shelved(rows, id, m)) =~= shelved(views, id, m@));
}

proof fn lemma_unshelved_view(rows: Seq<(Seq<char>, Mounted)>, id: Seq<char>)
    ensures
        mounted_views(unshelved(rows, id)) == unshelved(mounted_views(rows), id),
    decreases rows.len(),
{
    let views = mounted_views(rows);
    if rows.len() > 0 {
        lemma_unshelved_view(rows.drop_last(), id);
        assert(views.drop_last() =~= mounted_views(rows.drop_last()));
        assert(views.last() == (rows.last().0, rows.last().1@));
    }
    assert(mounted_views(unshelved(rows, id)) =~= unshelved(views, id));
}

// ---- the plan ----

/// What the plan decided for one id.
#[derive(Debug)]
pub enum Action {
    /// Nothing is to be done.
    Keep,
    /// An entry is to be registered.
    Create(EntrySpec),
    /// The old fiber is to be disposed, and the entry registered again.
    Replace(EntrySpec, FiberId),
    /// The fiber is to be disposed.
    Remove(FiberId),
}

/// What an action is.
#[verifier::ext_equal]
pub enum ActionView {
    Keep,
    Create(EntryView),
    Replace(EntryView, FiberId),
    Remove(FiberId),
}

impl View for Action {
    type V = ActionView;

    open spec fn view(&self) -> ActionView {
        match self {
            Action::Keep => ActionView::Keep,
            Action::Create(row) => ActionView::Create(row@),
            Action::Replace(row, fiber) => ActionView::Replace(row@, *fiber),
            Action::Remove(fiber) => ActionView::Remove(*fiber),
        }
    }
}

/// The actions of a plan, by id.
pub type Actions = Seq<(Seq<char>, ActionView)>;

/// What each of the actions is.
pub open spec fn action_views(actions: Seq<(String, Action)>) -> Actions {
    actions.map_values(|a: (String, Action)| (a.0@, a.1@))
}

/// What one id needs: an entry that is mounted and says the same in the new
/// tree is kept; one that is mounted and may still be mounted is replaced;
/// anything else that is mounted goes. What is not mounted and may be is
/// created.
pub open spec fn decision(mounted: MountedRows, next: Seq<EntryView>, id: Seq<char>) -> ActionView {
    match (found(mounted, id), position(next, id)) {
        (Some(m), Some(i)) => if !mountable(next, id) {
            ActionView::Remove(m.fiber)
        } else if same_entry(m.options, next[i]) {
            ActionView::Keep
        } else {
            ActionView::Replace(next[i], m.fiber)
        },
        (Some(m), None) => ActionView::Remove(m.fiber),
        (None, Some(i)) => if mountable(next, id) {
            ActionView::Create(next[i])
        } else {
            ActionView::Keep
        },
        (None, None) => ActionView::Keep,
    }
}

/// The ids of the rows.
pub open spec fn row_ids(rows: Seq<EntryView>) -> Seq<Seq<char>> {
    rows.map_values(|row: EntryView| row.id)
}

/// The ids of the new tree and of what is mounted, in order, each once.
pub open spec fn all_ids(mounted: MountedRows, next: Seq<EntryView>) -> Seq<Seq<char>>
    decreases mounted.len(),
{
    if mounted.len() == 0 {
        row_ids(next)
    } else {
        let rest = all_ids(mounted.drop_last(), next);
        if position(next, mounted.last().0) is Some {
            rest
        } else {
            inserted(rest, mounted.last().0)
        }
    }
}

/// What is to be done to bring what is mounted in line with a tree.
pub open spec fn plan_of(mounted: MountedRows, next: Seq<EntryView>) -> Actions {
    all_ids(mounted, next).map_values(|id: Seq<char>| (id, decision(mounted, next, id)))
}

/// How many of the actions leave an entry alone.
pub open spec fn kept_in(actions: Actions) -> nat
    decreases actions.len(),
{
    if actions.len() == 0 {
        0
    } else {
        kept_in(actions.drop_last()) + (if actions.last().1 is Keep {
            1nat
        } else {
            0nat
        })
    }
}

/// The entries to register, in order, each with whether it was mounted
/// before.
pub open spec fn candidates(actions: Actions) -> Seq<(EntryView, bool)>
    decreases actions.len(),
{
    if actions.len() == 0 {
        Seq::empty()
    } else {
        let front = candidates(actions.drop_last());
        match actions.last().1 {
            ActionView::Create(row) => front.push((row, false)),
            ActionView::Replace(row, _) => front.push((row, true)),
            _ => front,
        }
    }
}

/// The fibers to dispose, in order.
pub open spec fn doomed(actions: Actions) -> Seq<FiberId>
    decreases actions.len(),
{
    if actions.len() == 0 {
        Seq::empty()
    } else {
        let front = doomed(actions.drop_last());
        match actions.last().1 {
            ActionView::Replace(_, fiber) => front.push(fiber),
            ActionView::Remove(fiber) => front.push(fiber),
            _ => front,
        }
    }
}

/// The ids that go, in order.
pub open spec fn removals(actions: Actions) -> Seq<Seq<char>>
    decreases actions.len(),
{
    if actions.len() == 0 {
        Seq::empty()
    } else {
        let front = removals(actions.drop_last());
        match actions.last().1 {
            ActionView::Remove(_) => front.push(actions.last().0),
            _ => front,
        }
    }
}

/// The entries of a fresh tree to register: those that may be mounted, in id
/// order.
pub open spec fn fresh_candidates(rows: Seq<EntryView>, n: nat) -> Seq<(EntryView, bool)>
    decreases n,
{
    if n == 0 {
        Seq::empty()
    } else {
        let front = fresh_candidates(rows, (n - 1) as nat);
        if mountable(rows, rows[n - 1].id) {
            front.push((rows[n - 1], false))
        } else {
            front
        }
    }
}

// ---- checking ----

/// What is wrong with the first of the entries with which something is: its
/// kind must be registered, and its config must have passed the check.
pub open spec fn verdict(
    kinds: Seq<(Seq<char>, EntryKind)>,
    entries: Seq<(EntryView, bool)>,
    checks: Seq<Option<String>>,
) -> Option<LoadErrorView>
    decreases entries.len(),
{
    if entries.len() == 0 {
        None
    } else {
        match verdict(kinds, entries.drop_last(), checks) {
            Some(error) => Some(error),
            None => entry_error(kinds, entries.last().0, checks[entries.len() - 1]),
        }
    }
}

/// The config to build an entry from: an empty object where it has none.
pub open spec fn config_for(row: EntryView) -> JsonView {
    match row.config {
        Some(value) => value,
        None => JsonView::Object(Seq::empty()),
    }
}

/// What is wrong with an entry, if anything is.
pub open spec fn entry_error(
    kinds: Seq<(Seq<char>, EntryKind)>,
    row: EntryView,
    check: Option<String>,
) -> Option<LoadErrorView> {
    let kind = row.plugin->0;
    if found(kinds, kind) is None {
        Some(LoadErrorView::UnknownKind(row.id, kind))
    } else {
        match check {
            Some(reason) => Some(LoadErrorView::InvalidConfig(row.id, reason@)),
            None => None,
        }
    }
}

/// Why the first of the entries that could not be built could not.
pub open spec fn build_error(
    entries: Seq<(EntryView, bool)>,
    built: Seq<Result<FnPlugin, String>>,
) -> Option<LoadErrorView>
    decreases built.len(),
{
    if built.len() == 0 {
        None
    } else {
        match build_error(entries, built.drop_last()) {
            Some(error) => Some(error),
            None => match built.last() {
                Ok(_) => None,
                Err(reason) => Some(
                    LoadErrorView::BuildFailed(entries[built.len() - 1].0.id, reason@),
                ),
            },
        }
    }
}

/// What the plugins that were built declare.
pub open spec fn built_views(built: Seq<Result<FnPlugin, String>>) -> Seq<PluginView> {
    built.map_values(|b: Result<FnPlugin, String>| b->Ok_0@)
}

// ---- what is mounted afterwards ----

/// What is mounted, without the given ids.
pub open spec fn without_ids(mounted: MountedRows, ids: Seq<Seq<char>>) -> MountedRows
    decreases ids.len(),
{
    if ids.len() == 0 {
        mounted
    } else {
        unshelved(without_ids(mounted, ids.drop_last()), ids.last())
    }
}

/// What is mounted, with the given entries on fibers numbered from `first`.
pub open spec fn with_entries(
    mounted: MountedRows,
    entries: Seq<(EntryView, bool)>,
    first: int,
) -> MountedRows
    decreases entries.len(),
{
    if entries.len() == 0 {
        mounted
    } else {
        shelved(
            with_entries(mounted, entries.drop_last(), first),
            entries.last().0.id,
            MountedView {
                options: entries.last().0,
                fiber: FiberId((first + entries.len() - 1) as u32),
            },
        )
    }
}

/// The ids of the entries that were, or were not, mounted before.
pub open spec fn ids_with(entries: Seq<(EntryView, bool)>, replaced: bool) -> Seq<Seq<char>>
    decreases entries.len(),
{
    if entries.len() == 0 {
        Seq::empty()
    } else {
        let front = ids_with(entries.drop_last(), replaced);
        if entries.last().1 == replaced {
            front.push(entries.last().0.id)
        } else {
            front
        }
    }
}

/// The root context.
pub open spec fn root_ctx() -> Ctx {
    Ctx { fiber: FiberId(0), realm: RealmId(0) }
}

/// Whether registering plugins as one batch on the root leads from `k` to
/// `k2` and starts these fibers.
pub open spec fn batched(
    k: KernelView,
    k2: KernelView,
    plugins: Seq<PluginView>,
    started: Seq<FiberId>,
) -> bool {
    let queued = with_plugins(k, root_ctx(), plugins);
    started == satisfied_ids(queued) && k2 == start_all(queued, started)
}

/// The entries whose fiber was disposed, in id order.
pub open spec fn dead(mounted: MountedRows, k: KernelView) -> Seq<(EntryView, bool)>
    decreases mounted.len(),
{
    if mounted.len() == 0 {
        Seq::empty()
    } else {
        let front = dead(mounted.drop_last(), k);
        let m = mounted.last().1;
        if m.fiber.0 < k.fibers.len() && k.fibers[m.fiber.0 as int].state is Disposed {
            front.push((m.options, false))
        } else {
            front
        }
    }
}

/// The runtime side of the loader: entry kinds, mounted fibers, and the
/// reconciliation that keeps the mounted set matching a tree.
///
/// Entries register through the kernel's root context, so every entry fiber
/// is a child of the root.
pub struct Loader {
    kinds: EntryKinds,
    mounted: Shelf<Mounted>,
}

/// What came of a pass.
pub struct Pass {
    pub report: LoaderReport,
    /// The steps of the disposals.
    pub steps: Vec<Step>,
    /// The fibers that started; their setups are to be run.
    pub started: Vec<FiberId>,
}

/// Why a pass was given up, and what it had disposed by then.
pub struct Setback {
    pub error: LoadError,
    /// The steps of the disposals.
    pub steps: Vec<Step>,
}

/// What each of the entries is.
pub open spec fn entry_pairs(entries: Seq<(EntrySpec, bool)>) -> Seq<(EntryView, bool)> {
    entries.map_values(|e: (EntrySpec, bool)| (e.0@, e.1))
}

/// Whether every entry names a kind.
pub open spec fn kinds_named(entries: Seq<(EntryView, bool)>) -> bool {
    forall|i: int| 0 <= i < entries.len() ==> (#[trigger] entries[i]).0.plugin is Some
}

impl Loader {
    /// The registered kinds.
    pub closed spec fn spec_kinds(&self) -> Seq<(Seq<char>, EntryKind)> {
        self.kinds@
    }

    /// The mounted entries, by id.
    pub closed spec fn spec_mounted(&self) -> MountedRows {
        mounted_views(self.mounted@)
    }

    /// Kinds and entries are in order, and each entry is under its own id and
    /// names a kind.
    pub open spec fn wf(&self) -> bool {
        &&& in_line(self.spec_kinds())
        &&& in_line(self.spec_mounted())
        &&& forall|i: int|
            #![trigger self.spec_mounted()[i]]
            0 <= i < self.spec_mounted().len() ==> self.spec_mounted()[i].1.options.id
                == self.spec_mounted()[i].0 && self.spec_mounted()[i].1.options.plugin is Some
    }

    /// A loader without kinds and with nothing mounted.
    pub fn new() -> (r: Self)
        ensures
            r.wf(),
            r.spec_kinds() == Seq::<(Seq<char>, EntryKind)>::empty(),
            r.spec_mounted() == Seq::<(Seq<char>, MountedView)>::empty(),
    {
        let r = Loader { kinds: EntryKinds::new(), mounted: Shelf::new() };
        assert(r.spec_mounted() =~= Seq::<(Seq<char>, MountedView)>::empty());
        r
    }

    /// Registers a plugin kind this loader can mount. A duplicate kind name
    /// is an error.
    pub fn register_entry_kind(&mut self, kind: EntryKind) -> (r: Result<(), LoadError>)
        requires
            old(self).wf(),
        ensures
            final(self).wf(),
            final(self).spec_mounted() == old(self).spec_mounted(),
            match r {
                Ok(()) => {
                    &&& found(old(self).spec_kinds(), kind.spec_name()) is None
                    &&& final(self).spec_kinds() == shelved(
                        old(self).spec_kinds(),
                        kind.spec_name(),
                        kind,
                    )
                },
                Err(error) => {
                    &&& found(old(self).spec_kinds(), kind.spec_name()) is Some
                    &&& final(self).spec_kinds() == old(self).spec_kinds()
                    &&& error@ == LoadErrorView::DuplicateKind(kind.spec_name())
                },
            },
    {
        self.kinds.register(kind)
    }

    /// The registered kind names, sorted.
    pub fn kind_names(&self) -> (r: Vec<String>)
        ensures
            texts_view(r@) == keys_of(self.spec_kinds()),
    {
        self.kinds.names()
    }

    /// The ids of currently mounted entries, in id order.
    pub fn mounted_ids(&self) -> (r: Vec<String>)
        ensures
            texts_view(r@) == keys_of(self.spec_mounted()),
    {
        let r = self.mounted.keys();
        assert(keys_of(self.spec_mounted()) =~= keys_of(self.mounted@));
        r
    }

    /// The fiber of one mounted entry.
    pub fn fiber_of(&self, id: &str) -> (r: Option<FiberId>)
        ensures
            r == (match found(self.spec_mounted(), id@) {
                Some(m) => Some(m.fiber),
                None => None,
            }),
    {
        proof {
            lemma_found_view(self.mounted@, id@);
        }
        match self.mounted.get(id) {
            Some(m) => Some(m.fiber),
            None => None,
        }
    }

    /// The entries whose fiber was disposed, in id order. They are to be
    /// built again.
    pub fn dead_entries(&self, kernel: &Kernel) -> (r: Vec<(EntrySpec, bool)>)
        requires
            kernel.wf(),
        ensures
            entry_pairs(r@) == dead(self.spec_mounted(), kernel@),
    {
        let ghost all = self.spec_mounted();
        let mut out: Vec<(EntrySpec, bool)> = Vec::new();
        let mut i: usize = 0;
        assert(entry_pairs(out@) =~= dead(all.take(0), kernel@));
        while i < self.mounted.len()
            invariant
                kernel.wf(),
                all == self.spec_mounted(),
                all.len() == self.mounted@.len(),
                i <= self.mounted@.len(),
                entry_pairs(out@) == dead(all.take(i as int), kernel@),
            decreases self.mounted@.len() - i,
        {
            let m = self.mounted.at(i);
            let ghost done = out@;
            assert(all.take(i + 1).drop_last() =~= all.take(i as int));
            assert(all.take(i + 1).last().1 == m@);
            let gone = match kernel.state(m.fiber) {
                Some(State::Disposed) => true,
                _ => false,
            };
            if gone {
                out.push((m.options.copy(), false));
                assert(entry_pairs(out@) =~= entry_pairs(done).push((m@.options, false)));
            }
            i = i + 1;
        }
        assert(all.take(i as int) =~= all);
        out
    }

    /// Whether nothing is mounted.
    pub fn is_empty(&self) -> (r: bool)
        ensures
            r == (self.spec_mounted().len() == 0),
    {
        self.mounted.len() == 0
    }

    /// The ids of the new tree and of what is mounted, in order.
    fn merged_ids(&self, next: &EntryTree) -> (r: Vec<String>)
        requires
            next.wf(),
        ensures
            texts_view(r@) == all_ids(self.spec_mounted(), next@),
    {
        let entries = next.entries();
        let ghost ids = row_ids(next@);
        let mut out: Vec<String> = Vec::new();
        let mut i: usize = 0;
        while i < entries.len()
            invariant
                next@ == row_views(entries@),
                ids == row_ids(next@),
                i <= entries@.len(),
                texts_view(out@) == ids.take(i as int),
            decreases entries@.len() - i,
        {
            let id = entries[i].id.clone();
            proof {
                lemma_texts_push(out@, id);
                assert(ids[i as int] == id@);
            }
            out.push(id);
            assert(texts_view(out@) =~= ids.take(i + 1));
            i = i + 1;
        }
        assert(ids.take(i as int) =~= ids);
        let ghost mounted = self.spec_mounted();
        let mut n: usize = 0;
        assert(mounted.take(0) =~= Seq::<(Seq<char>, MountedView)>::empty());
        while n < self.mounted.len()
            invariant
                next.wf(),
                mounted == self.spec_mounted(),
                mounted.len() == self.mounted@.len(),
                n <= self.mounted@.len(),
                texts_view(out@) == all_ids(mounted.take(n as int), next@),
            decreases self.mounted@.len() - n,
        {
            let id = self.mounted.key_at(n);
            assert(mounted.take(n + 1).drop_last() =~= mounted.take(n as int));
            assert(mounted.take(n + 1).last().0 == id@);
            if next.get(id.as_str()).is_none() {
                insert_sorted(&mut out, id.clone());
            }
            n = n + 1;
        }
        assert(mounted.take(n as int) =~= mounted);
        out
    }

    /// What one id needs.
    fn decide(&self, next: &EntryTree, id: &String) -> (r: Action)
        requires
            next.wf(),
        ensures
            r@ == decision(self.spec_mounted(), next@, id@),
    {
        proof {
            lemma_found_view(self.mounted@, id@);
        }
        let target = next.get(id.as_str());
        let current = self.mounted.get(id.as_str());
        let may_mount = next.effectively_enabled(id.as_str());
        match (current, target) {
            (Some(m), Some(row)) => if !may_mount {
                Action::Remove(m.fiber)
            } else if m.options.same(row) {
                Action::Keep
            } else {
                Action::Replace(row.copy(), m.fiber)
            },
            (Some(m), None) => Action::Remove(m.fiber),
            (None, Some(row)) => if may_mount {
                Action::Create(row.copy())
            } else {
                Action::Keep
            },
            (None, None) => Action::Keep,
        }
    }

    /// Decides what each id needs: keep, create, replace, or remove. The
    /// first result says how many are kept.
    pub fn plan(&self, next: &EntryTree) -> (r: (usize, Vec<(String, Action)>))
        requires
            next.wf(),
        ensures
            action_views(r.1@) == plan_of(self.spec_mounted(), next@),
            r.0 == kept_in(plan_of(self.spec_mounted(), next@)),
    {
        let ids = self.merged_ids(next);
        let ghost all = plan_of(self.spec_mounted(), next@);
        let mut actions: Vec<(String, Action)> = Vec::new();
        let mut kept: usize = 0;
        let mut i: usize = 0;
        assert(all.take(0) =~= Seq::<(Seq<char>, ActionView)>::empty());
        assert(action_views(actions@) =~= all.take(0));
        while i < ids.len()
            invariant
                next.wf(),
                all == plan_of(self.spec_mounted(), next@),
                texts_view(ids@) == all_ids(self.spec_mounted(), next@),
                i <= ids@.len(),
                kept <= i,
                action_views(actions@) == all.take(i as int),
                kept == kept_in(all.take(i as int)),
            decreases ids@.len() - i,
        {
            let action = self.decide(next, &ids[i]);
            let ghost done = actions@;
            proof {
                assert(texts_view(ids@)[i as int] == ids@[i as int]@);
                assert(all[i as int] == (ids@[i as int]@, action@));
                assert(all.take(i + 1).drop_last() =~= all.take(i as int));
            }
            let keeps = match &action {
                Action::Keep => true,
                _ => false,
            };
            if keeps {
                kept = kept + 1;
            }
            let pair = (ids[i].clone(), action);
            actions.push(pair);
            assert(action_views(actions@) =~= action_views(done).push((pair.0@, pair.1@)));
            assert(action_views(actions@) =~= all.take(i + 1));
            i = i + 1;
        }
        assert(all.take(i as int) =~= all);
        (kept, actions)
    }

    /// The entries to register, in order, each with whether it was mounted
    /// before. Their configs are to be checked, and they are to be built.
    pub fn candidates(actions: &Vec<(String, Action)>) -> (r: Vec<(EntrySpec, bool)>)
        ensures
            entry_pairs(r@) == candidates(action_views(actions@)),
    {
        let ghost all = action_views(actions@);
        let mut out: Vec<(EntrySpec, bool)> = Vec::new();
        let mut i: usize = 0;
        assert(entry_pairs(out@) =~= candidates(all.take(0)));
        while i < actions.len()
            invariant
                all == action_views(actions@),
                i <= actions@.len(),
                entry_pairs(out@) == candidates(all.take(i as int)),
            decreases actions@.len() - i,
        {
            let ghost done = out@;
            assert(all.take(i + 1).drop_last() =~= all.take(i as int));
            assert(all.take(i + 1).last() == (actions@[i as int].0@, actions@[i as int].1@));
            match &actions[i].1 {
                Action::Create(row) => {
                    out.push((row.copy(), false));
                    assert(entry_pairs(out@) =~= entry_pairs(done).push((row@, false)));
                },
                Action::Replace(row, _) => {
                    out.push((row.copy(), true));
                    assert(entry_pairs(out@) =~= entry_pairs(done).push((row@, true)));
                },
                _ => {},
            }
            i = i + 1;
        }
        assert(all.take(i as int) =~= all);
        out
    }

    /// The fibers to dispose, in order.
    pub fn doomed(actions: &Vec<(String, Action)>) -> (r: Vec<FiberId>)
        ensures
            r@ == doomed(action_views(actions@)),
    {
        let ghost all = action_views(actions@);
        let mut out: Vec<FiberId> = Vec::new();
        let mut i: usize = 0;
        assert(out@ =~= doomed(all.take(0)));
        while i < actions.len()
            invariant
                all == action_views(actions@),
                i <= actions@.len(),
                out@ == doomed(all.take(i as int)),
            decreases actions@.len() - i,
        {
            assert(all.take(i + 1).drop_last() =~= all.take(i as int));
            assert(all.take(i + 1).last() == (actions@[i as int].0@, actions@[i as int].1@));
            match &actions[i].1 {
                Action::Replace(_, fiber) => {
                    out.push(*fiber);
                },
                Action::Remove(fiber) => {
                    out.push(*fiber);
                },
                _ => {},
            }
            i = i + 1;
        }
        assert(all.take(i as int) =~= all);
        out
    }

    /// The ids that go, in order.
    pub fn removals(actions: &Vec<(String, Action)>) -> (r: Vec<String>)
        ensures
            texts_view(r@) == removals(action_views(actions@)),
    {
        let ghost all = action_views(actions@);
        let mut out: Vec<String> = Vec::new();
        let mut i: usize = 0;
        assert(texts_view(out@) =~= removals(all.take(0)));
        while i < actions.len()
            invariant
                all == action_views(actions@),
                i <= actions@.len(),
                texts_view(out@) == removals(all.take(i as int)),
            decreases actions@.len() - i,
        {
            assert(all.take(i + 1).drop_last() =~= all.take(i as int));
            assert(all.take(i + 1).last() == (actions@[i as int].0@, actions@[i as int].1@));
            if let Action::Remove(_) = &actions[i].1 {
                let id = actions[i].0.clone();
                proof {
                    lemma_texts_push(out@, id);
                }
                out.push(id);
            }
            i = i + 1;
        }
        assert(all.take(i as int) =~= all);
        out
    }

    /// The kind of an entry and the config to build it from; an absent config
    /// is presented as an empty object.
    pub fn build_entry(&self, row: &EntrySpec) -> (r: Result<(&EntryKind, Json), LoadError>)
        requires
            row.plugin is Some,
        ensures
            match r {
                Ok(built) => {
                    &&& found(self.spec_kinds(), row.plugin->0@) == Some(*built.0)
                    &&& built.1@ == config_for(row@)
                },
                Err(error) => {
                    &&& found(self.spec_kinds(), row.plugin->0@) is None
                    &&& error@ == LoadErrorView::UsesUnknownKind(row@.id, row.plugin->0@)
                },
            },
    {
        match &row.plugin {
            Some(plugin) => match self.kinds.get(plugin.as_str()) {
                Some(kind) => {
                    let config = match &row.config {
                        Some(value) => value.copy(),
                        None => {
                            let empty = Json::Object(Object::new());
                            proof {
                                lemma_value_view(empty);
                            }
                            empty
                        },
                    };
                    Ok((kind, config))
                },
                None => Err(LoadError::UsesUnknownKind(row.id.clone(), plugin.clone())),
            },
            None => Err(LoadError::UsesUnknownKind(row.id.clone(), String::new())),
        }
    }

    /// Validates the entries to register: the kind must exist, and the
    /// outcome of checking the config must be good. Runs before any disposal,
    /// so an invalid tree cannot tear down a running one.
    pub fn validate(&self, entries: &Vec<(EntrySpec, bool)>, checks: &Vec<Option<String>>) -> (r:
        Result<(), LoadError>)
        requires
            checks@.len() == entries@.len(),
            kinds_named(entry_pairs(entries@)),
        ensures
            match r {
                Ok(()) => verdict(self.spec_kinds(), entry_pairs(entries@), checks@) is None,
                Err(error) => verdict(self.spec_kinds(), entry_pairs(entries@), checks@) == Some(
                    error@,
                ),
            },
    {
        let ghost all = entry_pairs(entries@);
        let ghost kinds = self.spec_kinds();
        let mut i: usize = 0;
        assert(all.take(0) =~= Seq::<(EntryView, bool)>::empty());
        while i < entries.len()
            invariant
                all == entry_pairs(entries@),
                kinds == self.spec_kinds(),
                kinds_named(all),
                checks@.len() == entries@.len(),
                i <= entries@.len(),
                verdict(kinds, all.take(i as int), checks@) is None,
            decreases entries@.len() - i,
        {
            proof {
                assert(all[i as int] == (entries@[i as int].0@, entries@[i as int].1));
                assert(all[i as int].0.plugin is Some);
                assert(all.take(i + 1).drop_last() =~= all.take(i as int));
            }
            let row = &entries[i].0;
            let error = match &row.plugin {
                Some(plugin) => if self.kinds.get(plugin.as_str()).is_none() {
                    Some(LoadError::UnknownKind(row.id.clone(), plugin.clone()))
                } else {
                    match &checks[i] {
                        Some(reason) => Some(
                            LoadError::InvalidConfig(row.id.clone(), reason.clone()),
                        ),
                        None => None,
                    }
                },
                None => None,
            };
            if let Some(error) = error {
                proof {
                    lemma_verdict_stops(kinds, all, checks@, (i + 1) as int, all.len() as int);
                    assert(all.take(all.len() as int) =~= all);
                }
                return Err(error);
            }
            i = i + 1;
        }
        assert(all.take(i as int) =~= all);
        Ok(())
    }

    /// Takes the given ids off what is mounted.
    pub(crate) fn unmount(&mut self, ids: &Vec<String>)
        requires
            old(self).wf(),
        ensures
            final(self).wf(),
            final(self).spec_kinds() == old(self).spec_kinds(),
            final(self).spec_mounted() == without_ids(
                old(self).spec_mounted(),
                texts_view(ids@),
            ),
    {
        let ghost before = self.spec_mounted();
        let ghost all = texts_view(ids@);
        let mut i: usize = 0;
        assert(all.take(0) =~= Seq::<Seq<char>>::empty());
        while i < ids.len()
            invariant
                self.wf(),
                self.spec_kinds() == old(self).spec_kinds(),
                all == texts_view(ids@),
                i <= ids@.len(),
                self.spec_mounted() == without_ids(before, all.take(i as int)),
            decreases ids@.len() - i,
        {
            let ghost rows = self.spec_mounted();
            proof {
                lemma_unshelved_view(self.mounted@, ids@[i as int]@);
                lemma_unshelved(rows, ids@[i as int]@);
                lemma_mounted_in_line(self.mounted@);
                assert(all.take(i + 1).drop_last() =~= all.take(i as int));
                assert(all.take(i + 1).last() == ids@[i as int]@);
            }
            self.mounted.remove(ids[i].as_str());
            proof {
                let now = self.spec_mounted();
                assert forall|j: int| #![trigger now[j]] 0 <= j < now.len() implies
                    now[j].1.options.id == now[j].0 && now[j].1.options.plugin is Some by {
                    assert(rows.contains(now[j]));
                    let a = choose|a: int| 0 <= a < rows.len() && rows[a] == now[j];
                    assert(rows[a].1.options.id == rows[a].0);
                }
            }
            i = i + 1;
        }
        assert(all.take(i as int) =~= all);
    }

    /// Records entries as mounted on the given fibers.
    pub(crate) fn record(&mut self, entries: &Vec<(EntrySpec, bool)>, first: usize)
        requires
            old(self).wf(),
            kinds_named(entry_pairs(entries@)),
            first + entries@.len() <= u32::MAX,
        ensures
            final(self).wf(),
            final(self).spec_kinds() == old(self).spec_kinds(),
            final(self).spec_mounted() == with_entries(
                old(self).spec_mounted(),
                entry_pairs(entries@),
                first as int,
            ),
    {
        let ghost before = self.spec_mounted();
        let ghost all = entry_pairs(entries@);
        let mut i: usize = 0;
        assert(all.take(0) =~= Seq::<(EntryView, bool)>::empty());
        while i < entries.len()
            invariant
                self.wf(),
                self.spec_kinds() == old(self).spec_kinds(),
                all == entry_pairs(entries@),
                kinds_named(all),
                first + entries@.len() <= u32::MAX,
                i <= entries@.len(),
                self.spec_mounted() == with_entries(before, all.take(i as int), first as int),
            decreases entries@.len() - i,
        {
            let ghost rows = self.spec_mounted();
            let id = entries[i].0.id.clone();
            let m = Mounted { options: entries[i].0.copy(), fiber: FiberId((first + i) as u32) };
            proof {
                assert(all[i as int] == (entries@[i as int].0@, entries@[i as int].1));
                lemma_shelved_view(self.mounted@, id@, m);
                lemma_shelved(rows, id@, m@);
                lemma_mounted_in_line(self.mounted@);
                assert(all.take(i + 1).drop_last() =~= all.take(i as int));
                assert(all.take(i + 1).last() == all[i as int]);
            }
            self.mounted.insert(id, m);
            proof {
                let now = self.spec_mounted();
                assert forall|j: int| #![trigger now[j]] 0 <= j < now.len() implies
                    now[j].1.options.id == now[j].0 && now[j].1.options.plugin is Some by {
                    if now[j] != (id@, m@) {
                        assert(rows.contains(now[j]));
                        let a = choose|a: int| 0 <= a < rows.len() && rows[a] == now[j];
                        assert(rows[a].1.options.id == rows[a].0);
                    } else {
                        assert(all[i as int].0.plugin is Some);
                    }
                }
            }
            i = i + 1;
        }
        assert(all.take(i as int) =~= all);
    }
}

/// Seeing what the entries are keeps them in order.
proof fn lemma_mounted_in_line(rows: Seq<(Seq<char>, Mounted)>)
    ensures
        in_line(mounted_views(rows)) == in_line(rows),
{
    let views = mounted_views(rows);
    if in_line(views) {
        assert forall|i: int, j: int| 0 <= i < j < rows.len() implies precedes(
            (#[trigger] rows[i]).0,
            (#[trigger] rows[j]).0,
        ) by {
            assert(precedes(views[i].0, views[j].0));
        }
    }
    if in_line(rows) {
        assert forall|i: int, j: int| 0 <= i < j < views.len() implies precedes(
            (#[trigger] views[i]).0,
            (#[trigger] views[j]).0,
        ) by {
            assert(precedes(rows[i].0, rows[j].0));
        }
    }
}

proof fn lemma_verdict_stops(
    kinds: Seq<(Seq<char>, EntryKind)>,
    entries: Seq<(EntryView, bool)>,
    checks: Seq<Option<String>>,
    n: int,
    m: int,
)
    requires
        0 <= n <= m <= entries.len(),
        verdict(kinds, entries.take(n), checks) is Some,
    ensures
        verdict(kinds, entries.take(m), checks) == verdict(kinds, entries.take(n), checks),
    decreases m,
{
    if n < m {
        assert(entries.take(m).drop_last() =~= entries.take(m - 1));
        lemma_verdict_stops(kinds, entries, checks, n, m - 1);
    }
}

} // verus!
