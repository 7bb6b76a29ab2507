//! What of a tree is mounted.

use crate::ctx::{disconnected, lemma_with_plugins};
use crate::entries::{EntrySpec, EntryView, LoadError};
use crate::fiber::{FiberId, FiberView, State};
use crate::kernel::Kernel;
use crate::laws::lifecycle::{law_nothing_that_may_start_waits, lemma_satisfied_ids};
use crate::laws::loading::{
    law_plans_are_ordered_by_id, lemma_candidates_ordered, lemma_with_entries, lemma_without_ids,
    mounted_after,
};
use crate::laws::reconciling::{
    law_only_disposed_entries_are_dead, law_the_first_failed_build_is_named,
};
use crate::laws::starting::{lemma_ready, ready_to_start};
use crate::loader::{
    Action, Loader, LoaderReport, MountedRows, MountedView, Pass, Setback, all_ids, batched,
    build_error, built_views, candidates, dead, decision, doomed, entry_pairs, fresh_candidates,
    ids_with, plan_of, removals, root_ctx, row_ids, verdict, with_entries, without_ids,
};
use crate::model::{KernelView, Step, kernel_ok, with_plugins};
use crate::plugin::{FnPlugin, PluginView};
use crate::reconcile::{fresh_report, lemma_position_at};
use crate::shelf::{found, in_line};
use crate::text::{lemma_precedes_irreflexive, precedes, texts_view};
use crate::tree::{
    EntryTree, ancestor, by_id, lemma_position, lemma_push_contains, mountable, parent_row, retired,
};
use crate::upkeep::lemma_start_all;
use vstd::prelude::*;

verus! {

// ---- what may be mounted ----

/// The way up from a row goes by way of its parent.
proof fn lemma_way_up(rows: Seq<EntryView>, i: int, n: nat)
    ensures
        ancestor(rows, i, n + 1) == (match parent_row(rows, i) {
            Some(j) => ancestor(rows, j, n),
            None => None,
        }),
    decreases n,
{
    if n == 0 {
        assert(ancestor(rows, i, 0) == Some(i));
        assert(ancestor(rows, i, 1) == parent_row(rows, i));
        if let Some(j) = parent_row(rows, i) {
            assert(ancestor(rows, j, 0) == Some(j));
        }
    } else {
        lemma_way_up(rows, i, (n - 1) as nat);
        assert(((n - 1) as nat) + 1 == n);
    }
}

/// A row is switched off exactly if it says so itself, or the row that it
/// names as its parent is switched off.
pub proof fn law_what_is_switched_off(rows: Seq<EntryView>, i: int)
    requires
        by_id(rows),
        0 <= i < rows.len(),
    ensures
        retired(rows, i) <==> rows[i].disabled == Some(true) || exists|j: int|
            0 <= j < rows.len() && rows[i].parent == Some((#[trigger] rows[j]).id) && retired(
                rows,
                j,
            ),
{
    assert(ancestor(rows, i, 0) == Some(i));
    if retired(rows, i) && rows[i].disabled != Some(true) {
        let n = choose|n: nat|
            #[trigger] ancestor(rows, i, n) matches Some(j) && rows[j].disabled == Some(true);
        assert(n > 0);
        let m = (n - 1) as nat;
        assert(m + 1 == n);
        lemma_way_up(rows, i, m);
        let j = parent_row(rows, i)->0;
        lemma_position(rows, rows[i].parent->0);
        assert(ancestor(rows, j, m) == ancestor(rows, i, n));
        assert(retired(rows, j));
    }
    if exists|j: int|
        0 <= j < rows.len() && rows[i].parent == Some((#[trigger] rows[j]).id) && retired(
            rows,
            j,
        ) {
        let j = choose|j: int|
            0 <= j < rows.len() && rows[i].parent == Some((#[trigger] rows[j]).id) && retired(
                rows,
                j,
            );
        lemma_position_at(rows, j);
        let n = choose|n: nat|
            #[trigger] ancestor(rows, j, n) matches Some(a) && rows[a].disabled == Some(true);
        lemma_way_up(rows, i, n);
        assert(ancestor(rows, i, n + 1) == ancestor(rows, j, n));
    }
}

/// Under an id an entry is mounted exactly if a row has the id, names a kind
/// and is not switched off.
pub proof fn law_what_may_be_mounted(rows: Seq<EntryView>, id: Seq<char>)
    requires
        by_id(rows),
    ensures
        mountable(rows, id) <==> exists|i: int|
            0 <= i < rows.len() && (#[trigger] rows[i]).id == id && rows[i].plugin is Some
                && !retired(rows, i),
{
    lemma_position(rows, id);
    if exists|i: int|
        0 <= i < rows.len() && (#[trigger] rows[i]).id == id && rows[i].plugin is Some && !retired(
            rows,
            i,
        ) {
        let i = choose|i: int|
            0 <= i < rows.len() && (#[trigger] rows[i]).id == id && rows[i].plugin is Some
                && !retired(rows, i);
        lemma_position_at(rows, i);
    }
}

/// The same of a tree that is asked.
pub proof fn law_asking_a_tree(tree: EntryTree, id: &str, r: bool)
    requires
        tree.wf(),
        call_ensures(EntryTree::effectively_enabled, (&tree, id), r),
    ensures
        r <==> exists|i: int|
            0 <= i < tree@.len() && (#[trigger] tree@[i]).id == id@ && tree@[i].plugin is Some
                && !retired(tree@, i),
{
    law_what_may_be_mounted(tree@, id@);
}

// ---- mounting a fresh tree ----

/// What the first `n` rows give to register.
proof fn lemma_fresh_members(rows: Seq<EntryView>, n: nat)
    requires
        by_id(rows),
        n <= rows.len(),
    ensures
        ({
            let entries = fresh_candidates(rows, n);
            &&& forall|j: int|
                0 <= j < entries.len() ==> !(#[trigger] entries[j]).1 && exists|i: int|
                    0 <= i < n && entries[j].0 == #[trigger] rows[i] && mountable(rows, rows[i].id)
            &&& forall|i: int|
                0 <= i < n && mountable(rows, (#[trigger] rows[i]).id) ==> entries.contains(
                    (rows[i], false),
                )
            &&& forall|a: int, b: int|
                0 <= a < b < entries.len() ==> precedes(
                    (#[trigger] entries[a]).0.id,
                    (#[trigger] entries[b]).0.id,
                )
        }),
    decreases n,
{
    if n > 0 {
        let m = (n - 1) as nat;
        lemma_fresh_members(rows, m);
        let front = fresh_candidates(rows, m);
        let entries = fresh_candidates(rows, n);
        assert forall|j: int| 0 <= j < entries.len() implies !(#[trigger] entries[j]).1 && exists|
            i: int,
        |
            0 <= i < n && entries[j].0 == #[trigger] rows[i] && mountable(rows, rows[i].id) by {
            if j < front.len() {
                assert(entries[j] == front[j]);
                let i = choose|i: int|
                    0 <= i < m && front[j].0 == #[trigger] rows[i] && mountable(rows, rows[i].id);
                assert(entries[j].0 == rows[i]);
            } else {
                assert(entries[j].0 == rows[n - 1]);
            }
        }
        assert forall|i: int| 0 <= i < n && mountable(rows, (#[trigger] rows[i]).id) implies
            entries.contains((rows[i], false)) by {
            if mountable(rows, rows[n - 1].id) {
                lemma_push_contains(front, (rows[n - 1], false), (rows[i], false));
            }
            if i < m {
                assert(front.contains((rows[i], false)));
            }
        }
        assert forall|a: int, b: int| 0 <= a < b < entries.len() implies precedes(
            (#[trigger] entries[a]).0.id,
            (#[trigger] entries[b]).0.id,
        ) by {
            assert(entries[a] == front[a]);
            if b < front.len() {
                assert(entries[b] == front[b]);
            } else {
                let i = choose|i: int|
                    0 <= i < m && front[a].0 == #[trigger] rows[i] && mountable(rows, rows[i].id);
                assert(precedes(rows[i].id, rows[n - 1].id));
            }
        }
    }
}

/// The ids of entries that were not mounted before are the ids of all.
proof fn lemma_fresh_ids(entries: Seq<(EntryView, bool)>)
    requires
        forall|j: int| 0 <= j < entries.len() ==> !(#[trigger] entries[j]).1,
    ensures
        ids_with(entries, false) == Seq::new(entries.len(), |j: int| entries[j].0.id),
    decreases entries.len(),
{
    if entries.len() > 0 {
        let front = entries.drop_last();
        assert forall|j: int| 0 <= j < front.len() implies !(#[trigger] front[j]).1 by {
            assert(front[j] == entries[j]);
        }
        lemma_fresh_ids(front);
        assert(!entries[entries.len() - 1].1);
    }
    assert(ids_with(entries, false) =~= Seq::new(entries.len(), |j: int| entries[j].0.id));
}

/// A fresh tree gives to register exactly the rows that may be mounted, each
/// once, in id order.
pub proof fn law_fresh_trees_register_what_may_be_mounted(
    tree: EntryTree,
    r: Vec<(EntrySpec, bool)>,
)
    requires
        tree.wf(),
        call_ensures(Loader::fresh, (&tree,), r),
    ensures
        forall|i: int|
            0 <= i < tree@.len() ==> (mountable(tree@, (#[trigger] tree@[i]).id) <==> exists|j: int|
                0 <= j < r@.len() && (#[trigger] r@[j]).0@ == tree@[i]),
        forall|j: int|
            0 <= j < r@.len() ==> !(#[trigger] r@[j]).1 && exists|i: int|
                0 <= i < tree@.len() && r@[j].0@ == #[trigger] tree@[i],
        forall|a: int, b: int|
            0 <= a < b < r@.len() ==> precedes((#[trigger] r@[a]).0@.id, (#[trigger] r@[b]).0@.id),
{
    let rows = tree@;
    let entries = fresh_candidates(rows, rows.len());
    lemma_fresh_members(rows, rows.len());
    assert(entry_pairs(r@) == entries);
    assert forall|j: int| 0 <= j < r@.len() implies entries[j] == ((#[trigger] r@[j]).0@, r@[j].1)
        by {
        assert(entry_pairs(r@)[j] == (r@[j].0@, r@[j].1));
    }
    assert forall|i: int| 0 <= i < rows.len() implies (mountable(rows, (#[trigger] rows[i]).id)
        <==> exists|j: int| 0 <= j < r@.len() && (#[trigger] r@[j]).0@ == rows[i]) by {
        if mountable(rows, rows[i].id) {
            let j = choose|j: int| 0 <= j < entries.len() && entries[j] == (rows[i], false);
            assert(r@[j].0@ == rows[i]);
        }
        if exists|j: int| 0 <= j < r@.len() && (#[trigger] r@[j]).0@ == rows[i] {
            let j = choose|j: int| 0 <= j < r@.len() && (#[trigger] r@[j]).0@ == rows[i];
            assert(entries[j].0 == rows[i]);
        }
    }
    assert forall|j: int| 0 <= j < r@.len() implies !(#[trigger] r@[j]).1 && exists|i: int|
        0 <= i < rows.len() && r@[j].0@ == #[trigger] rows[i] by {
        assert(!entries[j].1);
    }
    assert forall|a: int, b: int| 0 <= a < b < r@.len() implies precedes(
        (#[trigger] r@[a]).0@.id,
        (#[trigger] r@[b]).0@.id,
    ) by {
        assert(precedes(entries[a].0.id, entries[b].0.id));
    }
}

/// What is mounted once a fresh tree has been: exactly the rows that may be,
/// each as the tree has it, on a fiber of its own that was not there before.
pub proof fn law_mounting_mounts_what_may_be_mounted(
    rows: Seq<EntryView>,
    first: int,
    i: int,
)
    requires
        by_id(rows),
        0 <= i < rows.len(),
        0 <= first <= u32::MAX - fresh_candidates(rows, rows.len()).len(),
    ensures
        ({
            let mounted = with_entries(
                Seq::empty(),
                fresh_candidates(rows, rows.len()),
                first,
            );
            &&& in_line(mounted)
            &&& mountable(rows, rows[i].id) <==> found(mounted, rows[i].id) is Some
            &&& found(mounted, rows[i].id) matches Some(m) ==> m.options == rows[i] && first
                <= m.fiber.0 < first + fresh_candidates(rows, rows.len()).len()
            &&& forall|id: Seq<char>| #[trigger]
                found(mounted, id) is Some ==> exists|j: int|
                    0 <= j < rows.len() && (#[trigger] rows[j]).id == id
        }),
{
    let entries = fresh_candidates(rows, rows.len());
    let nothing: MountedRows = Seq::empty();
    let mounted = with_entries(nothing, entries, first);
    lemma_fresh_members(rows, rows.len());
    lemma_with_entries(nothing, entries, first, rows[i].id);
    lemma_position_at(rows, i);
    if mountable(rows, rows[i].id) {
        let j = choose|j: int| 0 <= j < entries.len() && entries[j] == (rows[i], false);
        assert(entries[j].0.id == rows[i].id);
    }
    if let Some(m) = found(mounted, rows[i].id) {
        let j = choose|j: int|
            0 <= j < entries.len() && (#[trigger] entries[j]).0.id == rows[i].id && m == (
            MountedView { options: entries[j].0, fiber: FiberId((first + j) as u32) });
        let a = choose|a: int|
            0 <= a < rows.len() && entries[j].0 == #[trigger] rows[a] && mountable(
                rows,
                rows[a].id,
            );
        lemma_position_at(rows, a);
        assert(a == i);
    }
    assert forall|id: Seq<char>| #[trigger] found(mounted, id) is Some implies exists|j: int|
        0 <= j < rows.len() && (#[trigger] rows[j]).id == id by {
        lemma_with_entries(nothing, entries, first, id);
        let m = found(mounted, id)->0;
        let j = choose|j: int|
            0 <= j < entries.len() && (#[trigger] entries[j]).0.id == id && m == (MountedView {
                options: entries[j].0,
                fiber: FiberId((first + j) as u32),
            });
        let a = choose|a: int|
            0 <= a < rows.len() && entries[j].0 == #[trigger] rows[a] && mountable(
                rows,
                rows[a].id,
            );
        assert(rows[a].id == id);
    }
}

/// Mounting a fresh tree is bringing an empty loader in line with it: the
/// same entries are registered, in the same order, and the same is mounted.
pub proof fn law_mounting_is_a_pass_from_nothing(rows: Seq<EntryView>, first: int)
    requires
        by_id(rows),
    ensures
        fresh_candidates(rows, rows.len()) == candidates(plan_of(Seq::empty(), rows)),
        with_entries(Seq::empty(), fresh_candidates(rows, rows.len()), first) == mounted_after(
            Seq::empty(),
            rows,
            first,
        ),
{
    let nothing: MountedRows = Seq::empty();
    let all = plan_of(nothing, rows);
    lemma_pass_from_nothing(rows, rows.len());
    assert(all_ids(nothing, rows) == row_ids(rows));
    assert(all.take(rows.len() as int) =~= all);
    assert(without_ids(nothing, removals(all)) == nothing);
}

proof fn lemma_pass_from_nothing(rows: Seq<EntryView>, n: nat)
    requires
        by_id(rows),
        n <= rows.len(),
    ensures
        ({
            let actions = plan_of(Seq::empty(), rows).take(n as int);
            &&& fresh_candidates(rows, n) == candidates(actions)
            &&& removals(actions).len() == 0
            &&& removals(actions) == Seq::<Seq<char>>::empty()
        }),
    decreases n,
{
    let nothing: MountedRows = Seq::empty();
    let all = plan_of(nothing, rows);
    assert(all_ids(nothing, rows) == row_ids(rows));
    if n > 0 {
        let m = (n - 1) as nat;
        lemma_pass_from_nothing(rows, m);
        lemma_position_at(rows, n - 1);
        let id = rows[n - 1].id;
        assert(row_ids(rows)[n - 1] == id);
        assert(all[n - 1] == (id, decision(nothing, rows, id)));
        assert(all.take(n as int).drop_last() =~= all.take(m as int));
        assert(all.take(n as int).last() == all[n - 1]);
    } else {
        assert(removals(all.take(0)) =~= Seq::<Seq<char>>::empty());
    }
}

/// A mount that went through leaves mounted exactly the entries that may be,
/// each as the tree has it, and hands out their ids; one that did not leaves
/// everything as it was.
pub proof fn law_mounts_go_through_or_change_nothing(
    loader: &mut Loader,
    kernel: &mut Kernel,
    tree: EntryTree,
    checks: Vec<Option<String>>,
    built: Vec<Result<FnPlugin, String>>,
    r: Result<(Vec<String>, Vec<FiberId>), LoadError>,
    i: int,
)
    requires
        old(loader).wf(),
        old(kernel).wf(),
        tree.wf(),
        built@.len() == fresh_candidates(tree@, tree@.len()).len(),
        old(kernel)@.fibers.len() + built@.len() <= u32::MAX,
        0 <= i < tree@.len(),
        call_ensures(Loader::mount, (loader, kernel, &tree, &checks, built), r),
    ensures
        r matches Ok(done) ==> {
            let id = tree@[i].id;
            let after = final(loader).spec_mounted();
            &&& found(after, id) is Some <==> mountable(tree@, id)
            &&& texts_view(done.0@).contains(id) <==> mountable(tree@, id)
            &&& found(after, id) matches Some(m) ==> m.options == tree@[i] && old(
                kernel,
            )@.fibers.len() <= m.fiber.0
        },
        r is Err ==> final(kernel)@ == old(kernel)@ && final(loader).spec_mounted() == old(
            loader,
        ).spec_mounted(),
        old(loader).spec_mounted().len() > 0 ==> r is Err,
{
    let rows = tree@;
    let entries = fresh_candidates(rows, rows.len());
    if let Ok(done) = r {
        assert(old(loader).spec_mounted() =~= Seq::empty());
        law_mounting_mounts_what_may_be_mounted(rows, old(kernel)@.fibers.len() as int, i);
        lemma_fresh_members(rows, rows.len());
        lemma_fresh_ids(entries);
        let ids = ids_with(entries, false);
        lemma_position_at(rows, i);
        if mountable(rows, rows[i].id) {
            let j = choose|j: int| 0 <= j < entries.len() && entries[j] == (rows[i], false);
            assert(ids[j] == rows[i].id);
        }
        if ids.contains(rows[i].id) {
            let j = choose|j: int| 0 <= j < ids.len() && ids[j] == rows[i].id;
            assert(entries[j].0.id == rows[i].id);
        }
    }
}

// ---- what runs under an id ----

/// Whether a fiber is the one of a plugin registered on the root.
pub open spec fn runs(f: FiberView, plugin: FnPlugin) -> bool {
    &&& f.name == plugin.name@
    &&& f.inject == plugin.inject@
    &&& f.declares == plugin.provides@
    &&& f.parent.0 == 0
    &&& f.realm.0 == 0
}

proof fn lemma_queued(k: KernelView, plugins: Seq<PluginView>, j: int)
    requires
        kernel_ok(k),
        k.fibers.len() + plugins.len() <= u32::MAX,
        0 <= j < plugins.len(),
    ensures
        ({
            let f = with_plugins(k, root_ctx(), plugins).fibers[k.fibers.len() + j];
            &&& f.name == plugins[j].name
            &&& f.inject == plugins[j].inject
            &&& f.declares == plugins[j].provides
            &&& f.parent.0 == 0
            &&& f.realm.0 == 0
            &&& !(f.state is Starting)
        }),
    decreases plugins.len(),
{
    let front = plugins.drop_last();
    lemma_with_plugins(k, root_ctx(), front);
    if j < front.len() {
        lemma_queued(k, front, j);
        assert(with_plugins(k, root_ctx(), plugins).fibers[k.fibers.len() + j] == with_plugins(
            k,
            root_ctx(),
            front,
        ).fibers[k.fibers.len() + j]);
    }
}

proof fn lemma_batch_runs(
    k: KernelView,
    k2: KernelView,
    built: Seq<Result<FnPlugin, String>>,
    begun: Seq<FiberId>,
    j: int,
)
    requires
        kernel_ok(k),
        k.fibers.len() + built.len() <= u32::MAX,
        batched(k, k2, built_views(built), begun),
        0 <= j < built.len(),
        built[j] is Ok,
    ensures
        k2.fibers.len() == k.fibers.len() + built.len(),
        runs(k2.fibers[k.fibers.len() + j], built[j]->Ok_0),
        k2.fibers[k.fibers.len() + j].state is Starting <==> begun.contains(
            FiberId((k.fibers.len() + j) as u32),
        ),
        forall|id: FiberId| #[trigger] k2.pending.contains(id) ==> !ready_to_start(k2, id),
{
    let plugins = built_views(built);
    let queued = with_plugins(k, root_ctx(), plugins);
    lemma_with_plugins(k, root_ctx(), plugins);
    lemma_queued(k, plugins, j);
    lemma_satisfied_ids(queued);
    lemma_start_all(queued, begun);
    assert(plugins[j] == built[j]->Ok_0@);
    assert forall|id: FiberId| #[trigger] k2.pending.contains(id) implies !ready_to_start(
        k2,
        id,
    ) by {
        law_nothing_that_may_start_waits(queued, id);
        lemma_ready(k2, id);
    }
}

/// Each of several entries with different ids is mounted on the fiber of its
/// number.
proof fn lemma_mounted_in_step(
    mounted: MountedRows,
    entries: Seq<(EntryView, bool)>,
    first: int,
    j: int,
)
    requires
        in_line(mounted),
        0 <= j < entries.len(),
        forall|a: int, b: int|
            0 <= a < b < entries.len() ==> precedes(
                (#[trigger] entries[a]).0.id,
                (#[trigger] entries[b]).0.id,
            ),
    ensures
        found(with_entries(mounted, entries, first), entries[j].0.id) == Some(
            MountedView { options: entries[j].0, fiber: FiberId((first + j) as u32) },
        ),
{
    let id = entries[j].0.id;
    lemma_with_entries(mounted, entries, first, id);
    assert forall|i: int| 0 <= i < entries.len() && (#[trigger] entries[i]).0.id == id implies i
        == j by {
        lemma_precedes_irreflexive(id);
        if i < j {
            assert(precedes(entries[i].0.id, entries[j].0.id));
        }
        if j < i {
            assert(precedes(entries[j].0.id, entries[i].0.id));
        }
    }
}

/// What is mounted runs what was built for it: after a mount that went
/// through, each entry is on a fiber of its own, below the root, that runs the
/// plugin that was built from this very entry.
pub proof fn law_mounted_entries_run_what_was_built(
    loader: &mut Loader,
    kernel: &mut Kernel,
    tree: EntryTree,
    entries: Vec<(EntrySpec, bool)>,
    checks: Vec<Option<String>>,
    built: Vec<Result<FnPlugin, String>>,
    r: Result<(Vec<String>, Vec<FiberId>), LoadError>,
    j: int,
)
    requires
        old(loader).wf(),
        old(kernel).wf(),
        tree.wf(),
        call_ensures(Loader::fresh, (&tree,), entries),
        built@.len() == entries@.len(),
        old(kernel)@.fibers.len() + built@.len() <= u32::MAX,
        0 <= j < entries@.len(),
        call_ensures(Loader::mount, (loader, kernel, &tree, &checks, built), r),
    ensures
        r matches Ok(done) ==> ({
            let at = old(kernel)@.fibers.len() + j;
            &&& built@[j] is Ok
            &&& found(final(loader).spec_mounted(), entries@[j].0@.id) == Some(
                MountedView { options: entries@[j].0@, fiber: FiberId(at as u32) },
            )
            &&& final(kernel)@.fibers[at].state is Starting <==> done.1@.contains(
                FiberId(at as u32),
            )
            &&& forall|id: FiberId| #[trigger]
                final(kernel)@.pending.contains(id) ==> !ready_to_start(final(kernel)@, id)
            &&& final(kernel)@.fibers.len() == old(kernel)@.fibers.len() + built@.len()
            &&& runs(final(kernel)@.fibers[at], built@[j]->Ok_0)
        }),
{
    if let Ok(done) = r {
        let all = fresh_candidates(tree@, tree@.len());
        assert(entry_pairs(entries@)[j] == (entries@[j].0@, entries@[j].1));
        assert(entry_pairs(entries@).len() == entries@.len());
        lemma_fresh_members(tree@, tree@.len());
        law_the_first_failed_build_is_named(all, built@);
        assert(built@[j] is Ok);
        lemma_mounted_in_step(
            old(loader).spec_mounted(),
            all,
            old(kernel)@.fibers.len() as int,
            j,
        );
        lemma_batch_runs(old(kernel)@, final(kernel)@, built@, done.1@, j);
    }
}

/// The same of a pass: what it registers runs what was built for it.
pub proof fn law_registered_entries_run_what_was_built(
    loader: &mut Loader,
    kernel: &mut Kernel,
    next: EntryTree,
    plan: (usize, Vec<(String, Action)>),
    entries: Vec<(EntrySpec, bool)>,
    checks: Vec<Option<String>>,
    built: Vec<Result<FnPlugin, String>>,
    r: Result<Pass, Setback>,
    j: int,
)
    requires
        old(loader).wf(),
        old(kernel).wf(),
        next.wf(),
        call_ensures(Loader::plan, (&*old(loader), &next), plan),
        call_ensures(Loader::candidates, (&plan.1,), entries),
        built@.len() == entries@.len(),
        old(kernel)@.fibers.len() + built@.len() <= u32::MAX,
        0 <= j < entries@.len(),
        call_ensures(Loader::reconcile, (loader, kernel, &next, &checks, built), r),
    ensures
        r matches Ok(pass) ==> ({
            let at = old(kernel)@.fibers.len() + j;
            &&& built@[j] is Ok
            &&& pass.report@.kept == plan.0
            &&& final(kernel)@.fibers[at].state is Starting <==> pass.started@.contains(
                FiberId(at as u32),
            )
            &&& forall|id: FiberId| #[trigger]
                final(kernel)@.pending.contains(id) ==> !ready_to_start(final(kernel)@, id)
            &&& found(final(loader).spec_mounted(), entries@[j].0@.id) == Some(
                MountedView { options: entries@[j].0@, fiber: FiberId(at as u32) },
            )
            &&& runs(final(kernel)@.fibers[at], built@[j]->Ok_0)
        }),
{
    let mounted = old(loader).spec_mounted();
    let actions = plan_of(mounted, next@);
    let all = candidates(actions);
    assert(entry_pairs(entries@) == all);
    assert(entry_pairs(entries@).len() == entries@.len());
    assert(entry_pairs(entries@)[j] == (entries@[j].0@, entries@[j].1));
    law_plans_are_ordered_by_id(mounted, next@);
    lemma_candidates_ordered(mounted, next@, actions.len() as int);
    assert(actions.take(actions.len() as int) =~= actions);
    if let Ok(pass) = r {
        assert(verdict(old(loader).spec_kinds(), all, checks@) is None);
        let (mid, steps) = choose|mid: KernelView, steps: Seq<Step>| #[trigger]
            disconnected(old(kernel)@, mid, doomed(actions), steps) && {
                &&& build_error(all, built@) is None
                &&& pass.steps@ == steps
                &&& pass.report@ == fresh_report(actions)
                &&& batched(mid, final(kernel)@, built_views(built@), pass.started@)
                &&& final(loader).spec_mounted() == with_entries(
                    without_ids(mounted, removals(actions)),
                    all,
                    mid.fibers.len() as int,
                )
            };
        law_the_first_failed_build_is_named(all, built@);
        assert(built@[j] is Ok);
        lemma_without_ids(mounted, removals(actions), all[j].0.id);
        lemma_mounted_in_step(
            without_ids(mounted, removals(actions)),
            all,
            mid.fibers.len() as int,
            j,
        );
        lemma_batch_runs(mid, final(kernel)@, built@, pass.started@, j);
    }
}

/// Repair registers again what it says it does, and notes it: each entry on a
/// disposed fiber is on a new one that runs what was built for it. Where an
/// entry cannot be built nothing changes.
pub proof fn law_repaired_entries_run_what_was_built(
    loader: &mut Loader,
    kernel: &mut Kernel,
    report: &mut LoaderReport,
    entries: Vec<(EntrySpec, bool)>,
    built: Vec<Result<FnPlugin, String>>,
    r: Result<Vec<FiberId>, LoadError>,
    j: int,
)
    requires
        old(loader).wf(),
        old(kernel).wf(),
        call_ensures(Loader::dead_entries, (&*old(loader), &*old(kernel)), entries),
        built@.len() == entries@.len(),
        old(kernel)@.fibers.len() + built@.len() <= u32::MAX,
        0 <= j < entries@.len(),
        call_ensures(Loader::repair_collateral, (loader, kernel, report, built), r),
    ensures
        r matches Ok(begun) ==> ({
            let at = old(kernel)@.fibers.len() + j;
            &&& built@[j] is Ok
            &&& found(final(loader).spec_mounted(), entries@[j].0@.id) == Some(
                MountedView { options: entries@[j].0@, fiber: FiberId(at as u32) },
            )
            &&& final(kernel)@.fibers[at].state is Starting <==> begun@.contains(
                FiberId(at as u32),
            )
            &&& forall|id: FiberId| #[trigger]
                final(kernel)@.pending.contains(id) ==> !ready_to_start(final(kernel)@, id)
            &&& runs(final(kernel)@.fibers[at], built@[j]->Ok_0)
            &&& final(report)@.restarted.len() == old(report)@.restarted.len() + entries@.len()
            &&& final(report)@.restarted[old(report)@.restarted.len() + j] == entries@[j].0@.id
            &&& old(report)@.restarted.is_prefix_of(final(report)@.restarted)
            &&& final(report)@.created == old(report)@.created
            &&& final(report)@.updated == old(report)@.updated
            &&& final(report)@.removed == old(report)@.removed
            &&& final(report)@.kept == old(report)@.kept
        }),
        r is Err ==> final(kernel)@ == old(kernel)@ && final(report)@ == old(report)@,
        r is Err ==> final(loader).spec_mounted() == old(loader).spec_mounted(),
        r is Err <==> exists|i: int| 0 <= i < built@.len() && (#[trigger] built@[i]) is Err,
{
    let mounted = old(loader).spec_mounted();
    let all = dead(mounted, old(kernel)@);
    assert(entry_pairs(entries@) == all);
    assert(entry_pairs(entries@).len() == entries@.len());
    assert(entry_pairs(entries@)[j] == (entries@[j].0@, entries@[j].1));
    law_the_first_failed_build_is_named(all, built@);
    if let Ok(begun) = r {
        assert(built@[j] is Ok);
        lemma_dead_in_order(mounted, old(kernel)@);
        lemma_mounted_in_step(mounted, all, old(kernel)@.fibers.len() as int, j);
        lemma_batch_runs(old(kernel)@, final(kernel)@, built@, begun@, j);
        law_only_disposed_entries_are_dead(mounted, old(kernel)@, all[j].0);
        lemma_fresh_ids(all);
        let more = ids_with(all, false);
        assert(more[j] == all[j].0.id);
        assert(final(report)@.restarted == old(report)@.restarted + more);
    } else {
        assert(!(forall|i: int| 0 <= i < built@.len() ==> (#[trigger] built@[i]) is Ok));
    }
}

/// The entries on disposed fibers come in id order.
proof fn lemma_dead_in_order(mounted: MountedRows, k: KernelView)
    requires
        in_line(mounted),
        forall|i: int|
            0 <= i < mounted.len() ==> (#[trigger] mounted[i]).1.options.id == mounted[i].0,
    ensures
        forall|a: int, b: int|
            0 <= a < b < dead(mounted, k).len() ==> precedes(
                (#[trigger] dead(mounted, k)[a]).0.id,
                (#[trigger] dead(mounted, k)[b]).0.id,
            ),
    decreases mounted.len(),
{
    if mounted.len() > 0 {
        let front = mounted.drop_last();
        assert forall|i: int| 0 <= i < front.len() implies (#[trigger] front[i]).1.options.id
            == front[i].0 by {
            assert(front[i] == mounted[i]);
        }
        assert forall|i: int, j: int| 0 <= i < j < front.len() implies precedes(
            (#[trigger] front[i]).0,
            (#[trigger] front[j]).0,
        ) by {
            assert(precedes(mounted[i].0, mounted[j].0));
        }
        lemma_dead_in_order(front, k);
        let before = dead(front, k);
        let out = dead(mounted, k);
        let last = mounted[mounted.len() - 1];
        assert forall|a: int, b: int| 0 <= a < b < out.len() implies precedes(
            (#[trigger] out[a]).0.id,
            (#[trigger] out[b]).0.id,
        ) by {
            assert(out[a] == before[a]);
            if b < before.len() {
                assert(out[b] == before[b]);
            } else {
                law_only_disposed_entries_are_dead(front, k, before[a].0);
                let i = choose|i: int|
                    0 <= i < front.len() && (#[trigger] front[i]).1.options == before[a].0
                        && front[i].1.fiber.0 < k.fibers.len()
                        && k.fibers[front[i].1.fiber.0 as int].state == State::Disposed;
                assert(precedes(mounted[i].0, mounted[mounted.len() - 1].0));
                assert(out[b].0 == last.1.options);
            }
        }
    }
}

} // verus!
