//! What a pass over a tree keeps, replaces and takes away.

use crate::ctx::{disconnected, lemma_with_plugins};
use crate::entries::{EntryView, LoadErrorView};
use crate::fiber::{FiberId, State};
use crate::kernel::Kernel;
use crate::laws::equality::{alike, exact, law_equal_entries_are_alike};
use crate::laws::lifecycle::lemma_satisfied_ids;
use crate::laws::loading::{
    law_passes_mount_what_the_tree_says, law_plans_are_ordered_by_id, law_reports_say_what_changed,
    lemma_with_entries, lemma_without_ids, mounted_after,
};
use crate::loader::{
    ActionView, Actions, EntryKind, Loader, MountedRows, Pass, Setback, all_ids, batched,
    build_error, built_views, candidates, dead, decision, doomed, entry_error, ids_with, kept_in,
    plan_of, removals, root_ctx, verdict, with_entries, without_ids,
};
use crate::model::{KernelView, Step, is_active, kernel_ok, with_plugins};
use crate::plugin::{FnPlugin, PluginView};
use crate::reconcile::{fresh_report, lemma_position_at, passed};
use crate::shelf::{found, in_line, lemma_found, lemma_found_at};
use crate::tree::{EntryTree, by_id, lemma_position, lemma_push_contains, mountable, position};
use crate::upkeep::lemma_start_all;
use vstd::prelude::*;

verus! {

// ---- what is kept ----

/// An entry that stays is registered again exactly if the tree gives it other
/// options than it is mounted with. So what runs under an id afterwards runs
/// with what the tree says there: the very row, where its config has no zero
/// fraction.
pub proof fn law_changed_entries_are_registered_again(
    mounted: MountedRows,
    next: Seq<EntryView>,
    first: int,
    i: int,
    j: int,
)
    requires
        in_line(mounted),
        by_id(next),
        0 <= i < mounted.len(),
        0 <= j < next.len(),
        mounted[i].0 == next[j].id,
        mountable(next, next[j].id),
    ensures
        ({
            let report = fresh_report(plan_of(mounted, next));
            let after = found(mounted_after(mounted, next, first), next[j].id);
            &&& report.updated.contains(next[j].id) <==> !alike(mounted[i].1.options, next[j])
            &&& !report.created.contains(next[j].id)
            &&& !report.removed.contains(next[j].id)
            &&& after is Some
            &&& if alike(mounted[i].1.options, next[j]) {
                after == Some(mounted[i].1)
            } else {
                after->0.options == next[j]
            }
            &&& (mounted[i].1.options.config matches Some(value) ==> exact(value))
                ==> after->0.options == next[j]
        }),
{
    law_reports_say_what_changed(mounted, next);
    law_passes_mount_what_the_tree_says(mounted, next, first, next[j].id);
    lemma_found_at(mounted, i);
    lemma_position_at(next, j);
    law_equal_entries_are_alike(mounted[i].1.options, next[j]);
}

/// An entry that is not mounted, and that the tree gives, is created with the
/// tree's row; one that is mounted, and that the tree does not give, goes.
pub proof fn law_entries_come_and_go(
    mounted: MountedRows,
    next: Seq<EntryView>,
    first: int,
    id: Seq<char>,
)
    requires
        in_line(mounted),
        by_id(next),
    ensures
        ({
            let report = fresh_report(plan_of(mounted, next));
            let after = found(mounted_after(mounted, next, first), id);
            let was = exists|i: int| 0 <= i < mounted.len() && (#[trigger] mounted[i]).0 == id;
            &&& report.created.contains(id) <==> !was && mountable(next, id)
            &&& report.removed.contains(id) <==> was && !mountable(next, id)
            &&& !was ==> !report.updated.contains(id)
            &&& after is Some <==> mountable(next, id)
            &&& forall|j: int|
                0 <= j < next.len() && (#[trigger] next[j]).id == id && !was && mountable(next, id)
                    ==> after->0.options == next[j]
        }),
{
    law_reports_say_what_changed(mounted, next);
    law_passes_mount_what_the_tree_says(mounted, next, first, id);
    lemma_found(mounted, id);
    if exists|i: int| 0 <= i < mounted.len() && (#[trigger] mounted[i]).0 == id {
        let i = choose|i: int| 0 <= i < mounted.len() && (#[trigger] mounted[i]).0 == id;
        lemma_found_at(mounted, i);
    }
    if let Some(m) = found(mounted, id) {
        let i = choose|i: int| 0 <= i < mounted.len() && mounted[i] == (id, m);
        assert(mounted[i].0 == id);
    }
    assert forall|j: int| 0 <= j < next.len() && (#[trigger] next[j]).id == id implies position(
        next,
        id,
    ) == Some(j) by {
        lemma_position_at(next, j);
    }
}

// ---- what is disposed ----

/// Whether an action disposes the fiber.
spec fn disposes(action: ActionView, fiber: FiberId) -> bool {
    match action {
        ActionView::Replace(_, f) => f == fiber,
        ActionView::Remove(f) => f == fiber,
        _ => false,
    }
}

proof fn lemma_doomed(actions: Actions, fiber: FiberId)
    ensures
        doomed(actions).contains(fiber) <==> exists|a: int|
            0 <= a < actions.len() && disposes((#[trigger] actions[a]).1, fiber),
    decreases actions.len(),
{
    if actions.len() > 0 {
        let front = actions.drop_last();
        lemma_doomed(front, fiber);
        let last = actions[actions.len() - 1].1;
        match last {
            ActionView::Replace(_, f) => {
                lemma_push_contains(doomed(front), f, fiber);
            },
            ActionView::Remove(f) => {
                lemma_push_contains(doomed(front), f, fiber);
            },
            _ => {},
        }
        if exists|a: int| 0 <= a < actions.len() && disposes((#[trigger] actions[a]).1, fiber) {
            let a = choose|a: int|
                0 <= a < actions.len() && disposes((#[trigger] actions[a]).1, fiber);
            if a < front.len() {
                assert(disposes(front[a].1, fiber));
            }
        }
        if exists|a: int| 0 <= a < front.len() && disposes((#[trigger] front[a]).1, fiber) {
            let a = choose|a: int| 0 <= a < front.len() && disposes((#[trigger] front[a]).1, fiber);
            assert(disposes(actions[a].1, fiber));
        }
    } else {
        assert(doomed(actions) =~= Seq::<FiberId>::empty());
    }
}

/// A pass disposes the fibers of exactly those mounted entries that the tree
/// does not mount any more or gives other options.
pub proof fn law_what_a_pass_disposes(mounted: MountedRows, next: Seq<EntryView>, fiber: FiberId)
    requires
        in_line(mounted),
        by_id(next),
    ensures
        doomed(plan_of(mounted, next)).contains(fiber) <==> exists|i: int|
            0 <= i < mounted.len() && (#[trigger] mounted[i]).1.fiber == fiber && (!mountable(
                next,
                mounted[i].0,
            ) || exists|j: int|
                0 <= j < next.len() && (#[trigger] next[j]).id == mounted[i].0 && !alike(
                    mounted[i].1.options,
                    next[j],
                )),
{
    let actions = plan_of(mounted, next);
    let ids = all_ids(mounted, next);
    lemma_doomed(actions, fiber);
    law_plans_are_ordered_by_id(mounted, next);
    if doomed(actions).contains(fiber) {
        let a = choose|a: int|
            0 <= a < actions.len() && disposes((#[trigger] actions[a]).1, fiber);
        let id = ids[a];
        assert(actions[a] == (id, decision(mounted, next, id)));
        lemma_found(mounted, id);
        lemma_position(next, id);
        let m = found(mounted, id)->0;
        let i = choose|i: int| 0 <= i < mounted.len() && mounted[i] == (id, m);
        if mountable(next, id) {
            let j = position(next, id)->0;
            law_equal_entries_are_alike(m.options, next[j]);
            assert(next[j].id == mounted[i].0);
        }
        assert(mounted[i].1.fiber == fiber);
    }
    if exists|i: int|
        0 <= i < mounted.len() && (#[trigger] mounted[i]).1.fiber == fiber && (!mountable(
            next,
            mounted[i].0,
        ) || exists|j: int|
            0 <= j < next.len() && (#[trigger] next[j]).id == mounted[i].0 && !alike(
                mounted[i].1.options,
                next[j],
            )) {
        let i = choose|i: int|
            0 <= i < mounted.len() && (#[trigger] mounted[i]).1.fiber == fiber && (!mountable(
                next,
                mounted[i].0,
            ) || exists|j: int|
                0 <= j < next.len() && (#[trigger] next[j]).id == mounted[i].0 && !alike(
                    mounted[i].1.options,
                    next[j],
                ));
        let id = mounted[i].0;
        lemma_found_at(mounted, i);
        assert(ids.contains(id));
        let a = choose|a: int| 0 <= a < ids.len() && ids[a] == id;
        assert(actions[a] == (id, decision(mounted, next, id)));
        lemma_position(next, id);
        if mountable(next, id) {
            let j = choose|j: int|
                0 <= j < next.len() && (#[trigger] next[j]).id == mounted[i].0 && !alike(
                    mounted[i].1.options,
                    next[j],
                );
            lemma_position_at(next, j);
            law_equal_entries_are_alike(mounted[i].1.options, next[j]);
        }
        assert(disposes(actions[a].1, fiber));
    }
}

// ---- how many ----

/// Nothing is left out of a report: what was created, updated, removed and
/// kept is together every id of the tree and of what was mounted, each once.
/// As many fibers are disposed as entries were updated or removed.
pub proof fn law_reports_count_every_id(mounted: MountedRows, next: Seq<EntryView>)
    ensures
        ({
            let actions = plan_of(mounted, next);
            let report = fresh_report(actions);
            &&& report.created.len() + report.updated.len() + report.removed.len() + report.kept
                == all_ids(mounted, next).len()
            &&& doomed(actions).len() == report.updated.len() + report.removed.len()
            &&& candidates(actions).len() == report.created.len() + report.updated.len()
            &&& report.restarted.len() == 0
        }),
{
    lemma_counts(plan_of(mounted, next));
}

proof fn lemma_counts(actions: Actions)
    ensures
        ids_with(candidates(actions), false).len() + ids_with(candidates(actions), true).len()
            == candidates(actions).len(),
        candidates(actions).len() + removals(actions).len() + kept_in(actions) == actions.len(),
        doomed(actions).len() == ids_with(candidates(actions), true).len() + removals(
            actions,
        ).len(),
    decreases actions.len(),
{
    if actions.len() > 0 {
        let front = actions.drop_last();
        lemma_counts(front);
        match actions.last().1 {
            ActionView::Create(_) => {
                assert(candidates(actions).drop_last() =~= candidates(front));
            },
            ActionView::Replace(_, _) => {
                assert(candidates(actions).drop_last() =~= candidates(front));
            },
            _ => {},
        }
    }
}

// ---- what is refused ----

/// Whether nothing is wrong with an entry: its kind is registered and its
/// config passed the check.
pub open spec fn in_order(
    kinds: Seq<(Seq<char>, EntryKind)>,
    row: EntryView,
    check: Option<String>,
) -> bool {
    check is None && exists|i: int|
        0 <= i < kinds.len() && Some((#[trigger] kinds[i]).0) == row.plugin
}

proof fn lemma_in_order(
    kinds: Seq<(Seq<char>, EntryKind)>,
    row: EntryView,
    check: Option<String>,
)
    requires
        row.plugin is Some,
    ensures
        in_order(kinds, row, check) <==> entry_error(kinds, row, check) is None,
        entry_error(kinds, row, check) matches Some(error) ==> error
            == LoadErrorView::UnknownKind(row.id, row.plugin->0) && (forall|i: int|
            0 <= i < kinds.len() ==> (#[trigger] kinds[i]).0 != row.plugin->0) || check is Some
            && error == LoadErrorView::InvalidConfig(row.id, check->0@) && (exists|i: int|
            0 <= i < kinds.len() && (#[trigger] kinds[i]).0 == row.plugin->0),
{
    let kind = row.plugin->0;
    lemma_found(kinds, kind);
    if let Some(value) = found(kinds, kind) {
        let i = choose|i: int| 0 <= i < kinds.len() && kinds[i] == (kind, value);
        assert(kinds[i].0 == kind);
    }
}

/// Whether entry `i` is the first with which something is wrong, and this is
/// what.
pub open spec fn blamed(
    kinds: Seq<(Seq<char>, EntryKind)>,
    entries: Seq<(EntryView, bool)>,
    checks: Seq<Option<String>>,
    i: int,
    error: LoadErrorView,
) -> bool {
    let row = entries[i].0;
    let known = exists|a: int| 0 <= a < kinds.len() && (#[trigger] kinds[a]).0 == row.plugin->0;
    &&& forall|j: int| 0 <= j < i ==> in_order(kinds, (#[trigger] entries[j]).0, checks[j])
    &&& if known {
        checks[i] is Some && error == LoadErrorView::InvalidConfig(row.id, checks[i]->0@)
    } else {
        error == LoadErrorView::UnknownKind(row.id, row.plugin->0)
    }
}

/// Entries pass exactly if nothing is wrong with any of them; if not, it is
/// the first with which something is that is complained of: that its kind is
/// unknown, or else what the check of its config said.
pub proof fn law_the_first_wrong_entry_is_complained_of(
    kinds: Seq<(Seq<char>, EntryKind)>,
    entries: Seq<(EntryView, bool)>,
    checks: Seq<Option<String>>,
)
    requires
        forall|i: int| 0 <= i < entries.len() ==> (#[trigger] entries[i]).0.plugin is Some,
    ensures
        verdict(kinds, entries, checks) is None <==> forall|i: int|
            0 <= i < entries.len() ==> in_order(kinds, (#[trigger] entries[i]).0, checks[i]),
        verdict(kinds, entries, checks) matches Some(error) ==> exists|i: int|
            0 <= i < entries.len() && #[trigger] blamed(kinds, entries, checks, i, error),
    decreases entries.len(),
{
    if entries.len() > 0 {
        let front = entries.drop_last();
        let n = entries.len() - 1;
        assert forall|i: int| 0 <= i < front.len() implies #[trigger] front[i] == entries[i] by {}
        law_the_first_wrong_entry_is_complained_of(kinds, front, checks);
        lemma_in_order(kinds, entries[n].0, checks[n]);
        if verdict(kinds, front, checks) is None {
            assert forall|i: int| 0 <= i < n implies in_order(
                kinds,
                (#[trigger] entries[i]).0,
                checks[i],
            ) by {
                assert(front[i] == entries[i]);
            }
            if let Some(error) = verdict(kinds, entries, checks) {
                assert(blamed(kinds, entries, checks, n, error));
            }
        } else {
            let error = verdict(kinds, front, checks)->0;
            let i = choose|i: int|
                0 <= i < front.len() && #[trigger] blamed(kinds, front, checks, i, error);
            assert(front[i] == entries[i]);
            assert forall|j: int| 0 <= j < i implies in_order(
                kinds,
                (#[trigger] entries[j]).0,
                checks[j],
            ) by {
                assert(front[j] == entries[j]);
            }
            assert(blamed(kinds, entries, checks, i, error));
            assert(!in_order(kinds, entries[i].0, checks[i]));
        }
    }
}

/// A batch is built exactly if every entry of it could be; if not, the first
/// that could not be is named, with the reason that was given.
pub proof fn law_the_first_failed_build_is_named(
    entries: Seq<(EntryView, bool)>,
    built: Seq<Result<FnPlugin, String>>,
)
    ensures
        build_error(entries, built) is None <==> forall|i: int|
            0 <= i < built.len() ==> (#[trigger] built[i]) is Ok,
        build_error(entries, built) matches Some(error) ==> exists|i: int|
            {
                &&& 0 <= i < built.len()
                &&& forall|j: int| 0 <= j < i ==> (#[trigger] built[j]) is Ok
                &&& (#[trigger] built[i]) is Err
                &&& error == LoadErrorView::BuildFailed(entries[i].0.id, built[i]->Err_0@)
            },
    decreases built.len(),
{
    if built.len() > 0 {
        let front = built.drop_last();
        law_the_first_failed_build_is_named(entries, front);
        assert forall|i: int| 0 <= i < front.len() implies #[trigger] built[i] == front[i] by {}
        if let Some(error) = build_error(entries, front) {
            let i = choose|i: int|
                {
                    &&& 0 <= i < front.len()
                    &&& forall|j: int| 0 <= j < i ==> (#[trigger] front[j]) is Ok
                    &&& (#[trigger] front[i]) is Err
                    &&& error == LoadErrorView::BuildFailed(entries[i].0.id, front[i]->Err_0@)
                };
            assert(built[i] is Err);
            assert forall|j: int| 0 <= j < i implies (#[trigger] built[j]) is Ok by {
                assert(front[j] is Ok);
            }
        } else {
            assert forall|j: int| 0 <= j < front.len() implies (#[trigger] built[j]) is Ok by {
                assert(front[j] is Ok);
            }
            assert(built[built.len() - 1] == built.last());
        }
    }
}

// ---- repair ----

/// What is registered again is exactly what is mounted on a disposed fiber;
/// a fiber that failed on its own is not.
pub proof fn law_only_disposed_entries_are_dead(mounted: MountedRows, k: KernelView, row: EntryView)
    ensures
        (exists|j: int| 0 <= j < dead(mounted, k).len() && (#[trigger] dead(mounted, k)[j]).0 == row)
            <==> exists|i: int|
            0 <= i < mounted.len() && (#[trigger] mounted[i]).1.options == row
                && mounted[i].1.fiber.0 < k.fibers.len()
                && k.fibers[mounted[i].1.fiber.0 as int].state == State::Disposed,
        forall|j: int| 0 <= j < dead(mounted, k).len() ==> !(#[trigger] dead(mounted, k)[j]).1,
    decreases mounted.len(),
{
    if mounted.len() > 0 {
        let front = mounted.drop_last();
        law_only_disposed_entries_are_dead(front, k, row);
        let before = dead(front, k);
        let out = dead(mounted, k);
        let n = mounted.len() - 1;
        assert(mounted[n] == mounted.last());
        assert forall|j: int| 0 <= j < out.len() implies !(#[trigger] out[j]).1 by {
            if j < before.len() {
                assert(out[j] == before[j]);
            }
        }
        if exists|j: int| 0 <= j < out.len() && (#[trigger] out[j]).0 == row {
            let j = choose|j: int| 0 <= j < out.len() && (#[trigger] out[j]).0 == row;
            if j < before.len() {
                assert(before[j].0 == row);
                let i = choose|i: int|
                    0 <= i < front.len() && (#[trigger] front[i]).1.options == row
                        && front[i].1.fiber.0 < k.fibers.len()
                        && k.fibers[front[i].1.fiber.0 as int].state == State::Disposed;
                assert(mounted[i] == front[i]);
            } else {
                assert(mounted[n].1.options == row);
            }
        }
        if exists|i: int|
            0 <= i < mounted.len() && (#[trigger] mounted[i]).1.options == row
                && mounted[i].1.fiber.0 < k.fibers.len()
                && k.fibers[mounted[i].1.fiber.0 as int].state == State::Disposed {
            let i = choose|i: int|
                0 <= i < mounted.len() && (#[trigger] mounted[i]).1.options == row
                    && mounted[i].1.fiber.0 < k.fibers.len()
                    && k.fibers[mounted[i].1.fiber.0 as int].state == State::Disposed;
            if i < n {
                assert(front[i].1.options == row);
                let j = choose|j: int| 0 <= j < before.len() && (#[trigger] before[j]).0 == row;
                assert(out[j] == before[j]);
            } else {
                assert(out[out.len() - 1].0 == row);
            }
        }
    }
}

/// Repair gives every entry that is mounted on a disposed fiber a new fiber,
/// with the options it had, and leaves every other as it is.
pub proof fn law_repair_restarts_what_was_disposed(
    mounted: MountedRows,
    k: KernelView,
    i: int,
)
    requires
        kernel_ok(k),
        in_line(mounted),
        forall|a: int|
            0 <= a < mounted.len() ==> (#[trigger] mounted[a]).1.options.id == mounted[a].0,
        k.fibers.len() + dead(mounted, k).len() <= u32::MAX,
        0 <= i < mounted.len(),
    ensures
        ({
            let entries = dead(mounted, k);
            let m = mounted[i].1;
            let after = found(
                with_entries(mounted, entries, k.fibers.len() as int),
                mounted[i].0,
            );
            let was_disposed = m.fiber.0 < k.fibers.len() && k.fibers[m.fiber.0 as int].state
                == State::Disposed;
            &&& after is Some
            &&& after->0.options == m.options
            &&& if was_disposed {
                k.fibers.len() <= after->0.fiber.0 < k.fibers.len() + entries.len()
            } else {
                after->0.fiber == m.fiber
            }
        }),
{
    let entries = dead(mounted, k);
    let id = mounted[i].0;
    let m = mounted[i].1;
    let first = k.fibers.len() as int;
    lemma_found_at(mounted, i);
    lemma_with_entries(mounted, entries, first, id);
    law_only_disposed_entries_are_dead(mounted, k, m.options);
    assert forall|j: int| 0 <= j < entries.len() && (#[trigger] entries[j]).0.id == id implies
        entries[j].0 == m.options && m.fiber.0 < k.fibers.len()
            && k.fibers[m.fiber.0 as int].state == State::Disposed by {
        law_only_disposed_entries_are_dead(mounted, k, entries[j].0);
        let a = choose|a: int|
            0 <= a < mounted.len() && (#[trigger] mounted[a]).1.options == entries[j].0
                && mounted[a].1.fiber.0 < k.fibers.len()
                && k.fibers[mounted[a].1.fiber.0 as int].state == State::Disposed;
        lemma_found_at(mounted, a);
        assert(mounted[a].0 == id);
    }
    let after = found(with_entries(mounted, entries, first), id);
    if m.fiber.0 < k.fibers.len() && k.fibers[m.fiber.0 as int].state == State::Disposed {
        let j = choose|j: int| 0 <= j < entries.len() && (#[trigger] entries[j]).0 == m.options;
        assert(entries[j].0.id == id);
    }
}

// ---- whole passes ----

/// Once a pass went through, a fiber that was not in use in the middle of it
/// is not in use.
proof fn lemma_stays_out_of_use(
    mid: KernelView,
    k2: KernelView,
    plugins: Seq<PluginView>,
    begun: Seq<FiberId>,
    fiber: FiberId,
)
    requires
        kernel_ok(mid),
        mid.fibers.len() + plugins.len() <= u32::MAX,
        batched(mid, k2, plugins, begun),
        fiber.0 < mid.fibers.len(),
        !is_active(mid, fiber),
    ensures
        !is_active(k2, fiber),
{
    let queued = with_plugins(mid, root_ctx(), plugins);
    lemma_with_plugins(mid, root_ctx(), plugins);
    lemma_satisfied_ids(queued);
    lemma_start_all(queued, begun);
    assert(queued.fibers[fiber.0 as int] == mid.fibers[fiber.0 as int]);
}

/// After a pass that went through, exactly the entries are mounted that the
/// tree mounts, those that the report does not name as they were, and none of
/// the fibers that were replaced or removed is in use. A pass over an invalid
/// tree, or one in which an entry could not be built, registers nothing.
pub proof fn law_passes_go_through_or_register_nothing(
    loader: &mut Loader,
    kernel: &mut Kernel,
    next: EntryTree,
    checks: Vec<Option<String>>,
    built: Vec<Result<FnPlugin, String>>,
    r: Result<Pass, Setback>,
    id: Seq<char>,
)
    requires
        old(loader).wf(),
        old(kernel).wf(),
        next.wf(),
        built@.len() == candidates(plan_of(old(loader).spec_mounted(), next@)).len(),
        old(kernel)@.fibers.len() + built@.len() <= u32::MAX,
        call_ensures(Loader::reconcile, (loader, kernel, &next, &checks, built), r),
    ensures
        r matches Ok(pass) ==> ({
            let before = found(old(loader).spec_mounted(), id);
            let after = found(final(loader).spec_mounted(), id);
            let report = pass.report@;
            &&& after is Some <==> mountable(next@, id)
            &&& report.created.contains(id) <==> mountable(next@, id) && before is None
            &&& report.removed.contains(id) <==> !mountable(next@, id) && before is Some
            &&& report.updated.contains(id) ==> mountable(next@, id) && before is Some
            &&& before is Some && mountable(next@, id) && !report.updated.contains(id) ==> after
                == before
            &&& before matches Some(m) ==> (report.removed.contains(id)
                || report.updated.contains(id)) && m.fiber.0 < old(kernel)@.fibers.len()
                ==> !is_active(final(kernel)@, m.fiber)
        }),
        r is Err ==> ({
            let before = found(old(loader).spec_mounted(), id);
            let after = found(final(loader).spec_mounted(), id);
            &&& final(kernel)@.fibers.len() == old(kernel)@.fibers.len()
            &&& after is Some ==> after == before
            &&& after is None && before is Some ==> !mountable(next@, id)
        }),
{
    let mounted = old(loader).spec_mounted();
    let actions = plan_of(mounted, next@);
    let n = actions.len() as int;
    law_reports_say_what_changed(mounted, next@);
    lemma_without_ids(mounted, removals(actions), id);
    lemma_found(mounted, id);
    if verdict(old(loader).spec_kinds(), candidates(actions), checks@) is None {
        let (mid, steps) = choose|mid: KernelView, steps: Seq<Step>| #[trigger]
            disconnected(old(kernel)@, mid, doomed(actions), steps) && match r {
                Ok(pass) => {
                    &&& build_error(candidates(actions), built@) is None
                    &&& pass.steps@ == steps
                    &&& pass.report@ == fresh_report(actions)
                    &&& batched(mid, final(kernel)@, built_views(built@), pass.started@)
                    &&& final(loader).spec_mounted() == with_entries(
                        without_ids(mounted, removals(actions)),
                        candidates(actions),
                        mid.fibers.len() as int,
                    )
                },
                Err(setback) => {
                    &&& build_error(candidates(actions), built@) == Some(setback.error@)
                    &&& setback.steps@ == steps
                    &&& final(kernel)@ == mid
                    &&& final(loader).spec_mounted() == without_ids(mounted, removals(actions))
                },
            };
        if let Ok(pass) = r {
            law_passes_mount_what_the_tree_says(mounted, next@, mid.fibers.len() as int, id);
            if let Some(m) = found(mounted, id) {
                if (pass.report@.removed.contains(id) || pass.report@.updated.contains(id))
                    && m.fiber.0 < old(kernel)@.fibers.len() {
                    law_what_a_pass_disposes(mounted, next@, m.fiber);
                    let i = choose|i: int| 0 <= i < mounted.len() && mounted[i] == (id, m);
                    assert(mounted[i].1.fiber == m.fiber);
                    if pass.report@.updated.contains(id) {
                        lemma_position(next@, id);
                        let j = position(next@, id)->0;
                        law_equal_entries_are_alike(m.options, next@[j]);
                        assert(next@[j].id == mounted[i].0);
                    }
                    assert(doomed(actions).contains(m.fiber));
                    let a = choose|a: int|
                        0 <= a < doomed(actions).len() && doomed(actions)[a] == m.fiber;
                    assert(!is_active(mid, doomed(actions)[a]));
                    lemma_stays_out_of_use(
                        mid,
                        final(kernel)@,
                        built_views(built@),
                        pass.started@,
                        m.fiber,
                    );
                }
            }
        }
    }
}

} // verus!
