//! Bringing what is mounted in line with a tree.

use crate::ctx::{disconnected, plugin_views};
use crate::entries::{EntrySpec, EntryView, LoadError, LoadErrorView};
use crate::fiber::FiberId;
use crate::kernel::Kernel;
use crate::loader::{
    Actions, Loader, LoaderReport, MountedRows, Pass, ReportView, Setback, all_ids, batched,
    build_error, built_views, candidates, dead, decision, doomed, entry_pairs, fresh_candidates,
    ids_with, kept_in, kinds_named, plan_of, removals, root_ctx, verdict, with_entries, without_ids,
};
use crate::model::{KernelView, Step, started};
use crate::plugin::FnPlugin;
use crate::text::{lemma_precedes_irreflexive, lemma_texts_push, precedes, texts_view};
use crate::tree::{EntryTree, by_id, mountable, position, row_views};
use vstd::prelude::*;

verus! {

/// An entry that may be mounted names a kind.
proof fn lemma_mountable_named(rows: Seq<EntryView>, id: Seq<char>)
    ensures
        mountable(rows, id) ==> position(rows, id) is Some && rows[position(
            rows,
            id,
        )->0].plugin is Some,
{
}

/// Every entry to register names a kind.
pub proof fn lemma_candidates_named(mounted: MountedRows, next: Seq<EntryView>, n: int)
    requires
        0 <= n <= plan_of(mounted, next).len(),
    ensures
        kinds_named(candidates(plan_of(mounted, next).take(n))),
    decreases n,
{
    let all = plan_of(mounted, next);
    if n > 0 {
        lemma_candidates_named(mounted, next, n - 1);
        let id = all_ids(mounted, next)[n - 1];
        assert(all[n - 1] == (id, decision(mounted, next, id)));
        lemma_mountable_named(next, id);
        assert(all.take(n).drop_last() =~= all.take(n - 1));
        let front = candidates(all.take(n - 1));
        let out = candidates(all.take(n));
        assert forall|i: int| 0 <= i < out.len() implies (#[trigger] out[i]).0.plugin is Some by {
            if i < front.len() {
                assert(out[i] == front[i]);
            }
        }
    }
}

/// Every entry of a fresh tree to register names a kind.
proof fn lemma_fresh_named(rows: Seq<EntryView>, n: nat)
    requires
        by_id(rows),
        n <= rows.len(),
    ensures
        kinds_named(fresh_candidates(rows, n)),
    decreases n,
{
    if n > 0 {
        lemma_fresh_named(rows, (n - 1) as nat);
        lemma_position_at(rows, n - 1);
        let front = fresh_candidates(rows, (n - 1) as nat);
        let out = fresh_candidates(rows, n);
        assert forall|i: int| 0 <= i < out.len() implies (#[trigger] out[i]).0.plugin is Some by {
            if i < front.len() {
                assert(out[i] == front[i]);
            }
        }
    }
}

/// Every entry that was disposed names a kind.
proof fn lemma_dead_named(mounted: MountedRows, k: KernelView)
    requires
        forall|i: int|
            #![trigger mounted[i]]
            0 <= i < mounted.len() ==> mounted[i].1.options.plugin is Some,
    ensures
        kinds_named(dead(mounted, k)),
    decreases mounted.len(),
{
    if mounted.len() > 0 {
        let rest = mounted.drop_last();
        assert forall|i: int| #![trigger rest[i]] 0 <= i < rest.len() implies
            rest[i].1.options.plugin is Some by {
            assert(rest[i] == mounted[i]);
        }
        lemma_dead_named(rest, k);
        let front = dead(rest, k);
        let out = dead(mounted, k);
        assert(mounted[mounted.len() - 1].1.options.plugin is Some);
        assert forall|i: int| 0 <= i < out.len() implies (#[trigger] out[i]).0.plugin is Some by {
            if i < front.len() {
                assert(out[i] == front[i]);
            }
        }
    }
}

/// A row is found at its place.
pub proof fn lemma_position_at(rows: Seq<EntryView>, i: int)
    requires
        by_id(rows),
        0 <= i < rows.len(),
    ensures
        position(rows, rows[i].id) == Some(i),
    decreases rows.len(),
{
    if i < rows.len() - 1 {
        assert(precedes(rows[i].id, rows[rows.len() - 1].id));
        lemma_precedes_irreflexive(rows[i].id);
        let front = rows.drop_last();
        assert forall|a: int, b: int| 0 <= a < b < front.len() implies precedes(
            (#[trigger] front[a]).id,
            (#[trigger] front[b]).id,
        ) by {
            assert(precedes(rows[a].id, rows[b].id));
        }
        lemma_position_at(front, i);
    }
}

/// The ids of the entries that were, or were not, mounted before.
fn ids_among(entries: &Vec<(EntrySpec, bool)>, replaced: bool) -> (r: Vec<String>)
    ensures
        texts_view(r@) == ids_with(entry_pairs(entries@), replaced),
{
    let ghost all = entry_pairs(entries@);
    let mut out: Vec<String> = Vec::new();
    let mut i: usize = 0;
    assert(texts_view(out@) =~= ids_with(all.take(0), replaced));
    while i < entries.len()
        invariant
            all == entry_pairs(entries@),
            i <= entries@.len(),
            texts_view(out@) == ids_with(all.take(i as int), replaced),
        decreases entries@.len() - i,
    {
        assert(all.take(i + 1).drop_last() =~= all.take(i as int));
        assert(all.take(i + 1).last() == (entries@[i as int].0@, entries@[i as int].1));
        if entries[i].1 == replaced {
            let id = entries[i].0.id.clone();
            proof {
                lemma_texts_push(out@, id);
            }
            out.push(id);
        }
        i = i + 1;
    }
    assert(all.take(i as int) =~= all);
    out
}

/// The plugins, or why the first entry that could not be built could not.
fn collect_built(
    entries: &Vec<(EntrySpec, bool)>,
    built: Vec<Result<FnPlugin, String>>,
) -> (r: Result<Vec<FnPlugin>, LoadError>)
    requires
        built@.len() == entries@.len(),
    ensures
        match r {
            Ok(plugins) => {
                &&& build_error(entry_pairs(entries@), built@) is None
                &&& plugins@.len() == built@.len()
                &&& plugin_views(plugins@) == built_views(built@)
            },
            Err(error) => build_error(entry_pairs(entries@), built@) == Some(error@),
        },
{
    let ghost all = entry_pairs(entries@);
    let ghost given = built@;
    let n = entries.len();
    let mut queue = built;
    let mut plugins: Vec<FnPlugin> = Vec::new();
    let mut i: usize = 0;
    assert(given.take(0) =~= Seq::<Result<FnPlugin, String>>::empty());
    while queue.len() > 0
        invariant
            all == entry_pairs(entries@),
            given == built@,
            n == given.len(),
            n == entries@.len(),
            i + queue@.len() == n,
            queue@ == given.skip(i as int),
            build_error(all, given.take(i as int)) is None,
            plugins@.len() == i,
            plugin_views(plugins@) == built_views(given).take(i as int),
        decreases queue@.len(),
    {
        let ghost rest = queue@;
        let one = queue.remove(0);
        proof {
            assert(one == rest[0]);
            assert(one == given[i as int]);
            assert(given.take(i + 1).drop_last() =~= given.take(i as int));
            assert(given.take(i + 1).last() == one);
            assert(queue@ =~= given.skip(i + 1));
            assert(all[i as int] == (entries@[i as int].0@, entries@[i as int].1));
        }
        match one {
            Ok(plugin) => {
                let ghost done = plugins@;
                assert(built_views(given)[i as int] == plugin@);
                plugins.push(plugin);
                assert(plugin_views(plugins@) =~= plugin_views(done).push(plugin@));
                assert(plugin_views(plugins@) =~= built_views(given).take(i + 1));
            },
            Err(reason) => {
                proof {
                    lemma_build_error_stops(all, given, (i + 1) as int, given.len() as int);
                    assert(given.take(given.len() as int) =~= given);
                }
                return Err(LoadError::BuildFailed(entries[i].0.id.clone(), reason));
            },
        }
        i = i + 1;
    }
    proof {
        assert(given.take(i as int) =~= given);
        assert(built_views(given).take(i as int) =~= built_views(given));
    }
    Ok(plugins)
}

proof fn lemma_build_error_stops(
    entries: Seq<(EntryView, bool)>,
    built: Seq<Result<FnPlugin, String>>,
    n: int,
    m: int,
)
    requires
        0 <= n <= m <= built.len(),
        build_error(entries, built.take(n)) is Some,
    ensures
        build_error(entries, built.take(m)) == build_error(entries, built.take(n)),
    decreases m,
{
    if n < m {
        assert(built.take(m).drop_last() =~= built.take(m - 1));
        lemma_build_error_stops(entries, built, n, m - 1);
    }
}

/// What a fresh report says.
pub open spec fn fresh_report(actions: Actions) -> ReportView {
    ReportView {
        created: ids_with(candidates(actions), false),
        updated: ids_with(candidates(actions), true),
        removed: removals(actions),
        restarted: Seq::empty(),
        kept: kept_in(actions),
    }
}

/// How a pass that was not refused ends. The fibers that are replaced or go
/// are disposed first. If an entry cannot be built, the pass ends there: what
/// goes is gone, and nothing is registered. Otherwise the entries are
/// registered as one batch and mounted.
pub open spec fn passed(
    k: KernelView,
    k2: KernelView,
    mounted: MountedRows,
    mounted2: MountedRows,
    actions: Actions,
    built: Seq<Result<FnPlugin, String>>,
    r: Result<Pass, Setback>,
) -> bool {
    exists|mid: KernelView, steps: Seq<Step>| #[trigger]
        disconnected(k, mid, doomed(actions), steps) && match r {
            Ok(pass) => {
                &&& build_error(candidates(actions), built) is None
                &&& pass.steps@ == steps
                &&& pass.report@ == fresh_report(actions)
                &&& batched(mid, k2, built_views(built), pass.started@)
                &&& mounted2 == with_entries(
                    without_ids(mounted, removals(actions)),
                    candidates(actions),
                    mid.fibers.len() as int,
                )
            },
            Err(setback) => {
                &&& build_error(candidates(actions), built) == Some(setback.error@)
                &&& setback.steps@ == steps
                &&& k2 == mid
                &&& mounted2 == without_ids(mounted, removals(actions))
            },
        }
}

impl Loader {
    /// Mounts every enabled entry of a fresh tree, as one batch, in id order.
    ///
    /// All entries are validated against the kinds first: an invalid tree
    /// mounts nothing. `checks` says what came of checking each entry's
    /// config, `built` what came of building it, in the order of
    /// [`Loader::fresh`].
    pub fn mount(
        &mut self,
        kernel: &mut Kernel,
        tree: &EntryTree,
        checks: &Vec<Option<String>>,
        built: Vec<Result<FnPlugin, String>>,
    ) -> (r: Result<(Vec<String>, Vec<FiberId>), LoadError>)
        requires
            old(self).wf(),
            old(kernel).wf(),
            tree.wf(),
            checks@.len() == fresh_candidates(tree@, tree@.len()).len(),
            built@.len() == checks@.len(),
            old(kernel)@.fibers.len() + built@.len() <= u32::MAX,
        ensures
            final(self).wf(),
            final(kernel).wf(),
            final(self).spec_kinds() == old(self).spec_kinds(),
            ({
                let entries = fresh_candidates(tree@, tree@.len());
                match r {
                    Ok(done) => {
                        &&& old(self).spec_mounted().len() == 0
                        &&& verdict(old(self).spec_kinds(), entries, checks@) is None
                        &&& build_error(entries, built@) is None
                        &&& texts_view(done.0@) == ids_with(entries, false)
                        &&& batched(old(kernel)@, final(kernel)@, built_views(built@), done.1@)
                        &&& final(self).spec_mounted() == with_entries(
                            old(self).spec_mounted(),
                            entries,
                            old(kernel)@.fibers.len() as int,
                        )
                    },
                    Err(error) => {
                        &&& final(kernel)@ == old(kernel)@
                        &&& final(self).spec_mounted() == old(self).spec_mounted()
                        &&& if old(self).spec_mounted().len() > 0 {
                            error@ == LoadErrorView::AlreadyMounted
                        } else {
                            match verdict(old(self).spec_kinds(), entries, checks@) {
                                Some(invalid) => error@ == invalid,
                                None => build_error(entries, built@) == Some(error@),
                            }
                        }
                    },
                }
            }),
    {
        if !self.is_empty() {
            return Err(LoadError::AlreadyMounted);
        }
        let entries = Loader::fresh(tree);
        proof {
            lemma_fresh_named(tree@, tree@.len());
        }
        match self.validate(&entries, checks) {
            Ok(()) => {},
            Err(error) => {
                return Err(error);
            },
        }
        let plugins = match collect_built(&entries, built) {
            Ok(plugins) => plugins,
            Err(error) => {
                return Err(error);
            },
        };
        let first = kernel.fiber_count();
        let ctx = kernel.root_ctx();
        let (_, started) = ctx.register_batch(kernel, plugins);
        self.record(&entries, first);
        Ok((ids_among(&entries, false), started))
    }

    /// The entries of a fresh tree to register, in id order. Their configs
    /// are to be checked, and they are to be built.
    pub fn fresh(tree: &EntryTree) -> (r: Vec<(EntrySpec, bool)>)
        requires
            tree.wf(),
        ensures
            entry_pairs(r@) == fresh_candidates(tree@, tree@.len()),
    {
        let rows = tree.entries();
        let mut out: Vec<(EntrySpec, bool)> = Vec::new();
        let mut i: usize = 0;
        assert(entry_pairs(out@) =~= fresh_candidates(tree@, 0));
        while i < rows.len()
            invariant
                tree.wf(),
                row_views(rows@) == tree@,
                i <= rows@.len(),
                entry_pairs(out@) == fresh_candidates(tree@, i as nat),
            decreases rows@.len() - i,
        {
            let ghost done = out@;
            assert(tree@[i as int] == rows@[i as int]@);
            if tree.effectively_enabled(rows[i].id.as_str()) {
                out.push((rows[i].copy(), false));
                assert(entry_pairs(out@) =~= entry_pairs(done).push((tree@[i as int], false)));
            }
            i = i + 1;
        }
        out
    }

    /// Brings the mounted set in line with `next`: creates missing entries,
    /// disposes removed ones, and registers changed ones again; untouched
    /// entries keep running. Disabled transitions count as removals and
    /// creations.
    ///
    /// Every changed entry is validated before anything is disposed, so an
    /// invalid tree is a no-op. Disposal completes before a replacement fiber
    /// registers; if an entry then cannot be built, nothing registers. `checks` says what came of checking each entry's config,
    /// `built` what came of building it, in the order of
    /// [`Loader::candidates`] of the [`Loader::plan`].
    ///
    /// Entries that were disposed as a side effect are left to
    /// [`Loader::repair_collateral`].
    pub fn reconcile(
        &mut self,
        kernel: &mut Kernel,
        next: &EntryTree,
        checks: &Vec<Option<String>>,
        built: Vec<Result<FnPlugin, String>>,
    ) -> (r: Result<Pass, Setback>)
        requires
            old(self).wf(),
            old(kernel).wf(),
            next.wf(),
            checks@.len() == candidates(plan_of(old(self).spec_mounted(), next@)).len(),
            built@.len() == checks@.len(),
            old(kernel)@.fibers.len() + built@.len() <= u32::MAX,
        ensures
            final(self).wf(),
            final(kernel).wf(),
            final(self).spec_kinds() == old(self).spec_kinds(),
            ({
                let actions = plan_of(old(self).spec_mounted(), next@);
                match verdict(old(self).spec_kinds(), candidates(actions), checks@) {
                    Some(invalid) => {
                        &&& r matches Err(setback) && setback.error@ == invalid
                            && setback.steps@.len() == 0
                        &&& final(kernel)@ == old(kernel)@
                        &&& final(self).spec_mounted() == old(self).spec_mounted()
                    },
                    None => passed(
                        old(kernel)@,
                        final(kernel)@,
                        old(self).spec_mounted(),
                        final(self).spec_mounted(),
                        actions,
                        built@,
                        r,
                    ),
                }
            }),
    {
        let ghost k0 = kernel@;
        let ghost mounted0 = self.spec_mounted();
        let ghost given = built@;
        let (kept, actions) = self.plan(next);
        let ghost plan = plan_of(mounted0, next@);
        let entries = Loader::candidates(&actions);
        proof {
            lemma_candidates_named(mounted0, next@, plan.len() as int);
            assert(plan.take(plan.len() as int) =~= plan);
        }
        match self.validate(&entries, checks) {
            Ok(()) => {},
            Err(error) => {
                return Err(Setback { error, steps: Vec::new() });
            },
        }
        let going = Loader::doomed(&actions);
        let steps = kernel.dispose_all(&going);
        let ghost mid = kernel@;
        assert(disconnected(k0, mid, doomed(plan), steps@));
        let removed = Loader::removals(&actions);
        self.unmount(&removed);
        let plugins = match collect_built(&entries, built) {
            Ok(plugins) => plugins,
            Err(error) => {
                let r: Result<Pass, Setback> = Err(Setback { error, steps });
                assert(passed(k0, kernel@, mounted0, self.spec_mounted(), plan, given, r));
                return r;
            },
        };
        let first = kernel.fiber_count();
        let ctx = kernel.root_ctx();
        let (_, started) = ctx.register_batch(kernel, plugins);
        self.record(&entries, first);
        let created = ids_among(&entries, false);
        let updated = ids_among(&entries, true);
        let report = LoaderReport { created, updated, removed, restarted: Vec::new(), kept };
        assert(report@ =~= fresh_report(plan));
        let r: Result<Pass, Setback> = Ok(Pass { report, steps, started });
        assert(passed(k0, kernel@, mounted0, self.spec_mounted(), plan, given, r));
        r
    }

    /// Registers again the kept entries whose fiber was disposed as
    /// collateral of a pass (a replaced or removed dependency disconnects its
    /// dependents), as one batch, and notes them in the report. Entries that
    /// failed on their own stay dead. `built` says what came of building each
    /// entry, in the order of [`Loader::dead_entries`].
    pub fn repair_collateral(
        &mut self,
        kernel: &mut Kernel,
        report: &mut LoaderReport,
        built: Vec<Result<FnPlugin, String>>,
    ) -> (r: Result<Vec<FiberId>, LoadError>)
        requires
            old(self).wf(),
            old(kernel).wf(),
            built@.len() == dead(old(self).spec_mounted(), old(kernel)@).len(),
            old(kernel)@.fibers.len() + built@.len() <= u32::MAX,
        ensures
            final(self).wf(),
            final(kernel).wf(),
            final(self).spec_kinds() == old(self).spec_kinds(),
            ({
                let entries = dead(old(self).spec_mounted(), old(kernel)@);
                match r {
                    Ok(started) => {
                        &&& build_error(entries, built@) is None
                        &&& batched(old(kernel)@, final(kernel)@, built_views(built@), started@)
                        &&& final(self).spec_mounted() == with_entries(
                            old(self).spec_mounted(),
                            entries,
                            old(kernel)@.fibers.len() as int,
                        )
                        &&& final(report)@ == (ReportView {
                            restarted: old(report)@.restarted + ids_with(entries, false),
                            ..old(report)@
                        })
                    },
                    Err(error) => {
                        &&& build_error(entries, built@) == Some(error@)
                        &&& final(kernel)@ == old(kernel)@
                        &&& final(self).spec_mounted() == old(self).spec_mounted()
                        &&& final(report)@ == old(report)@
                    },
                }
            }),
    {
        let entries = self.dead_entries(kernel);
        proof {
            lemma_dead_named(self.spec_mounted(), kernel@);
        }
        let plugins = match collect_built(&entries, built) {
            Ok(plugins) => plugins,
            Err(error) => {
                return Err(error);
            },
        };
        let first = kernel.fiber_count();
        let ctx = kernel.root_ctx();
        let (_, started) = ctx.register_batch(kernel, plugins);
        self.record(&entries, first);
        let mut ids = ids_among(&entries, false);
        let ghost before = report.restarted@;
        let ghost more = ids@;
        report.restarted.append(&mut ids);
        proof {
            assert(report.restarted@ =~= before + more);
            assert(texts_view(before + more) =~= texts_view(before) + texts_view(more));
        }
        Ok(started)
    }
}

} // verus!
