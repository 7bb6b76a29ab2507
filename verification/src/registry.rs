//! Compile-time plugin discovery: what a binary carries, in order.
//!
//! A plugin crate submits a registration; the host collects those the linker
//! kept. Their order comes from the linker and is not meaningful, so they are
//! sorted by name, with duplicate names collapsed to the first occurrence.

use crate::ctx::{fiber_range, plugin_views};
use crate::fiber::FiberId;
use crate::kernel::Kernel;
use crate::loader::root_ctx;
use crate::model::{
    KernelView, fresh_kernel, may_start, satisfied, satisfied_ids, start_all, started, with_plugin,
};
use crate::plugin::{FnPlugin, PluginView};
use crate::seqs::{lemma_filter_contains, lemma_filter_unique};
use crate::shelf::{Shelf, found, keys_of, shelved};
use crate::text::texts_view;
use crate::upkeep::{lemma_plugin_ok, lemma_start_all};
use vstd::prelude::*;

verus! {

/// One discovered registration: a name, and the number by which the host
/// finds what was registered.
#[derive(Debug, Clone, Copy)]
pub struct PluginRegistration {
    pub name: &'static str,
    pub build: usize,
}

/// The registrations by name, in the order of the names; of those with the
/// same name the first stands.
pub open spec fn collected(found_ones: Seq<PluginRegistration>) -> Seq<
    (Seq<char>, PluginRegistration),
>
    decreases found_ones.len(),
{
    if found_ones.len() == 0 {
        Seq::empty()
    } else {
        let front = collected(found_ones.drop_last());
        let last = found_ones.last();
        if found(front, last.name@) is Some {
            front
        } else {
            shelved(front, last.name@, last)
        }
    }
}

/// The registrations, without their keys.
pub open spec fn registrations_of(rows: Seq<(Seq<char>, PluginRegistration)>) -> Seq<
    PluginRegistration,
> {
    rows.map_values(|row: (Seq<char>, PluginRegistration)| row.1)
}

/// Collects the registrations by name.
fn collect(found_ones: &Vec<PluginRegistration>) -> (r: Shelf<PluginRegistration>)
    ensures
        r.wf(),
        r@ == collected(found_ones@),
{
    let mut out: Shelf<PluginRegistration> = Shelf::new();
    let mut i: usize = 0;
    assert(found_ones@.take(0) =~= Seq::<PluginRegistration>::empty());
    while i < found_ones.len()
        invariant
            out.wf(),
            i <= found_ones@.len(),
            out@ == collected(found_ones@.take(i as int)),
        decreases found_ones@.len() - i,
    {
        assert(found_ones@.take(i + 1).drop_last() =~= found_ones@.take(i as int));
        let one = found_ones[i];
        if out.get(one.name).is_none() {
            out.insert(one.name.to_owned(), one);
        }
        i = i + 1;
    }
    assert(found_ones@.take(i as int) =~= found_ones@);
    out
}

/// Every registration that was found, sorted by name for deterministic
/// startup, with duplicate names collapsed to the first occurrence.
pub fn plugin_registrations(found_ones: &Vec<PluginRegistration>) -> (r: Vec<PluginRegistration>)
    ensures
        r@ == registrations_of(collected(found_ones@)),
{
    let rows = collect(found_ones);
    let mut out: Vec<PluginRegistration> = Vec::new();
    let mut i: usize = 0;
    while i < rows.len()
        invariant
            i <= rows@.len(),
            out@ == registrations_of(rows@).take(i as int),
        decreases rows@.len() - i,
    {
        out.push(*rows.at(i));
        assert(out@ =~= registrations_of(rows@).take(i + 1));
        i = i + 1;
    }
    assert(registrations_of(rows@).take(i as int) =~= registrations_of(rows@));
    out
}

/// The names of all discovered plugins; handy for tests and diagnostics.
pub fn discover_plugin_names(found_ones: &Vec<PluginRegistration>) -> (r: Vec<String>)
    ensures
        texts_view(r@) == keys_of(collected(found_ones@)),
{
    collect(found_ones).keys()
}

/// The kernel with plugins registered on the root one by one, each starting
/// what can start before the next is registered.
pub open spec fn registered(k: KernelView, plugins: Seq<PluginView>) -> KernelView
    decreases plugins.len(),
{
    if plugins.len() == 0 {
        k
    } else {
        let queued = with_plugin(
            registered(k, plugins.drop_last()),
            root_ctx(),
            plugins.last(),
        );
        start_all(queued, satisfied_ids(queued))
    }
}

/// The fibers that start on the way.
pub open spec fn registered_starts(k: KernelView, plugins: Seq<PluginView>) -> Seq<FiberId>
    decreases plugins.len(),
{
    if plugins.len() == 0 {
        Seq::empty()
    } else {
        let before = registered(k, plugins.drop_last());
        registered_starts(k, plugins.drop_last()) + satisfied_ids(
            with_plugin(before, root_ctx(), plugins.last()),
        )
    }
}

impl Kernel {
    /// Creates a kernel and registers the given plugins on it.
    pub fn with_discovered_plugins(plugins: Vec<FnPlugin>) -> (r: (Kernel, Vec<FiberId>, Vec<
        FiberId,
    >))
        requires
            plugins@.len() < u32::MAX,
        ensures
            r.0.wf(),
            r.0@ == registered(fresh_kernel(), plugin_views(plugins@)),
            r.1@ == fiber_range(1, plugins@.len()),
            r.2@ == registered_starts(fresh_kernel(), plugin_views(plugins@)),
    {
        let mut kernel = Kernel::new();
        let (ids, started) = kernel.register_discovered(plugins);
        (kernel, ids, started)
    }

    /// Registers the given plugins on the root fiber, one by one, and names
    /// their fibers and those that started. Missing dependencies leave
    /// plugins pending until something provides them.
    pub fn register_discovered(&mut self, plugins: Vec<FnPlugin>) -> (r: (Vec<FiberId>, Vec<
        FiberId,
    >))
        requires
            old(self).wf(),
            old(self)@.fibers.len() + plugins@.len() <= u32::MAX,
        ensures
            final(self).wf(),
            r.0@ == fiber_range(old(self)@.fibers.len() as int, plugins@.len()),
            final(self)@ == registered(old(self)@, plugin_views(plugins@)),
            r.1@ == registered_starts(old(self)@, plugin_views(plugins@)),
    {
        let ghost k0 = self@;
        let ghost all = plugin_views(plugins@);
        let mut queue = plugins;
        let mut ids: Vec<FiberId> = Vec::new();
        let mut started: Vec<FiberId> = Vec::new();
        assert(all.take(0) =~= Seq::<PluginView>::empty());
        while queue.len() > 0
            invariant
                self.wf(),
                all == plugin_views(plugins@),
                k0.fibers.len() + all.len() <= u32::MAX,
                ids@.len() + queue@.len() == all.len(),
                all.skip(ids@.len() as int) == plugin_views(queue@),
                self@ == registered(k0, all.take(ids@.len() as int)),
                self@.fibers.len() == k0.fibers.len() + ids@.len(),
                ids@ == fiber_range(k0.fibers.len() as int, ids@.len()),
                started@ == registered_starts(k0, all.take(ids@.len() as int)),
            decreases queue@.len(),
        {
            let ghost rest = queue@;
            let ghost n = ids@.len() as int;
            let ghost before = self@;
            let plugin = queue.remove(0);
            let ghost view = plugin@;
            proof {
                assert(all[n] == view) by {
                    assert(all.skip(n)[0] == plugin_views(rest)[0]);
                }
                assert(all.take(n + 1).drop_last() =~= all.take(n));
                assert(all.skip(n + 1) =~= plugin_views(queue@)) by {
                    assert forall|i: int| 0 <= i < queue@.len() implies all.skip(n + 1)[i]
                        == #[trigger] plugin_views(queue@)[i] by {
                        assert(all.skip(n)[i + 1] == plugin_views(rest)[i + 1]);
                    }
                }
            }
            let ctx = self.root_ctx();
            let (id, mut more) = ctx.register(self, plugin);
            proof {
                let queued = with_plugin(before, root_ctx(), view);
                lemma_plugin_ok(before, root_ctx(), view, Seq::empty());
                lemma_filter_unique(queued.pending, may_start(queued));
                lemma_filter_contains(queued.pending, may_start(queued));
                assert forall|j: int| 0 <= j < more@.len() implies queued.pending.contains(
                    #[trigger] more@[j],
                ) && satisfied(queued, more@[j]) by {
                    assert(more@.contains(more@[j]));
                }
                lemma_start_all(queued, more@);
            }
            ids.push(id);
            started.append(&mut more);
            assert(ids@ =~= fiber_range(k0.fibers.len() as int, ids@.len()));
        }
        assert(all.take(ids@.len() as int) =~= all);
        (ids, started)
    }
}

} // verus!
