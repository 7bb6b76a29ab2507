//! What is discovered is registered, in the order of the names.

use crate::context::RealmId;
use crate::ctx::plugin_views;
use crate::fiber::{Disposable, DisposableList, Fiber, FiberId, FiberView};
use crate::kernel::Kernel;
use crate::laws::dispatch::lemma_added_members;
use crate::laws::lifecycle::{law_nothing_that_may_start_waits, lemma_satisfied_ids};
use crate::laws::loading::{first_named, law_discovery_is_ordered_by_name};
use crate::laws::starting::{lemma_ready, ready_to_start};
use crate::loader::root_ctx;
use crate::model::{KernelView, fresh_kernel, kernel_ok, satisfied_ids, with_plugin};
use crate::plugin::{Dependency, FnPlugin, PluginView, fn_plugin};
use crate::registry::{
    PluginRegistration, collected, discover_plugin_names, plugin_registrations, registered,
    registered_starts, registrations_of,
};
use crate::service::ServiceKey;
use crate::shelf::{found, keys_of, lemma_found, lemma_shelved};
use crate::text::{precedes, texts_view};
use crate::upkeep::{lemma_fresh_ok, lemma_plugin_ok, lemma_start_all};
use vstd::prelude::*;

verus! {

// ---- what a plugin declares ----

/// A plugin has the name it was made with, and injects and provides what was
/// said last.
pub proof fn law_plugins_declare_what_was_said(
    name: String,
    dependencies: Vec<Dependency>,
    keys: Vec<ServiceKey>,
    made: FnPlugin,
    injecting: FnPlugin,
    providing: FnPlugin,
)
    requires
        call_ensures(fn_plugin, (name,), made),
        call_ensures(FnPlugin::inject, (made, dependencies), injecting),
        call_ensures(FnPlugin::provides, (injecting, keys), providing),
    ensures
        made.inject@.len() == 0,
        made.provides@.len() == 0,
        providing.name@ == name@,
        providing.inject@ == dependencies@,
        providing.provides@ == keys@,
        injecting.provides@.len() == 0,
{
}

// ---- what a fiber has to clean up ----

/// What was deferred last is cleaned up first, and everything is cleaned up
/// once.
pub proof fn law_lists_are_drained_backwards(
    list: &mut DisposableList,
    last: Option<Disposable>,
    r: Vec<Disposable>,
    i: int,
)
    requires
        call_ensures(DisposableList::last, (&*old(list),), last),
        call_ensures(DisposableList::drain, (list,), r),
        0 <= i < old(list)@.len(),
    ensures
        final(list)@.len() == 0,
        r@.len() == old(list)@.len(),
        r@[r@.len() - 1 - i] == old(list)@[i],
        last == Some(r@[0]),
{
}

/// A fiber that is disposed hands out what it registered, the last first, and
/// nothing is left of it; what else it is stays.
pub proof fn law_fibers_hand_out_what_they_registered(
    fiber: &mut Fiber,
    r: Vec<Disposable>,
    i: int,
)
    requires
        call_ensures(Fiber::dispose, (fiber,), r),
        0 <= i < old(fiber)@.disposables.len(),
    ensures
        r@.len() == old(fiber)@.disposables.len(),
        r@[r@.len() - 1 - i] == old(fiber)@.disposables[i],
        final(fiber)@.disposables.len() == 0,
        final(fiber)@.state is Disposed,
        final(fiber)@ == (FiberView {
            disposables: final(fiber)@.disposables,
            state: final(fiber)@.state,
            ..old(fiber)@
        }),
{
}

/// A new fiber waits, in use, with nothing registered.
pub proof fn law_new_fibers_wait(
    id: FiberId,
    parent: FiberId,
    realm: RealmId,
    name: String,
    r: Fiber,
)
    requires
        call_ensures(Fiber::new, (id, parent, realm, name), r),
    ensures
        r.id == id,
        r@.parent == parent,
        r@.realm == realm,
        r@.name == name@,
        r@.state is Pending,
        r@.phase is Active,
        !r@.setup,
        r@.failure is None,
        r@.tasks.len() == 0,
        r@.disposables.len() == 0,
        r@.inject.len() == 0,
        r@.declares.len() == 0,
{
}

// ---- discovery ----

/// What is discovered comes in the order of the names, each name once, with
/// the first registration of the name; and the names come in the same order.
pub proof fn law_discoveries_come_by_name(
    all: Vec<PluginRegistration>,
    r: Vec<PluginRegistration>,
    names: Vec<String>,
    i: int,
)
    requires
        call_ensures(plugin_registrations, (&all,), r),
        call_ensures(discover_plugin_names, (&all,), names),
        0 <= i < all@.len(),
    ensures
        names@.len() == r@.len(),
        forall|a: int| 0 <= a < r@.len() ==> (#[trigger] names@[a])@ == r@[a].name@,
        forall|a: int, b: int|
            0 <= a < b < r@.len() ==> precedes(
                (#[trigger] r@[a]).name@,
                (#[trigger] r@[b]).name@,
            ),
        exists|a: int| 0 <= a < r@.len() && (#[trigger] r@[a]).name@ == all@[i].name@,
        forall|a: int|
            0 <= a < r@.len() ==> exists|j: int|
                0 <= j < all@.len() && #[trigger] r@[a] == #[trigger] all@[j],
        (forall|j: int| 0 <= j < i ==> (#[trigger] all@[j]).name@ != all@[i].name@)
            ==> r@.contains(all@[i]),
{
    let rows = collected(all@);
    lemma_collected(all@);
    assert(registrations_of(rows).len() == rows.len());
    assert(texts_view(names@).len() == names@.len());
    assert forall|a: int| 0 <= a < rows.len() implies #[trigger] rows[a].0 == r@[a].name@
        && rows[a].1 == r@[a] by {
        assert(registrations_of(rows)[a] == rows[a].1);
    }
    assert forall|a: int| 0 <= a < r@.len() implies (#[trigger] names@[a])@ == r@[a].name@ by {
        assert(texts_view(names@)[a] == keys_of(rows)[a]);
        assert(rows[a].0 == r@[a].name@);
    }
    law_discovery_is_ordered_by_name(all@, all@[i].name@);
    assert forall|a: int, b: int| 0 <= a < b < r@.len() implies precedes(
        (#[trigger] r@[a]).name@,
        (#[trigger] r@[b]).name@,
    ) by {
        assert(precedes(rows[a].0, rows[b].0));
        assert(rows[a].0 == r@[a].name@ && rows[b].0 == r@[b].name@);
    }
    lemma_collected_has(all@, i);
    let a = choose|a: int| 0 <= a < rows.len() && (#[trigger] rows[a]).0 == all@[i].name@;
    assert(r@[a].name@ == all@[i].name@);
    assert forall|a: int| 0 <= a < r@.len() implies exists|j: int|
        0 <= j < all@.len() && #[trigger] r@[a] == #[trigger] all@[j] by {
        assert(rows[a].0 == r@[a].name@);
        let j = choose|j: int| 0 <= j < all@.len() && rows[a].1 == #[trigger] all@[j];
        assert(r@[a] == all@[j]);
    }
    if forall|j: int| 0 <= j < i ==> (#[trigger] all@[j]).name@ != all@[i].name@ {
        lemma_collected_first(all@, i);
        let b = choose|b: int|
            0 <= b < rows.len() && #[trigger] rows[b] == (all@[i].name@, all@[i]);
        assert(rows[b].0 == r@[b].name@);
        assert(r@[b] == all@[i]);
    }
}

proof fn lemma_collected(all: Seq<PluginRegistration>)
    ensures
        forall|a: int|
            0 <= a < collected(all).len() ==> (#[trigger] collected(all)[a]).0 == collected(
                all,
            )[a].1.name@ && exists|j: int|
                0 <= j < all.len() && collected(all)[a].1 == #[trigger] all[j],
    decreases all.len(),
{
    if all.len() > 0 {
        let front = all.drop_last();
        let last = all.last();
        lemma_collected(front);
        law_discovery_is_ordered_by_name(front, last.name@);
        lemma_shelved(collected(front), last.name@, last);
        let before = collected(front);
        let out = collected(all);
        assert forall|a: int| 0 <= a < out.len() implies (#[trigger] out[a]).0 == out[a].1.name@
            && exists|j: int| 0 <= j < all.len() && out[a].1 == #[trigger] all[j] by {
            if out[a] == (last.name@, last) {
                assert(all[all.len() - 1] == last);
            } else {
                assert(before.contains(out[a])) by {
                    if found(before, last.name@) is Some {
                        assert(before[a] == out[a]);
                    }
                }
                let b = choose|b: int| 0 <= b < before.len() && before[b] == out[a];
                assert(before[b].0 == before[b].1.name@);
                let j = choose|j: int|
                    0 <= j < front.len() && before[b].1 == #[trigger] front[j];
                assert(all[j] == front[j]);
            }
        }
    }
}

proof fn lemma_collected_first(all: Seq<PluginRegistration>, i: int)
    requires
        0 <= i < all.len(),
        forall|j: int| 0 <= j < i ==> (#[trigger] all[j]).name@ != all[i].name@,
    ensures
        exists|b: int|
            0 <= b < collected(all).len() && #[trigger] collected(all)[b] == (
            all[i].name@,
            all[i],
            ),
{
    law_discovery_is_ordered_by_name(all, all[i].name@);
    lemma_first_named(all, i, all.len());
    assert(all.take(all.len() as int) =~= all);
    lemma_found(collected(all), all[i].name@);
    let rows = collected(all);
    let b = choose|b: int| 0 <= b < rows.len() && rows[b] == (all[i].name@, all[i]);
    assert(rows[b] == (all[i].name@, all[i]));
}

proof fn lemma_first_named(all: Seq<PluginRegistration>, i: int, n: nat)
    requires
        0 <= i < n <= all.len(),
        forall|j: int| 0 <= j < i ==> (#[trigger] all[j]).name@ != all[i].name@,
    ensures
        first_named(all.take(n as int), all[i].name@) == Some(all[i]),
    decreases n,
{
    let part = all.take(n as int);
    assert(part.drop_last() =~= all.take(n - 1));
    assert(part.last() == all[n - 1]);
    if i < n - 1 {
        lemma_first_named(all, i, (n - 1) as nat);
    } else {
        lemma_not_named(all, all[i].name@, i as nat);
    }
}

proof fn lemma_not_named(all: Seq<PluginRegistration>, name: Seq<char>, n: nat)
    requires
        n <= all.len(),
        forall|j: int| 0 <= j < n ==> (#[trigger] all[j]).name@ != name,
    ensures
        first_named(all.take(n as int), name) is None,
    decreases n,
{
    if n > 0 {
        let part = all.take(n as int);
        assert(part.drop_last() =~= all.take(n - 1));
        assert(part.last() == all[n - 1]);
        lemma_not_named(all, name, (n - 1) as nat);
    }
}

proof fn lemma_collected_has(all: Seq<PluginRegistration>, i: int)
    requires
        0 <= i < all.len(),
    ensures
        exists|a: int|
            0 <= a < collected(all).len() && (#[trigger] collected(all)[a]).0 == all[i].name@,
    decreases i,
{
    if forall|j: int| 0 <= j < i ==> (#[trigger] all[j]).name@ != all[i].name@ {
        lemma_collected_first(all, i);
        let b = choose|b: int|
            0 <= b < collected(all).len() && #[trigger] collected(all)[b] == (
            all[i].name@,
            all[i],
            );
        assert(collected(all)[b].0 == all[i].name@);
    } else {
        let j = choose|j: int| 0 <= j < i && (#[trigger] all[j]).name@ == all[i].name@;
        lemma_collected_has(all, j);
    }
}

// ---- registration ----

proof fn lemma_registered(k: KernelView, plugins: Seq<PluginView>)
    requires
        kernel_ok(k),
        k.fibers.len() + plugins.len() <= u32::MAX,
    ensures
        ({
            let k2 = registered(k, plugins);
            &&& kernel_ok(k2)
            &&& k2.fibers.len() == k.fibers.len() + plugins.len()
            &&& forall|j: int|
                0 <= j < plugins.len() ==> {
                    let f = #[trigger] k2.fibers[k.fibers.len() + j];
                    &&& f.name == plugins[j].name
                    &&& f.inject == plugins[j].inject
                    &&& f.declares == plugins[j].provides
                    &&& f.parent.0 == 0
                    &&& f.realm.0 == 0
                }
            &&& plugins.len() > 0 ==> forall|id: FiberId| #[trigger]
                k2.pending.contains(id) ==> !ready_to_start(k2, id)
            &&& forall|i: int|
                0 <= i < k2.fibers.len() ==> (registered_starts(k, plugins).contains(
                    FiberId(i as u32),
                ) <==> (#[trigger] k2.fibers[i]).state is Starting && !(i < k.fibers.len()
                    && k.fibers[i].state is Starting))
            &&& forall|i: int|
                0 <= i < k.fibers.len() && k.fibers[i].state is Starting ==> (
                #[trigger] k2.fibers[i]).state is Starting
            &&& forall|id: FiberId| #[trigger]
                registered_starts(k, plugins).contains(id) ==> id.0 < k2.fibers.len()
        }),
    decreases plugins.len(),
{
    if plugins.len() > 0 {
        let front = plugins.drop_last();
        lemma_registered(k, front);
        let before = registered(k, front);
        let queued = with_plugin(before, root_ctx(), plugins.last());
        lemma_plugin_ok(before, root_ctx(), plugins.last(), Seq::empty());
        lemma_satisfied_ids(queued);
        lemma_start_all(queued, satisfied_ids(queued));
        let k2 = registered(k, plugins);
        assert forall|id: FiberId| #[trigger] k2.pending.contains(id) implies !ready_to_start(
            k2,
            id,
        ) by {
            law_nothing_that_may_start_waits(queued, id);
            lemma_ready(k2, id);
        }
        assert forall|j: int| 0 <= j < plugins.len() implies ({
            let f = #[trigger] k2.fibers[k.fibers.len() + j];
            &&& f.name == plugins[j].name
            &&& f.inject == plugins[j].inject
            &&& f.declares == plugins[j].provides
            &&& f.parent.0 == 0
            &&& f.realm.0 == 0
        }) by {
            let at = k.fibers.len() + j;
            if j < front.len() {
                assert(queued.fibers[at] == before.fibers[at]);
                assert(front[j] == plugins[j]);
            } else {
                assert(queued.fibers[at] == queued.fibers.last());
            }
        }
        let earlier = registered_starts(k, front);
        let now = satisfied_ids(queued);
        assert forall|i: int| 0 <= i < k2.fibers.len() implies (registered_starts(
            k,
            plugins,
        ).contains(FiberId(i as u32)) <==> (#[trigger] k2.fibers[i]).state is Starting && !(i
            < k.fibers.len() && k.fibers[i].state is Starting)) by {
            let me = FiberId(i as u32);
            lemma_added_members(earlier, now, me);
            if now.contains(me) {
                assert(queued.pending.contains(me));
                assert(queued.fibers[i].state is Pending);
            }
            if i < before.fibers.len() {
                assert(queued.fibers[i] == before.fibers[i]);
            } else {
                assert(!earlier.contains(me));
                assert(queued.fibers[i] == queued.fibers.last());
            }
        }
        assert forall|id: FiberId| #[trigger] registered_starts(k, plugins).contains(
            id,
        ) implies id.0 < k2.fibers.len() by {
            lemma_added_members(earlier, now, id);
            if now.contains(id) {
                assert(queued.pending.contains(id));
            }
        }
    } else {
        assert(registered_starts(k, plugins) =~= Seq::<FiberId>::empty());
    }
}

/// Every discovered plugin is registered on the root, on a fiber of its own,
/// in order, and none that may start is left waiting.
pub proof fn law_discovered_plugins_are_registered(
    kernel: &mut Kernel,
    plugins: Vec<FnPlugin>,
    r: (Vec<FiberId>, Vec<FiberId>),
    j: int,
)
    requires
        old(kernel).wf(),
        old(kernel)@.fibers.len() + plugins@.len() <= u32::MAX,
        call_ensures(Kernel::register_discovered, (kernel, plugins), r),
        0 <= j < plugins@.len(),
    ensures
        ({
            let (k, k2) = (old(kernel)@, final(kernel)@);
            let f = k2.fibers[k.fibers.len() + j];
            &&& k2.fibers.len() == k.fibers.len() + plugins@.len()
            &&& r.0@.len() == plugins@.len()
            &&& r.0@[j].0 == k.fibers.len() + j
            &&& f.name == plugins@[j].name@
            &&& f.inject == plugins@[j].inject@
            &&& f.declares == plugins@[j].provides@
            &&& f.parent.0 == 0
            &&& f.realm.0 == 0
            &&& forall|id: FiberId| #[trigger]
                k2.pending.contains(id) ==> !ready_to_start(k2, id)
            &&& forall|i: int|
                0 <= i < k2.fibers.len() ==> (r.1@.contains(FiberId(i as u32)) <==> (
                #[trigger] k2.fibers[i]).state is Starting && !(i < k.fibers.len()
                    && k.fibers[i].state is Starting))
        }),
{
    lemma_registered(old(kernel)@, plugin_views(plugins@));
    assert(plugin_views(plugins@)[j] == plugins@[j]@);
}

/// A kernel made with discovered plugins is a new one with each of them
/// registered on its root.
pub proof fn law_kernels_are_made_with_what_was_discovered(
    plugins: Vec<FnPlugin>,
    r: (Kernel, Vec<FiberId>, Vec<FiberId>),
    j: int,
)
    requires
        plugins@.len() < u32::MAX,
        call_ensures(Kernel::with_discovered_plugins, (plugins,), r),
        0 <= j < plugins@.len(),
    ensures
        ({
            let f = r.0@.fibers[1 + j];
            &&& r.0@.fibers.len() == 1 + plugins@.len()
            &&& r.1@.len() == plugins@.len()
            &&& r.1@[j].0 == 1 + j
            &&& f.name == plugins@[j].name@
            &&& f.inject == plugins@[j].inject@
            &&& f.declares == plugins@[j].provides@
            &&& f.parent.0 == 0
            &&& forall|id: FiberId| #[trigger]
                r.0@.pending.contains(id) ==> !ready_to_start(r.0@, id)
        }),
{
    lemma_fresh_ok();
    lemma_registered(fresh_kernel(), plugin_views(plugins@));
    assert(plugin_views(plugins@)[j] == plugins@[j]@);
}

/// A fiber that fails is failed and otherwise as it was; one more thing to
/// clean up comes behind what it has.
pub proof fn law_fibers_fail_and_defer(
    failing: &mut Fiber,
    busy: &mut Fiber,
    what: Disposable,
)
    requires
        call_ensures(Fiber::fail, (failing,), ()),
        call_ensures(Fiber::effect, (busy, what), ()),
    ensures
        final(failing)@.state is Failed,
        final(failing)@ == (FiberView { state: final(failing)@.state, ..old(failing)@ }),
        final(busy)@.disposables == old(busy)@.disposables.push(what),
        final(busy)@ == (FiberView { disposables: final(busy)@.disposables, ..old(busy)@ }),
{
}

} // verus!
