//! A pass of registrations does not depend on the order of its plugins.

use crate::context::{Ctx, resolved};
use crate::ctx::lemma_with_plugins;
use crate::fiber::{FiberId, Phase, State};
use crate::model::{
    KernelView, announces, awaited, ctx_ok, is_active, kernel_ok, met, plugin_fiber, satisfied,
    unsettled, with_plugins,
};
use crate::plugin::{Dependency, PluginView};
use std::any::TypeId;
use vstd::prelude::*;

verus! {

/// Whether the plugin declared to provide the type.
pub open spec fn declared(plugin: PluginView, key: TypeId) -> bool {
    exists|i: int| 0 <= i < plugin.provides.len() && (#[trigger] plugin.provides[i]).id == key
}

/// Whether another plugin of the pass declared to provide the type.
pub open spec fn declared_beside(plugins: Seq<PluginView>, i: int, key: TypeId) -> bool {
    exists|m: int| 0 <= m < plugins.len() && m != i && declared(#[trigger] plugins[m], key)
}

/// Whether a fiber that was there before the pass declared the type and has
/// yet to settle.
pub open spec fn declared_before(k: KernelView, key: TypeId) -> bool {
    exists|j: int|
        0 <= j < k.fibers.len() && unsettled(#[trigger] k.fibers[j]) && announces(
            k.fibers[j],
            key,
        )
}

/// Whether a dependency of plugin `i` lets it start right after the pass.
pub open spec fn met_in_pass(
    k: KernelView,
    ctx: Ctx,
    plugins: Seq<PluginView>,
    i: int,
    dependency: Dependency,
) -> bool {
    match dependency {
        Dependency::Hard(key) => resolved(k.realms, ctx.realm, key.id) is Some,
        Dependency::Soft(key) => !declared_before(k, key.id) && !declared_beside(
            plugins,
            i,
            key.id,
        ),
    }
}

/// The fibers that a pass adds, in the order of its plugins.
pub proof fn lemma_pass_fibers(k: KernelView, ctx: Ctx, plugins: Seq<PluginView>)
    requires
        kernel_ok(k),
        ctx_ok(k, ctx),
        is_active(k, ctx.fiber),
        k.fibers.len() + plugins.len() <= u32::MAX,
    ensures
        forall|i: int|
            0 <= i < plugins.len() ==> #[trigger] with_plugins(k, ctx, plugins).fibers[k.fibers.len()
                + i] == plugin_fiber(ctx, plugins[i], State::Pending, Phase::Active),
    decreases plugins.len(),
{
    if plugins.len() > 0 {
        let front = plugins.drop_last();
        lemma_pass_fibers(k, ctx, front);
        lemma_with_plugins(k, ctx, front);
        lemma_with_plugins(k, ctx, plugins);
        let mid = with_plugins(k, ctx, front);
        let k2 = with_plugins(k, ctx, plugins);
        assert forall|i: int| 0 <= i < plugins.len() implies #[trigger] k2.fibers[k.fibers.len()
            + i] == plugin_fiber(ctx, plugins[i], State::Pending, Phase::Active) by {
            if i < front.len() {
                assert(mid.fibers[k.fibers.len() + i] == plugin_fiber(
                    ctx,
                    front[i],
                    State::Pending,
                    Phase::Active,
                ));
            }
        }
    }
}

/// Every plugin of a pass sees what every other one declared, whatever comes
/// first: a plugin may start right after the pass exactly if each of its hard
/// dependencies resolves, and none of its soft ones was declared by a fiber
/// that has yet to settle or by another plugin of the pass.
pub proof fn law_a_pass_sees_all_declarations(
    k: KernelView,
    ctx: Ctx,
    plugins: Seq<PluginView>,
    i: int,
)
    requires
        kernel_ok(k),
        ctx_ok(k, ctx),
        is_active(k, ctx.fiber),
        k.fibers.len() + plugins.len() <= u32::MAX,
        0 <= i < plugins.len(),
    ensures
        satisfied(with_plugins(k, ctx, plugins), FiberId((k.fibers.len() + i) as u32)) <==> forall|
            d: int,
        |
            0 <= d < plugins[i].inject.len() ==> met_in_pass(
                k,
                ctx,
                plugins,
                i,
                #[trigger] plugins[i].inject[d],
            ),
{
    let k2 = with_plugins(k, ctx, plugins);
    let n = k.fibers.len();
    let me = FiberId((n + i) as u32);
    lemma_with_plugins(k, ctx, plugins);
    lemma_pass_fibers(k, ctx, plugins);
    let f = k2.fibers[n + i];
    assert(f == plugin_fiber(ctx, plugins[i], State::Pending, Phase::Active));
    assert(f.inject == plugins[i].inject);
    assert forall|d: int| 0 <= d < plugins[i].inject.len() implies met(
        k2,
        me,
        #[trigger] plugins[i].inject[d],
    ) == met_in_pass(k, ctx, plugins, i, plugins[i].inject[d]) by {
        if let Dependency::Soft(key) = plugins[i].inject[d] {
            lemma_awaited_in_pass(k, ctx, plugins, i, key.id);
        }
    }
    assert forall|d: int| 0 <= d < f.inject.len() implies met(k2, me, #[trigger] f.inject[d])
        == met_in_pass(k, ctx, plugins, i, plugins[i].inject[d]) by {
        assert(f.inject[d] == plugins[i].inject[d]);
    }
    if satisfied(k2, me) {
        assert forall|d: int| 0 <= d < plugins[i].inject.len() implies met_in_pass(
            k,
            ctx,
            plugins,
            i,
            #[trigger] plugins[i].inject[d],
        ) by {
            assert(met(k2, me, k2.fibers[me.0 as int].inject[d]));
        }
    }
}

proof fn lemma_awaited_in_pass(
    k: KernelView,
    ctx: Ctx,
    plugins: Seq<PluginView>,
    i: int,
    key: TypeId,
)
    requires
        kernel_ok(k),
        ctx_ok(k, ctx),
        is_active(k, ctx.fiber),
        k.fibers.len() + plugins.len() <= u32::MAX,
        0 <= i < plugins.len(),
    ensures
        awaited(
            with_plugins(k, ctx, plugins),
            FiberId((k.fibers.len() + i) as u32),
            key,
        ) <==> declared_before(k, key) || declared_beside(plugins, i, key),
{
    let k2 = with_plugins(k, ctx, plugins);
    let n = k.fibers.len();
    let me = FiberId((n + i) as u32);
    lemma_with_plugins(k, ctx, plugins);
    lemma_pass_fibers(k, ctx, plugins);
    if awaited(k2, me, key) {
        let j = choose|j: int|
            0 <= j < k2.fibers.len() && j != me.0 && unsettled(#[trigger] k2.fibers[j])
                && announces(k2.fibers[j], key);
        if j < n {
            assert(k2.fibers[j] == k.fibers[j]);
        } else {
            let m = j - n;
            let f = k2.fibers[n + m];
            let d = choose|d: int|
                0 <= d < f.declares.len() && (#[trigger] f.declares[d]).id == key;
            assert(plugins[m].provides[d].id == key);
            assert(declared(plugins[m], key));
        }
    }
    if declared_before(k, key) {
        let j = choose|j: int|
            0 <= j < k.fibers.len() && unsettled(#[trigger] k.fibers[j]) && announces(
                k.fibers[j],
                key,
            );
        assert(k2.fibers[j] == k.fibers[j]);
        assert(awaited(k2, me, key));
    }
    if declared_beside(plugins, i, key) {
        let m = choose|m: int|
            0 <= m < plugins.len() && m != i && declared(#[trigger] plugins[m], key);
        let f = k2.fibers[n + m];
        let d = choose|d: int|
            0 <= d < plugins[m].provides.len() && (#[trigger] plugins[m].provides[d]).id == key;
        assert(f.declares[d].id == key);
        assert(announces(f, key));
        assert(unsettled(k2.fibers[n + m]));
    }
}

proof fn lemma_beside_in_any_order(a: Seq<PluginView>, b: Seq<PluginView>, i: int, j: int, key: TypeId)
    requires
        a.to_multiset() == b.to_multiset(),
        0 <= i < a.len(),
        0 <= j < b.len(),
        a[i] == b[j],
        declared_beside(a, i, key),
    ensures
        declared_beside(b, j, key),
{
    broadcast use vstd::seq_lib::group_to_multiset_ensures;

    let m = choose|m: int| 0 <= m < a.len() && m != i && declared(#[trigger] a[m], key);
    let rest = a.remove(i);
    let x = a[m];
    if m < i {
        assert(rest[m] == x);
    } else {
        assert(rest[m - 1] == x);
    }
    assert(rest.contains(x));
    assert(rest.to_multiset() == a.to_multiset().remove(a[i]));
    assert(b.remove(j).to_multiset() == b.to_multiset().remove(b[j]));
    assert(b.remove(j).to_multiset().count(x) > 0);
    assert(b.remove(j).contains(x));
    let p = choose|p: int| 0 <= p < b.remove(j).len() && b.remove(j)[p] == x;
    if p < j {
        assert(b[p] == x);
    } else {
        assert(b[p + 1] == x);
    }
}

/// Passes are order-independent: register the same plugins in any other
/// order, and the same of them may start.
pub proof fn law_passes_are_order_independent(
    k: KernelView,
    ctx: Ctx,
    a: Seq<PluginView>,
    b: Seq<PluginView>,
    i: int,
    j: int,
)
    requires
        kernel_ok(k),
        ctx_ok(k, ctx),
        is_active(k, ctx.fiber),
        k.fibers.len() + a.len() <= u32::MAX,
        k.fibers.len() + b.len() <= u32::MAX,
        a.to_multiset() == b.to_multiset(),
        0 <= i < a.len(),
        0 <= j < b.len(),
        a[i] == b[j],
    ensures
        satisfied(with_plugins(k, ctx, a), FiberId((k.fibers.len() + i) as u32)) == satisfied(
            with_plugins(k, ctx, b),
            FiberId((k.fibers.len() + j) as u32),
        ),
{
    law_a_pass_sees_all_declarations(k, ctx, a, i);
    law_a_pass_sees_all_declarations(k, ctx, b, j);
    assert forall|d: int| 0 <= d < a[i].inject.len() implies met_in_pass(
        k,
        ctx,
        a,
        i,
        #[trigger] a[i].inject[d],
    ) == met_in_pass(k, ctx, b, j, b[j].inject[d]) by {
        if let Dependency::Soft(key) = a[i].inject[d] {
            if declared_beside(a, i, key.id) {
                lemma_beside_in_any_order(a, b, i, j, key.id);
            }
            if declared_beside(b, j, key.id) {
                lemma_beside_in_any_order(b, a, j, i, key.id);
            }
        }
    }
}

} // verus!
