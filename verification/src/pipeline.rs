//! Pipelines: typed onion middlewares around a core behavior.
//!
//! A pipeline is an extension point declared by the crate that also
//! dispatches it. Plugins wrap the point with middlewares; the owner composes
//! them around the built-in behavior.
//!
//! Unlike events, which bubble from a child realm up to its ancestors,
//! pipelines run through the dispatch realm's vertical slice: its ancestors,
//! itself, and all descendant realms, ordered by realm depth ascending.
//! Global middlewares (root realm) wrap outermost; session-specific ones run
//! innermost, closest to the built-in behavior.

use crate::context::{Ctx, RealmId, RealmView, chain, kids};
use crate::events::{Layer, TypeTag, copy_chain};
use crate::fiber::FiberId;
use crate::kernel::Kernel;
use crate::model::{KernelView, is_active, renamed, with_late_middleware, with_middleware};
use crate::seqs::{lemma_filter_front, lemma_filter_none, lemma_filter_step};
use crate::service::same_type;
use std::any::TypeId;
use vstd::prelude::*;

verus! {

/// A registered middleware on an extension point: where it sits, which fiber
/// it belongs to, and by which number its code is found.
#[derive(Debug, Clone, Copy)]
pub struct PipelineHandler {
    pub point: TypeId,
    pub realm: RealmId,
    pub fiber: FiberId,
    pub id: u64,
    /// Before the middlewares already there, instead of after them.
    pub prepend: bool,
}

/// A named extension point: the crate that dispatches it declares the marker
/// type; plugins hang middlewares on it.
pub trait Pipeline: Send + Sync + 'static {
    /// The payload passed down the chain, consumed by each layer.
    type Input: Send + 'static;

    /// The result produced by the built-in behavior and transformed on its
    /// way back out through the onion.
    type Output: Send + 'static;

    /// Human-readable point name for logs and diagnostics.
    const NAME: &'static str;
}

/// Identifier of a registered middleware.
#[derive(Debug, Clone, Copy, Hash)]
pub struct PipelineId {
    pub type_id: TypeId,
    pub id: u64,
}

impl PartialEq for PipelineId {
    fn eq(&self, other: &Self) -> (r: bool) {
        same_type(&self.type_id, &other.type_id) && self.id == other.id
    }
}

impl vstd::std_specs::cmp::PartialEqSpecImpl for PipelineId {
    open spec fn obeys_eq_spec() -> bool {
        true
    }

    open spec fn eq_spec(&self, other: &Self) -> bool {
        *self == *other
    }
}

impl Eq for PipelineId {

}

// ---- the vertical slice ----

/// The realms directly below those of one level, in the order of that level.
pub open spec fn next_level(realms: Seq<RealmView>, level: Seq<RealmId>) -> Seq<RealmId>
    decreases level.len(),
{
    if level.len() == 0 {
        Seq::empty()
    } else {
        next_level(realms, level.drop_last()) + kids(realms, level.last())
    }
}

/// A level and the `fuel` levels below it, level by level.
pub open spec fn levels(realms: Seq<RealmView>, level: Seq<RealmId>, fuel: nat) -> Seq<RealmId>
    decreases fuel,
{
    if fuel == 0 {
        level
    } else {
        level + levels(realms, next_level(realms, level), (fuel - 1) as nat)
    }
}

/// The realms a dispatch from `realm` reaches, outermost first: its
/// ancestors, root first, itself, and everything below it breadth first.
pub open spec fn slice(realms: Seq<RealmView>, realm: RealmId) -> Seq<RealmId> {
    chain(realms, realm).reverse().drop_last() + levels(realms, seq![realm], realms.len())
}

// ---- the chain ----

/// Picks the middlewares of an extension point in a realm that are placed in
/// front or behind, and whose fiber is in use.
pub open spec fn placed(
    k: KernelView,
    point: TypeId,
    realm: RealmId,
    prepend: bool,
) -> spec_fn(PipelineHandler) -> bool {
    |m: PipelineHandler|
        m.point == point && m.realm == realm && m.prepend == prepend && is_active(k, m.fiber)
}

/// The middlewares of an extension point in a realm, outermost first: those
/// placed in front, newest first, then the others in the order they came.
pub open spec fn layers_in(k: KernelView, point: TypeId, realm: RealmId) -> Seq<PipelineHandler> {
    k.middlewares.filter(placed(k, point, realm, true)).reverse() + k.middlewares.filter(
        placed(k, point, realm, false),
    )
}

/// The middlewares of an extension point along a list of realms, outermost
/// first.
pub open spec fn layers_along(
    k: KernelView,
    point: TypeId,
    realms: Seq<RealmId>,
) -> Seq<PipelineHandler>
    decreases realms.len(),
{
    if realms.len() == 0 {
        Seq::empty()
    } else {
        layers_along(k, point, realms.drop_last()) + layers_in(k, point, realms.last())
    }
}

/// The middlewares that a dispatch from `realm` goes through, outermost
/// first.
pub open spec fn onion(k: KernelView, point: TypeId, realm: RealmId) -> Seq<PipelineHandler> {
    layers_along(k, point, slice(k.realms, realm))
}

/// The numbers of the middlewares.
pub open spec fn middleware_ids(middlewares: Seq<PipelineHandler>) -> Seq<u64> {
    middlewares.map_values(|m: PipelineHandler| m.id)
}

impl Kernel {
    /// The vertical slice of realms a dispatch from `realm` reaches: its
    /// ancestors (root first), itself, then all descendant realms breadth
    /// first. The position in this list is the onion's realm order.
    pub fn pipeline_slice(&self, realm: RealmId) -> (r: Vec<RealmId>)
        requires
            self.wf(),
        ensures
            r@ == slice(self@.realms, realm),
    {
        let up = self.realm_chain(realm);
        let ghost k = self@.realms;
        let mut out: Vec<RealmId> = Vec::new();
        let mut i: usize = up.len();
        proof {
            lemma_chain_starts(k, realm);
        }
        assert(up@.skip(i as int).reverse() =~= Seq::<RealmId>::empty());
        while i > 1
            invariant
                1 <= i <= up@.len(),
                out@ == up@.skip(i as int).reverse(),
            decreases i,
        {
            i = i - 1;
            out.push(up[i]);
            assert(out@ =~= up@.skip(i as int).reverse());
        }
        let ghost above = out@;
        assert(above =~= up@.reverse().drop_last());
        let mut level: Vec<RealmId> = Vec::new();
        level.push(realm);
        assert(level@ =~= seq![realm]);
        let n = self.realm_count();
        let mut fuel: usize = n;
        assert(above + levels(k, level@, n as nat) =~= slice(k, realm));
        while fuel > 0
            invariant
                self.wf(),
                k == self@.realms,
                out@ + levels(k, level@, fuel as nat) == slice(k, realm),
            decreases fuel,
        {
            let mut below: Vec<RealmId> = Vec::new();
            let mut j: usize = 0;
            let ghost done = out@;
            assert(level@.take(0) =~= Seq::<RealmId>::empty());
            assert(done + level@.take(0) =~= done);
            while j < level.len()
                invariant
                    self.wf(),
                    k == self@.realms,
                    j <= level@.len(),
                    out@ == done + level@.take(j as int),
                    below@ == next_level(k, level@.take(j as int)),
                decreases level@.len() - j,
            {
                out.push(level[j]);
                let mut children = self.realm_children(level[j]);
                below.append(&mut children);
                assert(level@.take(j + 1).drop_last() =~= level@.take(j as int));
                assert(out@ =~= done + level@.take(j + 1));
                j = j + 1;
            }
            assert(level@.take(j as int) =~= level@);
            assert(out@ + levels(k, below@, (fuel - 1) as nat) =~= done + levels(
                k,
                level@,
                fuel as nat,
            ));
            level = below;
            fuel = fuel - 1;
        }
        out.append(&mut level);
        out
    }

    /// The middlewares of an extension point in a realm, outermost first, by
    /// number.
    fn realm_layers(&self, point: TypeId, realm: RealmId) -> (r: Vec<u64>)
        requires
            self.wf(),
        ensures
            r@ == middleware_ids(layers_in(self@, point, realm)),
    {
        let all = self.pipeline_handlers();
        let ghost k = self@;
        let ghost front = placed(k, point, realm, true);
        let ghost back = placed(k, point, realm, false);
        let mut out: Vec<u64> = Vec::new();
        let mut i: usize = all.len();
        proof {
            assert(all@.skip(i as int) =~= Seq::<PipelineHandler>::empty());
            reveal(Seq::filter);
            assert(middleware_ids(all@.skip(i as int).filter(front).reverse()) =~= Seq::<
                u64,
            >::empty());
        }
        while i > 0
            invariant
                self.wf(),
                k == self@,
                all@ == k.middlewares,
                front == placed(k, point, realm, true),
                i <= all@.len(),
                out@ == middleware_ids(all@.skip(i as int).filter(front).reverse()),
            decreases i,
        {
            i = i - 1;
            let m = all[i];
            proof {
                lemma_filter_front(all@, i as int, front);
            }
            if same_type(&m.point, &point) && m.realm == realm && m.prepend && self.is_active(
                m.fiber,
            ) {
                out.push(m.id);
            }
            assert(out@ =~= middleware_ids(all@.skip(i as int).filter(front).reverse()));
        }
        assert(all@.skip(0) =~= all@);
        let ghost ahead = out@;
        let mut j: usize = 0;
        proof {
            lemma_filter_none(all@, back);
            assert(ahead + middleware_ids(Seq::empty()) =~= ahead);
        }
        while j < all.len()
            invariant
                self.wf(),
                k == self@,
                all@ == k.middlewares,
                back == placed(k, point, realm, false),
                j <= all@.len(),
                out@ == ahead + middleware_ids(all@.take(j as int).filter(back)),
            decreases all@.len() - j,
        {
            let m = all[j];
            proof {
                lemma_filter_step(all@, j as int, back);
            }
            if same_type(&m.point, &point) && m.realm == realm && !m.prepend && self.is_active(
                m.fiber,
            ) {
                out.push(m.id);
            }
            assert(out@ =~= ahead + middleware_ids(all@.take(j + 1).filter(back)));
            j = j + 1;
        }
        assert(all@.take(j as int) =~= all@);
        assert(out@ =~= middleware_ids(layers_in(k, point, realm)));
        out
    }

    /// The snapshot of middlewares for a pipeline dispatch from `realm`, by
    /// number, ordered outermost first: realms in slice order (depth
    /// ascending), prepends newest first, then appends in registration order.
    pub fn pipeline_chain(&self, point: TypeId, realm: RealmId) -> (r: Vec<u64>)
        requires
            self.wf(),
        ensures
            r@ == middleware_ids(onion(self@, point, realm)),
    {
        let realms = self.pipeline_slice(realm);
        let mut out: Vec<u64> = Vec::new();
        let mut i: usize = 0;
        proof {
            assert(realms@.take(0) =~= Seq::<RealmId>::empty());
            assert(middleware_ids(Seq::empty()) =~= Seq::<u64>::empty());
        }
        while i < realms.len()
            invariant
                self.wf(),
                i <= realms@.len(),
                out@ == middleware_ids(layers_along(self@, point, realms@.take(i as int))),
            decreases realms@.len() - i,
        {
            let ghost done = out@;
            let mut more = self.realm_layers(point, realms[i]);
            let ghost extra = more@;
            out.append(&mut more);
            proof {
                assert(realms@.take(i + 1).drop_last() =~= realms@.take(i as int));
                assert(out@ =~= done + extra);
                assert(out@ =~= middleware_ids(
                    layers_along(self@, point, realms@.take(i + 1)),
                ));
            }
            i = i + 1;
        }
        assert(realms@.take(i as int) =~= realms@);
        out
    }
}

/// A chain starts with the realm itself.
pub proof fn lemma_chain_starts(realms: Seq<RealmView>, realm: RealmId)
    ensures
        chain(realms, realm).len() > 0,
        chain(realms, realm)[0] == realm,
{
}

/// The remaining chain, with the built-in behavior at its end.
///
/// A middleware may run the rest of the chain more than once.
#[derive(Debug)]
pub struct Next {
    pub chain: Vec<u64>,
    pub index: usize,
}

impl Clone for Next {
    fn clone(&self) -> (r: Self)
        ensures
            r.chain@ == self.chain@,
            r.index == self.index,
    {
        Next { chain: copy_chain(&self.chain), index: self.index }
    }
}

impl Next {
    fn entry(chain: Vec<u64>, index: usize) -> (r: Self)
        ensures
            r.chain == chain,
            r.index == index,
    {
        Next { chain, index }
    }

    /// What is to run next: the middleware at hand with the rest of the
    /// chain, or the built-in behavior where the chain has ended.
    pub fn run(&self) -> (r: Layer<Next>)
        ensures
            match r {
                Layer::Inner(id, next) => {
                    &&& self.index < self.chain@.len()
                    &&& id == self.chain@[self.index as int]
                    &&& next.chain@ == self.chain@
                    &&& next.index == self.index + 1
                },
                Layer::BuiltIn => self.index >= self.chain@.len(),
            },
    {
        if self.index < self.chain.len() {
            let next = Next::entry(copy_chain(&self.chain), self.index + 1);
            Layer::Inner(self.chain[self.index], next)
        } else {
            Layer::BuiltIn
        }
    }
}

/// The kernel with a middleware registered for a context, and the name of its
/// extension point recorded. It is kept only where the context's fiber is in
/// use.
pub open spec fn wrapped(k: KernelView, ctx: Ctx, point: TypeTag, prepend: bool) -> KernelView {
    let k1 = KernelView { points: renamed(k.points, point.id, point.name), ..k };
    if is_active(k, ctx.fiber) {
        with_middleware(k1, ctx, point.id, prepend)
    } else {
        with_late_middleware(k1)
    }
}

/// What registering a middleware hands back.
pub open spec fn pipeline_handle(k: KernelView, point: TypeId) -> PipelineId {
    PipelineId { type_id: point, id: k.next_handler as u64 }
}

impl Ctx {
    /// Registers a middleware on an extension point. It goes when this fiber
    /// is disposed; on a fiber that is not in use it is not kept.
    fn wrap(&self, kernel: &mut Kernel, point: TypeTag, prepend: bool) -> (r: PipelineId)
        requires
            old(kernel).wf(),
            old(kernel)@.next_handler < u64::MAX,
        ensures
            final(kernel).wf(),
            r == pipeline_handle(old(kernel)@, point.id),
            final(kernel)@ == wrapped(old(kernel)@, *self, point, prepend),
    {
        kernel.note_pipeline(point);
        let id = kernel.add_pipeline(*self, point.id, prepend);
        PipelineId { type_id: point.id, id }
    }

    /// Appends a middleware to an extension point. Within its realm it runs
    /// after previously registered middlewares.
    pub fn middleware(&self, kernel: &mut Kernel, point: TypeTag) -> (r: PipelineId)
        requires
            old(kernel).wf(),
            old(kernel)@.next_handler < u64::MAX,
        ensures
            final(kernel).wf(),
            r == pipeline_handle(old(kernel)@, point.id),
            final(kernel)@ == wrapped(old(kernel)@, *self, point, false),
    {
        self.wrap(kernel, point, false)
    }

    /// Prepends a middleware to an extension point: within its realm it runs
    /// before previously registered ones, newest prepend first.
    pub fn middleware_before(&self, kernel: &mut Kernel, point: TypeTag) -> (r: PipelineId)
        requires
            old(kernel).wf(),
            old(kernel)@.next_handler < u64::MAX,
        ensures
            final(kernel).wf(),
            r == pipeline_handle(old(kernel)@, point.id),
            final(kernel)@ == wrapped(old(kernel)@, *self, point, true),
    {
        self.wrap(kernel, point, true)
    }

    /// The chain to compose around the built-in behavior. It is taken here;
    /// middlewares registered while the dispatch runs only join later
    /// dispatches.
    pub fn waterfall(&self, kernel: &Kernel, point: TypeId) -> (r: Next)
        requires
            kernel.wf(),
        ensures
            r.chain@ == middleware_ids(onion(kernel@, point, self.realm)),
            r.index == 0,
    {
        Next::entry(kernel.pipeline_chain(point, self.realm), 0)
    }
}

} // verus!
