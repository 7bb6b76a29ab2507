//! Whom a dispatch reaches, and in what order.

use crate::context::{Ctx, RealmId, RealmView, chain, descends, kids, kids_among, parent_of};
use crate::describe::{below, label};
use crate::events::{
    Attempt, EventHandler, EventKey, EventKind, Turn, TypeTag, answered, awake, bubble, deciders_of,
    dispatched, going_on, handler_ids, heard, lemma_next_awake, listening, named, observers_of,
    reached,
};
use crate::laws::realms::law_chain_holds_the_ancestors;
use crate::model::{KernelView, is_active, kernel_ok};
use crate::pipeline::{
    PipelineHandler, layers_along, layers_in, lemma_chain_starts, levels, next_level, onion, placed,
    slice,
};
use crate::seqs::{lemma_filter_contains, lemma_filter_front, lemma_filter_ordered};
use crate::table::rows_map;
use std::any::TypeId;
use vstd::prelude::*;

verus! {

// ---- events ----

proof fn lemma_bubble_members(
    handlers: Seq<EventHandler>,
    key: EventKey,
    realms: Seq<RealmId>,
    h: EventHandler,
)
    ensures
        bubble(handlers, key, realms).contains(h) <==> handlers.contains(h) && h.key == key
            && realms.contains(h.realm),
    decreases realms.len(),
{
    if realms.len() > 0 {
        let front = realms.drop_last();
        let here = handlers.filter(listening(key, realms.last()));
        let before = bubble(handlers, key, front);
        lemma_bubble_members(handlers, key, front, h);
        lemma_filter_contains(handlers, listening(key, realms.last()));
        lemma_added_members(before, here, h);
        if realms.contains(h.realm) && h.realm != realms.last() {
            let i = choose|i: int| 0 <= i < realms.len() && realms[i] == h.realm;
            assert(front[i] == h.realm);
        }
        if front.contains(h.realm) {
            let i = choose|i: int| 0 <= i < front.len() && front[i] == h.realm;
            assert(realms[i] == h.realm);
        }
        if h.realm == realms.last() {
            assert(realms[realms.len() - 1] == h.realm);
        }
    }
}

pub proof fn lemma_added_members<A>(a: Seq<A>, b: Seq<A>, x: A)
    ensures
        (a + b).contains(x) <==> a.contains(x) || b.contains(x),
{
    if a.contains(x) {
        let i = choose|i: int| 0 <= i < a.len() && a[i] == x;
        assert((a + b)[i] == x);
    }
    if b.contains(x) {
        let i = choose|i: int| 0 <= i < b.len() && b[i] == x;
        assert((a + b)[a.len() + i] == x);
    }
    if (a + b).contains(x) {
        let i = choose|i: int| 0 <= i < (a + b).len() && (a + b)[i] == x;
        if i < a.len() {
            assert(a[i] == x);
        } else {
            assert(b[i - a.len()] == x);
        }
    }
}

/// Events bubble up and nowhere else: a dispatch reaches exactly the handlers
/// of its family in its own realm and the realms above it.
pub proof fn law_events_bubble_up_only(
    k: KernelView,
    key: EventKey,
    realm: RealmId,
    h: EventHandler,
)
    ensures
        reached(k, key, realm).contains(h) <==> k.handlers.contains(h) && h.key == key && (h.realm
            == realm || descends(k.realms, realm, h.realm)),
{
    lemma_bubble_members(k.handlers, key, chain(k.realms, realm), h);
    law_chain_holds_the_ancestors(k.realms, realm, h.realm);
}

/// A dispatch runs exactly the handlers it reaches whose fiber is in use:
/// handlers die with their fiber.
pub proof fn law_dispatches_run_handlers_in_use(
    k: KernelView,
    key: EventKey,
    realm: RealmId,
    id: u64,
)
    ensures
        dispatched(k, key, realm).contains(id) <==> exists|h: EventHandler| #[trigger]
            reached(k, key, realm).contains(h) && is_active(k, h.fiber) && h.id == id,
{
    let all = reached(k, key, realm);
    let ready = all.filter(awake(k));
    let ids = dispatched(k, key, realm);
    lemma_filter_contains(all, awake(k));
    if ids.contains(id) {
        let i = choose|i: int| 0 <= i < ids.len() && ids[i] == id;
        assert(ready.contains(ready[i]));
        assert(all.contains(ready[i]));
    }
    if exists|h: EventHandler| #[trigger]
        all.contains(h) && is_active(k, h.fiber) && h.id == id {
        let h = choose|h: EventHandler| #[trigger]
            all.contains(h) && is_active(k, h.fiber) && h.id == id;
        assert(ready.contains(h));
        let i = choose|i: int| 0 <= i < ready.len() && ready[i] == h;
        assert(ids[i] == id);
    }
}

/// Every realm on the way up lies below those after it.
proof fn lemma_chain_descends(realms: Seq<RealmView>, realm: RealmId, i: int, j: int)
    requires
        0 <= i < j < chain(realms, realm).len(),
    ensures
        descends(realms, chain(realms, realm)[i], chain(realms, realm)[j]),
    decreases realm.0,
{
    let all = chain(realms, realm);
    if let Some(parent) = parent_of(realms, realm) {
        let rest = chain(realms, parent);
        assert(all =~= seq![realm] + rest);
        if i > 0 {
            lemma_chain_descends(realms, parent, i - 1, j - 1);
        } else {
            assert(all[j] == rest[j - 1]);
            assert(rest.contains(rest[j - 1]));
            law_chain_holds_the_ancestors(realms, parent, all[j]);
        }
    }
}

/// A realm does not lie below itself.
proof fn lemma_never_below_itself(realms: Seq<RealmView>, realm: RealmId, ancestor: RealmId)
    ensures
        descends(realms, realm, ancestor) ==> ancestor.0 < realm.0,
    decreases realm.0,
{
    if let Some(parent) = parent_of(realms, realm) {
        lemma_never_below_itself(realms, parent, ancestor);
    }
}

/// Whether one handler comes before another in a dispatch: it sits in a realm
/// below, or in the same realm and was registered earlier.
pub open spec fn heard_before(
    realms: Seq<RealmView>,
) -> spec_fn(EventHandler, EventHandler) -> bool {
    |a: EventHandler, b: EventHandler|
        if a.realm == b.realm {
            a.id < b.id
        } else {
            descends(realms, a.realm, b.realm)
        }
}

proof fn lemma_bubble_order(
    realms: Seq<RealmView>,
    handlers: Seq<EventHandler>,
    key: EventKey,
    way: Seq<RealmId>,
    i: int,
    j: int,
)
    requires
        forall|a: int, b: int|
            0 <= a < b < handlers.len() ==> (#[trigger] handlers[a]).id < (
            #[trigger] handlers[b]).id,
        forall|a: int, b: int|
            0 <= a < b < way.len() ==> descends(
                realms,
                #[trigger] way[a],
                #[trigger] way[b],
            ),
        0 <= i < j < bubble(handlers, key, way).len(),
    ensures
        heard_before(realms)(bubble(handlers, key, way)[i], bubble(handlers, key, way)[j]),
    decreases way.len(),
{
    if way.len() > 0 {
        let front = way.drop_last();
        let here = handlers.filter(listening(key, way.last()));
        let before = bubble(handlers, key, front);
        let all = bubble(handlers, key, way);
        lemma_filter_contains(handlers, listening(key, way.last()));
        if j < before.len() {
            assert forall|a: int, b: int| 0 <= a < b < front.len() implies descends(
                realms,
                #[trigger] front[a],
                #[trigger] front[b],
            ) by {
                assert(front[a] == way[a] && front[b] == way[b]);
            }
            lemma_bubble_order(realms, handlers, key, front, i, j);
        } else if i >= before.len() {
            let earlier = |a: EventHandler, b: EventHandler| a.id < b.id;
            assert forall|a: int, b: int| 0 <= a < b < handlers.len() implies
                #[trigger] earlier(handlers[a], handlers[b]) by {}
            lemma_filter_ordered(handlers, listening(key, way.last()), earlier);
            let a = i - before.len();
            let b = j - before.len();
            assert(earlier(here[a], here[b]));
            assert(here.contains(here[a]) && here.contains(here[b]));
        } else {
            assert(before.contains(before[i]));
            lemma_bubble_members(handlers, key, front, before[i]);
            let a = choose|a: int| 0 <= a < front.len() && front[a] == before[i].realm;
            assert(way[a] == before[i].realm);
            assert(here.contains(here[j - before.len()]));
            assert(way[way.len() - 1] == here[j - before.len()].realm);
            lemma_never_below_itself(realms, way[a], way[way.len() - 1]);
        }
    }
}

/// Dispatches go from the innermost realm outward, and within a realm in the
/// order of registration.
pub proof fn law_events_bubble_innermost_first(
    k: KernelView,
    key: EventKey,
    realm: RealmId,
    i: int,
    j: int,
)
    requires
        kernel_ok(k),
        0 <= i < j < reached(k, key, realm).len(),
    ensures
        ({
            let a = reached(k, key, realm)[i];
            let b = reached(k, key, realm)[j];
            if a.realm == b.realm {
                a.id < b.id
            } else {
                descends(k.realms, a.realm, b.realm)
            }
        }),
{
    let way = chain(k.realms, realm);
    assert forall|a: int, b: int| 0 <= a < b < way.len() implies descends(
        k.realms,
        #[trigger] way[a],
        #[trigger] way[b],
    ) by {
        lemma_chain_descends(k.realms, realm, a, b);
    }
    lemma_bubble_order(k.realms, k.handlers, key, way, i, j);
}

// ---- serial dispatch ----

/// The deciders that a serial dispatch runs and the decision it comes to, if
/// the kernel stays as it is and each decider answers as `answer` says. The
/// dispatch has come to `state`.
pub open spec fn serial_course<R>(
    k: KernelView,
    handlers: Seq<EventHandler>,
    state: (int, Turn<R>),
    answer: spec_fn(u64) -> Attempt<R>,
) -> (Seq<u64>, Option<R>)
    decreases handlers.len() - state.0, (if state.1 is Run { 1nat } else { 0nat }),
{
    match state.1 {
        Turn::Done(decision) => (Seq::empty(), decision),
        Turn::Run(id) => {
            let next = answered(k, handlers, state.0, answer(id));
            proof {
                lemma_next_awake(k, handlers, state.0);
            }
            if state.0 <= handlers.len() {
                let rest = serial_course(k, handlers, next, answer);
                (seq![id] + rest.0, rest.1)
            } else {
                (seq![id], None)
            }
        },
    }
}

/// The deciders asked, in order, until one decides, and the decision.
pub open spec fn asked<R>(ids: Seq<u64>, answer: spec_fn(u64) -> Attempt<R>) -> (
    Seq<u64>,
    Option<R>,
)
    decreases ids.len(),
{
    if ids.len() == 0 {
        (Seq::empty(), None)
    } else {
        match answer(ids[0]) {
            Attempt::Decided(decision) => (seq![ids[0]], Some(decision)),
            _ => {
                let rest = asked(ids.drop_first(), answer);
                (seq![ids[0]] + rest.0, rest.1)
            },
        }
    }
}

proof fn lemma_serial_course<R>(
    k: KernelView,
    handlers: Seq<EventHandler>,
    from: int,
    answer: spec_fn(u64) -> Attempt<R>,
)
    requires
        0 <= from <= handlers.len(),
    ensures
        serial_course(k, handlers, going_on(k, handlers, from), answer) == asked(
            handler_ids(handlers.skip(from).filter(awake(k))),
            answer,
        ),
    decreases handlers.len() - from,
{
    let rest = handlers.skip(from).filter(awake(k));
    if from == handlers.len() {
        assert(handlers.skip(from) =~= Seq::<EventHandler>::empty());
        reveal(Seq::filter);
        assert(rest =~= Seq::<EventHandler>::empty());
    } else {
        lemma_filter_front(handlers, from, awake(k));
        lemma_serial_course(k, handlers, from + 1, answer);
        let inner = handlers.skip(from + 1).filter(awake(k));
        if is_active(k, handlers[from].fiber) {
            let id = handlers[from].id;
            assert(handler_ids(rest)[0] == id);
            assert(handler_ids(rest).drop_first() =~= handler_ids(inner));
            let state = going_on::<R>(k, handlers, from);
            assert(state == (from + 1, Turn::<R>::Run(id)));
            if let Attempt::Decided(decision) = answer(id) {
                let end = answered(k, handlers, from + 1, answer(id));
                assert(serial_course(k, handlers, end, answer) == (
                    Seq::<u64>::empty(),
                    Some(decision),
                ));
                assert(seq![id] + Seq::<u64>::empty() =~= seq![id]);
            }
        } else {
            assert(rest =~= inner);
        }
    }
}

proof fn lemma_asked<R>(ids: Seq<u64>, answer: spec_fn(u64) -> Attempt<R>, n: int)
    requires
        0 <= n <= ids.len(),
        forall|i: int| 0 <= i < n ==> !(answer(#[trigger] ids[i]) is Decided),
    ensures
        n == ids.len() ==> asked(ids, answer) == (ids, None::<R>),
        n < ids.len() && answer(ids[n]) is Decided ==> asked(ids, answer) == (
            ids.take(n + 1),
            Some(answer(ids[n])->Decided_0),
        ),
    decreases n,
{
    if n == 0 {
        if ids.len() > 0 {
            assert(ids.take(1) =~= seq![ids[0]]);
        } else {
            assert(ids =~= Seq::<u64>::empty());
        }
    } else {
        let rest = ids.drop_first();
        assert forall|i: int| 0 <= i < n - 1 implies !(answer(#[trigger] rest[i]) is Decided) by {
            assert(rest[i] == ids[i + 1]);
        }
        lemma_asked(rest, answer, n - 1);
        assert(!(answer(ids[0]) is Decided));
        if n == ids.len() {
            assert(seq![ids[0]] + rest =~= ids);
        } else {
            assert(rest[n - 1] == ids[n]);
            assert(seq![ids[0]] + rest.take(n) =~= ids.take(n + 1));
        }
    }
}

/// A serial dispatch stops at the first decision and returns it: the deciders
/// before pass or panic, and none behind it is run.
pub proof fn law_serial_stops_at_the_first_decision<R>(
    k: KernelView,
    key: EventKey,
    realm: RealmId,
    answer: spec_fn(u64) -> Attempt<R>,
    n: int,
    decision: R,
)
    requires
        0 <= n < dispatched(k, key, realm).len(),
        forall|i: int|
            0 <= i < n ==> !(answer(#[trigger] dispatched(k, key, realm)[i]) is Decided),
        answer(dispatched(k, key, realm)[n]) == Attempt::Decided(decision),
    ensures
        serial_course(
            k,
            reached(k, key, realm),
            going_on(k, reached(k, key, realm), 0),
            answer,
        ) == (dispatched(k, key, realm).take(n + 1), Some(decision)),
{
    let handlers = reached(k, key, realm);
    lemma_serial_course(k, handlers, 0, answer);
    assert(handlers.skip(0) =~= handlers);
    lemma_asked(dispatched(k, key, realm), answer, n);
}

/// A serial dispatch in which nobody decides runs every decider it reaches
/// whose fiber is in use, and ends without a decision.
pub proof fn law_serial_asks_everybody_without_a_decision<R>(
    k: KernelView,
    key: EventKey,
    realm: RealmId,
    answer: spec_fn(u64) -> Attempt<R>,
)
    requires
        forall|i: int|
            0 <= i < dispatched(k, key, realm).len() ==> !(answer(
                #[trigger] dispatched(k, key, realm)[i],
            ) is Decided),
    ensures
        serial_course(
            k,
            reached(k, key, realm),
            going_on(k, reached(k, key, realm), 0),
            answer,
        ) == (dispatched(k, key, realm), None::<R>),
{
    let handlers = reached(k, key, realm);
    lemma_serial_course(k, handlers, 0, answer);
    assert(handlers.skip(0) =~= handlers);
    lemma_asked(dispatched(k, key, realm), answer, dispatched(k, key, realm).len() as int);
}

// ---- the vertical slice ----

/// How deep a realm lies: one for a root, one more for each level below.
pub open spec fn depth(realms: Seq<RealmView>, realm: RealmId) -> nat {
    chain(realms, realm).len()
}

proof fn lemma_kids_among(realms: Seq<RealmView>, realm: RealmId, n: nat)
    requires
        n <= u32::MAX,
    ensures
        forall|x: RealmId| #[trigger]
            kids_among(realms, realm, n).contains(x) <==> x.0 < n && parent_of(realms, x) == Some(
                realm,
            ),
        kids_among(realms, realm, n).no_duplicates(),
    decreases n,
{
    if n > 0 {
        let m = (n - 1) as nat;
        lemma_kids_among(realms, realm, m);
        let front = kids_among(realms, realm, m);
        let last = RealmId(m as u32);
        assert forall|x: RealmId| #[trigger]
            kids_among(realms, realm, n).contains(x) <==> x.0 < n && parent_of(realms, x) == Some(
                realm,
            ) by {
            if parent_of(realms, last) == Some(realm) {
                lemma_added_members(front, seq![last], x);
                assert(front.push(last) =~= front + seq![last]);
                assert(seq![last].contains(x) <==> x == last) by {
                    assert(seq![last][0] == last);
                }
            }
            assert(front.contains(x) <==> x.0 < m && parent_of(realms, x) == Some(realm));
        }
        assert(!front.contains(last));
    }
}

pub proof fn lemma_next_level(realms: Seq<RealmView>, level: Seq<RealmId>)
    requires
        realms.len() <= u32::MAX,
    ensures
        forall|x: RealmId| #[trigger]
            next_level(realms, level).contains(x) <==> has_parent_in(realms, x, level),
        level.no_duplicates() ==> next_level(realms, level).no_duplicates(),
    decreases level.len(),
{
    if level.len() > 0 {
        let front = level.drop_last();
        let last = level.last();
        lemma_next_level(realms, front);
        lemma_kids_among(realms, last, realms.len());
        let before = next_level(realms, front);
        let here = kids(realms, last);
        assert(level =~= front.push(last));
        assert forall|x: RealmId| #[trigger]
            next_level(realms, level).contains(x) <==> has_parent_in(realms, x, level) by {
            lemma_added_members(before, here, x);
            if let Some(parent) = parent_of(realms, x) {
                lemma_added_members(front, seq![last], parent);
                assert(level =~= front + seq![last]);
                assert(seq![last].contains(parent) <==> parent == last) by {
                    assert(seq![last][0] == last);
                }
            }
            assert(here.contains(x) <==> x.0 < realms.len() && parent_of(realms, x) == Some(last));
            assert(before.contains(x) <==> has_parent_in(realms, x, front));
        }
        if level.no_duplicates() {
            assert(front.no_duplicates());
            assert forall|i: int, j: int|
                0 <= i < before.len() && 0 <= j < here.len() implies before[i] != here[j] by {
                assert(before.contains(before[i]));
                assert(here.contains(here[j]));
                if before[i] == here[j] {
                    assert(has_parent_in(realms, before[i], front));
                    let a = choose|a: int| 0 <= a < front.len() && front[a] == last;
                    assert(level[a] == level[level.len() - 1]);
                }
            }
            let all = next_level(realms, level);
            assert forall|i: int, j: int|
                0 <= i < all.len() && 0 <= j < all.len() && i != j implies all[i] != all[j] by {
                if i < before.len() && j >= before.len() {
                    assert(before[i] != here[j - before.len()]);
                }
                if j < before.len() && i >= before.len() {
                    assert(before[j] != here[i - before.len()]);
                }
            }
        }
    }
}

/// Whether the realm's parent is one of a level.
pub open spec fn has_parent_in(realms: Seq<RealmView>, x: RealmId, level: Seq<RealmId>) -> bool {
    match parent_of(realms, x) {
        Some(parent) => level.contains(parent),
        None => false,
    }
}

/// Whether the realm lies in a level, or below one of its realms by at most
/// `n` levels.
pub open spec fn within(realms: Seq<RealmView>, x: RealmId, level: Seq<RealmId>, n: nat) -> bool
    decreases n,
{
    level.contains(x) || n > 0 && match parent_of(realms, x) {
        Some(parent) => within(realms, parent, level, (n - 1) as nat),
        None => false,
    }
}

/// Being below a level is being within the next one.
proof fn lemma_within_next(realms: Seq<RealmView>, x: RealmId, level: Seq<RealmId>, n: nat)
    requires
        realms.len() <= u32::MAX,
        n > 0,
    ensures
        within(realms, x, level, n) <==> level.contains(x) || within(
            realms,
            x,
            next_level(realms, level),
            (n - 1) as nat,
        ),
    decreases n,
{
    lemma_next_level(realms, level);
    let below = next_level(realms, level);
    let m = (n - 1) as nat;
    assert(below.contains(x) <==> has_parent_in(realms, x, level));
    if let Some(parent) = parent_of(realms, x) {
        if m > 0 {
            lemma_within_next(realms, parent, level, m);
            assert(within(realms, parent, level, m) <==> level.contains(parent) || within(
                realms,
                parent,
                below,
                (m - 1) as nat,
            ));
        } else {
            assert(within(realms, parent, level, 0) <==> level.contains(parent));
        }
        assert(within(realms, x, level, n) <==> level.contains(x) || within(
            realms,
            parent,
            level,
            m,
        ));
    }
}

proof fn lemma_levels(realms: Seq<RealmView>, level: Seq<RealmId>, n: nat, d: nat)
    requires
        realms.len() <= u32::MAX,
        level.no_duplicates(),
        forall|i: int| 0 <= i < level.len() ==> depth(realms, #[trigger] level[i]) == d,
    ensures
        forall|x: RealmId| #[trigger]
            levels(realms, level, n).contains(x) <==> within(realms, x, level, n),
        levels(realms, level, n).no_duplicates(),
        forall|i: int|
            0 <= i < levels(realms, level, n).len() ==> depth(
                realms,
                #[trigger] levels(realms, level, n)[i],
            ) >= d,
        forall|i: int, j: int|
            0 <= i < j < levels(realms, level, n).len() ==> depth(
                realms,
                #[trigger] levels(realms, level, n)[i],
            ) <= depth(realms, #[trigger] levels(realms, level, n)[j]),
    decreases n,
{
    if n > 0 {
        let m = (n - 1) as nat;
        let below = next_level(realms, level);
        let all = levels(realms, level, n);
        lemma_next_level(realms, level);
        assert forall|i: int| 0 <= i < below.len() implies depth(realms, #[trigger] below[i]) == d
            + 1 by {
            assert(below.contains(below[i]));
            let parent = parent_of(realms, below[i])->0;
            let a = choose|a: int| 0 <= a < level.len() && level[a] == parent;
            assert(depth(realms, level[a]) == d);
        }
        lemma_levels(realms, below, m, d + 1);
        let rest = levels(realms, below, m);
        assert(all =~= level + rest);
        assert forall|x: RealmId| #[trigger] all.contains(x) <==> within(realms, x, level, n) by {
            lemma_added_members(level, rest, x);
            lemma_within_next(realms, x, level, n);
            assert(rest.contains(x) <==> within(realms, x, below, m));
        }
        assert forall|i: int| 0 <= i < all.len() implies depth(realms, #[trigger] all[i]) >= d by {
            if i < level.len() {
                assert(all[i] == level[i]);
            } else {
                assert(all[i] == rest[i - level.len()]);
            }
        }
        assert forall|i: int, j: int| 0 <= i < j < all.len() implies depth(
            realms,
            #[trigger] all[i],
        ) <= depth(realms, #[trigger] all[j]) && all[i] != all[j] by {
            if j < level.len() {
                assert(all[i] == level[i] && all[j] == level[j]);
            } else if i < level.len() {
                assert(all[i] == level[i]);
                assert(all[j] == rest[j - level.len()]);
                assert(depth(realms, rest[j - level.len()]) >= d + 1);
            } else {
                assert(all[i] == rest[i - level.len()]);
                assert(all[j] == rest[j - level.len()]);
            }
        }
    }
}

/// A realm below another lies within as many levels as its number.
proof fn lemma_within_descends(realms: Seq<RealmView>, x: RealmId, realm: RealmId, n: nat)
    requires
        x.0 <= n,
    ensures
        within(realms, x, seq![realm], n) <==> x == realm || descends(realms, x, realm),
    decreases n,
{
    assert(seq![realm].contains(x) <==> x == realm) by {
        assert(seq![realm][0] == realm);
    }
    if n > 0 {
        if let Some(parent) = parent_of(realms, x) {
            lemma_within_descends(realms, parent, realm, (n - 1) as nat);
        }
    }
}

/// How deep the realms on the way up lie.
proof fn lemma_chain_depths(realms: Seq<RealmView>, realm: RealmId, i: int)
    requires
        0 <= i < chain(realms, realm).len(),
    ensures
        depth(realms, chain(realms, realm)[i]) == chain(realms, realm).len() - i,
    decreases realm.0,
{
    let all = chain(realms, realm);
    if i > 0 {
        let parent = parent_of(realms, realm)->0;
        assert(all =~= seq![realm] + chain(realms, parent));
        lemma_chain_depths(realms, parent, i - 1);
    }
}

/// The vertical slice of a realm: it holds the realm itself, the realms above
/// it and the realms below it, each once, and none of any other branch; and
/// they come by depth, outermost first.
pub proof fn law_the_slice_is_vertical(realms: Seq<RealmView>, realm: RealmId)
    requires
        realms.len() <= u32::MAX,
        realm.0 < realms.len(),
    ensures
        forall|x: RealmId|
            #![trigger slice(realms, realm).contains(x)]
            slice(realms, realm).contains(x) <==> x == realm || descends(realms, realm, x)
                || x.0 < realms.len() && descends(realms, x, realm),
        slice(realms, realm).no_duplicates(),
        forall|i: int, j: int|
            0 <= i < j < slice(realms, realm).len() ==> depth(
                realms,
                #[trigger] slice(realms, realm)[i],
            ) <= depth(realms, #[trigger] slice(realms, realm)[j]),
{
    let up = chain(realms, realm);
    let over = up.reverse().drop_last();
    let n = realms.len();
    let level = seq![realm];
    let below = levels(realms, level, n);
    let all = slice(realms, realm);
    let d = depth(realms, realm);
    lemma_chain_starts(realms, realm);
    assert(level[0] == realm);
    assert(level.no_duplicates());
    lemma_levels(realms, level, n, d);
    assert forall|i: int| 0 <= i < over.len() implies depth(realms, #[trigger] over[i]) == i
        + 1 by {
        assert(over[i] == up[up.len() - 1 - i]);
        lemma_chain_depths(realms, realm, up.len() - 1 - i);
    }
    assert forall|x: RealmId|
        #![trigger all.contains(x)]
        all.contains(x) <==> x == realm || descends(realms, realm, x) || x.0 < realms.len()
            && descends(realms, x, realm) by {
        lemma_added_members(over, below, x);
        law_chain_holds_the_ancestors(realms, realm, x);
        if x.0 < n {
            lemma_within_descends(realms, x, realm, n);
        } else {
            assert(parent_of(realms, x) is None);
            assert(!level.contains(x)) by {
                if level.contains(x) {
                    assert(x == realm);
                }
            }
            assert(!within(realms, x, level, n));
        }
        assert(below.contains(x) <==> within(realms, x, level, n));
        if over.contains(x) {
            let i = choose|i: int| 0 <= i < over.len() && over[i] == x;
            assert(up[up.len() - 1 - i] == x);
            assert(up.contains(x));
        }
        if up.contains(x) && x != realm {
            let i = choose|i: int| 0 <= i < up.len() && up[i] == x;
            assert(over[up.len() - 1 - i] == x);
        }
    }
    assert forall|i: int, j: int| 0 <= i < j < all.len() implies depth(
        realms,
        #[trigger] all[i],
    ) <= depth(realms, #[trigger] all[j]) && all[i] != all[j] by {
        if j < over.len() {
            assert(all[i] == over[i] && all[j] == over[j]);
        } else if i < over.len() {
            assert(all[i] == over[i]);
            assert(all[j] == below[j - over.len()]);
            assert(depth(realms, below[j - over.len()]) >= d);
        } else {
            assert(all[i] == below[i - over.len()]);
            assert(all[j] == below[j - over.len()]);
        }
    }
}

// ---- the onion ----

/// Whether one middleware wraps another of the same realm: those placed in
/// front wrap the others; of two in front the newer wraps the older, of two
/// others the older wraps the newer.
pub open spec fn wraps(a: PipelineHandler, b: PipelineHandler) -> bool {
    if a.prepend {
        !b.prepend || b.id < a.id
    } else {
        !b.prepend && a.id < b.id
    }
}

proof fn lemma_layers_in(k: KernelView, point: TypeId, realm: RealmId)
    requires
        kernel_ok(k),
    ensures
        forall|m: PipelineHandler| #[trigger]
            layers_in(k, point, realm).contains(m) <==> k.middlewares.contains(m) && m.point
                == point && m.realm == realm && is_active(k, m.fiber),
        forall|i: int, j: int|
            0 <= i < j < layers_in(k, point, realm).len() ==> wraps(
                #[trigger] layers_in(k, point, realm)[i],
                #[trigger] layers_in(k, point, realm)[j],
            ),
{
    let front = k.middlewares.filter(placed(k, point, realm, true));
    let back = k.middlewares.filter(placed(k, point, realm, false));
    let all = layers_in(k, point, realm);
    lemma_filter_contains(k.middlewares, placed(k, point, realm, true));
    lemma_filter_contains(k.middlewares, placed(k, point, realm, false));
    let earlier = |a: PipelineHandler, b: PipelineHandler| a.id < b.id;
    assert forall|a: int, b: int| 0 <= a < b < k.middlewares.len() implies #[trigger] earlier(
        k.middlewares[a],
        k.middlewares[b],
    ) by {}
    lemma_filter_ordered(k.middlewares, placed(k, point, realm, true), earlier);
    lemma_filter_ordered(k.middlewares, placed(k, point, realm, false), earlier);
    assert forall|m: PipelineHandler| #[trigger] all.contains(m) <==> k.middlewares.contains(m)
        && m.point == point && m.realm == realm && is_active(k, m.fiber) by {
        lemma_added_members(front.reverse(), back, m);
        if front.contains(m) {
            let i = choose|i: int| 0 <= i < front.len() && front[i] == m;
            assert(front.reverse()[front.len() - 1 - i] == m);
        }
        if front.reverse().contains(m) {
            let i = choose|i: int| 0 <= i < front.len() && front.reverse()[i] == m;
            assert(front[front.len() - 1 - i] == m);
        }
        assert(front.contains(m) <==> k.middlewares.contains(m) && placed(
            k,
            point,
            realm,
            true,
        )(m));
        assert(back.contains(m) <==> k.middlewares.contains(m) && placed(
            k,
            point,
            realm,
            false,
        )(m));
    }
    assert forall|i: int, j: int| 0 <= i < j < all.len() implies wraps(
        #[trigger] all[i],
        #[trigger] all[j],
    ) by {
        let n = front.len();
        if i < n {
            assert(all[i] == front[n - 1 - i]);
            assert(front.contains(front[n - 1 - i]));
        } else {
            assert(all[i] == back[i - n]);
            assert(back.contains(back[i - n]));
        }
        if j < n {
            assert(all[j] == front[n - 1 - j]);
            assert(front.contains(front[n - 1 - j]));
            assert(earlier(front[n - 1 - j], front[n - 1 - i]));
        } else {
            assert(all[j] == back[j - n]);
            assert(back.contains(back[j - n]));
            if i >= n {
                assert(earlier(back[i - n], back[j - n]));
            }
        }
    }
}

proof fn lemma_layers_along(k: KernelView, point: TypeId, way: Seq<RealmId>)
    requires
        kernel_ok(k),
        way.no_duplicates(),
    ensures
        forall|m: PipelineHandler| #[trigger]
            layers_along(k, point, way).contains(m) <==> k.middlewares.contains(m) && m.point
                == point && way.contains(m.realm) && is_active(k, m.fiber),
        forall|i: int, j: int|
            0 <= i < j < layers_along(k, point, way).len() ==> in_order(
                way,
                #[trigger] layers_along(k, point, way)[i],
                #[trigger] layers_along(k, point, way)[j],
            ),
    decreases way.len(),
{
    if way.len() > 0 {
        let front = way.drop_last();
        let last = way.last();
        assert(front.no_duplicates());
        lemma_layers_along(k, point, front);
        lemma_layers_in(k, point, last);
        let before = layers_along(k, point, front);
        let here = layers_in(k, point, last);
        let all = layers_along(k, point, way);
        assert(way =~= front + seq![last]);
        assert forall|m: PipelineHandler| #[trigger] all.contains(m) <==> k.middlewares.contains(m)
            && m.point == point && way.contains(m.realm) && is_active(k, m.fiber) by {
            lemma_added_members(before, here, m);
            lemma_added_members(front, seq![last], m.realm);
            assert(seq![last].contains(m.realm) <==> m.realm == last) by {
                assert(seq![last][0] == last);
            }
            assert(before.contains(m) <==> k.middlewares.contains(m) && m.point == point
                && front.contains(m.realm) && is_active(k, m.fiber));
            assert(here.contains(m) <==> k.middlewares.contains(m) && m.point == point && m.realm
                == last && is_active(k, m.fiber));
        }
        assert forall|i: int, j: int| 0 <= i < j < all.len() implies in_order(
            way,
            #[trigger] all[i],
            #[trigger] all[j],
        ) by {
            let n = before.len();
            if j < n {
                assert(all[i] == before[i] && all[j] == before[j]);
                assert(in_order(front, before[i], before[j]));
                let (a, b) = choose|a: int, b: int|
                    0 <= a <= b < front.len() && #[trigger] front[a] == before[i].realm
                        && #[trigger] front[b] == before[j].realm;
                assert(way[a] == all[i].realm && way[b] == all[j].realm);
            } else if i < n {
                assert(all[i] == before[i] && all[j] == here[j - n]);
                assert(before.contains(before[i]) && here.contains(here[j - n]));
                let a = choose|a: int| 0 <= a < front.len() && front[a] == before[i].realm;
                assert(way[a] == all[i].realm && way[way.len() - 1] == all[j].realm);
                assert(way[a] != way[way.len() - 1]);
            } else {
                assert(all[i] == here[i - n] && all[j] == here[j - n]);
                assert(here.contains(here[i - n]) && here.contains(here[j - n]));
                assert(way[way.len() - 1] == all[i].realm);
                assert(way[way.len() - 1] == all[j].realm);
            }
        }
    }
}

/// Whether one middleware comes before another along a list of realms: its
/// realm comes no later, and in the same realm it wraps the other.
pub open spec fn in_order(way: Seq<RealmId>, a: PipelineHandler, b: PipelineHandler) -> bool {
    &&& exists|i: int, j: int|
        0 <= i <= j < way.len() && #[trigger] way[i] == a.realm && #[trigger] way[j] == b.realm
    &&& a.realm == b.realm ==> wraps(a, b)
}

/// A dispatch goes through exactly the middlewares of its extension point
/// whose fiber is in use, in its own realm, above it and below it; sibling
/// branches do not join, and middlewares die with their fiber.
pub proof fn law_pipelines_run_the_slice(
    k: KernelView,
    point: TypeId,
    realm: RealmId,
    m: PipelineHandler,
)
    requires
        kernel_ok(k),
        realm.0 < k.realms.len(),
    ensures
        onion(k, point, realm).contains(m) <==> k.middlewares.contains(m) && m.point == point
            && is_active(k, m.fiber) && (m.realm == realm || descends(k.realms, realm, m.realm)
            || m.realm.0 < k.realms.len() && descends(k.realms, m.realm, realm)),
{
    law_the_slice_is_vertical(k.realms, realm);
    lemma_layers_along(k, point, slice(k.realms, realm));
    assert(slice(k.realms, realm).contains(m.realm) <==> m.realm == realm || descends(
        k.realms,
        realm,
        m.realm,
    ) || m.realm.0 < k.realms.len() && descends(k.realms, m.realm, realm));
}

/// The outer middlewares of a dispatch sit no deeper than the inner ones:
/// global ones wrap outermost, session-specific ones run closest to the
/// built-in behavior. Within a realm those placed in front come first, newest
/// first, then the others in the order they came.
pub proof fn law_pipelines_run_outermost_first(
    k: KernelView,
    point: TypeId,
    realm: RealmId,
    i: int,
    j: int,
)
    requires
        kernel_ok(k),
        realm.0 < k.realms.len(),
        0 <= i < j < onion(k, point, realm).len(),
    ensures
        ({
            let a = onion(k, point, realm)[i];
            let b = onion(k, point, realm)[j];
            &&& depth(k.realms, a.realm) <= depth(k.realms, b.realm)
            &&& a.realm == b.realm ==> wraps(a, b)
        }),
{
    let way = slice(k.realms, realm);
    law_the_slice_is_vertical(k.realms, realm);
    lemma_layers_along(k, point, way);
    let a = onion(k, point, realm)[i];
    let b = onion(k, point, realm)[j];
    assert(in_order(way, a, b));
    let (x, y) = choose|x: int, y: int|
        0 <= x <= y < way.len() && #[trigger] way[x] == a.realm && #[trigger] way[y] == b.realm;
    if x < y {
        assert(depth(k.realms, way[x]) <= depth(k.realms, way[y]));
    }
}

// ---- names ----

/// Whether every event family that shows up in a snapshot has its types
/// named.
pub open spec fn labelled(k: KernelView) -> bool {
    forall|i: int|
        #![trigger k.families[i]]
        0 <= i < k.families.len() ==> {
            &&& label(k, k.families[i].event) is Some
            &&& k.families[i].result matches Some(result) ==> label(k, result) is Some
        }
}

/// No bare type shows up unlabeled: registering a handler records the names of
/// the types of its family first.
pub proof fn law_families_are_labelled(
    k: KernelView,
    ctx: Ctx,
    kind: EventKind,
    event: TypeTag,
    result: TypeTag,
)
    requires
        labelled(k),
    ensures
        labelled(heard(named(k, event), ctx, observers_of(event.id))),
        labelled(
            heard(named(named(k, event), result), ctx, deciders_of(kind, event.id, result.id)),
        ),
{
    lemma_named(k, event);
    lemma_named(named(k, event), result);
    let a = named(k, event);
    let b = named(a, result);
    assert forall|i: int|
        #![trigger k.families[i]]
        0 <= i < k.families.len() implies label(a, k.families[i].event) is Some && label(
        b,
        k.families[i].event,
    ) is Some && (k.families[i].result matches Some(r) ==> label(a, r) is Some && label(b, r)
        is Some) by {
        assert(label(k, k.families[i].event) is Some);
    }
    let k1 = heard(a, ctx, observers_of(event.id));
    let k2 = heard(b, ctx, deciders_of(kind, event.id, result.id));
    assert forall|id: TypeId| #[trigger] label(k1, id) == label(a, id) by {}
    assert forall|id: TypeId| #[trigger] label(k2, id) == label(b, id) by {}
    assert forall|i: int|
        #![trigger k1.families[i]]
        0 <= i < k1.families.len() implies label(k1, k1.families[i].event) is Some && (
    k1.families[i].result matches Some(r) ==> label(k1, r) is Some) by {
        if i < k.families.len() {
            assert(k1.families[i] == k.families[i]);
        }
    }
    assert forall|i: int|
        #![trigger k2.families[i]]
        0 <= i < k2.families.len() implies label(k2, k2.families[i].event) is Some && (
    k2.families[i].result matches Some(r) ==> label(k2, r) is Some) by {
        if i < k.families.len() {
            assert(k2.families[i] == k.families[i]);
        }
    }
}

proof fn lemma_named(k: KernelView, tag: TypeTag)
    ensures
        label(named(k, tag), tag.id) is Some,
        forall|id: TypeId|
            label(k, id) is Some ==> #[trigger] label(named(k, tag), id) is Some,
{
    let rows = k.type_names;
    let k2 = named(k, tag);
    if !rows_map(rows).dom().contains(tag.id) {
        assert(rows.push((tag.id, tag.name)).drop_last() =~= rows);
        assert(rows_map(k2.type_names) == rows_map(rows).insert(tag.id, tag.name));
    }
}

} // verus!
