//! What a snapshot of a kernel shows.

use crate::describe::{
    at_point, below, by_name, dependency_names, family_line, family_lines, fiber_lines, fiber_text,
    hangs_off, head_line, injected, list_line, of_family, pending_line, pending_lines,
    placed_by_name, point_line, point_lines, section, service_names, snapshot, subtree_text,
    task_line, wants,
};
use crate::events::{EventHandler, EventKey, EventKind};
use crate::fiber::{Disposable, FiberId, FiberView, State};
use crate::kernel::Kernel;
use crate::laws::disposing::lemma_above_parent;
use crate::laws::lifecycle::above;
use crate::laws::texts::{law_every_text_is_a_line, law_the_order_is_strict_and_total};
use crate::model::{KernelView, is_live, kernel_ok};
use crate::pipeline::PipelineHandler;
use crate::plugin::Dependency;
use crate::seqs::{ids_where, lemma_filter_none, lemma_filter_step, lemma_ids_where};
use crate::table::rows_map;
use crate::text::{decimal, indent, joined, lemma_sorted, lines, precedes, sorted};
use crate::tree::lemma_push_contains;
use std::any::TypeId;
use vstd::prelude::*;

verus! {

/// Whether a text holds another.
pub open spec fn holds(text: Seq<char>, part: Seq<char>) -> bool {
    exists|a: Seq<char>, b: Seq<char>| text == #[trigger] (a + part + b)
}

pub proof fn lemma_holds(text: Seq<char>, part: Seq<char>, a: Seq<char>, b: Seq<char>)
    requires
        text == a + part + b,
    ensures
        holds(text, part),
{
}

proof fn lemma_holds_on(text: Seq<char>, part: Seq<char>, piece: Seq<char>)
    requires
        holds(text, part),
        holds(part, piece),
    ensures
        holds(text, piece),
{
    let (a, b) = choose|a: Seq<char>, b: Seq<char>| text == #[trigger] (a + part + b);
    let (c, d) = choose|c: Seq<char>, d: Seq<char>| part == #[trigger] (c + piece + d);
    assert(text =~= (a + c) + piece + (d + b));
}

proof fn lemma_holds_in_sum(x: Seq<char>, y: Seq<char>, part: Seq<char>)
    ensures
        holds(x, part) ==> holds(x + y, part),
        holds(y, part) ==> holds(x + y, part),
        holds(x, x),
{
    if holds(x, part) {
        let (a, b) = choose|a: Seq<char>, b: Seq<char>| x == #[trigger] (a + part + b);
        assert(x + y =~= a + part + (b + y));
    }
    if holds(y, part) {
        let (a, b) = choose|a: Seq<char>, b: Seq<char>| y == #[trigger] (a + part + b);
        assert(x + y =~= (x + a) + part + b);
    }
    assert(x =~= Seq::<char>::empty() + x + Seq::<char>::empty());
}

// ---- fibers ----

/// The fibers below a fiber are those that are not gone and name it as their
/// parent, by name; the root is below nobody.
pub proof fn law_what_stands_below_a_fiber(k: KernelView, parent: FiberId, id: FiberId)
    requires
        kernel_ok(k),
    ensures
        below(k, parent).contains(id) <==> id.0 < k.fibers.len() && !(k.fibers[id.0 as int].phase
            is Gone) && k.fibers[id.0 as int].parent == parent && id.0 != 0,
        forall|a: int, b: int|
            0 <= a < b < below(k, parent).len() ==> !precedes(
                k.fibers[(#[trigger] below(k, parent)[b]).0 as int].name,
                k.fibers[(#[trigger] below(k, parent)[a]).0 as int].name,
            ),
{
    let ids = ids_where(k.fibers.len(), hangs_off(k, parent));
    lemma_ids_where(k.fibers.len(), hangs_off(k, parent));
    lemma_by_name(k, ids);
    assert(by_name(k, ids).contains(id) <==> ids.contains(id));
}

/// Whether no fiber stands in front of one whose name comes before its own.
spec fn named_in_order(k: KernelView, ids: Seq<FiberId>) -> bool {
    forall|a: int, b: int|
        0 <= a < b < ids.len() ==> !precedes(
            k.fibers[(#[trigger] ids[b]).0 as int].name,
            k.fibers[(#[trigger] ids[a]).0 as int].name,
        )
}

proof fn lemma_placed_by_name(k: KernelView, ids: Seq<FiberId>, id: FiberId)
    requires
        named_in_order(k, ids),
    ensures
        named_in_order(k, placed_by_name(k, ids, id)),
        forall|x: FiberId| #[trigger]
            placed_by_name(k, ids, id).contains(x) <==> ids.contains(x) || x == id,
    decreases ids.len(),
{
    let out = placed_by_name(k, ids, id);
    let name = k.fibers[id.0 as int].name;
    if ids.len() > 0 && precedes(name, k.fibers[ids.last().0 as int].name) {
        let front = ids.drop_last();
        let last = ids.last();
        let last_name = k.fibers[last.0 as int].name;
        assert forall|a: int, b: int| 0 <= a < b < front.len() implies !precedes(
            k.fibers[(#[trigger] front[b]).0 as int].name,
            k.fibers[(#[trigger] front[a]).0 as int].name,
        ) by {
            assert(front[a] == ids[a] && front[b] == ids[b]);
        }
        lemma_placed_by_name(k, front, id);
        let mid = placed_by_name(k, front, id);
        assert forall|x: FiberId| #[trigger] out.contains(x) <==> ids.contains(x) || x == id by {
            lemma_push_contains(mid, last, x);
            assert(ids =~= front.push(last));
            lemma_push_contains(front, last, x);
        }
        assert forall|a: int, b: int| 0 <= a < b < out.len() implies !precedes(
            k.fibers[(#[trigger] out[b]).0 as int].name,
            k.fibers[(#[trigger] out[a]).0 as int].name,
        ) by {
            if b < mid.len() {
                assert(out[a] == mid[a] && out[b] == mid[b]);
            } else {
                assert(mid.contains(mid[a]));
                if mid[a] == id {
                    law_the_order_is_strict_and_total(
                        last_name,
                        name,
                        name,
                    );
                } else {
                    let i = choose|i: int| 0 <= i < front.len() && front[i] == mid[a];
                    assert(ids[i] == mid[a] && ids[ids.len() - 1] == last);
                }
            }
        }
    } else {
        assert forall|x: FiberId| #[trigger] out.contains(x) <==> ids.contains(x) || x == id by {
            lemma_push_contains(ids, id, x);
        }
        assert forall|a: int, b: int| 0 <= a < b < out.len() implies !precedes(
            k.fibers[(#[trigger] out[b]).0 as int].name,
            k.fibers[(#[trigger] out[a]).0 as int].name,
        ) by {
            if b < ids.len() {
                assert(out[a] == ids[a] && out[b] == ids[b]);
            } else {
                let last = ids[ids.len() - 1];
                let last_name = k.fibers[last.0 as int].name;
                let first_name = k.fibers[ids[a].0 as int].name;
                assert(out[a] == ids[a]);
                if a < ids.len() - 1 {
                    assert(!precedes(last_name, first_name));
                }
                law_the_order_is_strict_and_total(
                    first_name,
                    last_name,
                    last_name,
                );
                law_the_order_is_strict_and_total(
                    name,
                    first_name,
                    last_name,
                );
            }
        }
    }
}

proof fn lemma_by_name(k: KernelView, ids: Seq<FiberId>)
    ensures
        named_in_order(k, by_name(k, ids)),
        forall|x: FiberId| #[trigger] by_name(k, ids).contains(x) <==> ids.contains(x),
    decreases ids.len(),
{
    if ids.len() > 0 {
        let front = ids.drop_last();
        lemma_by_name(k, front);
        lemma_placed_by_name(k, by_name(k, front), ids.last());
        assert forall|x: FiberId| #[trigger] by_name(k, ids).contains(x) <==> ids.contains(x) by {
            assert(ids =~= front.push(ids.last()));
            lemma_push_contains(front, ids.last(), x);
            assert(by_name(k, front).contains(x) <==> front.contains(x));
        }
    }
}

proof fn lemma_subtree_holds(
    k: KernelView,
    parent: FiberId,
    ids: Seq<FiberId>,
    depth: nat,
    id: FiberId,
)
    requires
        ids.contains(id),
        parent.0 < id.0 < k.fibers.len(),
    ensures
        holds(subtree_text(k, parent, ids, depth), fiber_text(k, id, depth)),
    decreases ids.len(),
{
    let front = ids.drop_last();
    let rest = subtree_text(k, parent, front, depth);
    let part = fiber_text(k, id, depth);
    let here = if parent.0 < ids.last().0 < k.fibers.len() {
        fiber_text(k, ids.last(), depth)
    } else {
        Seq::empty()
    };
    assert(subtree_text(k, parent, ids, depth) == rest + here);
    lemma_holds_in_sum(rest, here, part);
    lemma_holds_in_sum(part, part, part);
    if ids.last() != id {
        let i = choose|i: int| 0 <= i < ids.len() && ids[i] == id;
        assert(front[i] == id);
        lemma_subtree_holds(k, parent, front, depth, id);
    }
}

proof fn lemma_way_down(k: KernelView, i: int, n: nat, depth: nat)
    requires
        kernel_ok(k),
        0 <= i < k.fibers.len(),
        forall|m: nat|
            m <= n ==> is_live(k, FiberId((#[trigger] above(k.fibers, i, m)) as u32)),
        forall|m: nat| m < n ==> (#[trigger] above(k.fibers, i, m)) != 0,
    ensures
        0 <= above(k.fibers, i, n) <= i,
        holds(
            fiber_text(k, FiberId(above(k.fibers, i, n) as u32), depth),
            fiber_text(k, FiberId(i as u32), depth + n),
        ),
    decreases n,
{
    let me = FiberId(i as u32);
    let text = fiber_text(k, me, depth + n);
    assert(above(k.fibers, i, 0) == i);
    if n == 0 {
        lemma_holds_in_sum(text, text, text);
    } else {
        let m = (n - 1) as nat;
        let q = k.fibers[i].parent.0 as int;
        assert(i > 0);
        assert(q < i);
        assert forall|a: nat| a <= m implies is_live(
            k,
            FiberId((#[trigger] above(k.fibers, q, a)) as u32),
        ) by {
            lemma_above_parent(k.fibers, i, a + 1);
            assert(above(k.fibers, i, a + 1) == above(k.fibers, q, a));
        }
        assert forall|a: nat| a < m implies (#[trigger] above(k.fibers, q, a)) != 0 by {
            lemma_above_parent(k.fibers, i, a + 1);
            assert(above(k.fibers, i, a + 1) == above(k.fibers, q, a));
        }
        lemma_way_down(k, q, m, depth);
        lemma_above_parent(k.fibers, i, n);
        let parent = FiberId(q as u32);
        assert(above(k.fibers, q, 0) == q);
        assert(is_live(k, FiberId(above(k.fibers, q, 0) as u32)));
        assert(is_live(k, FiberId(above(k.fibers, i, 0) as u32)));
        law_what_stands_below_a_fiber(k, parent, me);
        assert(k.fibers[i].parent == parent);
        lemma_subtree_holds(k, parent, below(k, parent), depth + m + 1, me);
        let own = fiber_lines(k.fibers[q], depth + m);
        let rest = subtree_text(k, parent, below(k, parent), depth + m + 1);
        assert(fiber_text(k, parent, depth + m) == own + rest);
        assert(depth + m + 1 == depth + n);
        lemma_holds_in_sum(own, rest, text);
        lemma_holds_on(
            fiber_text(k, FiberId(above(k.fibers, i, n) as u32), depth),
            fiber_text(k, parent, depth + m),
            text,
        );
    }
}

/// The word for a state.
pub open spec fn word(state: State) -> Seq<char> {
    match state {
        State::Pending => "Pending"@,
        State::Starting => "Starting"@,
        State::Ready => "Ready"@,
        State::Failed => "Failed"@,
        State::Disposed => "Disposed"@,
    }
}

/// The names of the services that a fiber will take back, in the order it
/// provided them.
pub open spec fn provided_names(disposables: Seq<Disposable>, n: nat) -> Seq<Seq<char>>
    decreases n,
{
    if n == 0 {
        Seq::empty()
    } else {
        let front = provided_names(disposables, (n - 1) as nat);
        match disposables[n - 1] {
            Disposable::Service(_, key, _) => front + seq![key.name@],
            _ => front,
        }
    }
}

proof fn lemma_provided_names(disposables: Seq<Disposable>, n: nat)
    requires
        n <= disposables.len(),
    ensures
        service_names(disposables.take(n as int)) == provided_names(disposables, n),
    decreases n,
{
    if n > 0 {
        let m = (n - 1) as nat;
        lemma_provided_names(disposables, m);
        let all = disposables.take(n as int);
        assert(all.drop_last() =~= disposables.take(m as int));
        assert(all.last() == disposables[n - 1]);
        assert(service_names(all) =~= provided_names(disposables, n));
    }
}

/// The names of dependencies, in order.
pub open spec fn injected_names(inject: Seq<Dependency>) -> Seq<Seq<char>> {
    Seq::new(
        inject.len(),
        |i: int|
            match inject[i] {
                Dependency::Hard(key) => key.name@,
                Dependency::Soft(key) => key.name@,
            },
    )
}

/// A snapshot shows every fiber that is not gone and hangs in the tree: its
/// name and state, the services it runs on once it has started, those it
/// provides, and how many tasks it keeps track of.
pub proof fn law_snapshots_show_every_fiber(kernel: Kernel, r: String, i: int, n: nat)
    requires
        kernel.wf(),
        call_ensures(Kernel::describe, (&kernel,), r),
        0 <= i < kernel@.fibers.len(),
        above(kernel@.fibers, i, n) == 0,
        forall|m: nat|
            m <= n ==> is_live(
                kernel@,
                FiberId((#[trigger] above(kernel@.fibers, i, m)) as u32),
            ),
        forall|m: nat| m < n ==> (#[trigger] above(kernel@.fibers, i, m)) != 0,
    ensures
        ({
            let f = kernel@.fibers[i];
            let services = provided_names(f.disposables, f.disposables.len());
            &&& holds(r@, indent(n) + "fiber \""@ + f.name + "\" ["@ + word(f.state) + "]\n"@)
            &&& !(f.state is Pending) && f.inject.len() > 0 ==> holds(
                r@,
                indent(n) + "  injects: "@ + joined(injected_names(f.inject), ", "@) + "\n"@,
            )
            &&& services.len() > 0 ==> holds(
                r@,
                indent(n) + "  provides: "@ + joined(services, ", "@) + "\n"@,
            )
            &&& f.tasks.len() > 0 ==> holds(
                r@,
                indent(n) + "  tasks: "@ + decimal(f.tasks.len()) + "\n"@,
            )
        }),
{
    let k = kernel@;
    let f = k.fibers[i];
    let me = FiberId(i as u32);
    let root = fiber_text(k, FiberId(0), 0);
    lemma_way_down(k, i, n, 0);
    let text = fiber_text(k, me, n);
    let own = fiber_lines(f, n);
    let rest = subtree_text(k, me, below(k, me), n + 1);
    assert(above(k.fibers, i, 0) == i);
    assert(is_live(k, FiberId(above(k.fibers, i, 0) as u32)));
    assert(text == own + rest);
    let waiting = section("pending:\n"@, pending_lines(k));
    let events = section("events:\n"@, sorted(family_lines(k)));
    let pipelines = section("pipelines:\n"@, sorted(point_lines(k)));
    assert(r@ == root + waiting + events + pipelines);
    let head = head_line(f, n);
    let injects = list_line(n, "  injects: "@, dependency_names(injected(f)));
    let provides = list_line(n, "  provides: "@, service_names(f.disposables));
    let tasks = task_line(n, f.tasks.len());
    assert(own == head + injects + provides + tasks);
    lemma_provided_names(f.disposables, f.disposables.len());
    assert(f.disposables.take(f.disposables.len() as int) =~= f.disposables);
    assert(dependency_names(f.inject) =~= injected_names(f.inject));
    assert forall|part: Seq<char>| holds(own, part) implies #[trigger] holds(r@, part) by {
        lemma_holds_in_sum(own, rest, part);
        lemma_holds_on(root, text, part);
        lemma_holds_in_sum(root, waiting, part);
        lemma_holds_in_sum(root + waiting, events, part);
        lemma_holds_in_sum(root + waiting + events, pipelines, part);
    }
    lemma_holds_in_sum(head, injects, head);
    lemma_holds_in_sum(head + injects, provides, head);
    lemma_holds_in_sum(head + injects + provides, tasks, head);
    lemma_holds_in_sum(injects, injects, injects);
    lemma_holds_in_sum(head, injects, injects);
    lemma_holds_in_sum(head + injects, provides, injects);
    lemma_holds_in_sum(head + injects + provides, tasks, injects);
    lemma_holds_in_sum(provides, provides, provides);
    lemma_holds_in_sum(head + injects, provides, provides);
    lemma_holds_in_sum(head + injects + provides, tasks, provides);
    lemma_holds_in_sum(tasks, tasks, tasks);
    lemma_holds_in_sum(head + injects + provides, tasks, tasks);
    assert(holds(r@, head));
    assert(holds(r@, injects));
    assert(holds(r@, provides));
    assert(holds(r@, tasks));
}

// ---- lines ----

proof fn lemma_lines_hold(texts: Seq<Seq<char>>, i: int)
    requires
        0 <= i < texts.len(),
    ensures
        holds(lines(texts), texts[i] + "\n"@),
{
    let a = texts.take(i);
    let b = texts.skip(i + 1);
    assert(texts =~= a + (seq![texts[i]] + b));
    law_every_text_is_a_line(a, seq![texts[i]] + b, texts[i]);
    law_every_text_is_a_line(seq![texts[i]], b, texts[i]);
    assert(lines(texts) =~= lines(a) + (texts[i] + "\n"@) + lines(b));
    lemma_holds(lines(texts), texts[i] + "\n"@, lines(a), lines(b));
}

proof fn lemma_sorted_lines_hold(texts: Seq<Seq<char>>, i: int)
    requires
        0 <= i < texts.len(),
    ensures
        holds(lines(sorted(texts)), texts[i] + "\n"@),
{
    broadcast use vstd::seq_lib::group_to_multiset_ensures;

    lemma_sorted(texts);
    assert(texts.contains(texts[i]));
    assert(texts.to_multiset().contains(texts[i]));
    assert(sorted(texts).to_multiset().contains(texts[i]));
    assert(sorted(texts).contains(texts[i]));
    let j = choose|j: int| 0 <= j < sorted(texts).len() && sorted(texts)[j] == texts[i];
    lemma_lines_hold(sorted(texts), j);
}

/// What a waiting plugin waits for.
pub open spec fn wanted(inject: Seq<Dependency>) -> Seq<Seq<char>> {
    Seq::new(
        inject.len(),
        |i: int|
            match inject[i] {
                Dependency::Hard(key) => key.name@,
                Dependency::Soft(key) => key.name@ + " (soft)"@,
            },
    )
}

/// A snapshot names every plugin that waits, with everything it asks for.
pub proof fn law_snapshots_show_who_waits(kernel: Kernel, r: String, i: int)
    requires
        kernel.wf(),
        call_ensures(Kernel::describe, (&kernel,), r),
        0 <= i < kernel@.pending.len(),
    ensures
        ({
            let f = kernel@.fibers[kernel@.pending[i].0 as int];
            holds(
                r@,
                "  \""@ + f.name + "\" waits for ["@ + joined(wanted(f.inject), ", "@) + "]"@
                    + "\n"@,
            )
        }),
{
    let k = kernel@;
    let f = k.fibers[k.pending[i].0 as int];
    let line = pending_line(f);
    assert(wants(f.inject) =~= wanted(f.inject));
    assert(pending_lines(k)[i] == line);
    lemma_lines_hold(pending_lines(k), i);
    let part = line + "\n"@;
    let root = fiber_text(k, FiberId(0), 0);
    let waiting = section("pending:\n"@, pending_lines(k));
    let events = section("events:\n"@, sorted(family_lines(k)));
    let pipelines = section("pipelines:\n"@, sorted(point_lines(k)));
    assert(r@ == root + waiting + events + pipelines);
    lemma_holds_in_sum("pending:\n"@, lines(pending_lines(k)), part);
    lemma_holds_in_sum(root, waiting, part);
    lemma_holds_in_sum(root + waiting, events, part);
    lemma_holds_in_sum(root + waiting + events, pipelines, part);
}

/// How many of the first `n` handlers are of a family.
pub open spec fn handlers_of(handlers: Seq<EventHandler>, key: EventKey, n: nat) -> nat
    decreases n,
{
    if n == 0 {
        0
    } else {
        handlers_of(handlers, key, (n - 1) as nat) + if handlers[n - 1].key == key {
            1nat
        } else {
            0nat
        }
    }
}

proof fn lemma_handlers_of(handlers: Seq<EventHandler>, key: EventKey, n: nat)
    requires
        n <= handlers.len(),
    ensures
        handlers.take(n as int).filter(of_family(key)).len() == handlers_of(handlers, key, n),
    decreases n,
{
    if n > 0 {
        lemma_handlers_of(handlers, key, (n - 1) as nat);
        lemma_filter_step(handlers, n - 1, of_family(key));
    } else {
        lemma_filter_none(handlers, of_family(key));
    }
}

/// How many of the first `n` middlewares are at an extension point.
pub open spec fn middlewares_at(middlewares: Seq<PipelineHandler>, point: TypeId, n: nat) -> nat
    decreases n,
{
    if n == 0 {
        0
    } else {
        middlewares_at(middlewares, point, (n - 1) as nat) + if middlewares[n - 1].point == point {
            1nat
        } else {
            0nat
        }
    }
}

proof fn lemma_middlewares_at(middlewares: Seq<PipelineHandler>, point: TypeId, n: nat)
    requires
        n <= middlewares.len(),
    ensures
        middlewares.take(n as int).filter(at_point(point)).len() == middlewares_at(
            middlewares,
            point,
            n,
        ),
    decreases n,
{
    if n > 0 {
        lemma_middlewares_at(middlewares, point, (n - 1) as nat);
        lemma_filter_step(middlewares, n - 1, at_point(point));
    } else {
        lemma_filter_none(middlewares, at_point(point));
    }
}

/// The name in the row of a type.
pub open spec fn name_in(rows: Seq<(TypeId, &'static str)>, id: TypeId) -> Option<Seq<char>>
    decreases rows.len(),
{
    if rows.len() == 0 {
        None
    } else if rows.last().0 == id {
        Some(rows.last().1@)
    } else {
        name_in(rows.drop_last(), id)
    }
}

proof fn lemma_name_in(rows: Seq<(TypeId, &'static str)>, id: TypeId)
    ensures
        name_in(rows, id) == if rows_map(rows).dom().contains(id) {
            Some(rows_map(rows)[id]@)
        } else {
            None
        },
    decreases rows.len(),
{
    if rows.len() > 0 {
        lemma_name_in(rows.drop_last(), id);
    }
}

/// The word for a dispatch mode.
pub open spec fn mode(kind: EventKind) -> Seq<char> {
    match kind {
        EventKind::Observer => "observer"@,
        EventKind::Bail => "bail"@,
        EventKind::Serial => "serial"@,
        EventKind::Waterfall => "waterfall"@,
    }
}

/// A snapshot has a line for every event family, with the name of its event
/// type and how many handlers it has.
pub proof fn law_snapshots_show_every_family(kernel: Kernel, r: String, i: int)
    requires
        kernel.wf(),
        call_ensures(Kernel::describe, (&kernel,), r),
        0 <= i < kernel@.families.len(),
    ensures
        ({
            let key = kernel@.families[i];
            let count = handlers_of(kernel@.handlers, key, kernel@.handlers.len());
            let event = match name_in(kernel@.type_names, key.event) {
                Some(name) => name,
                None => "<unknown type>"@,
            };
            let result = match key.result {
                Some(id) => match name_in(kernel@.type_names, id) {
                    Some(name) => ", result "@ + name,
                    None => Seq::<char>::empty(),
                },
                None => Seq::<char>::empty(),
            };
            holds(
                r@,
                "  "@ + mode(key.kind) + "<"@ + event + result + "> × "@ + decimal(count)
                    + "\n"@,
            )
        }),
{
    let k = kernel@;
    let key = k.families[i];
    lemma_name_in(k.type_names, key.event);
    if let Some(id) = key.result {
        lemma_name_in(k.type_names, id);
    }
    lemma_handlers_of(k.handlers, key, k.handlers.len());
    assert(k.handlers.take(k.handlers.len() as int) =~= k.handlers);
    let line = family_line(k, key);
    assert(family_lines(k)[i] == line);
    lemma_sorted(family_lines(k));
    lemma_sorted_lines_hold(family_lines(k), i);
    let part = line + "\n"@;
    let root = fiber_text(k, FiberId(0), 0);
    let waiting = section("pending:\n"@, pending_lines(k));
    let events = section("events:\n"@, sorted(family_lines(k)));
    let pipelines = section("pipelines:\n"@, sorted(point_lines(k)));
    assert(r@ == root + waiting + events + pipelines);
    lemma_holds_in_sum("events:\n"@, lines(sorted(family_lines(k))), part);
    lemma_holds_in_sum(root + waiting, events, part);
    lemma_holds_in_sum(root + waiting + events, pipelines, part);
}

/// A snapshot has a line for every extension point, with its name and how many
/// middlewares it has.
pub proof fn law_snapshots_show_every_point(kernel: Kernel, r: String, i: int)
    requires
        kernel.wf(),
        call_ensures(Kernel::describe, (&kernel,), r),
        0 <= i < kernel@.points.len(),
    ensures
        ({
            let (point, name) = kernel@.points[i];
            let count = middlewares_at(kernel@.middlewares, point, kernel@.middlewares.len());
            holds(r@, "  "@ + name@ + " × "@ + decimal(count) + " middleware(s)"@ + "\n"@)
        }),
{
    let k = kernel@;
    let point = k.points[i];
    lemma_middlewares_at(k.middlewares, point.0, k.middlewares.len());
    assert(k.middlewares.take(k.middlewares.len() as int) =~= k.middlewares);
    let line = point_line(k, point);
    assert(point_lines(k)[i] == line);
    lemma_sorted(point_lines(k));
    lemma_sorted_lines_hold(point_lines(k), i);
    let part = line + "\n"@;
    let root = fiber_text(k, FiberId(0), 0);
    let waiting = section("pending:\n"@, pending_lines(k));
    let events = section("events:\n"@, sorted(family_lines(k)));
    let pipelines = section("pipelines:\n"@, sorted(point_lines(k)));
    assert(r@ == root + waiting + events + pipelines);
    lemma_holds_in_sum("pipelines:\n"@, lines(sorted(point_lines(k))), part);
    lemma_holds_in_sum(root + waiting + events, pipelines, part);
}

// ---- the layout ----

/// A line if there is something to say.
pub open spec fn line_if(said: bool, line: Seq<char>) -> Seq<char> {
    if said {
        line
    } else {
        Seq::empty()
    }
}

/// What is said of a fiber: its name and state, then the services it runs on,
/// where it has started and runs on any, then those it provides, then how many
/// tasks it tracks, where there are any; and nothing else.
pub proof fn law_what_is_said_of_a_fiber(f: FiberView, depth: nat)
    ensures
        ({
            let services = provided_names(f.disposables, f.disposables.len());
            fiber_lines(f, depth) == indent(depth) + "fiber \""@ + f.name + "\" ["@ + word(f.state)
                + "]\n"@ + line_if(
                !(f.state is Pending) && f.inject.len() > 0,
                indent(depth) + "  injects: "@ + joined(injected_names(f.inject), ", "@) + "\n"@,
            ) + line_if(
                services.len() > 0,
                indent(depth) + "  provides: "@ + joined(services, ", "@) + "\n"@,
            ) + line_if(
                f.tasks.len() > 0,
                indent(depth) + "  tasks: "@ + decimal(f.tasks.len()) + "\n"@,
            )
        }),
{
    lemma_provided_names(f.disposables, f.disposables.len());
    assert(f.disposables.take(f.disposables.len() as int) =~= f.disposables);
    assert(dependency_names(f.inject) =~= injected_names(f.inject));
    assert(dependency_names(Seq::empty()) =~= Seq::<Seq<char>>::empty());
}

/// The texts one after the other.
pub open spec fn run_together(texts: Seq<Seq<char>>) -> Seq<char>
    decreases texts.len(),
{
    if texts.len() == 0 {
        Seq::empty()
    } else {
        run_together(texts.drop_last()) + texts.last()
    }
}

proof fn lemma_subtree_runs_together(
    k: KernelView,
    parent: FiberId,
    ids: Seq<FiberId>,
    depth: nat,
)
    requires
        forall|i: int| 0 <= i < ids.len() ==> parent.0 < (#[trigger] ids[i]).0 < k.fibers.len(),
    ensures
        subtree_text(k, parent, ids, depth) == run_together(
            Seq::new(ids.len(), |i: int| fiber_text(k, ids[i], depth)),
        ),
    decreases ids.len(),
{
    let texts = Seq::new(ids.len(), |i: int| fiber_text(k, ids[i], depth));
    if ids.len() > 0 {
        let front = ids.drop_last();
        assert forall|i: int| 0 <= i < front.len() implies parent.0 < (#[trigger] front[i]).0
            < k.fibers.len() by {
            assert(front[i] == ids[i]);
        }
        lemma_subtree_runs_together(k, parent, front, depth);
        assert(texts.drop_last() =~= Seq::new(
            front.len(),
            |i: int| fiber_text(k, front[i], depth),
        ));
        assert(ids[ids.len() - 1] == ids.last());
    }
}

/// Under what is said of a fiber stands what is said of those below it, one
/// level further in, by name; of a fiber that is gone nothing is said.
pub proof fn law_fibers_stand_under_their_parent(k: KernelView, id: FiberId, depth: nat)
    requires
        kernel_ok(k),
        id.0 < k.fibers.len(),
    ensures
        k.fibers[id.0 as int].phase is Gone ==> fiber_text(k, id, depth).len() == 0,
        !(k.fibers[id.0 as int].phase is Gone) ==> fiber_text(k, id, depth) == fiber_lines(
            k.fibers[id.0 as int],
            depth,
        ) + run_together(
            Seq::new(
                below(k, id).len(),
                |i: int| fiber_text(k, below(k, id)[i], depth + 1),
            ),
        ),
{
    let ids = below(k, id);
    assert forall|i: int| 0 <= i < ids.len() implies id.0 < (#[trigger] ids[i]).0
        < k.fibers.len() by {
        law_what_stands_below_a_fiber(k, id, ids[i]);
        assert(ids.contains(ids[i]));
        let f = k.fibers[ids[i].0 as int];
        assert(f.parent.0 < ids[i].0);
    }
    lemma_subtree_runs_together(k, id, ids, depth + 1);
}

/// A snapshot is what is said of the root, then who waits, in the order of the
/// queue, then the event families and the extension points, each sorted; a
/// part with nothing in it has no heading.
pub proof fn law_the_layout_of_a_snapshot(kernel: Kernel, r: String)
    requires
        kernel.wf(),
        call_ensures(Kernel::describe, (&kernel,), r),
    ensures
        r@ == fiber_text(kernel@, FiberId(0), 0) + line_if(
            kernel@.pending.len() > 0,
            "pending:\n"@ + lines(pending_lines(kernel@)),
        ) + line_if(
            kernel@.families.len() > 0,
            "events:\n"@ + lines(sorted(family_lines(kernel@))),
        ) + line_if(
            kernel@.points.len() > 0,
            "pipelines:\n"@ + lines(sorted(point_lines(kernel@))),
        ),
        pending_lines(kernel@).len() == kernel@.pending.len(),
        family_lines(kernel@).len() == kernel@.families.len(),
        point_lines(kernel@).len() == kernel@.points.len(),
{
    lemma_sorted(family_lines(kernel@));
    lemma_sorted(point_lines(kernel@));
}

/// A kernel knows the name that was recorded for a type, and no other.
pub proof fn law_names_are_known(kernel: Kernel, id: TypeId, r: Option<&'static str>)
    requires
        kernel.wf(),
        call_ensures(Kernel::label_of, (&kernel, &id), r),
    ensures
        r is Some <==> name_in(kernel@.type_names, id) is Some,
        r matches Some(name) ==> name_in(kernel@.type_names, id) == Some(name@),
{
    lemma_name_in(kernel@.type_names, id);
}

} // verus!
