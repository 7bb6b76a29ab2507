//! A human-readable snapshot of the kernel.

use crate::events::{EventHandler, EventKey, EventKind, Serial};
use crate::fiber::{Disposable, Fiber, FiberId, FiberView, State};
use crate::kernel::Kernel;
use crate::model::{KernelView, is_live, start};
use crate::pipeline::PipelineHandler;
use crate::plugin::{Dependency, dependency_key};
use crate::seqs::{ids_where, lemma_filter_none, lemma_filter_step};
use crate::service::same_type;
use crate::table::rows_map;
use crate::text::{
    decimal, indent, indent_text, join_texts, joined, lemma_texts_push, line_texts, lines,
    number_text, precedes, sort_texts, sorted, text_before, texts_view,
};
use std::any::TypeId;
use vstd::prelude::*;

verus! {

// ---- the text of each part ----

/// The name of a state.
pub open spec fn state_text(state: State) -> Seq<char> {
    match state {
        State::Pending => "Pending"@,
        State::Starting => "Starting"@,
        State::Ready => "Ready"@,
        State::Failed => "Failed"@,
        State::Disposed => "Disposed"@,
    }
}

/// The names of the services that dependencies name.
pub open spec fn dependency_names(inject: Seq<Dependency>) -> Seq<Seq<char>> {
    inject.map_values(|d: Dependency| dependency_key(d).name@)
}

/// What a plugin runs on: nothing, as long as it has not started.
pub open spec fn injected(f: FiberView) -> Seq<Dependency> {
    if f.state is Pending {
        Seq::empty()
    } else {
        f.inject
    }
}

/// The names of the services among what a fiber has to clean up.
pub open spec fn service_names(disposables: Seq<Disposable>) -> Seq<Seq<char>>
    decreases disposables.len(),
{
    if disposables.len() == 0 {
        Seq::empty()
    } else {
        let front = service_names(disposables.drop_last());
        match disposables.last() {
            Disposable::Service(_, key, _) => front.push(key.name@),
            _ => front,
        }
    }
}

/// A line that lists names behind a label, or nothing if there are none.
pub open spec fn list_line(depth: nat, label: Seq<char>, names: Seq<Seq<char>>) -> Seq<char> {
    if names.len() == 0 {
        Seq::empty()
    } else {
        indent(depth) + label + joined(names, ", "@) + "\n"@
    }
}

/// A line with the number of tasks, or nothing if there are none.
pub open spec fn task_line(depth: nat, tasks: nat) -> Seq<char> {
    if tasks == 0 {
        Seq::empty()
    } else {
        indent(depth) + "  tasks: "@ + decimal(tasks) + "\n"@
    }
}

/// The line with a fiber's name and state.
pub open spec fn head_line(f: FiberView, depth: nat) -> Seq<char> {
    indent(depth) + "fiber \""@ + f.name + "\" ["@ + state_text(f.state) + "]\n"@
}

/// The lines on one fiber alone.
pub open spec fn fiber_lines(f: FiberView, depth: nat) -> Seq<char> {
    head_line(f, depth) + list_line(depth, "  injects: "@, dependency_names(injected(f)))
        + list_line(depth, "  provides: "@, service_names(f.disposables)) + task_line(
        depth,
        f.tasks.len(),
    )
}

/// Picks the fibers that are not gone and hang off `parent`.
pub open spec fn hangs_off(k: KernelView, parent: FiberId) -> spec_fn(FiberId) -> bool {
    |id: FiberId| is_live(k, id) && k.fibers[id.0 as int].parent == parent && id != FiberId(0)
}

/// A fiber put in its place among others sorted by name, behind those of the
/// same name.
pub open spec fn placed_by_name(k: KernelView, ids: Seq<FiberId>, id: FiberId) -> Seq<FiberId>
    decreases ids.len(),
{
    if ids.len() > 0 && precedes(
        k.fibers[id.0 as int].name,
        k.fibers[ids.last().0 as int].name,
    ) {
        placed_by_name(k, ids.drop_last(), id).push(ids.last())
    } else {
        ids.push(id)
    }
}

/// The fibers sorted by name; those of the same name stay in order.
pub open spec fn by_name(k: KernelView, ids: Seq<FiberId>) -> Seq<FiberId>
    decreases ids.len(),
{
    if ids.len() == 0 {
        ids
    } else {
        placed_by_name(k, by_name(k, ids.drop_last()), ids.last())
    }
}

/// The fibers below `parent`, sorted by name.
pub open spec fn below(k: KernelView, parent: FiberId) -> Seq<FiberId> {
    by_name(k, ids_where(k.fibers.len(), hangs_off(k, parent)))
}

/// The text on a fiber and on everything below it.
pub open spec fn fiber_text(k: KernelView, id: FiberId, depth: nat) -> Seq<char>
    decreases k.fibers.len() - id.0, 1nat, 0nat,
{
    if is_live(k, id) {
        fiber_lines(k.fibers[id.0 as int], depth) + subtree_text(
            k,
            id,
            below(k, id),
            depth + 1,
        )
    } else {
        Seq::empty()
    }
}

/// The text on some of the fibers below `parent`.
pub open spec fn subtree_text(
    k: KernelView,
    parent: FiberId,
    ids: Seq<FiberId>,
    depth: nat,
) -> Seq<char>
    decreases k.fibers.len() - parent.0, 0nat, ids.len(),
{
    if ids.len() == 0 {
        Seq::empty()
    } else {
        subtree_text(k, parent, ids.drop_last(), depth) + (if parent.0 < ids.last().0
            < k.fibers.len() {
            fiber_text(k, ids.last(), depth)
        } else {
            Seq::empty()
        })
    }
}

/// What a plugin waits for: the service, and the kind of the dependency where
/// it is not hard.
pub open spec fn want(dependency: Dependency) -> Seq<char> {
    match dependency {
        Dependency::Hard(key) => key.name@,
        Dependency::Soft(key) => key.name@ + " (soft)"@,
    }
}

/// What a plugin waits for.
pub open spec fn wants(inject: Seq<Dependency>) -> Seq<Seq<char>> {
    inject.map_values(|d: Dependency| want(d))
}

/// The line on a fiber that waits.
pub open spec fn pending_line(f: FiberView) -> Seq<char> {
    "  \""@ + f.name + "\" waits for ["@ + joined(wants(f.inject), ", "@) + "]"@
}

/// The lines on the fibers that wait.
pub open spec fn pending_lines(k: KernelView) -> Seq<Seq<char>> {
    k.pending.map_values(|id: FiberId| pending_line(k.fibers[id.0 as int]))
}

/// A heading with lines under it, or nothing if there are none.
pub open spec fn section(heading: Seq<char>, texts: Seq<Seq<char>>) -> Seq<char> {
    if texts.len() == 0 {
        Seq::empty()
    } else {
        heading + lines(texts)
    }
}

/// The name of a dispatch mode's family.
pub open spec fn kind_text(kind: EventKind) -> Seq<char> {
    match kind {
        EventKind::Observer => "observer"@,
        EventKind::Bail => "bail"@,
        EventKind::Serial => "serial"@,
        EventKind::Waterfall => "waterfall"@,
    }
}

/// The name recorded for a type.
pub open spec fn label(k: KernelView, id: TypeId) -> Option<Seq<char>> {
    if rows_map(k.type_names).dom().contains(id) {
        Some(rows_map(k.type_names)[id]@)
    } else {
        None
    }
}

/// The decision type of a family, where it has one with a name.
pub open spec fn result_text(k: KernelView, key: EventKey) -> Seq<char> {
    match key.result {
        Some(id) => match label(k, id) {
            Some(name) => ", result "@ + name,
            None => Seq::empty(),
        },
        None => Seq::empty(),
    }
}

/// The event type of a family.
pub open spec fn event_text(k: KernelView, key: EventKey) -> Seq<char> {
    match label(k, key.event) {
        Some(name) => name,
        None => "<unknown type>"@,
    }
}

/// Picks the handlers of a family.
pub open spec fn of_family(key: EventKey) -> spec_fn(EventHandler) -> bool {
    |h: EventHandler| h.key == key
}

/// The line on an event family.
pub open spec fn family_line(k: KernelView, key: EventKey) -> Seq<char> {
    "  "@ + kind_text(key.kind) + "<"@ + event_text(k, key) + result_text(k, key) + "> × "@
        + decimal(k.handlers.filter(of_family(key)).len())
}

/// The lines on the event families.
pub open spec fn family_lines(k: KernelView) -> Seq<Seq<char>> {
    k.families.map_values(|key: EventKey| family_line(k, key))
}

/// Picks the middlewares of an extension point.
pub open spec fn at_point(point: TypeId) -> spec_fn(PipelineHandler) -> bool {
    |m: PipelineHandler| m.point == point
}

/// The line on an extension point.
pub open spec fn point_line(k: KernelView, point: (TypeId, &'static str)) -> Seq<char> {
    "  "@ + point.1@ + " × "@ + decimal(k.middlewares.filter(at_point(point.0)).len())
        + " middleware(s)"@
}

/// The lines on the extension points.
pub open spec fn point_lines(k: KernelView) -> Seq<Seq<char>> {
    k.points.map_values(|point: (TypeId, &'static str)| point_line(k, point))
}

/// The whole snapshot: the fiber tree, the waiting plugins, the event
/// families and the pipelines.
pub open spec fn snapshot(k: KernelView) -> Seq<char> {
    fiber_text(k, FiberId(0), 0) + section("pending:\n"@, pending_lines(k)) + section(
        "events:\n"@,
        sorted(family_lines(k)),
    ) + section("pipelines:\n"@, sorted(point_lines(k)))
}

// ---- writing it ----

/// Adds a line that lists names behind a label, if there are any.
fn write_list(out: &mut String, depth: usize, label: &str, names: &Vec<String>)
    ensures
        final(out)@ == old(out)@ + list_line(depth as nat, label@, texts_view(names@)),
{
    if names.len() == 0 {
        assert(old(out)@ + Seq::<char>::empty() =~= old(out)@);
        return;
    }
    out.append(indent_text(depth).as_str());
    out.append(label);
    out.append(join_texts(names, ", ").as_str());
    out.append("\n");
    assert(out@ =~= old(out)@ + list_line(depth as nat, label@, texts_view(names@)));
}

/// The names of the services that dependencies name.
fn names_of(inject: &Vec<Dependency>) -> (r: Vec<String>)
    ensures
        texts_view(r@) == dependency_names(inject@),
{
    let mut out: Vec<String> = Vec::new();
    let mut i: usize = 0;
    while i < inject.len()
        invariant
            i <= inject@.len(),
            texts_view(out@) == dependency_names(inject@).take(i as int),
        decreases inject@.len() - i,
    {
        let name = inject[i].key().to_string();
        proof {
            lemma_texts_push(out@, name);
            assert(dependency_names(inject@)[i as int] == name@);
        }
        out.push(name);
        assert(texts_view(out@) =~= dependency_names(inject@).take(i + 1));
        i = i + 1;
    }
    assert(dependency_names(inject@).take(i as int) =~= dependency_names(inject@));
    out
}

/// The names of the services among what a fiber has to clean up.
fn provided_names(disposables: &Vec<Disposable>) -> (r: Vec<String>)
    ensures
        texts_view(r@) == service_names(disposables@),
{
    let mut out: Vec<String> = Vec::new();
    let mut i: usize = 0;
    assert(texts_view(out@) =~= service_names(disposables@.take(0)));
    while i < disposables.len()
        invariant
            i <= disposables@.len(),
            texts_view(out@) == service_names(disposables@.take(i as int)),
        decreases disposables@.len() - i,
    {
        assert(disposables@.take(i + 1).drop_last() =~= disposables@.take(i as int));
        if let Disposable::Service(_, key, _) = &disposables[i] {
            out.push(key.to_string());
            assert(texts_view(out@) =~= service_names(disposables@.take(i + 1)));
        }
        i = i + 1;
    }
    assert(disposables@.take(i as int) =~= disposables@);
    out
}

/// The name of a state.
fn state_name(state: State) -> (r: &'static str)
    ensures
        r@ == state_text(state),
{
    match state {
        State::Pending => "Pending",
        State::Starting => "Starting",
        State::Ready => "Ready",
        State::Failed => "Failed",
        State::Disposed => "Disposed",
    }
}

/// Adds the line with a fiber's name and state.
fn write_head(out: &mut String, fiber: &Fiber, depth: usize)
    ensures
        final(out)@ == old(out)@ + head_line(fiber@, depth as nat),
{
    out.append(indent_text(depth).as_str());
    out.append("fiber \"");
    out.append(fiber.name.as_str());
    out.append("\" [");
    out.append(state_name(fiber.state));
    out.append("]\n");
    assert(out@ =~= old(out)@ + head_line(fiber@, depth as nat));
}

/// Adds the line with the number of tasks, if there are any.
fn write_tasks(out: &mut String, tasks: usize, depth: usize)
    ensures
        final(out)@ == old(out)@ + task_line(depth as nat, tasks as nat),
{
    if tasks > 0 {
        out.append(indent_text(depth).as_str());
        out.append("  tasks: ");
        out.append(number_text(tasks).as_str());
        out.append("\n");
    }
    assert(out@ =~= old(out)@ + task_line(depth as nat, tasks as nat));
}

/// Adds the lines on one fiber alone.
fn write_fiber(out: &mut String, fiber: &Fiber, depth: usize)
    ensures
        final(out)@ == old(out)@ + fiber_lines(fiber@, depth as nat),
{
    write_head(out, fiber, depth);
    let names = match fiber.state {
        State::Pending => Vec::new(),
        _ => names_of(&fiber.inject),
    };
    assert(texts_view(names@) =~= dependency_names(injected(fiber@)));
    write_list(out, depth, "  injects: ", &names);
    let provides = provided_names(&fiber.disposable.inner);
    write_list(out, depth, "  provides: ", &provides);
    write_tasks(out, fiber.tasks.len(), depth);
    assert(out@ =~= old(out)@ + fiber_lines(fiber@, depth as nat));
}

impl Kernel {
    /// Puts a fiber in its place among others sorted by name.
    fn place_by_name(&self, ids: &mut Vec<FiberId>, id: FiberId)
        requires
            self.wf(),
            is_live(self@, id),
            forall|i: int| 0 <= i < old(ids)@.len() ==> is_live(self@, #[trigger] old(ids)@[i]),
        ensures
            final(ids)@ == placed_by_name(self@, old(ids)@, id),
            forall|i: int| 0 <= i < final(ids)@.len() ==> is_live(self@, #[trigger] final(ids)@[i]),
    {
        let ghost all = ids@;
        let ghost k = self@;
        let mut i: usize = ids.len();
        proof {
            assert(all.take(i as int) =~= all);
            assert(placed_by_name(k, all.take(i as int), id) + all.skip(i as int)
                =~= placed_by_name(k, all, id));
        }
        while i > 0 && self.named_before(id, ids[i - 1])
            invariant
                self.wf(),
                k == self@,
                is_live(k, id),
                all == ids@,
                i <= ids@.len(),
                forall|j: int| 0 <= j < all.len() ==> is_live(k, #[trigger] all[j]),
                placed_by_name(k, all.take(i as int), id) + all.skip(i as int) == placed_by_name(
                    k,
                    all,
                    id,
                ),
            decreases i,
        {
            proof {
                let t = all.take(i as int);
                assert(is_live(k, all[i - 1]));
                assert(t.last() == all[i - 1]);
                assert(t.drop_last() =~= all.take(i - 1));
                assert(placed_by_name(k, all.take(i - 1), id) + all.skip(i - 1)
                    =~= placed_by_name(k, t, id) + all.skip(i as int));
            }
            i = i - 1;
        }
        proof {
            let t = all.take(i as int);
            if i > 0 {
                assert(is_live(k, all[i - 1]));
                assert(t.last() == all[i - 1]);
            }
            assert(placed_by_name(k, t, id) == t.push(id));
            assert(t.push(id) + all.skip(i as int) =~= all.insert(i as int, id));
        }
        ids.insert(i, id);
        assert forall|j: int| 0 <= j < ids@.len() implies is_live(self@, #[trigger] ids@[j]) by {
            if j < i {
                assert(ids@[j] == all[j]);
            } else if j > i {
                assert(ids@[j] == all[j - 1]);
            }
        }
    }

    /// Whether a fiber's name comes before another's.
    fn named_before(&self, a: FiberId, b: FiberId) -> (r: bool)
        requires
            self.wf(),
            is_live(self@, a),
            is_live(self@, b),
        ensures
            r == precedes(self@.fibers[a.0 as int].name, self@.fibers[b.0 as int].name),
    {
        match (self.fiber(a), self.fiber(b)) {
            (Some(x), Some(y)) => text_before(x.name.as_str(), y.name.as_str()),
            _ => false,
        }
    }

    /// The fibers below `parent` that are not gone, sorted by name.
    fn below(&self, parent: FiberId) -> (r: Vec<FiberId>)
        requires
            self.wf(),
        ensures
            r@ == below(self@, parent),
            forall|i: int| 0 <= i < r@.len() ==> #[trigger] hangs_off(self@, parent)(r@[i]),
    {
        let ghost k = self@;
        let ghost pick = hangs_off(k, parent);
        let mut out: Vec<FiberId> = Vec::new();
        let n = self.fiber_count();
        let mut i: usize = 0;
        while i < n
            invariant
                self.wf(),
                k == self@,
                pick == hangs_off(k, parent),
                n == k.fibers.len(),
                n <= u32::MAX,
                i <= n,
                out@ == by_name(k, ids_where(i as nat, pick)),
                forall|j: int| 0 <= j < out@.len() ==> #[trigger] pick(out@[j]),
            decreases n - i,
        {
            let id = FiberId(i as u32);
            let hangs = match self.fiber(id) {
                Some(fiber) => fiber.parent == parent && !id.is_root(),
                None => false,
            };
            assert(hangs == pick(id));
            if hangs {
                let ghost done = out@;
                assert forall|j: int| 0 <= j < done.len() implies is_live(
                    k,
                    #[trigger] done[j],
                ) by {
                    assert(pick(done[j]));
                }
                self.place_by_name(&mut out, id);
                proof {
                    let front = ids_where(i as nat, pick);
                    assert(front.push(id).drop_last() =~= front);
                    lemma_placed_by_name(k, done, id);
                    assert forall|j: int| 0 <= j < out@.len() implies #[trigger] pick(
                        out@[j],
                    ) by {
                        assert(out@.contains(out@[j]));
                        if out@[j] != id {
                            let a = choose|a: int| 0 <= a < done.len() && done[a] == out@[j];
                            assert(pick(done[a]));
                        }
                    }
                }
            }
            i = i + 1;
        }
        out
    }

    /// Adds the text on a fiber and on everything below it.
    fn describe_fiber(&self, id: FiberId, depth: usize, out: &mut String)
        requires
            self.wf(),
            depth <= id.0,
        ensures
            final(out)@ == old(out)@ + fiber_text(self@, id, depth as nat),
        decreases self@.fibers.len() - id.0, 1nat,
    {
        match self.fiber(id) {
            Some(fiber) => {
                write_fiber(out, fiber, depth);
            },
            None => {
                assert(old(out)@ + Seq::<char>::empty() =~= old(out)@);
                return;
            },
        }
        let ids = self.below(id);
        let ghost start = out@;
        let ghost k = self@;
        let mut i: usize = 0;
        assert(start + subtree_text(k, id, ids@.take(0), (depth + 1) as nat) =~= start);
        while i < ids.len()
            invariant
                self.wf(),
                k == self@,
                is_live(k, id),
                depth <= id.0,
                i <= ids@.len(),
                ids@ == below(k, id),
                forall|j: int| 0 <= j < ids@.len() ==> #[trigger] hangs_off(k, id)(ids@[j]),
                out@ == start + subtree_text(k, id, ids@.take(i as int), (depth + 1) as nat),
            decreases ids@.len() - i,
        {
            let child = ids[i];
            let ghost sofar = out@;
            proof {
                assert(hangs_off(k, id)(ids@[i as int]));
                assert(k.fibers[child.0 as int].parent == id);
                assert(child.0 > 0);
                assert(id.0 < child.0);
                assert(ids@.take(i + 1).drop_last() =~= ids@.take(i as int));
            }
            self.describe_fiber(child, depth + 1, out);
            assert(out@ =~= start + subtree_text(k, id, ids@.take(i + 1), (depth + 1) as nat));
            i = i + 1;
        }
        assert(ids@.take(i as int) =~= ids@);
        assert(out@ =~= old(out)@ + fiber_text(k, id, depth as nat));
    }

    /// The lines on the fibers that wait.
    fn describe_pending(&self) -> (r: Vec<String>)
        requires
            self.wf(),
        ensures
            texts_view(r@) == pending_lines(self@),
    {
        let pending = self.pending_ids();
        let ghost k = self@;
        let mut out: Vec<String> = Vec::new();
        let mut i: usize = 0;
        while i < pending.len()
            invariant
                self.wf(),
                k == self@,
                pending@ == k.pending,
                i <= pending@.len(),
                texts_view(out@) == pending_lines(k).take(i as int),
            decreases pending@.len() - i,
        {
            let id = pending[i];
            assert(k.pending.contains(id));
            if let Some(fiber) = self.fiber(id) {
                let mut wanted: Vec<String> = Vec::new();
                let mut j: usize = 0;
                while j < fiber.inject.len()
                    invariant
                        j <= fiber.inject@.len(),
                        texts_view(wanted@) == wants(fiber.inject@).take(j as int),
                    decreases fiber.inject@.len() - j,
                {
                    let mut text = fiber.inject[j].key().to_string();
                    if fiber.inject[j].is_soft() {
                        text.append(" (soft)");
                    }
                    proof {
                        lemma_texts_push(wanted@, text);
                        assert(wants(fiber.inject@)[j as int] == text@);
                    }
                    wanted.push(text);
                    assert(texts_view(wanted@) =~= wants(fiber.inject@).take(j + 1));
                    j = j + 1;
                }
                assert(wants(fiber.inject@).take(j as int) =~= wants(fiber.inject@));
                let mut line = "  \"".to_owned();
                line.append(fiber.name.as_str());
                line.append("\" waits for [");
                line.append(join_texts(&wanted, ", ").as_str());
                line.append("]");
                proof {
                    assert(line@ =~= pending_line(fiber@));
                    lemma_texts_push(out@, line);
                    assert(pending_lines(k)[i as int] == line@);
                }
                out.push(line);
            }
            assert(texts_view(out@) =~= pending_lines(k).take(i + 1));
            i = i + 1;
        }
        assert(pending_lines(k).take(i as int) =~= pending_lines(k));
        out
    }

    /// How many handlers an event family has.
    fn family_size(&self, key: EventKey) -> (r: usize)
        ensures
            r == self@.handlers.filter(of_family(key)).len(),
    {
        let handlers = self.event_handlers();
        let mut count: usize = 0;
        let mut i: usize = 0;
        proof {
            lemma_filter_none(handlers@, of_family(key));
        }
        while i < handlers.len()
            invariant
                i <= handlers@.len(),
                count <= i,
                count == handlers@.take(i as int).filter(of_family(key)).len(),
            decreases handlers@.len() - i,
        {
            proof {
                lemma_filter_step(handlers@, i as int, of_family(key));
            }
            if handlers[i].key == key {
                count = count + 1;
            }
            i = i + 1;
        }
        assert(handlers@.take(i as int) =~= handlers@);
        count
    }

    /// The lines on the event families.
    fn describe_events(&self) -> (r: Vec<String>)
        requires
            self.wf(),
        ensures
            texts_view(r@) == family_lines(self@),
    {
        let families = self.event_families();
        let ghost k = self@;
        let mut out: Vec<String> = Vec::new();
        let mut i: usize = 0;
        while i < families.len()
            invariant
                self.wf(),
                k == self@,
                families@ == k.families,
                i <= families@.len(),
                texts_view(out@) == family_lines(k).take(i as int),
            decreases families@.len() - i,
        {
            let key = families[i];
            let kind = match key.kind {
                EventKind::Observer => "observer",
                EventKind::Bail => "bail",
                EventKind::Serial => "serial",
                EventKind::Waterfall => "waterfall",
            };
            let event = match self.label_of(&key.event) {
                Some(name) => name,
                None => "<unknown type>",
            };
            let mut line = "  ".to_owned();
            line.append(kind);
            line.append("<");
            line.append(event);
            if let Some(result) = &key.result {
                if let Some(name) = self.label_of(result) {
                    line.append(", result ");
                    line.append(name);
                }
            }
            line.append("> × ");
            line.append(number_text(self.family_size(key)).as_str());
            proof {
                assert(line@ =~= family_line(k, key));
                lemma_texts_push(out@, line);
                assert(family_lines(k)[i as int] == line@);
            }
            out.push(line);
            assert(texts_view(out@) =~= family_lines(k).take(i + 1));
            i = i + 1;
        }
        assert(family_lines(k).take(i as int) =~= family_lines(k));
        out
    }

    /// How many middlewares an extension point has.
    fn point_size(&self, point: &TypeId) -> (r: usize)
        ensures
            r == self@.middlewares.filter(at_point(*point)).len(),
    {
        let all = self.pipeline_handlers();
        let mut count: usize = 0;
        let mut i: usize = 0;
        proof {
            lemma_filter_none(all@, at_point(*point));
        }
        while i < all.len()
            invariant
                i <= all@.len(),
                count <= i,
                count == all@.take(i as int).filter(at_point(*point)).len(),
            decreases all@.len() - i,
        {
            proof {
                lemma_filter_step(all@, i as int, at_point(*point));
            }
            if same_type(&all[i].point, point) {
                count = count + 1;
            }
            i = i + 1;
        }
        assert(all@.take(i as int) =~= all@);
        count
    }

    /// The lines on the extension points.
    fn describe_pipelines(&self) -> (r: Vec<String>)
        requires
            self.wf(),
        ensures
            texts_view(r@) == point_lines(self@),
    {
        let points = self.pipeline_points();
        let ghost k = self@;
        let mut out: Vec<String> = Vec::new();
        let mut i: usize = 0;
        while i < points.len()
            invariant
                self.wf(),
                k == self@,
                points@ == k.points,
                i <= points@.len(),
                texts_view(out@) == point_lines(k).take(i as int),
            decreases points@.len() - i,
        {
            let mut line = "  ".to_owned();
            line.append(points[i].1);
            line.append(" × ");
            line.append(number_text(self.point_size(&points[i].0)).as_str());
            line.append(" middleware(s)");
            proof {
                assert(line@ =~= point_line(k, points@[i as int]));
                lemma_texts_push(out@, line);
                assert(point_lines(k)[i as int] == line@);
            }
            out.push(line);
            assert(texts_view(out@) =~= point_lines(k).take(i + 1));
            i = i + 1;
        }
        assert(point_lines(k).take(i as int) =~= point_lines(k));
        out
    }

    /// Renders a human-readable snapshot of the kernel: the fiber tree with
    /// each fiber's state, injected and provided services, task counts; the
    /// pending plugins and the services they wait for; the event handler
    /// families; and the pipeline chains.
    pub fn describe(&self) -> (r: String)
        requires
            self.wf(),
        ensures
            r@ == snapshot(self@),
    {
        let mut out = String::new();
        self.describe_fiber(FiberId::root(), 0, &mut out);
        let tree = self.describe_pending();
        write_section(&mut out, "pending:\n", &tree);
        let events = sort_texts(self.describe_events());
        write_section(&mut out, "events:\n", &events);
        let pipelines = sort_texts(self.describe_pipelines());
        write_section(&mut out, "pipelines:\n", &pipelines);
        assert(out@ =~= snapshot(self@));
        out
    }
}

/// Adds a heading with lines under it, if there are any.
fn write_section(out: &mut String, heading: &str, texts: &Vec<String>)
    ensures
        final(out)@ == old(out)@ + section(heading@, texts_view(texts@)),
{
    if texts.len() > 0 {
        out.append(heading);
        out.append(line_texts(texts).as_str());
    }
    assert(out@ =~= old(out)@ + section(heading@, texts_view(texts@)));
}

/// Putting a fiber in its place adds that fiber and no other.
proof fn lemma_placed_by_name(k: KernelView, ids: Seq<FiberId>, id: FiberId)
    ensures
        forall|x: FiberId| #[trigger]
            placed_by_name(k, ids, id).contains(x) ==> x == id || ids.contains(x),
    decreases ids.len(),
{
    let out = placed_by_name(k, ids, id);
    if ids.len() > 0 {
        lemma_placed_by_name(k, ids.drop_last(), id);
    }
    assert forall|x: FiberId| #[trigger] out.contains(x) implies x == id || ids.contains(x) by {
        let j = choose|j: int| 0 <= j < out.len() && out[j] == x;
        if ids.len() > 0 && precedes(
            k.fibers[id.0 as int].name,
            k.fibers[ids.last().0 as int].name,
        ) {
            let mid = placed_by_name(k, ids.drop_last(), id);
            if j < mid.len() {
                assert(mid.contains(mid[j]));
                if x != id {
                    let a = choose|a: int| 0 <= a < ids.drop_last().len() && ids.drop_last()[a] == x;
                    assert(ids[a] == x);
                }
            } else {
                assert(ids[ids.len() - 1] == x);
            }
        } else if j < ids.len() {
            assert(ids[j] == x);
        }
    }
}

} // verus!
