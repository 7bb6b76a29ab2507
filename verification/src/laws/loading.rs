//! Reloads touch what changed and nothing else, and what is mounted is what
//! the tree says.

use crate::ctx::{disconnected, lemma_with_plugins};
use crate::entries::{EntryView, LoadErrorView, enabled, is_group, row_entry, same_entry};
use crate::fiber::FiberId;
use crate::json::{JsonView, lemma_same_json_reflexive};
use crate::laws::batches::lemma_pass_fibers;
use crate::laws::disposing::{law_bystanders_survive, self_contained};
use crate::laws::lifecycle::lemma_satisfied_ids;
use crate::loader::{
    ActionView, EntryKind, MountedRows, MountedView, Pass, all_ids, batched, built_views,
    candidates, config_for, dead, decision, doomed, entry_error, ids_with, kept_in, plan_of,
    removals, root_ctx, row_ids, with_entries, without_ids,
};
use crate::model::{KernelView, Step, is_active, kernel_ok, started, with_plugins};
use crate::plugin::{FnPlugin, PluginView};
use crate::reconcile::{fresh_report, lemma_position_at, passed};
use crate::registry::{PluginRegistration, collected};
use crate::shelf::{
    found, in_line, lemma_found, lemma_found_at, lemma_shelved, lemma_unshelved, shelved, unshelved,
};
use crate::text::{
    inserted, lemma_precedes_irreflexive, lemma_precedes_total, lemma_precedes_transitive, precedes,
};
use crate::tree::{
    ancestor, by_id, gathered, lemma_position, lemma_push_contains, lemma_with_row, mountable,
    overridden, position, stacked, structured, tree_of, with_row,
};
use crate::upkeep::lemma_start_all;
use vstd::prelude::*;

verus! {

// ---- trees ----

/// Disabling a group retires its whole subtree: no entry is mounted that is
/// disabled itself or has a disabled group anywhere above it.
pub proof fn law_disabling_cascades(rows: Seq<EntryView>, i: int, n: nat)
    requires
        by_id(rows),
        0 <= i < rows.len(),
        ancestor(rows, i, n) is Some,
        !enabled(rows[ancestor(rows, i, n)->0]),
    ensures
        !mountable(rows, rows[i].id),
{
    lemma_position_at(rows, i);
}

/// An entry of a tree with nothing disabled on its way up is mounted.
pub proof fn law_enabled_entries_are_mounted(rows: Seq<EntryView>, i: int)
    requires
        by_id(rows),
        0 <= i < rows.len(),
        !is_group(rows[i]),
        forall|n: nat| #[trigger]
            ancestor(rows, i, n) matches Some(j) ==> enabled(rows[j]),
    ensures
        mountable(rows, rows[i].id),
{
    lemma_position_at(rows, i);
}

/// The row with an id.
pub open spec fn row_of(rows: Seq<EntryView>, id: Seq<char>) -> Option<EntryView> {
    match position(rows, id) {
        Some(i) => Some(rows[i]),
        None => None,
    }
}

/// The items of the layers, one layer after the other.
pub open spec fn all_items(layers: Seq<JsonView>) -> Seq<JsonView>
    decreases layers.len(),
{
    if layers.len() == 0 {
        Seq::empty()
    } else {
        all_items(layers.drop_last()) + match layers.last() {
            JsonView::Array(items) => items,
            _ => Seq::empty(),
        }
    }
}

/// The last row with an id among the items.
pub open spec fn last_row(items: Seq<JsonView>, id: Seq<char>) -> Option<EntryView>
    decreases items.len(),
{
    if items.len() == 0 {
        None
    } else if row_entry(items.last()).id == id {
        Some(row_entry(items.last()))
    } else {
        last_row(items.drop_last(), id)
    }
}

proof fn lemma_row_of(rows: Seq<EntryView>, row: EntryView)
    requires
        by_id(rows),
        rows.contains(row),
    ensures
        row_of(rows, row.id) == Some(row),
{
    let i = choose|i: int| 0 <= i < rows.len() && rows[i] == row;
    lemma_position_at(rows, i);
}

proof fn lemma_row_of_none(rows: Seq<EntryView>, id: Seq<char>)
    requires
        row_of(rows, id) is Some,
    ensures
        rows.contains(row_of(rows, id)->0),
        row_of(rows, id)->0.id == id,
{
    lemma_position(rows, id);
    assert(rows[position(rows, id)->0] == row_of(rows, id)->0);
}

proof fn lemma_row_of_with(rows: Seq<EntryView>, row: EntryView, id: Seq<char>)
    requires
        by_id(rows),
    ensures
        by_id(with_row(rows, row)),
        row_of(with_row(rows, row), id) == (if id == row.id {
            Some(row)
        } else {
            row_of(rows, id)
        }),
{
    let out = with_row(rows, row);
    lemma_with_row(rows, row);
    if id == row.id {
        lemma_row_of(out, row);
    } else {
        if row_of(rows, id) is Some {
            lemma_row_of_none(rows, id);
            lemma_row_of(out, row_of(rows, id)->0);
        }
        if row_of(out, id) is Some {
            lemma_row_of_none(out, id);
            lemma_row_of(rows, row_of(out, id)->0);
        }
    }
}

proof fn lemma_last_row_add(a: Seq<JsonView>, b: Seq<JsonView>, id: Seq<char>)
    ensures
        last_row(a + b, id) == (match last_row(b, id) {
            Some(row) => Some(row),
            None => last_row(a, id),
        }),
    decreases b.len(),
{
    if b.len() == 0 {
        assert(a + b =~= a);
    } else {
        assert((a + b).drop_last() =~= a + b.drop_last());
        assert((a + b).last() == b.last());
        lemma_last_row_add(a, b.drop_last(), id);
    }
}

proof fn lemma_overridden(rows: Seq<EntryView>, items: Seq<JsonView>, id: Seq<char>)
    requires
        by_id(rows),
        overridden(rows, items) is Ok,
    ensures
        by_id(overridden(rows, items)->Ok_0),
        row_of(overridden(rows, items)->Ok_0, id) == (match last_row(items, id) {
            Some(row) => Some(row),
            None => row_of(rows, id),
        }),
    decreases items.len(),
{
    if items.len() > 0 {
        lemma_overridden(rows, items.drop_last(), id);
        lemma_row_of_with(
            overridden(rows, items.drop_last())->Ok_0,
            row_entry(items.last()),
            id,
        );
    }
}

/// Later layers win, row by row: of all the rows with an id, in all layers,
/// the last one stands, whole, and an id that no layer has is not there.
pub proof fn law_later_layers_win(layers: Seq<JsonView>, id: Seq<char>)
    requires
        stacked(layers) is Ok,
    ensures
        by_id(stacked(layers)->Ok_0),
        row_of(stacked(layers)->Ok_0, id) == last_row(all_items(layers), id),
    decreases layers.len(),
{
    if layers.len() > 0 {
        let front = layers.drop_last();
        law_later_layers_win(front, id);
        let items = layers.last()->Array_0;
        lemma_overridden(stacked(front)->Ok_0, items, id);
        lemma_last_row_add(all_items(front), items, id);
    } else {
        assert(stacked(layers)->Ok_0 =~= Seq::<EntryView>::empty());
    }
}

proof fn lemma_gathered_overridden(items: Seq<JsonView>)
    requires
        gathered(items) is Ok,
    ensures
        overridden(Seq::empty(), items) == gathered(items),
    decreases items.len(),
{
    if items.len() > 0 {
        lemma_gathered_overridden(items.drop_last());
    }
}

/// A tree is its own only layer: composing one document gives what reading it
/// gives.
pub proof fn law_one_layer_is_the_tree(value: JsonView)
    requires
        tree_of(value) is Ok,
    ensures
        structured(stacked(seq![value])) == tree_of(value),
{
    let items = value->Array_0;
    lemma_gathered_overridden(items);
    let layers = seq![value];
    assert(layers.drop_last() =~= Seq::<JsonView>::empty());
    assert(layers.last() == value);
    assert(stacked(layers.drop_last()) == Ok::<Seq<EntryView>, LoadErrorView>(Seq::empty()));
}

// ---- the plan ----

/// Whether texts are in strict order.
pub open spec fn strictly_ordered(texts: Seq<Seq<char>>) -> bool {
    forall|i: int, j: int|
        0 <= i < j < texts.len() ==> precedes(#[trigger] texts[i], #[trigger] texts[j])
}

proof fn lemma_inserted_once(s: Seq<Seq<char>>, text: Seq<char>)
    requires
        strictly_ordered(s),
        !s.contains(text),
    ensures
        strictly_ordered(inserted(s, text)),
        forall|x: Seq<char>| #[trigger]
            inserted(s, text).contains(x) <==> x == text || s.contains(x),
    decreases s.len(),
{
    let out = inserted(s, text);
    if s.len() > 0 && precedes(text, s.last()) {
        let front = s.drop_last();
        assert(s =~= front.push(s.last()));
        assert forall|i: int, j: int| 0 <= i < j < front.len() implies precedes(
            #[trigger] front[i],
            #[trigger] front[j],
        ) by {
            assert(precedes(s[i], s[j]));
        }
        assert(!front.contains(text)) by {
            if front.contains(text) {
                let i = choose|i: int| 0 <= i < front.len() && front[i] == text;
                assert(s[i] == text);
            }
        }
        lemma_inserted_once(front, text);
        let mid = inserted(front, text);
        assert forall|x: Seq<char>| #[trigger] out.contains(x) <==> x == text || s.contains(x) by {
            lemma_push_contains(mid, s.last(), x);
            lemma_push_contains(front, s.last(), x);
            assert(mid.contains(x) <==> x == text || front.contains(x));
        }
        assert forall|i: int, j: int| 0 <= i < j < out.len() implies precedes(
            #[trigger] out[i],
            #[trigger] out[j],
        ) by {
            if j < mid.len() {
                assert(precedes(mid[i], mid[j]));
            } else {
                assert(mid.contains(mid[i]));
                if mid[i] != text {
                    let a = choose|a: int| 0 <= a < front.len() && front[a] == mid[i];
                    assert(precedes(s[a], s[s.len() - 1]));
                }
            }
        }
    } else {
        assert forall|x: Seq<char>| #[trigger] out.contains(x) <==> x == text || s.contains(x) by {
            lemma_push_contains(s, text, x);
        }
        assert forall|i: int, j: int| 0 <= i < j < out.len() implies precedes(
            #[trigger] out[i],
            #[trigger] out[j],
        ) by {
            if j == s.len() {
                let last = s[s.len() - 1];
                assert(s.contains(last));
                lemma_precedes_total(text, last);
                if i < s.len() - 1 {
                    assert(precedes(s[i], last));
                    lemma_precedes_transitive(s[i], last, text);
                }
            } else {
                assert(precedes(s[i], s[j]));
            }
        }
    }
}

/// A plan goes through every id of the new tree and of what is mounted, each
/// once, in id order.
pub proof fn law_plans_are_ordered_by_id(mounted: MountedRows, next: Seq<EntryView>)
    requires
        in_line(mounted),
        by_id(next),
    ensures
        strictly_ordered(all_ids(mounted, next)),
        forall|id: Seq<char>| #[trigger]
            all_ids(mounted, next).contains(id) <==> found(mounted, id) is Some || position(
                next,
                id,
            ) is Some,
        plan_of(mounted, next).len() == all_ids(mounted, next).len(),
    decreases mounted.len(),
{
    let ids = all_ids(mounted, next);
    if mounted.len() == 0 {
        assert forall|i: int, j: int| 0 <= i < j < ids.len() implies precedes(
            #[trigger] ids[i],
            #[trigger] ids[j],
        ) by {
            assert(precedes(next[i].id, next[j].id));
        }
        assert forall|id: Seq<char>| #[trigger] ids.contains(id) <==> found(mounted, id) is Some
            || position(next, id) is Some by {
            lemma_position(next, id);
            if ids.contains(id) {
                let i = choose|i: int| 0 <= i < ids.len() && ids[i] == id;
                assert(next[i].id == id);
            }
            if position(next, id) is Some {
                assert(ids[position(next, id)->0] == id);
            }
        }
    } else {
        let front = mounted.drop_last();
        let last = mounted.last().0;
        assert forall|i: int, j: int| 0 <= i < j < front.len() implies precedes(
            (#[trigger] front[i]).0,
            (#[trigger] front[j]).0,
        ) by {
            assert(precedes(mounted[i].0, mounted[j].0));
        }
        law_plans_are_ordered_by_id(front, next);
        let rest = all_ids(front, next);
        assert(found(front, last) is None) by {
            if found(front, last) is Some {
                lemma_found(front, last);
                let a = choose|a: int|
                    0 <= a < front.len() && front[a] == (last, found(front, last)->0);
                assert(precedes(mounted[a].0, mounted[mounted.len() - 1].0));
                lemma_precedes_irreflexive(last);
            }
        }
        if position(next, last) is None {
            assert(!rest.contains(last));
            lemma_inserted_once(rest, last);
        }
        assert forall|id: Seq<char>| #[trigger] ids.contains(id) <==> found(mounted, id) is Some
            || position(next, id) is Some by {
            assert(rest.contains(id) <==> found(front, id) is Some || position(next, id) is Some);
            if position(next, last) is None {
                assert(inserted(rest, last).contains(id) <==> id == last || rest.contains(id));
            }
        }
    }
}

/// Whether the first `n` ids of a plan hold this one.
pub open spec fn among(ids: Seq<Seq<char>>, n: int, id: Seq<char>) -> bool {
    exists|i: int| 0 <= i < n && #[trigger] ids[i] == id
}

/// What the first `n` actions of a plan come to.
pub proof fn lemma_plan_parts(mounted: MountedRows, next: Seq<EntryView>, n: int)
    requires
        0 <= n <= plan_of(mounted, next).len(),
    ensures
        ({
            let actions = plan_of(mounted, next).take(n);
            let ids = all_ids(mounted, next);
            &&& forall|id: Seq<char>| #[trigger]
                removals(actions).contains(id) <==> among(ids, n, id) && decision(
                    mounted,
                    next,
                    id,
                ) is Remove
            &&& forall|i: int|
                0 <= i < candidates(actions).len() ==> {
                    let row = (#[trigger] candidates(actions)[i]).0;
                    among(ids, n, row.id) && registers(decision(mounted, next, row.id), row)
                }
            &&& forall|i: int|
                0 <= i < n ==> (decision(mounted, next, #[trigger] ids[i]) is Create || decision(
                    mounted,
                    next,
                    ids[i],
                ) is Replace) ==> exists|j: int|
                    0 <= j < candidates(actions).len() && (#[trigger] candidates(actions)[j]).0.id
                        == ids[i]
            &&& (forall|i: int| 0 <= i < n ==> decision(mounted, next, #[trigger] ids[i]) is Keep)
                ==> {
                &&& removals(actions).len() == 0
                &&& candidates(actions).len() == 0
                &&& doomed(actions).len() == 0
                &&& kept_in(actions) == n
            }
        }),
    decreases n,
{
    let all = plan_of(mounted, next);
    let ids = all_ids(mounted, next);
    if n > 0 {
        lemma_plan_parts(mounted, next, n - 1);
        let before = all.take(n - 1);
        let actions = all.take(n);
        let id = ids[n - 1];
        assert(actions.drop_last() =~= before);
        assert(actions.last() == (id, decision(mounted, next, id)));
        lemma_position(next, id);
        assert forall|x: Seq<char>| #[trigger] removals(actions).contains(x) <==> among(ids, n, x)
            && decision(mounted, next, x) is Remove by {
            assert(removals(before).contains(x) <==> among(ids, n - 1, x) && decision(
                mounted,
                next,
                x,
            ) is Remove);
            assert(among(ids, n, x) <==> among(ids, n - 1, x) || x == id) by {
                if among(ids, n, x) {
                    let i = choose|i: int| 0 <= i < n && #[trigger] ids[i] == x;
                    if i < n - 1 {
                        assert(among(ids, n - 1, x));
                    }
                }
                if among(ids, n - 1, x) {
                    let i = choose|i: int| 0 <= i < n - 1 && #[trigger] ids[i] == x;
                    assert(ids[i] == x);
                }
            }
            if decision(mounted, next, id) is Remove {
                lemma_push_contains(removals(before), id, x);
            }
        }
        let old_ones = candidates(before);
        let out = candidates(actions);
        assert forall|i: int| 0 <= i < out.len() implies among(
            ids,
            n,
            (#[trigger] out[i]).0.id,
        ) && registers(decision(mounted, next, out[i].0.id), out[i].0) by {
            if i < old_ones.len() {
                assert(out[i] == old_ones[i]);
                let a = choose|a: int| 0 <= a < n - 1 && #[trigger] ids[a] == old_ones[i].0.id;
                assert(ids[a] == out[i].0.id);
            } else {
                assert(ids[n - 1] == out[i].0.id);
            }
        }
        assert forall|i: int| 0 <= i < n && (decision(mounted, next, #[trigger] ids[i]) is Create
            || decision(mounted, next, ids[i]) is Replace) implies exists|j: int|
            0 <= j < out.len() && (#[trigger] out[j]).0.id == ids[i] by {
            if i < n - 1 {
                let j = choose|j: int|
                    0 <= j < old_ones.len() && (#[trigger] old_ones[j]).0.id == ids[i];
                assert(out[j] == old_ones[j]);
            } else {
                assert(out[out.len() - 1].0.id == id);
            }
        }
    } else {
        assert(all.take(0) =~= Seq::empty());
        assert forall|x: Seq<char>| !among(ids, 0, x) by {}
        assert(removals(all.take(0)) =~= Seq::<Seq<char>>::empty());
        assert(candidates(all.take(0)) =~= Seq::<(EntryView, bool)>::empty());
    }
}

/// Whether an action registers the row.
pub open spec fn registers(action: ActionView, row: EntryView) -> bool {
    match action {
        ActionView::Create(r) => r == row,
        ActionView::Replace(r, _) => r == row,
        _ => false,
    }
}

pub proof fn lemma_without_ids(mounted: MountedRows, ids: Seq<Seq<char>>, id: Seq<char>)
    requires
        in_line(mounted),
    ensures
        in_line(without_ids(mounted, ids)),
        found(without_ids(mounted, ids), id) == (if ids.contains(id) {
            None
        } else {
            found(mounted, id)
        }),
    decreases ids.len(),
{
    if ids.len() > 0 {
        let front = ids.drop_last();
        lemma_without_ids(mounted, front, id);
        lemma_unshelved(without_ids(mounted, front), ids.last());
        assert(ids =~= front.push(ids.last()));
        lemma_push_contains(front, ids.last(), id);
        assert(found(unshelved(without_ids(mounted, front), ids.last()), id) == (if id
            == ids.last() {
            None
        } else {
            found(without_ids(mounted, front), id)
        }));
    }
}

pub proof fn lemma_with_entries(
    mounted: MountedRows,
    entries: Seq<(EntryView, bool)>,
    first: int,
    id: Seq<char>,
)
    requires
        in_line(mounted),
    ensures
        in_line(with_entries(mounted, entries, first)),
        match found(with_entries(mounted, entries, first), id) {
            Some(m) => found(mounted, id) == Some(m) && (forall|i: int|
                0 <= i < entries.len() ==> (#[trigger] entries[i]).0.id != id) || exists|i: int|
                0 <= i < entries.len() && (#[trigger] entries[i]).0.id == id && m
                    == (MountedView {
                    options: entries[i].0,
                    fiber: FiberId((first + i) as u32),
                }),
            None => found(mounted, id) is None && forall|i: int|
                0 <= i < entries.len() ==> (#[trigger] entries[i]).0.id != id,
        },
    decreases entries.len(),
{
    if entries.len() > 0 {
        let front = entries.drop_last();
        let n = entries.len() - 1;
        lemma_with_entries(mounted, front, first, id);
        let mid = with_entries(mounted, front, first);
        let new = MountedView {
            options: entries[n].0,
            fiber: FiberId((first + n) as u32),
        };
        lemma_shelved(mid, entries[n].0.id, new);
        let out = with_entries(mounted, entries, first);
        assert(out == shelved(mid, entries[n].0.id, new));
        assert(found(shelved(mid, entries[n].0.id, new), id) == (if id == entries[n].0.id {
            Some(new)
        } else {
            found(mid, id)
        }));
        if id != entries[n].0.id {
            match found(mid, id) {
                Some(m) => {
                    if exists|i: int|
                        0 <= i < front.len() && (#[trigger] front[i]).0.id == id && m == (
                        MountedView { options: front[i].0, fiber: FiberId((first + i) as u32) }) {
                        let i = choose|i: int|
                            0 <= i < front.len() && (#[trigger] front[i]).0.id == id && m == (
                            MountedView {
                                options: front[i].0,
                                fiber: FiberId((first + i) as u32),
                            });
                        assert(entries[i] == front[i]);
                    } else {
                        assert forall|i: int| 0 <= i < entries.len() implies (
                        #[trigger] entries[i]).0.id != id by {
                            if i < n {
                                assert(front[i] == entries[i]);
                            }
                        }
                    }
                },
                None => {
                    assert forall|i: int| 0 <= i < entries.len() implies (
                    #[trigger] entries[i]).0.id != id by {
                        if i < n {
                            assert(front[i] == entries[i]);
                        }
                    }
                },
            }
        }
    }
}

/// What is mounted after a pass that went through.
pub open spec fn mounted_after(
    mounted: MountedRows,
    next: Seq<EntryView>,
    first: int,
) -> MountedRows {
    let actions = plan_of(mounted, next);
    with_entries(without_ids(mounted, removals(actions)), candidates(actions), first)
}

/// A pass brings what is mounted in line with the tree: afterwards exactly
/// the entries are mounted that may be, each with the options the tree gives
/// it. An entry that was mounted and has not changed keeps its fiber, so it
/// keeps running; any other mounted entry has a new one.
pub proof fn law_passes_mount_what_the_tree_says(
    mounted: MountedRows,
    next: Seq<EntryView>,
    first: int,
    id: Seq<char>,
)
    requires
        in_line(mounted),
        by_id(next),
    ensures
        in_line(mounted_after(mounted, next, first)),
        found(mounted_after(mounted, next, first), id) is Some <==> mountable(next, id),
        found(mounted_after(mounted, next, first), id) matches Some(m) ==> {
            let row = next[position(next, id)->0];
            &&& same_entry(m.options, row)
            &&& match found(mounted, id) {
                Some(before) => if same_entry(before.options, row) {
                    m == before
                } else {
                    m.options == row && m.fiber == fresh_fiber_of(mounted, next, first, id)
                },
                None => m.options == row && m.fiber == fresh_fiber_of(mounted, next, first, id),
            }
        },
{
    let actions = plan_of(mounted, next);
    let ids = all_ids(mounted, next);
    let n = actions.len() as int;
    law_plans_are_ordered_by_id(mounted, next);
    lemma_plan_parts(mounted, next, n);
    assert(actions.take(n) =~= actions);
    lemma_without_ids(mounted, removals(actions), id);
    let left = without_ids(mounted, removals(actions));
    lemma_with_entries(left, candidates(actions), first, id);
    lemma_position(next, id);
    let entries = candidates(actions);
    let what = decision(mounted, next, id);
    assert(among(ids, n, id) <==> ids.contains(id)) by {
        if among(ids, n, id) {
            let i = choose|i: int| 0 <= i < n && #[trigger] ids[i] == id;
            assert(ids.contains(ids[i]));
        }
        if ids.contains(id) {
            let i = choose|i: int| 0 <= i < ids.len() && ids[i] == id;
            assert(among(ids, n, id));
        }
    }
    assert(removals(actions).contains(id) <==> among(ids, n, id) && what is Remove);
    assert((what is Create || what is Replace) && ids.contains(id) ==> exists|j: int|
        0 <= j < entries.len() && (#[trigger] entries[j]).0.id == id) by {
        if (what is Create || what is Replace) && ids.contains(id) {
            let i = choose|i: int| 0 <= i < ids.len() && ids[i] == id;
            assert(decision(mounted, next, ids[i]) == what);
        }
    }
    if exists|j: int| 0 <= j < entries.len() && (#[trigger] entries[j]).0.id == id {
        let j = choose|j: int| 0 <= j < entries.len() && (#[trigger] entries[j]).0.id == id;
        assert(registers(what, entries[j].0));
        lemma_entry_reflexive(entries[j].0);
    }
    let after = mounted_after(mounted, next, first);
    if let Some(m) = found(after, id) {
        if what is Create || what is Replace {
            let i = choose|i: int|
                0 <= i < entries.len() && (#[trigger] entries[i]).0.id == id && m == (MountedView {
                    options: entries[i].0,
                    fiber: FiberId((first + i) as u32),
                });
            assert(registers(what, entries[i].0));
            lemma_fresh_fiber_of(mounted, next, first, id, i);
        }
    }
}

/// The fiber on which a pass mounts an entry: those it registers are numbered
/// from `first`, in id order.
pub open spec fn fresh_fiber_of(
    mounted: MountedRows,
    next: Seq<EntryView>,
    first: int,
    id: Seq<char>,
) -> FiberId {
    let entries = candidates(plan_of(mounted, next));
    FiberId(
        (first + choose|i: int| 0 <= i < entries.len() && (#[trigger] entries[i]).0.id == id)
            as u32,
    )
}

proof fn lemma_fresh_fiber_of(
    mounted: MountedRows,
    next: Seq<EntryView>,
    first: int,
    id: Seq<char>,
    i: int,
)
    requires
        in_line(mounted),
        by_id(next),
        0 <= i < candidates(plan_of(mounted, next)).len(),
        candidates(plan_of(mounted, next))[i].0.id == id,
    ensures
        fresh_fiber_of(mounted, next, first, id) == FiberId((first + i) as u32),
{
    let actions = plan_of(mounted, next);
    let entries = candidates(actions);
    law_plans_are_ordered_by_id(mounted, next);
    lemma_candidates_ordered(mounted, next, actions.len() as int);
    assert(actions.take(actions.len() as int) =~= actions);
    let j = choose|j: int| 0 <= j < entries.len() && (#[trigger] entries[j]).0.id == id;
    if i < j {
        assert(precedes(entries[i].0.id, entries[j].0.id));
        lemma_precedes_irreflexive(id);
    }
    if j < i {
        assert(precedes(entries[j].0.id, entries[i].0.id));
        lemma_precedes_irreflexive(id);
    }
}

pub proof fn lemma_candidates_ordered(mounted: MountedRows, next: Seq<EntryView>, n: int)
    requires
        strictly_ordered(all_ids(mounted, next)),
        0 <= n <= plan_of(mounted, next).len(),
    ensures
        forall|i: int, j: int|
            0 <= i < j < candidates(plan_of(mounted, next).take(n)).len() ==> precedes(
                (#[trigger] candidates(plan_of(mounted, next).take(n))[i]).0.id,
                (#[trigger] candidates(plan_of(mounted, next).take(n))[j]).0.id,
            ),
    decreases n,
{
    let all = plan_of(mounted, next);
    let ids = all_ids(mounted, next);
    if n > 0 {
        lemma_candidates_ordered(mounted, next, n - 1);
        lemma_plan_parts(mounted, next, n - 1);
        let before = candidates(all.take(n - 1));
        let out = candidates(all.take(n));
        let id = ids[n - 1];
        assert(all.take(n).drop_last() =~= all.take(n - 1));
        assert(all.take(n).last() == (id, decision(mounted, next, id)));
        lemma_position(next, id);
        assert forall|i: int, j: int| 0 <= i < j < out.len() implies precedes(
            (#[trigger] out[i]).0.id,
            (#[trigger] out[j]).0.id,
        ) by {
            if j < before.len() {
                assert(out[i] == before[i] && out[j] == before[j]);
            } else {
                assert(out[i] == before[i]);
                assert(among(ids, n - 1, before[i].0.id));
                let a = choose|a: int| 0 <= a < n - 1 && #[trigger] ids[a] == before[i].0.id;
                assert(precedes(ids[a], ids[n - 1]));
            }
        }
    }
}

proof fn lemma_entry_reflexive(row: EntryView)
    ensures
        same_entry(row, row),
{
    if let Some(config) = row.config {
        lemma_same_json_reflexive(config);
    }
}

/// Reconciling with the tree that is mounted already touches nothing: where
/// what is mounted is what the tree says, every row is kept, and nothing is
/// disposed, registered or removed.
pub proof fn law_same_tree_keeps_everything(mounted: MountedRows, next: Seq<EntryView>)
    requires
        in_line(mounted),
        by_id(next),
        forall|id: Seq<char>| #[trigger] found(mounted, id) is Some <==> mountable(next, id),
        forall|id: Seq<char>| #[trigger]
            found(mounted, id) matches Some(m) ==> same_entry(
                m.options,
                next[position(next, id)->0],
            ),
    ensures
        doomed(plan_of(mounted, next)).len() == 0,
        candidates(plan_of(mounted, next)).len() == 0,
        removals(plan_of(mounted, next)).len() == 0,
        kept_in(plan_of(mounted, next)) == next.len(),
{
    let actions = plan_of(mounted, next);
    let ids = all_ids(mounted, next);
    let n = actions.len() as int;
    law_plans_are_ordered_by_id(mounted, next);
    lemma_plan_parts(mounted, next, n);
    assert(actions.take(n) =~= actions);
    assert forall|i: int| 0 <= i < n implies decision(mounted, next, #[trigger] ids[i]) is Keep by {
        assert(ids.contains(ids[i]));
        assert(found(mounted, ids[i]) is Some <==> mountable(next, ids[i]));
    }
    assert forall|i: int| 0 <= i < mounted.len() implies position(
        next,
        (#[trigger] mounted[i]).0,
    ) is Some by {
        lemma_found_at(mounted, i);
        assert(found(mounted, mounted[i].0) is Some);
    }
    lemma_only_rows(mounted, next);
}

proof fn lemma_only_rows(mounted: MountedRows, next: Seq<EntryView>)
    requires
        in_line(mounted),
        forall|i: int|
            0 <= i < mounted.len() ==> position(next, (#[trigger] mounted[i]).0) is Some,
    ensures
        all_ids(mounted, next) == row_ids(next),
    decreases mounted.len(),
{
    if mounted.len() > 0 {
        let front = mounted.drop_last();
        assert forall|i: int| 0 <= i < front.len() implies position(
            next,
            (#[trigger] front[i]).0,
        ) is Some by {
            assert(front[i] == mounted[i]);
        }
        assert(mounted[mounted.len() - 1] == mounted.last());
        assert(in_line(front)) by {
            assert forall|i: int, j: int| 0 <= i < j < front.len() implies precedes(
                (#[trigger] front[i]).0,
                (#[trigger] front[j]).0,
            ) by {
                assert(precedes(mounted[i].0, mounted[j].0));
            }
        }
        lemma_only_rows(front, next);
    }
}

/// Reloading is stable: after a pass that went through, another one with the
/// same tree touches nothing.
pub proof fn law_reloading_twice_changes_nothing(
    mounted: MountedRows,
    next: Seq<EntryView>,
    first: int,
)
    requires
        in_line(mounted),
        by_id(next),
    ensures
        ({
            let again = plan_of(mounted_after(mounted, next, first), next);
            &&& doomed(again).len() == 0
            &&& candidates(again).len() == 0
            &&& removals(again).len() == 0
            &&& kept_in(again) == next.len()
        }),
{
    let after = mounted_after(mounted, next, first);
    assert forall|id: Seq<char>| #[trigger]
        found(after, id) is Some <==> mountable(next, id) by {
        law_passes_mount_what_the_tree_says(mounted, next, first, id);
    }
    assert forall|id: Seq<char>| #[trigger] found(after, id) matches Some(m) implies same_entry(
        found(after, id)->0.options,
        next[position(next, id)->0],
    ) by {
        law_passes_mount_what_the_tree_says(mounted, next, first, id);
    }
    law_passes_mount_what_the_tree_says(mounted, next, first, Seq::empty());
    law_same_tree_keeps_everything(after, next);
}

/// Untouched entries keep running: a pass leaves every fiber exactly as it
/// was that does not depend, directly or by way of others, on what the pass
/// replaces or removes; a plugin that was still waiting may have started.
pub proof fn law_untouched_fibers_keep_running(
    k: KernelView,
    k2: KernelView,
    mounted: MountedRows,
    mounted2: MountedRows,
    next: Seq<EntryView>,
    built: Seq<Result<FnPlugin, String>>,
    pass: Pass,
    going: spec_fn(FiberId) -> bool,
    id: FiberId,
)
    requires
        kernel_ok(k),
        k.fibers.len() + built.len() <= u32::MAX,
        passed(k, k2, mounted, mounted2, plan_of(mounted, next), built, Ok(pass)),
        self_contained(k, going),
        forall|i: int|
            0 <= i < doomed(plan_of(mounted, next)).len() ==> going(
                #[trigger] doomed(plan_of(mounted, next))[i],
            ),
        id.0 < k.fibers.len(),
        !going(id),
    ensures
        id.0 < k2.fibers.len(),
        k2.fibers[id.0 as int] == k.fibers[id.0 as int] || k.fibers[id.0 as int].state is Pending
            && k2.fibers[id.0 as int] == started(k.fibers[id.0 as int]),
{
    let actions = plan_of(mounted, next);
    let (mid, steps) = choose|mid: KernelView, steps: Seq<Step>| #[trigger]
        disconnected(k, mid, doomed(actions), steps) && batched(
            mid,
            k2,
            built_views(built),
            pass.started@,
        );
    law_bystanders_survive(k, mid, doomed(actions), steps, going);
    assert(FiberId(id.0 as int as u32) == id);
    assert(mid.fibers[id.0 as int] == k.fibers[id.0 as int]);
    let plugins = built_views(built);
    let queued = with_plugins(mid, root_ctx(), plugins);
    lemma_with_plugins(mid, root_ctx(), plugins);
    lemma_satisfied_ids(queued);
    lemma_start_all(queued, pass.started@);
    assert(queued.fibers[id.0 as int] == mid.fibers[id.0 as int]);
    if pass.started@.contains(id) {
        assert(queued.pending.contains(id));
    }
}

// ---- repair ----

pub proof fn lemma_dead_members(mounted: MountedRows, k: KernelView, id: Seq<char>)
    requires
        in_line(mounted),
        forall|i: int|
            0 <= i < mounted.len() ==> (#[trigger] mounted[i]).1.options.id == mounted[i].0,
    ensures
        found(mounted, id) matches Some(m) ==> m.fiber.0 < k.fibers.len()
            && k.fibers[m.fiber.0 as int].state is Disposed ==> exists|i: int|
            0 <= i < dead(mounted, k).len() && (#[trigger] dead(mounted, k)[i]).0.id == id,
    decreases mounted.len(),
{
    if mounted.len() > 0 {
        let front = mounted.drop_last();
        assert forall|i: int| 0 <= i < front.len() implies (#[trigger] front[i]).1.options.id
            == front[i].0 by {
            assert(front[i] == mounted[i]);
        }
        assert(in_line(front)) by {
            assert forall|i: int, j: int| 0 <= i < j < front.len() implies precedes(
                (#[trigger] front[i]).0,
                (#[trigger] front[j]).0,
            ) by {
                assert(precedes(mounted[i].0, mounted[j].0));
            }
        }
        lemma_dead_members(front, k, id);
        let before = dead(front, k);
        let out = dead(mounted, k);
        assert(mounted[mounted.len() - 1] == mounted.last());
        if let Some(m) = found(mounted, id) {
            if m.fiber.0 < k.fibers.len() && k.fibers[m.fiber.0 as int].state is Disposed {
                if mounted.last().0 == id {
                    assert(out[out.len() - 1].0.id == id);
                } else {
                    let i = choose|i: int|
                        0 <= i < before.len() && (#[trigger] before[i]).0.id == id;
                    assert(out[i] == before[i]);
                }
            }
        }
    }
}

proof fn lemma_none_dead(mounted: MountedRows, k: KernelView)
    requires
        forall|i: int|
            0 <= i < mounted.len() ==> {
                let fiber = (#[trigger] mounted[i]).1.fiber;
                fiber.0 < k.fibers.len() ==> !(k.fibers[fiber.0 as int].state is Disposed)
            },
    ensures
        dead(mounted, k).len() == 0,
    decreases mounted.len(),
{
    if mounted.len() > 0 {
        let front = mounted.drop_last();
        assert forall|i: int| 0 <= i < front.len() implies ({
            let fiber = (#[trigger] front[i]).1.fiber;
            fiber.0 < k.fibers.len() ==> !(k.fibers[fiber.0 as int].state is Disposed)
        }) by {
            assert(front[i] == mounted[i]);
        }
        lemma_none_dead(front, k);
        assert(mounted[mounted.len() - 1] == mounted.last());
    }
}

/// One round of repair is enough: while the root is in use, no entry is left
/// on a disposed fiber once those that were have been registered again.
pub proof fn law_repair_leaves_nothing_dead(
    mounted: MountedRows,
    k: KernelView,
    k2: KernelView,
    plugins: Seq<PluginView>,
    begun: Seq<FiberId>,
)
    requires
        kernel_ok(k),
        is_active(k, FiberId(0)),
        in_line(mounted),
        forall|i: int|
            0 <= i < mounted.len() ==> (#[trigger] mounted[i]).1.options.id == mounted[i].0
                && mounted[i].1.fiber.0 < k.fibers.len(),
        plugins.len() == dead(mounted, k).len(),
        k.fibers.len() + plugins.len() <= u32::MAX,
        batched(k, k2, plugins, begun),
    ensures
        dead(with_entries(mounted, dead(mounted, k), k.fibers.len() as int), k2).len() == 0,
{
    let first = k.fibers.len() as int;
    let entries = dead(mounted, k);
    let after = with_entries(mounted, entries, first);
    let queued = with_plugins(k, root_ctx(), plugins);
    lemma_with_plugins(k, root_ctx(), plugins);
    lemma_satisfied_ids(queued);
    lemma_start_all(queued, begun);
    lemma_with_entries(mounted, entries, first, Seq::empty());
    assert forall|i: int| 0 <= i < after.len() implies ({
        let fiber = (#[trigger] after[i]).1.fiber;
        fiber.0 < k2.fibers.len() ==> !(k2.fibers[fiber.0 as int].state is Disposed)
    }) by {
        let id = after[i].0;
        let m = after[i].1;
        lemma_found_at(after, i);
        lemma_with_entries(mounted, entries, first, id);
        lemma_dead_members(mounted, k, id);
        let f = m.fiber.0 as int;
        if f < k2.fibers.len() {
            let me = FiberId(f as u32);
            assert(k2.fibers[f] == (if begun.contains(me) {
                started(queued.fibers[f])
            } else {
                queued.fibers[f]
            }));
            if found(mounted, id) == Some(m) && (forall|j: int|
                0 <= j < entries.len() ==> (#[trigger] entries[j]).0.id != id) {
                lemma_found(mounted, id);
                let a = choose|a: int| 0 <= a < mounted.len() && mounted[a] == (id, m);
                assert(mounted[a].1.fiber.0 < k.fibers.len());
                assert(queued.fibers[f] == k.fibers[f]);
                assert(!(k.fibers[f].state is Disposed));
            } else {
                let j = choose|j: int|
                    0 <= j < entries.len() && (#[trigger] entries[j]).0.id == id && m == (
                    MountedView { options: entries[j].0, fiber: FiberId((first + j) as u32) });
                lemma_pass_fibers(k, root_ctx(), plugins);
                assert(queued.fibers[k.fibers.len() + j].state is Pending);
            }
        }
    }
    lemma_none_dead(after, k2);
}

// ---- discovery ----

/// The first registration of a name.
pub open spec fn first_named(all: Seq<PluginRegistration>, name: Seq<char>) -> Option<
    PluginRegistration,
>
    decreases all.len(),
{
    if all.len() == 0 {
        None
    } else {
        match first_named(all.drop_last(), name) {
            Some(one) => Some(one),
            None => if all.last().name@ == name {
                Some(all.last())
            } else {
                None
            },
        }
    }
}

/// Discovery is deterministic: whatever order the registrations come in, they
/// are handed out in the order of their names, each name once, and of
/// several with a name the first stands.
pub proof fn law_discovery_is_ordered_by_name(all: Seq<PluginRegistration>, name: Seq<char>)
    ensures
        in_line(collected(all)),
        found(collected(all), name) == first_named(all, name),
    decreases all.len(),
{
    if all.len() > 0 {
        let front = all.drop_last();
        let last = all.last();
        law_discovery_is_ordered_by_name(front, name);
        law_discovery_is_ordered_by_name(front, last.name@);
        lemma_shelved(collected(front), last.name@, last);
        assert(found(shelved(collected(front), last.name@, last), name) == (if name
            == last.name@ {
            Some(last)
        } else {
            found(collected(front), name)
        }));
    }
}

// ---- the report ----

/// Adding what comes behind all that is there keeps texts in order.
pub proof fn lemma_ordered_push(texts: Seq<Seq<char>>, text: Seq<char>)
    requires
        strictly_ordered(texts),
        forall|x: Seq<char>| #[trigger] texts.contains(x) ==> precedes(x, text),
    ensures
        strictly_ordered(texts.push(text)),
        forall|x: Seq<char>| #[trigger]
            texts.push(text).contains(x) <==> texts.contains(x) || x == text,
{
    let out = texts.push(text);
    assert forall|i: int, j: int| 0 <= i < j < out.len() implies precedes(
        #[trigger] out[i],
        #[trigger] out[j],
    ) by {
        assert(texts.contains(texts[i]));
    }
    assert forall|x: Seq<char>| #[trigger] out.contains(x) <==> texts.contains(x) || x == text by {
        lemma_push_contains(texts, text, x);
    }
}

/// What the first `n` actions of a plan create, replace and remove.
pub proof fn lemma_report_parts(mounted: MountedRows, next: Seq<EntryView>, n: int)
    requires
        strictly_ordered(all_ids(mounted, next)),
        0 <= n <= plan_of(mounted, next).len(),
    ensures
        ({
            let entries = candidates(plan_of(mounted, next).take(n));
            let removed = removals(plan_of(mounted, next).take(n));
            let ids = all_ids(mounted, next);
            &&& strictly_ordered(ids_with(entries, false))
            &&& strictly_ordered(ids_with(entries, true))
            &&& strictly_ordered(removed)
            &&& forall|id: Seq<char>| #[trigger]
                ids_with(entries, false).contains(id) <==> among(ids, n, id) && decision(
                    mounted,
                    next,
                    id,
                ) is Create
            &&& forall|id: Seq<char>| #[trigger]
                ids_with(entries, true).contains(id) <==> among(ids, n, id) && decision(
                    mounted,
                    next,
                    id,
                ) is Replace
            &&& forall|id: Seq<char>| #[trigger]
                removed.contains(id) <==> among(ids, n, id) && decision(mounted, next, id)
                    is Remove
        }),
    decreases n,
{
    let all = plan_of(mounted, next);
    let ids = all_ids(mounted, next);
    if n > 0 {
        lemma_report_parts(mounted, next, n - 1);
        let before = all.take(n - 1);
        let actions = all.take(n);
        let id = ids[n - 1];
        assert(actions.drop_last() =~= before);
        assert(actions.last() == (id, decision(mounted, next, id)));
        lemma_position(next, id);
        assert forall|x: Seq<char>| #[trigger] among(ids, n, x) <==> among(ids, n - 1, x) || x
            == id by {
            if among(ids, n, x) {
                let i = choose|i: int| 0 <= i < n && #[trigger] ids[i] == x;
                if i < n - 1 {
                    assert(among(ids, n - 1, x));
                }
            }
            if among(ids, n - 1, x) {
                let i = choose|i: int| 0 <= i < n - 1 && #[trigger] ids[i] == x;
                assert(ids[i] == x);
            }
            if x == id {
                assert(ids[n - 1] == x);
            }
        }
        assert forall|x: Seq<char>| #[trigger] among(ids, n - 1, x) implies precedes(x, id) by {
            let i = choose|i: int| 0 <= i < n - 1 && #[trigger] ids[i] == x;
            assert(precedes(ids[i], ids[n - 1]));
        }
        let done = candidates(before);
        let entries = candidates(actions);
        match decision(mounted, next, id) {
            ActionView::Create(row) => {
                assert(entries.drop_last() =~= done);
                lemma_ordered_push(ids_with(done, false), id);
            },
            ActionView::Replace(row, _) => {
                assert(entries.drop_last() =~= done);
                lemma_ordered_push(ids_with(done, true), id);
            },
            ActionView::Remove(_) => {
                lemma_ordered_push(removals(before), id);
            },
            ActionView::Keep => {},
        }
    }
}

/// A report names what a pass created, updated and removed, each in id order
/// and no entry twice: created is what the tree mounts and was not mounted,
/// updated what is mounted under other options, removed what was mounted and
/// the tree does not mount.
pub proof fn law_reports_say_what_changed(mounted: MountedRows, next: Seq<EntryView>)
    requires
        in_line(mounted),
        by_id(next),
    ensures
        ({
            let report = fresh_report(plan_of(mounted, next));
            &&& strictly_ordered(report.created)
            &&& strictly_ordered(report.updated)
            &&& strictly_ordered(report.removed)
            &&& forall|id: Seq<char>| #[trigger]
                report.created.contains(id) <==> mountable(next, id) && found(mounted, id) is None
            &&& forall|id: Seq<char>| #[trigger]
                report.updated.contains(id) <==> mountable(next, id) && (found(
                    mounted,
                    id,
                ) matches Some(m) && !same_entry(m.options, next[position(next, id)->0]))
            &&& forall|id: Seq<char>| #[trigger]
                report.removed.contains(id) <==> !mountable(next, id) && found(mounted, id) is Some
            &&& forall|id: Seq<char>| #[trigger]
                report.created.contains(id) ==> !report.updated.contains(id)
                    && !report.removed.contains(id)
            &&& forall|id: Seq<char>| #[trigger]
                report.updated.contains(id) ==> !report.removed.contains(id)
        }),
{
    let actions = plan_of(mounted, next);
    let ids = all_ids(mounted, next);
    let n = actions.len() as int;
    law_plans_are_ordered_by_id(mounted, next);
    lemma_report_parts(mounted, next, n);
    assert(actions.take(n) =~= actions);
    assert forall|id: Seq<char>| #[trigger] among(ids, n, id) <==> found(mounted, id) is Some
        || position(next, id) is Some by {
        if among(ids, n, id) {
            let i = choose|i: int| 0 <= i < n && #[trigger] ids[i] == id;
            assert(ids.contains(ids[i]));
        }
        if ids.contains(id) {
            let i = choose|i: int| 0 <= i < ids.len() && ids[i] == id;
            assert(ids[i] == id);
        }
        assert(ids.contains(id) <==> found(mounted, id) is Some || position(next, id) is Some);
    }
}

// ---- building ----

/// An entry without a config is checked and built as one with an empty object
/// for a config.
pub proof fn law_absent_configs_are_empty_objects(
    kinds: Seq<(Seq<char>, EntryKind)>,
    row: EntryView,
    check: Option<String>,
)
    requires
        row.config is None,
    ensures
        ({
            let explicit = EntryView {
                config: Some(JsonView::Object(Seq::empty())),
                ..row
            };
            &&& config_for(row) == config_for(explicit)
            &&& entry_error(kinds, row, check) == entry_error(kinds, explicit, check)
            &&& found(kinds, row.plugin->0) == found(kinds, explicit.plugin->0)
        }),
{
}

} // verus!
