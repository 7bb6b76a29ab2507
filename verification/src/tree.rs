//! The declarative mounting tree: a set of uniquely identified entries.

use crate::document::{entry_fields, tree_json};
use crate::entries::{
    EntrySpec, EntryView, LoadError, LoadErrorView, cell, enabled, is_group, parse_row, row_entry,
    row_error,
};
use crate::json::{
    DEPTH, Json, JsonView, Object, arranged, canonical, field, in_key_order,
    lemma_key_order_canonical, lemma_key_order_nested, lemma_value_view, nested_within, parsed_json,
    read_json,
};
use crate::text::{
    lemma_precedes_irreflexive, lemma_precedes_total, lemma_precedes_transitive, precedes,
    same_text, text_before,
};
use vstd::prelude::*;

verus! {

/// Where the row with this id stands.
pub open spec fn position(rows: Seq<EntryView>, id: Seq<char>) -> Option<int>
    decreases rows.len(),
{
    if rows.len() == 0 {
        None
    } else if rows.last().id == id {
        Some(rows.len() - 1)
    } else {
        position(rows.drop_last(), id)
    }
}

/// A row that is found is one with that id.
pub proof fn lemma_position(rows: Seq<EntryView>, id: Seq<char>)
    ensures
        match position(rows, id) {
            Some(i) => 0 <= i < rows.len() && rows[i].id == id,
            None => forall|i: int| 0 <= i < rows.len() ==> (#[trigger] rows[i]).id != id,
        },
    decreases rows.len(),
{
    if rows.len() > 0 {
        let front = rows.drop_last();
        lemma_position(front, id);
        if rows.last().id != id && position(front, id) is None {
            assert forall|i: int| 0 <= i < rows.len() implies (#[trigger] rows[i]).id != id by {
                if i < front.len() {
                    assert(front[i].id != id);
                }
            }
        }
    }
}

/// Whether the rows are in the order of their ids, each id once.
pub open spec fn by_id(rows: Seq<EntryView>) -> bool {
    forall|i: int, j: int|
        0 <= i < j < rows.len() ==> precedes((#[trigger] rows[i]).id, (#[trigger] rows[j]).id)
}

/// The rows, which are in order, with one more: it goes to its place, and
/// takes that of a row with the same id.
pub open spec fn with_row(rows: Seq<EntryView>, row: EntryView) -> Seq<EntryView>
    decreases rows.len(),
{
    if rows.len() == 0 {
        rows.push(row)
    } else if rows.last().id == row.id {
        rows.drop_last().push(row)
    } else if precedes(row.id, rows.last().id) {
        with_row(rows.drop_last(), row).push(rows.last())
    } else {
        rows.push(row)
    }
}

/// What a row more comes to.
pub proof fn lemma_with_row(rows: Seq<EntryView>, row: EntryView)
    requires
        by_id(rows),
    ensures
        by_id(with_row(rows, row)),
        with_row(rows, row).contains(row),
        forall|x: EntryView| #[trigger]
            with_row(rows, row).contains(x) <==> x == row || (rows.contains(x) && x.id != row.id),
    decreases rows.len(),
{
    let out = with_row(rows, row);
    if rows.len() == 0 {
        assert(out[0] == row);
    } else {
        let front = rows.drop_last();
        let last = rows.last();
        assert(rows[rows.len() - 1] == last);
        assert forall|i: int, j: int| 0 <= i < j < front.len() implies precedes(
            (#[trigger] front[i]).id,
            (#[trigger] front[j]).id,
        ) by {
            assert(precedes(rows[i].id, rows[j].id));
        }
        assert forall|i: int| 0 <= i < front.len() implies precedes(
            (#[trigger] front[i]).id,
            last.id,
        ) by {
            assert(precedes(rows[i].id, rows[rows.len() - 1].id));
        }
        assert forall|x: EntryView| #[trigger] rows.contains(x) <==> front.contains(x) || x
            == last by {
            if rows.contains(x) {
                let a = choose|a: int| 0 <= a < rows.len() && rows[a] == x;
                if a < front.len() {
                    assert(front[a] == x);
                }
            }
            if front.contains(x) {
                let a = choose|a: int| 0 <= a < front.len() && front[a] == x;
                assert(rows[a] == x);
            }
        }
        assert forall|x: EntryView| #[trigger] front.contains(x) implies precedes(x.id, last.id)
            && x.id != last.id by {
            let a = choose|a: int| 0 <= a < front.len() && front[a] == x;
            assert(precedes(front[a].id, last.id));
            lemma_precedes_irreflexive(last.id);
        }
        if last.id == row.id {
            assert(out =~= front.push(row));
            assert forall|x: EntryView| #[trigger] out.contains(x) <==> front.contains(x) || x
                == row by {
                lemma_push_contains(front, row, x);
            }
        } else if precedes(row.id, last.id) {
            lemma_with_row(front, row);
            let mid = with_row(front, row);
            assert forall|x: EntryView| #[trigger] out.contains(x) <==> mid.contains(x) || x
                == last by {
                lemma_push_contains(mid, last, x);
            }
            assert forall|i: int, j: int| 0 <= i < j < out.len() implies precedes(
                (#[trigger] out[i]).id,
                (#[trigger] out[j]).id,
            ) by {
                if j < mid.len() {
                    assert(precedes(mid[i].id, mid[j].id));
                } else {
                    assert(mid.contains(mid[i]));
                }
            }
        } else {
            lemma_precedes_total(row.id, last.id);
            assert forall|x: EntryView| #[trigger] out.contains(x) <==> rows.contains(x) || x
                == row by {
                lemma_push_contains(rows, row, x);
            }
            assert forall|x: EntryView| #[trigger] rows.contains(x) implies precedes(
                x.id,
                row.id,
            ) && x.id != row.id by {
                if x != last {
                    lemma_precedes_transitive(x.id, last.id, row.id);
                }
                lemma_precedes_irreflexive(row.id);
            }
            assert forall|i: int, j: int| 0 <= i < j < out.len() implies precedes(
                (#[trigger] out[i]).id,
                (#[trigger] out[j]).id,
            ) by {
                if j < rows.len() {
                    assert(precedes(rows[i].id, rows[j].id));
                } else {
                    assert(rows.contains(rows[i]));
                }
            }
        }
    }
}

/// What one element more comes to.
pub proof fn lemma_push_contains<A>(s: Seq<A>, a: A, x: A)
    ensures
        s.push(a).contains(x) <==> s.contains(x) || x == a,
{
    let t = s.push(a);
    if t.contains(x) {
        let i = choose|i: int| 0 <= i < t.len() && t[i] == x;
        if i < s.len() {
            assert(s[i] == x);
        }
    }
    if s.contains(x) {
        let i = choose|i: int| 0 <= i < s.len() && s[i] == x;
        assert(t[i] == x);
    }
    assert(t[s.len() as int] == a);
}

// ---- the structure ----

/// The row that a row names as its parent.
pub open spec fn parent_row(rows: Seq<EntryView>, i: int) -> Option<int> {
    match rows[i].parent {
        Some(parent) => position(rows, parent),
        None => None,
    }
}

/// The row `n` steps up from a row, the row itself for zero.
pub open spec fn ancestor(rows: Seq<EntryView>, i: int, n: nat) -> Option<int>
    decreases n,
{
    if n == 0 {
        Some(i)
    } else {
        match ancestor(rows, i, (n - 1) as nat) {
            Some(j) => parent_row(rows, j),
            None => None,
        }
    }
}

/// Why the place of a row is wrong, if it is: its parent must be there, be a
/// group, and the way up must end.
pub open spec fn place_error(rows: Seq<EntryView>, i: int) -> Option<LoadErrorView> {
    match rows[i].parent {
        Some(parent) => match position(rows, parent) {
            Some(j) => if !is_group(rows[j]) {
                Some(LoadErrorView::ParentNotGroup(rows[i].id, parent))
            } else if ancestor(rows, i, rows.len()) is Some {
                Some(LoadErrorView::ParentCycle(rows[i].id))
            } else {
                None
            },
            None => Some(LoadErrorView::UnknownParent(rows[i].id, parent)),
        },
        None => None,
    }
}

/// What is wrong with the first of the first `n` rows whose place is wrong.
pub open spec fn structure_error(rows: Seq<EntryView>, n: nat) -> Option<LoadErrorView>
    decreases n,
{
    if n == 0 {
        None
    } else {
        match structure_error(rows, (n - 1) as nat) {
            Some(error) => Some(error),
            None => place_error(rows, n - 1),
        }
    }
}

/// Whether the row can have come from a document: it has an id, its config is
/// not `null` and in key order, and it has none if it is a group.
pub open spec fn row_ok(row: EntryView) -> bool {
    &&& row.id.len() > 0
    &&& is_group(row) ==> row.config is None
    &&& row.config matches Some(value) ==> !(value is Null) && canonical(value)
}

/// Whether the rows make a tree: in order, and each in its right place.
pub open spec fn tree_ok(rows: Seq<EntryView>) -> bool {
    &&& by_id(rows)
    &&& structure_error(rows, rows.len()) is None
    &&& forall|i: int| 0 <= i < rows.len() ==> row_ok(#[trigger] rows[i])
}

/// Whether the row or one of the groups it is in is disabled.
pub open spec fn retired(rows: Seq<EntryView>, i: int) -> bool {
    exists|n: nat| #[trigger] ancestor(rows, i, n) matches Some(j) && !enabled(rows[j])
}

/// Whether the entry is mounted under this tree: it exists, is an entry (not
/// a group), and neither it nor any ancestor is disabled.
pub open spec fn mountable(rows: Seq<EntryView>, id: Seq<char>) -> bool {
    match position(rows, id) {
        Some(i) => !is_group(rows[i]) && !retired(rows, i),
        None => false,
    }
}

/// What the rows of a tree are.
pub open spec fn row_views(entries: Seq<EntrySpec>) -> Seq<EntryView> {
    entries.map_values(|e: EntrySpec| e@)
}

/// Where there is no structural error, no row is in a wrong place.
pub proof fn lemma_no_place_error(rows: Seq<EntryView>, n: nat, i: int)
    requires
        structure_error(rows, n) is None,
        0 <= i < n,
    ensures
        place_error(rows, i) is None,
    decreases n,
{
    if i < n - 1 {
        lemma_no_place_error(rows, (n - 1) as nat, i);
    }
}

/// The way up does not go on behind its end.
pub proof fn lemma_ancestor_ends(rows: Seq<EntryView>, i: int, n: nat, m: nat)
    requires
        n <= m,
        ancestor(rows, i, n) is None,
    ensures
        ancestor(rows, i, m) is None,
    decreases m,
{
    if n < m {
        lemma_ancestor_ends(rows, i, n, (m - 1) as nat);
    }
}

/// An ancestor is a row.
pub proof fn lemma_ancestor_row(rows: Seq<EntryView>, i: int, n: nat)
    requires
        0 <= i < rows.len(),
    ensures
        ancestor(rows, i, n) matches Some(j) ==> 0 <= j < rows.len(),
    decreases n,
{
    if n > 0 {
        lemma_ancestor_row(rows, i, (n - 1) as nat);
        if let Some(j) = ancestor(rows, i, (n - 1) as nat) {
            if let Some(parent) = rows[j].parent {
                lemma_position(rows, parent);
            }
        }
    }
}

/// In a tree the way up from a row ends within as many steps as there are
/// rows.
pub proof fn lemma_way_up_ends(rows: Seq<EntryView>, i: int)
    requires
        structure_error(rows, rows.len()) is None,
        0 <= i < rows.len(),
    ensures
        ancestor(rows, i, rows.len()) is None,
{
    lemma_no_place_error(rows, rows.len(), i);
    if rows[i].parent is None {
        assert(ancestor(rows, i, 0) == Some(i));
        assert(ancestor(rows, i, 1) is None);
        lemma_ancestor_ends(rows, i, 1, rows.len());
    }
}

/// The declarative mounting tree: a set of uniquely identified entries.
///
/// Entries are kept sorted by id so mounts and reloads are deterministic.
#[derive(Debug)]
pub struct EntryTree {
    entries: Vec<EntrySpec>,
}

impl View for EntryTree {
    type V = Seq<EntryView>;

    closed spec fn view(&self) -> Seq<EntryView> {
        row_views(self.entries@)
    }
}

/// The rows of the items, in order of their ids, or why they are refused: the
/// first item that is no row or has an id that was there before.
pub open spec fn gathered(items: Seq<JsonView>) -> Result<Seq<EntryView>, LoadErrorView>
    decreases items.len(),
{
    if items.len() == 0 {
        Ok(Seq::empty())
    } else {
        match gathered(items.drop_last()) {
            Ok(rows) => match row_error(items.last()) {
                Some(error) => Err(error),
                None => {
                    let row = row_entry(items.last());
                    if position(rows, row.id) is Some {
                        Err(LoadErrorView::DuplicateId(row.id))
                    } else {
                        Ok(with_row(rows, row))
                    }
                },
            },
            Err(error) => Err(error),
        }
    }
}

/// The rows overridden by the items, by id, or why they are refused.
pub open spec fn overridden(rows: Seq<EntryView>, items: Seq<JsonView>) -> Result<
    Seq<EntryView>,
    LoadErrorView,
>
    decreases items.len(),
{
    if items.len() == 0 {
        Ok(rows)
    } else {
        match overridden(rows, items.drop_last()) {
            Ok(rows) => match row_error(items.last()) {
                Some(error) => Err(error),
                None => Ok(with_row(rows, row_entry(items.last()))),
            },
            Err(error) => Err(error),
        }
    }
}

/// The rows of stacked layers, later layers overriding earlier ones row by
/// row by id.
pub open spec fn stacked(layers: Seq<JsonView>) -> Result<Seq<EntryView>, LoadErrorView>
    decreases layers.len(),
{
    if layers.len() == 0 {
        Ok(Seq::empty())
    } else {
        match stacked(layers.drop_last()) {
            Ok(rows) => match layers.last() {
                JsonView::Array(items) => overridden(rows, items),
                _ => Err(LoadErrorView::NotALayer),
            },
            Err(error) => Err(error),
        }
    }
}

/// Rows, if their structure is right.
pub open spec fn structured(rows: Result<Seq<EntryView>, LoadErrorView>) -> Result<
    Seq<EntryView>,
    LoadErrorView,
> {
    match rows {
        Ok(rows) => match structure_error(rows, rows.len()) {
            Some(error) => Err(error),
            None => Ok(rows),
        },
        Err(error) => Err(error),
    }
}

/// What a value means as an entry tree.
pub open spec fn tree_of(value: JsonView) -> Result<Seq<EntryView>, LoadErrorView> {
    match value {
        JsonView::Array(items) => structured(gathered(items)),
        _ => Err(LoadErrorView::NotATree),
    }
}

/// Whether a result is what it should be.
pub open spec fn tree_result(
    r: Result<EntryTree, LoadError>,
    meant: Result<Seq<EntryView>, LoadErrorView>,
) -> bool {
    match r {
        Ok(tree) => meant == Ok::<Seq<EntryView>, LoadErrorView>(tree@),
        Err(error) => meant == Err::<Seq<EntryView>, LoadErrorView>(error@),
    }
}

/// Whether the config of every row is nested within `n`.
pub open spec fn configs_within(rows: Seq<EntryView>, n: nat) -> bool {
    forall|i: int|
        0 <= i < rows.len() ==> ((#[trigger] rows[i]).config matches Some(value) ==> nested_within(
            value,
            n,
        ))
}

proof fn lemma_field_nested(fields: Seq<(Seq<char>, JsonView)>, name: Seq<char>, n: nat)
    requires
        forall|i: int| 0 <= i < fields.len() ==> nested_within((#[trigger] fields[i]).1, n),
    ensures
        field(fields, name) matches Some(value) ==> nested_within(value, n),
    decreases fields.len(),
{
    if fields.len() > 0 && fields[0].0 != name {
        let rest = fields.drop_first();
        assert forall|i: int| 0 <= i < rest.len() implies nested_within(
            (#[trigger] rest[i]).1,
            n,
        ) by {
            assert(rest[i] == fields[i + 1]);
        }
        lemma_field_nested(rest, name, n);
    }
}

proof fn lemma_gathered_within(items: Seq<JsonView>, n: nat)
    requires
        forall|i: int| 0 <= i < items.len() ==> nested_within(#[trigger] items[i], n + 1),
    ensures
        gathered(items) matches Ok(rows) ==> by_id(rows) && configs_within(rows, n),
    decreases items.len(),
{
    if items.len() > 0 {
        let front = items.drop_last();
        assert forall|i: int| 0 <= i < front.len() implies nested_within(
            #[trigger] front[i],
            n + 1,
        ) by {
            assert(front[i] == items[i]);
        }
        lemma_gathered_within(front, n);
        if gathered(items) is Ok {
            let item = items[items.len() - 1];
            let rows = gathered(front)->Ok_0;
            let row = row_entry(item);
            match item {
                JsonView::Object(fields) => {
                    lemma_field_nested(fields, "config"@, n);
                },
                JsonView::Array(cells) => {
                    if cells.len() > 3 {
                        assert(nested_within(cells[3], n));
                    }
                },
                _ => {},
            }
            lemma_with_row(rows, row);
            let out = with_row(rows, row);
            assert forall|i: int| 0 <= i < out.len() implies ((
            #[trigger] out[i]).config matches Some(value) ==> nested_within(value, n)) by {
                assert(out.contains(out[i]));
                if out[i] != row {
                    let a = choose|a: int| 0 <= a < rows.len() && rows[a] == out[i];
                    assert(rows[a] == out[i]);
                }
            }
        }
    }
}

/// The value of a tree is nested no deeper than the value it was read from.
proof fn lemma_tree_nested(value: JsonView, n: nat)
    requires
        nested_within(value, n),
        n >= 2,
    ensures
        tree_of(value) matches Ok(rows) ==> nested_within(tree_json(rows), n),
{
    if let JsonView::Array(items) = value {
        assert forall|i: int| 0 <= i < items.len() implies nested_within(
            #[trigger] items[i],
            ((n - 2) as nat) + 1,
        ) by {
            assert(nested_within(items[i], (n - 1) as nat));
        }
        lemma_gathered_within(items, (n - 2) as nat);
        if let Ok(rows) = tree_of(value) {
            let out = tree_json(rows)->Array_0;
            assert forall|i: int| 0 <= i < out.len() implies nested_within(
                #[trigger] out[i],
                (n - 1) as nat,
            ) by {
                let fields = entry_fields(rows[i]);
                assert(out[i] == JsonView::Object(fields));
                assert(rows[i].config matches Some(config) ==> nested_within(
                    config,
                    (n - 2) as nat,
                ));
                assert forall|j: int| 0 <= j < fields.len() implies nested_within(
                    (#[trigger] fields[j]).1,
                    (n - 2) as nat,
                ) by {}
            }
        }
    }
}

/// What a row read from a value in key order has.
proof fn lemma_row_ok(row: JsonView)
    requires
        canonical(row),
        row_error(row) is None,
    ensures
        row_ok(row_entry(row)),
{
    let found = cell(row, "config"@, 3);
    if let Some(value) = found {
        match row {
            JsonView::Object(fields) => {
                lemma_field_canonical(fields, "config"@);
            },
            JsonView::Array(items) => {
                assert(canonical(items[3]));
            },
            _ => {},
        }
    }
}

proof fn lemma_field_canonical(fields: Seq<(Seq<char>, JsonView)>, name: Seq<char>)
    requires
        forall|i: int| 0 <= i < fields.len() ==> canonical((#[trigger] fields[i]).1),
    ensures
        field(fields, name) matches Some(value) ==> canonical(value),
    decreases fields.len(),
{
    if fields.len() > 0 && fields[0].0 != name {
        let rest = fields.drop_first();
        assert forall|i: int| 0 <= i < rest.len() implies canonical((#[trigger] rest[i]).1) by {
            assert(rest[i] == fields[i + 1]);
        }
        lemma_field_canonical(rest, name);
    }
}

/// Whether every row can have come from a document.
pub open spec fn rows_ok(rows: Seq<EntryView>) -> bool {
    forall|i: int| 0 <= i < rows.len() ==> row_ok(#[trigger] rows[i])
}

proof fn lemma_rows_ok(rows: Seq<EntryView>, row: EntryView)
    requires
        by_id(rows),
        rows_ok(rows),
        row_ok(row),
    ensures
        rows_ok(with_row(rows, row)),
{
    lemma_with_row(rows, row);
    let out = with_row(rows, row);
    assert forall|i: int| 0 <= i < out.len() implies row_ok(#[trigger] out[i]) by {
        assert(out.contains(out[i]));
        if out[i] != row {
            let a = choose|a: int| 0 <= a < rows.len() && rows[a] == out[i];
            assert(row_ok(rows[a]));
        }
    }
}

impl EntryTree {
    /// The tree is in order, and each row in its right place.
    pub open spec fn wf(&self) -> bool {
        tree_ok(self@)
    }

    /// A tree without entries.
    pub fn new() -> (r: Self)
        ensures
            r.wf(),
            r@ == Seq::<EntryView>::empty(),
    {
        let r = EntryTree { entries: Vec::new() };
        assert(r@ =~= Seq::<EntryView>::empty());
        r
    }

    /// The row with this id.
    fn find(&self, id: &str) -> (r: Option<usize>)
        requires
            by_id(self@),
        ensures
            match r {
                Some(i) => position(self@, id@) == Some(i as int) && i < self@.len(),
                None => position(self@, id@) is None,
            },
    {
        let ghost rows = self@;
        let mut i: usize = self.entries.len();
        assert(rows.take(i as int) =~= rows);
        while i > 0
            invariant
                i <= self.entries@.len(),
                rows == self@,
                rows.len() == self.entries@.len(),
                position(rows.take(i as int), id@) == position(rows, id@),
            decreases i,
        {
            assert(rows.take(i as int).last() == self.entries@[i - 1]@);
            assert(rows.take(i as int).drop_last() =~= rows.take(i - 1));
            if same_text(self.entries[i - 1].id.as_str(), id) {
                return Some(i - 1);
            }
            i = i - 1;
        }
        None
    }

    /// Puts a row in its place; a row with the same id gives way.
    fn put(&mut self, row: EntrySpec)
        requires
            by_id(old(self)@),
        ensures
            by_id(final(self)@),
            final(self)@ == with_row(old(self)@, row@),
    {
        let ghost all = self@;
        let ghost e = row@;
        proof {
            lemma_with_row(all, e);
        }
        let mut i: usize = self.entries.len();
        proof {
            assert(all.take(i as int) =~= all);
            assert(with_row(all.take(i as int), e) + all.skip(i as int) =~= with_row(all, e));
        }
        while i > 0 && text_before(row.id.as_str(), self.entries[i - 1].id.as_str())
            invariant
                i <= self.entries@.len(),
                all == self@,
                all.len() == self.entries@.len(),
                e == row@,
                with_row(all.take(i as int), e) + all.skip(i as int) == with_row(all, e),
            decreases i,
        {
            proof {
                let t = all.take(i as int);
                assert(t.last() == self.entries@[i - 1]@);
                assert(t.drop_last() =~= all.take(i - 1));
                lemma_precedes_irreflexive(e.id);
                assert(with_row(all.take(i - 1), e) + all.skip(i - 1) =~= with_row(t, e)
                    + all.skip(i as int));
            }
            i = i - 1;
        }
        let ghost t = all.take(i as int);
        if i > 0 && self.entries[i - 1].id == row.id {
            proof {
                assert(t.last() == self.entries@[i - 1]@);
                assert(with_row(t, e) == t.drop_last().push(e));
                assert(t.drop_last().push(e) + all.skip(i as int) =~= all.update(i - 1, e));
            }
            self.entries[i - 1] = row;
            assert(self@ =~= all.update(i - 1, e));
        } else {
            proof {
                if i > 0 {
                    assert(t.last() == self.entries@[i - 1]@);
                }
                assert(with_row(t, e) == t.push(e));
                assert(t.push(e) + all.skip(i as int) =~= all.insert(i as int, e));
            }
            self.entries.insert(i, row);
            assert(self@ =~= all.insert(i as int, e));
        }
    }

    /// Parents must exist, be groups, and form no cycles.
    fn validate_structure(&self) -> (r: Result<(), LoadError>)
        requires
            by_id(self@),
        ensures
            match r {
                Ok(()) => structure_error(self@, self@.len()) is None,
                Err(error) => structure_error(self@, self@.len()) == Some(error@),
            },
    {
        let ghost rows = self@;
        let mut i: usize = 0;
        while i < self.entries.len()
            invariant
                by_id(rows),
                rows == self@,
                rows.len() == self.entries@.len(),
                i <= self.entries@.len(),
                structure_error(rows, i as nat) is None,
            decreases self.entries@.len() - i,
        {
            assert(rows[i as int] == self.entries@[i as int]@);
            if let Some(error) = self.place_error(i) {
                proof {
                    lemma_first_error(rows, (i + 1) as nat, rows.len());
                }
                return Err(error);
            }
            i = i + 1;
        }
        Ok(())
    }

    /// Why the place of a row is wrong, if it is.
    fn place_error(&self, i: usize) -> (r: Option<LoadError>)
        requires
            by_id(self@),
            i < self@.len(),
        ensures
            match r {
                Some(error) => place_error(self@, i as int) == Some(error@),
                None => place_error(self@, i as int) is None,
            },
    {
        let ghost rows = self@;
        assert(rows[i as int] == self.entries@[i as int]@);
        let parent = match &self.entries[i].parent {
            Some(parent) => parent,
            None => {
                return None;
            },
        };
        let id = &self.entries[i].id;
        let at = match self.find(parent.as_str()) {
            Some(at) => at,
            None => {
                return Some(LoadError::UnknownParent(id.clone(), parent.clone()));
            },
        };
        assert(rows[at as int] == self.entries@[at as int]@);
        if !self.entries[at].is_group() {
            return Some(LoadError::ParentNotGroup(id.clone(), parent.clone()));
        }
        let mut seen: usize = 0;
        let mut cursor: usize = i;
        while seen < self.entries.len()
            invariant
                by_id(rows),
                rows == self@,
                rows.len() == self.entries@.len(),
                i < rows.len(),
                cursor < rows.len(),
                seen <= rows.len(),
                ancestor(rows, i as int, seen as nat) == Some(cursor as int),
                rows[i as int].parent is Some,
                position(rows, rows[i as int].parent->0) == Some(at as int),
                is_group(rows[at as int]),
            decreases rows.len() - seen,
        {
            assert(rows[cursor as int] == self.entries@[cursor as int]@);
            let next = match &self.entries[cursor].parent {
                Some(up) => self.find(up.as_str()),
                None => None,
            };
            match next {
                Some(up) => {
                    cursor = up;
                },
                None => {
                    proof {
                        assert(ancestor(rows, i as int, (seen + 1) as nat) is None);
                        lemma_ancestor_ends(
                            rows,
                            i as int,
                            (seen + 1) as nat,
                            rows.len(),
                        );
                    }
                    return None;
                },
            }
            seen = seen + 1;
        }
        Some(LoadError::ParentCycle(self.entries[i].id.clone()))
    }

    /// Builds a tree from a JSON array of entry rows, validating the
    /// structure: rows have their shape, ids are unique and non-empty,
    /// parents exist and are groups, parent chains are acyclic, groups carry
    /// no config. Kind and config validation happens on the loader, which
    /// owns the kinds.
    pub fn from_value(value: &Json) -> (r: Result<Self, LoadError>)
        ensures
            tree_result(r, tree_of(in_key_order(value@))),
            r matches Ok(tree) ==> {
                &&& tree.wf()
                &&& nested_within(value@, DEPTH as nat) ==> nested_within(
                    tree_json(tree@),
                    DEPTH as nat,
                )
            },
    {
        proof {
            lemma_key_order_canonical(value@);
            if nested_within(value@, DEPTH as nat) {
                lemma_key_order_nested(value@, DEPTH as nat);
                lemma_tree_nested(in_key_order(value@), DEPTH as nat);
            }
        }
        EntryTree::from_ordered(&arranged(value))
    }

    /// Builds a tree from a JSON array of entry rows with the fields of every
    /// object in order.
    fn from_ordered(value: &Json) -> (r: Result<Self, LoadError>)
        requires
            canonical(value@),
        ensures
            tree_result(r, tree_of(value@)),
            r matches Ok(tree) ==> tree.wf(),
    {
        proof {
            lemma_value_view(*value);
        }
        let items = match value {
            Json::Array(items) => items,
            _ => {
                return Err(LoadError::NotATree);
            },
        };
        let ghost all = value@->Array_0;
        let mut tree = EntryTree::new();
        let mut i: usize = 0;
        assert(all.take(0) =~= Seq::<JsonView>::empty());
        while i < items.len()
            invariant
                *value == Json::Array(*items),
                canonical(value@),
                all == value@->Array_0,
                value@ == JsonView::Array(all),
                all.len() == items@.len(),
                i <= items@.len(),
                by_id(tree@),
                rows_ok(tree@),
                gathered(all.take(i as int)) == Ok::<Seq<EntryView>, LoadErrorView>(tree@),
            decreases items@.len() - i,
        {
            proof {
                lemma_value_view(*value);
                assert(all.take(i + 1).drop_last() =~= all.take(i as int));
                assert(all.take(i + 1).last() == all[i as int]);
                assert(all[i as int] == items@[i as int]@);
                assert(canonical(all[i as int]));
            }
            let spec = match parse_row(&items[i]) {
                Ok(spec) => spec,
                Err(error) => {
                    proof {
                        lemma_gathered_stops(all, (i + 1) as int, all.len() as int);
                        assert(all.take(all.len() as int) =~= all);
                    }
                    return Err(error);
                },
            };
            if tree.find(spec.id.as_str()).is_some() {
                proof {
                    lemma_gathered_stops(all, (i + 1) as int, all.len() as int);
                    assert(all.take(all.len() as int) =~= all);
                }
                return Err(LoadError::DuplicateId(spec.id));
            }
            proof {
                lemma_row_ok(all[i as int]);
                lemma_rows_ok(tree@, spec@);
            }
            tree.put(spec);
            i = i + 1;
        }
        assert(all.take(i as int) =~= all);
        match tree.validate_structure() {
            Ok(()) => Ok(tree),
            Err(error) => Err(error),
        }
    }

    /// Builds a tree from a JSON document: an array of entry rows. A tree that
    /// was read can be written and read again.
    pub fn from_json_str(json: &str) -> (r: Result<Self, LoadError>)
        ensures
            tree_result(r, document_tree(json@)),
            r matches Ok(tree) ==> tree.wf() && nested_within(tree_json(tree@), DEPTH as nat),
    {
        match read_json(json) {
            Ok(value) => {
                proof {
                    lemma_tree_nested(value@, DEPTH as nat);
                }
                EntryTree::from_ordered(&value)
            },
            Err(reason) => Err(LoadError::InvalidDocument(reason)),
        }
    }

    /// Composes a tree out of stacked layers, later layers overriding earlier
    /// ones row by row by id. Every layer is a full array of entry rows;
    /// there is no field-level merge.
    pub fn compose(layers: &Vec<Json>) -> (r: Result<Self, LoadError>)
        ensures
            tree_result(r, structured(stacked(ordered_layers(layers@)))),
            r matches Ok(tree) ==> tree.wf(),
    {
        let mut ordered: Vec<Json> = Vec::new();
        let mut i: usize = 0;
        while i < layers.len()
            invariant
                i <= layers@.len(),
                ordered@.len() == i,
                forall|j: int|
                    0 <= j < i ==> (#[trigger] ordered@[j])@ == in_key_order(layers@[j]@),
            decreases layers@.len() - i,
        {
            ordered.push(arranged(&layers[i]));
            i = i + 1;
        }
        proof {
            assert(layer_views(ordered@) =~= ordered_layers(layers@));
            assert forall|j: int| 0 <= j < ordered@.len() implies canonical(
                (#[trigger] ordered@[j])@,
            ) by {
                lemma_key_order_canonical(layers@[j]@);
            }
        }
        EntryTree::stack_up(&ordered)
    }

    /// Composes a tree out of stacked layers with the fields of every object
    /// in order.
    fn stack_up(layers: &Vec<Json>) -> (r: Result<Self, LoadError>)
        requires
            forall|i: int| 0 <= i < layers@.len() ==> canonical((#[trigger] layers@[i])@),
        ensures
            tree_result(r, structured(stacked(layer_views(layers@)))),
            r matches Ok(tree) ==> tree.wf(),
    {
        let ghost all = layer_views(layers@);
        let mut tree = EntryTree::new();
        let mut n: usize = 0;
        assert(all.take(0) =~= Seq::<JsonView>::empty());
        while n < layers.len()
            invariant
                forall|i: int| 0 <= i < layers@.len() ==> canonical((#[trigger] layers@[i])@),
                all == layer_views(layers@),
                n <= layers@.len(),
                by_id(tree@),
                rows_ok(tree@),
                stacked(all.take(n as int)) == Ok::<Seq<EntryView>, LoadErrorView>(tree@),
            decreases layers@.len() - n,
        {
            proof {
                lemma_value_view(layers@[n as int]);
                assert(all.take(n + 1).drop_last() =~= all.take(n as int));
                assert(all.take(n + 1).last() == layers@[n as int]@);
            }
            let ghost before = tree@;
            let items = match &layers[n] {
                Json::Array(items) => items,
                _ => {
                    proof {
                        lemma_stacked_stops(all, (n + 1) as int, all.len() as int);
                        assert(all.take(all.len() as int) =~= all);
                    }
                    return Err(LoadError::NotALayer);
                },
            };
            let ghost rows = layers@[n as int]@->Array_0;
            let mut i: usize = 0;
            assert(rows.take(0) =~= Seq::<JsonView>::empty());
            assert(canonical(layers@[n as int]@));
            while i < items.len()
                invariant
                    n < layers@.len(),
                    all == layer_views(layers@),
                    layers@[n as int] == Json::Array(*items),
                    canonical(layers@[n as int]@),
                    rows == layers@[n as int]@->Array_0,
                    layers@[n as int]@ == JsonView::Array(rows),
                    rows.len() == items@.len(),
                    i <= items@.len(),
                    by_id(tree@),
                    rows_ok(tree@),
                    stacked(all.take(n as int)) == Ok::<Seq<EntryView>, LoadErrorView>(before),
                    all.take(n + 1).drop_last() == all.take(n as int),
                    all.take(n + 1).last() == layers@[n as int]@,
                    overridden(before, rows.take(i as int)) == Ok::<
                        Seq<EntryView>,
                        LoadErrorView,
                    >(tree@),
                decreases items@.len() - i,
            {
                proof {
                    lemma_value_view(layers@[n as int]);
                    assert(rows.take(i + 1).drop_last() =~= rows.take(i as int));
                    assert(rows.take(i + 1).last() == rows[i as int]);
                    assert(rows[i as int] == items@[i as int]@);
                    assert(canonical(rows[i as int]));
                }
                let spec = match parse_row(&items[i]) {
                    Ok(spec) => spec,
                    Err(error) => {
                        proof {
                            lemma_overridden_stops(
                                before,
                                rows,
                                (i + 1) as int,
                                rows.len() as int,
                            );
                            assert(rows.take(rows.len() as int) =~= rows);
                            lemma_stacked_stops(all, (n + 1) as int, all.len() as int);
                            assert(all.take(all.len() as int) =~= all);
                        }
                        return Err(error);
                    },
                };
                proof {
                    lemma_row_ok(rows[i as int]);
                    lemma_rows_ok(tree@, spec@);
                }
                tree.put(spec);
                i = i + 1;
            }
            assert(rows.take(i as int) =~= rows);
            n = n + 1;
        }
        assert(all.take(n as int) =~= all);
        match tree.validate_structure() {
            Ok(()) => Ok(tree),
            Err(error) => Err(error),
        }
    }

    /// The entries in id order.
    pub fn entries(&self) -> (r: &Vec<EntrySpec>)
        ensures
            row_views(r@) == self@,
    {
        &self.entries
    }

    /// Whether the entry is mounted under this tree: it exists, is an entry
    /// (not a group), and neither it nor any ancestor is disabled.
    pub fn effectively_enabled(&self, id: &str) -> (r: bool)
        requires
            self.wf(),
        ensures
            r == mountable(self@, id@),
    {
        match self.find(id) {
            Some(i) => {
                assert(self@[i as int] == self.entries@[i as int]@);
                !self.entries[i].is_group() && !self.disabled_up_the_chain(i)
            },
            None => false,
        }
    }

    /// Whether the row or one of the groups it is in is disabled.
    fn disabled_up_the_chain(&self, i: usize) -> (r: bool)
        requires
            self.wf(),
            i < self@.len(),
        ensures
            r == retired(self@, i as int),
    {
        let ghost rows = self@;
        let total = self.entries.len();
        let mut n: usize = 0;
        let mut cursor: usize = i;
        proof {
            lemma_way_up_ends(rows, i as int);
        }
        loop
            invariant
                total == rows.len(),
                by_id(rows),
                rows == self@,
                rows.len() == self.entries@.len(),
                i < rows.len(),
                cursor < rows.len(),
                n < rows.len(),
                ancestor(rows, i as int, n as nat) == Some(cursor as int),
                ancestor(rows, i as int, rows.len()) is None,
                forall|m: nat|
                    m < n && (#[trigger] ancestor(rows, i as int, m)) is Some ==> enabled(
                        rows[ancestor(rows, i as int, m)->0],
                    ),
            decreases rows.len() - n,
        {
            assert(rows[cursor as int] == self.entries@[cursor as int]@);
            if !self.entries[cursor].enabled() {
                return true;
            }
            let next = match &self.entries[cursor].parent {
                Some(up) => self.find(up.as_str()),
                None => None,
            };
            match next {
                Some(up) => {
                    proof {
                        if n + 1 == rows.len() {
                            assert(ancestor(rows, i as int, (n + 1) as nat) is Some);
                        }
                    }
                    cursor = up;
                    n = n + 1;
                },
                None => {
                    proof {
                        assert(ancestor(rows, i as int, (n + 1) as nat) is None);
                        assert forall|m: nat| (#[trigger] ancestor(rows, i as int, m))
                            is Some implies enabled(rows[ancestor(rows, i as int, m)->0]) by {
                            if m > n {
                                lemma_ancestor_ends(rows, i as int, (n + 1) as nat, m);
                            }
                        }
                    }
                    return false;
                },
            }
        }
    }

    /// The row with this id.
    pub fn get(&self, id: &str) -> (r: Option<&EntrySpec>)
        requires
            self.wf(),
        ensures
            match r {
                Some(row) => position(self@, id@) matches Some(i) && row@ == self@[i],
                None => position(self@, id@) is None,
            },
    {
        match self.find(id) {
            Some(i) => Some(&self.entries[i]),
            None => None,
        }
    }
}

/// The values of the layers.
pub open spec fn layer_views(layers: Seq<Json>) -> Seq<JsonView> {
    layers.map_values(|layer: Json| layer@)
}

/// The values of the layers, with the fields of every object in order.
pub open spec fn ordered_layers(layers: Seq<Json>) -> Seq<JsonView> {
    layers.map_values(|layer: Json| in_key_order(layer@))
}

/// What a document means as an entry tree.
pub open spec fn document_tree(text: Seq<char>) -> Result<Seq<EntryView>, LoadErrorView> {
    match parsed_json(text) {
        Ok(value) => tree_of(in_key_order(value)),
        Err(reason) => Err(LoadErrorView::InvalidDocument(reason)),
    }
}

proof fn lemma_first_error(rows: Seq<EntryView>, n: nat, m: nat)
    requires
        n <= m,
        structure_error(rows, n) is Some,
    ensures
        structure_error(rows, m) == structure_error(rows, n),
    decreases m,
{
    if n < m {
        lemma_first_error(rows, n, (m - 1) as nat);
    }
}

proof fn lemma_gathered_stops(items: Seq<JsonView>, n: int, m: int)
    requires
        0 <= n <= m <= items.len(),
        gathered(items.take(n)) is Err,
    ensures
        gathered(items.take(m)) == gathered(items.take(n)),
    decreases m,
{
    if n < m {
        assert(items.take(m).drop_last() =~= items.take(m - 1));
        lemma_gathered_stops(items, n, m - 1);
    }
}

proof fn lemma_overridden_stops(rows: Seq<EntryView>, items: Seq<JsonView>, n: int, m: int)
    requires
        0 <= n <= m <= items.len(),
        overridden(rows, items.take(n)) is Err,
    ensures
        overridden(rows, items.take(m)) == overridden(rows, items.take(n)),
    decreases m,
{
    if n < m {
        assert(items.take(m).drop_last() =~= items.take(m - 1));
        lemma_overridden_stops(rows, items, n, m - 1);
    }
}

proof fn lemma_stacked_stops(layers: Seq<JsonView>, n: int, m: int)
    requires
        0 <= n <= m <= layers.len(),
        stacked(layers.take(n)) is Err,
    ensures
        stacked(layers.take(m)) == stacked(layers.take(n)),
    decreases m,
{
    if n < m {
        assert(layers.take(m).drop_last() =~= layers.take(m - 1));
        lemma_stacked_stops(layers, n, m - 1);
    }
}

impl Clone for EntryTree {
    fn clone(&self) -> (r: Self)
        ensures
            r@ == self@,
    {
        let mut entries: Vec<EntrySpec> = Vec::new();
        let mut i: usize = 0;
        while i < self.entries.len()
            invariant
                i <= self.entries@.len(),
                entries@.len() == i,
                forall|j: int| 0 <= j < i ==> (#[trigger] entries@[j])@ == self.entries@[j]@,
            decreases self.entries@.len() - i,
        {
            entries.push(self.entries[i].copy());
            i = i + 1;
        }
        assert(row_views(entries@) =~= row_views(self.entries@));
        EntryTree { entries }
    }
}

impl Default for EntryTree {
    fn default() -> (r: Self)
        ensures
            r.wf(),
            r@ == Seq::<EntryView>::empty(),
    {
        EntryTree::new()
    }
}

} // verus!
