//! Writing a tree back to its document form.

use crate::entries::{EntrySpec, EntryView, LoadError, LoadErrorView, row_entry, row_error};
use crate::fiber::text_view;
use crate::json::{
    DEPTH, Json, JsonView, Object, ascending, distinct_names, field, in_key_order,
    lemma_canonical_distinct, lemma_key_order_same, lemma_value_view, lemma_with_field,
    nested_within, ordered_fields, printed_json, sorted_fields, with_field, write_json,
};
use crate::text::{in_order, lemma_precedes_irreflexive, lemma_precedes_transitive, precedes};
use crate::tree::{
    EntryTree, by_id, document_tree, gathered, lemma_position, lemma_push_contains, position,
    row_ok, row_views, tree_of, tree_ok, with_row,
};
use vstd::prelude::*;

verus! {

/// A field with a text, or nothing if there is none.
pub open spec fn text_field(name: Seq<char>, text: Option<Seq<char>>) -> Seq<(Seq<char>, JsonView)> {
    match text {
        Some(text) => seq![(name, JsonView::Text(text))],
        None => Seq::empty(),
    }
}

/// The fields of a row, in the order they are declared; omitted fields stay
/// omitted.
pub open spec fn entry_fields(row: EntryView) -> Seq<(Seq<char>, JsonView)> {
    seq![("id"@, JsonView::Text(row.id))] + text_field("plugin"@, row.plugin) + text_field(
        "parent"@,
        row.parent,
    ) + (match row.config {
        Some(value) => seq![("config"@, value)],
        None => Seq::empty(),
    }) + (match row.disabled {
        Some(disabled) => seq![("disabled"@, JsonView::Bool(disabled))],
        None => Seq::empty(),
    })
}

/// The value of a row.
pub open spec fn row_json(row: EntryView) -> JsonView {
    JsonView::Object(entry_fields(row))
}

/// The value of a tree: its rows in id order.
pub open spec fn tree_json(rows: Seq<EntryView>) -> JsonView {
    JsonView::Array(rows.map_values(|row: EntryView| row_json(row)))
}

/// What each of the fields is.
pub open spec fn pair_views(pairs: Seq<(String, Json)>) -> Seq<(Seq<char>, JsonView)> {
    pairs.map_values(|pair: (String, Json)| (pair.0@, pair.1@))
}

/// Adds a field.
fn push_field(fields: &mut Vec<(String, Json)>, name: &str, value: Json)
    ensures
        pair_views(final(fields)@) == pair_views(old(fields)@).push((name@, value@)),
{
    let pair = (name.to_owned(), value);
    fields.push(pair);
    assert(pair_views(fields@) =~= pair_views(old(fields)@).push((name@, value@)));
}

/// Adds a field with a text, if there is one.
fn push_text(fields: &mut Vec<(String, Json)>, name: &str, text: &Option<String>)
    ensures
        pair_views(final(fields)@) == pair_views(old(fields)@) + text_field(
            name@,
            text_view(*text),
        ),
{
    if let Some(text) = text {
        let value = Json::String(text.clone());
        proof {
            lemma_value_view(value);
        }
        push_field(fields, name, value);
    }
    assert(pair_views(fields@) =~= pair_views(old(fields)@) + text_field(name@, text_view(*text)));
}

/// The value of a row.
fn row_value(row: &EntrySpec) -> (r: Json)
    ensures
        r@ == row_json(row@),
{
    let mut fields: Vec<(String, Json)> = Vec::new();
    let id = Json::String(row.id.clone());
    proof {
        lemma_value_view(id);
        assert(pair_views(fields@) =~= Seq::<(Seq<char>, JsonView)>::empty());
    }
    push_field(&mut fields, "id", id);
    push_text(&mut fields, "plugin", &row.plugin);
    push_text(&mut fields, "parent", &row.parent);
    if let Some(value) = &row.config {
        push_field(&mut fields, "config", value.copy());
    }
    if let Some(disabled) = row.disabled {
        let value = Json::Bool(disabled);
        proof {
            lemma_value_view(value);
        }
        push_field(&mut fields, "disabled", value);
    }
    let ghost views = pair_views(fields@);
    assert(views =~= entry_fields(row@));
    let object = Object::in_order(fields);
    let out = Json::Object(object);
    proof {
        lemma_value_view(out);
        assert(object@ =~= views);
    }
    out
}

/// The names of a row's fields.
proof fn lemma_field_names()
    ensures
        "id"@ != "plugin"@,
        "id"@ != "parent"@,
        "id"@ != "config"@,
        "id"@ != "disabled"@,
        "plugin"@ != "parent"@,
        "plugin"@ != "config"@,
        "plugin"@ != "disabled"@,
        "parent"@ != "config"@,
        "parent"@ != "disabled"@,
        "config"@ != "disabled"@,
{
    reveal_strlit("id");
    reveal_strlit("plugin");
    reveal_strlit("parent");
    reveal_strlit("config");
    reveal_strlit("disabled");
    assert("id"@.len() == 2);
    assert("plugin"@.len() == 6);
    assert("parent"@.len() == 6);
    assert("config"@.len() == 6);
    assert("disabled"@.len() == 8);
    assert("plugin"@[1] == 'l');
    assert("parent"@[1] == 'a');
    assert("config"@[1] == 'o');
}

/// No two fields of a row have the same name.
proof fn lemma_row_distinct(row: EntryView)
    requires
        row_ok(row),
    ensures
        distinct_names(row_json(row)),
{
    lemma_field_names();
    let fields = entry_fields(row);
    if let Some(value) = row.config {
        lemma_canonical_distinct(value);
    }
    assert forall|i: int| 0 <= i < fields.len() implies distinct_names(
        (#[trigger] fields[i]).1,
    ) by {}
}

/// No two fields of an object in the tree's value have the same name.
proof fn lemma_tree_distinct(rows: Seq<EntryView>)
    requires
        forall|i: int| 0 <= i < rows.len() ==> row_ok(#[trigger] rows[i]),
    ensures
        distinct_names(tree_json(rows)),
{
    let items = tree_json(rows)->Array_0;
    assert forall|i: int| 0 <= i < items.len() implies distinct_names(#[trigger] items[i]) by {
        assert(row_ok(rows[i]));
        lemma_row_distinct(rows[i]);
    }
}

impl EntryTree {
    /// Serializes the tree back to its document form: the write-back material
    /// for hosts that persist loader state. Rows come out in id order;
    /// omitted fields stay omitted.
    pub fn to_json_str(&self) -> (r: Result<String, LoadError>)
        requires
            self.wf(),
        ensures
            match r {
                Ok(text) => {
                    &&& text@ == printed_json(tree_json(self@))
                    &&& nested_within(tree_json(self@), DEPTH as nat) ==> document_tree(text@)
                        == Ok::<Seq<EntryView>, LoadErrorView>(self@)
                },
                Err(_) => false,
            },
    {
        let entries = self.entries();
        let ghost rows = self@;
        let mut items: Vec<Json> = Vec::new();
        let mut i: usize = 0;
        while i < entries.len()
            invariant
                rows == row_views(entries@),
                i <= entries@.len(),
                items@.len() == i,
                forall|j: int| 0 <= j < i ==> (#[trigger] items@[j])@ == row_json(rows[j]),
            decreases entries@.len() - i,
        {
            items.push(row_value(&entries[i]));
            i = i + 1;
        }
        let value = Json::Array(items);
        proof {
            lemma_value_view(value);
            assert(value@->Array_0 =~= tree_json(rows)->Array_0);
            lemma_tree_distinct(rows);
        }
        match write_json(&value) {
            Some(text) => {
                proof {
                    lemma_tree_read_back(rows);
                }
                Ok(text)
            },
            None => Err(LoadError::NotSerializable),
        }
    }
}

// ---- reading back what was written ----

/// Whether no two of the fields have the same name.
pub open spec fn names_differ(fields: Seq<(Seq<char>, JsonView)>) -> bool {
    forall|i: int, j: int|
        0 <= i < j < fields.len() ==> (#[trigger] fields[i]).0 != (#[trigger] fields[j]).0
}

/// A field is found by its name.
proof fn lemma_field_at(fields: Seq<(Seq<char>, JsonView)>, i: int)
    requires
        names_differ(fields),
        0 <= i < fields.len(),
    ensures
        field(fields, fields[i].0) == Some(fields[i].1),
    decreases fields.len(),
{
    if i > 0 {
        assert(fields[0].0 != fields[i].0);
        let rest = fields.drop_first();
        assert forall|a: int, b: int| 0 <= a < b < rest.len() implies (#[trigger] rest[a]).0 != (
        #[trigger] rest[b]).0 by {
            assert(fields[a + 1].0 != fields[b + 1].0);
        }
        lemma_field_at(rest, i - 1);
    }
}

/// A name that no field has finds nothing, and a field that is found is one.
proof fn lemma_field_found(fields: Seq<(Seq<char>, JsonView)>, name: Seq<char>)
    ensures
        match field(fields, name) {
            Some(value) => fields.contains((name, value)),
            None => forall|i: int| 0 <= i < fields.len() ==> (#[trigger] fields[i]).0 != name,
        },
    decreases fields.len(),
{
    if fields.len() > 0 {
        if fields[0].0 == name {
            assert(fields[0] == (name, fields[0].1));
        } else {
            let rest = fields.drop_first();
            lemma_field_found(rest, name);
            match field(rest, name) {
                Some(value) => {
                    let a = choose|a: int| 0 <= a < rest.len() && rest[a] == (name, value);
                    assert(fields[a + 1] == (name, value));
                },
                None => {
                    assert forall|i: int| 0 <= i < fields.len() implies (
                    #[trigger] fields[i]).0 != name by {
                        if i > 0 {
                            assert(rest[i - 1].0 != name);
                        }
                    }
                },
            }
        }
    }
}

/// Putting fields in order loses none and changes none.
proof fn lemma_sorted_members(fields: Seq<(Seq<char>, JsonView)>)
    requires
        names_differ(fields),
    ensures
        ascending(sorted_fields(fields)),
        forall|x: (Seq<char>, JsonView)| #[trigger]
            sorted_fields(fields).contains(x) <==> fields.contains(x),
    decreases fields.len(),
{
    if fields.len() > 0 {
        let front = fields.drop_last();
        let last = fields.last();
        assert forall|a: int, b: int| 0 <= a < b < front.len() implies (#[trigger] front[a]).0 != (
        #[trigger] front[b]).0 by {
            assert(fields[a].0 != fields[b].0);
        }
        lemma_sorted_members(front);
        let s = sorted_fields(front);
        assert forall|i: int| 0 <= i < s.len() implies (#[trigger] s[i]).0 != last.0 by {
            assert(s.contains(s[i]));
            let a = choose|a: int| 0 <= a < front.len() && front[a] == s[i];
            assert(fields[a].0 != fields[fields.len() - 1].0);
        }
        lemma_with_new_field(s, last.0, last.1);
        assert forall|x: (Seq<char>, JsonView)| #[trigger]
            sorted_fields(fields).contains(x) <==> fields.contains(x) by {
            lemma_push_contains(front, last, x);
            assert(fields =~= front.push(last));
            assert(s.contains(x) <==> front.contains(x));
        }
    }
}

/// A field with a new name goes to its place among the others.
proof fn lemma_with_new_field(
    fields: Seq<(Seq<char>, JsonView)>,
    name: Seq<char>,
    value: JsonView,
)
    requires
        ascending(fields),
        forall|i: int| 0 <= i < fields.len() ==> (#[trigger] fields[i]).0 != name,
    ensures
        ascending(with_field(fields, name, value)),
        forall|x: (Seq<char>, JsonView)| #[trigger]
            with_field(fields, name, value).contains(x) <==> fields.contains(x) || x == (
                name,
                value,
            ),
    decreases fields.len(),
{
    lemma_with_field(fields, name, value);
    let out = with_field(fields, name, value);
    if fields.len() == 0 || !precedes(name, fields.last().0) {
        if fields.len() > 0 {
            assert(fields[fields.len() - 1].0 != name);
        }
        assert forall|x: (Seq<char>, JsonView)| #[trigger] out.contains(x) <==> fields.contains(x)
            || x == (name, value) by {
            lemma_push_contains(fields, (name, value), x);
        }
    } else {
        assert(fields[fields.len() - 1].0 != name);
        let front = fields.drop_last();
        let last = fields.last();
        assert forall|a: int, b: int| 0 <= a < b < front.len() implies precedes(
            (#[trigger] front[a]).0,
            (#[trigger] front[b]).0,
        ) by {
            assert(precedes(fields[a].0, fields[b].0));
        }
        assert forall|i: int| 0 <= i < front.len() implies (#[trigger] front[i]).0 != name by {
            assert(fields[i].0 != name);
        }
        lemma_with_new_field(front, name, value);
        let mid = with_field(front, name, value);
        assert forall|x: (Seq<char>, JsonView)| #[trigger] out.contains(x) <==> fields.contains(x)
            || x == (name, value) by {
            lemma_push_contains(mid, last, x);
            lemma_push_contains(front, last, x);
            assert(fields =~= front.push(last));
            assert(mid.contains(x) <==> front.contains(x) || x == (name, value));
        }
    }
}

/// Putting fields in order changes nothing about what is found by name.
proof fn lemma_field_sorted(fields: Seq<(Seq<char>, JsonView)>, name: Seq<char>)
    requires
        names_differ(fields),
    ensures
        field(sorted_fields(fields), name) == field(fields, name),
{
    lemma_sorted_members(fields);
    let s = sorted_fields(fields);
    assert(names_differ(s)) by {
        assert forall|i: int, j: int| 0 <= i < j < s.len() implies (#[trigger] s[i]).0 != (
        #[trigger] s[j]).0 by {
            assert(precedes(s[i].0, s[j].0));
            lemma_precedes_irreflexive(s[i].0);
        }
    }
    lemma_field_found(fields, name);
    lemma_field_found(s, name);
    match field(fields, name) {
        Some(value) => {
            assert(s.contains((name, value)));
            let a = choose|a: int| 0 <= a < s.len() && s[a] == (name, value);
            lemma_field_at(s, a);
        },
        None => {
            if let Some(value) = field(s, name) {
                assert(fields.contains((name, value)));
                let a = choose|a: int| 0 <= a < fields.len() && fields[a] == (name, value);
                assert(fields[a].0 != name);
            }
        },
    }
}

/// What is found by name in a row that was written.
proof fn lemma_entry_fields(row: EntryView)
    requires
        row_ok(row),
    ensures
        names_differ(entry_fields(row)),
        ordered_fields(row_json(row)) == entry_fields(row),
        field(entry_fields(row), "id"@) == Some(JsonView::Text(row.id)),
        field(entry_fields(row), "plugin"@) == (match row.plugin {
            Some(text) => Some(JsonView::Text(text)),
            None => None,
        }),
        field(entry_fields(row), "parent"@) == (match row.parent {
            Some(text) => Some(JsonView::Text(text)),
            None => None,
        }),
        field(entry_fields(row), "config"@) == row.config,
        field(entry_fields(row), "disabled"@) == (match row.disabled {
            Some(disabled) => Some(JsonView::Bool(disabled)),
            None => None,
        }),
{
    lemma_field_names();
    let fields = entry_fields(row);
    let a = 1int;
    let b = a + text_field("plugin"@, row.plugin).len();
    let c = b + text_field("parent"@, row.parent).len();
    let d = c + (if row.config is Some {
        1int
    } else {
        0int
    });
    assert(names_differ(fields));
    assert(fields[0].0 == "id"@);
    lemma_field_at(fields, 0);
    lemma_field_found(fields, "plugin"@);
    lemma_field_found(fields, "parent"@);
    lemma_field_found(fields, "config"@);
    lemma_field_found(fields, "disabled"@);
    if row.plugin is Some {
        assert(fields[a] == ("plugin"@, JsonView::Text(row.plugin->0)));
        lemma_field_at(fields, a);
    }
    if row.parent is Some {
        assert(fields[b] == ("parent"@, JsonView::Text(row.parent->0)));
        lemma_field_at(fields, b);
    }
    if row.config is Some {
        assert(fields[c] == ("config"@, row.config->0));
        lemma_field_at(fields, c);
        lemma_key_order_same(row.config->0);
    }
    if row.disabled is Some {
        assert(fields[d] == ("disabled"@, JsonView::Bool(row.disabled->0)));
        lemma_field_at(fields, d);
    }
    let mapped = ordered_fields(row_json(row));
    assert forall|i: int| 0 <= i < fields.len() implies mapped[i] == fields[i] by {
        if row.config is Some && i == c {
        } else {
            assert(fields[i].1 is Text || fields[i].1 is Bool);
        }
    }
    assert(mapped =~= fields);
}

/// A row that was written and put in key order reads as it was.
proof fn lemma_row_read_back(row: EntryView)
    requires
        row_ok(row),
    ensures
        row_error(in_key_order(row_json(row))) is None,
        row_entry(in_key_order(row_json(row))) == row,
{
    lemma_entry_fields(row);
    let fields = entry_fields(row);
    let read = in_key_order(row_json(row));
    assert(read == JsonView::Object(sorted_fields(fields)));
    lemma_field_sorted(fields, "id"@);
    lemma_field_sorted(fields, "plugin"@);
    lemma_field_sorted(fields, "parent"@);
    lemma_field_sorted(fields, "config"@);
    lemma_field_sorted(fields, "disabled"@);
    assert(row_entry(read) =~= row);
}

/// The rows of a tree that was written gather as they were.
proof fn lemma_rows_read_back(rows: Seq<EntryView>, items: Seq<JsonView>, n: int)
    requires
        by_id(rows),
        forall|i: int| 0 <= i < rows.len() ==> row_ok(#[trigger] rows[i]),
        items.len() == rows.len(),
        forall|i: int| 0 <= i < rows.len() ==> #[trigger] items[i] == in_key_order(
            row_json(rows[i]),
        ),
        0 <= n <= rows.len(),
    ensures
        gathered(items.take(n)) == Ok::<Seq<EntryView>, LoadErrorView>(rows.take(n)),
    decreases n,
{
    if n == 0 {
        assert(items.take(0) =~= Seq::<JsonView>::empty());
        assert(rows.take(0) =~= Seq::<EntryView>::empty());
    } else {
        lemma_rows_read_back(rows, items, n - 1);
        assert(items.take(n).drop_last() =~= items.take(n - 1));
        let row = rows[n - 1];
        let done = rows.take(n - 1);
        assert(items[n - 1] == in_key_order(row_json(row)));
        assert(row_ok(row));
        lemma_row_read_back(row);
        lemma_position(done, row.id);
        if let Some(i) = position(done, row.id) {
            assert(precedes(rows[i].id, rows[n - 1].id));
            lemma_precedes_irreflexive(row.id);
        }
        if n > 1 {
            assert(done.last() == rows[n - 2]);
            assert(precedes(rows[n - 2].id, rows[n - 1].id));
            lemma_precedes_irreflexive(row.id);
            if precedes(row.id, rows[n - 2].id) {
                lemma_precedes_transitive(row.id, rows[n - 2].id, row.id);
            }
        }
        assert(with_row(done, row) =~= rows.take(n));
    }
}

/// A tree that was written and put in key order reads as it was.
pub proof fn lemma_tree_read_back(rows: Seq<EntryView>)
    requires
        tree_ok(rows),
    ensures
        tree_of(in_key_order(tree_json(rows))) == Ok::<Seq<EntryView>, LoadErrorView>(rows),
{
    let items = in_key_order(tree_json(rows))->Array_0;
    assert forall|i: int| 0 <= i < rows.len() implies #[trigger] items[i] == in_key_order(
        row_json(rows[i]),
    ) by {
        assert(tree_json(rows)->Array_0[i] == row_json(rows[i]));
    }
    lemma_rows_read_back(rows, items, rows.len() as int);
    assert(items.take(rows.len() as int) =~= items);
    assert(rows.take(rows.len() as int) =~= rows);
}

} // verus!
