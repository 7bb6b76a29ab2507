//! What makes a tree, and what is refused.

use crate::entries::{
    EntrySpec, EntryView, LoadError, LoadErrorView, described, integral, parse_row, quoted_text,
    row_entry, row_error,
};
use crate::json::{Json, JsonView, field, in_key_order};
use crate::laws::loading::{all_items, last_row, law_later_layers_win, row_of};
use crate::reconcile::lemma_position_at;
use crate::text::decimal;
use crate::tree::{
    EntryTree, ancestor, by_id, gathered, lemma_ancestor_ends, lemma_ancestor_row, lemma_position,
    lemma_with_row, ordered_layers, overridden, place_error, position, stacked, structure_error,
    tree_of, with_row,
};
use vstd::prelude::*;
use vstd::set_lib::{lemma_int_range, lemma_len_subset, set_int_range};

verus! {

// ---- rows ----

/// A field that is found is the first of its name, and one that is not found
/// is not there.
pub proof fn law_the_first_field_of_a_name_counts(
    fields: Seq<(Seq<char>, JsonView)>,
    name: Seq<char>,
)
    ensures
        match field(fields, name) {
            Some(value) => exists|i: int|
                {
                    &&& 0 <= i < fields.len()
                    &&& #[trigger] fields[i] == (name, value)
                    &&& forall|j: int| 0 <= j < i ==> (#[trigger] fields[j]).0 != name
                },
            None => forall|i: int| 0 <= i < fields.len() ==> (#[trigger] fields[i]).0 != name,
        },
    decreases fields.len(),
{
    if fields.len() > 0 {
        if fields[0].0 == name {
            assert(fields[0] == (name, fields[0].1));
        } else {
            let rest = fields.drop_first();
            law_the_first_field_of_a_name_counts(rest, name);
            match field(rest, name) {
                Some(value) => {
                    let i = choose|i: int|
                        {
                            &&& 0 <= i < rest.len()
                            &&& #[trigger] rest[i] == (name, value)
                            &&& forall|j: int| 0 <= j < i ==> (#[trigger] rest[j]).0 != name
                        };
                    assert(fields[i + 1] == (name, value));
                    assert forall|j: int| 0 <= j < i + 1 implies (#[trigger] fields[j]).0
                        != name by {
                        if j > 0 {
                            assert(rest[j - 1].0 != name);
                        }
                    }
                },
                None => {
                    assert forall|i: int| 0 <= i < fields.len() implies (#[trigger] fields[i]).0
                        != name by {
                        if i > 0 {
                            assert(rest[i - 1].0 != name);
                        }
                    }
                },
            }
        }
    }
}

/// The text in a place that may be empty.
pub open spec fn text_at(place: Option<JsonView>) -> Option<Seq<char>> {
    match place {
        Some(JsonView::Text(text)) => Some(text),
        _ => None,
    }
}

/// Whether a place may hold a text, `null` or nothing, and does.
pub open spec fn maybe_text(place: Option<JsonView>) -> bool {
    match place {
        None => true,
        Some(value) => value is Null || value is Text,
    }
}

/// Whether a place holds nothing, or `null`.
pub open spec fn vacant(place: Option<JsonView>) -> bool {
    match place {
        None => true,
        Some(value) => value is Null,
    }
}

/// Whether what stands in the places of a row makes an entry: an id that is
/// not empty, texts, a flag, and no config without a plugin.
pub open spec fn makes_a_row(
    id: Option<JsonView>,
    plugin: Option<JsonView>,
    parent: Option<JsonView>,
    config: Option<JsonView>,
    disabled: Option<JsonView>,
) -> bool {
    &&& text_at(id) matches Some(text) && text.len() > 0
    &&& maybe_text(plugin)
    &&& maybe_text(parent)
    &&& vacant(disabled) || disabled->0 is Bool
    &&& text_at(plugin) is None ==> vacant(config)
}

/// Whether the entry says what stands in the places of a row.
pub open spec fn says(
    row: EntryView,
    id: Option<JsonView>,
    plugin: Option<JsonView>,
    parent: Option<JsonView>,
    config: Option<JsonView>,
    disabled: Option<JsonView>,
) -> bool {
    &&& Some(row.id) == text_at(id)
    &&& row.plugin == text_at(plugin)
    &&& row.parent == text_at(parent)
    &&& vacant(config) ==> row.config is None
    &&& !vacant(config) ==> row.config == config
    &&& vacant(disabled) ==> row.disabled is None
    &&& disabled matches Some(JsonView::Bool(flag)) ==> row.disabled == Some(flag)
}

/// An object is read as the entry that its fields say, whatever else it
/// holds, and refused exactly where they do not make one.
pub proof fn law_objects_are_read_by_name(
    value: Json,
    fields: Seq<(Seq<char>, JsonView)>,
    r: Result<EntrySpec, LoadError>,
)
    requires
        value@ == JsonView::Object(fields),
        call_ensures(parse_row, (&value,), r),
    ensures
        ({
            let id = field(fields, "id"@);
            let plugin = field(fields, "plugin"@);
            let parent = field(fields, "parent"@);
            let config = field(fields, "config"@);
            let disabled = field(fields, "disabled"@);
            &&& r is Ok <==> makes_a_row(id, plugin, parent, config, disabled)
            &&& r matches Ok(row) ==> says(row@, id, plugin, parent, config, disabled)
            &&& r matches Err(error) ==> (error@ is EmptyId ==> text_at(id) == Some(
                Seq::<char>::empty(),
            ))
            &&& r matches Err(error) ==> (error@ matches LoadErrorView::GroupConfig(name)
                ==> text_at(id) == Some(name) && text_at(plugin) is None && !vacant(config))
        }),
{
}

/// What stands in a place of an array.
pub open spec fn item_at(items: Seq<JsonView>, i: int) -> Option<JsonView> {
    if 0 <= i < items.len() {
        Some(items[i])
    } else {
        None
    }
}

/// An array is read as the entry that its items say, in the order of the
/// fields, and refused exactly where they do not make one or are too many.
pub proof fn law_arrays_are_read_by_place(
    value: Json,
    items: Seq<JsonView>,
    r: Result<EntrySpec, LoadError>,
)
    requires
        value@ == JsonView::Array(items),
        call_ensures(parse_row, (&value,), r),
    ensures
        ({
            let id = item_at(items, 0);
            let plugin = item_at(items, 1);
            let parent = item_at(items, 2);
            let config = item_at(items, 3);
            let disabled = item_at(items, 4);
            &&& r is Ok <==> items.len() <= 5 && makes_a_row(
                id,
                plugin,
                parent,
                config,
                disabled,
            )
            &&& r matches Ok(row) ==> says(row@, id, plugin, parent, config, disabled)
        }),
{
}

/// Nothing but an object or an array is a row.
pub proof fn law_only_objects_and_arrays_are_rows(value: Json, r: Result<EntrySpec, LoadError>)
    requires
        !(value@ is Object) && !(value@ is Array),
        call_ensures(parse_row, (&value,), r),
    ensures
        r matches Err(error) && error@ is InvalidRow,
{
}

// ---- places ----

/// Among more numbers than there are values some value comes twice.
proof fn lemma_pigeonhole(s: Seq<int>, n: nat)
    requires
        s.len() > n,
        forall|i: int| 0 <= i < s.len() ==> 0 <= #[trigger] s[i] < n,
    ensures
        exists|i: int, j: int| 0 <= i < j < s.len() && #[trigger] s[i] == #[trigger] s[j],
{
    if s.no_duplicates() {
        s.unique_seq_to_set();
        lemma_int_range(0, n as int);
        assert forall|x: int| s.to_set().contains(x) implies set_int_range(0, n as int).contains(
            x,
        ) by {
            assert(s.contains(x));
            let i = choose|i: int| 0 <= i < s.len() && s[i] == x;
            assert(0 <= s[i] < n);
        }
        lemma_len_subset(s.to_set(), set_int_range(0, n as int));
        assert(false);
    } else {
        let (i, j) = choose|i: int, j: int|
            0 <= i < s.len() && 0 <= j < s.len() && i != j && s[i] == s[j];
        if i < j {
            assert(s[i] == s[j]);
        } else {
            assert(s[j] == s[i]);
        }
    }
}

/// Whether the way up from a row comes by the same row twice.
pub open spec fn goes_round(rows: Seq<EntryView>, i: int) -> bool {
    exists|a: nat, b: nat|
        #![trigger ancestor(rows, i, a), ancestor(rows, i, b)]
        a < b && ancestor(rows, i, a) is Some && ancestor(rows, i, a) == ancestor(rows, i, b)
}

proof fn lemma_goes_round(rows: Seq<EntryView>, i: int)
    requires
        0 <= i < rows.len(),
    ensures
        goes_round(rows, i) <==> ancestor(rows, i, rows.len()) is Some,
{
    let n = rows.len();
    if ancestor(rows, i, n) is Some {
        let s = Seq::new(n + 1, |m: int| ancestor(rows, i, m as nat)->0);
        assert forall|m: int| 0 <= m < s.len() implies 0 <= #[trigger] s[m] < n
            && ancestor(rows, i, m as nat) is Some by {
            if ancestor(rows, i, m as nat) is None {
                lemma_ancestor_ends(rows, i, m as nat, n);
            }
            lemma_ancestor_row(rows, i, m as nat);
        }
        lemma_pigeonhole(s, n);
        let (a, b) = choose|a: int, b: int|
            0 <= a < b < s.len() && #[trigger] s[a] == #[trigger] s[b];
        assert(ancestor(rows, i, a as nat) == ancestor(rows, i, b as nat));
    }
    if goes_round(rows, i) && ancestor(rows, i, n) is None {
        let (a, b) = choose|a: nat, b: nat|
            #![trigger ancestor(rows, i, a), ancestor(rows, i, b)]
            a < b && ancestor(rows, i, a) is Some && ancestor(rows, i, a) == ancestor(rows, i, b);
        lemma_round_and_round(rows, i, a, b, n);
    }
}

/// A way that comes by the same row twice never ends.
proof fn lemma_round_and_round(rows: Seq<EntryView>, i: int, a: nat, b: nat, n: nat)
    requires
        a < b,
        ancestor(rows, i, a) is Some,
        ancestor(rows, i, a) == ancestor(rows, i, b),
    ensures
        ancestor(rows, i, n) is Some,
    decreases n,
{
    if ancestor(rows, i, n) is None {
        if n <= b {
            lemma_ancestor_ends(rows, i, n, b);
        } else {
            let back = (n - (b - a)) as nat;
            lemma_round_and_round(rows, i, a, b, back);
            lemma_in_step(rows, i, a, b, (n - b) as nat);
        }
    }
}

/// From the same row the way goes on alike.
proof fn lemma_in_step(rows: Seq<EntryView>, i: int, a: nat, b: nat, n: nat)
    requires
        ancestor(rows, i, a) == ancestor(rows, i, b),
    ensures
        ancestor(rows, i, a + n) == ancestor(rows, i, b + n),
    decreases n,
{
    if n > 0 {
        lemma_in_step(rows, i, a, b, (n - 1) as nat);
        assert((a + n) as nat - 1 == a + (n - 1));
        assert((b + n) as nat - 1 == b + (n - 1));
    }
}

/// A row without a parent is in its right place. One that names a parent is
/// exactly if the parent is there, is a group, and the way up comes by no row
/// twice; if not, that is what is said of it, in this order.
pub proof fn law_which_places_are_wrong(rows: Seq<EntryView>, i: int, parent: Seq<char>)
    requires
        by_id(rows),
        0 <= i < rows.len(),
    ensures
        rows[i].parent is None ==> place_error(rows, i) is None,
        rows[i].parent == Some(parent) ==> ({
            let there = exists|j: int| 0 <= j < rows.len() && (#[trigger] rows[j]).id == parent;
            let group = exists|j: int|
                0 <= j < rows.len() && (#[trigger] rows[j]).id == parent && rows[j].plugin is None;
            place_error(rows, i) == if !there {
                Some(LoadErrorView::UnknownParent(rows[i].id, parent))
            } else if !group {
                Some(LoadErrorView::ParentNotGroup(rows[i].id, parent))
            } else if goes_round(rows, i) {
                Some(LoadErrorView::ParentCycle(rows[i].id))
            } else {
                None
            }
        }),
{
    lemma_goes_round(rows, i);
    lemma_position(rows, parent);
    if exists|j: int| 0 <= j < rows.len() && (#[trigger] rows[j]).id == parent {
        let j = choose|j: int| 0 <= j < rows.len() && (#[trigger] rows[j]).id == parent;
        lemma_position_at(rows, j);
    }
    if exists|j: int|
        0 <= j < rows.len() && (#[trigger] rows[j]).id == parent && rows[j].plugin is None {
        let j = choose|j: int|
            0 <= j < rows.len() && (#[trigger] rows[j]).id == parent && rows[j].plugin is None;
        lemma_position_at(rows, j);
    }
}

/// Rows make a tree exactly if every one is in its right place; if not, it is
/// the first in a wrong one that is complained of.
pub proof fn law_the_first_wrong_place_is_complained_of(rows: Seq<EntryView>, n: nat)
    ensures
        structure_error(rows, n) is None <==> forall|i: int|
            0 <= i < n ==> (#[trigger] place_error(rows, i)) is None,
        structure_error(rows, n) matches Some(error) ==> exists|i: int|
            {
                &&& 0 <= i < n
                &&& #[trigger] place_error(rows, i) == Some(error)
                &&& forall|j: int| 0 <= j < i ==> (#[trigger] place_error(rows, j)) is None
            },
    decreases n,
{
    if n > 0 {
        law_the_first_wrong_place_is_complained_of(rows, (n - 1) as nat);
        assert(place_error(rows, n - 1) is None || place_error(rows, n - 1) is Some);
    }
}

// ---- gathering ----

/// Whether item `i` is the first that is refused, and this is why: it is no
/// row, or a row before it has its id.
pub open spec fn first_refused(items: Seq<JsonView>, i: int, error: LoadErrorView) -> bool {
    &&& forall|j: int| 0 <= j < i ==> (#[trigger] row_error(items[j])) is None
    &&& match row_error(items[i]) {
        Some(fault) => error == fault,
        None => error == LoadErrorView::DuplicateId(row_entry(items[i]).id) && exists|j: int|
            0 <= j < i && row_entry(#[trigger] items[j]).id == row_entry(items[i]).id,
    }
}

/// A tree holds the row of every item, in the order of the ids, and nothing
/// else; it is refused exactly where an item is no row or an id comes twice,
/// and then because of the first such item.
pub proof fn law_trees_hold_every_row(items: Seq<JsonView>)
    ensures
        match gathered(items) {
            Ok(rows) => {
                &&& by_id(rows)
                &&& rows.len() == items.len()
                &&& forall|i: int|
                    0 <= i < items.len() ==> row_error(#[trigger] items[i]) is None
                        && rows.contains(row_entry(items[i]))
                &&& forall|a: int|
                    0 <= a < rows.len() ==> exists|i: int|
                        0 <= i < items.len() && #[trigger] rows[a] == row_entry(
                            #[trigger] items[i],
                        )
                &&& forall|i: int, j: int|
                    0 <= i < j < items.len() ==> row_entry(#[trigger] items[i]).id != row_entry(
                        #[trigger] items[j],
                    ).id
            },
            Err(error) => exists|i: int|
                0 <= i < items.len() && #[trigger] first_refused(items, i, error),
        },
    decreases items.len(),
{
    if items.len() > 0 {
        let front = items.drop_last();
        let n = items.len() - 1;
        law_trees_hold_every_row(front);
        assert forall|i: int| 0 <= i < n implies #[trigger] items[i] == front[i] by {}
        match gathered(front) {
            Ok(rows) => {
                let row = row_entry(items[n]);
                assert forall|j: int| 0 <= j < n implies (#[trigger] row_error(items[j]))
                    is None by {
                    assert(row_error(front[j]) is None);
                }
                lemma_position(rows, row.id);
                if row_error(items[n]) is Some {
                    assert(first_refused(items, n, row_error(items[n])->0));
                } else if position(rows, row.id) is Some {
                    let a = position(rows, row.id)->0;
                    let i = choose|i: int|
                        0 <= i < front.len() && rows[a] == row_entry(#[trigger] front[i]);
                    assert(row_entry(items[i]).id == row.id);
                    assert(first_refused(items, n, LoadErrorView::DuplicateId(row.id)));
                } else {
                    let out = with_row(rows, row);
                    lemma_with_row(rows, row);
                    lemma_with_row_len(rows, row);
                    assert forall|i: int| 0 <= i < items.len() implies row_error(
                        #[trigger] items[i],
                    ) is None && out.contains(row_entry(items[i])) by {
                        if i < n {
                            assert(rows.contains(row_entry(front[i])));
                            let x = row_entry(front[i]);
                            let a = choose|a: int| 0 <= a < rows.len() && rows[a] == x;
                            assert(rows[a].id != row.id);
                        }
                    }
                    assert forall|a: int| 0 <= a < out.len() implies exists|i: int|
                        0 <= i < items.len() && #[trigger] out[a] == row_entry(
                            #[trigger] items[i],
                        ) by {
                        assert(out.contains(out[a]));
                        if out[a] == row {
                            assert(out[a] == row_entry(items[n]));
                        } else {
                            assert(rows.contains(out[a]));
                            let b = choose|b: int| 0 <= b < rows.len() && rows[b] == out[a];
                            let i = choose|i: int|
                                0 <= i < front.len() && rows[b] == row_entry(#[trigger] front[i]);
                            assert(out[a] == row_entry(items[i]));
                        }
                    }
                    assert forall|i: int, j: int| 0 <= i < j < items.len() implies row_entry(
                        #[trigger] items[i],
                    ).id != row_entry(#[trigger] items[j]).id by {
                        if j < n {
                            assert(row_entry(front[i]).id != row_entry(front[j]).id);
                        } else {
                            assert(rows.contains(row_entry(front[i])));
                            let a = choose|a: int|
                                0 <= a < rows.len() && rows[a] == row_entry(front[i]);
                            assert(rows[a].id != row.id);
                        }
                    }
                }
            },
            Err(error) => {
                let i = choose|i: int|
                    0 <= i < front.len() && #[trigger] first_refused(front, i, error);
                assert forall|j: int| 0 <= j < i implies (#[trigger] row_error(items[j]))
                    is None by {
                    assert(row_error(front[j]) is None);
                }
                if row_error(items[i]) is None {
                    let j = choose|j: int|
                        0 <= j < i && row_entry(#[trigger] front[j]).id == row_entry(front[i]).id;
                    assert(row_entry(items[j]).id == row_entry(items[i]).id);
                }
                assert(first_refused(items, i, error));
            },
        }
    }
}

/// A row with a new id makes one more.
proof fn lemma_with_row_len(rows: Seq<EntryView>, row: EntryView)
    requires
        forall|i: int| 0 <= i < rows.len() ==> (#[trigger] rows[i]).id != row.id,
    ensures
        with_row(rows, row).len() == rows.len() + 1,
    decreases rows.len(),
{
    if rows.len() > 0 {
        let front = rows.drop_last();
        assert(rows[rows.len() - 1].id != row.id);
        assert forall|i: int| 0 <= i < front.len() implies (#[trigger] front[i]).id != row.id by {
            assert(front[i] == rows[i]);
        }
        lemma_with_row_len(front, row);
    }
}

/// What a document is refused for: not being an array, or the first wrong
/// item, or the first wrong place.
pub proof fn law_what_documents_are_refused_for(value: JsonView)
    ensures
        match tree_of(value) {
            Ok(rows) => value is Array && gathered(value->Array_0) == Ok::<
                Seq<EntryView>,
                LoadErrorView,
            >(rows) && (forall|i: int|
                0 <= i < rows.len() ==> (#[trigger] place_error(rows, i)) is None),
            Err(error) => {
                ||| !(value is Array) && error == LoadErrorView::NotATree
                ||| value is Array && (exists|i: int|
                    0 <= i < value->Array_0.len() && #[trigger] first_refused(
                        value->Array_0,
                        i,
                        error,
                    ))
                ||| value is Array && gathered(value->Array_0) is Ok && (exists|i: int|
                    0 <= i < gathered(value->Array_0)->Ok_0.len() && #[trigger] place_error(
                        gathered(value->Array_0)->Ok_0,
                        i,
                    ) == Some(error))
            },
        },
{
    if let JsonView::Array(items) = value {
        law_trees_hold_every_row(items);
        if let Ok(rows) = gathered(items) {
            law_the_first_wrong_place_is_complained_of(rows, rows.len());
        }
    }
}

/// Whether layer `i` is the first that is refused, and this is why: it is no
/// array, or an item of it is no row.
pub open spec fn first_refused_layer(
    layers: Seq<JsonView>,
    i: int,
    error: LoadErrorView,
) -> bool {
    &&& forall|j: int| 0 <= j < i ==> (#[trigger] layers[j]) is Array
    &&& match layers[i] {
        JsonView::Array(items) => exists|n: int|
            {
                &&& 0 <= n < items.len()
                &&& row_error(#[trigger] items[n]) == Some(error)
                &&& forall|m: int| 0 <= m < n ==> row_error(#[trigger] items[m]) is None
            },
        _ => error == LoadErrorView::NotALayer,
    }
}

proof fn lemma_overridden_refused(rows: Seq<EntryView>, items: Seq<JsonView>)
    ensures
        overridden(rows, items) is Ok <==> forall|i: int|
            0 <= i < items.len() ==> row_error(#[trigger] items[i]) is None,
        overridden(rows, items) matches Err(error) ==> exists|n: int|
            {
                &&& 0 <= n < items.len()
                &&& row_error(#[trigger] items[n]) == Some(error)
                &&& forall|m: int| 0 <= m < n ==> row_error(#[trigger] items[m]) is None
            },
    decreases items.len(),
{
    if items.len() > 0 {
        let front = items.drop_last();
        let last = items.len() - 1;
        lemma_overridden_refused(rows, front);
        assert forall|i: int| 0 <= i < last implies #[trigger] items[i] == front[i] by {}
        match overridden(rows, front) {
            Ok(_) => {
                assert forall|m: int| 0 <= m < last implies row_error(#[trigger] items[m])
                    is None by {
                    assert(row_error(front[m]) is None);
                }
                assert(items[last] == items.last());
            },
            Err(error) => {
                let n = choose|n: int|
                    {
                        &&& 0 <= n < front.len()
                        &&& row_error(#[trigger] front[n]) == Some(error)
                        &&& forall|m: int| 0 <= m < n ==> row_error(#[trigger] front[m]) is None
                    };
                assert(row_error(items[n]) == Some(error));
                assert forall|m: int| 0 <= m < n implies row_error(#[trigger] items[m])
                    is None by {
                    assert(row_error(front[m]) is None);
                }
            },
        }
    }
}

/// Layers stack up exactly if each is an array of rows; if not, the first
/// that is not is complained of.
pub proof fn law_the_first_wrong_layer_is_complained_of(layers: Seq<JsonView>)
    ensures
        stacked(layers) is Ok <==> forall|i: int|
            0 <= i < layers.len() ==> (#[trigger] layers[i] matches JsonView::Array(items)
                && forall|n: int|
                0 <= n < items.len() ==> row_error(#[trigger] items[n]) is None),
        stacked(layers) matches Err(error) ==> exists|i: int|
            0 <= i < layers.len() && #[trigger] first_refused_layer(layers, i, error),
    decreases layers.len(),
{
    if layers.len() > 0 {
        let front = layers.drop_last();
        let last = layers.len() - 1;
        law_the_first_wrong_layer_is_complained_of(front);
        assert forall|i: int| 0 <= i < last implies #[trigger] layers[i] == front[i] by {}
        assert(layers[last] == layers.last());
        match stacked(front) {
            Ok(rows) => {
                if let JsonView::Array(items) = layers[last] {
                    lemma_overridden_refused(rows, items);
                }
                assert forall|i: int| 0 <= i < last implies (#[trigger] layers[i] matches
                    JsonView::Array(items) && forall|n: int|
                    0 <= n < items.len() ==> row_error(#[trigger] items[n]) is None) by {
                    assert(front[i] is Array);
                }
                if let Err(error) = stacked(layers) {
                    assert(first_refused_layer(layers, last, error));
                }
            },
            Err(error) => {
                let i = choose|i: int|
                    0 <= i < front.len() && #[trigger] first_refused_layer(front, i, error);
                assert(layers[i] == front[i]);
                assert forall|j: int| 0 <= j < i implies (#[trigger] layers[j]) is Array by {
                    assert(front[j] is Array);
                }
                assert(first_refused_layer(layers, i, error));
            },
        }
    }
}

// ---- reading ----

/// A tree that is read from an array has the row of every item, and each of
/// its rows under its id.
pub proof fn law_trees_are_read_from_arrays(
    value: Json,
    r: Result<EntryTree, LoadError>,
    i: int,
    id: &str,
    row: Option<&EntrySpec>,
)
    requires
        call_ensures(EntryTree::from_value, (&value,), r),
        r matches Ok(tree) ==> call_ensures(EntryTree::get, (&tree, id), row),
    ensures
        !(value@ is Array) ==> (r matches Err(error) && error@ is NotATree),
        r matches Ok(tree) ==> ({
            let items = value@->Array_0;
            &&& value@ is Array
            &&& tree@.len() == items.len()
            &&& 0 <= i < items.len() ==> tree@.contains(row_entry(in_key_order(items[i])))
            &&& by_id(tree@)
            &&& row is Some <==> exists|j: int|
                0 <= j < tree@.len() && (#[trigger] tree@[j]).id == id@
            &&& row matches Some(found) ==> found@.id == id@ && tree@.contains(found@)
            &&& forall|j: int|
                0 <= j < tree@.len() ==> (#[trigger] place_error(tree@, j)) is None
        }),
{
    let ordered = in_key_order(value@);
    law_what_documents_are_refused_for(ordered);
    if let Ok(tree) = r {
        let items = value@->Array_0;
        let out = ordered->Array_0;
        law_trees_hold_every_row(out);
        if 0 <= i < items.len() {
            assert(out[i] == in_key_order(items[i]));
        }
        lemma_position(tree@, id@);
        if exists|j: int| 0 <= j < tree@.len() && (#[trigger] tree@[j]).id == id@ {
            let j = choose|j: int| 0 <= j < tree@.len() && (#[trigger] tree@[j]).id == id@;
            lemma_position_at(tree@, j);
        }
    }
}

/// A tree that is composed of layers has, under each id, the last row of that
/// id in all the layers, and nothing under any other.
pub proof fn law_composed_trees_take_the_last_row(
    layers: Vec<Json>,
    r: Result<EntryTree, LoadError>,
    id: Seq<char>,
)
    requires
        call_ensures(EntryTree::compose, (&layers,), r),
    ensures
        r matches Ok(tree) ==> by_id(tree@) && row_of(tree@, id) == last_row(
            all_items(ordered_layers(layers@)),
            id,
        ) && forall|j: int| 0 <= j < tree@.len() ==> (#[trigger] place_error(tree@, j)) is None,
        r matches Err(error) ==> (exists|i: int|
            0 <= i < layers@.len() && #[trigger] first_refused_layer(
                ordered_layers(layers@),
                i,
                error@,
            )) || stacked(ordered_layers(layers@)) is Ok && (exists|j: int|
            0 <= j < stacked(ordered_layers(layers@))->Ok_0.len() && #[trigger] place_error(
                stacked(ordered_layers(layers@))->Ok_0,
                j,
            ) == Some(error@)),
{
    let all = ordered_layers(layers@);
    law_the_first_wrong_layer_is_complained_of(all);
    if let Ok(rows) = stacked(all) {
        law_later_layers_win(all, id);
        law_the_first_wrong_place_is_complained_of(rows, rows.len());
    }
}

// ---- faults ----

/// What a value is called where another type was expected.
pub open spec fn called(value: JsonView) -> Seq<char> {
    match value {
        JsonView::Null => "null"@,
        JsonView::Bool(flag) => if flag {
            "boolean `true`"@
        } else {
            "boolean `false`"@
        },
        JsonView::Number(text) => if text.contains('.') || text.contains('e') {
            "floating point `"@ + text + "`"@
        } else {
            "integer `"@ + text + "`"@
        },
        JsonView::Text(text) => "string "@ + quoted_text(text),
        JsonView::Array(_) => "sequence"@,
        JsonView::Object(_) => "map"@,
    }
}

/// What is said of a value of the wrong type.
pub open spec fn wrong_type(value: JsonView, expected: Seq<char>) -> Seq<char> {
    "invalid type: "@ + called(value) + ", expected "@ + expected
}

proof fn lemma_called(value: JsonView)
    ensures
        described(value) == called(value),
{
    if let JsonView::Number(text) = value {
        if text.contains('.') {
            let i = choose|i: int| 0 <= i < text.len() && text[i] == '.';
            assert(text[i] == '.');
        }
        if text.contains('e') {
            let i = choose|i: int| 0 <= i < text.len() && text[i] == 'e';
            assert(text[i] == 'e');
        }
        if !integral(text) {
            let i = choose|i: int|
                0 <= i < text.len() && !(#[trigger] text[i] != '.' && text[i] != 'e');
            assert(text.contains(text[i]));
        }
    }
}

/// An object that has not the shape of a row is refused because of its first
/// field of the wrong type, in the order of the names, or because it has no
/// id.
pub proof fn law_why_objects_are_no_rows(
    value: Json,
    fields: Seq<(Seq<char>, JsonView)>,
    r: Result<EntrySpec, LoadError>,
)
    requires
        value@ == JsonView::Object(fields),
        call_ensures(parse_row, (&value,), r),
    ensures
        ({
            let id = field(fields, "id"@);
            let plugin = field(fields, "plugin"@);
            let parent = field(fields, "parent"@);
            let disabled = field(fields, "disabled"@);
            let bad_flag = !(vacant(disabled) || disabled->0 is Bool);
            let bad_id = id is Some && !(id->0 is Text);
            let bad_parent = !maybe_text(parent);
            let bad_plugin = !maybe_text(plugin);
            r matches Err(error) ==> (error@ matches LoadErrorView::InvalidRow(reason) ==> reason
                == if bad_flag {
                wrong_type(disabled->0, "a boolean"@)
            } else if bad_id {
                wrong_type(id->0, "a string"@)
            } else if bad_parent {
                wrong_type(parent->0, "a string"@)
            } else if bad_plugin {
                wrong_type(plugin->0, "a string"@)
            } else {
                "missing field `id`"@
            }) && (error@ is InvalidRow <==> bad_flag || bad_id || bad_parent || bad_plugin || id
                is None)
        }),
{
    let id = field(fields, "id"@);
    let plugin = field(fields, "plugin"@);
    let parent = field(fields, "parent"@);
    let disabled = field(fields, "disabled"@);
    lemma_called(id->0);
    lemma_called(plugin->0);
    lemma_called(parent->0);
    lemma_called(disabled->0);
}

/// An array that has not the shape of a row is refused because it is empty,
/// because of its first item of the wrong type, or because it is too long.
pub proof fn law_why_arrays_are_no_rows(
    value: Json,
    items: Seq<JsonView>,
    r: Result<EntrySpec, LoadError>,
)
    requires
        value@ == JsonView::Array(items),
        call_ensures(parse_row, (&value,), r),
    ensures
        ({
            let id = item_at(items, 0);
            let plugin = item_at(items, 1);
            let parent = item_at(items, 2);
            let disabled = item_at(items, 4);
            let bad_id = id is Some && !(id->0 is Text);
            let bad_plugin = !maybe_text(plugin);
            let bad_parent = !maybe_text(parent);
            let bad_flag = !(vacant(disabled) || disabled->0 is Bool);
            r matches Err(error) ==> (error@ matches LoadErrorView::InvalidRow(reason) ==> reason
                == if items.len() == 0 {
                "invalid length 0, expected struct EntrySpec with 5 elements"@
            } else if bad_id {
                wrong_type(id->0, "a string"@)
            } else if bad_plugin {
                wrong_type(plugin->0, "a string"@)
            } else if bad_parent {
                wrong_type(parent->0, "a string"@)
            } else if bad_flag {
                wrong_type(disabled->0, "a boolean"@)
            } else {
                "invalid length "@ + decimal(items.len()) + ", expected fewer elements in array"@
            }) && (error@ is InvalidRow <==> items.len() == 0 || bad_id || bad_plugin || bad_parent
                || bad_flag || items.len() > 5)
        }),
{
    lemma_called(item_at(items, 0)->0);
    lemma_called(item_at(items, 1)->0);
    lemma_called(item_at(items, 2)->0);
    lemma_called(item_at(items, 4)->0);
}

/// Any other value is refused for what it is.
pub proof fn law_why_other_values_are_no_rows(value: Json, r: Result<EntrySpec, LoadError>)
    requires
        !(value@ is Object) && !(value@ is Array),
        call_ensures(parse_row, (&value,), r),
    ensures
        r matches Err(error) && error@ == LoadErrorView::InvalidRow(
            wrong_type(value@, "struct EntrySpec"@),
        ),
{
    lemma_called(value@);
}

} // verus!
