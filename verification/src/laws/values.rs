//! Objects, and the order of their fields.

use crate::document::tree_json;
use crate::entries::{LoadError, LoadErrorView};
use crate::json::{
    DEPTH, Json, JsonView, Object, arranged, ascending, canonical, distinct_names, field,
    in_key_order, lemma_key_order_same, lemma_with_field, nested_within, ordered_fields, read_json,
    sorted_fields, with_field, write_json,
};
use crate::laws::trees::law_the_first_field_of_a_name_counts;
use crate::text::{
    lemma_precedes_irreflexive, lemma_precedes_total, lemma_precedes_transitive, precedes,
};
use crate::tree::EntryTree;
use vstd::prelude::*;

verus! {

proof fn lemma_field_push(
    fields: Seq<(Seq<char>, JsonView)>,
    pair: (Seq<char>, JsonView),
    name: Seq<char>,
)
    ensures
        field(fields.push(pair), name) == match field(fields, name) {
            Some(value) => Some(value),
            None => if pair.0 == name {
                Some(pair.1)
            } else {
                None
            },
        },
    decreases fields.len(),
{
    let all = fields.push(pair);
    if fields.len() > 0 {
        assert(all[0] == fields[0]);
        assert(all.drop_first() =~= fields.drop_first().push(pair));
        lemma_field_push(fields.drop_first(), pair, name);
    } else {
        assert(all.drop_first() =~= Seq::<(Seq<char>, JsonView)>::empty());
        assert(field(all.drop_first(), name) is None);
        assert(all[0] == pair);
    }
}

/// Of fields in order, none in front of the last has its name.
proof fn lemma_last_is_alone(fields: Seq<(Seq<char>, JsonView)>, name: Seq<char>)
    requires
        forall|i: int| 0 <= i < fields.len() ==> precedes((#[trigger] fields[i]).0, name),
    ensures
        field(fields, name) is None,
{
    law_the_first_field_of_a_name_counts(fields, name);
    lemma_precedes_irreflexive(name);
}

proof fn lemma_field_with(
    fields: Seq<(Seq<char>, JsonView)>,
    name: Seq<char>,
    value: JsonView,
    other: Seq<char>,
)
    requires
        ascending(fields),
    ensures
        field(with_field(fields, name, value), other) == if other == name {
            Some(value)
        } else {
            field(fields, other)
        },
    decreases fields.len(),
{
    if fields.len() == 0 {
        lemma_field_push(fields, (name, value), other);
    } else {
        let front = fields.drop_last();
        let last = fields.last();
        assert(fields =~= front.push(last));
        assert forall|i: int, j: int| 0 <= i < j < front.len() implies precedes(
            (#[trigger] front[i]).0,
            (#[trigger] front[j]).0,
        ) by {
            assert(precedes(fields[i].0, fields[j].0));
        }
        assert forall|i: int| 0 <= i < front.len() implies precedes(
            (#[trigger] front[i]).0,
            last.0,
        ) by {
            assert(precedes(fields[i].0, fields[fields.len() - 1].0));
        }
        lemma_last_is_alone(front, last.0);
        lemma_field_push(front, last, other);
        if last.0 == name {
            lemma_field_push(front, (name, value), other);
        } else if precedes(name, last.0) {
            lemma_field_with(front, name, value, other);
            lemma_field_push(with_field(front, name, value), last, other);
        } else {
            lemma_precedes_total(name, last.0);
            assert forall|i: int| 0 <= i < fields.len() implies precedes(
                (#[trigger] fields[i]).0,
                name,
            ) by {
                if i < front.len() {
                    assert(precedes(front[i].0, last.0));
                    lemma_precedes_transitive(front[i].0, last.0, name);
                }
            }
            lemma_last_is_alone(fields, name);
            lemma_field_push(fields, (name, value), other);
        }
    }
}

/// What is put into an object is what is read from it, under its name, and
/// under every other name the object is as it was.
pub proof fn law_objects_give_back_what_was_put_in(
    object: &mut Object,
    name: String,
    value: Json,
    asked: &str,
    before: Option<&Json>,
    after: Option<&Json>,
)
    requires
        ascending(old(object)@),
        call_ensures(Object::insert, (object, name, value), ()),
        call_ensures(Object::get, (&*old(object), asked), before),
        call_ensures(Object::get, (&*final(object), asked), after),
    ensures
        asked@ == name@ ==> after is Some && after->0@ == value@,
        asked@ != name@ ==> (after is Some <==> before is Some),
        asked@ != name@ && before is Some ==> after->0@ == before->0@,
        forall|i: int, j: int|
            0 <= i < j < final(object)@.len() ==> precedes(
                (#[trigger] final(object)@[i]).0,
                (#[trigger] final(object)@[j]).0,
            ),
{
    lemma_field_with(old(object)@, name@, value@, asked@);
}

/// The value of the last field of a name.
pub open spec fn last_field(fields: Seq<(Seq<char>, JsonView)>, name: Seq<char>) -> Option<
    JsonView,
>
    decreases fields.len(),
{
    if fields.len() == 0 {
        None
    } else if fields.last().0 == name {
        Some(fields.last().1)
    } else {
        last_field(fields.drop_last(), name)
    }
}

proof fn lemma_sorted_lookup(fields: Seq<(Seq<char>, JsonView)>, name: Seq<char>)
    ensures
        ascending(sorted_fields(fields)),
        field(sorted_fields(fields), name) == last_field(fields, name),
    decreases fields.len(),
{
    if fields.len() > 0 {
        let front = fields.drop_last();
        lemma_sorted_lookup(front, name);
        lemma_with_field(sorted_fields(front), fields.last().0, fields.last().1);
        lemma_field_with(sorted_fields(front), fields.last().0, fields.last().1, name);
    }
}

proof fn lemma_last_ordered(value: JsonView, fields: Seq<(Seq<char>, JsonView)>, name: Seq<char>, n: nat)
    requires
        value == JsonView::Object(fields),
        n <= fields.len(),
    ensures
        last_field(ordered_fields(value).take(n as int), name) == match last_field(
            fields.take(n as int),
            name,
        ) {
            Some(inner) => Some(in_key_order(inner)),
            None => None,
        },
    decreases n,
{
    let all = ordered_fields(value);
    if n > 0 {
        lemma_last_ordered(value, fields, name, (n - 1) as nat);
        assert(all.take(n as int).drop_last() =~= all.take(n - 1));
        assert(fields.take(n as int).drop_last() =~= fields.take(n - 1));
        assert(all[n - 1] == (fields[n - 1].0, in_key_order(fields[n - 1].1)));
        assert(all.take(n as int).last() == all[n - 1]);
        assert(fields.take(n as int).last() == fields[n - 1]);
    }
}

/// Putting a value in order moves fields and nothing else: every object within
/// has its fields by name, each name once, and under each name what it had
/// there last; arrays keep their items in place, and everything else stays.
pub proof fn law_ordering_moves_fields_only(value: Json, r: Json, name: Seq<char>)
    requires
        call_ensures(arranged, (&value,), r),
    ensures
        match (value@, r@) {
            (JsonView::Object(fields), JsonView::Object(out)) => {
                &&& forall|i: int, j: int|
                    0 <= i < j < out.len() ==> precedes(
                        (#[trigger] out[i]).0,
                        (#[trigger] out[j]).0,
                    )
                &&& field(out, name) == match last_field(fields, name) {
                    Some(inner) => Some(in_key_order(inner)),
                    None => None,
                }
            },
            (JsonView::Array(items), JsonView::Array(out)) => {
                &&& out.len() == items.len()
                &&& forall|i: int|
                    0 <= i < items.len() ==> #[trigger] out[i] == in_key_order(items[i])
            },
            (JsonView::Object(_), _) => false,
            (JsonView::Array(_), _) => false,
            _ => r@ == value@,
        },
        canonical(value@) ==> r@ == value@,
{
    if let JsonView::Object(fields) = value@ {
        lemma_sorted_lookup(ordered_fields(value@), name);
        lemma_last_ordered(value@, fields, name, fields.len());
        assert(fields.take(fields.len() as int) =~= fields);
        assert(ordered_fields(value@).take(fields.len() as int) =~= ordered_fields(value@));
    }
    if canonical(value@) {
        lemma_key_order_same(value@);
    }
}

/// A copy of a value is the value.
pub proof fn law_copies_are_the_same(value: Json, r: Json)
    requires
        call_ensures(Json::copy, (&value,), r),
    ensures
        r@ == value@,
{
}

/// A value that was written is read back, with the fields of its objects in
/// order.
pub proof fn law_written_values_are_read_back(
    value: Json,
    written: Option<String>,
    text: &str,
    r: Result<Json, String>,
)
    requires
        distinct_names(value@),
        nested_within(value@, DEPTH as nat),
        call_ensures(write_json, (&value,), written),
        written is Some ==> text@ == written->0@,
        call_ensures(read_json, (text,), r),
    ensures
        written is Some,
        r is Ok,
        r->Ok_0@ == in_key_order(value@),
        canonical(value@) ==> r->Ok_0@ == value@,
{
    if canonical(value@) {
        lemma_key_order_same(value@);
    }
}

/// A tree that was written is read back, row by row.
pub proof fn law_written_trees_are_read_back(
    tree: EntryTree,
    written: Result<String, LoadError>,
    text: &str,
    r: Result<EntryTree, LoadError>,
)
    requires
        tree.wf(),
        nested_within(tree_json(tree@), DEPTH as nat),
        call_ensures(EntryTree::to_json_str, (&tree,), written),
        written is Ok ==> text@ == written->Ok_0@,
        call_ensures(EntryTree::from_json_str, (text,), r),
    ensures
        written is Ok,
        r is Ok,
        r->Ok_0@ == tree@,
{
}

/// Reading a tree from a document is reading the document and then the tree
/// from its value; a text that is no document is refused with the reason.
pub proof fn law_documents_are_read_as_values(
    text: &str,
    r: Result<EntryTree, LoadError>,
    read: Result<Json, String>,
    from: Result<EntryTree, LoadError>,
)
    requires
        call_ensures(EntryTree::from_json_str, (text,), r),
        call_ensures(read_json, (text,), read),
        read matches Ok(value) ==> call_ensures(EntryTree::from_value, (&value,), from),
    ensures
        read matches Err(reason) ==> r is Err && r->Err_0@ == LoadErrorView::InvalidDocument(
            reason@,
        ),
        read is Ok ==> (r is Ok <==> from is Ok),
        read is Ok && r is Ok ==> r->Ok_0@ == from->Ok_0@,
        read is Ok && r is Err ==> r->Err_0@ == from->Err_0@,
{
    if let Ok(value) = read {
        lemma_key_order_same(value@);
    }
}

} // verus!
