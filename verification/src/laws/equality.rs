//! When two values, and two entries, are equal.

use crate::entries::{EntrySpec, EntryView, same_entry};
use crate::json::{Json, JsonView, field, lemma_same_json_reflexive, same_json};
use vstd::prelude::*;
use vstd::std_specs::cmp::PartialEqSpec;

verus! {

/// Whether no number within is a zero written with a fraction. Those are the
/// only values that have two spellings.
pub open spec fn exact(value: JsonView) -> bool
    decreases value,
{
    match value {
        JsonView::Number(text) => text != "0.0"@ && text != "-0.0"@,
        JsonView::Array(items) => forall|i: int|
            0 <= i < items.len() ==> exact(#[trigger] items[i]),
        JsonView::Object(fields) => forall|i: int|
            0 <= i < fields.len() ==> exact((#[trigger] fields[i]).1),
        _ => true,
    }
}

/// Equality of values means equality: a value without a zero fraction equals
/// itself and nothing else.
pub proof fn law_equal_values_are_the_same(a: JsonView, b: JsonView)
    requires
        exact(a),
    ensures
        same_json(a, b) <==> a == b,
    decreases a,
{
    lemma_same_json_reflexive(a);
    if same_json(a, b) {
        match (a, b) {
            (JsonView::Array(x), JsonView::Array(y)) => {
                assert forall|i: int| 0 <= i < x.len() implies x[i] == y[i] by {
                    assert(exact(x[i]) && same_json(x[i], y[i]));
                    law_equal_values_are_the_same(x[i], y[i]);
                }
                assert(x =~= y);
            },
            (JsonView::Object(x), JsonView::Object(y)) => {
                assert forall|i: int| 0 <= i < x.len() implies x[i] == y[i] by {
                    assert(exact(x[i].1) && x[i].0 == y[i].0 && same_json(x[i].1, y[i].1));
                    law_equal_values_are_the_same(x[i].1, y[i].1);
                }
                assert(x =~= y);
            },
            _ => {},
        }
    }
}

/// The value with the sign of every zero fraction within dropped.
pub open spec fn unsigned(value: JsonView) -> JsonView
    decreases value,
{
    match value {
        JsonView::Number(text) => if text == "-0.0"@ {
            JsonView::Number("0.0"@)
        } else {
            value
        },
        JsonView::Array(items) => JsonView::Array(
            Seq::new(
                items.len(),
                |i: int|
                    if 0 <= i < items.len() {
                        unsigned(items[i])
                    } else {
                        JsonView::Null
                    },
            ),
        ),
        JsonView::Object(fields) => JsonView::Object(
            Seq::new(
                fields.len(),
                |i: int|
                    if 0 <= i < fields.len() {
                        (fields[i].0, unsigned(fields[i].1))
                    } else {
                        (Seq::empty(), JsonView::Null)
                    },
            ),
        ),
        _ => value,
    }
}

/// Two values are equal exactly where they are the same but for the signs of
/// zero fractions: nothing else is passed over, on either side.
pub proof fn law_equality_passes_over_the_sign_of_zero(a: JsonView, b: JsonView)
    ensures
        same_json(a, b) <==> unsigned(a) == unsigned(b),
    decreases a,
{
    match (a, b) {
        (JsonView::Array(x), JsonView::Array(y)) => {
            let (u, v) = (unsigned(a)->Array_0, unsigned(b)->Array_0);
            if x.len() == y.len() {
                assert forall|i: int| 0 <= i < x.len() implies (same_json(#[trigger] x[i], y[i])
                    <==> u[i] == v[i]) by {
                    law_equality_passes_over_the_sign_of_zero(x[i], y[i]);
                }
                if same_json(a, b) {
                    assert forall|i: int| 0 <= i < u.len() implies u[i] == v[i] by {
                        assert(same_json(x[i], y[i]));
                    }
                    assert(u =~= v);
                }
                if u == v {
                    assert forall|i: int| 0 <= i < x.len() implies same_json(
                        #[trigger] x[i],
                        y[i],
                    ) by {
                        assert(u[i] == v[i]);
                    }
                }
            } else {
                assert(u.len() != v.len());
            }
        },
        (JsonView::Object(x), JsonView::Object(y)) => {
            let (u, v) = (unsigned(a)->Object_0, unsigned(b)->Object_0);
            if x.len() == y.len() {
                assert forall|i: int| 0 <= i < x.len() implies ((#[trigger] x[i]).0 == y[i].0
                    && same_json(x[i].1, y[i].1) <==> u[i] == v[i]) by {
                    law_equality_passes_over_the_sign_of_zero(x[i].1, y[i].1);
                }
                if same_json(a, b) {
                    assert forall|i: int| 0 <= i < u.len() implies u[i] == v[i] by {
                        assert(x[i].0 == y[i].0 && same_json(x[i].1, y[i].1));
                    }
                    assert(u =~= v);
                }
                if u == v {
                    assert forall|i: int| 0 <= i < x.len() implies (#[trigger] x[i]).0 == y[i].0
                        && same_json(x[i].1, y[i].1) by {
                        assert(u[i] == v[i]);
                    }
                }
            } else {
                assert(u.len() != v.len());
            }
        },
        _ => {},
    }
}

/// Equality is reflexive, symmetric and transitive.
pub proof fn law_equality_is_an_equivalence(a: JsonView, b: JsonView, c: JsonView)
    ensures
        same_json(a, a),
        same_json(a, b) == same_json(b, a),
        same_json(a, b) && same_json(b, c) ==> same_json(a, c),
{
    law_equality_passes_over_the_sign_of_zero(a, a);
    law_equality_passes_over_the_sign_of_zero(a, b);
    law_equality_passes_over_the_sign_of_zero(b, a);
    law_equality_passes_over_the_sign_of_zero(b, c);
    law_equality_passes_over_the_sign_of_zero(a, c);
}

/// Equal objects have the same fields: under every name either both have
/// nothing, or both have a value and the two are equal.
pub proof fn law_equal_objects_have_equal_fields(
    x: Seq<(Seq<char>, JsonView)>,
    y: Seq<(Seq<char>, JsonView)>,
    name: Seq<char>,
)
    requires
        same_json(JsonView::Object(x), JsonView::Object(y)),
    ensures
        x.len() == y.len(),
        forall|i: int| 0 <= i < x.len() ==> (#[trigger] x[i]).0 == y[i].0,
        field(x, name) is Some <==> field(y, name) is Some,
        field(x, name) matches Some(value) ==> same_json(value, field(y, name)->0),
    decreases x.len(),
{
    if x.len() > 0 {
        assert(x[0].0 == y[0].0 && same_json(x[0].1, y[0].1));
        let (p, q) = (x.drop_first(), y.drop_first());
        assert forall|i: int| 0 <= i < p.len() implies (#[trigger] p[i]).0 == q[i].0 && same_json(
            p[i].1,
            q[i].1,
        ) by {
            assert(x[i + 1].0 == y[i + 1].0 && same_json(x[i + 1].1, y[i + 1].1));
        }
        law_equal_objects_have_equal_fields(p, q, name);
    }
}

/// Comparing two values says whether they are equal.
pub proof fn law_comparing_values(a: Json, b: Json, r: bool)
    requires
        call_ensures(Json::same, (&a, &b), r),
    ensures
        r <==> unsigned(a@) == unsigned(b@),
        exact(a@) ==> (r <==> a@ == b@),
{
    law_equality_passes_over_the_sign_of_zero(a@, b@);
    if exact(a@) {
        law_equal_values_are_the_same(a@, b@);
    }
}

/// Whether two rows are the same in every part, the signs of zero fractions
/// in their configs aside.
pub open spec fn alike(a: EntryView, b: EntryView) -> bool {
    &&& a.id == b.id
    &&& a.plugin == b.plugin
    &&& a.parent == b.parent
    &&& a.disabled == b.disabled
    &&& a.config is Some == b.config is Some
    &&& a.config is Some ==> unsigned(a.config->0) == unsigned(b.config->0)
}

/// Two rows are equal exactly where they are the same in every part; without
/// zero fractions that is where they are one and the same row.
pub proof fn law_equal_entries_are_alike(a: EntryView, b: EntryView)
    ensures
        same_entry(a, b) <==> alike(a, b),
        (a.config matches Some(value) ==> exact(value)) ==> (same_entry(a, b) <==> a == b),
{
    if a.config is Some && b.config is Some {
        law_equality_passes_over_the_sign_of_zero(a.config->0, b.config->0);
        if exact(a.config->0) {
            law_equal_values_are_the_same(a.config->0, b.config->0);
        }
    }
    if same_entry(a, b) && (a.config matches Some(value) ==> exact(value)) {
        assert(a =~= b);
    }
    if a == b && a.config is Some {
        lemma_same_json_reflexive(a.config->0);
    }
}

/// Comparing two rows says whether they are the same in every part.
pub proof fn law_comparing_entries(a: EntrySpec, b: EntrySpec, r: bool)
    requires
        call_ensures(EntrySpec::same, (&a, &b), r),
    ensures
        r <==> alike(a@, b@),
{
    law_equal_entries_are_alike(a@, b@);
}

/// Comparing with `==` is comparing in every part.
pub proof fn law_operators_compare_in_every_part(
    a: Json,
    b: Json,
    x: EntrySpec,
    y: EntrySpec,
)
    ensures
        Json::obeys_eq_spec(),
        EntrySpec::obeys_eq_spec(),
        a.eq_spec(&b) <==> unsigned(a@) == unsigned(b@),
        x.eq_spec(&y) <==> alike(x@, y@),
{
    law_equality_passes_over_the_sign_of_zero(a@, b@);
    law_equal_entries_are_alike(x@, y@);
}

/// A row is enabled unless it is disabled, a group exactly where it names no
/// plugin, and its copy is the row.
pub proof fn law_what_a_row_says_of_itself(row: EntrySpec, on: bool, group: bool, copy: EntrySpec)
    requires
        call_ensures(EntrySpec::enabled, (&row,), on),
        call_ensures(EntrySpec::is_group, (&row,), group),
        call_ensures(EntrySpec::copy, (&row,), copy),
    ensures
        !on <==> row.disabled == Some(true),
        group <==> row.plugin is None,
        copy@ == row@,
{
}

} // verus!
