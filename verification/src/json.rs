//! JSON values.

use crate::text::{
    in_order, lemma_precedes_irreflexive, lemma_precedes_total, lemma_precedes_transitive, precedes,
    same_text, text_before,
};
use vstd::prelude::*;
use vstd::std_specs::cmp::PartialEqSpecImpl;

verus! {

/// What a JSON value is. The fields of an object are listed in their order.
#[verifier::ext_equal]
pub enum JsonView {
    Null,
    Bool(bool),
    /// A number, as it is written.
    Number(Seq<char>),
    Text(Seq<char>),
    Array(Seq<JsonView>),
    Object(Seq<(Seq<char>, JsonView)>),
}

/// A JSON number, kept as it is written.
#[derive(Debug)]
pub struct Number {
    text: String,
}

impl Number {
    /// The text is what it reads back as.
    #[verifier::type_invariant]
    spec fn reads_back(&self) -> bool {
        parsed_json(self.text@) == Ok::<JsonView, Seq<char>>(JsonView::Number(self.text@))
    }

    /// The number as it is written.
    pub(crate) fn text(&self) -> (r: &String)
        ensures
            json_view(Json::Number(*self)) == JsonView::Number(r@),
    {
        &self.text
    }
}

/// The fields of a JSON object.
#[derive(Debug)]
pub struct Object {
    fields: Vec<(String, Json)>,
}

/// A JSON value.
#[derive(Debug)]
pub enum Json {
    Null,
    Bool(bool),
    Number(Number),
    String(String),
    Array(Vec<Json>),
    Object(Object),
}

/// What a JSON value is.
pub closed spec fn json_view(value: Json) -> JsonView
    decreases value,
{
    match value {
        Json::Null => JsonView::Null,
        Json::Bool(b) => JsonView::Bool(b),
        Json::Number(n) => JsonView::Number(n.text@),
        Json::String(s) => JsonView::Text(s@),
        Json::Array(items) => JsonView::Array(
            Seq::new(
                items@.len(),
                |i: int|
                    if 0 <= i < items@.len() {
                        json_view(items@[i])
                    } else {
                        JsonView::Null
                    },
            ),
        ),
        Json::Object(object) => JsonView::Object(
            Seq::new(
                object.fields@.len(),
                |i: int|
                    if 0 <= i < object.fields@.len() {
                        (object.fields@[i].0@, json_view(object.fields@[i].1))
                    } else {
                        (Seq::empty(), JsonView::Null)
                    },
            ),
        ),
    }
}

impl View for Json {
    type V = JsonView;

    open spec fn view(&self) -> JsonView {
        json_view(*self)
    }
}

/// Whether two values are equal: they are written alike, but that a zero with
/// a sign equals one without.
pub open spec fn same_json(a: JsonView, b: JsonView) -> bool
    decreases a,
{
    match (a, b) {
        (JsonView::Null, JsonView::Null) => true,
        (JsonView::Bool(x), JsonView::Bool(y)) => x == y,
        (JsonView::Number(x), JsonView::Number(y)) => x == y || (is_zero(x) && is_zero(y)),
        (JsonView::Text(x), JsonView::Text(y)) => x == y,
        (JsonView::Array(x), JsonView::Array(y)) => x.len() == y.len() && forall|i: int|
            0 <= i < x.len() ==> same_json(#[trigger] x[i], y[i]),
        (JsonView::Object(x), JsonView::Object(y)) => x.len() == y.len() && forall|i: int|
            0 <= i < x.len() ==> (#[trigger] x[i]).0 == y[i].0 && same_json(x[i].1, y[i].1),
        _ => false,
    }
}

/// Whether a number with a fraction is zero.
pub open spec fn is_zero(number: Seq<char>) -> bool {
    number == "0.0"@ || number == "-0.0"@
}

/// Every value equals itself.
pub proof fn lemma_same_json_reflexive(a: JsonView)
    ensures
        same_json(a, a),
    decreases a,
{
    match a {
        JsonView::Array(x) => {
            assert forall|i: int| 0 <= i < x.len() implies same_json(#[trigger] x[i], x[i]) by {
                lemma_same_json_reflexive(x[i]);
            }
        },
        JsonView::Object(x) => {
            assert forall|i: int| 0 <= i < x.len() implies same_json(
                (#[trigger] x[i]).1,
                x[i].1,
            ) by {
                lemma_same_json_reflexive(x[i].1);
            }
        },
        _ => {},
    }
}

impl Json {
    /// A copy of the value.
    pub fn copy(&self) -> (r: Json)
        ensures
            r@ == self@,
        decreases self,
    {
        match self {
            Json::Null => Json::Null,
            Json::Bool(b) => Json::Bool(*b),
            Json::Number(n) => {
                proof {
                    use_type_invariant(n);
                }
                Json::Number(Number { text: n.text.clone() })
            },
            Json::String(s) => Json::String(s.clone()),
            Json::Array(items) => {
                let mut out: Vec<Json> = Vec::new();
                let mut i: usize = 0;
                while i < items.len()
                    invariant
                        i <= items@.len(),
                        out@.len() == i,
                        *self == Json::Array(*items),
                        forall|j: int| 0 <= j < i ==> (#[trigger] out@[j])@ == items@[j]@,
                    decreases items@.len() - i,
                {
                    assert(self->Array_0 == *items);
                    assert(decreases_to!(*self => items@[i as int]));
                    out.push(items[i].copy());
                    i = i + 1;
                }
                let r = Json::Array(out);
                assert(r@->Array_0 =~= self@->Array_0);
                r
            },
            Json::Object(object) => {
                let mut out: Vec<(String, Json)> = Vec::new();
                let mut i: usize = 0;
                while i < object.fields.len()
                    invariant
                        i <= object.fields@.len(),
                        out@.len() == i,
                        *self == Json::Object(*object),
                        forall|j: int|
                            0 <= j < i ==> (#[trigger] out@[j]).0@ == object.fields@[j].0@
                                && out@[j].1@ == object.fields@[j].1@,
                    decreases object.fields@.len() - i,
                {
                    assert(self->Object_0 == *object);
                    assert(decreases_to!(*self => object.fields@[i as int].1));
                    let name = object.fields[i].0.clone();
                    let value = object.fields[i].1.copy();
                    out.push((name, value));
                    i = i + 1;
                }
                let r = Json::Object(Object { fields: out });
                assert(r@->Object_0 =~= self@->Object_0);
                r
            },
        }
    }

    /// Whether two values are equal.
    pub fn same(&self, other: &Json) -> (r: bool)
        ensures
            r == same_json(self@, other@),
        decreases self,
    {
        match (self, other) {
            (Json::Null, Json::Null) => true,
            (Json::Bool(x), Json::Bool(y)) => *x == *y,
            (Json::Number(x), Json::Number(y)) => x.text == y.text || (is_zero_text(
                x.text.as_str(),
            ) && is_zero_text(y.text.as_str())),
            (Json::String(x), Json::String(y)) => *x == *y,
            (Json::Array(x), Json::Array(y)) => {
                let ghost (a, b) = (self@->Array_0, other@->Array_0);
                if x.len() != y.len() {
                    return false;
                }
                let mut i: usize = 0;
                while i < x.len()
                    invariant
                        i <= x@.len(),
                        x@.len() == y@.len(),
                        *self == Json::Array(*x),
                        *other == Json::Array(*y),
                        a == self@->Array_0,
                        b == other@->Array_0,
                        forall|j: int| 0 <= j < i ==> same_json(#[trigger] a[j], b[j]),
                    decreases x@.len() - i,
                {
                    assert(decreases_to!(*self => x@[i as int]));
                    assert(a[i as int] == x@[i as int]@ && b[i as int] == y@[i as int]@);
                    if !x[i].same(&y[i]) {
                        return false;
                    }
                    i = i + 1;
                }
                true
            },
            (Json::Object(x), Json::Object(y)) => {
                let ghost (a, b) = (self@->Object_0, other@->Object_0);
                if x.fields.len() != y.fields.len() {
                    return false;
                }
                let mut i: usize = 0;
                while i < x.fields.len()
                    invariant
                        i <= x.fields@.len(),
                        x.fields@.len() == y.fields@.len(),
                        *self == Json::Object(*x),
                        *other == Json::Object(*y),
                        a == self@->Object_0,
                        b == other@->Object_0,
                        forall|j: int|
                            0 <= j < i ==> (#[trigger] a[j]).0 == b[j].0 && same_json(
                                a[j].1,
                                b[j].1,
                            ),
                    decreases x.fields@.len() - i,
                {
                    assert(decreases_to!(*self => x.fields@[i as int].1));
                    assert(a[i as int] == (x.fields@[i as int].0@, x.fields@[i as int].1@));
                    assert(b[i as int] == (y.fields@[i as int].0@, y.fields@[i as int].1@));
                    if x.fields[i].0 != y.fields[i].0 || !x.fields[i].1.same(&y.fields[i].1) {
                        return false;
                    }
                    i = i + 1;
                }
                true
            },
            _ => false,
        }
    }
}

impl Clone for Json {
    fn clone(&self) -> (r: Self)
        ensures
            r@ == self@,
    {
        self.copy()
    }
}

impl PartialEq for Json {
    fn eq(&self, other: &Self) -> (r: bool) {
        self.same(other)
    }
}

impl PartialEqSpecImpl for Json {
    open spec fn obeys_eq_spec() -> bool {
        true
    }

    open spec fn eq_spec(&self, other: &Self) -> bool {
        same_json(self@, other@)
    }
}

/// Whether a number with a fraction is zero.
fn is_zero_text(text: &str) -> (r: bool)
    ensures
        r == is_zero(text@),
{
    same_text(text, "0.0") || same_text(text, "-0.0")
}

// ---- objects ----

/// The value of the first field with this name.
pub open spec fn field(fields: Seq<(Seq<char>, JsonView)>, name: Seq<char>) -> Option<JsonView>
    decreases fields.len(),
{
    if fields.len() == 0 {
        None
    } else if fields[0].0 == name {
        Some(fields[0].1)
    } else {
        field(fields.drop_first(), name)
    }
}

/// Whether the fields are in the order of their names, each name once.
pub open spec fn ascending(fields: Seq<(Seq<char>, JsonView)>) -> bool {
    forall|i: int, j: int|
        0 <= i < j < fields.len() ==> precedes((#[trigger] fields[i]).0, (#[trigger] fields[j]).0)
}

/// The fields, which are in order, with one more: it goes to its place, and
/// takes that of a field with the same name.
pub open spec fn with_field(
    fields: Seq<(Seq<char>, JsonView)>,
    name: Seq<char>,
    value: JsonView,
) -> Seq<(Seq<char>, JsonView)>
    decreases fields.len(),
{
    if fields.len() == 0 {
        fields.push((name, value))
    } else if fields.last().0 == name {
        fields.drop_last().push((name, value))
    } else if precedes(name, fields.last().0) {
        with_field(fields.drop_last(), name, value).push(fields.last())
    } else {
        fields.push((name, value))
    }
}

pub proof fn lemma_with_field(
    fields: Seq<(Seq<char>, JsonView)>,
    name: Seq<char>,
    value: JsonView,
)
    requires
        ascending(fields),
    ensures
        ascending(with_field(fields, name, value)),
        forall|i: int|
            0 <= i < with_field(fields, name, value).len() ==> (#[trigger] with_field(
                fields,
                name,
                value,
            )[i]) == (name, value) || fields.contains(with_field(fields, name, value)[i]),
    decreases fields.len(),
{
    let out = with_field(fields, name, value);
    if fields.len() > 0 {
        let front = fields.drop_last();
        let last = fields.last();
        assert forall|i: int, j: int| 0 <= i < j < front.len() implies precedes(
            (#[trigger] front[i]).0,
            (#[trigger] front[j]).0,
        ) by {
            assert(precedes(fields[i].0, fields[j].0));
        }
        assert forall|i: int| 0 <= i < front.len() implies precedes(
            (#[trigger] front[i]).0,
            last.0,
        ) by {
            assert(precedes(fields[i].0, fields[fields.len() - 1].0));
        }
        if last.0 == name {
        } else if precedes(name, last.0) {
            lemma_with_field(front, name, value);
            let mid = with_field(front, name, value);
            assert forall|i: int, j: int| 0 <= i < j < out.len() implies precedes(
                (#[trigger] out[i]).0,
                (#[trigger] out[j]).0,
            ) by {
                if j < mid.len() {
                    assert(precedes(mid[i].0, mid[j].0));
                } else if mid[i] != (name, value) {
                    assert(front.contains(mid[i]));
                    let a = choose|a: int| 0 <= a < front.len() && front[a] == mid[i];
                    assert(precedes(front[a].0, last.0));
                }
            }
            assert forall|i: int| 0 <= i < out.len() implies (#[trigger] out[i]) == (name, value)
                || fields.contains(out[i]) by {
                if i < mid.len() {
                    if mid[i] != (name, value) {
                        assert(front.contains(mid[i]));
                        let a = choose|a: int| 0 <= a < front.len() && front[a] == mid[i];
                        assert(fields[a] == mid[i]);
                    }
                } else {
                    assert(fields[fields.len() - 1] == out[i]);
                }
            }
        } else {
            lemma_precedes_total(name, last.0);
            assert forall|i: int, j: int| 0 <= i < j < out.len() implies precedes(
                (#[trigger] out[i]).0,
                (#[trigger] out[j]).0,
            ) by {
                if j < fields.len() {
                    assert(precedes(fields[i].0, fields[j].0));
                } else if i < front.len() {
                    assert(precedes(front[i].0, last.0));
                    lemma_precedes_transitive(front[i].0, last.0, name);
                }
            }
        }
        assert forall|i: int| 0 <= i < out.len() implies (#[trigger] out[i]) == (name, value)
            || fields.contains(out[i]) by {
            if last.0 == name {
                if i < front.len() {
                    assert(fields[i] == out[i]);
                }
            } else if !precedes(name, last.0) {
                if i < fields.len() {
                    assert(fields[i] == out[i]);
                }
            }
        }
    }
}

impl View for Object {
    type V = Seq<(Seq<char>, JsonView)>;

    closed spec fn view(&self) -> Seq<(Seq<char>, JsonView)> {
        Seq::new(
            self.fields@.len(),
            |i: int| (self.fields@[i].0@, json_view(self.fields@[i].1)),
        )
    }
}

/// An object is what its fields are.
pub broadcast proof fn lemma_object_view(object: Object)
    ensures
        #[trigger] json_view(Json::Object(object)) == JsonView::Object(object@),
{
    assert(json_view(Json::Object(object))->Object_0 =~= object@);
}

/// What the simple values are.
pub broadcast proof fn lemma_value_view(value: Json)
    ensures
        #![trigger json_view(value)]
        value is Null ==> json_view(value) == JsonView::Null,
        value is Bool ==> json_view(value) == JsonView::Bool(value->Bool_0),
        value is Number ==> json_view(value) == json_view(Json::Number(value->Number_0)) && json_view(
            value,
        ) is Number,
        value is String ==> json_view(value) == JsonView::Text(value->String_0@),
        value is Array ==> json_view(value) is Array && json_view(value)->Array_0.len()
            == value->Array_0@.len() && forall|i: int|
            0 <= i < value->Array_0@.len() ==> #[trigger] json_view(value)->Array_0[i]
                == json_view(value->Array_0@[i]),
        value is Object ==> json_view(value) == JsonView::Object(value->Object_0@),
{
    if let Json::Object(object) = value {
        lemma_object_view(object);
    }
}

impl Object {
    /// An object without fields.
    pub fn new() -> (r: Self)
        ensures
            r@ == Seq::<(Seq<char>, JsonView)>::empty(),
    {
        let r = Object { fields: Vec::new() };
        assert(r@ =~= Seq::<(Seq<char>, JsonView)>::empty());
        r
    }

    /// An object with the given fields, in the given order.
    pub(crate) fn in_order(fields: Vec<(String, Json)>) -> (r: Self)
        ensures
            r@.len() == fields@.len(),
            forall|i: int|
                0 <= i < fields@.len() ==> #[trigger] r@[i] == (fields@[i].0@, fields@[i].1@),
    {
        Object { fields }
    }

    /// The value of the first field with this name.
    pub fn get(&self, name: &str) -> (r: Option<&Json>)
        ensures
            match r {
                Some(value) => field(self@, name@) == Some(value@),
                None => field(self@, name@) is None,
            },
    {
        let mut i: usize = 0;
        assert(self@.skip(0) =~= self@);
        while i < self.fields.len()
            invariant
                i <= self.fields@.len(),
                self@.len() == self.fields@.len(),
                field(self@.skip(i as int), name@) == field(self@, name@),
            decreases self.fields@.len() - i,
        {
            assert(self@.skip(i as int).drop_first() =~= self@.skip(i + 1));
            assert(self@.skip(i as int)[0] == self@[i as int]);
            if same_text(self.fields[i].0.as_str(), name) {
                return Some(&self.fields[i].1);
            }
            i = i + 1;
        }
        None
    }

    /// Adds a field to an object whose fields are in order: it goes to its
    /// place, and takes that of a field with the same name.
    pub fn insert(&mut self, name: String, value: Json)
        requires
            ascending(old(self)@),
        ensures
            final(self)@ == with_field(old(self)@, name@, value@),
            ascending(final(self)@),
    {
        let ghost all = self@;
        let ghost n = name@;
        let ghost v = value@;
        proof {
            lemma_with_field(all, n, v);
        }
        let mut i: usize = self.fields.len();
        proof {
            assert(all.take(i as int) =~= all);
            assert(with_field(all.take(i as int), n, v) + all.skip(i as int) =~= with_field(
                all,
                n,
                v,
            ));
        }
        while i > 0 && text_before(name.as_str(), self.fields[i - 1].0.as_str())
            invariant
                i <= self.fields@.len(),
                all == self@,
                all.len() == self.fields@.len(),
                n == name@,
                with_field(all.take(i as int), n, v) + all.skip(i as int) == with_field(
                    all,
                    n,
                    v,
                ),
            decreases i,
        {
            proof {
                let t = all.take(i as int);
                assert(t.last() == all[i - 1]);
                assert(t.drop_last() =~= all.take(i - 1));
                lemma_precedes_irreflexive(n);
                assert(with_field(all.take(i - 1), n, v) + all.skip(i - 1) =~= with_field(
                    t,
                    n,
                    v,
                ) + all.skip(i as int));
            }
            i = i - 1;
        }
        let ghost t = all.take(i as int);
        if i > 0 && self.fields[i - 1].0 == name {
            proof {
                assert(t.last() == all[i - 1]);
                assert(with_field(t, n, v) == t.drop_last().push((n, v)));
                assert(t.drop_last().push((n, v)) + all.skip(i as int) =~= all.update(
                    i - 1,
                    (n, v),
                ));
            }
            self.fields[i - 1] = (name, value);
            assert(self@ =~= all.update(i - 1, (n, v)));
        } else {
            proof {
                if i > 0 {
                    assert(t.last() == all[i - 1]);
                }
                assert(with_field(t, n, v) == t.push((n, v)));
                assert(t.push((n, v)) + all.skip(i as int) =~= all.insert(i as int, (n, v)));
            }
            self.fields.insert(i, (name, value));
            assert(self@ =~= all.insert(i as int, (n, v)));
        }
    }
}

// ---- order ----

/// Whether the fields of every object within are in order.
pub open spec fn canonical(value: JsonView) -> bool
    decreases value,
{
    match value {
        JsonView::Array(items) => forall|i: int|
            0 <= i < items.len() ==> canonical(#[trigger] items[i]),
        JsonView::Object(fields) => ascending(fields) && forall|i: int|
            0 <= i < fields.len() ==> canonical((#[trigger] fields[i]).1),
        _ => true,
    }
}

/// The fields in order.
pub open spec fn sorted_fields(fields: Seq<(Seq<char>, JsonView)>) -> Seq<(Seq<char>, JsonView)>
    decreases fields.len(),
{
    if fields.len() == 0 {
        fields
    } else {
        with_field(sorted_fields(fields.drop_last()), fields.last().0, fields.last().1)
    }
}

/// The value with the fields of every object within put in order.
pub open spec fn in_key_order(value: JsonView) -> JsonView
    decreases value, 1nat,
{
    match value {
        JsonView::Array(items) => JsonView::Array(
            Seq::new(
                items.len(),
                |i: int|
                    if 0 <= i < items.len() {
                        in_key_order(items[i])
                    } else {
                        JsonView::Null
                    },
            ),
        ),
        JsonView::Object(fields) => JsonView::Object(sorted_fields(ordered_fields(value))),
        _ => value,
    }
}

/// The fields of an object, with the fields of every object within them put
/// in order.
pub open spec fn ordered_fields(value: JsonView) -> Seq<(Seq<char>, JsonView)>
    decreases value, 0nat,
{
    match value {
        JsonView::Object(fields) => Seq::new(
            fields.len(),
            |i: int|
                if 0 <= i < fields.len() {
                    (fields[i].0, in_key_order(fields[i].1))
                } else {
                    (Seq::empty(), JsonView::Null)
                },
        ),
        _ => Seq::empty(),
    }
}

proof fn lemma_sorted_fields(fields: Seq<(Seq<char>, JsonView)>)
    ensures
        ascending(sorted_fields(fields)),
        forall|i: int|
            0 <= i < sorted_fields(fields).len() ==> fields.contains(
                #[trigger] sorted_fields(fields)[i],
            ),
    decreases fields.len(),
{
    if fields.len() > 0 {
        let front = fields.drop_last();
        let last = fields.last();
        lemma_sorted_fields(front);
        lemma_with_field(sorted_fields(front), last.0, last.1);
        let out = sorted_fields(fields);
        assert forall|i: int| 0 <= i < out.len() implies fields.contains(#[trigger] out[i]) by {
            if out[i] == (last.0, last.1) {
                assert(fields[fields.len() - 1] == out[i]);
            } else {
                assert(sorted_fields(front).contains(out[i]));
                let a = choose|a: int|
                    0 <= a < sorted_fields(front).len() && sorted_fields(front)[a] == out[i];
                assert(front.contains(sorted_fields(front)[a]));
                let b = choose|b: int| 0 <= b < front.len() && front[b] == out[i];
                assert(fields[b] == out[i]);
            }
        }
    }
}

/// Fields that are in order stay as they are.
proof fn lemma_sorted_fields_same(fields: Seq<(Seq<char>, JsonView)>)
    requires
        ascending(fields),
    ensures
        sorted_fields(fields) == fields,
    decreases fields.len(),
{
    if fields.len() > 0 {
        let front = fields.drop_last();
        let last = fields.last();
        assert forall|i: int, j: int| 0 <= i < j < front.len() implies precedes(
            (#[trigger] front[i]).0,
            (#[trigger] front[j]).0,
        ) by {
            assert(precedes(fields[i].0, fields[j].0));
        }
        lemma_sorted_fields_same(front);
        if front.len() > 0 {
            let before = front.last().0;
            assert(precedes(fields[front.len() - 1].0, fields[fields.len() - 1].0));
            lemma_precedes_irreflexive(before);
            if precedes(last.0, before) {
                lemma_precedes_transitive(before, last.0, before);
            }
        }
        assert(sorted_fields(fields) =~= fields);
    }
}

/// Putting a value in key order does so.
pub proof fn lemma_key_order_canonical(value: JsonView)
    ensures
        canonical(in_key_order(value)),
    decreases value,
{
    match value {
        JsonView::Array(items) => {
            let out = in_key_order(value)->Array_0;
            assert forall|i: int| 0 <= i < out.len() implies canonical(#[trigger] out[i]) by {
                lemma_key_order_canonical(items[i]);
            }
        },
        JsonView::Object(fields) => {
            let mapped = ordered_fields(value);
            let out = sorted_fields(mapped);
            lemma_sorted_fields(mapped);
            assert forall|i: int| 0 <= i < out.len() implies canonical((#[trigger] out[i]).1) by {
                assert(mapped.contains(out[i]));
                let a = choose|a: int| 0 <= a < mapped.len() && mapped[a] == out[i];
                lemma_key_order_canonical(fields[a].1);
            }
        },
        _ => {},
    }
}

/// A value in key order stays as it is.
pub proof fn lemma_key_order_same(value: JsonView)
    requires
        canonical(value),
    ensures
        in_key_order(value) == value,
    decreases value,
{
    match value {
        JsonView::Array(items) => {
            let out = in_key_order(value)->Array_0;
            assert forall|i: int| 0 <= i < items.len() implies out[i] == items[i] by {
                assert(canonical(items[i]));
                lemma_key_order_same(items[i]);
            }
            assert(out =~= items);
        },
        JsonView::Object(fields) => {
            let mapped = ordered_fields(value);
            assert forall|i: int| 0 <= i < fields.len() implies mapped[i] == fields[i] by {
                assert(canonical(fields[i].1));
                lemma_key_order_same(fields[i].1);
            }
            assert(mapped =~= fields);
            lemma_sorted_fields_same(fields);
        },
        _ => {},
    }
}

/// Whether no object within has two fields of the same name.
pub open spec fn distinct_names(value: JsonView) -> bool
    decreases value,
{
    match value {
        JsonView::Array(items) => forall|i: int|
            0 <= i < items.len() ==> distinct_names(#[trigger] items[i]),
        JsonView::Object(fields) => {
            &&& forall|i: int, j: int|
                0 <= i < j < fields.len() ==> (#[trigger] fields[i]).0 != (#[trigger] fields[j]).0
            &&& forall|i: int| 0 <= i < fields.len() ==> distinct_names((#[trigger] fields[i]).1)
        },
        _ => true,
    }
}

/// Where fields are in order, no name occurs twice.
pub proof fn lemma_canonical_distinct(value: JsonView)
    requires
        canonical(value),
    ensures
        distinct_names(value),
    decreases value,
{
    match value {
        JsonView::Array(items) => {
            assert forall|i: int| 0 <= i < items.len() implies distinct_names(
                #[trigger] items[i],
            ) by {
                assert(canonical(items[i]));
                lemma_canonical_distinct(items[i]);
            }
        },
        JsonView::Object(fields) => {
            assert forall|i: int, j: int| 0 <= i < j < fields.len() implies (
            #[trigger] fields[i]).0 != (#[trigger] fields[j]).0 by {
                assert(precedes(fields[i].0, fields[j].0));
                lemma_precedes_irreflexive(fields[i].0);
            }
            assert forall|i: int| 0 <= i < fields.len() implies distinct_names(
                (#[trigger] fields[i]).1,
            ) by {
                assert(canonical(fields[i].1));
                lemma_canonical_distinct(fields[i].1);
            }
        },
        _ => {},
    }
}

/// Whether at most `n` arrays and objects are nested in one another.
pub open spec fn nested_within(value: JsonView, n: nat) -> bool
    decreases value,
{
    match value {
        JsonView::Array(items) => n > 0 && forall|i: int|
            0 <= i < items.len() ==> nested_within(#[trigger] items[i], (n - 1) as nat),
        JsonView::Object(fields) => n > 0 && forall|i: int|
            0 <= i < fields.len() ==> nested_within((#[trigger] fields[i]).1, (n - 1) as nat),
        _ => true,
    }
}

// ---- the document ----

/// A JSON value of the `serde_json` crate.
#[verifier::external_type_specification]
#[verifier::external_body]
pub struct ExJsonValue(serde_json::Value);

/// Why a text is not JSON, or a value cannot be written.
#[verifier::external_type_specification]
#[verifier::external_body]
pub struct ExJsonError(serde_json::Error);

/// What a value of the `serde_json` crate holds: numbers as they print, and
/// the fields of an object in the order in which it lists them.
pub uninterp spec fn json_layout(value: serde_json::Value) -> JsonView;

/// What an error of the `serde_json` crate prints as.
pub uninterp spec fn message_text(error: serde_json::Error) -> Seq<char>;

/// What the text of a JSON document holds, or, if it is none, what the error
/// prints as.
pub uninterp spec fn parsed_json(text: Seq<char>) -> Result<JsonView, Seq<char>>;

/// The text of a JSON document, indented.
pub uninterp spec fn printed_json(value: JsonView) -> Seq<char>;

/// How deep arrays and objects may be nested in a document that is read.
pub const DEPTH: u8 = 127;

/// Calls `serde_json::from_str`: the text is read, or is refused. No object
/// that was read has two fields of one name, and the reader goes no deeper
/// than it says.
#[verifier::external_body]
fn read_document(text: &str) -> (r: Result<serde_json::Value, serde_json::Error>)
    ensures
        match r {
            Ok(value) => {
                &&& parsed_json(text@) == Ok::<JsonView, Seq<char>>(json_layout(value))
                &&& distinct_names(json_layout(value))
                &&& nested_within(json_layout(value), DEPTH as nat)
            },
            Err(error) => parsed_json(text@) == Err::<JsonView, Seq<char>>(message_text(error)),
        },
{
    serde_json::from_str(text)
}

/// Calls `to_string` on an error of the `serde_json` crate.
#[verifier::external_body]
fn message_of(error: &serde_json::Error) -> (r: String)
    ensures
        r@ == message_text(*error),
{
    error.to_string()
}

/// Takes over a value of the `serde_json` crate, piece by piece: the fields of
/// its objects in the order in which they are listed, and numbers as they
/// print. That such a number reads back as it prints, as every [`Number`]
/// does, is taken from that crate as well.
#[verifier::external_body]
fn take_over(value: serde_json::Value) -> (r: Json)
    ensures
        r@ == json_layout(value),
{
    match value {
        serde_json::Value::Null => Json::Null,
        serde_json::Value::Bool(b) => Json::Bool(b),
        serde_json::Value::Number(n) => Json::Number(Number { text: n.to_string() }),
        serde_json::Value::String(s) => Json::String(s),
        serde_json::Value::Array(a) => Json::Array(a.into_iter().map(take_over).collect()),
        serde_json::Value::Object(map) => Json::Object(
            Object { fields: map.into_iter().map(|(k, v)| (k, take_over(v))).collect() },
        ),
    }
}

/// Hands a value over to the `serde_json` crate, the fields of its objects in
/// their order. A number reads back as it is written, so that
/// `serde_json::from_str` reads it.
#[verifier::external_body]
fn hand_over(value: &Json) -> (r: serde_json::Value)
    requires
        distinct_names(value@),
    ensures
        json_layout(r) == value@,
{
    match value {
        Json::Null => serde_json::Value::Null,
        Json::Bool(b) => serde_json::Value::Bool(*b),
        Json::Number(n) => serde_json::Value::Number(serde_json::from_str(&n.text).unwrap()),
        Json::String(s) => serde_json::Value::String(s.clone()),
        Json::Array(a) => serde_json::Value::Array(a.iter().map(hand_over).collect()),
        Json::Object(o) => serde_json::Value::Object(
            o.fields.iter().map(|(k, v)| (k.clone(), hand_over(v))).collect(),
        ),
    }
}

/// Calls `serde_json::to_string_pretty`: the value is written with
/// indentation, which never fails for a value. What was written is read back
/// as it was, as long as the reader goes deep enough.
#[verifier::external_body]
fn write_document(value: &serde_json::Value) -> (r: Result<String, serde_json::Error>)
    ensures
        match r {
            Ok(text) => {
                &&& text@ == printed_json(json_layout(*value))
                &&& nested_within(json_layout(*value), DEPTH as nat) ==> parsed_json(text@) == Ok::<
                    JsonView,
                    Seq<char>,
                >(json_layout(*value))
            },
            Err(_) => false,
        },
{
    serde_json::to_string_pretty(value)
}

/// The value with the fields of every object within put in order.
pub fn arranged(value: &Json) -> (r: Json)
    ensures
        r@ == in_key_order(value@),
    decreases value,
{
    proof {
        lemma_value_view(*value);
    }
    match value {
        Json::Array(items) => {
            let mut out: Vec<Json> = Vec::new();
            let mut i: usize = 0;
            while i < items.len()
                invariant
                    i <= items@.len(),
                    out@.len() == i,
                    *value == Json::Array(*items),
                    forall|j: int| 0 <= j < i ==> (#[trigger] out@[j])@ == in_key_order(items@[j]@),
                decreases items@.len() - i,
            {
                assert(value->Array_0 == *items);
                assert(decreases_to!(*value => items@[i as int]));
                out.push(arranged(&items[i]));
                i = i + 1;
            }
            let r = Json::Array(out);
            proof {
                lemma_value_view(r);
                assert(r@->Array_0 =~= in_key_order(value@)->Array_0);
            }
            r
        },
        Json::Object(object) => {
            let mut out = Object::new();
            let mut i: usize = 0;
            let ghost ordered = ordered_fields(value@);
            assert(ordered.take(0) =~= Seq::<(Seq<char>, JsonView)>::empty());
            while i < object.fields.len()
                invariant
                    i <= object.fields@.len(),
                    *value == Json::Object(*object),
                    value@ == JsonView::Object(object@),
                    ordered == ordered_fields(value@),
                    ordered.len() == object.fields@.len(),
                    ascending(out@),
                    out@ == sorted_fields(ordered.take(i as int)),
                decreases object.fields@.len() - i,
            {
                assert(value->Object_0 == *object);
                assert(decreases_to!(*value => object.fields@[i as int].1));
                assert(ordered.take(i + 1).drop_last() =~= ordered.take(i as int));
                assert(ordered[i as int] == (
                    object.fields@[i as int].0@,
                    in_key_order(object.fields@[i as int].1@),
                ));
                let name = object.fields[i].0.clone();
                out.insert(name, arranged(&object.fields[i].1));
                i = i + 1;
            }
            assert(ordered.take(i as int) =~= ordered);
            let r = Json::Object(out);
            proof {
                lemma_object_view(out);
            }
            r
        },
        other => other.copy(),
    }
}

/// Putting a value in key order nests it no deeper.
pub proof fn lemma_key_order_nested(value: JsonView, n: nat)
    requires
        nested_within(value, n),
    ensures
        nested_within(in_key_order(value), n),
    decreases value,
{
    match value {
        JsonView::Array(items) => {
            let out = in_key_order(value)->Array_0;
            assert forall|i: int| 0 <= i < out.len() implies nested_within(
                #[trigger] out[i],
                (n - 1) as nat,
            ) by {
                assert(nested_within(items[i], (n - 1) as nat));
                lemma_key_order_nested(items[i], (n - 1) as nat);
            }
        },
        JsonView::Object(fields) => {
            let mapped = ordered_fields(value);
            let out = sorted_fields(mapped);
            lemma_sorted_fields(mapped);
            assert forall|i: int| 0 <= i < out.len() implies nested_within(
                (#[trigger] out[i]).1,
                (n - 1) as nat,
            ) by {
                assert(mapped.contains(out[i]));
                let a = choose|a: int| 0 <= a < mapped.len() && mapped[a] == out[i];
                assert(nested_within(fields[a].1, (n - 1) as nat));
                lemma_key_order_nested(fields[a].1, (n - 1) as nat);
            }
        },
        _ => {},
    }
}

/// Reads a JSON document, or says why the text is none. The fields of every
/// object come out in the order of their names.
pub fn read_json(text: &str) -> (r: Result<Json, String>)
    ensures
        match r {
            Ok(value) => {
                &&& parsed_json(text@) is Ok
                &&& value@ == in_key_order(parsed_json(text@)->Ok_0)
                &&& canonical(value@)
                &&& nested_within(value@, DEPTH as nat)
            },
            Err(reason) => parsed_json(text@) == Err::<JsonView, Seq<char>>(reason@),
        },
{
    match read_document(text) {
        Ok(value) => {
            proof {
                lemma_key_order_canonical(json_layout(value));
                lemma_key_order_nested(json_layout(value), DEPTH as nat);
            }
            Ok(arranged(&take_over(value)))
        },
        Err(error) => Err(message_of(&error)),
    }
}

/// Writes a JSON document, indented, the fields of every object in their
/// order.
pub fn write_json(value: &Json) -> (r: Option<String>)
    requires
        distinct_names(value@),
    ensures
        match r {
            Some(text) => {
                &&& text@ == printed_json(value@)
                &&& nested_within(value@, DEPTH as nat) ==> parsed_json(text@) == Ok::<
                    JsonView,
                    Seq<char>,
                >(value@)
            },
            None => false,
        },
{
    match write_document(&hand_over(value)) {
        Ok(text) => Some(text),
        Err(_) => None,
    }
}

} // verus!
