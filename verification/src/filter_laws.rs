//! What filters promise of the payloads that they let through.
use crate::float::wide_at_most;
use crate::json::{field_of, Json, JsonView, Number};
use crate::payload::{passes, Filter, FilterView};
use vstd::prelude::*;

verus! {

// ---------------------------------------------------------------------------
// Fields
// ---------------------------------------------------------------------------

/// Whether the field at a place is the first of its name.
pub open spec fn first_named(
    fields: Seq<(Seq<char>, JsonView)>,
    i: int,
    key: Seq<char>,
) -> bool {
    &&& 0 <= i < fields.len()
    &&& fields[i].0 == key
    &&& forall|j: int| 0 <= j < i ==> (#[trigger] fields[j]).0 != key
}

/// Whether no field is named twice.
pub open spec fn keys_unique(fields: Seq<(Seq<char>, JsonView)>) -> bool {
    forall|i: int, j: int|
        #![trigger fields[i], fields[j]]
        0 <= i < j < fields.len() ==> fields[i].0 != fields[j].0
}

/// Looking a field up gives the value of the first field of that name, and
/// nothing exactly if no field has it.
pub proof fn law_field_is_looked_up_by_name(
    fields: Seq<(Seq<char>, JsonView)>,
    key: Seq<char>,
    i: int,
)
    ensures
        first_named(fields, i, key) ==> JsonView::Object(fields).field(key) == Some(fields[i].1),
        JsonView::Object(fields).field(key) is None <==> forall|j: int|
            0 <= j < fields.len() ==> (#[trigger] fields[j]).0 != key,
        JsonView::Object(fields).field(key) matches Some(value) ==> exists|j: int| #[trigger]
            first_named(fields, j, key) && fields[j].1 == value,
    decreases fields.len(),
{
    if fields.len() > 0 {
        let rest = fields.drop_first();
        assert(fields[0] == fields.first());
        if fields[0].0 == key {
            assert(first_named(fields, 0, key));
            if first_named(fields, i, key) && i > 0 {
                assert(fields[0].0 != key);
            }
        } else {
            law_field_is_looked_up_by_name(rest, key, i - 1);
            if first_named(fields, i, key) {
                assert(rest[i - 1] == fields[i]);
                assert forall|j: int| 0 <= j < i - 1 implies (#[trigger] rest[j]).0 != key by {
                    assert(fields[j + 1].0 != key);
                }
                assert(first_named(rest, i - 1, key));
            }
            assert forall|j: int|
                0 <= j < fields.len() && (forall|l: int|
                    0 <= l < rest.len() ==> (#[trigger] rest[l]).0 != key) implies (
            #[trigger] fields[j]).0 != key by {
                if j > 0 {
                    assert(rest[j - 1].0 != key);
                }
            }
            assert forall|l: int|
                0 <= l < rest.len() && (forall|j: int|
                    0 <= j < fields.len() ==> (#[trigger] fields[j]).0 != key) implies (
            #[trigger] rest[l]).0 != key by {
                assert(fields[l + 1].0 != key);
            }
            if let Some(value) = field_of(rest, key) {
                let l = choose|l: int| #[trigger]
                    first_named(rest, l, key) && rest[l].1 == value;
                assert(fields[l + 1] == rest[l]);
                assert forall|j: int| 0 <= j < l + 1 implies (#[trigger] fields[j]).0 != key by {
                    if j > 0 {
                        assert(rest[j - 1].0 != key);
                    }
                }
                assert(first_named(fields, l + 1, key));
            }
        }
    }
}

/// Nothing but an object has fields.
pub proof fn law_only_objects_have_fields(value: JsonView, key: Seq<char>)
    requires
        !(value is Object),
    ensures
        value.field(key) is None,
{
}

// ---------------------------------------------------------------------------
// Equality
// ---------------------------------------------------------------------------

/// Whether a value holds no number that is not a number, and no object that
/// names a field twice.
pub open spec fn proper(value: JsonView) -> bool
    decreases value,
{
    match value {
        JsonView::Number(Number::Float(bits)) => wide_at_most(bits, bits),
        JsonView::Array(items) => forall|i: int|
            0 <= i < items.len() ==> proper(#[trigger] items[i]),
        JsonView::Object(fields) => keys_unique(fields) && forall|i: int|
            0 <= i < fields.len() ==> proper((#[trigger] fields[i]).1),
        _ => true,
    }
}

/// Values of different sorts are never equal; neither are integers and
/// floating-point numbers, nor positive and negative integers.
pub proof fn law_equal_values_are_of_one_sort(a: JsonView, b: JsonView)
    requires
        a.same(b),
    ensures
        a is Null <==> b is Null,
        a is Bool <==> b is Bool,
        a is Number <==> b is Number,
        a is Text <==> b is Text,
        a is Array <==> b is Array,
        a is Object <==> b is Object,
        a is Number ==> {
            &&& a->Number_0 is PosInt <==> b->Number_0 is PosInt
            &&& a->Number_0 is NegInt <==> b->Number_0 is NegInt
        },
{
}

/// Truth values, texts and integers are equal exactly if they are the same.
pub proof fn law_plain_values_are_equal_if_the_same(a: JsonView, b: JsonView)
    requires
        a is Null || a is Bool || a is Text || (a matches JsonView::Number(n) && !(n is Float)),
    ensures
        a.same(b) <==> a == b,
{
}

/// Floating-point numbers are equal exactly if neither is below the other.
pub proof fn law_doubles_are_equal_by_value(x: u64, y: u64)
    ensures
        JsonView::Number(Number::Float(x)).same(JsonView::Number(Number::Float(y))) <==> (
        wide_at_most(x, y) && wide_at_most(y, x)),
{
}

/// Arrays are equal exactly if they are equally long and equal item by item.
pub proof fn law_arrays_are_equal_item_by_item(a: Seq<JsonView>, b: Seq<JsonView>)
    ensures
        JsonView::Array(a).same(JsonView::Array(b)) <==> (a.len() == b.len() && forall|i: int|
            #![trigger a[i]]
            0 <= i < a.len() ==> a[i].same(b[i])),
{
}

/// Objects that name no field twice are equal exactly if every name is a field
/// of both, with equal values, or of neither.
pub proof fn law_objects_are_equal_key_by_key(
    a: Seq<(Seq<char>, JsonView)>,
    b: Seq<(Seq<char>, JsonView)>,
)
    requires
        keys_unique(a),
        keys_unique(b),
    ensures
        JsonView::Object(a).same(JsonView::Object(b)) <==> forall|key: Seq<char>| #[trigger]
            agree_on(a, b, key),
{
    assert forall|key: Seq<char>|
        JsonView::Object(a).same(JsonView::Object(b)) implies #[trigger] agree_on(a, b, key) by {
        law_field_is_looked_up_by_name(a, key, 0);
        law_field_is_looked_up_by_name(b, key, 0);
        if let Some(value) = JsonView::Object(a).field(key) {
            let i = choose|i: int| #[trigger] first_named(a, i, key) && a[i].1 == value;
            assert(a[i].0 == key);
        } else {
            if let Some(value) = JsonView::Object(b).field(key) {
                let j = choose|j: int| #[trigger] first_named(b, j, key) && b[j].1 == value;
                assert(field_of(a, b[j].0) is Some);
            }
        }
    }
    if forall|key: Seq<char>| #[trigger] agree_on(a, b, key) {
        let x = JsonView::Object(a);
        let y = JsonView::Object(b);
        assert forall|i: int| 0 <= i < a.len() implies match field_of(b, (#[trigger] a[i]).0) {
            Some(value) => a[i].1.same(value),
            None => false,
        } by {
            let key = a[i].0;
            assert(first_named(a, i, key));
            law_field_is_looked_up_by_name(a, key, i);
            assert(agree_on(a, b, key));
        }
        assert forall|j: int| 0 <= j < b.len() implies field_of(a, (#[trigger] b[j]).0) is Some by {
            let key = b[j].0;
            assert(first_named(b, j, key));
            law_field_is_looked_up_by_name(b, key, j);
            assert(agree_on(a, b, key));
        }
        assert(x.same(y));
    }
}

/// Whether two objects agree on a field.
pub open spec fn agree_on(
    a: Seq<(Seq<char>, JsonView)>,
    b: Seq<(Seq<char>, JsonView)>,
    key: Seq<char>,
) -> bool {
    match (JsonView::Object(a).field(key), JsonView::Object(b).field(key)) {
        (Some(x), Some(y)) => x.same(y),
        (None, None) => true,
        _ => false,
    }
}

/// A proper value is equal to itself.
pub proof fn law_equality_is_reflexive(value: JsonView)
    requires
        proper(value),
    ensures
        value.same(value),
    decreases value,
{
    match value {
        JsonView::Array(items) => {
            assert forall|i: int| 0 <= i < items.len() implies (#[trigger] items[i]).same(
                items[i],
            ) by {
                assert(decreases_to!(value => value->Array_0[i]));
                law_equality_is_reflexive(items[i]);
            }
        },
        JsonView::Object(fields) => {
            assert forall|i: int| 0 <= i < fields.len() implies match field_of(
                fields,
                (#[trigger] fields[i]).0,
            ) {
                Some(held) => fields[i].1.same(held),
                None => false,
            } by {
                assert(decreases_to!(value => value->Object_0[i].1));
                law_equality_is_reflexive(fields[i].1);
                assert(first_named(fields, i, fields[i].0));
                law_field_is_looked_up_by_name(fields, fields[i].0, i);
            }
        },
        _ => {},
    }
}

// ---------------------------------------------------------------------------
// Filters
// ---------------------------------------------------------------------------

/// A filter for equality lets through exactly the payloads that are objects
/// with the field, holding a value equal to the one asked for.
pub proof fn law_eq_asks_for_the_field(
    key: Seq<char>,
    value: JsonView,
    payload: Option<JsonView>,
)
    ensures
        (FilterView::Eq { key, value }).accepts(payload) <==> (payload matches Some(
            JsonView::Object(fields),
        ) && exists|i: int| #[trigger] first_named(fields, i, key) && fields[i].1.same(value)),
{
    if let Some(JsonView::Object(fields)) = payload {
        law_field_is_looked_up_by_name(fields, key, 0);
        assert forall|i: int| #[trigger] first_named(fields, i, key) implies JsonView::Object(
            fields,
        ).field(key) == Some(fields[i].1) by {
            law_field_is_looked_up_by_name(fields, key, i);
        }
    }
}

/// A filter for one of several values lets through what a filter for equality
/// with any one of them lets through, and nothing else.
pub proof fn law_in_is_some_eq(
    key: Seq<char>,
    values: Seq<JsonView>,
    payload: Option<JsonView>,
)
    ensures
        (FilterView::In { key, values }).accepts(payload) <==> exists|i: int|
            0 <= i < values.len() && (FilterView::Eq { key, value: #[trigger] values[i] }).accepts(
                payload,
            ),
{
    if (FilterView::In { key, values }).accepts(payload) {
        let v = crate::payload::payload_field(payload, key)->Some_0;
        let i = choose|i: int| 0 <= i < values.len() && v.same(#[trigger] values[i]);
        assert((FilterView::Eq { key, value: values[i] }).accepts(payload));
    }
    if exists|i: int|
        0 <= i < values.len() && (FilterView::Eq { key, value: #[trigger] values[i] }).accepts(
            payload,
        ) {
        let i = choose|i: int|
            0 <= i < values.len() && (FilterView::Eq { key, value: #[trigger] values[i] }).accepts(
                payload,
            );
        let v = crate::payload::payload_field(payload, key)->Some_0;
        let f = FilterView::In { key, values };
        assert(v.same(f->In_values[i]));
        assert(f.accepts(payload));
    }
}

/// More values to choose from let through no less.
pub proof fn law_in_grows_with_its_values(
    key: Seq<char>,
    values: Seq<JsonView>,
    more: Seq<JsonView>,
    payload: Option<JsonView>,
)
    ensures
        (FilterView::In { key, values: values + more }).accepts(payload) <==> (FilterView::In {
            key,
            values,
        }).accepts(payload) || (FilterView::In { key, values: more }).accepts(payload),
{
    let all = values + more;
    law_in_is_some_eq(key, values, payload);
    law_in_is_some_eq(key, more, payload);
    law_in_is_some_eq(key, all, payload);
    assert forall|i: int|
        0 <= i < values.len() && (FilterView::Eq { key, value: #[trigger] values[i] }).accepts(
            payload,
        ) implies (FilterView::In { key, values: all }).accepts(payload) by {
        assert(all[i] == values[i]);
    }
    assert forall|i: int|
        0 <= i < more.len() && (FilterView::Eq { key, value: #[trigger] more[i] }).accepts(
            payload,
        ) implies (FilterView::In { key, values: all }).accepts(payload) by {
        assert(all[values.len() + i] == more[i]);
    }
    if (FilterView::In { key, values: all }).accepts(payload) {
        let i = choose|i: int|
            0 <= i < all.len() && (FilterView::Eq { key, value: #[trigger] all[i] }).accepts(
                payload,
            );
        if i < values.len() {
            assert(values[i] == all[i]);
        } else {
            assert(more[i - values.len()] == all[i]);
        }
    }
}

/// A range lets through what both of its bounds let through by themselves; a
/// bound that is missing holds nothing back that is a number.
pub proof fn law_range_is_both_bounds(
    key: Seq<char>,
    gte: Option<u64>,
    lte: Option<u64>,
    payload: Option<JsonView>,
)
    ensures
        (FilterView::Range { key, gte, lte }).accepts(payload) <==> (FilterView::Range {
            key,
            gte,
            lte: None,
        }).accepts(payload) && (FilterView::Range { key, gte: None, lte }).accepts(payload),
{
}

/// A lower bound holds exactly what lies below it back, an upper bound what
/// lies above it; a bound is itself in the range.
pub proof fn law_range_compares_the_number(
    key: Seq<char>,
    fields: Seq<(Seq<char>, JsonView)>,
    i: int,
    n: Number,
    bound: u64,
)
    requires
        first_named(fields, i, key),
        fields[i].1 == JsonView::Number(n),
    ensures
        ({
            let payload = Some(JsonView::Object(fields));
            let x = n.as_double() as u64;
            &&& (FilterView::Range { key, gte: Some(bound), lte: None }).accepts(payload)
                <==> wide_at_most(bound, x)
            &&& (FilterView::Range { key, gte: None, lte: Some(bound) }).accepts(payload)
                <==> wide_at_most(x, bound)
            &&& (FilterView::Range { key, gte: None, lte: None }).accepts(payload)
        }),
{
    law_field_is_looked_up_by_name(fields, key, i);
}

/// A conjunction lets through exactly what every one of its filters does.
pub proof fn law_and_is_every_one(fs: Seq<FilterView>, payload: Option<JsonView>, i: int)
    ensures
        FilterView::And(fs).accepts(payload) && 0 <= i < fs.len() ==> fs[i].accepts(payload),
        (forall|j: int| 0 <= j < fs.len() ==> (#[trigger] fs[j]).accepts(payload))
            ==> FilterView::And(fs).accepts(payload),
{
    let f = FilterView::And(fs);
    assert(f->And_0[i] == fs[i]);
}

/// A disjunction lets through exactly what some one of its filters does.
pub proof fn law_or_is_some_one(fs: Seq<FilterView>, payload: Option<JsonView>, i: int)
    ensures
        0 <= i < fs.len() && fs[i].accepts(payload) ==> FilterView::Or(fs).accepts(payload),
        FilterView::Or(fs).accepts(payload) ==> exists|j: int|
            0 <= j < fs.len() && (#[trigger] fs[j]).accepts(payload),
{
    let f = FilterView::Or(fs);
    assert(f->Or_0[i] == fs[i]);
}

/// What a conjunction holds back is what the disjunction of the negations lets
/// through.
pub proof fn law_negated_and_is_or_of_negations(fs: Seq<FilterView>, payload: Option<JsonView>)
    ensures
        FilterView::Not(Box::new(FilterView::And(fs))).accepts(payload) <==> FilterView::Or(
            fs.map_values(|f: FilterView| FilterView::Not(Box::new(f))),
        ).accepts(payload),
{
    let nots = fs.map_values(|f: FilterView| FilterView::Not(Box::new(f)));
    if !FilterView::And(fs).accepts(payload) {
        let i = choose|i: int| 0 <= i < fs.len() && !(#[trigger] fs[i]).accepts(payload);
        assert(nots[i].accepts(payload));
        let f = FilterView::Or(nots);
        assert(f->Or_0[i].accepts(payload));
    }
    if FilterView::Or(nots).accepts(payload) {
        let i = choose|i: int| 0 <= i < nots.len() && (#[trigger] nots[i]).accepts(payload);
        assert(!fs[i].accepts(payload));
        let f = FilterView::And(fs);
        assert(!f->And_0[i].accepts(payload));
    }
}

/// Without a filter everything passes; with one, what it lets through.
pub proof fn law_no_filter_holds_nothing_back(f: FilterView, payload: Option<JsonView>)
    ensures
        passes(None, payload),
        passes(Some(f), payload) <==> f.accepts(payload),
{
}

/// A filter stands for what it is written as, part by part.
pub proof fn law_filter_stands_for_its_parts(f: Filter)
    ensures
        match f {
            Filter::Eq { key, value } => f@ == (FilterView::Eq { key: key@, value: value@ }),
            Filter::Range { key, gte, lte } => f@ == (FilterView::Range { key: key@, gte, lte }),
            Filter::In { key, values } => {
                &&& f@ matches FilterView::In { key: k, values: vs } && k == key@ && vs.len()
                    == values@.len() && forall|i: int|
                    0 <= i < vs.len() ==> #[trigger] vs[i] == values@[i]@
            },
            Filter::And(fs) => f@ matches FilterView::And(parts) && parts.len() == fs@.len()
                && forall|i: int| 0 <= i < parts.len() ==> #[trigger] parts[i] == fs@[i]@,
            Filter::Or(fs) => f@ matches FilterView::Or(parts) && parts.len() == fs@.len()
                && forall|i: int| 0 <= i < parts.len() ==> #[trigger] parts[i] == fs@[i]@,
            Filter::Not(g) => f@ == FilterView::Not(Box::new(g@)),
        },
{
}

/// A JSON value stands for what it is written as, part by part.
pub proof fn law_json_stands_for_its_parts(json: Json)
    ensures
        match json {
            Json::Null => json@ == JsonView::Null,
            Json::Bool(b) => json@ == JsonView::Bool(b),
            Json::Number(n) => json@ == JsonView::Number(n),
            Json::Text(s) => json@ == JsonView::Text(s@),
            Json::Array(items) => json@ matches JsonView::Array(parts) && parts.len()
                == items@.len() && forall|i: int|
                0 <= i < parts.len() ==> #[trigger] parts[i] == items@[i]@,
            Json::Object(fields) => json@ matches JsonView::Object(parts) && parts.len()
                == fields@.len() && forall|i: int|
                0 <= i < parts.len() ==> #[trigger] parts[i] == (fields@[i].0@, fields@[i].1@),
        },
{
}

} // verus!
