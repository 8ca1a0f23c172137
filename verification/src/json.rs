//! JSON values as the library reads them, and the payloads that carry them.
use crate::float::{integer_to_double, is_wide_same, nearest_double, wide_negate, wide_same};
use crate::text::same_text;
use serde_json::Value;
use vstd::prelude::*;

verus! {

/// A JSON number: a non-negative integer, a negative one, or a double.
#[derive(Clone, Copy, Debug, PartialEq, Eq, Structural)]
pub enum Number {
    PosInt(u64),
    NegInt(i64),
    /// The bit pattern of the double.
    Float(u64),
}

/// A JSON value. The fields of an object are in the order in which they are
/// walked.
#[derive(Debug)]
pub enum Json {
    Null,
    Bool(bool),
    Number(Number),
    Text(String),
    Array(Vec<Json>),
    Object(Vec<(String, Json)>),
}

/// A JSON value as mathematics.
#[verifier::ext_equal]
pub enum JsonView {
    Null,
    Bool(bool),
    Number(Number),
    Text(Seq<char>),
    Array(Seq<JsonView>),
    Object(Seq<(Seq<char>, JsonView)>),
}

/// What a JSON value stands for.
pub open spec fn json_view(json: Json) -> JsonView
    decreases json,
{
    match json {
        Json::Null => JsonView::Null,
        Json::Bool(b) => JsonView::Bool(b),
        Json::Number(n) => JsonView::Number(n),
        Json::Text(s) => JsonView::Text(s@),
        Json::Array(items) => JsonView::Array(
            Seq::new(
                items@.len(),
                |i: int|
                    if 0 <= i < items@.len() {
                        json_view(items@[i])
                    } else {
                        JsonView::Null
                    },
            ),
        ),
        Json::Object(fields) => JsonView::Object(
            Seq::new(
                fields@.len(),
                |i: int|
                    if 0 <= i < fields@.len() {
                        (fields@[i].0@, json_view(fields@[i].1))
                    } else {
                        (seq![], JsonView::Null)
                    },
            ),
        ),
    }
}

impl View for Json {
    type V = JsonView;

    open spec fn view(&self) -> JsonView {
        json_view(*self)
    }
}

impl Number {
    /// The number as a double.
    pub open spec fn as_double(self) -> int {
        match self {
            Number::PosInt(n) => nearest_double(n as nat),
            Number::NegInt(n) => if n < 0 {
                nearest_double((-n) as nat) + 0x8000_0000_0000_0000
            } else {
                nearest_double(n as nat)
            },
            Number::Float(bits) => bits as int,
        }
    }

    /// Converts the number to a double.
    pub fn to_double(self) -> (r: u64)
        ensures
            r == self.as_double(),
    {
        match self {
            Number::PosInt(n) => integer_to_double(n),
            Number::NegInt(n) => {
                if n < 0 {
                    let size: u64 = (-(n as i128)) as u64;
                    wide_negate(integer_to_double(size))
                } else {
                    integer_to_double(n as u64)
                }
            },
            Number::Float(bits) => bits,
        }
    }

    /// Whether two numbers are equal as JSON numbers: of one sort, and equal.
    pub open spec fn same(self, other: Number) -> bool {
        match (self, other) {
            (Number::PosInt(a), Number::PosInt(b)) => a == b,
            (Number::NegInt(a), Number::NegInt(b)) => a == b,
            (Number::Float(a), Number::Float(b)) => wide_same(a, b),
            _ => false,
        }
    }

    /// Compares two numbers.
    pub fn is_same(self, other: Number) -> (r: bool)
        ensures
            r == self.same(other),
    {
        match (self, other) {
            (Number::PosInt(a), Number::PosInt(b)) => a == b,
            (Number::NegInt(a), Number::NegInt(b)) => a == b,
            (Number::Float(a), Number::Float(b)) => is_wide_same(a, b),
            _ => false,
        }
    }
}

impl JsonView {
    /// Whether two values are equal as JSON values: arrays item by item,
    /// objects by their keys, in whatever order the fields stand. (An object
    /// names no field twice.)
    pub open spec fn same(self, other: JsonView) -> bool
        decreases self,
    {
        match (self, other) {
            (JsonView::Null, JsonView::Null) => true,
            (JsonView::Bool(a), JsonView::Bool(b)) => a == b,
            (JsonView::Number(a), JsonView::Number(b)) => a.same(b),
            (JsonView::Text(a), JsonView::Text(b)) => a == b,
            (JsonView::Array(a), JsonView::Array(b)) => a.len() == b.len() && forall|i: int|
                0 <= i < a.len() ==> (#[trigger] a[i]).same(b[i]),
            (JsonView::Object(a), JsonView::Object(b)) => {
                &&& forall|i: int|
                    0 <= i < a.len() ==> match field_of(b, (#[trigger] a[i]).0) {
                        Some(value) => a[i].1.same(value),
                        None => false,
                    }
                &&& forall|j: int| 0 <= j < b.len() ==> field_of(a, (#[trigger] b[j]).0) is Some
            },
            _ => false,
        }
    }

    /// How many arrays and objects lie inside one another.
    pub open spec fn nested_within(self, levels: nat) -> bool
        decreases self,
    {
        match self {
            JsonView::Array(items) => levels > 0 && forall|i: int|
                0 <= i < items.len() ==> (#[trigger] items[i]).nested_within((levels - 1) as nat),
            JsonView::Object(fields) => levels > 0 && forall|i: int|
                0 <= i < fields.len() ==> (#[trigger] fields[i]).1.nested_within(
                    (levels - 1) as nat,
                ),
            _ => true,
        }
    }

    /// Whether no object, at any depth, has the raw-value marker of
    /// `serde_json` as its first field.
    pub open spec fn unmarked(self) -> bool
        decreases self,
    {
        match self {
            JsonView::Array(items) => forall|i: int|
                0 <= i < items.len() ==> (#[trigger] items[i]).unmarked(),
            JsonView::Object(fields) => {
                &&& fields.len() > 0 ==> fields[0].0 != raw_marker()
                &&& forall|i: int|
                    0 <= i < fields.len() ==> (#[trigger] fields[i]).1.unmarked()
            },
            _ => true,
        }
    }

    /// Whether `serde_json` reads the text that it writes of the value as the
    /// same value: it is not nested too deeply, and no object in it starts with
    /// the marker of raw values.
    pub open spec fn legible(self) -> bool {
        self.nested_within(MAX_NESTING as nat) && self.unmarked()
    }

    /// The value of a field of an object; nothing else has fields.
    pub open spec fn field(self, key: Seq<char>) -> Option<JsonView> {
        match self {
            JsonView::Object(fields) => field_of(fields, key),
            _ => None,
        }
    }

    /// The value as a double, if it is a number.
    pub open spec fn as_double(self) -> Option<int> {
        match self {
            JsonView::Number(n) => Some(n.as_double()),
            _ => None,
        }
    }
}

/// The value of the first field named `key`.
pub open spec fn field_of(fields: Seq<(Seq<char>, JsonView)>, key: Seq<char>) -> Option<JsonView>
    decreases fields.len(),
{
    if fields.len() == 0 {
        None
    } else if fields[0].0 == key {
        Some(fields[0].1)
    } else {
        field_of(fields.drop_first(), key)
    }
}

impl Json {
    /// Compares two values.
    pub fn is_same(&self, other: &Json) -> (r: bool)
        ensures
            r == self@.same(other@),
        decreases self,
    {
        match (self, other) {
            (Json::Null, Json::Null) => true,
            (Json::Bool(a), Json::Bool(b)) => *a == *b,
            (Json::Number(a), Json::Number(b)) => a.is_same(*b),
            (Json::Text(a), Json::Text(b)) => same_text(a.as_str(), b.as_str()),
            (Json::Array(a), Json::Array(b)) => {
                if a.len() != b.len() {
                    return false;
                }
                let ghost av = self@->Array_0;
                let ghost bv = other@->Array_0;
                let mut i: usize = 0;
                while i < a.len()
                    invariant
                        a@.len() == b@.len(),
                        i <= a@.len(),
                        self@ == JsonView::Array(av),
                        other@ == JsonView::Array(bv),
                        *self == Json::Array(*a),
                        av.len() == a@.len(),
                        bv.len() == b@.len(),
                        forall|j: int| 0 <= j < a@.len() ==> av[j] == (#[trigger] a@[j])@,
                        forall|j: int| 0 <= j < b@.len() ==> bv[j] == (#[trigger] b@[j])@,
                        forall|j: int| 0 <= j < i ==> (#[trigger] av[j]).same(bv[j]),
                    decreases a@.len() - i,
                {
                    assert(decreases_to!(self => a@[i as int]));
                    if !a[i].is_same(&b[i]) {
                        assert(!av[i as int].same(bv[i as int]));
                        return false;
                    }
                    i = i + 1;
                }
                true
            },
            (Json::Object(a), Json::Object(b)) => {
                let ghost av = self@->Object_0;
                let ghost bv = other@->Object_0;
                let mut i: usize = 0;
                while i < a.len()
                    invariant
                        i <= a@.len(),
                        self@ == JsonView::Object(av),
                        other@ == JsonView::Object(bv),
                        *self == Json::Object(*a),
                        av.len() == a@.len(),
                        forall|j: int|
                            0 <= j < a@.len() ==> av[j] == ((#[trigger] a@[j]).0@, a@[j].1@),
                        forall|j: int|
                            0 <= j < i ==> match field_of(bv, (#[trigger] av[j]).0) {
                                Some(value) => av[j].1.same(value),
                                None => false,
                            },
                    decreases a@.len() - i,
                {
                    assert(decreases_to!(self => a@[i as int].1));
                    assert(av[i as int] == (a@[i as int].0@, a@[i as int].1@));
                    match other.get(a[i].0.as_str()) {
                        None => {
                            return false;
                        },
                        Some(value) => {
                            if !a[i].1.is_same(value) {
                                return false;
                            }
                        },
                    }
                    i = i + 1;
                }
                let mut j: usize = 0;
                while j < b.len()
                    invariant
                        j <= b@.len(),
                        self@ == JsonView::Object(av),
                        other@ == JsonView::Object(bv),
                        bv.len() == b@.len(),
                        forall|l: int|
                            0 <= l < b@.len() ==> bv[l] == ((#[trigger] b@[l]).0@, b@[l].1@),
                        forall|l: int|
                            0 <= l < j ==> field_of(av, (#[trigger] bv[l]).0) is Some,
                    decreases b@.len() - j,
                {
                    assert(bv[j as int] == (b@[j as int].0@, b@[j as int].1@));
                    if self.get(b[j].0.as_str()).is_none() {
                        return false;
                    }
                    j = j + 1;
                }
                true
            },
            _ => false,
        }
    }

    /// The value of a field of an object.
    pub fn get(&self, key: &str) -> (r: Option<&Json>)
        ensures
            match r {
                Some(value) => self@.field(key@) == Some(value@),
                None => self@.field(key@) is None,
            },
    {
        match self {
            Json::Object(fields) => {
                let ghost all = self@->Object_0;
                let mut i: usize = 0;
                assert(all.skip(0) =~= all);
                while i < fields.len()
                    invariant
                        i <= fields@.len(),
                        self@ == JsonView::Object(all),
                        all.len() == fields@.len(),
                        forall|j: int|
                            0 <= j < fields@.len() ==> all[j] == (
                                (#[trigger] fields@[j]).0@,
                                fields@[j].1@,
                            ),
                        field_of(all, key@) == field_of(all.skip(i as int), key@),
                    decreases fields@.len() - i,
                {
                    assert(all.skip(i as int)[0] == all[i as int]);
                    if same_text(fields[i].0.as_str(), key) {
                        return Some(&fields[i].1);
                    }
                    assert(all.skip(i as int).drop_first() =~= all.skip(i as int + 1));
                    i = i + 1;
                }
                None
            },
            _ => None,
        }
    }
}

// ---------------------------------------------------------------------------
// JSON text
// ---------------------------------------------------------------------------

/// A value of `serde_json`, held as it is.
#[verifier::external_type_specification]
#[verifier::external_body]
pub struct ExternalValue(serde_json::Value);

/// What a value of `serde_json` holds; the fields of an object in the order
/// in which its map is walked.
pub uninterp spec fn contents(value: Value) -> JsonView;

/// What `serde_json` reads a text as: a value, or its error message.
pub uninterp spec fn json_parsed(text: Seq<u8>) -> Result<JsonView, Seq<char>>;

/// What `serde_json` writes a value as: a text, or its error message.
pub uninterp spec fn json_text(value: JsonView) -> Result<Seq<u8>, Seq<char>>;

/// How deep arrays and objects may lie inside one another in a text that
/// `serde_json` reads.
pub const MAX_NESTING: u64 = 127;

/// The name of a field that, standing first in an object, makes `serde_json`
/// read the object as a raw value: as the JSON text that the field holds.
pub open spec fn raw_marker() -> Seq<char> {
    "$serde_json::private::RawValue"@
}

/// One level of a value of `serde_json`.
enum Shape<'a> {
    Null,
    Bool(bool),
    Number(Number),
    Text(String),
    Array(Vec<&'a Value>),
    Object(Vec<(&'a String, &'a Value)>),
}

/// Takes one level of a `serde_json::Value` apart by its variants and the
/// accessors of its numbers (`as_u64`, `as_i64`, `as_f64`). Claimed: the
/// variant and its parts are those of the value's contents.
#[verifier::external_body]
fn shape(value: &Value) -> (r: Shape<'_>)
    ensures
        match r {
            Shape::Null => contents(*value) == JsonView::Null,
            Shape::Bool(b) => contents(*value) == JsonView::Bool(b),
            Shape::Number(n) => contents(*value) == JsonView::Number(n),
            Shape::Text(s) => contents(*value) == JsonView::Text(s@),
            Shape::Array(items) => contents(*value) == JsonView::Array(
                items@.map_values(|item: &Value| contents(*item)),
            ),
            Shape::Object(fields) => contents(*value) == JsonView::Object(
                fields@.map_values(|field: (&String, &Value)| (field.0@, contents(*field.1))),
            ),
        },
{
    match value {
        Value::Null => Shape::Null,
        Value::Bool(b) => Shape::Bool(*b),
        Value::Number(n) => Shape::Number(match (n.as_u64(), n.as_i64(), n.as_f64()) {
            (Some(u), _, _) => Number::PosInt(u),
            (None, Some(i), _) => Number::NegInt(i),
            (None, None, x) => Number::Float(x.unwrap_or_default().to_bits()),
        }),
        Value::String(s) => Shape::Text(s.clone()),
        Value::Array(items) => Shape::Array(items.iter().collect()),
        Value::Object(map) => Shape::Object(map.iter().collect()),
    }
}

/// `serde_json::from_slice` into a `Value`. Claimed: the outcome depends on
/// the bytes alone, so it has a name; an error counts by its message.
#[verifier::external_body]
fn parse_value(text: &[u8]) -> (r: Result<Value, String>)
    ensures
        match r {
            Ok(value) => json_parsed(text@) == Ok::<JsonView, Seq<char>>(contents(value)),
            Err(message) => json_parsed(text@) == Err::<JsonView, Seq<char>>(message@),
        },
{
    serde_json::from_slice(text).map_err(|e| e.to_string())
}

/// `serde_json::to_vec` of a `Value`. Claimed: the outcome depends on the
/// value's contents alone, so it has a name; and `serde_json::from_slice`
/// reads the text back as the same contents, unless they are nested deeper
/// than it reads or hold an object whose first field is the marker that it
/// takes for a raw value.
#[verifier::external_body]
fn write_value(value: &Value) -> (r: Result<Vec<u8>, String>)
    ensures
        match r {
            Ok(text) => {
                &&& json_text(contents(*value)) == Ok::<Seq<u8>, Seq<char>>(text@)
                &&& contents(*value).legible() ==> json_parsed(text@)
                    == Ok::<JsonView, Seq<char>>(contents(*value))
            },
            Err(message) => json_text(contents(*value)) == Err::<Seq<u8>, Seq<char>>(message@),
        },
{
    serde_json::to_vec(value).map_err(|e| e.to_string())
}

/// `Clone` of `serde_json::Value`. Claimed: the copy holds what the value
/// holds.
#[verifier::external_body]
fn copy_value(value: &Value) -> (r: Value)
    ensures
        contents(r) == contents(*value),
{
    value.clone()
}

impl Json {
    /// What a value of `serde_json` holds, read level by level.
    pub fn from_value(value: &Value) -> (r: Json)
        ensures
            r@ == contents(*value),
        decreases contents(*value),
    {
        let ghost whole = contents(*value);
        match shape(value) {
            Shape::Null => Json::Null,
            Shape::Bool(b) => Json::Bool(b),
            Shape::Number(n) => Json::Number(n),
            Shape::Text(s) => Json::Text(s),
            Shape::Array(items) => {
                let ghost parts = items@.map_values(|item: &Value| contents(*item));
                let mut out: Vec<Json> = Vec::new();
                let mut i: usize = 0;
                while i < items.len()
                    invariant
                        i <= items@.len(),
                        out@.len() == i,
                        whole == contents(*value),
                        whole == JsonView::Array(parts),
                        parts == items@.map_values(|item: &Value| contents(*item)),
                        forall|j: int| 0 <= j < i ==> (#[trigger] out@[j])@ == parts[j],
                    decreases items@.len() - i,
                {
                    assert(parts[i as int] == contents(*items@[i as int]));
                    assert(decreases_to!(whole => whole->Array_0[i as int]));
                    out.push(Json::from_value(items[i]));
                    i = i + 1;
                }
                let json = Json::Array(out);
                assert(json@->Array_0 =~= parts);
                json
            },
            Shape::Object(fields) => {
                let ghost parts = fields@.map_values(
                    |field: (&String, &Value)| (field.0@, contents(*field.1)),
                );
                let mut out: Vec<(String, Json)> = Vec::new();
                let mut i: usize = 0;
                while i < fields.len()
                    invariant
                        i <= fields@.len(),
                        out@.len() == i,
                        whole == contents(*value),
                        whole == JsonView::Object(parts),
                        parts == fields@.map_values(
                            |field: (&String, &Value)| (field.0@, contents(*field.1)),
                        ),
                        forall|j: int|
                            0 <= j < i ==> ((#[trigger] out@[j]).0@, out@[j].1@) == parts[j],
                    decreases fields@.len() - i,
                {
                    assert(parts[i as int] == (
                        fields@[i as int].0@,
                        contents(*fields@[i as int].1),
                    ));
                    assert(decreases_to!(whole => whole->Object_0[i as int].1));
                    let name = fields[i].0.clone();
                    out.push((name, Json::from_value(fields[i].1)));
                    i = i + 1;
                }
                let json = Json::Object(out);
                assert(json@->Object_0 =~= parts);
                json
            },
        }
    }
}

/// Arbitrary JSON attached to a vector: the value itself, and the same value
/// in the form that filters read.
#[derive(Debug)]
pub struct Payload {
    raw: Value,
    json: Json,
}

impl View for Payload {
    type V = JsonView;

    closed spec fn view(&self) -> JsonView {
        contents(self.raw)
    }
}

impl Payload {
    #[verifier::type_invariant]
    spec fn in_step(self) -> bool {
        self.json@ == contents(self.raw)
    }

    /// The payload that holds `value`.
    pub fn from_value(value: Value) -> (r: Payload)
        ensures
            r@ == contents(value),
    {
        let json = Json::from_value(&value);
        Payload { raw: value, json }
    }

    /// The payload that a JSON text holds, or the reader's message.
    pub fn parse(text: &[u8]) -> (r: Result<Payload, String>)
        ensures
            match r {
                Ok(payload) => json_parsed(text@) == Ok::<JsonView, Seq<char>>(payload@),
                Err(message) => json_parsed(text@) == Err::<JsonView, Seq<char>>(message@),
            },
    {
        match parse_value(text) {
            Ok(value) => Ok(Payload::from_value(value)),
            Err(message) => Err(message),
        }
    }

    /// The payload as JSON text, or the writer's message.
    pub fn to_text(&self) -> (r: Result<Vec<u8>, String>)
        ensures
            match r {
                Ok(text) => {
                    &&& json_text(self@) == Ok::<Seq<u8>, Seq<char>>(text@)
                    &&& self@.legible() ==> json_parsed(text@)
                        == Ok::<JsonView, Seq<char>>(self@)
                },
                Err(message) => json_text(self@) == Err::<Seq<u8>, Seq<char>>(message@),
            },
    {
        write_value(&self.raw)
    }

    /// The value as `serde_json` holds it.
    pub fn value(&self) -> (r: &Value)
        ensures
            contents(*r) == self@,
    {
        &self.raw
    }

    /// The value in the form that filters read.
    pub fn json(&self) -> (r: &Json)
        ensures
            r@ == self@,
    {
        proof {
            use_type_invariant(self);
        }
        &self.json
    }

    /// A copy of the payload.
    pub fn duplicate(&self) -> (r: Payload)
        ensures
            r@ == self@,
    {
        Payload::from_value(copy_value(&self.raw))
    }
}

} // verus!
