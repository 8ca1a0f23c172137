//! The filter language over payloads.
//!
//! A filter looks at the top-level fields of a payload. In a search it is
//! applied while the graph is walked: what does not match still routes the
//! search but never becomes a result.
use crate::float::{is_wide_at_most, wide_at_most};
use crate::json::{Json, JsonView};
use vstd::prelude::*;

pub use crate::json::Payload;

verus! {

/// A predicate over payloads.
#[derive(Debug)]
pub enum Filter {
    /// The field equals the value.
    Eq { key: String, value: Json },
    /// The field is a number between the bounds, which are doubles by their
    /// bit patterns; a missing bound does not bound.
    Range { key: String, gte: Option<u64>, lte: Option<u64> },
    /// The field equals one of the values.
    In { key: String, values: Vec<Json> },
    /// Every filter matches.
    And(Vec<Filter>),
    /// Some filter matches.
    Or(Vec<Filter>),
    /// The filter does not match.
    Not(Box<Filter>),
}

/// A filter as mathematics.
#[verifier::ext_equal]
pub enum FilterView {
    Eq { key: Seq<char>, value: JsonView },
    Range { key: Seq<char>, gte: Option<u64>, lte: Option<u64> },
    In { key: Seq<char>, values: Seq<JsonView> },
    And(Seq<FilterView>),
    Or(Seq<FilterView>),
    Not(Box<FilterView>),
}

/// What a filter stands for.
pub open spec fn filter_view(filter: Filter) -> FilterView
    decreases filter,
{
    match filter {
        Filter::Eq { key, value } => FilterView::Eq { key: key@, value: value@ },
        Filter::Range { key, gte, lte } => FilterView::Range { key: key@, gte, lte },
        Filter::In { key, values } => FilterView::In {
            key: key@,
            values: values@.map_values(|v: Json| v@),
        },
        Filter::And(fs) => FilterView::And(
            Seq::new(
                fs@.len(),
                |i: int|
                    if 0 <= i < fs@.len() {
                        filter_view(fs@[i])
                    } else {
                        FilterView::And(seq![])
                    },
            ),
        ),
        Filter::Or(fs) => FilterView::Or(
            Seq::new(
                fs@.len(),
                |i: int|
                    if 0 <= i < fs@.len() {
                        filter_view(fs@[i])
                    } else {
                        FilterView::And(seq![])
                    },
            ),
        ),
        Filter::Not(f) => FilterView::Not(Box::new(filter_view(*f))),
    }
}

impl View for Filter {
    type V = FilterView;

    open spec fn view(&self) -> FilterView {
        filter_view(*self)
    }
}

/// The field `key` of a payload, if there is a payload and it has the field.
pub open spec fn payload_field(payload: Option<JsonView>, key: Seq<char>) -> Option<JsonView> {
    match payload {
        Some(value) => value.field(key),
        None => None,
    }
}

/// Whether a number lies between two optional bounds.
pub open spec fn in_range(x: u64, gte: Option<u64>, lte: Option<u64>) -> bool {
    &&& gte matches Some(g) ==> wide_at_most(g, x)
    &&& lte matches Some(l) ==> wide_at_most(x, l)
}

impl FilterView {
    /// Whether a payload, or the lack of one, matches.
    pub open spec fn accepts(self, payload: Option<JsonView>) -> bool
        decreases self,
    {
        match self {
            FilterView::Eq { key, value } => payload_field(payload, key) matches Some(v)
                && v.same(value),
            FilterView::Range { key, gte, lte } => payload_field(payload, key) matches Some(v)
                && v.as_double() matches Some(x) && in_range(x as u64, gte, lte),
            FilterView::In { key, values } => payload_field(payload, key) matches Some(v)
                && exists|i: int| 0 <= i < values.len() && v.same(#[trigger] values[i]),
            FilterView::And(fs) => forall|i: int|
                0 <= i < fs.len() ==> (#[trigger] fs[i]).accepts(payload),
            FilterView::Or(fs) => exists|i: int|
                0 <= i < fs.len() && (#[trigger] fs[i]).accepts(payload),
            FilterView::Not(f) => !f.accepts(payload),
        }
    }
}

/// The contents of an optional payload.
pub open spec fn payload_view(payload: Option<&Payload>) -> Option<JsonView> {
    match payload {
        Some(p) => Some(p@),
        None => None,
    }
}

/// Whether an optional filter lets a payload through.
pub open spec fn passes(filter: Option<FilterView>, payload: Option<JsonView>) -> bool {
    filter matches Some(f) ==> f.accepts(payload)
}

/// The meaning of an optional filter.
pub open spec fn optional_filter(filter: Option<&Filter>) -> Option<FilterView> {
    match filter {
        Some(f) => Some(f@),
        None => None,
    }
}

fn field<'a>(payload: Option<&'a Payload>, key: &String) -> (r: Option<&'a Json>)
    ensures
        match r {
            Some(value) => payload_field(payload_view(payload), key@) == Some(value@),
            None => payload_field(payload_view(payload), key@) is None,
        },
{
    match payload {
        Some(p) => p.json().get(key.as_str()),
        None => None,
    }
}

impl Filter {
    /// Evaluates the filter. Without a payload only negations and vacuously
    /// true filters match.
    pub fn matches(&self, payload: Option<&Payload>) -> (r: bool)
        ensures
            r == self@.accepts(payload_view(payload)),
        decreases self,
    {
        match self {
            Filter::Eq { key, value } => {
                match field(payload, key) {
                    Some(v) => v.is_same(value),
                    None => false,
                }
            },
            Filter::Range { key, gte, lte } => {
                match field(payload, key) {
                    Some(Json::Number(n)) => {
                        let x: u64 = n.to_double();
                        let above = match gte {
                            Some(g) => is_wide_at_most(*g, x),
                            None => true,
                        };
                        let below = match lte {
                            Some(l) => is_wide_at_most(x, *l),
                            None => true,
                        };
                        above && below
                    },
                    _ => false,
                }
            },
            Filter::In { key, values } => {
                match field(payload, key) {
                    Some(v) => {
                        let ghost listed = values@.map_values(|v: Json| v@);
                        let mut i: usize = 0;
                        while i < values.len()
                            invariant
                                i <= values@.len(),
                                listed == values@.map_values(|v: Json| v@),
                                self@ == (FilterView::In { key: key@, values: listed }),
                                payload_field(payload_view(payload), key@) == Some(v@),
                                forall|j: int| 0 <= j < i ==> !v@.same(#[trigger] listed[j]),
                            decreases values@.len() - i,
                        {
                            assert(listed[i as int] == values@[i as int]@);
                            if v.is_same(&values[i]) {
                                assert(self@->In_values == listed);
                                return true;
                            }
                            i = i + 1;
                        }
                        false
                    },
                    None => false,
                }
            },
            Filter::And(fs) => {
                let ghost parts = self@->And_0;
                let mut i: usize = 0;
                while i < fs.len()
                    invariant
                        i <= fs@.len(),
                        *self == Filter::And(*fs),
                        self@ == FilterView::And(parts),
                        parts.len() == fs@.len(),
                        forall|j: int| 0 <= j < fs@.len() ==> parts[j] == (#[trigger] fs@[j])@,
                        forall|j: int|
                            0 <= j < i ==> (#[trigger] parts[j]).accepts(payload_view(payload)),
                    decreases fs@.len() - i,
                {
                    assert(decreases_to!(self => fs@[i as int]));
                    if !fs[i].matches(payload) {
                        assert(!self@->And_0[i as int].accepts(payload_view(payload)));
                        return false;
                    }
                    i = i + 1;
                }
                true
            },
            Filter::Or(fs) => {
                let ghost parts = self@->Or_0;
                let mut i: usize = 0;
                while i < fs.len()
                    invariant
                        i <= fs@.len(),
                        *self == Filter::Or(*fs),
                        self@ == FilterView::Or(parts),
                        parts.len() == fs@.len(),
                        forall|j: int| 0 <= j < fs@.len() ==> parts[j] == (#[trigger] fs@[j])@,
                        forall|j: int|
                            0 <= j < i ==> !(#[trigger] parts[j]).accepts(payload_view(payload)),
                    decreases fs@.len() - i,
                {
                    assert(decreases_to!(self => fs@[i as int]));
                    if fs[i].matches(payload) {
                        assert(self@->Or_0[i as int].accepts(payload_view(payload)));
                        return true;
                    }
                    i = i + 1;
                }
                false
            },
            Filter::Not(f) => !f.matches(payload),
        }
    }
}

/// Evaluates an optional filter.
pub fn lets_through(filter: Option<&Filter>, payload: Option<&Payload>) -> (r: bool)
    ensures
        r == passes(optional_filter(filter), payload_view(payload)),
{
    match filter {
        Some(f) => f.matches(payload),
        None => true,
    }
}

/// Without a payload a filter on a field never matches, whatever it asks.
pub proof fn law_no_payload_matches_no_field(
    key: Seq<char>,
    value: JsonView,
    values: Seq<JsonView>,
    gte: Option<u64>,
    lte: Option<u64>,
)
    ensures
        !(FilterView::Eq { key, value }).accepts(None),
        !(FilterView::In { key, values }).accepts(None),
        !(FilterView::Range { key, gte, lte }).accepts(None),
{
}

/// A conjunction of nothing matches everything, a disjunction of nothing
/// matches nothing.
pub proof fn law_empty_connectives(payload: Option<JsonView>)
    ensures
        FilterView::And(seq![]).accepts(payload),
        !FilterView::Or(seq![]).accepts(payload),
{
}

/// A negation matches exactly what its filter does not, and two negations
/// cancel.
pub proof fn law_negation(f: FilterView, payload: Option<JsonView>)
    ensures
        FilterView::Not(Box::new(f)).accepts(payload) == !f.accepts(payload),
        FilterView::Not(Box::new(FilterView::Not(Box::new(f)))).accepts(payload) == f.accepts(
            payload,
        ),
{
    reveal_with_fuel(FilterView::accepts, 3);
}

/// A field that is absent or no number is in no range.
pub proof fn law_range_needs_a_number(
    key: Seq<char>,
    gte: Option<u64>,
    lte: Option<u64>,
    payload: Option<JsonView>,
)
    requires
        payload_field(payload, key) matches Some(v) ==> !(v is Number),
    ensures
        !(FilterView::Range { key, gte, lte }).accepts(payload),
{
}

} // verus!
