use vexdb::json::{Json, Number};
use vexdb::{Filter, Payload};

fn payload(text: &str) -> Payload {
    Payload::parse(text.as_bytes()).unwrap()
}

fn matches(f: &Filter, text: &str) -> bool {
    f.matches(Some(&payload(text)))
}

fn text(s: &str) -> Json {
    Json::Text(s.into())
}

fn double(x: f64) -> Option<u64> {
    Some(x.to_bits())
}

#[test]
fn eq_matches() {
    let f = Filter::Eq {
        key: "category".into(),
        value: text("shoes"),
    };
    assert!(matches(&f, r#"{"category": "shoes"}"#));
    assert!(!matches(&f, r#"{"category": "hats"}"#));
    assert!(!f.matches(None));
}

#[test]
fn range_matches() {
    let f = Filter::Range {
        key: "price".into(),
        gte: double(10.0),
        lte: double(99.0),
    };
    assert!(matches(&f, r#"{"price": 50}"#));
    assert!(matches(&f, r#"{"price": 10.0}"#));
    assert!(!matches(&f, r#"{"price": 100}"#));
    assert!(!matches(&f, r#"{"price": "fifty"}"#));
    assert!(!f.matches(None));
}

#[test]
fn in_and_or_not() {
    let f = Filter::And(vec![
        Filter::In {
            key: "color".into(),
            values: vec![text("red"), text("blue")],
        },
        Filter::Not(Box::new(Filter::Eq {
            key: "sold_out".into(),
            value: Json::Bool(true),
        })),
    ]);
    assert!(matches(&f, r#"{"color": "red"}"#));
    assert!(!matches(&f, r#"{"color": "red", "sold_out": true}"#));
    assert!(!matches(&f, r#"{"color": "green"}"#));
}

#[test]
fn and_of_eq_and_range() {
    let f = Filter::And(vec![
        Filter::Eq {
            key: "category".into(),
            value: text("shoes"),
        },
        Filter::Range {
            key: "price".into(),
            gte: None,
            lte: double(99.0),
        },
    ]);
    assert!(matches(&f, r#"{"category": "shoes", "price": 49.0}"#));
    assert!(!matches(&f, r#"{"category": "shoes", "price": 149.0}"#));
}

#[test]
fn or_and_empty_connectives() {
    let either = Filter::Or(vec![
        Filter::Eq {
            key: "a".into(),
            value: Json::Null,
        },
        Filter::Range {
            key: "b".into(),
            gte: double(0.0),
            lte: None,
        },
    ]);
    assert!(matches(&either, r#"{"a": null}"#));
    assert!(matches(&either, r#"{"b": 7}"#));
    assert!(!matches(&either, r#"{"b": -7}"#));
    assert!(!matches(&either, r#"[1, 2]"#), "only objects have fields");
    assert!(Filter::And(vec![]).matches(None));
    assert!(!Filter::Or(vec![]).matches(None));
    assert!(Filter::Not(Box::new(Filter::Or(vec![]))).matches(None));
    let nested = Filter::Not(Box::new(Filter::Not(Box::new(either))));
    assert!(matches(&nested, r#"{"a": null}"#));
    assert!(!nested.matches(None));
}

#[test]
fn numbers_are_equal_within_their_sort() {
    let eq = |n: Number| Filter::Eq {
        key: "x".into(),
        value: Json::Number(n),
    };
    assert!(matches(&eq(Number::PosInt(1)), r#"{"x": 1}"#));
    assert!(!matches(&eq(Number::PosInt(1)), r#"{"x": 1.0}"#));
    assert!(matches(&eq(Number::Float(1.0f64.to_bits())), r#"{"x": 1.0}"#));
    assert!(matches(&eq(Number::Float(0.0f64.to_bits())), r#"{"x": -0.0}"#));
    assert!(matches(&eq(Number::NegInt(-3)), r#"{"x": -3}"#));
    assert!(!matches(&eq(Number::NegInt(-3)), r#"{"x": 3}"#));
    // A range compares integers as doubles.
    let at_most = |x: f64| Filter::Range {
        key: "x".into(),
        gte: None,
        lte: double(x),
    };
    assert!(matches(&at_most(-2.0), r#"{"x": -3}"#));
    assert!(!matches(&at_most(-4.0), r#"{"x": -3}"#));
    assert!(matches(
        &at_most(9007199254740992.0),
        r#"{"x": 9007199254740993}"#
    ));
    assert!(!matches(&at_most(f64::NAN), r#"{"x": 1}"#));
}

#[test]
fn values_are_equal_part_by_part() {
    let eq = |value: Json| Filter::Eq {
        key: "x".into(),
        value,
    };
    let list = || {
        Json::Array(vec![
            Json::Null,
            Json::Bool(false),
            text("s"),
            Json::Object(vec![("k".into(), Json::Number(Number::PosInt(2)))]),
        ])
    };
    assert!(matches(&eq(list()), r#"{"x": [null, false, "s", {"k": 2}]}"#));
    assert!(!matches(&eq(list()), r#"{"x": [null, false, "s", {"k": 3}]}"#));
    assert!(!matches(&eq(list()), r#"{"x": [null, false, "s", {"j": 2}]}"#));
    assert!(!matches(&eq(list()), r#"{"x": [null, false, "s"]}"#));
    assert!(!matches(&eq(Json::Array(vec![])), r#"{"x": {}}"#));
    // The order in which a text gives the fields of an object is no matter.
    let both = Json::Object(vec![
        ("a".into(), Json::Bool(true)),
        ("b".into(), Json::Bool(false)),
    ]);
    assert!(matches(&eq(both), r#"{"x": {"b": false, "a": true}}"#));
}

#[test]
fn payloads_keep_their_value() {
    let text = r#"{"a":[1,-2,2.5,"x",null,true],"b":{"c":{}}}"#;
    let p = payload(text);
    assert_eq!(p.to_text().unwrap(), text.as_bytes());
    let value: serde_json::Value = serde_json::from_str(text).unwrap();
    assert_eq!(p.value(), &value);
    assert_eq!(p.duplicate().value(), &value);
    let again = Payload::from_value(value);
    assert!(again.json().is_same(p.json()));
    assert!(p.json().get("b").unwrap().get("c").is_some());
    assert!(p.json().get("z").is_none());
    // Spaces and the order of fields are not kept, the value is.
    let loose = payload(" { \"b\" : 1 , \"a\" : 1e2 } ");
    assert_eq!(loose.to_text().unwrap(), br#"{"a":100.0,"b":1}"#);
    let err = Payload::parse(b"{not json}").unwrap_err();
    assert!(err.contains("line 1 column 2"), "{err}");
}

#[test]
fn objects_are_equal_by_key() {
    let number = |n: u64| Json::Number(Number::PosInt(n));
    let object = |fields: Vec<(&str, Json)>| {
        Json::Object(fields.into_iter().map(|(k, v)| (k.to_string(), v)).collect())
    };
    let f = Filter::Eq {
        key: "at".into(),
        value: object(vec![("y", number(2)), ("x", number(1))]),
    };
    assert!(matches(&f, r#"{"at": {"x": 1, "y": 2}}"#));
    assert!(matches(&f, r#"{"at": {"y": 2, "x": 1}}"#));
    assert!(!matches(&f, r#"{"at": {"x": 2, "y": 1}}"#));
    assert!(!matches(&f, r#"{"at": {"x": 1}}"#));
    assert!(!matches(&f, r#"{"at": {"x": 1, "y": 2, "z": 3}}"#));
    let nested = object(vec![("b", object(vec![])), ("a", number(1))]);
    assert!(nested.is_same(&object(vec![("a", number(1)), ("b", object(vec![]))])));
    assert!(!nested.is_same(&object(vec![("a", number(1)), ("b", Json::Null)])));
}
