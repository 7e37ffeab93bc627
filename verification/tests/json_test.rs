use docmost_local_mcp::comments::comment_ids;
use docmost_local_mcp::json::{Fields, Json, Number};
use docmost_local_mcp::stored::stored_matches_sent;

fn text(s: &str) -> Json {
    Json::String(s.to_string())
}

fn object(fields: Vec<(&str, Json)>) -> Json {
    Json::Object(fields.into_iter().fold(Fields::new(), |all, (key, value)| all.with(key, value)))
}

fn number(n: u64) -> Json {
    Json::Number(Number::PosInt(n))
}

fn float(f: f64) -> Json {
    Json::Number(Number::Float(f.to_bits()))
}

#[test]
fn the_order_of_fields_does_not_matter() {
    let a = object(vec![("x", number(1)), ("y", Json::Array(vec![text("z")]))]);
    let b = object(vec![("y", Json::Array(vec![text("z")])), ("x", number(1))]);
    assert_eq!(a, b);
    assert_ne!(a, object(vec![("x", number(1))]));
    assert_ne!(a, object(vec![("x", number(2)), ("y", Json::Array(vec![text("z")]))]));
    assert_ne!(a, Json::Null);
    assert_eq!(a.clone(), a);
}

#[test]
fn a_field_is_set_once() {
    let a = object(vec![("x", number(1)), ("y", Json::Null), ("x", text("new"))]);
    match &a {
        Json::Object(fields) => {
            assert_eq!(fields.len(), 2);
            assert_eq!(fields.entry(0), (&"x".to_string(), &text("new")));
            assert_eq!(fields.get("y"), Some(&Json::Null));
            assert_eq!(fields.get("z"), None);
        }
        _ => panic!("an object"),
    }
    assert_eq!(a.text_at("x"), Some("new"));
    assert_eq!(a.text_at("y"), None);
    assert!(a.list_at("x").is_empty());
    assert_eq!(Json::Null.with("k", number(3)), object(vec![("k", number(3))]));
}

#[test]
fn numbers_are_compared_by_value() {
    assert_eq!(float(0.0), float(-0.0));
    assert_ne!(float(1.0), number(1));
    assert_ne!(float(1.0), float(1.5));
    assert_eq!(float(-2.5), float(-2.5));
    assert_ne!(Json::Number(Number::NegInt(-1)), Json::Number(Number::NegInt(-2)));
    assert_eq!(Json::Bool(true), Json::Bool(true));
    assert_ne!(Json::Bool(true), Json::Bool(false));
    assert_ne!(Json::Array(vec![number(1)]), Json::Array(vec![]));
}

#[test]
fn every_value_passes_for_itself() {
    let node = object(vec![
        ("type", text("heading")),
        ("attrs", object(vec![("level", number(2)), ("nested", object(vec![("a", number(1))]))])),
        ("content", Json::Array(vec![object(vec![("type", text("text")), ("text", text("x"))])])),
    ]);
    assert!(stored_matches_sent(&node, &node));
    assert!(stored_matches_sent(&Json::Null, &Json::Null));
    assert!(!stored_matches_sent(&Json::Null, &number(0)));
}

#[test]
fn only_attributes_may_be_added() {
    let sent = object(vec![("type", text("p"))]);
    let attrs = object(vec![("indent", number(0))]);
    assert!(stored_matches_sent(&sent, &sent.clone().with("attrs", attrs.clone())));
    assert!(!stored_matches_sent(&sent.clone().with("attrs", attrs.clone()), &sent));
    assert!(!stored_matches_sent(&sent, &sent.clone().with("attrs", Json::Null)));
    assert!(!stored_matches_sent(&sent, &sent.clone().with("marks", Json::Array(vec![]))));
    assert!(!stored_matches_sent(&sent.clone().with("text", text("x")), &sent));
    assert!(!stored_matches_sent(
        &sent.clone().with("text", text("x")),
        &sent.clone().with("attrs", attrs.clone())
    ));
    let more = object(vec![("indent", number(0)), ("id", text("1"))]);
    let other = object(vec![("indent", number(1)), ("id", text("1"))]);
    let with = |attrs: &Json| sent.clone().with("attrs", attrs.clone());
    assert!(stored_matches_sent(&with(&attrs), &with(&more)));
    assert!(!stored_matches_sent(&with(&attrs), &with(&other)));
    assert!(!stored_matches_sent(&with(&more), &with(&attrs)));
    let nested = |inner: Json| with(&object(vec![("a", inner)]));
    let empty = object(vec![]);
    let filled = object(vec![("attrs", object(vec![]))]);
    assert!(stored_matches_sent(&nested(empty.clone()), &nested(empty.clone())));
    assert!(!stored_matches_sent(&nested(empty.clone()), &nested(filled.clone())));
    assert!(!stored_matches_sent(
        &nested(Json::Array(vec![empty])),
        &nested(Json::Array(vec![filled]))
    ));
    assert!(stored_matches_sent(&with(&Json::Null), &with(&Json::Null)));
    assert!(!stored_matches_sent(&with(&Json::Null), &with(&attrs)));
}

#[test]
fn values_that_pass_for_each_other_are_equal() {
    let a = object(vec![("type", text("p")), ("attrs", object(vec![("x", number(1))]))]);
    let b = object(vec![("attrs", object(vec![("x", number(1))])), ("type", text("p"))]);
    let c = b.clone().with("attrs", object(vec![("x", number(1)), ("y", number(2))]));
    assert!(stored_matches_sent(&a, &b) && stored_matches_sent(&b, &a));
    assert_eq!(a, b);
    assert!(stored_matches_sent(&a, &c) && !stored_matches_sent(&c, &a));
    assert_ne!(a, c);
}

#[test]
fn threads_are_listed_once_and_in_order() {
    let comment = |id: &str| {
        object(vec![("type", text("comment")), ("attrs", object(vec![("commentId", text(id))]))])
    };
    let node = |marks: Vec<Json>| {
        object(vec![("type", text("text")), ("marks", Json::Array(marks))])
    };
    let root = object(vec![(
        "content",
        Json::Array(vec![
            node(vec![comment("b"), comment("a"), object(vec![("type", text("bold"))])]),
            node(vec![comment("c"), comment("b"), object(vec![("type", text("comment"))])]),
        ]),
    )]);
    assert_eq!(comment_ids(&root), vec!["a".to_string(), "b".to_string(), "c".to_string()]);
    assert!(comment_ids(&Json::Null).is_empty());
}
