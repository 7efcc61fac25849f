use fc_parser::builder::{parse_object, parse_value, strip_escape_tokens};
use fc_parser::errors::BaseError;
use fc_parser::model::Value;
use fc_parser::syntax::{ArrayNode, ObjectNode, PairNode, ValueNode};

fn pair(key: &str, value: ValueNode) -> PairNode {
    PairNode { id: Some(key.to_string()), value: Some(value) }
}

fn num(text: &str) -> ValueNode {
    ValueNode::NumberTok(text.to_string())
}

#[test]
fn strip_both_ends() {
    assert_eq!(strip_escape_tokens("<escape>hello<escape>"), "hello");
}

#[test]
fn strip_prefix_only() {
    assert_eq!(strip_escape_tokens("<escape>hello"), "hello");
}

#[test]
fn strip_suffix_only() {
    assert_eq!(strip_escape_tokens("hello<escape>"), "hello");
}

#[test]
fn strip_without_marker_is_identity() {
    assert_eq!(strip_escape_tokens("plain text"), "plain text");
}

#[test]
fn strip_is_not_recursive() {
    assert_eq!(
        strip_escape_tokens("<escape><escape>hi<escape><escape>"),
        "<escape>hi<escape>"
    );
}

#[test]
fn strip_lone_marker_becomes_empty() {
    assert_eq!(strip_escape_tokens("<escape>"), "");
}

#[test]
fn string_token_is_stripped_and_kept() {
    let node = ValueNode::StrTok("<escape>long text<escape>".to_string());
    assert_eq!(parse_value(&node).unwrap(), Value::Text("long text".to_string()));
}

#[test]
fn boolean_true_only_for_exact_literal() {
    assert_eq!(
        parse_value(&ValueNode::BoolTok("true".to_string())).unwrap(),
        Value::Boolean(true)
    );
    assert_eq!(
        parse_value(&ValueNode::BoolTok("false".to_string())).unwrap(),
        Value::Boolean(false)
    );
    assert_eq!(
        parse_value(&ValueNode::BoolTok("True".to_string())).unwrap(),
        Value::Boolean(false)
    );
}

#[test]
fn null_token_yields_null() {
    assert_eq!(parse_value(&ValueNode::NullTok).unwrap(), Value::Null);
}

#[test]
fn unrecognized_node_is_reported_with_its_text() {
    let e = parse_value(&ValueNode::OtherNode("@tag".to_string())).unwrap_err();
    assert_eq!(e.base, BaseError::UnhandledValue("@tag".to_string()));
    assert_eq!(e.message(), "Unhandled value type: @tag");
}

#[test]
fn duplicate_keys_first_occurrence_wins() {
    let obj = ObjectNode {
        pairs: vec![pair("a", num("1")), pair("b", num("2")), pair("a", num("3"))],
    };
    let s = parse_object(&obj).unwrap();
    assert_eq!(s.fields.len(), 2);
    assert_eq!(s.fields[0].name, "a");
    assert_eq!(s.fields[0].value, Value::Number("1".to_string()));
    assert_eq!(s.fields[1].name, "b");
    assert_eq!(s.fields[1].value, Value::Number("2".to_string()));
}

#[test]
fn duplicate_key_is_skipped_before_its_value_is_built() {
    let obj = ObjectNode {
        pairs: vec![
            pair("a", num("1")),
            pair("a", ValueNode::OtherNode("bad".to_string())),
        ],
    };
    let s = parse_object(&obj).unwrap();
    assert_eq!(s.fields.len(), 1);
    assert_eq!(s.fields[0].value, Value::Number("1".to_string()));
}

#[test]
fn pair_without_id_aborts_the_object() {
    let obj = ObjectNode {
        pairs: vec![PairNode { id: None, value: Some(num("1")) }],
    };
    let e = parse_object(&obj).unwrap_err();
    assert_eq!(e.message(), "Invalid pair in object: ID missing");
}

#[test]
fn pair_without_value_aborts_the_object() {
    let obj = ObjectNode {
        pairs: vec![PairNode { id: Some("k".to_string()), value: None }],
    };
    let e = parse_object(&obj).unwrap_err();
    assert_eq!(e.message(), "Invalid pair in object: Value missing");
}

#[test]
fn empty_key_is_an_error() {
    let obj = ObjectNode { pairs: vec![pair("", num("1"))] };
    let e = parse_object(&obj).unwrap_err();
    assert_eq!(e.base, BaseError::EmptyKey);
    assert_eq!(e.message(), "Object key is empty");
}

#[test]
fn failing_value_is_wrapped_with_its_key() {
    let obj = ObjectNode {
        pairs: vec![pair("k", ValueNode::NumberTok("nope".to_string()))],
    };
    let e = parse_object(&obj).unwrap_err();
    assert_eq!(e.context, vec!["k".to_string()]);
    assert_eq!(e.message(), "Error parsing value for key 'k': Failed to parse number: nope");
}

#[test]
fn nested_failure_carries_both_keys() {
    let inner = ObjectNode {
        pairs: vec![pair("b", ValueNode::OtherNode("?".to_string()))],
    };
    let obj = ObjectNode {
        pairs: vec![pair("a", ValueNode::ObjectNode(inner))],
    };
    let e = parse_object(&obj).unwrap_err();
    assert_eq!(
        e.message(),
        "Error parsing value for key 'a': Error parsing value for key 'b': Unhandled value type: ?"
    );
}

#[test]
fn array_of_objects_preserves_order_at_every_level() {
    let first = ObjectNode { pairs: vec![pair("a", num("1"))] };
    let second = ObjectNode { pairs: vec![pair("b", num("2"))] };
    let arr = ValueNode::ArrayNode(ArrayNode {
        values: vec![ValueNode::ObjectNode(first), ValueNode::ObjectNode(second)],
    });
    match parse_value(&arr).unwrap() {
        Value::Array(l) => {
            assert_eq!(l.values.len(), 2);
            match &l.values[0] {
                Value::Object(s) => assert_eq!(s.fields[0].name, "a"),
                other => panic!("expected object, got {:?}", other),
            }
            match &l.values[1] {
                Value::Object(s) => assert_eq!(s.fields[0].name, "b"),
                other => panic!("expected object, got {:?}", other),
            }
        },
        other => panic!("expected array, got {:?}", other),
    }
}

#[test]
fn array_failure_propagates_first_element_error() {
    let arr = ValueNode::ArrayNode(ArrayNode {
        values: vec![
            num("bad1"),
            ValueNode::OtherNode("later".to_string()),
        ],
    });
    let e = parse_value(&arr).unwrap_err();
    assert_eq!(e.base, BaseError::NumberParse("bad1".to_string()));
}
