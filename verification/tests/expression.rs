use fc_parser::collector::{collect_tool_calls, FcListener};
use fc_parser::errors::BaseError;
use fc_parser::model::Value;
use fc_parser::outcome::{parse_fc_expression, serialized_result, ToolCallResult};
use fc_parser::syntax::{
    CallNode, ObjectNode, PairNode, ParseOutcome, SerializeOutcome, StartNode, ValueNode,
};

fn pair(key: &str, value: ValueNode) -> PairNode {
    PairNode { id: Some(key.to_string()), value: Some(value) }
}

fn call(name: &str, pairs: Vec<PairNode>) -> CallNode {
    CallNode { id: Some(name.to_string()), arguments: Some(ObjectNode { pairs }) }
}

fn num(text: &str) -> ValueNode {
    ValueNode::NumberTok(text.to_string())
}

#[test]
fn empty_input_is_the_empty_success() {
    let grammar = ParseOutcome::Failure("never consulted".to_string());
    let r = parse_fc_expression("", grammar).unwrap();
    assert_eq!(r.tool_calls.len(), 0);
}

#[test]
fn syntax_failure_is_surfaced_unchanged() {
    let grammar = ParseOutcome::Failure("mismatched input ')'".to_string());
    let e = parse_fc_expression("f(", grammar).unwrap_err();
    assert_eq!(e.base, BaseError::Syntax("mismatched input ')'".to_string()));
    assert_eq!(e.message(), "mismatched input ')'");
}

#[test]
fn two_calls_keep_their_order_and_names() {
    let tree = StartNode {
        calls: vec![call("f", vec![pair("x", num("1"))]), call("g", vec![pair("y", num("2"))])],
    };
    let r = parse_fc_expression("f(x: 1) g(y: 2)", ParseOutcome::Tree(tree)).unwrap();
    assert_eq!(r.tool_calls.len(), 2);
    assert_eq!(r.tool_calls[0].name, "f");
    assert_eq!(r.tool_calls[1].name, "g");
    let args = r.tool_calls[0].arguments.as_ref().unwrap();
    assert_eq!(args.fields[0].name, "x");
    assert_eq!(args.fields[0].value, Value::Number("1".to_string()));
}

#[test]
fn first_error_of_three_calls_decides_the_outcome() {
    let tree = StartNode {
        calls: vec![
            call("f", vec![pair("x", num("1"))]),
            call("g", vec![pair("", num("2"))]),
            call("h", vec![pair("z", ValueNode::OtherNode("junk".to_string()))]),
        ],
    };
    let e = parse_fc_expression("f(x: 1) g(: 2) h(z: junk)", ParseOutcome::Tree(tree))
        .unwrap_err();
    assert_eq!(e.base, BaseError::EmptyKey);
    assert_eq!(e.message(), "Object key is empty");
}

#[test]
fn call_without_identifier_gets_the_empty_name() {
    let tree = StartNode {
        calls: vec![CallNode { id: None, arguments: Some(ObjectNode { pairs: vec![] }) }],
    };
    let r = collect_tool_calls(&tree).unwrap();
    assert_eq!(r.tool_calls.len(), 1);
    assert_eq!(r.tool_calls[0].name, "");
}

#[test]
fn call_without_object_has_no_arguments() {
    let tree = StartNode { calls: vec![CallNode { id: Some("f".to_string()), arguments: None }] };
    let r = collect_tool_calls(&tree).unwrap();
    assert_eq!(r.tool_calls[0].arguments, None);
}

#[test]
fn listener_ignores_calls_after_a_failure() {
    let mut listener = FcListener::new();
    listener.enter_functionCall(&call("f", vec![pair("", num("1"))]));
    assert!(listener.tool_calls.is_err());
    listener.enter_functionCall(&call("g", vec![pair("y", num("2"))]));
    let e = listener.tool_calls().unwrap_err();
    assert_eq!(e.base, BaseError::EmptyKey);
}

#[test]
fn collected_calls_serialize_to_the_codec_bytes() {
    let tree = StartNode { calls: vec![call("f", vec![])] };
    let collected = parse_fc_expression("f()", ParseOutcome::Tree(tree));
    let r = serialized_result(collected, SerializeOutcome::Bytes(vec![8, 1, 2]));
    assert!(r.is_ok);
    assert_eq!(r.serialized_tool_calls, vec![8, 1, 2]);
    assert_eq!(r.error, "");
}

#[test]
fn codec_failure_becomes_the_error_text() {
    let tree = StartNode { calls: vec![call("f", vec![])] };
    let collected = parse_fc_expression("f()", ParseOutcome::Tree(tree));
    let r = serialized_result(collected, SerializeOutcome::Failure("encoding failed".to_string()));
    assert!(!r.is_ok);
    assert_eq!(r.serialized_tool_calls.len(), 0);
    assert_eq!(r.error, "encoding failed");
}

#[test]
fn conversion_failure_becomes_its_message() {
    let tree = StartNode { calls: vec![call("f", vec![pair("k", num("x1"))])] };
    let collected = parse_fc_expression("f(k: x1)", ParseOutcome::Tree(tree));
    let r = serialized_result(collected, SerializeOutcome::Bytes(vec![]));
    assert!(!r.is_ok);
    assert_eq!(r.error, "Error parsing value for key 'k': Failed to parse number: x1");
}

#[test]
fn with_tool_calls_marks_success() {
    let r = ToolCallResult::with_tool_calls(vec![1, 2, 3]);
    assert!(r.is_ok);
    assert_eq!(r.serialized_tool_calls, vec![1, 2, 3]);
    assert_eq!(r.error, "");
}

#[test]
fn with_error_marks_failure() {
    let r = ToolCallResult::with_error("boom".to_string());
    assert!(!r.is_ok);
    assert_eq!(r.serialized_tool_calls.len(), 0);
    assert_eq!(r.error, "boom");
}

#[test]
fn default_result_is_the_empty_success() {
    let r = ToolCallResult::default();
    assert!(r.is_ok);
    assert_eq!(r.serialized_tool_calls.len(), 0);
    assert_eq!(r.error, "");
}
