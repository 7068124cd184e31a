use serde_json::{Number, Value};
use tool_monitor::call::InternalToolCall;
use tool_monitor::inspector::RepetitionInspector;
use tool_monitor::message::ToolCall;
use tool_monitor::text::{decimal_text, malformed_reason_text, repetition_reason_text};

fn bare(tool: &str) -> ToolCall {
    ToolCall { name: tool.to_string(), arguments: None }
}

fn with_entries(tool: &str, entries: &[(&str, Value)]) -> ToolCall {
    let mut arguments = serde_json::Map::new();
    for (key, value) in entries {
        arguments.insert(key.to_string(), value.clone());
    }
    ToolCall { name: tool.to_string(), arguments: Some(arguments) }
}

fn same(left: &ToolCall, right: &ToolCall) -> bool {
    InternalToolCall::from_tool_call(left).matches(&InternalToolCall::from_tool_call(right))
}

fn number(value: Number) -> Value {
    Value::Number(value)
}

#[test]
fn calls_match_on_name_and_arguments() {
    let one = with_entries("edit", &[("path", Value::String("a".to_string()))]);
    let same_path = with_entries("edit", &[("path", Value::String("a".to_string()))]);
    let other_path = with_entries("edit", &[("path", Value::String("b".to_string()))]);
    let other_tool = with_entries("view", &[("path", Value::String("a".to_string()))]);
    assert!(same(&one, &same_path));
    assert!(!same(&one, &other_path));
    assert!(!same(&one, &other_tool));
}

#[test]
fn missing_arguments_differ_from_an_empty_object() {
    assert!(same(&bare("edit"), &bare("edit")));
    assert!(same(&with_entries("edit", &[]), &with_entries("edit", &[])));
    assert!(!same(&bare("edit"), &with_entries("edit", &[])));
    assert!(!same(&with_entries("edit", &[]), &bare("edit")));
}

#[test]
fn the_order_of_entries_does_not_matter() {
    let forwards = with_entries("edit", &[("a", Value::Null), ("b", Value::Bool(true))]);
    let backwards = with_entries("edit", &[("b", Value::Bool(true)), ("a", Value::Null)]);
    assert!(same(&forwards, &backwards));
    let more = with_entries(
        "edit",
        &[("a", Value::Null), ("b", Value::Bool(true)), ("c", Value::Null)],
    );
    assert!(!same(&forwards, &more));
}

#[test]
fn numbers_match_by_kind_and_value() {
    let call = |value: Value| with_entries("edit", &[("n", value)]);
    let float = |value: f64| number(Number::from_f64(value).unwrap());
    assert!(same(&call(number(Number::from(1u64))), &call(number(Number::from(1i64)))));
    assert!(!same(&call(number(Number::from(1u64))), &call(float(1.0))));
    assert!(!same(&call(number(Number::from(-1i64))), &call(number(Number::from(1u64)))));
    assert!(same(&call(float(0.0)), &call(float(-0.0))));
    assert!(!same(&call(float(0.1)), &call(float(0.2))));
}

#[test]
fn nested_arguments_are_compared_deeply() {
    let nested = |leaf: &str| {
        let mut inner = serde_json::Map::new();
        inner.insert(
            "list".to_string(),
            Value::Array(vec![Value::Null, Value::String(leaf.to_string())]),
        );
        with_entries("edit", &[("inner", Value::Object(inner))])
    };
    assert!(same(&nested("x"), &nested("x")));
    assert!(!same(&nested("x"), &nested("y")));
}

#[test]
fn a_clone_is_the_same_call() {
    let call = with_entries("edit", &[("path", Value::String("a".to_string()))]);
    assert!(same(&call, &call.clone()));
    assert!(same(&bare("edit"), &bare("edit").clone()));
    assert_eq!(call.clone().name, "edit");
    assert_eq!(call.clone().arguments.unwrap().len(), 1);
}

#[test]
fn a_different_call_starts_over() {
    let mut inspector = RepetitionInspector::new(Some(2));
    assert!(inspector.check_tool_call(bare("a")));
    assert!(inspector.check_tool_call(bare("a")));
    assert!(inspector.check_tool_call(bare("b")));
    assert!(inspector.check_tool_call(bare("a")));
    assert!(inspector.check_tool_call(bare("a")));
    assert!(!inspector.check_tool_call(bare("a")));
}

#[test]
fn a_denied_call_stays_denied_until_another_comes() {
    let mut inspector = RepetitionInspector::new(Some(1));
    assert!(inspector.check_tool_call(bare("a")));
    assert!(!inspector.check_tool_call(bare("a")));
    assert!(!inspector.check_tool_call(bare("a")));
    assert!(inspector.check_tool_call(bare("b")));
    assert!(inspector.check_tool_call(bare("a")));
}

#[test]
fn a_limit_of_zero_lets_first_calls_pass() {
    let mut inspector = RepetitionInspector::new(Some(0));
    assert!(inspector.check_tool_call(bare("a")));
    assert!(!inspector.check_tool_call(bare("a")));
    assert!(inspector.check_tool_call(bare("b")));
}

#[test]
fn without_a_limit_every_call_passes() {
    let mut inspector = RepetitionInspector::new(None);
    for _ in 0..100 {
        assert!(inspector.check_tool_call(bare("a")));
    }
    assert_eq!(inspector.call_count("a"), 100);
}

#[test]
fn alternating_calls_pass_the_check_of_single_calls() {
    let mut inspector = RepetitionInspector::new(Some(1));
    for _ in 0..20 {
        assert!(inspector.check_tool_call(bare("a")));
        assert!(inspector.check_tool_call(bare("b")));
    }
}

#[test]
fn calls_are_counted_by_tool() {
    let mut inspector = RepetitionInspector::new(Some(1));
    assert_eq!(inspector.call_count("a"), 0);
    inspector.check_tool_call(bare("a"));
    inspector.check_tool_call(with_entries("a", &[]));
    inspector.check_tool_call(with_entries("a", &[]));
    inspector.check_tool_call(bare("b"));
    assert_eq!(inspector.call_count("a"), 3);
    assert_eq!(inspector.call_count("b"), 1);
    assert_eq!(inspector.call_count("c"), 0);
}

#[test]
fn reset_forgets_runs_and_counts() {
    let mut inspector = RepetitionInspector::new(Some(2));
    assert!(inspector.check_tool_call(bare("a")));
    assert!(inspector.check_tool_call(bare("a")));
    assert!(!inspector.check_tool_call(bare("a")));
    inspector.reset();
    assert_eq!(inspector.call_count("a"), 0);
    assert!(inspector.check_tool_call(bare("a")));
    assert!(inspector.check_tool_call(bare("a")));
    assert!(!inspector.check_tool_call(bare("a")));
}

#[test]
fn the_inspector_has_a_name() {
    assert_eq!(RepetitionInspector::new(None).name(), "repetition");
}

#[test]
fn decimals_are_written_without_leading_zeros() {
    for value in [0u64, 7, 9, 10, 42, 100, 909, 1203, 4294967295, u64::MAX] {
        assert_eq!(decimal_text(value), format!("{value}"));
    }
}

#[test]
fn reasons_are_written_out() {
    assert_eq!(
        malformed_reason_text(12),
        "Model emitted 12 malformed tool calls in a row; stopping the retry loop so it can \
         respond in text."
    );
    assert_eq!(
        repetition_reason_text("edit", 4, 6),
        "Tool 'edit' called with identical arguments 4 times in the last 6 tool calls; denying \
         to break the repetition loop."
    );
}
