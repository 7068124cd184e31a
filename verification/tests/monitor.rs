use rmcp::model::{ErrorCode, ErrorData};
use serde_json::Value;
use tool_monitor::inspection::InspectionAction;
use tool_monitor::inspector::RepetitionInspector;
use tool_monitor::message::{Message, MessageContent, ToolCall, ToolRequest};

/// A well-formed tool call. The `marker` is embedded in the `path` argument, so
/// that two calls with different markers differ while naming the same tool.
fn named_call(tool: &str, marker: &str) -> ToolCall {
    let mut arguments = serde_json::Map::new();
    arguments.insert("command".to_string(), Value::String("str_replace".to_string()));
    arguments.insert("path".to_string(), Value::String(marker.to_string()));
    ToolCall { name: tool.to_string(), arguments: Some(arguments) }
}

fn make_edit_request(request_id: &str, target_path: &str) -> ToolRequest {
    ToolRequest {
        id: request_id.to_string(),
        tool_call: Ok(named_call("developer__text_editor", target_path)),
    }
}

fn make_malformed_request(request_id: &str) -> ToolRequest {
    ToolRequest {
        id: request_id.to_string(),
        tool_call: Err(ErrorData {
            code: ErrorCode::INVALID_PARAMS,
            message: std::borrow::Cow::from("malformed"),
            data: None,
        }),
    }
}

/// One message per call, oldest to newest.
fn history_from_calls(calls: &[ToolCall]) -> Vec<Message> {
    calls
        .iter()
        .enumerate()
        .map(|(index, call)| Message {
            content: vec![MessageContent::ToolRequest(ToolRequest {
                id: format!("hist-{index}"),
                tool_call: Ok(call.clone()),
            })],
        })
        .collect()
}

fn malformed_history_message(request_id: &str) -> Message {
    Message { content: vec![MessageContent::ToolRequest(make_malformed_request(request_id))] }
}

/// Without a limit the inspector finds nothing, even for an enormous history of
/// identical calls plus an identical pending request.
#[test]
fn disabled_inspector_allows_unlimited_identical_calls() {
    let inspector = RepetitionInspector::new(None);
    let identical_call = named_call("developer__text_editor", "/src/Foo.kt");
    let history = history_from_calls(&vec![identical_call.clone(); 50]);
    let pending_request = make_edit_request("req-pending", "/src/Foo.kt");

    let results = inspector.inspect(std::slice::from_ref(&pending_request), &history);

    assert!(
        results.is_empty(),
        "a disabled inspector must produce no findings, even for 50 identical calls"
    );
}

/// A straight run of identical calls plus one more identical pending call
/// exceeds the limit of 3.
#[test]
fn consecutive_identical_calls_are_denied_at_the_limit() {
    let inspector = RepetitionInspector::new(Some(3));
    let edit_call = named_call("developer__text_editor", "/src/Foo.kt");
    let history =
        history_from_calls(&[edit_call.clone(), edit_call.clone(), edit_call.clone()]);
    let pending_request = make_edit_request("req-pending", "/src/Foo.kt");

    let results = inspector.inspect(std::slice::from_ref(&pending_request), &history);

    assert_eq!(results.len(), 1, "exactly one finding expected for the looping call");
    assert_eq!(results[0].action, InspectionAction::Deny);
    assert_eq!(results[0].inspector_name, "repetition");
    assert_eq!(results[0].finding_id.as_deref(), Some("REP-001"));
    assert_eq!(results[0].tool_request_id, "req-pending");
}

/// In an alternating loop no two adjacent calls are identical. The windowed
/// rule must still deny the next call.
#[test]
fn alternating_two_tool_loop_is_denied() {
    let inspector = RepetitionInspector::new(Some(3));
    let call_a = named_call("developer__text_editor", "schema.sql");
    let call_b = named_call("developer__text_editor", ".env");
    let history = history_from_calls(&[
        call_a.clone(),
        call_b.clone(),
        call_a.clone(),
        call_b.clone(),
        call_a.clone(),
        call_b.clone(),
    ]);
    let pending_request = make_edit_request("req-pending", "schema.sql");

    let results = inspector.inspect(std::slice::from_ref(&pending_request), &history);

    assert_eq!(results.len(), 1, "the alternating A/B loop must produce one finding");
    assert_eq!(results[0].action, InspectionAction::Deny);
    assert_eq!(results[0].inspector_name, "repetition");
    assert_eq!(results[0].finding_id.as_deref(), Some("REP-001"));
    assert_eq!(results[0].tool_request_id, "req-pending");
}

/// Calls to the same tool with different arguments are no loop.
#[test]
fn varied_arguments_on_the_same_tool_are_allowed() {
    let inspector = RepetitionInspector::new(Some(3));
    let history = history_from_calls(&[
        named_call("developer__text_editor", "/src/A.kt"),
        named_call("developer__text_editor", "/src/B.kt"),
        named_call("developer__text_editor", "/src/C.kt"),
        named_call("developer__text_editor", "/src/D.kt"),
    ]);
    let pending_request = make_edit_request("req-pending", "/src/E.kt");

    let results = inspector.inspect(std::slice::from_ref(&pending_request), &history);

    assert!(
        results.is_empty(),
        "varied arguments on the same tool must not be treated as a repetition loop"
    );
}

/// A sustained trailing run of malformed calls plus a malformed pending request
/// is a loop.
#[test]
fn trailing_malformed_tool_calls_are_denied() {
    let inspector = RepetitionInspector::new(Some(3));
    let history = vec![
        malformed_history_message("hist-0"),
        malformed_history_message("hist-1"),
        malformed_history_message("hist-2"),
    ];
    let pending_request = make_malformed_request("req-malformed");

    let results = inspector.inspect(std::slice::from_ref(&pending_request), &history);

    assert_eq!(results.len(), 1, "a sustained malformed run must produce one finding");
    assert_eq!(results[0].action, InspectionAction::Deny);
    assert_eq!(results[0].inspector_name, "repetition");
    assert_eq!(results[0].finding_id.as_deref(), Some("REP-002"));
    assert_eq!(results[0].tool_request_id, "req-malformed");
}

/// A single malformed call is a transient parse error.
#[test]
fn an_isolated_malformed_call_is_tolerated() {
    let inspector = RepetitionInspector::new(Some(3));
    let history = vec![malformed_history_message("hist-0")];
    let pending_request = make_malformed_request("req-malformed");

    let results = inspector.inspect(std::slice::from_ref(&pending_request), &history);

    assert!(results.is_empty(), "a single transient malformed call must not be denied");
}

/// Of consecutive identical calls the first three are allowed under a limit of
/// 3, the fourth is denied.
#[test]
fn check_tool_call_denies_consecutive_identical_calls() {
    let mut inspector = RepetitionInspector::new(Some(3));
    let repeated_call = named_call("developer__text_editor", "/src/Foo.kt");

    for attempt in 1..=3 {
        assert!(
            inspector.check_tool_call(repeated_call.clone()),
            "attempt {attempt} should be allowed (<= limit of 3)"
        );
    }

    assert!(
        !inspector.check_tool_call(repeated_call.clone()),
        "the 4th consecutive identical call must be denied (> limit of 3)"
    );
}
