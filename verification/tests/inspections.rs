use rmcp::model::{ErrorCode, ErrorData};
use tool_monitor::call::InternalToolCall;
use tool_monitor::inspection::{deny_malformed, deny_repetition, InspectionAction};
use tool_monitor::inspector::RepetitionInspector;
use tool_monitor::message::{Message, MessageContent, ToolCall, ToolRequest};

fn bare(tool: &str) -> ToolCall {
    ToolCall { name: tool.to_string(), arguments: None }
}

fn well_formed(id: &str, tool: &str) -> ToolRequest {
    ToolRequest { id: id.to_string(), tool_call: Ok(bare(tool)) }
}

fn malformed(id: &str) -> ToolRequest {
    ToolRequest {
        id: id.to_string(),
        tool_call: Err(ErrorData {
            code: ErrorCode::INVALID_PARAMS,
            message: std::borrow::Cow::from("malformed"),
            data: None,
        }),
    }
}

/// A conversation of one message per letter: `x` is a malformed call, `.` is
/// text, and any other letter is a call to the tool of that name.
fn conversation(script: &str) -> Vec<Message> {
    script.chars().map(|letter| Message { content: vec![content(letter)] }).collect()
}

fn content(letter: char) -> MessageContent {
    match letter {
        'x' => MessageContent::ToolRequest(malformed("past")),
        '.' => MessageContent::Other,
        tool => MessageContent::ToolRequest(well_formed("past", &tool.to_string())),
    }
}

/// The ids of the denied requests with the rules under which they were denied.
fn denied(limit: Option<u32>, requests: &[ToolRequest], script: &str) -> Vec<(String, String)> {
    RepetitionInspector::new(limit)
        .inspect(requests, &conversation(script))
        .iter()
        .map(|result| {
            assert_eq!(result.action, InspectionAction::Deny);
            assert_eq!(result.inspector_name, "repetition");
            assert_eq!(result.confidence_percent, 100);
            (result.tool_request_id.clone(), result.finding_id.clone().unwrap())
        })
        .collect()
}

fn pair(id: &str, rule: &str) -> (String, String) {
    (id.to_string(), rule.to_string())
}

#[test]
fn a_repetition_is_explained() {
    let results =
        RepetitionInspector::new(Some(3)).inspect(&[well_formed("r", "a")], &conversation("aaa"));
    assert_eq!(results.len(), 1);
    assert_eq!(
        results[0].reason,
        "Tool 'a' called with identical arguments 4 times in the last 6 tool calls; denying to \
         break the repetition loop."
    );
    assert_eq!(results[0].confidence_percent, 100);
}

#[test]
fn a_malformed_loop_is_explained() {
    let results =
        RepetitionInspector::new(Some(3)).inspect(&[malformed("r")], &conversation("axxxx"));
    assert_eq!(results.len(), 1);
    assert_eq!(
        results[0].reason,
        "Model emitted 4 malformed tool calls in a row; stopping the retry loop so it can \
         respond in text."
    );
    assert_eq!(results[0].confidence_percent, 100);
}

#[test]
fn a_call_is_denied_once_its_count_reaches_the_limit() {
    let requests = [well_formed("r", "a")];
    assert_eq!(denied(Some(3), &requests, "aa"), vec![]);
    assert_eq!(denied(Some(3), &requests, "aaa"), vec![pair("r", "REP-001")]);
    assert_eq!(denied(Some(1), &requests, ""), vec![]);
    assert_eq!(denied(Some(1), &requests, "a"), vec![pair("r", "REP-001")]);
}

#[test]
fn both_calls_of_an_alternation_are_denied() {
    let requests = [well_formed("r", "a"), well_formed("s", "b"), well_formed("t", "c")];
    assert_eq!(
        denied(Some(3), &requests, "cababab"),
        vec![pair("r", "REP-001"), pair("s", "REP-001")]
    );
    assert_eq!(denied(Some(3), &requests, "abab"), vec![]);
}

#[test]
fn calls_beyond_the_window_do_not_count() {
    let requests = [well_formed("r", "a")];
    assert_eq!(denied(Some(2), &requests, "aabb"), vec![pair("r", "REP-001")]);
    assert_eq!(denied(Some(2), &requests, "aabbb"), vec![]);
    assert_eq!(denied(Some(2), &requests, "aaaaaaabbb"), vec![]);
    assert_eq!(denied(Some(1), &requests, "ab"), vec![pair("r", "REP-001")]);
    assert_eq!(denied(Some(1), &requests, "abb"), vec![]);
}

#[test]
fn malformed_calls_and_text_take_no_room_in_the_window() {
    let requests = [well_formed("r", "a")];
    assert_eq!(denied(Some(2), &requests, "aaxx..xbb"), vec![pair("r", "REP-001")]);
}

#[test]
fn pending_requests_do_not_count_against_each_other() {
    let requests = [well_formed("r", "a"), well_formed("s", "a"), well_formed("t", "a")];
    assert_eq!(denied(Some(2), &requests, "a"), vec![]);
    assert_eq!(
        denied(Some(2), &requests, "aa"),
        vec![pair("r", "REP-001"), pair("s", "REP-001"), pair("t", "REP-001")]
    );
}

#[test]
fn a_zero_limit_denies_every_well_formed_request() {
    let requests = [well_formed("r", "a"), malformed("s"), well_formed("t", "b")];
    assert_eq!(denied(Some(0), &requests, ""), vec![pair("r", "REP-001"), pair("t", "REP-001")]);
    let results = RepetitionInspector::new(Some(0)).inspect(&requests, &conversation("aaa"));
    assert_eq!(
        results[0].reason,
        "Tool 'a' called with identical arguments 1 times in the last 0 tool calls; denying to \
         break the repetition loop."
    );
}

#[test]
fn the_largest_limit_is_never_reached() {
    assert_eq!(denied(Some(u32::MAX), &[well_formed("r", "a")], "aaaaaaaaaa"), vec![]);
}

#[test]
fn a_malformed_loop_settles_the_inspection() {
    let requests = [well_formed("r", "a"), malformed("s"), malformed("t")];
    assert_eq!(
        denied(Some(1), &requests, "aaxxx"),
        vec![pair("s", "REP-002"), pair("t", "REP-002")]
    );
}

#[test]
fn a_malformed_run_alone_leaves_the_repetition_rule_in_force() {
    let requests = [well_formed("r", "a"), well_formed("s", "b")];
    assert_eq!(denied(Some(1), &requests, "axxx"), vec![pair("r", "REP-001")]);
}

#[test]
fn a_short_malformed_run_is_tolerated() {
    assert_eq!(denied(Some(3), &[malformed("r")], "xx"), vec![]);
    assert_eq!(denied(Some(3), &[malformed("r")], "xxx"), vec![pair("r", "REP-002")]);
}

#[test]
fn a_well_formed_call_ends_a_malformed_run() {
    assert_eq!(denied(Some(3), &[malformed("r")], "xxxxxa"), vec![]);
    assert_eq!(denied(Some(3), &[malformed("r")], "xxxaxx"), vec![]);
    assert_eq!(denied(Some(3), &[malformed("r")], "axxx"), vec![pair("r", "REP-002")]);
}

#[test]
fn text_neither_extends_nor_breaks_a_malformed_run() {
    assert_eq!(denied(Some(3), &[malformed("r")], "x..x.x."), vec![pair("r", "REP-002")]);
    assert_eq!(denied(Some(3), &[malformed("r")], "x..x.."), vec![]);
}

#[test]
fn requests_within_one_message_are_read_in_order() {
    let messages = vec![Message { content: "xxx.a".chars().map(content).collect() }];
    let inspector = RepetitionInspector::new(Some(1));
    assert!(inspector.inspect(&[malformed("r")], &messages).is_empty());
    assert_eq!(RepetitionInspector::count_trailing_malformed_tool_calls(&messages), 0);

    let messages = vec![
        Message { content: "ax".chars().map(content).collect() },
        Message { content: vec![] },
        Message { content: ".xx".chars().map(content).collect() },
    ];
    assert_eq!(RepetitionInspector::count_trailing_malformed_tool_calls(&messages), 3);
    assert_eq!(
        RepetitionInspector::checked_count_trailing_malformed_tool_calls(&messages),
        Some(3)
    );
    assert_eq!(inspector.inspect(&[malformed("r")], &messages).len(), 1);
}

#[test]
fn the_history_holds_the_well_formed_calls_in_order() {
    let calls = RepetitionInspector::collect_history_tool_calls(&conversation("ax.bxa"));
    let expected: Vec<InternalToolCall> =
        ["a", "b", "a"].iter().map(|tool| InternalToolCall::from_tool_call(&bare(tool))).collect();
    assert_eq!(calls.len(), expected.len());
    for (call, wanted) in calls.iter().zip(expected.iter()) {
        assert!(call.matches(wanted));
    }
}

#[test]
fn occurrences_are_counted_within_the_window() {
    let inspector = RepetitionInspector::new(Some(3));
    let calls = RepetitionInspector::collect_history_tool_calls(&conversation("aabab"));
    let target = InternalToolCall::from_tool_call(&bare("a"));
    assert_eq!(inspector.count_in_recent_window(&target, &calls, 0), 0);
    assert_eq!(inspector.count_in_recent_window(&target, &calls, 1), 0);
    assert_eq!(inspector.count_in_recent_window(&target, &calls, 2), 1);
    assert_eq!(inspector.count_in_recent_window(&target, &calls, 4), 2);
    assert_eq!(inspector.count_in_recent_window(&target, &calls, 5), 3);
    assert_eq!(inspector.count_in_recent_window(&target, &calls, 100), 3);
}

#[test]
fn a_checked_inspection_agrees_with_an_inspection() {
    let requests = [well_formed("r", "a"), malformed("s")];
    for script in ["", "a", "aa", "xxx", "axxx", "abab"] {
        let inspector = RepetitionInspector::new(Some(2));
        let messages = conversation(script);
        let plain = inspector.inspect(&requests, &messages);
        let checked = inspector.checked_inspect(&requests, &messages).unwrap();
        assert_eq!(format!("{plain:?}"), format!("{checked:?}"));
    }
}

#[test]
fn an_inspection_does_not_depend_on_the_calls_that_were_shown() {
    let requests = [well_formed("r", "a")];
    let mut inspector = RepetitionInspector::new(Some(2));
    for _ in 0..5 {
        inspector.check_tool_call(bare("a"));
    }
    assert!(inspector.inspect(&requests, &conversation("a")).is_empty());
    assert_eq!(inspector.inspect(&requests, &conversation("aa")).len(), 1);
}

#[test]
fn what_the_check_of_single_calls_denies_the_inspection_denies() {
    for script in ["aaa", "baaa", "aba", "aaab", "bbaa"] {
        let mut inspector = RepetitionInspector::new(Some(2));
        for letter in script.chars() {
            inspector.check_tool_call(bare(&letter.to_string()));
        }
        if !inspector.check_tool_call(bare("a")) {
            assert_eq!(denied(Some(2), &[well_formed("r", "a")], script).len(), 1);
        }
    }
}

#[test]
fn denials_carry_the_id_of_the_request() {
    let result = deny_malformed(&"r".to_string(), 3);
    assert_eq!(result.tool_request_id, "r");
    assert_eq!(result.finding_id.as_deref(), Some("REP-002"));
    let result = deny_repetition(&"s".to_string(), "a", 2, 2);
    assert_eq!(result.tool_request_id, "s");
    assert_eq!(result.finding_id.as_deref(), Some("REP-001"));
}

#[test]
fn the_two_rules_can_be_applied_alone() {
    let requests = [malformed("r"), well_formed("s", "a"), malformed("t")];
    let results = RepetitionInspector::deny_malformed_requests(&requests, 5);
    let ids: Vec<&str> = results.iter().map(|result| result.tool_request_id.as_str()).collect();
    assert_eq!(ids, vec!["r", "t"]);

    let calls = RepetitionInspector::collect_history_tool_calls(&conversation("aa"));
    let inspector = RepetitionInspector::new(None);
    let results = inspector.checked_deny_repeated(&requests, &calls, 2).unwrap();
    assert_eq!(results.len(), 1);
    assert_eq!(results[0].tool_request_id, "s");
    assert!(inspector.checked_deny_repeated(&requests, &calls, 3).unwrap().is_empty());
}
