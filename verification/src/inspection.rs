//! What an inspection of pending tool requests finds.

use vstd::prelude::*;

use crate::history::{occurrences, parsed_calls, recent, trailing_malformed};
use crate::message::{Signature, ToolRequest};
use crate::text::{
    malformed_reason, malformed_reason_text, repetition_reason, repetition_reason_text,
};

verus! {

/// How many malformed tool calls in a row make a loop.
///
/// A malformed call tends to breed more of its kind: the model reads its own
/// mistake in the conversation and repeats it. A few are let pass, since a
/// parse error may be transient; a sustained run is broken so that the model
/// can respond in text.
pub const MAX_CONSECUTIVE_MALFORMED_TOOL_CALLS: u32 = 3;

/// What is to become of a tool request.
#[derive(Debug, Clone, Copy, PartialEq, Eq, Structural)]
pub enum InspectionAction {
    Allow,
    Deny,
}

/// A verdict on one tool request.
#[derive(Debug)]
pub struct InspectionResult {
    /// The request that the verdict is on.
    pub tool_request_id: String,
    pub action: InspectionAction,
    /// An explanation, for the model to read.
    pub reason: String,
    /// How sure the inspector is, in percent.
    pub confidence_percent: u8,
    /// The inspector that reached the verdict.
    pub inspector_name: String,
    /// The rule that was broken.
    pub finding_id: Option<String>,
}

/// The content of an `InspectionResult`.
#[verifier::ext_equal]
pub struct Finding {
    pub tool_request_id: Seq<char>,
    pub action: InspectionAction,
    pub reason: Seq<char>,
    pub confidence_percent: nat,
    pub inspector_name: Seq<char>,
    pub finding_id: Option<Seq<char>>,
}

impl View for InspectionResult {
    type V = Finding;

    open spec fn view(&self) -> Finding {
        Finding {
            tool_request_id: self.tool_request_id@,
            action: self.action,
            reason: self.reason@,
            confidence_percent: self.confidence_percent as nat,
            inspector_name: self.inspector_name@,
            finding_id: match self.finding_id {
                Some(id) => Some(id@),
                None => None,
            },
        }
    }
}

/// The contents of a list of results, in order.
pub open spec fn findings(results: Seq<InspectionResult>) -> Seq<Finding> {
    results.map_values(|result: InspectionResult| result@)
}

/// A certain denial by the repetition inspector.
pub open spec fn denial(tool_request_id: Seq<char>, reason: Seq<char>, rule: Seq<char>) -> Finding {
    Finding {
        tool_request_id,
        action: InspectionAction::Deny,
        reason,
        confidence_percent: 100,
        inspector_name: "repetition"@,
        finding_id: Some(rule),
    }
}

/// The finding on a malformed request after a run of `run` malformed calls.
pub open spec fn malformed_finding(tool_request_id: Seq<char>, run: nat) -> Finding {
    denial(tool_request_id, malformed_reason(run), "REP-002"@)
}

/// The finding on a request for a call to `name` that would be the
/// `count`-th of its kind within a window of `window` calls.
pub open spec fn repetition_finding(
    tool_request_id: Seq<char>,
    name: Seq<char>,
    count: nat,
    window: nat,
) -> Finding {
    denial(tool_request_id, repetition_reason(name, count, window), "REP-001"@)
}

/// How many calls of the past count towards a limit: twice as many as the
/// limit, so that two calls in turn can fill it.
pub open spec fn window(limit: u32) -> nat {
    if 2 * limit <= usize::MAX {
        (2 * limit) as nat
    } else {
        usize::MAX as nat
    }
}

/// How often a call occurs within the window of a limit.
pub open spec fn recent_count(limit: u32, history: Seq<Signature>, call: Signature) -> nat {
    occurrences(recent(history, window(limit)), call)
}

/// The count that is held against the limit, the pending call included. The
/// occurrences in the past are counted in 32 bits.
pub open spec fn pending_count(limit: u32, history: Seq<Signature>, call: Signature) -> nat {
    (recent_count(limit, history, call) as u32 + 1) as nat
}

/// What the malformed-call rule finds on one request.
pub open spec fn malformed_verdict(request: ToolRequest, run: nat) -> Option<Finding> {
    if request.tool_call is Err {
        Some(malformed_finding(request.id@, run))
    } else {
        None
    }
}

/// What the repetition rule finds on one request.
pub open spec fn repetition_verdict(
    request: ToolRequest,
    limit: u32,
    history: Seq<Signature>,
) -> Option<Finding> {
    match request.attempt() {
        Some(call) => {
            let count = pending_count(limit, history, call);
            if count > limit {
                Some(repetition_finding(request.id@, call.name, count, window(limit)))
            } else {
                None
            }
        },
        None => None,
    }
}

/// What the malformed-call rule finds on a list of requests, in order.
pub open spec fn malformed_findings(requests: Seq<ToolRequest>, run: nat) -> Seq<Finding> {
    requests.filter_map(|request: ToolRequest| malformed_verdict(request, run))
}

/// What the repetition rule finds on a list of requests, in order.
pub open spec fn repetition_findings(
    requests: Seq<ToolRequest>,
    limit: u32,
    history: Seq<Signature>,
) -> Seq<Finding> {
    requests.filter_map(|request: ToolRequest| repetition_verdict(request, limit, history))
}

/// Whether a request of the list is malformed.
pub open spec fn any_malformed(requests: Seq<ToolRequest>) -> bool {
    exists|i: int| 0 <= i < requests.len() && (#[trigger] requests[i]).tool_call is Err
}

/// Whether the malformed-call rule settles an inspection: the conversation
/// ends in a sustained run of malformed calls and is about to extend it.
pub open spec fn malformed_loop(
    requests: Seq<ToolRequest>,
    attempts: Seq<Option<Signature>>,
) -> bool {
    trailing_malformed(attempts) >= MAX_CONSECUTIVE_MALFORMED_TOOL_CALLS && any_malformed(requests)
}

/// What an inspection of `requests` finds after a conversation with the given
/// attempts at tool calls.
pub open spec fn expected_findings(
    limit: Option<u32>,
    requests: Seq<ToolRequest>,
    attempts: Seq<Option<Signature>>,
) -> Seq<Finding> {
    match limit {
        None => Seq::empty(),
        Some(limit) => if malformed_loop(requests, attempts) {
            malformed_findings(requests, trailing_malformed(attempts))
        } else {
            repetition_findings(requests, limit, parsed_calls(attempts))
        },
    }
}

/// Whether the 32-bit counters of an inspection are wide enough for it. They
/// are for every conversation with fewer than `u32::MAX` attempts.
pub open spec fn countable(
    limit: Option<u32>,
    requests: Seq<ToolRequest>,
    attempts: Seq<Option<Signature>>,
) -> bool {
    match limit {
        None => true,
        Some(limit) => {
            &&& trailing_malformed(attempts) <= u32::MAX
            &&& malformed_loop(requests, attempts) || forall|i: int|
                0 <= i < requests.len() ==> pending_countable(
                    #[trigger] requests[i],
                    limit,
                    parsed_calls(attempts),
                )
        },
    }
}

/// Whether the count that is held against the limit fits in 32 bits.
pub open spec fn pending_countable(
    request: ToolRequest,
    limit: u32,
    history: Seq<Signature>,
) -> bool {
    match request.attempt() {
        Some(call) => pending_count(limit, history, call) <= u32::MAX,
        None => true,
    }
}

fn deny(tool_request_id: &String, reason: String, rule: &str) -> (result: InspectionResult)
    ensures
        result@ == denial(tool_request_id@, reason@, rule@),
{
    InspectionResult {
        tool_request_id: tool_request_id.clone(),
        action: InspectionAction::Deny,
        reason,
        confidence_percent: 100,
        inspector_name: "repetition".to_owned(),
        finding_id: Some(rule.to_owned()),
    }
}

/// Denies a malformed request after a run of `run` malformed calls.
pub fn deny_malformed(tool_request_id: &String, run: u32) -> (result: InspectionResult)
    ensures
        result@ == malformed_finding(tool_request_id@, run as nat),
{
    deny(tool_request_id, malformed_reason_text(run), "REP-002")
}

/// Denies a request for a call to `name` that would be the `count`-th of its
/// kind within a window of `window` calls.
pub fn deny_repetition(tool_request_id: &String, name: &str, count: u32, window: usize) -> (result:
    InspectionResult)
    ensures
        result@ == repetition_finding(tool_request_id@, name@, count as nat, window as nat),
{
    deny(tool_request_id, repetition_reason_text(name, count, window), "REP-001")
}

/// One more request adds the finding on it, if there is one.
pub(crate) proof fn lemma_malformed_findings_step(requests: Seq<ToolRequest>, run: nat, i: int)
    requires
        0 <= i < requests.len(),
    ensures
        malformed_findings(requests.take(i + 1), run) == (match malformed_verdict(
            requests[i],
            run,
        ) {
            Some(finding) => malformed_findings(requests.take(i), run).push(finding),
            None => malformed_findings(requests.take(i), run),
        }),
{
    requests.lemma_filter_map_take_succ(
        |request: ToolRequest| malformed_verdict(request, run),
        i,
    );
    assert(malformed_findings(requests.take(i + 1), run) =~= (match malformed_verdict(
        requests[i],
        run,
    ) {
        Some(finding) => malformed_findings(requests.take(i), run).push(finding),
        None => malformed_findings(requests.take(i), run),
    }));
}

/// One more request adds the finding on it, if there is one.
pub(crate) proof fn lemma_repetition_findings_step(
    requests: Seq<ToolRequest>,
    limit: u32,
    history: Seq<Signature>,
    i: int,
)
    requires
        0 <= i < requests.len(),
    ensures
        repetition_findings(requests.take(i + 1), limit, history) == (match repetition_verdict(
            requests[i],
            limit,
            history,
        ) {
            Some(finding) => repetition_findings(requests.take(i), limit, history).push(finding),
            None => repetition_findings(requests.take(i), limit, history),
        }),
{
    requests.lemma_filter_map_take_succ(
        |request: ToolRequest| repetition_verdict(request, limit, history),
        i,
    );
    assert(repetition_findings(requests.take(i + 1), limit, history) =~= (match repetition_verdict(
        requests[i],
        limit,
        history,
    ) {
        Some(finding) => repetition_findings(requests.take(i), limit, history).push(finding),
        None => repetition_findings(requests.take(i), limit, history),
    }));
}

} // verus!
