//! What findings say, and exactly which requests they are on.

use vstd::prelude::*;

use crate::conversation_laws::{
    law_recent_occurrences_are_positions_in_the_window, law_trailing_run_is_the_longest,
    lemma_filter_map_positions,
};
use crate::history::{parsed_calls, trailing_malformed};
use crate::inspection::{
    any_malformed, countable, expected_findings, findings, malformed_finding, malformed_findings,
    malformed_loop, malformed_verdict, pending_count, pending_countable, recent_count,
    repetition_finding, repetition_findings, repetition_verdict, window, InspectionAction, InspectionResult,
};
use crate::message::{Signature, ToolRequest};
use crate::text::decimal;

verus! {

// The content of findings.

/// The content of a result is that of its fields, whole and unchanged.
pub proof fn law_content_of_a_result(result: InspectionResult)
    ensures
        result@.tool_request_id == result.tool_request_id@,
        result@.action == result.action,
        result@.reason == result.reason@,
        result@.confidence_percent == result.confidence_percent,
        result@.inspector_name == result.inspector_name@,
        result.finding_id is None <==> result@.finding_id is None,
        result.finding_id matches Some(id) ==> result@.finding_id == Some(id@),
{
}

/// The findings of a list of results are those of its elements, in order.
pub proof fn law_content_of_results(results: Seq<InspectionResult>)
    ensures
        findings(results).len() == results.len(),
        forall|i: int| 0 <= i < results.len() ==> #[trigger] findings(results)[i] == results[i]@,
{
}

/// A number below ten is written as its digit, and a digit behind a number
/// other than zero makes ten times the number, plus the digit.
pub proof fn law_decimal_digits(value: nat, digit: nat)
    requires
        digit < 10,
    ensures
        decimal(digit) == seq!["0123456789"@[digit as int]],
        value > 0 ==> decimal(10 * value + digit) == decimal(value).push(
            "0123456789"@[digit as int],
        ),
{
    reveal_strlit("0123456789");
    assert((10 * value + digit) / 10 == value);
    assert((10 * value + digit) % 10 == digit);
}

/// The finding on a malformed request is a certain denial of that request under
/// the rule for malformed calls, whatever the length of the run, and names it.
pub proof fn law_content_of_a_malformed_finding(id: Seq<char>, run: nat)
    ensures
        malformed_finding(id, run).tool_request_id == id,
        malformed_finding(id, run).action == InspectionAction::Deny,
        malformed_finding(id, run).confidence_percent == 100,
        malformed_finding(id, run).inspector_name == "repetition"@,
        malformed_finding(id, run).finding_id == Some("REP-002"@),
        malformed_finding(id, run).reason == "Model emitted "@ + decimal(run)
            + " malformed tool calls in a row; stopping the retry loop so it can respond in text."@,
{
}

/// The finding on a repeated call is a certain denial of that request under the
/// rule for repeated calls, and names the tool, the count and the window.
pub proof fn law_content_of_a_repetition_finding(
    id: Seq<char>,
    name: Seq<char>,
    count: nat,
    window: nat,
)
    ensures
        repetition_finding(id, name, count, window).tool_request_id == id,
        repetition_finding(id, name, count, window).action == InspectionAction::Deny,
        repetition_finding(id, name, count, window).confidence_percent == 100,
        repetition_finding(id, name, count, window).inspector_name == "repetition"@,
        repetition_finding(id, name, count, window).finding_id == Some("REP-001"@),
        repetition_finding(id, name, count, window).reason == "Tool '"@ + name
            + "' called with identical arguments "@ + decimal(count) + " times in the last "@
            + decimal(window) + " tool calls; denying to break the repetition loop."@,
{
}

// What is counted.

/// What is held against the limit is the number of positions among the last
/// calls, twice as many as the limit, at which the call stands, and one more
/// for the pending call. The positions are counted in 32 bits.
pub proof fn law_count_held_against_the_limit(limit: u32, history: Seq<Signature>, call: Signature)
    requires
        history.len() <= usize::MAX,
    ensures
        window(limit) == (if 2 * limit <= usize::MAX {
            2 * limit
        } else {
            usize::MAX as int
        }),
        recent_count(limit, history, call) == Set::new(
            |k: int| 0 <= k < history.len() && history.len() - 2 * limit <= k && history[k] == call,
        ).len(),
        pending_count(limit, history, call) == Set::new(
            |k: int| 0 <= k < history.len() && history.len() - 2 * limit <= k && history[k] == call,
        ).len() as u32 + 1,
{
    let positions = Set::new(
        |k: int| 0 <= k < history.len() && history.len() - 2 * limit <= k && history[k] == call,
    );
    law_recent_occurrences_are_positions_in_the_window(history, window(limit), call);
    assert(positions =~= Set::new(
        |k: int|
            0 <= k < history.len() && history.len() - window(limit) <= k && history[k] == call,
    ));
}

/// A malformed loop is three or more malformed attempts at the end of the
/// conversation together with a malformed request: neither makes one alone.
pub proof fn law_malformed_loop_needs_both(
    requests: Seq<ToolRequest>,
    attempts: Seq<Option<Signature>>,
)
    ensures
        any_malformed(requests) <==> exists|i: int|
            0 <= i < requests.len() && (#[trigger] requests[i]).tool_call is Err,
        malformed_loop(requests, attempts) <==> {
            &&& attempts.len() >= 3
            &&& attempts[attempts.len() - 1] is None
            &&& attempts[attempts.len() - 2] is None
            &&& attempts[attempts.len() - 3] is None
            &&& exists|i: int| 0 <= i < requests.len() && (#[trigger] requests[i]).tool_call is Err
        },
{
    law_trailing_run_is_the_longest(attempts);
    let run = trailing_malformed(attempts);
    if run < 3 && attempts.len() >= 3 {
        assert(attempts[attempts.len() - run - 1] is Some);
    }
}

// Which requests are denied.

/// The rule for malformed calls finds something on a request exactly when the
/// request is malformed.
pub proof fn law_malformed_verdict(request: ToolRequest, run: nat)
    ensures
        malformed_verdict(request, run) == (match request.tool_call {
            Ok(_) => None,
            Err(_) => Some(malformed_finding(request.id@, run)),
        }),
{
}

/// The rule for repeated calls finds something on a request exactly when it is
/// well-formed and its call, the pending one included, occurs more often than
/// the limit says among the last calls, twice as many as the limit.
pub proof fn law_repetition_verdict(request: ToolRequest, limit: u32, history: Seq<Signature>)
    requires
        history.len() <= usize::MAX,
    ensures
        request.tool_call is Err ==> repetition_verdict(request, limit, history) is None,
        request.tool_call matches Ok(call) ==> {
            let count = Set::new(
                |k: int|
                    0 <= k < history.len() && history.len() - 2 * limit <= k && history[k] == call@,
            ).len() as u32 + 1;
            repetition_verdict(request, limit, history) == (if count > limit {
                Some(
                    repetition_finding(
                        request.id@,
                        call.name@,
                        count as nat,
                        if 2 * limit <= usize::MAX {
                            (2 * limit) as nat
                        } else {
                            usize::MAX as nat
                        },
                    ),
                )
            } else {
                None
            })
        },
{
    if let Ok(call) = request.tool_call {
        let signature = call@;
        law_count_held_against_the_limit(limit, history, signature);
        assert(Set::new(
            |k: int|
                0 <= k < history.len() && history.len() - 2 * limit <= k && history[k] == call@,
        ) =~= Set::new(
            |k: int|
                0 <= k < history.len() && history.len() - 2 * limit <= k && history[k] == signature,
        ));
    }
}

/// The rule for malformed calls denies all the malformed requests of a list and
/// no others, once each and in their order, under its own name.
pub proof fn law_malformed_rule_denies_the_malformed(
    requests: Seq<ToolRequest>,
    run: nat,
) -> (at: Seq<int>)
    ensures
        malformed_findings(requests, run).len() == at.len(),
        forall|k: int| #![trigger at[k]]
            0 <= k < at.len() ==> {
                &&& 0 <= at[k] < requests.len()
                &&& requests[at[k]].tool_call is Err
                &&& malformed_findings(requests, run)[k] == malformed_finding(
                    requests[at[k]].id@,
                    run,
                )
                &&& malformed_findings(requests, run)[k].tool_request_id == requests[at[k]].id@
                &&& malformed_findings(requests, run)[k].action == InspectionAction::Deny
                &&& malformed_findings(requests, run)[k].finding_id == Some("REP-002"@)
            },
        forall|j: int, k: int| 0 <= j < k < at.len() ==> #[trigger] at[j] < #[trigger] at[k],
        forall|i: int|
            0 <= i < requests.len() && requests[i].tool_call is Err ==> #[trigger] at.contains(i),
{
    lemma_filter_map_positions(
        requests,
        |request: ToolRequest| malformed_verdict(request, run),
    )
}

/// The rule for repeated calls denies all the requests of a list whose calls
/// occur too often and no others, once each and in their order, under its own
/// name.
pub proof fn law_repetition_rule_denies_the_frequent(
    requests: Seq<ToolRequest>,
    limit: u32,
    history: Seq<Signature>,
) -> (at: Seq<int>)
    requires
        history.len() <= usize::MAX,
    ensures
        repetition_findings(requests, limit, history).len() == at.len(),
        forall|k: int| #![trigger at[k]]
            0 <= k < at.len() ==> {
                &&& 0 <= at[k] < requests.len()
                &&& repetition_findings(requests, limit, history)[k].tool_request_id
                    == requests[at[k]].id@
                &&& repetition_findings(requests, limit, history)[k].action
                    == InspectionAction::Deny
                &&& repetition_findings(requests, limit, history)[k].finding_id == Some(
                    "REP-001"@,
                )
                &&& Some(repetition_findings(requests, limit, history)[k]) == repetition_verdict(
                    requests[at[k]],
                    limit,
                    history,
                )
            },
        forall|j: int, k: int| 0 <= j < k < at.len() ==> #[trigger] at[j] < #[trigger] at[k],
        forall|i: int| #![trigger at.contains(i)]
            at.contains(i) <==> 0 <= i < requests.len() && (requests[i].tool_call matches Ok(call)
                && Set::new(
                |k: int|
                    0 <= k < history.len() && history.len() - 2 * limit <= k && history[k] == call@,
            ).len() as u32 + 1 > limit),
{
    let at = lemma_filter_map_positions(
        requests,
        |request: ToolRequest| repetition_verdict(request, limit, history),
    );
    assert forall|i: int| #![trigger at.contains(i)]
        at.contains(i) <==> 0 <= i < requests.len() && (requests[i].tool_call matches Ok(call)
            && Set::new(
            |k: int|
                0 <= k < history.len() && history.len() - 2 * limit <= k && history[k] == call@,
        ).len() as u32 + 1 > limit) by {
        if 0 <= i < requests.len() {
            law_repetition_verdict(requests[i], limit, history);
        }
        if at.contains(i) {
            let k = choose|k: int| 0 <= k < at.len() && at[k] == i;
            assert(0 <= at[k] < requests.len());
        }
    }
    at
}

/// When the conversation ends in three or more malformed attempts and a request
/// is malformed, the rule for malformed calls settles the inspection: exactly
/// the malformed requests are denied, in order, each under `REP-002` and with
/// the length of the run.
pub proof fn law_inspection_in_a_malformed_loop(
    limit: u32,
    requests: Seq<ToolRequest>,
    attempts: Seq<Option<Signature>>,
    run: nat,
) -> (at: Seq<int>)
    requires
        3 <= run <= attempts.len(),
        forall|k: int| attempts.len() - run <= k < attempts.len() ==> (#[trigger] attempts[k]) is None,
        run < attempts.len() ==> attempts[attempts.len() - run - 1] is Some,
        exists|i: int| 0 <= i < requests.len() && (#[trigger] requests[i]).tool_call is Err,
    ensures
        expected_findings(Some(limit), requests, attempts).len() == at.len(),
        forall|k: int| #![trigger at[k]]
            0 <= k < at.len() ==> {
                let found = expected_findings(Some(limit), requests, attempts)[k];
                &&& 0 <= at[k] < requests.len()
                &&& requests[at[k]].tool_call is Err
                &&& found.tool_request_id == requests[at[k]].id@
                &&& found.action == InspectionAction::Deny
                &&& found.confidence_percent == 100
                &&& found.inspector_name == "repetition"@
                &&& found.finding_id == Some("REP-002"@)
                &&& found.reason == "Model emitted "@ + decimal(run)
                    + " malformed tool calls in a row; stopping the retry loop so it can respond in text."@
            },
        forall|j: int, k: int| 0 <= j < k < at.len() ==> #[trigger] at[j] < #[trigger] at[k],
        forall|i: int|
            0 <= i < requests.len() && requests[i].tool_call is Err ==> #[trigger] at.contains(i),
{
    law_trailing_run_is_the_longest(attempts);
    let longest = trailing_malformed(attempts);
    if longest < run {
        assert(attempts[attempts.len() - longest - 1] is None);
    } else if longest > run {
        assert(attempts[attempts.len() - run - 1] is None);
    }
    law_malformed_loop_needs_both(requests, attempts);
    law_malformed_rule_denies_the_malformed(requests, run)
}

/// Without a malformed loop the rule for repeated calls is all there is. This
/// holds after every run of malformed attempts if no request is malformed, and
/// for all requests if one of the last three attempts was well-formed.
pub proof fn law_inspection_without_a_malformed_loop(
    limit: u32,
    requests: Seq<ToolRequest>,
    attempts: Seq<Option<Signature>>,
)
    requires
        ({
            ||| forall|i: int| 0 <= i < requests.len() ==> (#[trigger] requests[i]).tool_call is Ok
            ||| attempts.len() < 3
            ||| attempts[attempts.len() - 1] is Some
            ||| attempts[attempts.len() - 2] is Some
            ||| attempts[attempts.len() - 3] is Some
        }),
    ensures
        expected_findings(Some(limit), requests, attempts) == repetition_findings(
            requests,
            limit,
            parsed_calls(attempts),
        ),
{
    law_malformed_loop_needs_both(requests, attempts);
}

/// Without a malformed loop exactly those requests are denied, in order and
/// under `REP-001`, that are well-formed and whose calls, the pending one
/// included, occur more often than the limit says among the last well-formed
/// calls of the conversation, twice as many as the limit.
pub proof fn law_inspection_of_repetitions(
    limit: u32,
    requests: Seq<ToolRequest>,
    attempts: Seq<Option<Signature>>,
) -> (at: Seq<int>)
    requires
        parsed_calls(attempts).len() <= usize::MAX,
        ({
            ||| forall|i: int| 0 <= i < requests.len() ==> (#[trigger] requests[i]).tool_call is Ok
            ||| attempts.len() < 3
            ||| attempts[attempts.len() - 1] is Some
            ||| attempts[attempts.len() - 2] is Some
            ||| attempts[attempts.len() - 3] is Some
        }),
    ensures
        expected_findings(Some(limit), requests, attempts).len() == at.len(),
        forall|k: int| #![trigger at[k]]
            0 <= k < at.len() ==> {
                let found = expected_findings(Some(limit), requests, attempts)[k];
                &&& 0 <= at[k] < requests.len()
                &&& found.tool_request_id == requests[at[k]].id@
                &&& found.action == InspectionAction::Deny
                &&& found.confidence_percent == 100
                &&& found.inspector_name == "repetition"@
                &&& found.finding_id == Some("REP-001"@)
            },
        forall|j: int, k: int| 0 <= j < k < at.len() ==> #[trigger] at[j] < #[trigger] at[k],
        forall|i: int| #![trigger at.contains(i)]
            at.contains(i) <==> 0 <= i < requests.len() && (requests[i].tool_call matches Ok(call)
                && Set::new(
                |k: int|
                    0 <= k < parsed_calls(attempts).len() && parsed_calls(attempts).len() - 2
                        * limit <= k && parsed_calls(attempts)[k] == call@,
            ).len() as u32 + 1 > limit),
{
    law_inspection_without_a_malformed_loop(limit, requests, attempts);
    law_repetition_rule_denies_the_frequent(requests, limit, parsed_calls(attempts))
}

// Which inspections can be counted.

/// A request is uncountable only if it is well-formed and its call fills the
/// 32-bit counter, so that the pending call does not fit any more.
pub proof fn law_countable_request(request: ToolRequest, limit: u32, history: Seq<Signature>)
    requires
        history.len() <= usize::MAX,
    ensures
        pending_countable(request, limit, history) <==> (request.tool_call matches Ok(call)
            ==> Set::new(
            |k: int|
                0 <= k < history.len() && history.len() - 2 * limit <= k && history[k] == call@,
        ).len() as u32 != u32::MAX),
{
    if let Ok(call) = request.tool_call {
        let signature = call@;
        law_count_held_against_the_limit(limit, history, signature);
        assert(Set::new(
            |k: int|
                0 <= k < history.len() && history.len() - 2 * limit <= k && history[k] == call@,
        ) =~= Set::new(
            |k: int|
                0 <= k < history.len() && history.len() - 2 * limit <= k && history[k] == signature,
        ));
    }
}

/// An inspection is countable exactly when it is disabled, or the run of
/// malformed attempts fits in 32 bits and either a malformed loop settles it or
/// every request is countable.
pub proof fn law_countable_inspection(
    limit: Option<u32>,
    requests: Seq<ToolRequest>,
    attempts: Seq<Option<Signature>>,
)
    ensures
        countable(limit, requests, attempts) <==> (limit matches Some(limit) ==> {
            &&& attempts.len() <= u32::MAX || exists|k: int|
                attempts.len() - u32::MAX - 1 <= k < attempts.len() && (
                #[trigger] attempts[k]) is Some
            &&& malformed_loop(requests, attempts) || forall|i: int|
                0 <= i < requests.len() ==> pending_countable(
                    #[trigger] requests[i],
                    limit,
                    parsed_calls(attempts),
                )
        }),
{
    law_trailing_run_is_the_longest(attempts);
    let run = trailing_malformed(attempts);
    if run <= u32::MAX && attempts.len() > u32::MAX {
        assert(attempts[attempts.len() - run - 1] is Some);
    }
}

} // verus!
