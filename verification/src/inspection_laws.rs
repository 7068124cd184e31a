//! What holds of the inspection of pending requests.

use vstd::prelude::*;

use crate::history::{
    attempts, content_attempts, lemma_trailing_malformed_push, occurrences, parsed_calls, recent,
    trailing_malformed,
};
use crate::inspection::{
    countable, expected_findings, malformed_finding, malformed_findings, malformed_loop,
    malformed_verdict, pending_countable, recent_count, repetition_finding, repetition_findings,
    repetition_verdict, window, Finding, InspectionAction, MAX_CONSECUTIVE_MALFORMED_TOOL_CALLS,
};
use crate::inspector::Memory;
use crate::message::{Message, MessageContent, Signature, ToolRequest};
use crate::run_laws::{alternating, law_memory_of_calls, replay, trailing_run};

verus! {

/// Without a limit nothing is found, whatever the conversation, and no counter
/// is needed.
pub proof fn law_disabled_finds_nothing(
    requests: Seq<ToolRequest>,
    attempts: Seq<Option<Signature>>,
)
    ensures
        expected_findings(None, requests, attempts).len() == 0,
        countable(None, requests, attempts),
{
}

/// The 32-bit counters are wide enough for every conversation with fewer than
/// `u32::MAX` attempts at tool calls.
pub proof fn law_countable(
    limit: Option<u32>,
    requests: Seq<ToolRequest>,
    attempts: Seq<Option<Signature>>,
)
    requires
        attempts.len() < u32::MAX,
    ensures
        countable(limit, requests, attempts),
{
    lemma_trailing_malformed_bounded(attempts);
    lemma_parsed_calls_bounded(attempts);
    if let Some(limit) = limit {
        assert forall|i: int| 0 <= i < requests.len() implies pending_countable(
            #[trigger] requests[i],
            limit,
            parsed_calls(attempts),
        ) by {
            if let Some(call) = requests[i].attempt() {
                law_counts_are_bounded(limit, parsed_calls(attempts), call);
            }
        }
    }
}

proof fn lemma_trailing_malformed_bounded(attempts: Seq<Option<Signature>>)
    ensures
        trailing_malformed(attempts) <= attempts.len(),
    decreases attempts.len(),
{
    if attempts.len() > 0 {
        lemma_trailing_malformed_bounded(attempts.drop_last());
    }
}

proof fn lemma_parsed_calls_bounded(attempts: Seq<Option<Signature>>)
    ensures
        parsed_calls(attempts).len() <= attempts.len(),
    decreases attempts.len(),
{
    if attempts.len() > 0 {
        lemma_parsed_calls_bounded(attempts.drop_last());
    }
}

/// A call cannot occur more often within the window than the window is long,
/// nor more often than there are calls.
pub proof fn law_counts_are_bounded(limit: u32, history: Seq<Signature>, call: Signature)
    ensures
        recent_count(limit, history, call) <= window(limit) <= 2 * limit,
        recent_count(limit, history, call) <= history.len(),
{
    recent(history, window(limit)).lemma_filter_len(|other: Signature| other == call);
}

proof fn lemma_filter_map_add<A, B>(
    earlier: Seq<A>,
    later: Seq<A>,
    f: spec_fn(A) -> Option<B>,
)
    ensures
        (earlier + later).filter_map(f) == earlier.filter_map(f) + later.filter_map(f),
    decreases later.len(),
{
    if later.len() == 0 {
        assert(earlier + later =~= earlier);
        assert(earlier.filter_map(f) + later.filter_map(f) =~= earlier.filter_map(f));
    } else {
        lemma_filter_map_add(earlier, later.drop_last(), f);
        assert((earlier + later).drop_last() =~= earlier + later.drop_last());
        assert((earlier + later).filter_map(f) =~= earlier.filter_map(f) + later.filter_map(f));
    }
}

proof fn lemma_filter_map_keeps<A, B>(list: Seq<A>, f: spec_fn(A) -> Option<B>, i: int, kept: B)
    requires
        0 <= i < list.len(),
        f(list[i]) == Some(kept),
    ensures
        list.filter_map(f).contains(kept),
{
    let earlier = list.take(i + 1);
    let later = list.skip(i + 1);
    assert(list =~= earlier + later);
    lemma_filter_map_add(earlier, later, f);
    let found = earlier.filter_map(f);
    assert(earlier.last() == list[i]);
    assert(found.last() == kept);
    assert(list.filter_map(f)[found.len() - 1] == kept);
}

proof fn lemma_filter_map_none<A, B>(list: Seq<A>, f: spec_fn(A) -> Option<B>)
    requires
        forall|i: int| 0 <= i < list.len() ==> f(#[trigger] list[i]) is None,
    ensures
        list.filter_map(f).len() == 0,
    decreases list.len(),
{
    if list.len() > 0 {
        assert forall|i: int| 0 <= i < list.drop_last().len() implies f(
            #[trigger] list.drop_last()[i],
        ) is None by {
            assert(list.drop_last()[i] == list[i]);
        }
        lemma_filter_map_none(list.drop_last(), f);
        assert(f(list[list.len() - 1]) is None);
    }
}

proof fn lemma_filter_map_bounded<A, B>(list: Seq<A>, f: spec_fn(A) -> Option<B>)
    ensures
        list.filter_map(f).len() <= list.len(),
    decreases list.len(),
{
    if list.len() > 0 {
        lemma_filter_map_bounded(list.drop_last(), f);
    }
}

/// Each request is judged on its own: the findings on two lists of requests
/// that are inspected together are the findings on the first, followed by the
/// findings on the second.
pub proof fn law_requests_are_judged_one_by_one(
    earlier: Seq<ToolRequest>,
    later: Seq<ToolRequest>,
    limit: u32,
    history: Seq<Signature>,
    run: nat,
)
    ensures
        repetition_findings(earlier + later, limit, history) == repetition_findings(
            earlier,
            limit,
            history,
        ) + repetition_findings(later, limit, history),
        malformed_findings(earlier + later, run) == malformed_findings(earlier, run)
            + malformed_findings(later, run),
{
    lemma_filter_map_add(
        earlier,
        later,
        |request: ToolRequest| repetition_verdict(request, limit, history),
    );
    lemma_filter_map_add(
        earlier,
        later,
        |request: ToolRequest| malformed_verdict(request, run),
    );
}

/// Every finding is a certain denial, by the repetition inspector and under one
/// of its two rules, of one of the requests. There are no more findings than
/// requests.
pub proof fn law_findings_are_denials(
    limit: Option<u32>,
    requests: Seq<ToolRequest>,
    attempts: Seq<Option<Signature>>,
)
    ensures
        expected_findings(limit, requests, attempts).len() <= requests.len(),
        forall|finding: Finding| #[trigger]
            expected_findings(limit, requests, attempts).contains(finding) ==> {
                &&& finding.action == InspectionAction::Deny
                &&& finding.confidence_percent == 100
                &&& finding.inspector_name == "repetition"@
                &&& finding.finding_id == Some("REP-001"@) || finding.finding_id == Some(
                    "REP-002"@,
                )
                &&& exists|i: int|
                    0 <= i < requests.len() && (#[trigger] requests[i]).id@
                        == finding.tool_request_id
            },
{
    if let Some(limit) = limit {
        let run = trailing_malformed(attempts);
        let history = parsed_calls(attempts);
        let malformed = |request: ToolRequest| malformed_verdict(request, run);
        let repeated = |request: ToolRequest| repetition_verdict(request, limit, history);
        let found = expected_findings(Some(limit), requests, attempts);
        lemma_filter_map_bounded(requests, malformed);
        lemma_filter_map_bounded(requests, repeated);
        assert forall|finding: Finding| #[trigger] found.contains(finding) implies ({
            &&& finding.action == InspectionAction::Deny
            &&& finding.confidence_percent == 100
            &&& finding.inspector_name == "repetition"@
            &&& finding.finding_id == Some("REP-001"@) || finding.finding_id == Some("REP-002"@)
            &&& exists|i: int|
                0 <= i < requests.len() && (#[trigger] requests[i]).id@ == finding.tool_request_id
        }) by {
            if malformed_loop(requests, attempts) {
                requests.lemma_filter_map_contains(malformed, finding);
                let request = choose|request: ToolRequest| #[trigger]
                    requests.contains(request) && malformed(request) == Some(finding);
                let i = choose|i: int| 0 <= i < requests.len() && requests[i] == request;
                assert(requests[i].id@ == finding.tool_request_id);
            } else {
                requests.lemma_filter_map_contains(repeated, finding);
                let request = choose|request: ToolRequest| #[trigger]
                    requests.contains(request) && repeated(request) == Some(finding);
                let i = choose|i: int| 0 <= i < requests.len() && requests[i] == request;
                assert(requests[i].id@ == finding.tool_request_id);
            }
        }
    }
}

// The malformed-call rule.

/// After a sustained run of malformed calls every malformed request is denied,
/// and no other request is.
pub proof fn law_malformed_loop_is_denied(
    limit: u32,
    requests: Seq<ToolRequest>,
    attempts: Seq<Option<Signature>>,
    i: int,
)
    requires
        trailing_malformed(attempts) >= MAX_CONSECUTIVE_MALFORMED_TOOL_CALLS,
        0 <= i < requests.len(),
        requests[i].tool_call is Err,
    ensures
        expected_findings(Some(limit), requests, attempts).contains(
            malformed_finding(requests[i].id@, trailing_malformed(attempts)),
        ),
        forall|finding: Finding| #[trigger]
            expected_findings(Some(limit), requests, attempts).contains(finding) ==> exists|j: int|
                0 <= j < requests.len() && (#[trigger] requests[j]).tool_call is Err && finding
                    == malformed_finding(requests[j].id@, trailing_malformed(attempts)),
{
    let run = trailing_malformed(attempts);
    let f = |request: ToolRequest| malformed_verdict(request, run);
    lemma_filter_map_keeps(requests, f, i, malformed_finding(requests[i].id@, run));
    let found = expected_findings(Some(limit), requests, attempts);
    assert forall|finding: Finding| #[trigger] found.contains(finding) implies exists|j: int|
        0 <= j < requests.len() && (#[trigger] requests[j]).tool_call is Err && finding
            == malformed_finding(requests[j].id@, run) by {
        requests.lemma_filter_map_contains(f, finding);
        let request = choose|request: ToolRequest| #[trigger]
            requests.contains(request) && f(request) == Some(finding);
        let j = choose|j: int| 0 <= j < requests.len() && requests[j] == request;
        assert(requests[j].tool_call is Err);
    }
}

/// After a shorter run no malformed request is denied: every finding is on a
/// well-formed request, under the repetition rule.
pub proof fn law_short_malformed_run_is_tolerated(
    limit: u32,
    requests: Seq<ToolRequest>,
    attempts: Seq<Option<Signature>>,
)
    requires
        trailing_malformed(attempts) < MAX_CONSECUTIVE_MALFORMED_TOOL_CALLS,
    ensures
        forall|finding: Finding| #[trigger]
            expected_findings(Some(limit), requests, attempts).contains(finding) ==> {
                &&& finding.finding_id == Some("REP-001"@)
                &&& exists|j: int|
                    0 <= j < requests.len() && (#[trigger] requests[j]).tool_call is Ok
                        && requests[j].id@ == finding.tool_request_id
            },
        (forall|j: int| 0 <= j < requests.len() ==> (#[trigger] requests[j]).tool_call is Err)
            ==> expected_findings(Some(limit), requests, attempts).len() == 0,
{
    let history = parsed_calls(attempts);
    let f = |request: ToolRequest| repetition_verdict(request, limit, history);
    let found = expected_findings(Some(limit), requests, attempts);
    assert forall|finding: Finding| #[trigger] found.contains(finding) implies ({
        &&& finding.finding_id == Some("REP-001"@)
        &&& exists|j: int|
            0 <= j < requests.len() && (#[trigger] requests[j]).tool_call is Ok
                && requests[j].id@ == finding.tool_request_id
    }) by {
        requests.lemma_filter_map_contains(f, finding);
        let request = choose|request: ToolRequest| #[trigger]
            requests.contains(request) && f(request) == Some(finding);
        let j = choose|j: int| 0 <= j < requests.len() && requests[j] == request;
        assert(requests[j].tool_call is Ok);
    }
    if forall|j: int| 0 <= j < requests.len() ==> (#[trigger] requests[j]).tool_call is Err {
        lemma_filter_map_none(requests, f);
    }
}

/// A single well-formed call ends a run of malformed ones, however long: after
/// it no malformed request is denied.
pub proof fn law_recovery_is_honoured(
    limit: u32,
    requests: Seq<ToolRequest>,
    attempts: Seq<Option<Signature>>,
    call: Signature,
)
    requires
        forall|j: int| 0 <= j < requests.len() ==> (#[trigger] requests[j]).tool_call is Err,
    ensures
        trailing_malformed(attempts.push(Some(call))) == 0,
        expected_findings(Some(limit), requests, attempts.push(Some(call))).len() == 0,
{
    lemma_trailing_malformed_push(attempts, Some(call));
    law_short_malformed_run_is_tolerated(limit, requests, attempts.push(Some(call)));
}

// Content other than tool requests.

/// Content other than a tool request changes nothing, wherever it is put into
/// a message.
pub proof fn law_other_content_is_ignored(
    messages: Seq<Message>,
    i: int,
    message: Message,
    k: int,
)
    requires
        0 <= i < messages.len(),
        0 <= k <= messages[i].content@.len(),
        message.content@ == messages[i].content@.insert(k, MessageContent::Other),
    ensures
        attempts(messages.update(i, message)) == attempts(messages),
{
    let content = messages[i].content@;
    let other = seq![MessageContent::Other];
    let f = |content: MessageContent| content.attempt();
    assert(content.insert(k, MessageContent::Other) =~= content.take(k) + other + content.skip(k));
    assert(content =~= content.take(k) + content.skip(k));
    lemma_filter_map_add(content.take(k) + other, content.skip(k), f);
    lemma_filter_map_add(content.take(k), other, f);
    lemma_filter_map_add(content.take(k), content.skip(k), f);
    lemma_filter_map_none(other, f);
    assert(content_attempts(message.content@) =~= content_attempts(content));
    let g = |message: Message| content_attempts(message.content@);
    assert(messages.update(i, message).map_values(g) =~= messages.map_values(g));
}

/// A message without tool requests changes nothing, wherever it is put into
/// the conversation.
pub proof fn law_message_without_requests_is_ignored(
    messages: Seq<Message>,
    message: Message,
    k: int,
)
    requires
        0 <= k <= messages.len(),
        forall|j: int|
            0 <= j < message.content@.len() ==> #[trigger] message.content@[j]
                == MessageContent::Other,
    ensures
        attempts(messages.insert(k, message)) == attempts(messages),
{
    let g = |message: Message| content_attempts(message.content@);
    let mapped = messages.map_values(g);
    let earlier = mapped.take(k);
    let later = mapped.skip(k);
    lemma_filter_map_none(message.content@, |content: MessageContent| content.attempt());
    let added = seq![content_attempts(message.content@)];
    assert(messages.insert(k, message).map_values(g) =~= earlier + added + later);
    assert(mapped =~= earlier + later);
    vstd::seq_lib::lemma_flatten_concat(earlier + added, later);
    vstd::seq_lib::lemma_flatten_concat(earlier, added);
    vstd::seq_lib::lemma_flatten_concat(earlier, later);
    added.lemma_flatten_one_element();
    assert(earlier.flatten() + added.flatten() =~= earlier.flatten());
}

// The repetition rule.

/// The repetition rule denies a request exactly when its call occurs within the
/// window at least as often as the limit says, so that the pending call would
/// exceed it. The occurrences must fit in 32 bits, as they do under every limit
/// up to half of `u32::MAX`.
pub proof fn law_denied_beyond_the_limit(
    request: ToolRequest,
    limit: u32,
    history: Seq<Signature>,
    call: Signature,
)
    requires
        request.attempt() == Some(call),
        recent_count(limit, history, call) <= u32::MAX,
    ensures
        repetition_verdict(request, limit, history) == (if recent_count(limit, history, call)
            >= limit {
            Some(
                repetition_finding(
                    request.id@,
                    call.name,
                    recent_count(limit, history, call) + 1,
                    window(limit),
                ),
            )
        } else {
            None
        }),
{
}

/// Unless a malformed loop settles the inspection, every request is denied
/// whose call occurs within the window as often as the limit says.
pub proof fn law_repetition_is_denied(
    limit: u32,
    requests: Seq<ToolRequest>,
    attempts: Seq<Option<Signature>>,
    i: int,
    call: Signature,
)
    requires
        !malformed_loop(requests, attempts),
        0 <= i < requests.len(),
        requests[i].attempt() == Some(call),
        limit <= recent_count(limit, parsed_calls(attempts), call) <= u32::MAX,
    ensures
        expected_findings(Some(limit), requests, attempts).contains(
            repetition_finding(
                requests[i].id@,
                call.name,
                recent_count(limit, parsed_calls(attempts), call) + 1,
                window(limit),
            ),
        ),
{
    let history = parsed_calls(attempts);
    law_denied_beyond_the_limit(requests[i], limit, history, call);
    lemma_filter_map_keeps(
        requests,
        |request: ToolRequest| repetition_verdict(request, limit, history),
        i,
        repetition_finding(
            requests[i].id@,
            call.name,
            recent_count(limit, history, call) + 1,
            window(limit),
        ),
    );
}

proof fn lemma_occurrences_of_absent(calls: Seq<Signature>, target: Signature)
    requires
        !calls.contains(target),
    ensures
        occurrences(calls, target) == 0,
    decreases calls.len(),
{
    reveal(Seq::filter);
    if calls.len() > 0 {
        assert(calls.last() == calls[calls.len() - 1]);
        assert(!calls.drop_last().contains(target)) by {
            assert forall|i: int| 0 <= i < calls.drop_last().len() implies calls.drop_last()[i]
                != target by {
                assert(calls.drop_last()[i] == calls[i]);
            }
        }
        lemma_occurrences_of_absent(calls.drop_last(), target);
    }
}

/// Calls that do not occur within the window are let pass, under any limit but
/// zero: different arguments for the same tool are no repetition.
pub proof fn law_new_calls_are_allowed(
    limit: u32,
    requests: Seq<ToolRequest>,
    attempts: Seq<Option<Signature>>,
)
    requires
        limit > 0,
        !malformed_loop(requests, attempts),
        forall|i: int, call: Signature|
            0 <= i < requests.len() && (#[trigger] requests[i]).attempt() == Some(call)
                ==> !#[trigger] recent(parsed_calls(attempts), window(limit)).contains(call),
    ensures
        expected_findings(Some(limit), requests, attempts).len() == 0,
{
    let history = parsed_calls(attempts);
    let near = recent(history, window(limit));
    let f = |request: ToolRequest| repetition_verdict(request, limit, history);
    assert forall|i: int| 0 <= i < requests.len() implies f(#[trigger] requests[i]) is None by {
        if let Some(call) = requests[i].attempt() {
            assert(!near.contains(call));
            lemma_occurrences_of_absent(near, call);
        }
    }
    lemma_filter_map_none(requests, f);
}

/// Under a limit of zero every well-formed request is denied, unless a
/// malformed loop settles the inspection.
pub proof fn law_zero_limit_denies_all(
    requests: Seq<ToolRequest>,
    attempts: Seq<Option<Signature>>,
    i: int,
    call: Signature,
)
    requires
        !malformed_loop(requests, attempts),
        0 <= i < requests.len(),
        requests[i].attempt() == Some(call),
    ensures
        expected_findings(Some(0), requests, attempts).contains(
            repetition_finding(requests[i].id@, call.name, 1, 0),
        ),
{
    law_counts_are_bounded(0, parsed_calls(attempts), call);
    law_repetition_is_denied(0, requests, attempts, i, call);
}

/// Only the end of a conversation matters: the run of malformed calls that it
/// ends with, and the well-formed calls within the window.
pub proof fn law_only_recent_calls_matter(
    limit: u32,
    requests: Seq<ToolRequest>,
    left: Seq<Option<Signature>>,
    right: Seq<Option<Signature>>,
)
    requires
        trailing_malformed(left) == trailing_malformed(right),
        recent(parsed_calls(left), window(limit)) == recent(parsed_calls(right), window(limit)),
    ensures
        expected_findings(Some(limit), requests, left) == expected_findings(
            Some(limit),
            requests,
            right,
        ),
        countable(Some(limit), requests, left) == countable(Some(limit), requests, right),
{
    let f = |request: ToolRequest| repetition_verdict(request, limit, parsed_calls(left));
    let g = |request: ToolRequest| repetition_verdict(request, limit, parsed_calls(right));
    assert forall|request: ToolRequest| #[trigger] f(request) == g(request) by {}
    assert(f =~= g);
    assert forall|request: ToolRequest| #[trigger]
        pending_countable(request, limit, parsed_calls(left)) == pending_countable(
            request,
            limit,
            parsed_calls(right),
        ) by {}
}

proof fn lemma_occurrences_push(calls: Seq<Signature>, call: Signature, target: Signature)
    ensures
        occurrences(calls.push(call), target) == occurrences(calls, target) + (if call == target {
            1nat
        } else {
            0
        }),
{
    reveal(Seq::filter);
    assert(calls.push(call).drop_last() =~= calls);
}

proof fn lemma_occurrences_in_uniform(calls: Seq<Signature>, target: Signature)
    requires
        forall|i: int| 0 <= i < calls.len() ==> #[trigger] calls[i] == target,
    ensures
        occurrences(calls, target) == calls.len(),
    decreases calls.len(),
{
    reveal(Seq::filter);
    if calls.len() > 0 {
        lemma_occurrences_in_uniform(calls.drop_last(), target);
        assert(calls.last() == target);
    }
}

proof fn lemma_occurrences_in_suffix(calls: Seq<Signature>, start: int, target: Signature)
    requires
        0 <= start <= calls.len(),
    ensures
        occurrences(calls.skip(start), target) <= occurrences(calls, target),
{
    assert(calls =~= calls.take(start) + calls.skip(start));
    Seq::filter_distributes_over_add(
        calls.take(start),
        calls.skip(start),
        |call: Signature| call == target,
    );
}

proof fn lemma_occurrences_in_alternating(first: Signature, second: Signature, count: nat)
    ensures
        occurrences(alternating(first, second, count), first) >= count,
        occurrences(alternating(first, second, count), second) >= count,
    decreases count,
{
    if count > 0 {
        let shorter = alternating(first, second, (count - 1) as nat);
        lemma_occurrences_in_alternating(first, second, (count - 1) as nat);
        assert(alternating(first, second, count) =~= shorter.push(first).push(second));
        lemma_occurrences_push(shorter, first, first);
        lemma_occurrences_push(shorter, first, second);
        lemma_occurrences_push(shorter.push(first), second, first);
        lemma_occurrences_push(shorter.push(first), second, second);
    }
}

proof fn lemma_trailing_run_is_uniform(calls: Seq<Signature>)
    ensures
        trailing_run(calls) <= calls.len(),
        forall|i: int|
            calls.len() - trailing_run(calls) <= i < calls.len() ==> #[trigger] calls[i]
                == calls.last(),
    decreases calls.len(),
{
    if calls.len() > 1 && calls[calls.len() - 2] == calls.last() {
        let shorter = calls.drop_last();
        lemma_trailing_run_is_uniform(shorter);
        assert forall|i: int| calls.len() - trailing_run(calls) <= i < calls.len() implies
            #[trigger] calls[i] == calls.last() by {
            if i < calls.len() - 1 {
                assert(shorter[i] == shorter.last());
            }
        }
    }
}

/// A run of identical calls as long as the limit is not carried on: the next
/// request for the same call is denied.
pub proof fn law_run_is_denied(
    limit: u32,
    requests: Seq<ToolRequest>,
    attempts: Seq<Option<Signature>>,
    i: int,
    call: Signature,
)
    requires
        !malformed_loop(requests, attempts),
        0 <= i < requests.len(),
        requests[i].attempt() == Some(call),
        limit <= parsed_calls(attempts).len(),
        forall|k: int|
            parsed_calls(attempts).len() - limit <= k < parsed_calls(attempts).len()
                ==> #[trigger] parsed_calls(attempts)[k] == call,
        recent_count(limit, parsed_calls(attempts), call) <= u32::MAX,
    ensures
        expected_findings(Some(limit), requests, attempts).contains(
            repetition_finding(
                requests[i].id@,
                call.name,
                recent_count(limit, parsed_calls(attempts), call) + 1,
                window(limit),
            ),
        ),
{
    let history = parsed_calls(attempts);
    let near = recent(history, window(limit));
    let run = near.skip(near.len() - limit);
    assert(run =~= history.skip(history.len() - limit));
    lemma_occurrences_in_uniform(run, call);
    lemma_occurrences_in_suffix(near, near.len() - limit, call);
    law_repetition_is_denied(limit, requests, attempts, i, call);
}

/// Two calls in turn, each as often as the limit says, are not carried on: the
/// next request for either of them is denied.
pub proof fn law_alternation_is_denied(
    limit: u32,
    requests: Seq<ToolRequest>,
    attempts: Seq<Option<Signature>>,
    i: int,
    first: Signature,
    second: Signature,
    call: Signature,
)
    requires
        !malformed_loop(requests, attempts),
        0 <= i < requests.len(),
        requests[i].attempt() == Some(call),
        call == first || call == second,
        2 * limit <= parsed_calls(attempts).len() <= usize::MAX,
        parsed_calls(attempts).skip(parsed_calls(attempts).len() - 2 * limit) == alternating(
            first,
            second,
            limit as nat,
        ),
        recent_count(limit, parsed_calls(attempts), call) <= u32::MAX,
    ensures
        expected_findings(Some(limit), requests, attempts).contains(
            repetition_finding(
                requests[i].id@,
                call.name,
                recent_count(limit, parsed_calls(attempts), call) + 1,
                window(limit),
            ),
        ),
{
    let history = parsed_calls(attempts);
    assert(recent(history, window(limit)) =~= history.skip(history.len() - 2 * limit));
    lemma_occurrences_in_alternating(first, second, limit as nat);
    law_repetition_is_denied(limit, requests, attempts, i, call);
}

/// The inspection misses no run: a call that `check_tool_call` would deny after
/// the calls of the conversation is denied as a request too.
pub proof fn law_inspection_covers_runs(
    limit: u32,
    requests: Seq<ToolRequest>,
    attempts: Seq<Option<Signature>>,
    i: int,
    call: Signature,
)
    requires
        !malformed_loop(requests, attempts),
        0 <= i < requests.len(),
        requests[i].attempt() == Some(call),
        !replay(Memory::fresh(Some(limit)), parsed_calls(attempts)).allows(call),
        recent_count(limit, parsed_calls(attempts), call) <= u32::MAX,
    ensures
        expected_findings(Some(limit), requests, attempts).contains(
            repetition_finding(
                requests[i].id@,
                call.name,
                recent_count(limit, parsed_calls(attempts), call) + 1,
                window(limit),
            ),
        ),
{
    let history = parsed_calls(attempts);
    law_memory_of_calls(Some(limit), history);
    lemma_trailing_run_is_uniform(history);
    law_run_is_denied(limit, requests, attempts, i, call);
}

} // verus!
