//! What holds of conversations: which calls are identical, which attempts a
//! conversation makes, and how they are counted.

use vstd::prelude::*;

use crate::call::{signatures, InternalToolCall};
use crate::history::{
    attempts, content_attempts, lemma_attempts_step, lemma_content_attempts_step,
    lemma_parsed_calls_push, lemma_trailing_malformed_push, occurrences, parsed_calls, recent,
    trailing_malformed,
};
use crate::json::{json_object, Json};
use crate::message::{Message, MessageContent, Signature, ToolCall, ToolRequest};

verus! {

// Calls.

/// The signature of a call holds its whole name and its arguments: the entries
/// of the object, or null if there is none.
pub proof fn law_signature_holds_name_and_arguments(call: ToolCall)
    ensures
        call@.name == call.name@,
        call.arguments is None ==> call@.parameters == Json::Null,
        call.arguments matches Some(object) ==> call@.parameters == Json::Object(
            json_object(object),
        ),
{
}

/// Two calls are identical exactly when they name the same tool and either both
/// have no arguments or both have the same entries as arguments.
pub proof fn law_identical_means_same_tool_and_arguments(left: ToolCall, right: ToolCall)
    ensures
        left@ == right@ <==> left.name@ == right.name@ && (match (left.arguments, right.arguments) {
            (None, None) => true,
            (Some(l), Some(r)) => json_object(l) == json_object(r),
            _ => false,
        }),
{
}

/// The signatures of a list of calls are those of its elements, in order.
pub proof fn law_signatures_of_a_list(calls: Seq<InternalToolCall>)
    ensures
        signatures(calls).len() == calls.len(),
        forall|i: int| 0 <= i < calls.len() ==> #[trigger] signatures(calls)[i] == calls[i]@,
{
}

// Attempts.

/// A request is an attempt at its call exactly when it was parsed, and a
/// malformed attempt exactly when it was not. Nothing else of the request
/// matters.
pub proof fn law_attempt_of_a_request(request: ToolRequest)
    ensures
        request.tool_call matches Ok(call) ==> request.attempt() == Some(call@),
        request.tool_call is Err ==> request.attempt() is None,
        MessageContent::ToolRequest(request).attempt() == Some(request.attempt()),
        MessageContent::Other.attempt() is None,
{
}

/// A conversation without messages makes no attempts, and a message without
/// content adds none.
pub proof fn law_nothing_said_is_no_attempt(messages: Seq<Message>, message: Message)
    requires
        message.content@.len() == 0,
    ensures
        attempts(Seq::empty()).len() == 0,
        attempts(messages.push(message)) == attempts(messages),
{
    lemma_attempts_of_last(messages, message);
    assert(content_attempts(message.content@).len() == 0);
    assert(attempts(messages) + content_attempts(message.content@) =~= attempts(messages));
}

proof fn lemma_attempts_of_last(messages: Seq<Message>, message: Message)
    ensures
        attempts(messages.push(message)) == attempts(messages) + content_attempts(message.content@),
{
    let all = messages.push(message);
    lemma_attempts_step(all, messages.len() as int);
    assert(all.take(messages.len() as int) =~= messages);
    assert(all.take(messages.len() as int + 1) =~= all);
}

proof fn lemma_content_attempts_of_last(
    content: Seq<MessageContent>,
    piece: MessageContent,
)
    ensures
        content_attempts(content.push(piece)) == (match piece.attempt() {
            Some(attempt) => content_attempts(content).push(attempt),
            None => content_attempts(content),
        }),
{
    let all = content.push(piece);
    lemma_content_attempts_step(all, content.len() as int);
    assert(all.take(content.len() as int) =~= content);
    assert(all.take(content.len() as int + 1) =~= all);
}

/// A well-formed request at the end of a conversation becomes its last attempt
/// and its last well-formed call, and leaves no malformed run. Whatever else
/// the request holds, such as its id, changes nothing of this.
pub proof fn law_well_formed_request_comes_last(
    messages: Seq<Message>,
    before: Message,
    after: Message,
    request: ToolRequest,
    call: ToolCall,
)
    requires
        after.content@ == before.content@.push(MessageContent::ToolRequest(request)),
        request.tool_call == Ok::<ToolCall, rmcp::model::ErrorData>(call),
    ensures
        attempts(messages.push(after)) == attempts(messages.push(before)).push(Some(call@)),
        parsed_calls(attempts(messages.push(after))) == parsed_calls(
            attempts(messages.push(before)),
        ).push(call@),
        trailing_malformed(attempts(messages.push(after))) == 0,
{
    lemma_last_piece(messages, before, after, MessageContent::ToolRequest(request));
    lemma_parsed_calls_push(attempts(messages.push(before)), Some(call@));
    lemma_trailing_malformed_push(attempts(messages.push(before)), Some(call@));
}

/// A malformed request at the end of a conversation becomes its last attempt,
/// makes the malformed run longer by one, and adds no well-formed call.
pub proof fn law_malformed_request_comes_last(
    messages: Seq<Message>,
    before: Message,
    after: Message,
    request: ToolRequest,
)
    requires
        after.content@ == before.content@.push(MessageContent::ToolRequest(request)),
        request.tool_call is Err,
    ensures
        attempts(messages.push(after)) == attempts(messages.push(before)).push(None),
        parsed_calls(attempts(messages.push(after))) == parsed_calls(
            attempts(messages.push(before)),
        ),
        trailing_malformed(attempts(messages.push(after))) == trailing_malformed(
            attempts(messages.push(before)),
        ) + 1,
{
    lemma_last_piece(messages, before, after, MessageContent::ToolRequest(request));
    lemma_parsed_calls_push(attempts(messages.push(before)), None);
    lemma_trailing_malformed_push(attempts(messages.push(before)), None);
}

/// Other content at the end of a conversation changes no attempt.
pub proof fn law_other_content_comes_last(
    messages: Seq<Message>,
    before: Message,
    after: Message,
)
    requires
        after.content@ == before.content@.push(MessageContent::Other),
    ensures
        attempts(messages.push(after)) == attempts(messages.push(before)),
{
    lemma_last_piece(messages, before, after, MessageContent::Other);
}

proof fn lemma_last_piece(
    messages: Seq<Message>,
    before: Message,
    after: Message,
    piece: MessageContent,
)
    requires
        after.content@ == before.content@.push(piece),
    ensures
        attempts(messages.push(after)) == (match piece.attempt() {
            Some(attempt) => attempts(messages.push(before)).push(attempt),
            None => attempts(messages.push(before)),
        }),
{
    lemma_attempts_of_last(messages, before);
    lemma_attempts_of_last(messages, after);
    lemma_content_attempts_of_last(before.content@, piece);
    if let Some(attempt) = piece.attempt() {
        assert(attempts(messages) + content_attempts(before.content@).push(attempt) =~= (attempts(
            messages,
        ) + content_attempts(before.content@)).push(attempt));
    }
}

// Runs, calls and counts.

/// The trailing run is the longest end of the list in which every attempt is
/// malformed.
pub proof fn law_trailing_run_is_the_longest(attempts: Seq<Option<Signature>>)
    ensures
        trailing_malformed(attempts) <= attempts.len(),
        forall|k: int|
            attempts.len() - trailing_malformed(attempts) <= k < attempts.len() ==> (
            #[trigger] attempts[k]) is None,
        trailing_malformed(attempts) < attempts.len() ==> attempts[attempts.len()
            - trailing_malformed(attempts) - 1] is Some,
    decreases attempts.len(),
{
    if attempts.len() > 0 && attempts.last() is None {
        let shorter = attempts.drop_last();
        law_trailing_run_is_the_longest(shorter);
        assert forall|k: int|
            attempts.len() - trailing_malformed(attempts) <= k < attempts.len() implies (
        #[trigger] attempts[k]) is None by {
            if k < attempts.len() - 1 {
                assert(shorter[k] is None);
            }
        }
    }
}

/// What `filter_map` keeps of a list, with the positions that it is kept from.
pub(crate) proof fn lemma_filter_map_positions<A, B>(
    list: Seq<A>,
    f: spec_fn(A) -> Option<B>,
) -> (at: Seq<int>)
    ensures
        at.len() == list.filter_map(f).len(),
        forall|k: int|
            0 <= k < at.len() ==> 0 <= #[trigger] at[k] < list.len() && f(list[at[k]]) == Some(
                list.filter_map(f)[k],
            ),
        forall|j: int, k: int| 0 <= j < k < at.len() ==> #[trigger] at[j] < #[trigger] at[k],
        forall|i: int|
            0 <= i < list.len() && f(list[i]) is Some ==> #[trigger] at.contains(i),
    decreases list.len(),
{
    if list.len() == 0 {
        Seq::empty()
    } else {
        let shorter = list.drop_last();
        let earlier = lemma_filter_map_positions(shorter, f);
        let at = if f(list.last()) is Some {
            earlier.push(list.len() - 1)
        } else {
            earlier
        };
        assert forall|k: int| 0 <= k < at.len() implies 0 <= #[trigger] at[k] < list.len() && f(
            list[at[k]],
        ) == Some(list.filter_map(f)[k]) by {
            if k < earlier.len() {
                assert(earlier[k] == at[k]);
                assert(shorter[at[k]] == list[at[k]]);
            }
        }
        assert forall|j: int, k: int| 0 <= j < k < at.len() implies #[trigger] at[j]
            < #[trigger] at[k] by {
            if k < earlier.len() {
                assert(earlier[j] < earlier[k]);
            } else {
                assert(0 <= earlier[j] < shorter.len());
            }
        }
        assert forall|i: int|
            0 <= i < list.len() && f(list[i]) is Some implies #[trigger] at.contains(i) by {
            if i < list.len() - 1 {
                assert(shorter[i] == list[i]);
                assert(earlier.contains(i));
                let k = choose|k: int| 0 <= k < earlier.len() && earlier[k] == i;
                assert(at[k] == i);
            } else {
                assert(at[at.len() - 1] == i);
            }
        }
        at
    }
}

/// The well-formed calls are those of the well-formed attempts, all of them and
/// in their order: they stand in the list at increasing positions.
pub proof fn law_parsed_calls_are_the_well_formed_attempts(
    attempts: Seq<Option<Signature>>,
) -> (at: Seq<int>)
    ensures
        parsed_calls(attempts).len() == at.len(),
        forall|k: int|
            0 <= k < at.len() ==> 0 <= #[trigger] at[k] < attempts.len() && attempts[at[k]] == Some(
                parsed_calls(attempts)[k],
            ),
        forall|j: int, k: int| 0 <= j < k < at.len() ==> #[trigger] at[j] < #[trigger] at[k],
        forall|i: int|
            0 <= i < attempts.len() && attempts[i] is Some ==> #[trigger] at.contains(i),
{
    lemma_filter_map_positions(attempts, |attempt: Option<Signature>| attempt)
}

/// The recent calls are the last of the list, as many as the window holds.
pub proof fn law_recent_calls_are_the_last(calls: Seq<Signature>, window: nat)
    ensures
        recent(calls, window).len() == (if calls.len() < window {
            calls.len()
        } else {
            window
        }),
        forall|i: int|
            0 <= i < recent(calls, window).len() ==> #[trigger] recent(calls, window)[i]
                == calls[calls.len() - recent(calls, window).len() + i],
{
}

/// A call occurs in a list as often as there are positions at which it stands.
pub proof fn law_occurrences_are_positions(calls: Seq<Signature>, target: Signature)
    ensures
        Set::new(|k: int| 0 <= k < calls.len() && calls[k] == target).finite(),
        occurrences(calls, target) == Set::new(
            |k: int| 0 <= k < calls.len() && calls[k] == target,
        ).len(),
    decreases calls.len(),
{
    reveal(Seq::filter);
    let positions = Set::new(|k: int| 0 <= k < calls.len() && calls[k] == target);
    if calls.len() == 0 {
        assert(positions =~= Set::empty());
    } else {
        let shorter = calls.drop_last();
        let earlier = Set::new(|k: int| 0 <= k < shorter.len() && shorter[k] == target);
        law_occurrences_are_positions(shorter, target);
        if calls.last() == target {
            assert(positions =~= earlier.insert(calls.len() - 1));
        } else {
            assert(positions =~= earlier);
        }
    }
}

/// Counting a call among the recent ones counts the positions within the window
/// at the end of the list at which it stands, in whatever order the calls come.
pub proof fn law_recent_occurrences_are_positions_in_the_window(
    calls: Seq<Signature>,
    window: nat,
    target: Signature,
)
    ensures
        Set::new(
            |k: int| 0 <= k < calls.len() && calls.len() - window <= k && calls[k] == target,
        ).finite(),
        occurrences(recent(calls, window), target) == Set::new(
            |k: int| 0 <= k < calls.len() && calls.len() - window <= k && calls[k] == target,
        ).len(),
    decreases calls.len(),
{
    reveal(Seq::filter);
    let near = recent(calls, window);
    let positions = Set::new(
        |k: int| 0 <= k < calls.len() && calls.len() - window <= k && calls[k] == target,
    );
    if calls.len() == 0 || window == 0 {
        assert(positions =~= Set::empty());
        assert(near.len() == 0);
    } else {
        let shorter = calls.drop_last();
        let less = (window - 1) as nat;
        let earlier = Set::new(
            |k: int| 0 <= k < shorter.len() && shorter.len() - less <= k && shorter[k] == target,
        );
        law_recent_occurrences_are_positions_in_the_window(shorter, less, target);
        assert(near.drop_last() =~= recent(shorter, less));
        assert(near.last() == calls.last());
        if calls.last() == target {
            assert(positions =~= earlier.insert(calls.len() - 1));
        } else {
            assert(positions =~= earlier);
        }
    }
}

} // verus!
