//! What a conversation tells about the tool calls that a model has tried.

use vstd::prelude::*;

use crate::message::{Message, MessageContent, Signature};

verus! {

/// The attempts at tool calls in a message, oldest first. A malformed attempt
/// is `None`.
pub open spec fn content_attempts(content: Seq<MessageContent>) -> Seq<Option<Signature>> {
    content.filter_map(|content: MessageContent| content.attempt())
}

/// The attempts at tool calls in a conversation, oldest first. A malformed
/// attempt is `None`.
pub open spec fn attempts(messages: Seq<Message>) -> Seq<Option<Signature>> {
    messages.flat_map(|message: Message| content_attempts(message.content@))
}

/// The well-formed calls among a list of attempts, in order.
pub open spec fn parsed_calls(attempts: Seq<Option<Signature>>) -> Seq<Signature> {
    attempts.filter_map(|attempt: Option<Signature>| attempt)
}

/// How many malformed attempts a list ends with.
pub open spec fn trailing_malformed(attempts: Seq<Option<Signature>>) -> nat
    decreases attempts.len(),
{
    if attempts.len() > 0 && attempts.last() is None {
        trailing_malformed(attempts.drop_last()) + 1
    } else {
        0
    }
}

/// The last `window` elements of a list, or all of them if it has fewer.
pub open spec fn recent(calls: Seq<Signature>, window: nat) -> Seq<Signature> {
    if calls.len() <= window {
        calls
    } else {
        calls.skip(calls.len() - window)
    }
}

/// How often a call occurs in a list.
pub open spec fn occurrences(calls: Seq<Signature>, target: Signature) -> nat {
    calls.filter(|call: Signature| call == target).len()
}

/// One more piece of content adds its attempt, if it makes one.
pub(crate) proof fn lemma_content_attempts_step(content: Seq<MessageContent>, i: int)
    requires
        0 <= i < content.len(),
    ensures
        content_attempts(content.take(i + 1)) == (match content[i].attempt() {
            Some(attempt) => content_attempts(content.take(i)).push(attempt),
            None => content_attempts(content.take(i)),
        }),
{
    assert(content.take(i + 1).drop_last() =~= content.take(i));
    assert(content.take(i + 1).last() == content[i]);
    match content[i].attempt() {
        Some(attempt) => {
            assert(content_attempts(content.take(i + 1)) =~= content_attempts(content.take(i)).push(
                attempt,
            ));
        },
        None => {},
    }
}

/// One more message adds its attempts.
pub(crate) proof fn lemma_attempts_step(messages: Seq<Message>, i: int)
    requires
        0 <= i < messages.len(),
    ensures
        attempts(messages.take(i + 1)) == attempts(messages.take(i)) + content_attempts(
            messages[i].content@,
        ),
{
    messages.lemma_flat_map_take_append(
        |message: Message| content_attempts(message.content@),
        i,
    );
}

/// One more attempt adds its call, if it is well-formed.
pub proof fn lemma_parsed_calls_push(attempts: Seq<Option<Signature>>, attempt: Option<Signature>)
    ensures
        parsed_calls(attempts.push(attempt)) == (match attempt {
            Some(call) => parsed_calls(attempts).push(call),
            None => parsed_calls(attempts),
        }),
{
    assert(attempts.push(attempt).drop_last() =~= attempts);
    match attempt {
        Some(call) => {
            assert(parsed_calls(attempts.push(attempt)) =~= parsed_calls(attempts).push(call));
        },
        None => {},
    }
}

/// A malformed attempt extends the trailing run, a well-formed one ends it.
pub proof fn lemma_trailing_malformed_push(
    attempts: Seq<Option<Signature>>,
    attempt: Option<Signature>,
)
    ensures
        trailing_malformed(attempts.push(attempt)) == (if attempt is None {
            trailing_malformed(attempts) + 1
        } else {
            0
        }),
{
    assert(attempts.push(attempt).drop_last() =~= attempts);
}

} // verus!
