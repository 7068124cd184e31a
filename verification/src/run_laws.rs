//! What holds of the calls that an inspector is shown one by one.

use vstd::prelude::*;

use crate::inspector::Memory;
use crate::message::{Signature, ToolCall};

verus! {

/// The memory after a list of calls.
pub open spec fn replay(memory: Memory, calls: Seq<Signature>) -> Memory
    decreases calls.len(),
{
    if calls.len() == 0 {
        memory
    } else {
        replay(memory, calls.drop_last()).after(calls.last())
    }
}

/// How many identical calls a list ends with.
pub open spec fn trailing_run(calls: Seq<Signature>) -> nat
    decreases calls.len(),
{
    if calls.len() == 0 {
        0
    } else if calls.len() > 1 && calls[calls.len() - 2] == calls.last() {
        trailing_run(calls.drop_last()) + 1
    } else {
        1
    }
}

/// How many calls of a list are calls of the tool of this name.
pub open spec fn calls_of(calls: Seq<Signature>, name: Seq<char>) -> nat {
    calls.filter(|call: Signature| call.name == name).len()
}

/// A list of `count` times the same call.
pub open spec fn repeated(call: Signature, count: nat) -> Seq<Signature> {
    Seq::new(count, |i: int| call)
}

/// A list of two calls in turn, `count` times each.
pub open spec fn alternating(first: Signature, second: Signature, count: nat) -> Seq<Signature> {
    Seq::new(2 * count, |i: int| if i % 2 == 0 { first } else { second })
}

/// After any list of calls the memory is well-formed and holds of them: the
/// limit, unchanged; the last call; how many identical calls the list ends
/// with, which without a limit is taken to be one; and how often each tool was called.
pub proof fn law_memory_of_calls(limit: Option<u32>, calls: Seq<Signature>)
    ensures
        replay(Memory::fresh(limit), calls).wf(),
        replay(Memory::fresh(limit), calls).limit == limit,
        replay(Memory::fresh(limit), calls).last == (if calls.len() == 0 {
            None
        } else {
            Some(calls.last())
        }),
        replay(Memory::fresh(limit), calls).repeats == (if limit is Some {
            trailing_run(calls)
        } else if calls.len() == 0 {
            0
        } else {
            1
        }),
        forall|name: Seq<char>| #[trigger]
            replay(Memory::fresh(limit), calls).total(name) == calls_of(calls, name),
    decreases calls.len(),
{
    reveal(Seq::filter);
    if calls.len() > 0 {
        law_memory_of_calls(limit, calls.drop_last());
        let before = replay(Memory::fresh(limit), calls.drop_last());
        let memory = before.after(calls.last());
        if calls.len() > 1 {
            assert(calls.drop_last().last() == calls[calls.len() - 2]);
        }
        assert forall|name: Seq<char>| #[trigger] memory.total(name) == calls_of(calls, name) by {
            assert(before.total(name) == calls_of(calls.drop_last(), name));
        }
    }
}

/// Under a limit, a call is denied exactly when it repeats the call before it
/// and the run of identical calls that it ends is longer than the limit.
pub proof fn law_runs_are_limited(limit: u32, calls: Seq<Signature>, call: Signature)
    ensures
        replay(Memory::fresh(Some(limit)), calls).allows(call) <==> trailing_run(calls.push(call))
            <= 1 || trailing_run(calls.push(call)) <= limit,
{
    law_memory_of_calls(Some(limit), calls);
    assert(calls.push(call).drop_last() =~= calls);
    if calls.len() > 0 {
        assert(calls.push(call)[calls.push(call).len() - 2] == calls.last());
        assert(trailing_run(calls) >= 1);
    }
}

/// Of identical calls in a row, the first ones are let pass, as many as the
/// limit says but at least one, and all the others are denied.
pub proof fn law_identical_calls(limit: u32, call: Signature, count: nat)
    ensures
        replay(Memory::fresh(Some(limit)), repeated(call, count)).allows(call) <==> count == 0
            || count + 1 <= limit,
{
    lemma_run_of_repeated(call, count + 1);
    law_runs_are_limited(limit, repeated(call, count), call);
    assert(repeated(call, count).push(call) =~= repeated(call, count + 1));
}

proof fn lemma_run_of_repeated(call: Signature, count: nat)
    ensures
        trailing_run(repeated(call, count)) == count,
    decreases count,
{
    if count > 0 {
        lemma_run_of_repeated(call, (count - 1) as nat);
        assert(repeated(call, count).drop_last() =~= repeated(call, (count - 1) as nat));
    }
}

/// A call that differs from the one before it is let pass and starts a new run.
pub proof fn law_different_call_starts_over(memory: Memory, call: Signature)
    requires
        memory.last != Some(call),
    ensures
        memory.allows(call),
        memory.after(call).repeats == 1,
{
}

/// A call that was denied is denied again as long as it is repeated.
pub proof fn law_denial_persists(memory: Memory, call: Signature)
    requires
        !memory.allows(call),
    ensures
        !memory.after(call).allows(call),
{
}

/// Without a limit every call is let pass.
pub proof fn law_unlimited_allows_every_call(calls: Seq<Signature>, call: Signature)
    ensures
        replay(Memory::fresh(None), calls).allows(call),
{
    law_memory_of_calls(None, calls);
}

/// Two different calls in turn are let pass for ever, whatever the limit:
/// no two calls in a row are identical.
pub proof fn law_alternating_calls_pass(
    limit: Option<u32>,
    first: Signature,
    second: Signature,
    count: nat,
    i: int,
)
    requires
        first != second,
        0 <= i < 2 * count,
    ensures
        replay(Memory::fresh(limit), alternating(first, second, count).take(i)).allows(
            alternating(first, second, count)[i],
        ),
{
    let calls = alternating(first, second, count);
    law_memory_of_calls(limit, calls.take(i));
    if i > 0 {
        assert(calls.take(i).last() == calls[i - 1]);
    }
}

/// A call without arguments is never identical to a call with arguments, be
/// they an empty object.
pub proof fn law_no_arguments_differ_from_any(without: ToolCall, with: ToolCall)
    requires
        without.arguments is None,
        with.arguments is Some,
    ensures
        without@ != with@,
{
}

proof fn lemma_trailing_run_reaches(calls: Seq<Signature>, length: nat)
    requires
        1 <= length,
        calls.len() > 0,
    ensures
        trailing_run(calls) >= length <==> calls.len() >= length && forall|k: int|
            calls.len() - length <= k < calls.len() ==> #[trigger] calls[k] == calls.last(),
    decreases calls.len(),
{
    let shorter = calls.drop_last();
    if length > 1 && calls.len() > 1 && calls[calls.len() - 2] == calls.last() {
        lemma_trailing_run_reaches(shorter, (length - 1) as nat);
        assert(shorter.last() == calls.last());
        if trailing_run(calls) >= length {
            assert forall|k: int| calls.len() - length <= k < calls.len() implies
                #[trigger] calls[k] == calls.last() by {
                if k < calls.len() - 1 {
                    assert(shorter[k] == shorter.last());
                }
            }
        } else if calls.len() >= length && forall|k: int|
            calls.len() - length <= k < calls.len() ==> #[trigger] calls[k] == calls.last() {
            assert forall|k: int| shorter.len() - (length - 1) <= k < shorter.len() implies
                #[trigger] shorter[k] == shorter.last() by {
                assert(calls[k] == calls.last());
            }
        }
    } else if length > 1 && calls.len() > 1 {
        assert(calls[calls.len() - 2] != calls.last());
    }
}

proof fn lemma_trace_is_replay(limit: Option<u32>, calls: Seq<Signature>, memories: Seq<Memory>)
    requires
        memories.len() == calls.len() + 1,
        memories[0] == Memory::fresh(limit),
        forall|i: int|
            0 <= i < calls.len() ==> memories[i + 1] == memories[i].after(#[trigger] calls[i]),
    ensures
        memories.last() == replay(Memory::fresh(limit), calls),
    decreases calls.len(),
{
    if calls.len() > 0 {
        let shorter = calls.drop_last();
        let earlier = memories.drop_last();
        assert forall|i: int| 0 <= i < shorter.len() implies earlier[i + 1] == earlier[i].after(
            #[trigger] shorter[i],
        ) by {
            assert(shorter[i] == calls[i]);
        }
        lemma_trace_is_replay(limit, shorter, earlier);
        assert(calls[calls.len() - 1] == calls.last());
    }
}

/// Under a limit a call is denied exactly when the last calls, as many as the
/// limit says and at least one, were all identical to it. What came before, and
/// which other calls passed or were denied, does not matter.
pub proof fn law_denied_after_identical_calls(
    limit: u32,
    calls: Seq<Signature>,
    memories: Seq<Memory>,
    call: Signature,
)
    requires
        memories.len() == calls.len() + 1,
        memories[0] == Memory::fresh(Some(limit)),
        forall|i: int|
            0 <= i < calls.len() ==> memories[i + 1] == memories[i].after(#[trigger] calls[i]),
    ensures
        !memories.last().allows(call) <==> {
            &&& 1 <= calls.len()
            &&& limit <= calls.len()
            &&& calls[calls.len() - 1] == call
            &&& forall|k: int|
                calls.len() - limit <= k < calls.len() ==> #[trigger] calls[k] == call
        },
{
    lemma_trace_is_replay(Some(limit), calls, memories);
    law_memory_of_calls(Some(limit), calls);
    if calls.len() > 0 {
        if limit >= 1 {
            lemma_trailing_run_reaches(calls, limit as nat);
        } else {
            lemma_trailing_run_reaches(calls, 1);
        }
        assert(calls.last() == calls[calls.len() - 1]);
    }
}

/// Without a limit no call is denied, whatever came before.
pub proof fn law_nothing_denied_without_a_limit(
    calls: Seq<Signature>,
    memories: Seq<Memory>,
    call: Signature,
)
    requires
        memories.len() == calls.len() + 1,
        memories[0] == Memory::fresh(None),
        forall|i: int|
            0 <= i < calls.len() ==> memories[i + 1] == memories[i].after(#[trigger] calls[i]),
    ensures
        memories.last().allows(call),
{
    lemma_trace_is_replay(None, calls, memories);
    law_memory_of_calls(None, calls);
}

/// A tool was called as often as there are calls of that name since the memory
/// was fresh, and the limit is still the one that was set.
pub proof fn law_totals_count_the_calls(
    limit: Option<u32>,
    calls: Seq<Signature>,
    memories: Seq<Memory>,
    name: Seq<char>,
)
    requires
        memories.len() == calls.len() + 1,
        memories[0] == Memory::fresh(limit),
        forall|i: int|
            0 <= i < calls.len() ==> memories[i + 1] == memories[i].after(#[trigger] calls[i]),
    ensures
        memories.last().limit == limit,
        memories.last().total(name) == Set::new(
            |k: int| 0 <= k < calls.len() && calls[k].name == name,
        ).len(),
{
    lemma_trace_is_replay(limit, calls, memories);
    law_memory_of_calls(limit, calls);
    assert(replay(Memory::fresh(limit), calls).total(name) == calls_of(calls, name));
    lemma_calls_of_are_positions(calls, name);
}

proof fn lemma_calls_of_are_positions(calls: Seq<Signature>, name: Seq<char>)
    ensures
        Set::new(|k: int| 0 <= k < calls.len() && calls[k].name == name).finite(),
        calls_of(calls, name) == Set::new(
            |k: int| 0 <= k < calls.len() && calls[k].name == name,
        ).len(),
    decreases calls.len(),
{
    reveal(Seq::filter);
    let positions = Set::new(|k: int| 0 <= k < calls.len() && calls[k].name == name);
    if calls.len() == 0 {
        assert(positions =~= Set::empty());
    } else {
        let shorter = calls.drop_last();
        let earlier = Set::new(|k: int| 0 <= k < shorter.len() && shorter[k].name == name);
        lemma_calls_of_are_positions(shorter, name);
        if calls.last().name == name {
            assert(positions =~= earlier.insert(calls.len() - 1));
        } else {
            assert(positions =~= earlier);
        }
    }
}

} // verus!
