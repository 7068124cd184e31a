//! The repetition inspector.

use vstd::hash_map::StringHashMap;
use vstd::prelude::*;

use crate::call::{signatures, InternalToolCall};
use crate::history::{
    attempts, content_attempts, lemma_attempts_step, lemma_content_attempts_step,
    lemma_parsed_calls_push, lemma_trailing_malformed_push, occurrences, parsed_calls, recent,
    trailing_malformed,
};
use crate::inspection::{
    any_malformed, countable, deny_malformed, deny_repetition, expected_findings, findings,
    lemma_malformed_findings_step, lemma_repetition_findings_step, malformed_findings,
    pending_countable, repetition_findings, InspectionResult,
    MAX_CONSECUTIVE_MALFORMED_TOOL_CALLS,
};
use crate::message::{Message, MessageContent, Signature, ToolCall, ToolRequest};

verus! {

/// What an inspector remembers of the calls it was shown.
#[verifier::ext_equal]
pub struct Memory {
    /// How many identical calls may follow each other; no limit if `None`.
    pub limit: Option<u32>,
    /// The last call.
    pub last: Option<Signature>,
    /// How many identical calls the calls end with. Without a limit the run is
    /// not followed: it is 1 after every call.
    pub repeats: nat,
    /// How often each tool was called.
    pub totals: Map<Seq<char>, nat>,
}

impl Memory {
    /// A memory of no calls.
    pub open spec fn fresh(limit: Option<u32>) -> Memory {
        Memory { limit, last: None, repeats: 0, totals: Map::empty() }
    }

    /// How often the tool of this name was called.
    pub open spec fn total(self, name: Seq<char>) -> nat {
        if self.totals.contains_key(name) {
            self.totals[name]
        } else {
            0
        }
    }

    /// The run that ends in the last call is no longer than the number of calls
    /// of its tool.
    pub open spec fn wf(self) -> bool {
        match self.last {
            None => true,
            Some(call) => 1 <= self.repeats <= self.total(call.name),
        }
    }

    /// The memory after one more call.
    pub open spec fn after(self, call: Signature) -> Memory {
        Memory {
            limit: self.limit,
            last: Some(call),
            repeats: if self.limit is Some && self.last == Some(call) {
                self.repeats + 1
            } else {
                1
            },
            totals: self.totals.insert(call.name, self.total(call.name) + 1),
        }
    }

    /// Whether a call is let pass: it is, unless it repeats the last call and
    /// makes the run longer than the limit.
    pub open spec fn allows(self, call: Signature) -> bool {
        match self.limit {
            Some(limit) => self.last == Some(call) ==> self.repeats + 1 <= limit,
            None => true,
        }
    }
}

/// Watches the tool calls of a model and denies those that repeat themselves.
pub struct RepetitionInspector {
    max_repetitions: Option<u32>,
    last_call: Option<InternalToolCall>,
    repeat_count: u32,
    call_counts: StringHashMap<u32>,
}

impl View for RepetitionInspector {
    type V = Memory;

    closed spec fn view(&self) -> Memory {
        Memory {
            limit: self.max_repetitions,
            last: match self.last_call {
                Some(call) => Some(call@),
                None => None,
            },
            repeats: self.repeat_count as nat,
            totals: self.call_counts@.map_values(|count: u32| count as nat),
        }
    }
}

impl RepetitionInspector {
    #[verifier::type_invariant]
    spec fn inv(&self) -> bool {
        self@.wf()
    }

    /// An inspector that was shown no calls. Without a limit it denies nothing.
    pub fn new(max_repetitions: Option<u32>) -> (inspector: Self)
        ensures
            inspector@ == Memory::fresh(max_repetitions),
    {
        let inspector = RepetitionInspector {
            max_repetitions,
            last_call: None,
            repeat_count: 0,
            call_counts: StringHashMap::new(),
        };
        assert(inspector@.totals =~= Map::<Seq<char>, nat>::empty());
        inspector
    }

    /// Shows the inspector a call and tells whether the call is let pass.
    ///
    /// Calls are counted in 32 bits: `call_count` tells how close a tool is to
    /// that bound, and `reset` starts over.
    pub fn check_tool_call(&mut self, tool_call: ToolCall) -> (allowed: bool)
        requires
            old(self)@.total(tool_call@.name) < u32::MAX,
        ensures
            allowed == old(self)@.allows(tool_call@),
            final(self)@ == old(self)@.after(tool_call@),
    {
        let ghost before = self@;
        proof {
            use_type_invariant(&*self);
        }
        let internal_call = InternalToolCall::from_tool_call(&tool_call);
        let total: u32 = self.call_count(internal_call.name().as_str());

        let mut last_call: Option<InternalToolCall> = None;
        std::mem::swap(&mut last_call, &mut self.last_call);
        let mut call_counts: StringHashMap<u32> = StringHashMap::new();
        std::mem::swap(&mut call_counts, &mut self.call_counts);
        call_counts.insert(internal_call.name().clone(), total + 1);
        self.call_counts = call_counts;
        assert(self@.totals =~= before.after(tool_call@).totals);

        let limit: u32 = match self.max_repetitions {
            Some(limit) => limit,
            None => {
                self.repeat_count = 1;
                self.last_call = Some(internal_call);
                return true;
            },
        };

        let repeated = match &last_call {
            Some(last) => last.matches(&internal_call),
            None => false,
        };
        if repeated {
            self.repeat_count = self.repeat_count + 1;
            if self.repeat_count > limit {
                self.last_call = last_call;
                return false;
            }
        } else {
            self.repeat_count = 1;
        }

        self.last_call = Some(internal_call);
        true
    }

    /// Forgets all calls.
    pub fn reset(&mut self)
        ensures
            final(self)@ == Memory::fresh(old(self)@.limit),
    {
        self.last_call = None;
        self.repeat_count = 0;
        self.call_counts = StringHashMap::new();
        assert(self@.totals =~= Map::<Seq<char>, nat>::empty());
    }

    /// How often the tool of this name was called since the last reset.
    pub fn call_count(&self, name: &str) -> (count: u32)
        ensures
            count == self@.total(name@),
    {
        match self.call_counts.get(name) {
            Some(count) => *count,
            None => 0,
        }
    }

    /// The name under which the inspector reports.
    pub fn name(&self) -> (name: &'static str)
        ensures
            name@ == "repetition"@,
    {
        "repetition"
    }

    /// How many times a call occurs within the last `window` calls of the
    /// history, in 32 bits.
    ///
    /// Counting in a window catches loops that alternate between calls, which
    /// `check_tool_call` lets pass because no two calls in a row are identical.
    pub fn count_in_recent_window(
        &self,
        target: &InternalToolCall,
        history_calls: &[InternalToolCall],
        window: usize,
    ) -> (count: u32)
        ensures
            count == occurrences(
                recent(signatures(history_calls@), window as nat),
                target@,
            ) as u32,
    {
        let start: usize = history_calls.len().saturating_sub(window);
        let ghost calls = signatures(history_calls@);
        let mut count: usize = 0;
        let mut i: usize = start;
        proof {
            reveal(Seq::filter);
            assert(calls.subrange(start as int, start as int).len() == 0);
        }
        while i < history_calls.len()
            invariant
                start <= i <= history_calls.len(),
                calls == signatures(history_calls@),
                count <= i - start,
                count == occurrences(calls.subrange(start as int, i as int), target@),
            decreases history_calls.len() - i,
        {
            proof {
                reveal(Seq::filter);
                let next = calls.subrange(start as int, i + 1);
                assert(next.drop_last() =~= calls.subrange(start as int, i as int));
                assert(next.last() == history_calls[i as int]@);
            }
            if history_calls[i].matches(target) {
                count = count + 1;
            }
            i = i + 1;
        }
        assert(calls.subrange(start as int, i as int) =~= recent(calls, window as nat));
        #[verifier::truncate]
        let counted: u32 = count as u32;
        counted
    }

    /// The well-formed tool calls of a conversation, oldest first.
    pub fn collect_history_tool_calls(messages: &[Message]) -> (calls: Vec<InternalToolCall>)
        ensures
            signatures(calls@) == parsed_calls(attempts(messages@)),
    {
        let mut calls: Vec<InternalToolCall> = Vec::new();
        let mut i: usize = 0;
        assert(signatures(calls@) =~= parsed_calls(attempts(messages@.take(0)))) by {
            assert(attempts(messages@.take(0)).len() == 0);
        }
        while i < messages.len()
            invariant
                i <= messages.len(),
                signatures(calls@) == parsed_calls(attempts(messages@.take(i as int))),
            decreases messages.len() - i,
        {
            let content: &Vec<MessageContent> = &messages[i].content;
            let ghost earlier = attempts(messages@.take(i as int));
            let mut j: usize = 0;
            assert(earlier + content_attempts(content@.take(0)) =~= earlier);
            while j < content.len()
                invariant
                    j <= content.len(),
                    signatures(calls@) == parsed_calls(
                        earlier + content_attempts(content@.take(j as int)),
                    ),
                decreases content.len() - j,
            {
                let ghost seen = earlier + content_attempts(content@.take(j as int));
                let ghost counted = calls@;
                proof {
                    lemma_content_attempts_step(content@, j as int);
                    if let Some(attempt) = content[j as int].attempt() {
                        lemma_parsed_calls_push(seen, attempt);
                        assert(earlier + content_attempts(content@.take(j + 1)) =~= seen.push(
                            attempt,
                        ));
                    }
                }
                match &content[j] {
                    MessageContent::ToolRequest(tool_request) => match &tool_request.tool_call {
                        Ok(tool_call) => {
                            calls.push(InternalToolCall::from_tool_call(tool_call));
                            assert(signatures(calls@) =~= signatures(counted).push(tool_call@));
                        },
                        Err(_) => {},
                    },
                    MessageContent::Other => {},
                }
                j = j + 1;
            }
            proof {
                lemma_attempts_step(messages@, i as int);
                assert(content@.take(j as int) =~= content@);
            }
            i = i + 1;
        }
        assert(messages@.take(i as int) =~= messages@);
        calls
    }

    /// The number of malformed tool calls that a conversation ends with, or
    /// `None` if they are too many to count in 32 bits.
    pub fn checked_count_trailing_malformed_tool_calls(messages: &[Message]) -> (run: Option<u32>)
        ensures
            match run {
                Some(run) => run == trailing_malformed(attempts(messages@)),
                None => trailing_malformed(attempts(messages@)) > u32::MAX,
            },
    {
        let mut trailing_malformed_calls: u32 = 0;
        let mut i: usize = messages.len();
        let ghost all = attempts(messages@);
        assert(messages@.take(i as int) =~= messages@);
        while i > 0
            invariant
                i <= messages.len(),
                trailing_malformed(all) == trailing_malformed_calls + trailing_malformed(
                    attempts(messages@.take(i as int)),
                ),
                all == attempts(messages@),
            decreases i,
        {
            i = i - 1;
            let content: &Vec<MessageContent> = &messages[i].content;
            let ghost earlier = attempts(messages@.take(i as int));
            let mut j: usize = content.len();
            proof {
                lemma_attempts_step(messages@, i as int);
                assert(content@.take(j as int) =~= content@);
            }
            while j > 0
                invariant
                    j <= content.len(),
                    all == attempts(messages@),
                    trailing_malformed(all) == trailing_malformed_calls + trailing_malformed(
                        earlier + content_attempts(content@.take(j as int)),
                    ),
                decreases j,
            {
                j = j - 1;
                proof {
                    let seen = earlier + content_attempts(content@.take(j as int));
                    lemma_content_attempts_step(content@, j as int);
                    if let Some(attempt) = content[j as int].attempt() {
                        lemma_trailing_malformed_push(seen, attempt);
                        assert(earlier + content_attempts(content@.take(j + 1)) =~= seen.push(
                            attempt,
                        ));
                    }
                }
                match &content[j] {
                    MessageContent::ToolRequest(tool_request) => {
                        if tool_request.tool_call.is_err() {
                            if trailing_malformed_calls == u32::MAX {
                                return None;
                            }
                            trailing_malformed_calls = trailing_malformed_calls + 1;
                        } else {
                            // A well-formed call ends the trailing run.
                            return Some(trailing_malformed_calls);
                        }
                    },
                    // Other content neither extends nor breaks the run.
                    MessageContent::Other => {},
                }
            }
            assert(earlier + content_attempts(content@.take(0)) =~= earlier);
        }
        assert(attempts(messages@.take(0)).len() == 0);
        Some(trailing_malformed_calls)
    }

    /// The number of malformed tool calls that a conversation ends with.
    ///
    /// Only the trailing run counts: a parse error from which the model has
    /// recovered is no sign of a loop.
    pub fn count_trailing_malformed_tool_calls(messages: &[Message]) -> (run: u32)
        requires
            trailing_malformed(attempts(messages@)) <= u32::MAX,
        ensures
            run == trailing_malformed(attempts(messages@)),
    {
        Self::checked_count_trailing_malformed_tool_calls(messages).unwrap()
    }

    /// Denies the malformed requests of a list, after a run of `run` malformed
    /// calls.
    pub fn deny_malformed_requests(tool_requests: &[ToolRequest], run: u32) -> (results: Vec<
        InspectionResult,
    >)
        ensures
            findings(results@) == malformed_findings(tool_requests@, run as nat),
            results@.len() > 0 <==> any_malformed(tool_requests@),
    {
        let mut results: Vec<InspectionResult> = Vec::new();
        let mut i: usize = 0;
        assert(findings(results@) =~= malformed_findings(tool_requests@.take(0), run as nat));
        while i < tool_requests.len()
            invariant
                i <= tool_requests.len(),
                findings(results@) == malformed_findings(
                    tool_requests@.take(i as int),
                    run as nat,
                ),
                results@.len() > 0 <==> exists|j: int|
                    0 <= j < i && (#[trigger] tool_requests@[j]).tool_call is Err,
            decreases tool_requests.len() - i,
        {
            let ghost earlier = results@;
            proof {
                lemma_malformed_findings_step(tool_requests@, run as nat, i as int);
            }
            if tool_requests[i].tool_call.is_err() {
                results.push(deny_malformed(&tool_requests[i].id, run));
                assert(findings(results@) =~= findings(earlier).push(results@.last()@));
            }
            i = i + 1;
        }
        assert(tool_requests@.take(i as int) =~= tool_requests@);
        results
    }

    /// Denies the requests of a list that repeat calls of the history too
    /// often, or returns `None` if a count would not fit in 32 bits.
    pub fn checked_deny_repeated(
        &self,
        tool_requests: &[ToolRequest],
        history_calls: &[InternalToolCall],
        max_repetitions: u32,
    ) -> (results: Option<Vec<InspectionResult>>)
        ensures
            results is Some <==> forall|i: int|
                0 <= i < tool_requests@.len() ==> pending_countable(
                    #[trigger] tool_requests@[i],
                    max_repetitions,
                    signatures(history_calls@),
                ),
            results matches Some(results) ==> findings(results@) == repetition_findings(
                tool_requests@,
                max_repetitions,
                signatures(history_calls@),
            ),
    {
        // Twice the limit, so that two calls in turn can reach it.
        let window: usize = (max_repetitions as usize).saturating_add(max_repetitions as usize);
        let ghost history = signatures(history_calls@);
        let mut results: Vec<InspectionResult> = Vec::new();
        let mut i: usize = 0;
        assert(findings(results@) =~= repetition_findings(
            tool_requests@.take(0),
            max_repetitions,
            history,
        ));
        while i < tool_requests.len()
            invariant
                i <= tool_requests.len(),
                window == crate::inspection::window(max_repetitions),
                history == signatures(history_calls@),
                findings(results@) == repetition_findings(
                    tool_requests@.take(i as int),
                    max_repetitions,
                    history,
                ),
                forall|j: int|
                    0 <= j < i ==> pending_countable(
                        #[trigger] tool_requests@[j],
                        max_repetitions,
                        history,
                    ),
            decreases tool_requests.len() - i,
        {
            let ghost earlier = results@;
            proof {
                lemma_repetition_findings_step(
                    tool_requests@,
                    max_repetitions,
                    history,
                    i as int,
                );
            }
            match &tool_requests[i].tool_call {
                Ok(tool_call) => {
                    let candidate = InternalToolCall::from_tool_call(tool_call);
                    let count: u32 = self.count_in_recent_window(
                        &candidate,
                        history_calls,
                        window,
                    );
                    if count == u32::MAX {
                        assert(!pending_countable(
                            tool_requests@[i as int],
                            max_repetitions,
                            history,
                        ));
                        return None;
                    }
                    // The pending call itself counts too.
                    let occurrences: u32 = count + 1;
                    if occurrences > max_repetitions {
                        results.push(
                            deny_repetition(
                                &tool_requests[i].id,
                                tool_call.name.as_str(),
                                occurrences,
                                window,
                            ),
                        );
                        assert(findings(results@) =~= findings(earlier).push(results@.last()@));
                    }
                },
                Err(_) => {},
            }
            i = i + 1;
        }
        assert(tool_requests@.take(i as int) =~= tool_requests@);
        Some(results)
    }

    /// Inspects pending requests as `inspect` does, or returns `None` if a
    /// counter would not fit in 32 bits.
    pub fn checked_inspect(&self, tool_requests: &[ToolRequest], messages: &[Message]) -> (results:
        Option<Vec<InspectionResult>>)
        ensures
            results is Some <==> countable(
                self@.limit,
                tool_requests@,
                attempts(messages@),
            ),
            results matches Some(results) ==> findings(results@) == expected_findings(
                self@.limit,
                tool_requests@,
                attempts(messages@),
            ),
    {
        // Without a limit the inspector is disabled.
        let max_repetitions: u32 = match self.max_repetitions {
            Some(limit) => limit,
            None => {
                let results: Vec<InspectionResult> = Vec::new();
                assert(findings(results@) =~= Seq::empty());
                return Some(results);
            },
        };

        // A loop of malformed calls.
        let trailing_malformed_calls: u32 =
            match Self::checked_count_trailing_malformed_tool_calls(messages) {
            Some(run) => run,
            None => return None,
        };
        if trailing_malformed_calls >= MAX_CONSECUTIVE_MALFORMED_TOOL_CALLS {
            let results = Self::deny_malformed_requests(tool_requests, trailing_malformed_calls);
            if results.len() > 0 {
                return Some(results);
            }
        }

        // A loop of identical calls, in a row or in turn with others.
        let history_calls = Self::collect_history_tool_calls(messages);
        self.checked_deny_repeated(tool_requests, &history_calls, max_repetitions)
    }

    /// Inspects pending requests against the conversation that led to them,
    /// and returns a denial for each request that would carry on a loop.
    ///
    /// Two rules apply. When the conversation ends in a sustained run of
    /// malformed calls, malformed requests are denied and nothing else is
    /// looked at. Otherwise a well-formed request is denied when its call would
    /// occur more often than the limit allows, counted over a window of the
    /// last calls of twice that limit.
    pub fn inspect(&self, tool_requests: &[ToolRequest], messages: &[Message]) -> (results: Vec<
        InspectionResult,
    >)
        requires
            countable(self@.limit, tool_requests@, attempts(messages@)),
        ensures
            findings(results@) == expected_findings(
                self@.limit,
                tool_requests@,
                attempts(messages@),
            ),
    {
        self.checked_inspect(tool_requests, messages).unwrap()
    }
}

} // verus!
