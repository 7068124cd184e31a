//! Tool calls in the form in which the monitor compares them.

use vstd::prelude::*;

use crate::json::{clone_object, json_value, null_value, object_value, same_value};
use crate::message::{Signature, ToolCall};

verus! {

/// A tool call reduced to what the monitor compares.
#[derive(Debug)]
pub struct InternalToolCall {
    name: String,
    parameters: serde_json::Value,
}

impl View for InternalToolCall {
    type V = Signature;

    closed spec fn view(&self) -> Signature {
        Signature { name: self.name@, parameters: json_value(self.parameters) }
    }
}

/// The signatures of a list of calls, in order.
pub open spec fn signatures(calls: Seq<InternalToolCall>) -> Seq<Signature> {
    calls.map_values(|call: InternalToolCall| call@)
}

impl InternalToolCall {
    /// Whether two calls are identical: the same tool with the same arguments.
    pub fn matches(&self, other: &InternalToolCall) -> (same: bool)
        ensures
            same == (self@ == other@),
    {
        self.name == other.name && same_value(&self.parameters, &other.parameters)
    }

    /// Keeps of a tool call its name and its arguments, a missing object of
    /// arguments as a JSON null.
    pub fn from_tool_call(tool_call: &ToolCall) -> (call: Self)
        ensures
            call@ == tool_call@,
    {
        let name = tool_call.name.clone();
        let parameters = match &tool_call.arguments {
            Some(object) => object_value(clone_object(object)),
            None => null_value(),
        };
        InternalToolCall { name, parameters }
    }

    /// The name of the tool.
    pub(crate) fn name(&self) -> (name: &String)
        ensures
            name@ == self@.name,
    {
        &self.name
    }
}

} // verus!
