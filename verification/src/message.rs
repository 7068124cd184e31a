//! Conversations, as far as the monitor reads them.

use vstd::prelude::*;

use crate::json::{clone_object, json_object, Json};

verus! {

/// Makes the error of a malformed tool call, `rmcp::model::ErrorData`, known to
/// Verus, as an opaque type: the monitor carries it and never looks inside.
#[verifier::external_type_specification]
#[verifier::external_body]
pub struct ExErrorData(rmcp::model::ErrorData);

/// What makes two tool calls identical: the tool and its arguments.
///
/// A call without arguments has the parameters `Json::Null`, and so differs
/// from a call with an empty object of arguments.
#[verifier::ext_equal]
pub struct Signature {
    pub name: Seq<char>,
    pub parameters: Json,
}

/// A well-formed tool call: the tool to run and the arguments to hand to it.
#[derive(Debug)]
pub struct ToolCall {
    pub name: String,
    pub arguments: Option<serde_json::Map<String, serde_json::Value>>,
}

impl View for ToolCall {
    type V = Signature;

    open spec fn view(&self) -> Signature {
        Signature {
            name: self.name@,
            parameters: match self.arguments {
                Some(object) => Json::Object(json_object(object)),
                None => Json::Null,
            },
        }
    }
}

impl Clone for ToolCall {
    /// The clone calls the same tool with the same arguments.
    fn clone(&self) -> (clone: Self)
        ensures
            clone@ == self@,
    {
        ToolCall {
            name: self.name.clone(),
            arguments: match &self.arguments {
                Some(object) => Some(clone_object(object)),
                None => None,
            },
        }
    }
}

/// A model's request to run a tool. The call is `Err` when the request could
/// not be parsed into one: the request is then malformed.
#[derive(Debug)]
pub struct ToolRequest {
    pub id: String,
    pub tool_call: Result<ToolCall, rmcp::model::ErrorData>,
}

impl ToolRequest {
    /// The signature of the requested call, or `None` for a malformed request.
    pub open spec fn attempt(self) -> Option<Signature> {
        match self.tool_call {
            Ok(tool_call) => Some(tool_call@),
            Err(_) => None,
        }
    }
}

/// One piece of a message.
#[derive(Debug)]
pub enum MessageContent {
    /// A request to run a tool.
    ToolRequest(ToolRequest),
    /// Anything else, such as text or thinking.
    Other,
}

impl MessageContent {
    /// The attempt at a tool call that this piece makes, if it makes one.
    pub open spec fn attempt(self) -> Option<Option<Signature>> {
        match self {
            MessageContent::ToolRequest(request) => Some(request.attempt()),
            MessageContent::Other => None,
        }
    }
}

/// A message of the conversation: its pieces, oldest first.
#[derive(Debug)]
pub struct Message {
    pub content: Vec<MessageContent>,
}

} // verus!
