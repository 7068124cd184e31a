//! Keeps an agent from repeating itself: a monitor over the tool calls of a
//! conversation that denies runaway loops of identical or malformed calls.
//!
//! [`inspector::RepetitionInspector`] is the monitor. `check_tool_call` follows
//! the calls one by one and denies long runs of identical ones; `inspect` holds
//! pending requests against the conversation that led to them, and also finds
//! loops that alternate between calls and loops of malformed calls.

pub mod call;
pub mod conversation_laws;
pub mod finding_laws;
pub mod history;
pub mod inspection;
pub mod inspection_laws;
pub mod inspector;
pub mod json;
pub mod message;
pub mod run_laws;
pub mod text;
