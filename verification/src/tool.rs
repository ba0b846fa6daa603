//! Tool calls and their results. Structured arguments and results are carried as
//! the text of a JSON document.
use crate::id::ToolCallId;
use vstd::prelude::*;

verus! {

#[derive(Debug, Clone, PartialEq, Eq)]
pub struct ToolDefinition {
    pub name: String,
    pub description: String,
    pub input_schema: String,
    pub output_schema: Option<String>,
}

#[derive(Debug, Clone, PartialEq, Eq)]
pub struct ToolCall {
    pub id: ToolCallId,
    pub name: String,
    pub arguments: String,
}

#[derive(Debug, Clone, PartialEq, Eq)]
pub struct ToolOutput {
    pub call_id: ToolCallId,
    pub result: String,
    pub is_error: bool,
}

#[derive(Debug, Clone, PartialEq, Eq)]
pub enum ToolError {
    NotFound { name: String },
    InvalidArguments { name: String, message: String },
    Execution { name: String, message: String },
    Cancelled,
}

} // verus!
