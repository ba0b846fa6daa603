//! Persisted sessions and their tasks.
use crate::app::{AppError, Progress};
use crate::evidence::AgentAnswer;
use crate::explanation::ExplanationProfile;
use crate::id::{ModelCallId, RepositoryId, RequestId, SessionId, ToolCallId};
use crate::model::{BudgetStopReason, ModelBudgetStatus, ModelCallRecord, ModelUsage};
use crate::tool::ToolCall;
use vstd::prelude::*;

verus! {

/// Terminal state of one persisted agent task.
#[derive(Debug, Clone, Copy, PartialEq, Eq, Structural)]
pub enum SessionTaskStatus {
    Completed,
    Failed,
    Cancelled,
    BudgetExceeded,
}

impl Default for SessionTaskStatus {
    fn default() -> (status: SessionTaskStatus)
        ensures
            status == SessionTaskStatus::Completed,
    {
        SessionTaskStatus::Completed
    }
}

/// One normalized, provider-neutral operation in a persisted task trajectory.
/// Messages, requests and responses are carried as the text of JSON documents.
#[derive(Debug, Clone, PartialEq, Eq)]
pub enum WorkflowEvent {
    Progress(Progress),
    /// One observable model message. Trusted system controls are recorded here
    /// but may be omitted from continuation; tool content may be compacted.
    Message(String),
    ModelRequest { call_id: ModelCallId, sequence: u64, model: String, request: String },
    ModelResponse { call_id: ModelCallId, sequence: u64, response: String },
    ModelError { call_id: ModelCallId, sequence: u64, message: String },
    ToolCallStarted(ToolCall),
    ToolCallCompleted { call_id: ToolCallId, output: String, is_error: bool },
    ModelCall(ModelCallRecord),
    Usage(ModelUsage),
    BudgetUpdated(ModelBudgetStatus),
    BudgetExceeded { status: ModelBudgetStatus, reason: BudgetStopReason },
}

/// Lightweight task metadata used by history lists.
#[derive(Debug, Clone, PartialEq, Eq)]
pub struct SessionTaskSummary {
    pub request_id: RequestId,
    pub question: String,
    pub profile: ExplanationProfile,
    pub status: SessionTaskStatus,
}

/// Lightweight metadata for one persisted session JSON document.
#[derive(Debug, Clone, PartialEq, Eq)]
pub struct SessionSummary {
    pub session_id: SessionId,
    pub repository_id: RepositoryId,
    pub tasks: Vec<SessionTaskSummary>,
    pub created_at_unix_ms: u64,
    pub updated_at_unix_ms: u64,
    pub json_path: String,
}

/// A terminal task restored from a persisted session.
#[derive(Debug, Clone, PartialEq, Eq)]
pub struct SessionTask {
    pub request_id: RequestId,
    pub question: String,
    pub profile: ExplanationProfile,
    pub status: SessionTaskStatus,
    pub answer: Option<AgentAnswer>,
    pub terminal_error: Option<AppError>,
    pub budget_stop_reason: Option<BudgetStopReason>,
    pub started_at_unix_ms: u64,
    pub finished_at_unix_ms: u64,
    /// Complete provider-neutral model/tool trace plus progress, usage, and budgets.
    pub trajectory: Vec<WorkflowEvent>,
    pub model_calls: Vec<ModelCallRecord>,
    pub usage: Option<ModelUsage>,
    pub budget: Option<ModelBudgetStatus>,
}

/// Complete, presentation-neutral context for a persisted session.
#[derive(Debug, Clone, PartialEq, Eq)]
pub struct SessionContext {
    pub schema_version: u32,
    pub session_id: SessionId,
    pub repository_id: RepositoryId,
    pub tasks: Vec<SessionTask>,
    pub usage: ModelUsage,
    pub created_at_unix_ms: u64,
    pub updated_at_unix_ms: u64,
    pub json_path: String,
}

} // verus!
