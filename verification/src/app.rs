//! Commands and events between a runtime and its presentation.
use crate::evidence::{AgentAnswer, Evidence, SuggestedAction};
use crate::explanation::ExplanationProfile;
use crate::id::{AnswerId, DiagramId, RepositoryId, RequestId, SessionId};
use crate::ir::{EntryPointKind, Language};
use crate::model::{BudgetStopReason, ModelBudgetStatus, ModelCallRecord, ModelUsage};
use crate::path::RepositoryPath;
use crate::session::{SessionContext, SessionSummary, WorkflowEvent};
use crate::tool::{ToolCall, ToolOutput};
use vstd::prelude::*;

verus! {

/// Commands accepted by a UI-independent `CodeAtlas` application runtime.
#[derive(Debug, Clone, PartialEq, Eq)]
pub enum AppCommand {
    Index {
        request_id: RequestId,
        /// Host path used only to locate the repository; it is not stored in the IR.
        repository_root: String,
    },
    Ask {
        request_id: RequestId,
        session_id: SessionId,
        repository_id: RepositoryId,
        question: String,
        profile: ExplanationProfile,
    },
    /// Executes only an action previously offered on a persisted answer.
    RunSuggestedAction {
        request_id: RequestId,
        session_id: SessionId,
        repository_id: RepositoryId,
        answer_id: AnswerId,
        action: SuggestedAction,
    },
    LoadSource {
        request_id: RequestId,
        repository_id: RepositoryId,
        path: RepositoryPath,
        start_line: u32,
        end_line: Option<u32>,
    },
    Cancel { request_id: RequestId, target_request_id: RequestId },
    ListSessions { request_id: RequestId, repository_id: Option<RepositoryId> },
    LoadSession { request_id: RequestId, session_id: SessionId },
    OpenDiagram { request_id: RequestId, diagram_id: DiagramId },
}

#[derive(Debug, Clone, Copy, PartialEq, Eq, Hash, Structural)]
pub enum ProgressPhase {
    Scanning,
    Parsing,
    Indexing,
    Searching,
    Tracing,
    Reading,
    Verifying,
    Explaining,
}

#[derive(Debug, PartialEq, Eq)]
pub struct Progress {
    pub phase: ProgressPhase,
    pub message: String,
    pub completed: Option<u64>,
    pub total: Option<u64>,
}

impl Clone for Progress {
    fn clone(&self) -> (copy: Progress)
        ensures
            copy == *self,
    {
        Progress {
            phase: self.phase,
            message: self.message.clone(),
            completed: self.completed,
            total: self.total,
        }
    }
}

#[derive(Debug, PartialEq, Eq)]
pub struct AppError {
    pub code: String,
    pub message: String,
    pub retryable: bool,
}

impl Clone for AppError {
    fn clone(&self) -> (copy: AppError)
        ensures
            copy == *self,
    {
        AppError {
            code: self.code.clone(),
            message: self.message.clone(),
            retryable: self.retryable,
        }
    }
}

/// A bounded, presentation-neutral summary used to establish a repository mental model.
#[derive(Debug, Clone, PartialEq, Eq)]
pub struct RepositoryMap {
    pub name: String,
    pub module_count: u64,
    pub call_count: u64,
    pub unresolved_call_count: u64,
    pub languages: Vec<RepositoryLanguage>,
    pub modules: Vec<RepositoryModule>,
    pub modules_truncated: bool,
    pub entry_points: Vec<RepositoryEntryPoint>,
    pub entry_points_truncated: bool,
}

impl Default for RepositoryMap {
    fn default() -> (map: RepositoryMap)
        ensures
            map.name@ == Seq::<char>::empty(),
            map.module_count == 0,
            map.call_count == 0,
            map.unresolved_call_count == 0,
            map.languages@ == Seq::<RepositoryLanguage>::empty(),
            map.modules@ == Seq::<RepositoryModule>::empty(),
            !map.modules_truncated,
            map.entry_points@ == Seq::<RepositoryEntryPoint>::empty(),
            !map.entry_points_truncated,
    {
        RepositoryMap {
            name: String::new(),
            module_count: 0,
            call_count: 0,
            unresolved_call_count: 0,
            languages: Vec::new(),
            modules: Vec::new(),
            modules_truncated: false,
            entry_points: Vec::new(),
            entry_points_truncated: false,
        }
    }
}

#[derive(Debug, Clone, PartialEq, Eq)]
pub struct RepositoryLanguage {
    pub language: Language,
    pub file_count: u64,
}

#[derive(Debug, Clone, PartialEq, Eq)]
pub struct RepositoryModule {
    pub name: String,
    pub path: RepositoryPath,
}

#[derive(Debug, Clone, PartialEq, Eq)]
pub struct RepositoryEntryPoint {
    pub kind: EntryPointKind,
    pub label: String,
    pub path: RepositoryPath,
    pub line: u32,
}

/// Events emitted by the runtime for any presentation layer.
#[derive(Debug, Clone, PartialEq, Eq)]
pub enum AppEvent {
    Progress { request_id: RequestId, progress: Progress },
    ToolCallStarted { request_id: RequestId, call: ToolCall },
    ToolCallCompleted { request_id: RequestId, output: ToolOutput },
    EvidenceAdded { request_id: RequestId, evidence: Evidence },
    AnswerDelta { request_id: RequestId, delta: String },
    AnswerCompleted { request_id: RequestId, answer: AgentAnswer },
    UsageUpdated { request_id: RequestId, usage: ModelUsage },
    ModelCallRecorded { request_id: RequestId, record: ModelCallRecord },
    BudgetUpdated { request_id: RequestId, status: ModelBudgetStatus },
    BudgetExceeded {
        request_id: RequestId,
        status: ModelBudgetStatus,
        reason: BudgetStopReason,
    },
    TaskTraceRecorded { request_id: RequestId, event: WorkflowEvent },
    IndexCompleted {
        request_id: RequestId,
        repository_id: RepositoryId,
        file_count: u64,
        symbol_count: u64,
        repository_map: RepositoryMap,
    },
    SourceLoaded {
        request_id: RequestId,
        repository_id: RepositoryId,
        path: RepositoryPath,
        start_line: u32,
        end_line: u32,
        content: String,
    },
    Cancelled { request_id: RequestId },
    SessionsListed { request_id: RequestId, sessions: Vec<SessionSummary> },
    SessionLoaded { request_id: RequestId, session: SessionContext },
    DiagramOpened { request_id: RequestId, diagram_id: DiagramId },
    Error { request_id: Option<RequestId>, error: AppError },
}

} // verus!
