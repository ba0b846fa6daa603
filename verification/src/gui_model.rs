//! What the native interface shows, as mathematical values, and what every event
//! makes of it.
use crate::app::{AppError, AppEvent, Progress, ProgressPhase, RepositoryMap};
use crate::evidence::{AgentAnswer, Claim, Evidence, SuggestedAction};
use crate::explanation::ExplanationProfile;
use crate::id;
use crate::id::{
    ClaimId, DiagramId, EvidenceId, RepositoryId, RequestId, SessionId, ToolCallId,
};
use crate::model::ModelUsage;
use crate::path::RepositoryPath;
use crate::session::{
    SessionContext, SessionSummary, SessionTask, SessionTaskStatus, WorkflowEvent,
};
use crate::text;
use vstd::prelude::*;

verus! {

/// How many progress items one request keeps.
pub const MAX_PROGRESS_ITEMS_PER_REQUEST: usize = 48;

#[derive(Debug, Clone, Copy, PartialEq, Eq, Structural)]
pub enum WorkspacePanel {
    Repository,
    Conversation,
    Evidence,
}

#[derive(Debug, Clone, Copy, PartialEq, Eq, Structural)]
pub enum RequestKind {
    Index,
    Ask,
}

#[derive(Debug, Clone, Copy, PartialEq, Eq, Structural)]
pub enum WorkStatus {
    Idle,
    Indexing,
    Thinking,
    Cancelling,
    Indexed,
    AnswerReady,
    Cancelled,
    Error,
}

impl WorkStatus {
    pub open spec fn label_text(self) -> Seq<char> {
        match self {
            WorkStatus::Idle => "Ready to index"@,
            WorkStatus::Indexing => "Indexing repository"@,
            WorkStatus::Thinking => "Researching answer"@,
            WorkStatus::Cancelling => "Cancelling"@,
            WorkStatus::Indexed => "Repository ready"@,
            WorkStatus::AnswerReady => "Answer ready"@,
            WorkStatus::Cancelled => "Request cancelled"@,
            WorkStatus::Error => "Needs attention"@,
        }
    }

    pub fn label(self) -> (label: &'static str)
        ensures
            label@ == self.label_text(),
    {
        match self {
            WorkStatus::Idle => "Ready to index",
            WorkStatus::Indexing => "Indexing repository",
            WorkStatus::Thinking => "Researching answer",
            WorkStatus::Cancelling => "Cancelling",
            WorkStatus::Indexed => "Repository ready",
            WorkStatus::AnswerReady => "Answer ready",
            WorkStatus::Cancelled => "Request cancelled",
            WorkStatus::Error => "Needs attention",
        }
    }
}

#[derive(Debug, Clone, Copy, PartialEq, Eq, Structural)]
pub enum TurnStatus {
    Running,
    Completed,
    Cancelled,
    Failed,
}

#[derive(Debug, Clone, Copy, PartialEq, Eq, Structural)]
pub enum ActivityStatus {
    Running,
    Complete,
    Cancelled,
    Failed,
    Information,
}

#[derive(Debug, Clone, Copy, PartialEq, Eq, Structural)]
pub enum SourceStatus {
    Excerpt,
    Loading,
    Loaded,
    Failed,
    ReadOnly,
}

/// The request that is being worked on.
#[derive(Debug, Clone, Copy, PartialEq, Eq, Structural)]
pub struct ActiveRequest {
    pub id: RequestId,
    pub kind: RequestKind,
    pub cancel_id: Option<RequestId>,
}

#[derive(Debug, Clone, Copy, PartialEq, Eq, Structural)]
pub enum RequestOutcome {
    Completed,
    Cancelled,
    Failed,
}

/// The indexed repository.
#[verifier::ext_equal]
pub struct RepositoryShown {
    pub path: Seq<char>,
    pub id: RepositoryId,
    pub file_count: u64,
    pub symbol_count: u64,
    pub map: RepositoryMap,
}

/// One question and its answer.
#[verifier::ext_equal]
pub struct TurnShown {
    pub request_id: RequestId,
    pub question: Seq<char>,
    pub profile: ExplanationProfile,
    pub answer_text: Seq<char>,
    pub answer: Option<AgentAnswer>,
    pub status: TurnStatus,
}

/// One line of the activity panel.
#[verifier::ext_equal]
pub struct ActivityShown {
    pub request_id: RequestId,
    pub call_id: Option<ToolCallId>,
    pub title: Seq<char>,
    pub detail: Option<Seq<char>>,
    pub status: ActivityStatus,
    pub progress_phase: Option<ProgressPhase>,
}

/// An error or a notice.
#[verifier::ext_equal]
pub struct ErrorShown {
    pub code: Seq<char>,
    pub message: Seq<char>,
    pub retryable: bool,
}

/// A source excerpt.
#[verifier::ext_equal]
pub struct SourceShown {
    pub evidence_id: EvidenceId,
    pub path: RepositoryPath,
    pub start_line: u32,
    pub end_line: u32,
    pub content: Seq<char>,
    pub status: SourceStatus,
    pub message: Option<Seq<char>>,
    pub pending_request: Option<RequestId>,
    pub repository_id: Option<RepositoryId>,
}

/// Everything that the interface shows and remembers. Tables are keyed by the
/// values of IDs.
#[verifier::ext_equal]
pub struct GuiModel {
    pub namespace: Seq<char>,
    pub next_request: u64,
    pub next_session: u64,
    pub repository_input: Seq<char>,
    pub question_input: Seq<char>,
    pub profile: ExplanationProfile,
    pub repository: Option<RepositoryShown>,
    pub status: WorkStatus,
    pub panel: WorkspacePanel,
    pub turns: Seq<TurnShown>,
    pub selected_task: Option<RequestId>,
    pub selected_claim: Option<ClaimId>,
    pub selected_evidence: Option<EvidenceId>,
    pub source: Option<SourceShown>,
    pub activity: Seq<ActivityShown>,
    pub activity_open: bool,
    pub history_open: bool,
    pub history_loading: bool,
    pub sessions: Seq<SessionSummary>,
    pub session_id: SessionId,
    pub session_repository_id: Option<RepositoryId>,
    pub error: Option<ErrorShown>,
    pub notices: Seq<ErrorShown>,
    pub diagram_messages: Map<u128, Seq<char>>,
    pub active: Option<ActiveRequest>,
    pub outcomes: Map<u128, RequestOutcome>,
    pub pending_index_path: Option<(RequestId, Seq<char>)>,
    pub pending_history: Option<RequestId>,
    pub pending_session: Option<RequestId>,
    pub pending_diagrams: Map<u128, DiagramId>,
    pub usage: Map<u128, ModelUsage>,
}

/// The first turn of a request.
pub open spec fn first_turn(turns: Seq<TurnShown>, request_id: RequestId) -> Option<int>
    decreases turns.len(),
{
    if turns.len() == 0 {
        None
    } else {
        match first_turn(turns.drop_last(), request_id) {
            Some(index) => Some(index),
            None => if turns.last().request_id == request_id {
                Some(turns.len() - 1)
            } else {
                None
            },
        }
    }
}

/// The turn whose answer is shown: the selected one, or else the last.
pub open spec fn shown_turn(turns: Seq<TurnShown>, selected: Option<RequestId>) -> Option<int> {
    let last = if turns.len() == 0 {
        None
    } else {
        Some(turns.len() - 1)
    };
    match selected {
        None => last,
        Some(request_id) => match first_turn(turns, request_id) {
            Some(index) => Some(index),
            None => last,
        },
    }
}

/// A running turn gets the status in which it ended.
pub open spec fn turn_ended(
    turns: Seq<TurnShown>,
    request_id: RequestId,
    status: TurnStatus,
) -> Seq<TurnShown> {
    match first_turn(turns, request_id) {
        Some(index) => if turns[index].status == TurnStatus::Running {
            turns.update(index, TurnShown { status, ..turns[index] })
        } else {
            turns
        },
        None => turns,
    }
}

/// The last activity of a request in a phase.
pub open spec fn last_phase(
    activity: Seq<ActivityShown>,
    request_id: RequestId,
    phase: ProgressPhase,
) -> Option<int>
    decreases activity.len(),
{
    if activity.len() == 0 {
        None
    } else if activity.last().request_id == request_id && activity.last().progress_phase == Some(
        phase,
    ) {
        Some(activity.len() - 1)
    } else {
        last_phase(activity.drop_last(), request_id, phase)
    }
}

/// The last activity of a request that belongs to a tool call.
pub open spec fn last_tool(
    activity: Seq<ActivityShown>,
    request_id: RequestId,
    call_id: ToolCallId,
) -> Option<int>
    decreases activity.len(),
{
    if activity.len() == 0 {
        None
    } else if activity.last().request_id == request_id && activity.last().call_id == Some(
        call_id,
    ) {
        Some(activity.len() - 1)
    } else {
        last_tool(activity.drop_last(), request_id, call_id)
    }
}

/// Whether an activity is a progress item of a request.
pub open spec fn is_progress(item: ActivityShown, request_id: RequestId) -> bool {
    item.request_id == request_id && item.progress_phase is Some
}

/// How many progress items a request has.
pub open spec fn progress_count(activity: Seq<ActivityShown>, request_id: RequestId) -> nat
    decreases activity.len(),
{
    if activity.len() == 0 {
        0
    } else if is_progress(activity.last(), request_id) {
        progress_count(activity.drop_last(), request_id) + 1
    } else {
        progress_count(activity.drop_last(), request_id)
    }
}

/// The first progress item of a request.
pub open spec fn first_progress(activity: Seq<ActivityShown>, request_id: RequestId) -> Option<int>
    decreases activity.len(),
{
    if activity.len() == 0 {
        None
    } else {
        match first_progress(activity.drop_last(), request_id) {
            Some(index) => Some(index),
            None => if is_progress(activity.last(), request_id) {
                Some(activity.len() - 1)
            } else {
                None
            },
        }
    }
}

/// How far a piece of work is, where both counts are known.
pub open spec fn progress_detail(progress: Progress) -> Option<Seq<char>> {
    match (progress.completed, progress.total) {
        (Some(completed), Some(total)) => Some(
            text::decimal(completed as nat) + " of "@ + text::decimal(total as nat),
        ),
        _ => None,
    }
}

/// The activity after a progress report. Reports on single files replace each
/// other; otherwise the oldest report makes room where a request has too many.
pub open spec fn with_progress(
    activity: Seq<ActivityShown>,
    request_id: RequestId,
    progress: Progress,
    coalesce: bool,
) -> Seq<ActivityShown> {
    let merge = coalesce && (progress.phase == ProgressPhase::Parsing || progress.phase
        == ProgressPhase::Indexing);
    let item = ActivityShown {
        request_id,
        call_id: None,
        title: progress.message@,
        detail: progress_detail(progress),
        status: ActivityStatus::Information,
        progress_phase: Some(progress.phase),
    };
    match last_phase(activity, request_id, progress.phase) {
        Some(index) if merge => activity.update(
            index,
            ActivityShown {
                title: progress.message@,
                detail: progress_detail(progress),
                ..activity[index]
            },
        ),
        _ => {
            let kept = if progress_count(activity, request_id) >= MAX_PROGRESS_ITEMS_PER_REQUEST {
                activity.remove(first_progress(activity, request_id)->0)
            } else {
                activity
            };
            kept.push(item)
        },
    }
}

/// The activity after a tool was called.
pub open spec fn with_tool_call(
    activity: Seq<ActivityShown>,
    request_id: RequestId,
    call_id: ToolCallId,
    name: Seq<char>,
) -> Seq<ActivityShown> {
    activity.push(
        ActivityShown {
            request_id,
            call_id: Some(call_id),
            title: tool_title(name),
            detail: Some("Read-only repository query"@),
            status: ActivityStatus::Running,
            progress_phase: None,
        },
    )
}

/// The activity after a tool has answered.
pub open spec fn with_tool_result(
    activity: Seq<ActivityShown>,
    request_id: RequestId,
    call_id: ToolCallId,
    failed: bool,
) -> Seq<ActivityShown> {
    let status = if failed {
        ActivityStatus::Failed
    } else {
        ActivityStatus::Complete
    };
    match last_tool(activity, request_id, call_id) {
        Some(index) => activity.update(
            index,
            ActivityShown {
                status,
                detail: Some(
                    if failed {
                        "Repository query reported an error"@
                    } else {
                        "Repository query completed"@
                    },
                ),
                ..activity[index]
            },
        ),
        None => activity.push(
            ActivityShown {
                request_id,
                call_id: Some(call_id),
                title: "Repository query"@,
                detail: Some("Completed without a matching start event"@),
                status,
                progress_phase: None,
            },
        ),
    }
}

/// How running activity of a request that ended is described.
pub open spec fn ending_detail(outcome: RequestOutcome) -> Seq<char> {
    match outcome {
        RequestOutcome::Completed => "Request completed"@,
        RequestOutcome::Cancelled => "Stopped because the request was cancelled"@,
        RequestOutcome::Failed => "Stopped because the request failed"@,
    }
}

/// The status of the activity of a request that ended.
pub open spec fn ending_status(outcome: RequestOutcome) -> ActivityStatus {
    match outcome {
        RequestOutcome::Completed => ActivityStatus::Complete,
        RequestOutcome::Cancelled => ActivityStatus::Cancelled,
        RequestOutcome::Failed => ActivityStatus::Failed,
    }
}

/// One activity after a request ended.
pub open spec fn item_settled(
    item: ActivityShown,
    request_id: RequestId,
    outcome: RequestOutcome,
) -> ActivityShown {
    if item.request_id == request_id && item.status == ActivityStatus::Running {
        ActivityShown {
            status: ending_status(outcome),
            detail: Some(ending_detail(outcome)),
            ..item
        }
    } else {
        item
    }
}

/// The activity after a request ended: nothing of it is running any more.
pub open spec fn settled(
    activity: Seq<ActivityShown>,
    request_id: RequestId,
    outcome: RequestOutcome,
) -> Seq<ActivityShown> {
    Seq::new(activity.len(), |i: int| item_settled(activity[i], request_id, outcome))
}

/// A name whose underscores are blanks.
pub open spec fn spaced(name: Seq<char>) -> Seq<char> {
    Seq::new(
        name.len(),
        |i: int|
            if name[i] == '_' {
                ' '
            } else {
                name[i]
            },
    )
}

/// How a tool call is described.
pub open spec fn tool_title(name: Seq<char>) -> Seq<char> {
    if name == "list_files"@ {
        "Listing repository files"@
    } else if name == "read_file"@ {
        "Reading source"@
    } else if name == "find_symbol"@ {
        "Finding symbols"@
    } else if name == "find_references"@ {
        "Finding references"@
    } else if name == "get_symbol"@ {
        "Inspecting a symbol"@
    } else if name == "get_module"@ {
        "Inspecting a module"@
    } else if name == "search_code"@ {
        "Searching source"@
    } else if name == "trace_call"@ {
        "Tracing a call path"@
    } else if name == "get_repository_overview"@ {
        "Mapping repository"@
    } else if name.len() == 0 {
        name
    } else {
        spaced(name).update(0, text::ascii_upper(spaced(name)[0]))
    }
}

/// The message that stands for a rejected API key.
pub open spec fn authentication_message() -> Seq<char> {
    "Authentication failed (HTTP 401). The API key was rejected by the configured model provider. Make sure CODEATLAS_ENDPOINT, CODEATLAS_MODEL, and the API key belong to the same provider, then restart CodeAtlas."@
}

/// Whether an error says that the API key was rejected.
pub open spec fn is_authentication_error(error: AppError) -> bool {
    error.code@ == "model_error"@ && (text::contains(error.message@, "HTTP 401"@)
        || text::contains(error.message@, "invalid_api_key"@) || text::contains(
        error.message@,
        "Incorrect API key"@,
    ))
}

/// How an error is shown. What a provider says of a rejected key is not repeated.
pub open spec fn presented(error: AppError) -> ErrorShown {
    ErrorShown {
        code: error.code@,
        message: if is_authentication_error(error) {
            authentication_message()
        } else {
            error.message@
        },
        retryable: error.retryable,
    }
}

/// Whether an error leaves the request that it belongs to unharmed.
pub open spec fn is_harmless(code: Seq<char>) -> bool {
    code == "diagram_generation_failed"@ || code == "session_update_failed"@ || code
        == "session_save_failed"@
}

/// The larger of two reports of the usage of one request; the newer one where
/// they count the same.
pub open spec fn merged_usage(current: Option<ModelUsage>, newer: ModelUsage) -> ModelUsage {
    match current {
        Some(usage) if usage.tokens.total_tokens > newer.tokens.total_tokens => usage,
        _ => newer,
    }
}

/// What is known of the usage of a request.
pub open spec fn usage_of(usage: Map<u128, ModelUsage>, request_id: RequestId) -> Option<
    ModelUsage,
> {
    if usage.contains_key(request_id.value) {
        Some(usage[request_id.value])
    } else {
        None
    }
}

/// The lines that an excerpt covers. A span that ends before the first column of a
/// line does not reach into that line.
pub open spec fn line_range(span: ((u32, u32), (u32, u32))) -> (u32, u32) {
    if span.1.1 == 0 && span.1.0 > span.0.0 {
        (span.0.0, (span.1.0 - 1) as u32)
    } else {
        (span.0.0, span.1.0)
    }
}

/// The first evidence with an ID.
pub open spec fn first_evidence(evidence: Seq<Evidence>, id: EvidenceId) -> Option<int>
    decreases evidence.len(),
{
    if evidence.len() == 0 {
        None
    } else {
        match first_evidence(evidence.drop_last(), id) {
            Some(index) => Some(index),
            None => if evidence.last().id == id {
                Some(evidence.len() - 1)
            } else {
                None
            },
        }
    }
}

/// Whether a claim with an ID cites an evidence.
pub open spec fn claim_cites(claims: Seq<Claim>, claim_id: ClaimId, id: EvidenceId) -> bool {
    exists|i: int|
        #![trigger claims[i]]
        0 <= i < claims.len() && claims[i].id == claim_id && claims[i].evidence_ids@.contains(id)
}

/// The evidence that is listed: all of it, or what the selected claim cites.
pub open spec fn listed_evidence(
    evidence: Seq<Evidence>,
    claims: Seq<Claim>,
    selected: Option<ClaimId>,
) -> Seq<Evidence>
    decreases evidence.len(),
{
    if evidence.len() == 0 {
        evidence
    } else {
        let rest = listed_evidence(evidence.drop_last(), claims, selected);
        if selected is None || claim_cites(claims, selected->0, evidence.last().id) {
            rest.push(evidence.last())
        } else {
            rest
        }
    }
}

/// How a terminal task ended.
pub open spec fn task_outcome(status: SessionTaskStatus) -> RequestOutcome {
    match status {
        SessionTaskStatus::Completed => RequestOutcome::Completed,
        SessionTaskStatus::Cancelled => RequestOutcome::Cancelled,
        SessionTaskStatus::Failed => RequestOutcome::Failed,
        SessionTaskStatus::BudgetExceeded => RequestOutcome::Failed,
    }
}

/// The status of the turn of a request that ended.
pub open spec fn outcome_turn(outcome: RequestOutcome) -> TurnStatus {
    match outcome {
        RequestOutcome::Completed => TurnStatus::Completed,
        RequestOutcome::Cancelled => TurnStatus::Cancelled,
        RequestOutcome::Failed => TurnStatus::Failed,
    }
}

/// The activity after one step of a recorded trajectory. Steps that are no progress
/// and no tool call leave no trace.
pub open spec fn with_recorded(
    activity: Seq<ActivityShown>,
    request_id: RequestId,
    event: WorkflowEvent,
) -> Seq<ActivityShown> {
    match event {
        WorkflowEvent::Progress(progress) => with_progress(activity, request_id, progress, true),
        WorkflowEvent::ToolCallStarted(call) => with_tool_call(
            activity,
            request_id,
            call.id,
            call.name@,
        ),
        WorkflowEvent::ToolCallCompleted { call_id, is_error, .. } => with_tool_result(
            activity,
            request_id,
            call_id,
            is_error,
        ),
        _ => activity,
    }
}

/// The activity after a recorded trajectory.
pub open spec fn with_trajectory(
    activity: Seq<ActivityShown>,
    request_id: RequestId,
    events: Seq<WorkflowEvent>,
) -> Seq<ActivityShown>
    decreases events.len(),
{
    if events.len() == 0 {
        activity
    } else {
        with_recorded(
            with_trajectory(activity, request_id, events.drop_last()),
            request_id,
            events.last(),
        )
    }
}

/// The turn of a recorded task.
pub open spec fn recorded_turn(task: SessionTask) -> TurnShown {
    TurnShown {
        request_id: task.request_id,
        question: task.question@,
        profile: task.profile,
        answer_text: match task.answer {
            Some(answer) => answer.text@,
            None => Seq::empty(),
        },
        answer: task.answer,
        status: outcome_turn(task_outcome(task.status)),
    }
}

impl GuiModel {
    pub open spec fn is_active(self, request_id: RequestId) -> bool {
        self.active is Some && self.active->0.id == request_id
    }

    pub open spec fn active_is(self, request_id: RequestId, kind: RequestKind) -> bool {
        self.is_active(request_id) && self.active->0.kind == kind
    }

    pub open spec fn indexed_id(self) -> Option<RepositoryId> {
        match self.repository {
            Some(repository) => Some(repository.id),
            None => None,
        }
    }

    /// Whether the shown session belongs to another repository.
    pub open spec fn is_read_only(self) -> bool {
        self.session_repository_id is Some && self.indexed_id() != self.session_repository_id
    }

    pub open spec fn shown_answer(self) -> Option<AgentAnswer> {
        match shown_turn(self.turns, self.selected_task) {
            Some(index) => self.turns[index].answer,
            None => None,
        }
    }

    /// The usage that is shown with the answer.
    pub open spec fn shown_usage(self) -> Option<ModelUsage> {
        match shown_turn(self.turns, self.selected_task) {
            Some(index) => match usage_of(self.usage, self.turns[index].request_id) {
                Some(usage) => Some(usage),
                None => match self.turns[index].answer {
                    Some(answer) => answer.usage,
                    None => None,
                },
            },
            None => None,
        }
    }

    /// The model that is shown before anything happened.
    pub open spec fn initial(namespace: Seq<char>) -> GuiModel {
        GuiModel {
            namespace,
            next_request: 0,
            next_session: 0,
            repository_input: Seq::empty(),
            question_input: Seq::empty(),
            profile: ExplanationProfile {
                audience: crate::explanation::ExplanationAudience::Developer,
                depth: crate::explanation::ExplanationDepth::Auto,
            },
            repository: None,
            status: WorkStatus::Idle,
            panel: WorkspacePanel::Conversation,
            turns: Seq::empty(),
            selected_task: None,
            selected_claim: None,
            selected_evidence: None,
            source: None,
            activity: Seq::empty(),
            activity_open: false,
            history_open: false,
            history_loading: false,
            sessions: Seq::empty(),
            session_id: SessionId::of(seq!["gui"@, namespace, "unindexed"@]),
            session_repository_id: None,
            error: None,
            notices: Seq::empty(),
            diagram_messages: Map::empty(),
            active: None,
            outcomes: Map::empty(),
            pending_index_path: None,
            pending_history: None,
            pending_session: None,
            pending_diagrams: Map::empty(),
            usage: Map::empty(),
        }
    }

    /// The components of the ID that the next request gets.
    pub open spec fn request_parts(self, operation: Seq<char>) -> Seq<Seq<char>> {
        seq!["gui"@, self.namespace, operation, text::decimal(self.next_request as nat)]
    }

    /// The ID that the next request gets.
    pub open spec fn request_id(self, operation: Seq<char>) -> RequestId {
        RequestId::of(self.request_parts(operation))
    }

    /// One request more has been made.
    pub open spec fn after_request(self) -> GuiModel {
        GuiModel { next_request: crate::scanner::one_more(self.next_request), ..self }
    }

    /// The ID that the next session of a repository gets.
    pub open spec fn fresh_session(self, repository_id: RepositoryId) -> SessionId {
        SessionId::of(
            seq![
                "gui"@,
                self.namespace,
                id::id_text(repository_id.value),
                text::decimal(self.next_session as nat),
            ],
        )
    }

    pub open spec fn with_error(self, code: Seq<char>, message: Seq<char>) -> GuiModel {
        GuiModel { error: Some(ErrorShown { code, message, retryable: false }), ..self }
    }

    /// Nothing of a session is left.
    pub open spec fn cleared(self) -> GuiModel {
        GuiModel {
            question_input: Seq::empty(),
            turns: Seq::empty(),
            selected_task: None,
            selected_claim: None,
            selected_evidence: None,
            source: None,
            activity: Seq::empty(),
            outcomes: Map::empty(),
            usage: Map::empty(),
            notices: Seq::empty(),
            diagram_messages: Map::empty(),
            ..self
        }
    }

    /// A new, empty session of a repository.
    pub open spec fn with_new_session(self, repository_id: RepositoryId) -> GuiModel {
        GuiModel {
            session_id: self.fresh_session(repository_id),
            session_repository_id: Some(repository_id),
            next_session: crate::scanner::one_more(self.next_session),
            ..self.cleared()
        }
    }

    /// Nothing is selected below the answer.
    pub open spec fn without_selection(self) -> GuiModel {
        GuiModel { selected_claim: None, selected_evidence: None, source: None, ..self }
    }

    /// A request ended: its outcome is recorded, its activity settled, and it is no
    /// longer active.
    pub open spec fn ended(self, request_id: RequestId, outcome: RequestOutcome) -> GuiModel {
        GuiModel {
            activity: settled(self.activity, request_id, outcome),
            outcomes: self.outcomes.insert(request_id.value, outcome),
            active: if self.is_active(request_id) {
                None
            } else {
                self.active
            },
            ..self
        }
    }

    /// A directory is being indexed.
    pub open spec fn indexing(self, path: Seq<char>) -> GuiModel {
        let request_id = self.request_id("index"@);
        GuiModel {
            active: Some(ActiveRequest { id: request_id, kind: RequestKind::Index, cancel_id: None }),
            pending_index_path: Some((request_id, path)),
            status: WorkStatus::Indexing,
            error: None,
            ..self.after_request()
        }
    }

    /// A turn begins: it is selected, and its request is active.
    pub open spec fn with_turn(
        self,
        request_id: RequestId,
        question: Seq<char>,
        profile: ExplanationProfile,
    ) -> GuiModel {
        GuiModel {
            turns: self.turns.push(
                TurnShown {
                    request_id,
                    question,
                    profile,
                    answer_text: Seq::empty(),
                    answer: None,
                    status: TurnStatus::Running,
                },
            ),
            selected_task: Some(request_id),
            profile,
            active: Some(ActiveRequest { id: request_id, kind: RequestKind::Ask, cancel_id: None }),
            status: WorkStatus::Thinking,
            error: None,
            ..self.without_selection()
        }
    }

    /// A question is being answered.
    pub open spec fn asking(self, question: Seq<char>) -> GuiModel {
        GuiModel {
            question_input: Seq::empty(),
            ..self.after_request().with_turn(self.request_id("ask"@), question, self.profile)
        }
    }

    /// Whether the shown answer offers an action.
    pub open spec fn offers(self, action: SuggestedAction) -> bool {
        self.shown_answer() matches Some(answer) && answer.suggested_actions@.contains(action)
    }

    /// The profile of the shown turn under which an action is run: a change of depth
    /// changes the depth alone.
    pub open spec fn action_profile(self, action: SuggestedAction) -> ExplanationProfile {
        let profile = self.turns[shown_turn(self.turns, self.selected_task)->0].profile;
        match action {
            SuggestedAction::ChangeDepth { depth } => ExplanationProfile { depth, ..profile },
            _ => profile,
        }
    }

    /// An offered action is being run: the source of an evidence is being loaded, or
    /// else a turn begins in the same session, named after the action.
    pub open spec fn acting(self, action: SuggestedAction) -> GuiModel {
        let request_id = self.request_id("action"@);
        match action {
            SuggestedAction::ShowSource { evidence_id } => match self.shown_evidence(evidence_id) {
                Some(evidence) => self.after_request().showing(
                    evidence,
                    SourceStatus::Loading,
                    None,
                    Some(request_id),
                ),
                None => self.after_request(),
            },
            _ => self.after_request().with_turn(
                request_id,
                action.label_text(),
                self.action_profile(action),
            ),
        }
    }

    /// The active request is being cancelled.
    pub open spec fn cancelling(self) -> GuiModel {
        GuiModel {
            active: Some(
                ActiveRequest { cancel_id: Some(self.request_id("cancel"@)), ..self.active->0 },
            ),
            status: WorkStatus::Cancelling,
            ..self.after_request()
        }
    }

    /// The source of an evidence is shown: its excerpt, and the source itself where it
    /// is loaded.
    pub open spec fn showing(
        self,
        evidence: Evidence,
        status: SourceStatus,
        message: Option<Seq<char>>,
        pending_request: Option<RequestId>,
    ) -> GuiModel {
        GuiModel {
            selected_evidence: Some(evidence.id),
            source: Some(
                SourceShown {
                    evidence_id: evidence.id,
                    path: evidence.path,
                    start_line: line_range(evidence.span@).0,
                    end_line: line_range(evidence.span@).1,
                    content: match evidence.excerpt {
                        Some(excerpt) => excerpt@,
                        None => Seq::empty(),
                    },
                    status,
                    message,
                    pending_request,
                    repository_id: self.indexed_id(),
                },
            ),
            ..self
        }
    }

    /// The evidence of the shown answer with an ID.
    pub open spec fn shown_evidence(self, id: EvidenceId) -> Option<Evidence> {
        match self.shown_answer() {
            Some(answer) => match first_evidence(answer.evidence@, id) {
                Some(index) => Some(answer.evidence@[index]),
                None => None,
            },
            None => None,
        }
    }

    /// A diagram is being opened.
    pub open spec fn opening(self, diagram_id: DiagramId) -> GuiModel {
        GuiModel {
            pending_diagrams: self.pending_diagrams.insert(
                self.request_id("diagram"@).value,
                diagram_id,
            ),
            diagram_messages: self.diagram_messages.insert(
                diagram_id.value,
                "Opening diagram in the default viewer..."@,
            ),
            ..self.after_request()
        }
    }

    /// A progress report of the active request.
    pub open spec fn on_progress(self, request_id: RequestId, progress: Progress) -> GuiModel {
        if self.is_active(request_id) {
            GuiModel {
                activity: with_progress(
                    self.activity,
                    request_id,
                    progress,
                    self.active_is(request_id, RequestKind::Index),
                ),
                ..self
            }
        } else {
            self
        }
    }

    /// A part of the answer of the active request.
    pub open spec fn on_delta(self, request_id: RequestId, delta: Seq<char>) -> GuiModel {
        match first_turn(self.turns, request_id) {
            Some(index) if self.active_is(request_id, RequestKind::Ask) => GuiModel {
                turns: self.turns.update(
                    index,
                    TurnShown {
                        answer_text: self.turns[index].answer_text + delta,
                        ..self.turns[index]
                    },
                ),
                ..self
            },
            _ => self,
        }
    }

    /// The usage that a completed answer is shown with.
    pub open spec fn answer_usage(self, request_id: RequestId, answer: AgentAnswer) -> Option<
        ModelUsage,
    > {
        match answer.usage {
            Some(usage) => Some(merged_usage(usage_of(self.usage, request_id), usage)),
            None => usage_of(self.usage, request_id),
        }
    }

    /// The answer of the active request is complete.
    pub open spec fn on_answer(self, request_id: RequestId, answer: AgentAnswer) -> GuiModel {
        if !self.active_is(request_id, RequestKind::Ask) || self.outcomes.contains_key(
            request_id.value,
        ) {
            self
        } else {
            let usage = self.answer_usage(request_id, answer);
            let known = GuiModel {
                usage: match usage {
                    Some(usage) => self.usage.insert(request_id.value, usage),
                    None => self.usage,
                },
                turns: match first_turn(self.turns, request_id) {
                    Some(index) => self.turns.update(
                        index,
                        TurnShown {
                            answer_text: answer.text@,
                            answer: Some(AgentAnswer { usage, ..answer }),
                            status: TurnStatus::Completed,
                            ..self.turns[index]
                        },
                    ),
                    None => self.turns,
                },
                ..self
            };
            GuiModel {
                status: WorkStatus::AnswerReady,
                selected_task: Some(request_id),
                ..known.ended(request_id, RequestOutcome::Completed).without_selection()
            }
        }
    }

    /// Whether a usage report belongs to something that is shown.
    pub open spec fn usage_is_wanted(self, request_id: RequestId) -> bool {
        self.is_active(request_id) || exists|i: int|
            #![trigger self.turns[i]]
            0 <= i < self.turns.len() && self.turns[i].request_id == request_id
                && self.turns[i].answer is Some
    }

    /// A report of the usage so far.
    pub open spec fn on_usage(self, request_id: RequestId, usage: ModelUsage) -> GuiModel {
        if self.usage_is_wanted(request_id) {
            let merged = merged_usage(usage_of(self.usage, request_id), usage);
            GuiModel {
                usage: self.usage.insert(request_id.value, merged),
                turns: match first_turn(self.turns, request_id) {
                    Some(index) => match self.turns[index].answer {
                        Some(answer) => self.turns.update(
                            index,
                            TurnShown {
                                answer: Some(AgentAnswer { usage: Some(merged), ..answer }),
                                ..self.turns[index]
                            },
                        ),
                        None => self.turns,
                    },
                    None => self.turns,
                },
                ..self
            }
        } else {
            self
        }
    }

    /// The repository of the active request is indexed: it becomes the current one,
    /// with a new session.
    pub open spec fn on_indexed(
        self,
        request_id: RequestId,
        repository_id: RepositoryId,
        file_count: u64,
        symbol_count: u64,
        map: RepositoryMap,
    ) -> GuiModel {
        match self.pending_index_path {
            Some((pending, path)) if pending == request_id && self.active_is(
                request_id,
                RequestKind::Index,
            ) => GuiModel {
                repository: Some(
                    RepositoryShown { path, id: repository_id, file_count, symbol_count, map },
                ),
                pending_index_path: None,
                status: WorkStatus::Indexed,
                panel: WorkspacePanel::Conversation,
                ..self.with_new_session(repository_id).ended(request_id, RequestOutcome::Completed)
            },
            _ => self,
        }
    }

    /// The source that is waited for.
    pub open spec fn on_source(
        self,
        request_id: RequestId,
        repository_id: RepositoryId,
        path: RepositoryPath,
        start_line: u32,
        end_line: u32,
        content: Seq<char>,
    ) -> GuiModel {
        match self.source {
            Some(source) if source.pending_request == Some(request_id) && source.repository_id
                == Some(repository_id) && source.path@ == path@ && source.start_line
                == start_line => GuiModel {
                source: Some(
                    SourceShown {
                        end_line,
                        content,
                        status: SourceStatus::Loaded,
                        message: None,
                        pending_request: None,
                        ..source
                    },
                ),
                ..self
            },
            _ => self,
        }
    }

    /// The request that a cancellation speaks of: the active one, also by the ID of
    /// the command that cancels it.
    pub open spec fn cancellation_target(self, request_id: RequestId) -> RequestId {
        match self.active {
            Some(active) if active.cancel_id == Some(request_id) => active.id,
            _ => request_id,
        }
    }

    /// The active request is cancelled.
    pub open spec fn on_cancelled(self, request_id: RequestId) -> GuiModel {
        let target = self.cancellation_target(request_id);
        if !self.is_active(target) || self.outcomes.contains_key(target.value) {
            self
        } else {
            let noted = GuiModel {
                outcomes: if request_id != target {
                    self.outcomes.insert(request_id.value, RequestOutcome::Cancelled)
                } else {
                    self.outcomes
                },
                turns: turn_ended(self.turns, target, TurnStatus::Cancelled),
                ..self
            };
            GuiModel { status: WorkStatus::Cancelled, ..noted.ended(target, RequestOutcome::Cancelled) }
        }
    }

    /// One task of a session that is loaded.
    pub open spec fn with_task(self, task: SessionTask) -> GuiModel {
        let outcome = task_outcome(task.status);
        GuiModel {
            activity: settled(
                with_trajectory(self.activity, task.request_id, task.trajectory@),
                task.request_id,
                outcome,
            ),
            usage: match task.answer {
                Some(answer) => match answer.usage {
                    Some(usage) => self.usage.insert(task.request_id.value, usage),
                    None => self.usage,
                },
                None => self.usage,
            },
            turns: self.turns.push(recorded_turn(task)),
            outcomes: self.outcomes.insert(task.request_id.value, outcome),
            ..self
        }
    }

    /// The tasks of a session that is loaded, in order.
    pub open spec fn with_tasks(self, tasks: Seq<SessionTask>) -> GuiModel
        decreases tasks.len(),
    {
        if tasks.len() == 0 {
            self
        } else {
            self.with_tasks(tasks.drop_last()).with_task(tasks.last())
        }
    }

    /// The last task is selected and its profile restored; nothing is loading any
    /// more.
    pub open spec fn with_last_selected(self) -> GuiModel {
        let shown = GuiModel {
            history_loading: false,
            history_open: false,
            error: None,
            ..self
        };
        if self.turns.len() == 0 {
            GuiModel { selected_task: None, status: WorkStatus::Indexed, ..shown }
        } else {
            GuiModel {
                selected_task: Some(self.turns.last().request_id),
                profile: self.turns.last().profile,
                status: WorkStatus::AnswerReady,
                ..shown
            }
        }
    }

    /// A session takes the place of the one that was shown.
    pub open spec fn with_session(
        self,
        session_id: SessionId,
        repository_id: RepositoryId,
    ) -> GuiModel {
        GuiModel {
            pending_session: None,
            session_id,
            session_repository_id: Some(repository_id),
            ..self.cleared()
        }
    }

    /// The session that is waited for. Its last task is selected, and the profile of
    /// that task restored.
    pub open spec fn on_session(self, request_id: RequestId, session: SessionContext) -> GuiModel {
        if self.pending_session != Some(request_id) {
            self
        } else {
            self.with_session(session.session_id, session.repository_id).with_tasks(
                session.tasks@,
            ).with_last_selected()
        }
    }

    /// The diagram that is waited for was opened.
    pub open spec fn on_diagram(self, request_id: RequestId, diagram_id: DiagramId) -> GuiModel {
        if self.pending_diagrams.contains_key(request_id.value)
            && self.pending_diagrams[request_id.value] == diagram_id {
            GuiModel {
                pending_diagrams: self.pending_diagrams.remove(request_id.value),
                diagram_messages: self.diagram_messages.insert(
                    diagram_id.value,
                    "Diagram opened in the default viewer."@,
                ),
                ..self
            }
        } else {
            self
        }
    }

    /// Whether an error belongs to the source that is waited for.
    pub open spec fn source_failed(self, request_id: RequestId) -> bool {
        self.source is Some && self.source->0.pending_request == Some(request_id)
    }

    /// An error that belongs to no request ends the active one.
    pub open spec fn on_general_error(self, notice: ErrorShown) -> GuiModel {
        match self.active {
            Some(active) => GuiModel {
                error: Some(notice),
                turns: turn_ended(self.turns, active.id, TurnStatus::Failed),
                activity: settled(self.activity, active.id, RequestOutcome::Failed),
                active: None,
                status: WorkStatus::Error,
                ..self
            },
            None => GuiModel { error: Some(notice), status: WorkStatus::Error, ..self },
        }
    }

    /// A cancellation failed: the request goes on.
    pub open spec fn on_failed_cancellation(self, notice: ErrorShown) -> GuiModel {
        let active = self.active->0;
        GuiModel {
            active: Some(ActiveRequest { cancel_id: None, ..active }),
            status: match active.kind {
                RequestKind::Index => WorkStatus::Indexing,
                RequestKind::Ask => WorkStatus::Thinking,
            },
            error: Some(notice),
            ..self
        }
    }

    /// The active request failed.
    pub open spec fn on_failed_request(self, request_id: RequestId, notice: ErrorShown) -> GuiModel {
        let noted = GuiModel {
            turns: turn_ended(self.turns, request_id, TurnStatus::Failed),
            ..self
        };
        GuiModel {
            status: WorkStatus::Error,
            error: Some(notice),
            ..noted.ended(request_id, RequestOutcome::Failed)
        }
    }

    /// An error of a request that is no source and no diagram.
    pub open spec fn on_request_error(self, request_id: RequestId, error: AppError) -> GuiModel {
        let history_failed = self.pending_history == Some(request_id);
        let session_failed = self.pending_session == Some(request_id);
        let waited = GuiModel {
            pending_history: if history_failed {
                None
            } else {
                self.pending_history
            },
            pending_session: if session_failed {
                None
            } else {
                self.pending_session
            },
            history_loading: self.history_loading && !history_failed && !session_failed,
            ..self
        };
        let notice = presented(error);
        if is_harmless(error.code@) && (self.is_active(request_id) || first_turn(
            self.turns,
            request_id,
        ) is Some) {
            GuiModel { notices: self.notices.push(notice), ..waited }
        } else if self.active is Some && self.active->0.cancel_id == Some(request_id) {
            waited.on_failed_cancellation(notice)
        } else if self.is_active(request_id) {
            waited.on_failed_request(request_id, notice)
        } else if history_failed || session_failed {
            GuiModel { error: Some(notice), ..waited }
        } else {
            waited
        }
    }

    /// An error.
    pub open spec fn on_error(self, request_id: Option<RequestId>, error: AppError) -> GuiModel {
        match request_id {
            None => self.on_general_error(presented(error)),
            Some(request_id) => if self.source_failed(request_id) {
                GuiModel {
                    source: Some(
                        SourceShown {
                            status: SourceStatus::Failed,
                            message: Some(error.message@),
                            pending_request: None,
                            ..self.source->0
                        },
                    ),
                    ..self
                }
            } else if self.pending_diagrams.contains_key(request_id.value) {
                let notice = presented(error);
                GuiModel {
                    pending_diagrams: self.pending_diagrams.remove(request_id.value),
                    diagram_messages: self.diagram_messages.insert(
                        self.pending_diagrams[request_id.value].value,
                        "Could not open diagram: "@ + notice.message,
                    ),
                    error: Some(notice),
                    ..self
                }
            } else {
                self.on_request_error(request_id, error)
            },
        }
    }

    /// What an event makes of what is shown.
    pub open spec fn reduced(self, event: AppEvent) -> GuiModel {
        match event {
            AppEvent::Progress { request_id, progress } => self.on_progress(request_id, progress),
            AppEvent::ToolCallStarted { request_id, call } => if self.is_active(request_id) {
                GuiModel {
                    activity: with_tool_call(self.activity, request_id, call.id, call.name@),
                    ..self
                }
            } else {
                self
            },
            AppEvent::ToolCallCompleted { request_id, output } => if self.is_active(request_id) {
                GuiModel {
                    activity: with_tool_result(
                        self.activity,
                        request_id,
                        output.call_id,
                        output.is_error,
                    ),
                    ..self
                }
            } else {
                self
            },
            AppEvent::EvidenceAdded { .. } => self,
            AppEvent::AnswerDelta { request_id, delta } => self.on_delta(request_id, delta@),
            AppEvent::AnswerCompleted { request_id, answer } => self.on_answer(request_id, answer),
            AppEvent::UsageUpdated { request_id, usage } => self.on_usage(request_id, usage),
            AppEvent::ModelCallRecorded { .. } => self,
            AppEvent::BudgetUpdated { .. } => self,
            AppEvent::BudgetExceeded { .. } => self,
            AppEvent::TaskTraceRecorded { .. } => self,
            AppEvent::IndexCompleted {
                request_id,
                repository_id,
                file_count,
                symbol_count,
                repository_map,
            } => self.on_indexed(
                request_id,
                repository_id,
                file_count,
                symbol_count,
                repository_map,
            ),
            AppEvent::SourceLoaded {
                request_id,
                repository_id,
                path,
                start_line,
                end_line,
                content,
            } => self.on_source(request_id, repository_id, path, start_line, end_line, content@),
            AppEvent::Cancelled { request_id } => self.on_cancelled(request_id),
            AppEvent::SessionsListed { request_id, sessions } => if self.pending_history == Some(
                request_id,
            ) {
                GuiModel {
                    pending_history: None,
                    sessions: sessions@,
                    history_loading: false,
                    ..self
                }
            } else {
                self
            },
            AppEvent::SessionLoaded { request_id, session } => self.on_session(
                request_id,
                session,
            ),
            AppEvent::DiagramOpened { request_id, diagram_id } => self.on_diagram(
                request_id,
                diagram_id,
            ),
            AppEvent::Error { request_id, error } => self.on_error(request_id, error),
        }
    }
}

/// The request that an event belongs to.
pub open spec fn event_request(event: AppEvent) -> Option<RequestId> {
    match event {
        AppEvent::Progress { request_id, .. } => Some(request_id),
        AppEvent::ToolCallStarted { request_id, .. } => Some(request_id),
        AppEvent::ToolCallCompleted { request_id, .. } => Some(request_id),
        AppEvent::EvidenceAdded { request_id, .. } => Some(request_id),
        AppEvent::AnswerDelta { request_id, .. } => Some(request_id),
        AppEvent::AnswerCompleted { request_id, .. } => Some(request_id),
        AppEvent::UsageUpdated { request_id, .. } => Some(request_id),
        AppEvent::ModelCallRecorded { request_id, .. } => Some(request_id),
        AppEvent::BudgetUpdated { request_id, .. } => Some(request_id),
        AppEvent::BudgetExceeded { request_id, .. } => Some(request_id),
        AppEvent::TaskTraceRecorded { request_id, .. } => Some(request_id),
        AppEvent::IndexCompleted { request_id, .. } => Some(request_id),
        AppEvent::SourceLoaded { request_id, .. } => Some(request_id),
        AppEvent::Cancelled { request_id } => Some(request_id),
        AppEvent::SessionsListed { request_id, .. } => Some(request_id),
        AppEvent::SessionLoaded { request_id, .. } => Some(request_id),
        AppEvent::DiagramOpened { request_id, .. } => Some(request_id),
        AppEvent::Error { request_id, .. } => request_id,
    }
}

impl GuiModel {
    /// Whether a request is active, being cancelled, waited for or shown as a turn.
    pub open spec fn knows(self, request_id: RequestId) -> bool {
        ||| self.is_active(request_id)
        ||| self.active is Some && self.active->0.cancel_id == Some(request_id)
        ||| self.source_failed(request_id)
        ||| self.pending_diagrams.contains_key(request_id.value)
        ||| self.pending_history == Some(request_id)
        ||| self.pending_session == Some(request_id)
        ||| first_turn(self.turns, request_id) is Some
    }

    /// No request has more progress items than it may keep.
    pub open spec fn progress_is_bounded(self) -> bool {
        forall|request_id: RequestId| #[trigger]
            progress_count(self.activity, request_id) <= MAX_PROGRESS_ITEMS_PER_REQUEST
    }
}

proof fn lemma_first_turn_missing(turns: Seq<TurnShown>, request_id: RequestId, index: int)
    requires
        first_turn(turns, request_id) is None,
        0 <= index < turns.len(),
    ensures
        turns[index].request_id != request_id,
    decreases turns.len(),
{
    if index < turns.len() - 1 {
        lemma_first_turn_missing(turns.drop_last(), request_id, index);
    }
}

proof fn lemma_first_turn_found(turns: Seq<TurnShown>, request_id: RequestId)
    ensures
        first_turn(turns, request_id) matches Some(index) ==> 0 <= index < turns.len()
            && turns[index].request_id == request_id,
    decreases turns.len(),
{
    if turns.len() > 0 {
        lemma_first_turn_found(turns.drop_last(), request_id);
    }
}

proof fn lemma_first_turn_same(left: Seq<TurnShown>, right: Seq<TurnShown>, request_id: RequestId)
    requires
        left.len() == right.len(),
        forall|i: int|
            0 <= i < left.len() ==> #[trigger] left[i].request_id == #[trigger] right[i].request_id,
    ensures
        first_turn(left, request_id) == first_turn(right, request_id),
    decreases left.len(),
{
    if left.len() > 0 {
        lemma_first_turn_same(left.drop_last(), right.drop_last(), request_id);
    }
}

/// An event of a request that nothing waits for changes nothing.
pub proof fn law_stale_events_are_ignored(model: GuiModel, event: AppEvent)
    requires
        event_request(event) is Some,
        !model.knows(event_request(event)->0),
    ensures
        model.reduced(event) == model,
{
    let request_id = event_request(event)->0;
    match event {
        AppEvent::UsageUpdated { .. } => {
            if model.usage_is_wanted(request_id) {
                let index = choose|i: int|
                    #![trigger model.turns[i]]
                    0 <= i < model.turns.len() && model.turns[i].request_id == request_id
                        && model.turns[i].answer is Some;
                lemma_first_turn_missing(model.turns, request_id, index);
            }
        },
        _ => {},
    }
}

/// Candidate evidence is never shown: only a completed answer carries evidence.
pub proof fn law_candidate_evidence_changes_nothing(
    model: GuiModel,
    request_id: RequestId,
    evidence: Evidence,
)
    ensures
        model.reduced(AppEvent::EvidenceAdded { request_id, evidence }) == model,
{
}

/// Nothing of a request that ended is still running.
pub proof fn law_ended_request_is_at_rest(
    model: GuiModel,
    request_id: RequestId,
    outcome: RequestOutcome,
    index: int,
)
    requires
        0 <= index < model.activity.len(),
        model.activity[index].request_id == request_id,
    ensures
        model.ended(request_id, outcome).activity[index].status != ActivityStatus::Running,
        !model.ended(request_id, outcome).is_active(request_id),
{
}

/// The completed answer of a question is the one that is shown.
pub proof fn law_completed_answer_is_shown(
    model: GuiModel,
    request_id: RequestId,
    answer: AgentAnswer,
)
    requires
        model.active_is(request_id, RequestKind::Ask),
        !model.outcomes.contains_key(request_id.value),
        first_turn(model.turns, request_id) is Some,
    ensures
        model.reduced(AppEvent::AnswerCompleted { request_id, answer }).shown_answer() == Some(
            AgentAnswer { usage: model.answer_usage(request_id, answer), ..answer },
        ),
        model.reduced(AppEvent::AnswerCompleted { request_id, answer }).active is None,
{
    let after = model.on_answer(request_id, answer);
    lemma_first_turn_found(model.turns, request_id);
    lemma_first_turn_same(model.turns, after.turns, request_id);
}

/// What is known of the usage of a request never shrinks while its session is shown.
pub proof fn law_usage_never_shrinks(model: GuiModel, event: AppEvent, request_id: RequestId)
    requires
        event is UsageUpdated || event is AnswerCompleted,
        usage_of(model.usage, request_id) is Some,
    ensures
        usage_of(model.reduced(event).usage, request_id) is Some,
        usage_of(model.reduced(event).usage, request_id)->0.tokens.total_tokens >= usage_of(
            model.usage,
            request_id,
        )->0.tokens.total_tokens,
{
}

/// A request that is cancelled or fails leaves the repository, the draft of a
/// question and the activity of other requests as they are.
pub proof fn law_unfinished_request_keeps_session(model: GuiModel, event: AppEvent)
    requires
        event is Cancelled || event is Error,
    ensures
        model.reduced(event).repository == model.repository,
        model.reduced(event).question_input == model.question_input,
        model.reduced(event).session_id == model.session_id,
        model.reduced(event).turns.len() == model.turns.len(),
        model.reduced(event).activity.len() == model.activity.len(),
        forall|i: int|
            0 <= i < model.activity.len() && !model.is_active(model.activity[i].request_id)
                ==> #[trigger] model.reduced(event).activity[i] == model.activity[i],
{
    if model.active is Some {
        lemma_first_turn_found(model.turns, model.active->0.id);
    }
}

/// A cancellation is acknowledged by the ID of the request as well as by the ID of
/// the command that cancels it.
pub proof fn law_cancellation_is_acknowledged(model: GuiModel, request_id: RequestId)
    requires
        model.active matches Some(active) && (active.id == request_id || active.cancel_id == Some(
            request_id,
        )) && !model.outcomes.contains_key(active.id.value),
    ensures
        model.reduced(AppEvent::Cancelled { request_id }).active is None,
        model.reduced(AppEvent::Cancelled { request_id }).status == WorkStatus::Cancelled,
        model.reduced(AppEvent::Cancelled { request_id }).outcomes[model.active->0.id.value]
            == RequestOutcome::Cancelled,
{
}

/// Two requests of one window never share the components of their IDs.
pub proof fn law_requests_are_told_apart(
    earlier: GuiModel,
    first: Seq<char>,
    later: GuiModel,
    second: Seq<char>,
)
    requires
        earlier.next_request < later.next_request,
    ensures
        earlier.request_parts(first) != later.request_parts(second),
{
    if earlier.request_parts(first) == later.request_parts(second) {
        assert(earlier.request_parts(first)[3] == later.request_parts(second)[3]);
        text::law_decimal_is_injective(earlier.next_request as nat, later.next_request as nat);
    }
}

proof fn lemma_progress_count_same(
    left: Seq<ActivityShown>,
    right: Seq<ActivityShown>,
    request_id: RequestId,
)
    requires
        left.len() == right.len(),
        forall|i: int|
            0 <= i < left.len() ==> is_progress(#[trigger] left[i], request_id) == is_progress(
                #[trigger] right[i],
                request_id,
            ),
    ensures
        progress_count(left, request_id) == progress_count(right, request_id),
    decreases left.len(),
{
    if left.len() > 0 {
        lemma_progress_count_same(left.drop_last(), right.drop_last(), request_id);
    }
}

proof fn lemma_progress_count_remove(
    activity: Seq<ActivityShown>,
    index: int,
    request_id: RequestId,
)
    requires
        0 <= index < activity.len(),
    ensures
        progress_count(activity, request_id) == progress_count(
            activity.remove(index),
            request_id,
        ) + (if is_progress(activity[index], request_id) {
            1nat
        } else {
            0nat
        }),
    decreases activity.len(),
{
    if index == activity.len() - 1 {
        assert(activity.remove(index) =~= activity.drop_last());
    } else {
        assert(activity.remove(index).drop_last() =~= activity.drop_last().remove(index));
        lemma_progress_count_remove(activity.drop_last(), index, request_id);
    }
}

proof fn lemma_first_progress_found(activity: Seq<ActivityShown>, request_id: RequestId)
    requires
        progress_count(activity, request_id) > 0,
    ensures
        first_progress(activity, request_id) matches Some(index) && 0 <= index < activity.len()
            && is_progress(activity[index], request_id),
    decreases activity.len(),
{
    if activity.len() > 0 && progress_count(activity.drop_last(), request_id) > 0 {
        lemma_first_progress_found(activity.drop_last(), request_id);
    } else if activity.len() > 0 {
        lemma_first_progress_missing(activity.drop_last(), request_id);
    }
}

proof fn lemma_first_progress_missing(activity: Seq<ActivityShown>, request_id: RequestId)
    requires
        progress_count(activity, request_id) == 0,
    ensures
        first_progress(activity, request_id) is None,
    decreases activity.len(),
{
    if activity.len() > 0 {
        lemma_first_progress_missing(activity.drop_last(), request_id);
    }
}

pub proof fn lemma_last_phase_found(
    activity: Seq<ActivityShown>,
    request_id: RequestId,
    phase: ProgressPhase,
)
    ensures
        last_phase(activity, request_id, phase) matches Some(index) ==> 0 <= index
            < activity.len() && is_progress(activity[index], request_id),
    decreases activity.len(),
{
    if activity.len() > 0 {
        lemma_last_phase_found(activity.drop_last(), request_id, phase);
    }
}

proof fn lemma_last_tool_found(
    activity: Seq<ActivityShown>,
    request_id: RequestId,
    call_id: ToolCallId,
)
    ensures
        last_tool(activity, request_id, call_id) matches Some(index) ==> 0 <= index
            < activity.len(),
    decreases activity.len(),
{
    if activity.len() > 0 {
        lemma_last_tool_found(activity.drop_last(), request_id, call_id);
    }
}

/// Pushing one item.
proof fn lemma_progress_count_push(
    activity: Seq<ActivityShown>,
    item: ActivityShown,
    request_id: RequestId,
)
    ensures
        progress_count(activity.push(item), request_id) == progress_count(activity, request_id)
            + (if is_progress(item, request_id) {
            1nat
        } else {
            0nat
        }),
{
    assert(activity.push(item).drop_last() =~= activity);
}

/// A step of a trajectory keeps the number of progress items of every request
/// within the bound.
proof fn lemma_recorded_is_bounded(
    activity: Seq<ActivityShown>,
    owner: RequestId,
    event: WorkflowEvent,
    coalesce: bool,
    request_id: RequestId,
)
    requires
        progress_count(activity, request_id) <= MAX_PROGRESS_ITEMS_PER_REQUEST,
    ensures
        progress_count(with_recorded(activity, owner, event), request_id)
            <= MAX_PROGRESS_ITEMS_PER_REQUEST,
        event matches WorkflowEvent::Progress(progress) ==> progress_count(
            with_progress(activity, owner, progress, coalesce),
            request_id,
        ) <= MAX_PROGRESS_ITEMS_PER_REQUEST,
{
    match event {
        WorkflowEvent::Progress(progress) => {
            lemma_progress_is_bounded(activity, owner, progress, true, request_id);
            lemma_progress_is_bounded(activity, owner, progress, coalesce, request_id);
        },
        WorkflowEvent::ToolCallStarted(call) => {
            let after = with_tool_call(activity, owner, call.id, call.name@);
            lemma_progress_count_push(activity, after.last(), request_id);
        },
        WorkflowEvent::ToolCallCompleted { call_id, is_error, .. } => {
            lemma_tool_result_is_bounded(activity, owner, call_id, is_error, request_id);
        },
        _ => {},
    }
}

proof fn lemma_tool_result_is_bounded(
    activity: Seq<ActivityShown>,
    owner: RequestId,
    call_id: ToolCallId,
    failed: bool,
    request_id: RequestId,
)
    ensures
        progress_count(with_tool_result(activity, owner, call_id, failed), request_id)
            == progress_count(activity, request_id),
{
    let after = with_tool_result(activity, owner, call_id, failed);
    lemma_last_tool_found(activity, owner, call_id);
    match last_tool(activity, owner, call_id) {
        Some(_) => {
            lemma_progress_count_same(activity, after, request_id);
        },
        None => {
            lemma_progress_count_push(activity, after.last(), request_id);
        },
    }
}

proof fn lemma_progress_is_bounded(
    activity: Seq<ActivityShown>,
    owner: RequestId,
    progress: Progress,
    coalesce: bool,
    request_id: RequestId,
)
    requires
        progress_count(activity, request_id) <= MAX_PROGRESS_ITEMS_PER_REQUEST,
    ensures
        progress_count(with_progress(activity, owner, progress, coalesce), request_id)
            <= MAX_PROGRESS_ITEMS_PER_REQUEST,
{
    let after = with_progress(activity, owner, progress, coalesce);
    lemma_last_phase_found(activity, owner, progress.phase);
    if after.len() == activity.len() && last_phase(activity, owner, progress.phase) is Some && (
    coalesce && (progress.phase == ProgressPhase::Parsing || progress.phase
        == ProgressPhase::Indexing)) {
        lemma_progress_count_same(activity, after, request_id);
    } else if progress_count(activity, owner) >= MAX_PROGRESS_ITEMS_PER_REQUEST {
        lemma_first_progress_found(activity, owner);
        let index = first_progress(activity, owner)->0;
        lemma_progress_count_remove(activity, index, request_id);
        lemma_progress_count_push(activity.remove(index), after.last(), request_id);
    } else {
        lemma_progress_count_push(activity, after.last(), request_id);
    }
}

proof fn lemma_trajectory_is_bounded(
    activity: Seq<ActivityShown>,
    owner: RequestId,
    events: Seq<WorkflowEvent>,
    request_id: RequestId,
)
    requires
        progress_count(activity, request_id) <= MAX_PROGRESS_ITEMS_PER_REQUEST,
    ensures
        progress_count(with_trajectory(activity, owner, events), request_id)
            <= MAX_PROGRESS_ITEMS_PER_REQUEST,
    decreases events.len(),
{
    if events.len() > 0 {
        lemma_trajectory_is_bounded(activity, owner, events.drop_last(), request_id);
        lemma_recorded_is_bounded(
            with_trajectory(activity, owner, events.drop_last()),
            owner,
            events.last(),
            true,
            request_id,
        );
    }
}

proof fn lemma_tasks_are_bounded(model: GuiModel, tasks: Seq<SessionTask>, request_id: RequestId)
    requires
        progress_count(model.activity, request_id) <= MAX_PROGRESS_ITEMS_PER_REQUEST,
    ensures
        progress_count(model.with_tasks(tasks).activity, request_id)
            <= MAX_PROGRESS_ITEMS_PER_REQUEST,
    decreases tasks.len(),
{
    if tasks.len() > 0 {
        let before = model.with_tasks(tasks.drop_last());
        let task = tasks.last();
        lemma_tasks_are_bounded(model, tasks.drop_last(), request_id);
        lemma_trajectory_is_bounded(
            before.activity,
            task.request_id,
            task.trajectory@,
            request_id,
        );
        let recorded = with_trajectory(before.activity, task.request_id, task.trajectory@);
        lemma_progress_count_same(
            recorded,
            settled(recorded, task.request_id, task_outcome(task.status)),
            request_id,
        );
    }
}

/// However many events arrive, no request keeps more progress items than it may.
pub proof fn law_progress_stays_bounded(model: GuiModel, event: AppEvent)
    requires
        model.progress_is_bounded(),
    ensures
        model.reduced(event).progress_is_bounded(),
{
    let after = model.reduced(event);
    assert forall|request_id: RequestId| #[trigger]
        progress_count(after.activity, request_id) <= MAX_PROGRESS_ITEMS_PER_REQUEST by {
        assert(progress_count(model.activity, request_id) <= MAX_PROGRESS_ITEMS_PER_REQUEST);
        match event {
            AppEvent::Progress { request_id: owner, progress } => {
                if model.is_active(owner) {
                    lemma_progress_is_bounded(
                        model.activity,
                        owner,
                        progress,
                        model.active_is(owner, RequestKind::Index),
                        request_id,
                    );
                }
            },
            AppEvent::ToolCallStarted { .. } => {
                if after.activity.len() > model.activity.len() {
                    lemma_progress_count_push(model.activity, after.activity.last(), request_id);
                }
            },
            AppEvent::ToolCallCompleted { request_id: owner, output } => {
                lemma_tool_result_is_bounded(
                    model.activity,
                    owner,
                    output.call_id,
                    output.is_error,
                    request_id,
                );
            },
            AppEvent::SessionLoaded { request_id: owner, session } => {
                if model.pending_session == Some(owner) {
                    let base = model.with_session(session.session_id, session.repository_id);
                    lemma_tasks_are_bounded(base, session.tasks@, request_id);
                }
            },
            AppEvent::IndexCompleted { .. } => {
                if after.activity.len() == model.activity.len() {
                    lemma_progress_count_same(model.activity, after.activity, request_id);
                }
            },
            _ => {
                lemma_progress_count_same(model.activity, after.activity, request_id);
            },
        }
    }
}

/// The items that are no progress of a request, in their order.
pub open spec fn apart_from_progress(
    activity: Seq<ActivityShown>,
    request_id: RequestId,
) -> Seq<ActivityShown>
    decreases activity.len(),
{
    if activity.len() == 0 {
        activity
    } else if is_progress(activity.last(), request_id) {
        apart_from_progress(activity.drop_last(), request_id)
    } else {
        apart_from_progress(activity.drop_last(), request_id).push(activity.last())
    }
}

proof fn lemma_apart_updated(
    activity: Seq<ActivityShown>,
    request_id: RequestId,
    index: int,
    item: ActivityShown,
)
    requires
        0 <= index < activity.len(),
        is_progress(activity[index], request_id),
        is_progress(item, request_id),
    ensures
        apart_from_progress(activity.update(index, item), request_id) == apart_from_progress(
            activity,
            request_id,
        ),
        apart_from_progress(activity.remove(index), request_id) == apart_from_progress(
            activity,
            request_id,
        ),
    decreases activity.len(),
{
    let updated = activity.update(index, item);
    let rest = activity.drop_last();
    if index == activity.len() - 1 {
        assert(updated.drop_last() =~= rest);
        assert(activity.remove(index) =~= rest);
    } else {
        assert(updated.drop_last() =~= rest.update(index, item));
        assert(activity.remove(index).drop_last() =~= rest.remove(index));
        lemma_apart_updated(rest, request_id, index, item);
    }
}

/// A progress report touches nothing but the progress of its own request: the items
/// of other requests, and the items that are no progress, are as they were and in
/// the order they had. No request then has more progress items than it may, if none
/// had before.
pub proof fn law_progress_leaves_the_rest(
    activity: Seq<ActivityShown>,
    owner: RequestId,
    progress: Progress,
    coalesce: bool,
    request_id: RequestId,
)
    ensures
        apart_from_progress(with_progress(activity, owner, progress, coalesce), owner)
            == apart_from_progress(activity, owner),
        progress_count(activity, request_id) <= MAX_PROGRESS_ITEMS_PER_REQUEST ==> progress_count(
            with_progress(activity, owner, progress, coalesce),
            request_id,
        ) <= MAX_PROGRESS_ITEMS_PER_REQUEST,
{
    let after = with_progress(activity, owner, progress, coalesce);
    if progress_count(activity, request_id) <= MAX_PROGRESS_ITEMS_PER_REQUEST {
        lemma_progress_is_bounded(activity, owner, progress, coalesce, request_id);
    }
    lemma_last_phase_found(activity, owner, progress.phase);
    let merge = coalesce && (progress.phase == ProgressPhase::Parsing || progress.phase
        == ProgressPhase::Indexing);
    if merge && last_phase(activity, owner, progress.phase) is Some {
        let index = last_phase(activity, owner, progress.phase)->0;
        lemma_apart_updated(activity, owner, index, after[index]);
    } else if progress_count(activity, owner) >= MAX_PROGRESS_ITEMS_PER_REQUEST {
        lemma_first_progress_found(activity, owner);
        let index = first_progress(activity, owner)->0;
        lemma_apart_updated(activity, owner, index, activity[index]);
        assert(after.drop_last() =~= activity.remove(index));
    } else {
        assert(after.drop_last() =~= activity);
    }
}

/// Whether an item is progress of a request in a phase.
pub open spec fn is_phase(item: ActivityShown, request_id: RequestId, phase: ProgressPhase) -> bool {
    item.request_id == request_id && item.progress_phase == Some(phase)
}

proof fn lemma_last_phase(
    activity: Seq<ActivityShown>,
    request_id: RequestId,
    phase: ProgressPhase,
    index: int,
)
    requires
        0 <= index < activity.len(),
        is_phase(activity[index], request_id, phase),
        forall|k: int|
            index < k < activity.len() ==> !is_phase(#[trigger] activity[k], request_id, phase),
    ensures
        last_phase(activity, request_id, phase) == Some(index),
    decreases activity.len(),
{
    if index < activity.len() - 1 {
        assert(!is_phase(activity[activity.len() - 1], request_id, phase));
        lemma_last_phase(activity.drop_last(), request_id, phase, index);
    }
}

/// Reports on single files replace each other where they are merged: the last item
/// of the request and phase shows the new report, and nothing else changes.
pub proof fn law_file_progress_is_merged(
    activity: Seq<ActivityShown>,
    owner: RequestId,
    progress: Progress,
    index: int,
)
    requires
        progress.phase == ProgressPhase::Parsing || progress.phase == ProgressPhase::Indexing,
        0 <= index < activity.len(),
        is_phase(activity[index], owner, progress.phase),
        forall|k: int|
            index < k < activity.len() ==> !is_phase(#[trigger] activity[k], owner, progress.phase),
    ensures
        ({
            let after = with_progress(activity, owner, progress, true);
            &&& after.len() == activity.len()
            &&& after[index].title == progress.message@
            &&& after[index].detail == progress_detail(progress)
            &&& is_phase(after[index], owner, progress.phase)
            &&& forall|k: int|
                0 <= k < activity.len() && k != index ==> #[trigger] after[k] == activity[k]
        }),
{
    lemma_last_phase(activity, owner, progress.phase, index);
}

/// Places in ascending order.
pub open spec fn ascending_places(places: Seq<int>) -> bool {
    forall|i: int, j: int| 0 <= i < j < places.len() ==> #[trigger] places[i] < #[trigger] places[j]
}

/// The evidence that is listed is evidence of the answer, each record at most once and
/// in the order of the answer. Without a selected claim it is all of it. While a claim
/// is selected, a record is listed if and only if a claim with the selected ID has the
/// ID of the record among its evidence IDs.
pub proof fn law_listed_evidence_is_what_the_claim_cites(
    evidence: Seq<Evidence>,
    claims: Seq<Claim>,
    selected: Option<ClaimId>,
) -> (places: Seq<int>)
    ensures
        places.len() == listed_evidence(evidence, claims, selected).len(),
        ascending_places(places),
        forall|k: int|
            0 <= k < places.len() ==> 0 <= #[trigger] places[k] < evidence.len()
                && listed_evidence(evidence, claims, selected)[k] == evidence[places[k]],
        selected is None ==> listed_evidence(evidence, claims, selected) == evidence,
        forall|i: int|
            0 <= i < evidence.len() && selected is Some ==> (#[trigger] places.contains(i) <==> (
            exists|c: int, e: int|
                #![trigger claims[c].evidence_ids@[e]]
                0 <= c < claims.len() && claims[c].id == selected->0 && 0 <= e
                    < claims[c].evidence_ids@.len() && claims[c].evidence_ids@[e]
                    == evidence[i].id)),
    decreases evidence.len(),
{
    if evidence.len() == 0 {
        assert(listed_evidence(evidence, claims, selected) =~= evidence);
        Seq::empty()
    } else {
        let last = evidence.len() - 1;
        let rest = law_listed_evidence_is_what_the_claim_cites(
            evidence.drop_last(),
            claims,
            selected,
        );
        let id = evidence[last].id;
        let cited = selected is Some && exists|c: int, e: int|
            #![trigger claims[c].evidence_ids@[e]]
            0 <= c < claims.len() && claims[c].id == selected->0 && 0 <= e
                < claims[c].evidence_ids@.len() && claims[c].evidence_ids@[e] == id;
        assert(selected is Some ==> claim_cites(claims, selected->0, id) == cited) by {
            if selected is Some && claim_cites(claims, selected->0, id) {
                let c = choose|c: int|
                    #![trigger claims[c]]
                    0 <= c < claims.len() && claims[c].id == selected->0
                        && claims[c].evidence_ids@.contains(id);
                let e = choose|e: int|
                    0 <= e < claims[c].evidence_ids@.len() && claims[c].evidence_ids@[e] == id;
                assert(claims[c].evidence_ids@[e] == id);
            }
        }
        let places = if selected is None || cited {
            rest.push(last)
        } else {
            rest
        };
        assert forall|i: int| 0 <= i < evidence.len() && selected is Some implies (
        #[trigger] places.contains(i) <==> (exists|c: int, e: int|
            #![trigger claims[c].evidence_ids@[e]]
            0 <= c < claims.len() && claims[c].id == selected->0 && 0 <= e
                < claims[c].evidence_ids@.len() && claims[c].evidence_ids@[e]
                == evidence[i].id)) by {
            if i < last {
                assert(evidence.drop_last()[i] == evidence[i]);
                assert(places.contains(i) == rest.contains(i)) by {
                    if rest.contains(i) {
                        let k = choose|k: int| 0 <= k < rest.len() && rest[k] == i;
                        assert(places[k] == i);
                    }
                    if places.contains(i) {
                        let k = choose|k: int| 0 <= k < places.len() && places[k] == i;
                        assert(rest[k] == i);
                    }
                }
            } else if cited {
                assert(places[places.len() - 1] == last);
            } else if places.contains(last) {
                let k = choose|k: int| 0 <= k < places.len() && places[k] == last;
                assert(rest[k] == last);
            }
        }
        if selected is None {
            assert(listed_evidence(evidence, claims, selected) =~= evidence);
        }
        places
    }
}

} // verus!
