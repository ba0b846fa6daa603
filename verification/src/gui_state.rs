//! Pure presentation state of the native interface, and its reducer.
use crate::app::{AppCommand, AppError, AppEvent, Progress, ProgressPhase, RepositoryMap};
use crate::evidence::{AgentAnswer, Claim, Evidence, SuggestedAction};
use crate::explanation::ExplanationProfile;
use crate::gui_model;
use crate::gui_model::{
    ActiveRequest, ActivityShown, ActivityStatus, ErrorShown, GuiModel, RepositoryShown,
    RequestKind, RequestOutcome, SourceShown, SourceStatus, TurnShown, TurnStatus, WorkStatus,
    WorkspacePanel, MAX_PROGRESS_ITEMS_PER_REQUEST,
};
use crate::id::{
    ClaimId, DiagramId, EvidenceId, RepositoryId, RequestId, SessionId, SymbolId, ToolCallId,
};
use crate::id;
use crate::ir::TargetResolution;
use crate::model::ModelUsage;
use crate::path::RepositoryPath;
use crate::session::{
    SessionContext, SessionSummary, SessionTask, SessionTaskStatus, WorkflowEvent,
};
use crate::text;
use std::collections::BTreeMap;
use vstd::prelude::*;

verus! {

broadcast use vstd::std_specs::btree::group_btree_axioms;

#[derive(Debug, Clone, PartialEq, Eq)]
pub struct RepositoryView {
    pub path: String,
    pub id: RepositoryId,
    pub file_count: u64,
    pub symbol_count: u64,
    pub map: RepositoryMap,
}

impl View for RepositoryView {
    type V = RepositoryShown;

    open spec fn view(&self) -> RepositoryShown {
        RepositoryShown {
            path: self.path@,
            id: self.id,
            file_count: self.file_count,
            symbol_count: self.symbol_count,
            map: self.map,
        }
    }
}

#[derive(Debug, Clone, PartialEq, Eq)]
pub struct TurnView {
    pub request_id: RequestId,
    pub question: String,
    pub profile: ExplanationProfile,
    pub answer_text: String,
    pub answer: Option<AgentAnswer>,
    pub status: TurnStatus,
}

impl View for TurnView {
    type V = TurnShown;

    open spec fn view(&self) -> TurnShown {
        TurnShown {
            request_id: self.request_id,
            question: self.question@,
            profile: self.profile,
            answer_text: self.answer_text@,
            answer: self.answer,
            status: self.status,
        }
    }
}

#[derive(Debug, Clone, PartialEq, Eq)]
pub struct ActivityItem {
    pub request_id: RequestId,
    pub call_id: Option<ToolCallId>,
    pub title: String,
    pub detail: Option<String>,
    pub status: ActivityStatus,
    pub progress_phase: Option<ProgressPhase>,
}

impl View for ActivityItem {
    type V = ActivityShown;

    open spec fn view(&self) -> ActivityShown {
        ActivityShown {
            request_id: self.request_id,
            call_id: self.call_id,
            title: self.title@,
            detail: optional_text(self.detail),
            status: self.status,
            progress_phase: self.progress_phase,
        }
    }
}

#[derive(Debug, Clone, PartialEq, Eq)]
pub struct UiError {
    pub code: String,
    pub message: String,
    pub retryable: bool,
}

impl View for UiError {
    type V = ErrorShown;

    open spec fn view(&self) -> ErrorShown {
        ErrorShown { code: self.code@, message: self.message@, retryable: self.retryable }
    }
}

#[derive(Debug, Clone, PartialEq, Eq)]
pub struct SourceView {
    pub evidence_id: EvidenceId,
    pub path: RepositoryPath,
    pub start_line: u32,
    pub end_line: u32,
    pub content: String,
    pub status: SourceStatus,
    pub message: Option<String>,
    pub pending_request: Option<RequestId>,
    pub repository_id: Option<RepositoryId>,
}

impl View for SourceView {
    type V = SourceShown;

    open spec fn view(&self) -> SourceShown {
        SourceShown {
            evidence_id: self.evidence_id,
            path: self.path,
            start_line: self.start_line,
            end_line: self.end_line,
            content: self.content@,
            status: self.status,
            message: optional_text(self.message),
            pending_request: self.pending_request,
            repository_id: self.repository_id,
        }
    }
}

/// Pure presentation state and reducer for the native GUI. Tables are keyed by the
/// values of IDs.
#[derive(Debug, Clone)]
pub struct GuiState {
    pub namespace: String,
    pub next_request: u64,
    pub next_session: u64,
    pub repository_input: String,
    pub question_input: String,
    pub profile: ExplanationProfile,
    pub repository: Option<RepositoryView>,
    pub status: WorkStatus,
    pub panel: WorkspacePanel,
    pub turns: Vec<TurnView>,
    pub selected_task: Option<RequestId>,
    pub selected_claim: Option<ClaimId>,
    pub selected_evidence: Option<EvidenceId>,
    pub source: Option<SourceView>,
    pub activity: Vec<ActivityItem>,
    pub activity_open: bool,
    pub history_open: bool,
    pub history_loading: bool,
    pub sessions: Vec<SessionSummary>,
    pub session_id: SessionId,
    pub session_repository_id: Option<RepositoryId>,
    pub error: Option<UiError>,
    pub notices: Vec<UiError>,
    pub diagram_messages: BTreeMap<u128, String>,
    pub active: Option<ActiveRequest>,
    pub outcomes: BTreeMap<u128, RequestOutcome>,
    pub pending_index_path: Option<(RequestId, String)>,
    pub pending_history: Option<RequestId>,
    pub pending_session: Option<RequestId>,
    pub pending_diagrams: BTreeMap<u128, DiagramId>,
    pub usage: BTreeMap<u128, ModelUsage>,
}

/// An optional text.
pub open spec fn optional_text(value: Option<String>) -> Option<Seq<char>> {
    match value {
        Some(text) => Some(text@),
        None => None,
    }
}

pub open spec fn turns_shown(turns: Seq<TurnView>) -> Seq<TurnShown> {
    turns.map_values(|turn: TurnView| turn@)
}

pub open spec fn activity_shown(activity: Seq<ActivityItem>) -> Seq<ActivityShown> {
    activity.map_values(|item: ActivityItem| item@)
}

pub open spec fn notices_shown(notices: Seq<UiError>) -> Seq<ErrorShown> {
    notices.map_values(|notice: UiError| notice@)
}

pub open spec fn texts_shown(texts: Map<u128, String>) -> Map<u128, Seq<char>> {
    texts.map_values(|text: String| text@)
}

impl View for GuiState {
    type V = GuiModel;

    open spec fn view(&self) -> GuiModel {
        GuiModel {
            namespace: self.namespace@,
            next_request: self.next_request,
            next_session: self.next_session,
            repository_input: self.repository_input@,
            question_input: self.question_input@,
            profile: self.profile,
            repository: match self.repository {
                Some(repository) => Some(repository@),
                None => None,
            },
            status: self.status,
            panel: self.panel,
            turns: turns_shown(self.turns@),
            selected_task: self.selected_task,
            selected_claim: self.selected_claim,
            selected_evidence: self.selected_evidence,
            source: match self.source {
                Some(source) => Some(source@),
                None => None,
            },
            activity: activity_shown(self.activity@),
            activity_open: self.activity_open,
            history_open: self.history_open,
            history_loading: self.history_loading,
            sessions: self.sessions@,
            session_id: self.session_id,
            session_repository_id: self.session_repository_id,
            error: match self.error {
                Some(error) => Some(error@),
                None => None,
            },
            notices: notices_shown(self.notices@),
            diagram_messages: texts_shown(self.diagram_messages@),
            active: self.active,
            outcomes: self.outcomes@,
            pending_index_path: match self.pending_index_path {
                Some((request_id, path)) => Some((request_id, path@)),
                None => None,
            },
            pending_history: self.pending_history,
            pending_session: self.pending_session,
            pending_diagrams: self.pending_diagrams@,
            usage: self.usage@,
        }
    }
}

fn find_turn(turns: &Vec<TurnView>, request_id: RequestId) -> (found: Option<usize>)
    ensures
        match found {
            Some(index) => index < turns@.len() && gui_model::first_turn(
                turns_shown(turns@),
                request_id,
            ) == Some(index as int) && turns@[index as int].request_id == request_id,
            None => gui_model::first_turn(turns_shown(turns@), request_id) is None,
        },
{
    let mut index: usize = 0;
    while index < turns.len()
        invariant
            index <= turns@.len(),
            gui_model::first_turn(turns_shown(turns@).take(index as int), request_id) is None,
        decreases turns@.len() - index,
    {
        let ghost shown = turns_shown(turns@);
        assert(shown.take(index + 1).drop_last() =~= shown.take(index as int));
        if turns[index].request_id == request_id {
            proof {
                lemma_first_turn_stays(shown, request_id, index + 1);
            }
            return Some(index);
        }
        index = index + 1;
    }
    assert(turns_shown(turns@).take(turns@.len() as int) =~= turns_shown(turns@));
    None
}

proof fn lemma_first_turn_stays(turns: Seq<TurnShown>, request_id: RequestId, few: int)
    requires
        0 <= few <= turns.len(),
        gui_model::first_turn(turns.take(few), request_id) is Some,
    ensures
        gui_model::first_turn(turns, request_id) == gui_model::first_turn(
            turns.take(few),
            request_id,
        ),
    decreases turns.len(),
{
    if few == turns.len() {
        assert(turns.take(few) =~= turns);
    } else {
        assert(turns.drop_last().take(few) =~= turns.take(few));
        lemma_first_turn_stays(turns.drop_last(), request_id, few);
    }
}

fn find_last_phase(
    activity: &Vec<ActivityItem>,
    request_id: RequestId,
    phase: ProgressPhase,
) -> (found: Option<usize>)
    ensures
        match found {
            Some(index) => index < activity@.len() && gui_model::last_phase(
                activity_shown(activity@),
                request_id,
                phase,
            ) == Some(index as int),
            None => gui_model::last_phase(activity_shown(activity@), request_id, phase) is None,
        },
{
    let ghost shown = activity_shown(activity@);
    let mut count: usize = activity.len();
    assert(shown.take(count as int) =~= shown);
    while count > 0
        invariant
            count <= activity@.len(),
            shown == activity_shown(activity@),
            gui_model::last_phase(shown, request_id, phase) == gui_model::last_phase(
                shown.take(count as int),
                request_id,
                phase,
            ),
        decreases count,
    {
        assert(shown.take(count as int).drop_last() =~= shown.take(count - 1));
        count = count - 1;
        if activity[count].request_id == request_id && activity[count].progress_phase == Some(
            phase,
        ) {
            return Some(count);
        }
    }
    None
}

fn find_last_tool(
    activity: &Vec<ActivityItem>,
    request_id: RequestId,
    call_id: ToolCallId,
) -> (found: Option<usize>)
    ensures
        match found {
            Some(index) => index < activity@.len() && gui_model::last_tool(
                activity_shown(activity@),
                request_id,
                call_id,
            ) == Some(index as int),
            None => gui_model::last_tool(activity_shown(activity@), request_id, call_id) is None,
        },
{
    let ghost shown = activity_shown(activity@);
    let mut count: usize = activity.len();
    assert(shown.take(count as int) =~= shown);
    while count > 0
        invariant
            count <= activity@.len(),
            shown == activity_shown(activity@),
            gui_model::last_tool(shown, request_id, call_id) == gui_model::last_tool(
                shown.take(count as int),
                request_id,
                call_id,
            ),
        decreases count,
    {
        assert(shown.take(count as int).drop_last() =~= shown.take(count - 1));
        count = count - 1;
        if activity[count].request_id == request_id && activity[count].call_id == Some(call_id) {
            return Some(count);
        }
    }
    None
}

/// Counts the progress items of a request and finds the first of them.
fn progress_items(activity: &Vec<ActivityItem>, request_id: RequestId) -> (found: (
    usize,
    Option<usize>,
))
    ensures
        found.0 == gui_model::progress_count(activity_shown(activity@), request_id),
        match found.1 {
            Some(index) => index < activity@.len() && gui_model::first_progress(
                activity_shown(activity@),
                request_id,
            ) == Some(index as int),
            None => gui_model::first_progress(activity_shown(activity@), request_id) is None
                && found.0 == 0,
        },
{
    let ghost shown = activity_shown(activity@);
    let mut count: usize = 0;
    let mut first: Option<usize> = None;
    let mut index: usize = 0;
    while index < activity.len()
        invariant
            index <= activity@.len(),
            count <= index,
            shown == activity_shown(activity@),
            count == gui_model::progress_count(shown.take(index as int), request_id),
            match first {
                Some(at) => at < index && gui_model::first_progress(
                    shown.take(index as int),
                    request_id,
                ) == Some(at as int),
                None => gui_model::first_progress(shown.take(index as int), request_id) is None
                    && count == 0,
            },
        decreases activity@.len() - index,
    {
        assert(shown.take(index + 1).drop_last() =~= shown.take(index as int));
        if activity[index].request_id == request_id && activity[index].progress_phase.is_some() {
            if first.is_none() {
                first = Some(index);
            }
            count = count + 1;
        }
        index = index + 1;
    }
    assert(shown.take(activity@.len() as int) =~= shown);
    (count, first)
}

/// Records a progress report among activities.
fn add_progress(
    activity: &mut Vec<ActivityItem>,
    request_id: RequestId,
    progress: Progress,
    coalesce_file_progress: bool,
)
    ensures
        activity_shown(final(activity)@) == gui_model::with_progress(
            activity_shown(old(activity)@),
            request_id,
            progress,
            coalesce_file_progress,
        ),
{
    let detail = match (progress.completed, progress.total) {
        (Some(completed), Some(total)) => {
            let mut detail = text::decimal_text(completed);
            detail.push_str(" of ");
            text::push_decimal(&mut detail, total);
            Some(detail)
        },
        _ => None,
    };
    assert(optional_text(detail) == gui_model::progress_detail(progress));
    let merge_phase = coalesce_file_progress && match progress.phase {
        ProgressPhase::Parsing | ProgressPhase::Indexing => true,
        _ => false,
    };
    if merge_phase {
        match find_last_phase(activity, request_id, progress.phase) {
            Some(index) => {
                activity[index].title = progress.message;
                activity[index].detail = detail;
                assert(activity_shown(activity@) =~= gui_model::with_progress(
                    activity_shown(old(activity)@),
                    request_id,
                    progress,
                    coalesce_file_progress,
                ));
                return;
            },
            None => {},
        }
    }
    let (progress_count, first) = progress_items(activity, request_id);
    if progress_count >= MAX_PROGRESS_ITEMS_PER_REQUEST {
        match first {
            Some(index) => {
                activity.remove(index);
                assert(activity_shown(activity@) =~= activity_shown(old(activity)@).remove(
                    index as int,
                ));
            },
            None => {},
        }
    }
    let ghost kept = activity@;
    activity.push(
        ActivityItem {
            request_id,
            call_id: None,
            title: progress.message,
            detail,
            status: ActivityStatus::Information,
            progress_phase: Some(progress.phase),
        },
    );
    assert(activity_shown(activity@) =~= activity_shown(kept).push(activity@.last()@));
}

/// Records that a tool was called.
fn start_tool(activity: &mut Vec<ActivityItem>, request_id: RequestId, call_id: ToolCallId, name: &str)
    ensures
        activity_shown(final(activity)@) == gui_model::with_tool_call(
            activity_shown(old(activity)@),
            request_id,
            call_id,
            name@,
        ),
{
    activity.push(
        ActivityItem {
            request_id,
            call_id: Some(call_id),
            title: human_tool_name(name),
            detail: Some("Read-only repository query".to_owned()),
            status: ActivityStatus::Running,
            progress_phase: None,
        },
    );
    assert(activity_shown(activity@) =~= activity_shown(old(activity)@).push(activity@.last()@));
}

/// Records that a tool has answered.
fn complete_tool(
    activity: &mut Vec<ActivityItem>,
    request_id: RequestId,
    call_id: ToolCallId,
    failed: bool,
)
    ensures
        activity_shown(final(activity)@) == gui_model::with_tool_result(
            activity_shown(old(activity)@),
            request_id,
            call_id,
            failed,
        ),
{
    let status = if failed {
        ActivityStatus::Failed
    } else {
        ActivityStatus::Complete
    };
    match find_last_tool(activity, request_id, call_id) {
        Some(index) => {
            let detail = if failed {
                "Repository query reported an error"
            } else {
                "Repository query completed"
            };
            activity[index].status = status;
            activity[index].detail = Some(detail.to_owned());
            assert(activity_shown(activity@) =~= activity_shown(old(activity)@).update(
                index as int,
                activity@[index as int]@,
            ));
        },
        None => {
            activity.push(
                ActivityItem {
                    request_id,
                    call_id: Some(call_id),
                    title: "Repository query".to_owned(),
                    detail: Some("Completed without a matching start event".to_owned()),
                    status,
                    progress_phase: None,
                },
            );
            assert(activity_shown(activity@) =~= activity_shown(old(activity)@).push(
                activity@.last()@,
            ));
        },
    }
}

/// Ends what is running of a request.
fn finish_running_activity(
    activity: &mut Vec<ActivityItem>,
    request_id: RequestId,
    outcome: RequestOutcome,
)
    ensures
        activity_shown(final(activity)@) == gui_model::settled(
            activity_shown(old(activity)@),
            request_id,
            outcome,
        ),
{
    let status = match outcome {
        RequestOutcome::Completed => ActivityStatus::Complete,
        RequestOutcome::Cancelled => ActivityStatus::Cancelled,
        RequestOutcome::Failed => ActivityStatus::Failed,
    };
    let detail = match outcome {
        RequestOutcome::Completed => "Request completed",
        RequestOutcome::Cancelled => "Stopped because the request was cancelled",
        RequestOutcome::Failed => "Stopped because the request failed",
    };
    let ghost before = activity_shown(activity@);
    let mut index: usize = 0;
    while index < activity.len()
        invariant
            index <= activity@.len(),
            activity@.len() == before.len(),
            status == gui_model::ending_status(outcome),
            detail@ == gui_model::ending_detail(outcome),
            forall|i: int|
                0 <= i < index ==> (#[trigger] activity@[i])@ == gui_model::item_settled(
                    before[i],
                    request_id,
                    outcome,
                ),
            forall|i: int| index <= i < activity@.len() ==> (#[trigger] activity@[i])@ == before[i],
        decreases activity@.len() - index,
    {
        if activity[index].request_id == request_id && activity[index].status
            == ActivityStatus::Running {
            activity[index].status = status;
            activity[index].detail = Some(detail.to_owned());
        }
        index = index + 1;
    }
    assert(activity_shown(activity@) =~= gui_model::settled(before, request_id, outcome));
}

/// Sets the status of a turn that is running.
fn set_turn_status(turns: &mut Vec<TurnView>, request_id: RequestId, status: TurnStatus)
    ensures
        turns_shown(final(turns)@) == gui_model::turn_ended(
            turns_shown(old(turns)@),
            request_id,
            status,
        ),
{
    match find_turn(turns, request_id) {
        Some(index) => {
            if turns[index].status == TurnStatus::Running {
                turns[index].status = status;
                assert(turns_shown(turns@) =~= turns_shown(old(turns)@).update(
                    index as int,
                    turns@[index as int]@,
                ));
            }
        },
        None => {},
    }
}

/// Restores the activity of one step of a recorded trajectory.
fn restore_activity(activity: &mut Vec<ActivityItem>, request_id: RequestId, event: &WorkflowEvent)
    ensures
        activity_shown(final(activity)@) == gui_model::with_recorded(
            activity_shown(old(activity)@),
            request_id,
            *event,
        ),
{
    match event {
        WorkflowEvent::Progress(progress) => {
            add_progress(activity, request_id, progress.clone(), true);
        },
        WorkflowEvent::ToolCallStarted(call) => {
            start_tool(activity, request_id, call.id, call.name.as_str());
        },
        WorkflowEvent::ToolCallCompleted { call_id, is_error, .. } => {
            complete_tool(activity, request_id, *call_id, *is_error);
        },
        _ => {},
    }
}

/// The first and the last line of the span of an evidence.
pub fn evidence_line_range(evidence: &Evidence) -> (lines: (u32, u32))
    ensures
        lines == gui_model::line_range(evidence.span@),
{
    let start = evidence.span.start().line();
    let end_position = evidence.span.end();
    let end = if end_position.column() == 0 && end_position.line() > start {
        end_position.line() - 1
    } else {
        end_position.line()
    };
    (start, end)
}

/// How an error is shown.
pub fn present_error(error: AppError) -> (shown: UiError)
    ensures
        shown@ == gui_model::presented(error),
{
    let authentication_failed = text::same_text(error.code.as_str(), "model_error") && (
    text::contains_text(error.message.as_str(), "HTTP 401") || text::contains_text(
        error.message.as_str(),
        "invalid_api_key",
    ) || text::contains_text(error.message.as_str(), "Incorrect API key"));
    UiError {
        code: error.code,
        message: if authentication_failed {
            "Authentication failed (HTTP 401). The API key was rejected by the configured model provider. Make sure CODEATLAS_ENDPOINT, CODEATLAS_MODEL, and the API key belong to the same provider, then restart CodeAtlas.".to_owned()
        } else {
            error.message
        },
        retryable: error.retryable,
    }
}

/// The first characters of the text of an ID.
pub open spec fn short_text(full: Seq<char>) -> Seq<char> {
    full.take(if full.len() < 8 {
        full.len() as int
    } else {
        8
    })
}

/// The first characters of the text of an ID.
pub fn short_id(full: &str) -> (short: String)
    ensures
        short@ == short_text(full@),
{
    let chars = text::chars_of(full);
    let count: usize = if chars.len() < 8 {
        chars.len()
    } else {
        8
    };
    text::string_of(vstd::slice::slice_subrange(chars.as_slice(), 0, count))
}

/// How the target of a call is shown.
pub open spec fn target_text(target: TargetResolution<SymbolId>) -> Seq<char> {
    match target {
        TargetResolution::Resolved(symbol) => "symbol "@ + short_text(
            id::id_text(symbol.value),
        ),
        TargetResolution::Unresolved(unresolved) => "unresolved: "@ + unresolved.name@,
    }
}

/// How the target of a call is shown.
pub fn call_target(target: &TargetResolution<SymbolId>) -> (shown: String)
    ensures
        shown@ == target_text(*target),
{
    match target {
        TargetResolution::Resolved(symbol) => {
            let mut shown = "symbol ".to_owned();
            let full = symbol.to_string();
            let short = short_id(full.as_str());
            shown.push_str(short.as_str());
            shown
        },
        TargetResolution::Unresolved(unresolved) => {
            let mut shown = "unresolved: ".to_owned();
            shown.push_str(unresolved.name.as_str());
            shown
        },
    }
}

/// How a tool call is described.
pub fn human_tool_name(name: &str) -> (title: String)
    ensures
        title@ == gui_model::tool_title(name@),
{
    if text::same_text(name, "list_files") {
        "Listing repository files".to_owned()
    } else if text::same_text(name, "read_file") {
        "Reading source".to_owned()
    } else if text::same_text(name, "find_symbol") {
        "Finding symbols".to_owned()
    } else if text::same_text(name, "find_references") {
        "Finding references".to_owned()
    } else if text::same_text(name, "get_symbol") {
        "Inspecting a symbol".to_owned()
    } else if text::same_text(name, "get_module") {
        "Inspecting a module".to_owned()
    } else if text::same_text(name, "search_code") {
        "Searching source".to_owned()
    } else if text::same_text(name, "trace_call") {
        "Tracing a call path".to_owned()
    } else if text::same_text(name, "get_repository_overview") {
        "Mapping repository".to_owned()
    } else {
        let chars = text::chars_of(name);
        let mut title = String::new();
        let mut index: usize = 0;
        while index < chars.len()
            invariant
                index <= chars@.len(),
                chars@ == name@,
                title@.len() == index,
                forall|i: int|
                    0 <= i < index ==> #[trigger] title@[i] == (if i == 0 {
                        text::ascii_upper(gui_model::spaced(name@)[0])
                    } else {
                        gui_model::spaced(name@)[i]
                    }),
            decreases chars@.len() - index,
        {
            let character = if chars[index] == '_' {
                ' '
            } else {
                chars[index]
            };
            if index == 0 {
                title.push(text::ascii_upper_char(character));
            } else {
                title.push(character);
            }
            index = index + 1;
        }
        proof {
            if name@.len() == 0 {
                assert(title@ =~= name@);
            } else {
                assert(title@ =~= gui_model::spaced(name@).update(
                    0,
                    text::ascii_upper(gui_model::spaced(name@)[0]),
                ));
            }
        }
        title
    }
}

/// Tests whether an action is among offered ones.
fn lists_action(actions: &Vec<SuggestedAction>, action: SuggestedAction) -> (listed: bool)
    ensures
        listed == actions@.contains(action),
{
    let mut index: usize = 0;
    while index < actions.len()
        invariant
            index <= actions@.len(),
            forall|i: int| 0 <= i < index ==> #[trigger] actions@[i] != action,
        decreases actions@.len() - index,
    {
        if actions[index] == action {
            assert(actions@[index as int] == action);
            return true;
        }
        index = index + 1;
    }
    false
}

impl GuiState {
    #[must_use]
    pub fn new(namespace: &str) -> (state: GuiState)
        ensures
            state@ == GuiModel::initial(namespace@),
    {
        let parts: [&str; 3] = ["gui", namespace, "unindexed"];
        let session_id = SessionId::from_stable_parts(parts.as_slice());
        assert(text::views(parts@) =~= seq!["gui"@, namespace@, "unindexed"@]);
        let state = GuiState {
            namespace: namespace.to_owned(),
            next_request: 0,
            next_session: 0,
            repository_input: String::new(),
            question_input: String::new(),
            profile: ExplanationProfile::default(),
            repository: None,
            status: WorkStatus::Idle,
            panel: WorkspacePanel::Conversation,
            turns: Vec::new(),
            selected_task: None,
            selected_claim: None,
            selected_evidence: None,
            source: None,
            activity: Vec::new(),
            activity_open: false,
            history_open: false,
            history_loading: false,
            sessions: Vec::new(),
            session_id,
            session_repository_id: None,
            error: None,
            notices: Vec::new(),
            diagram_messages: BTreeMap::new(),
            active: None,
            outcomes: BTreeMap::new(),
            pending_index_path: None,
            pending_history: None,
            pending_session: None,
            pending_diagrams: BTreeMap::new(),
            usage: BTreeMap::new(),
        };
        assert(state@ =~~= GuiModel::initial(namespace@));
        state
    }

    #[must_use]
    pub fn is_busy(&self) -> (busy: bool)
        ensures
            busy == (self@.active is Some),
    {
        self.active.is_some()
    }

    #[must_use]
    pub fn can_ask(&self) -> (can: bool)
        ensures
            can == (self@.repository is Some && !self@.is_read_only() && self@.active is None),
    {
        self.repository.is_some() && !self.is_read_only() && self.active.is_none()
    }

    /// The ID of the indexed repository.
    fn indexed_id(&self) -> (id: Option<RepositoryId>)
        ensures
            id == self@.indexed_id(),
    {
        match &self.repository {
            Some(repository) => Some(repository.id),
            None => None,
        }
    }

    #[must_use]
    pub fn is_read_only(&self) -> (read_only: bool)
        ensures
            read_only == self@.is_read_only(),
    {
        self.session_repository_id.is_some() && self.indexed_id() != self.session_repository_id
    }

    #[must_use]
    pub fn read_only_message(&self) -> (message: Option<&'static str>)
        ensures
            match message {
                Some(message) => self@.is_read_only() && message@
                    == "This saved session belongs to another repository. It is available for reading, but cannot be continued or used to load local source until that repository is indexed."@,
                None => !self@.is_read_only(),
            },
    {
        if self.is_read_only() {
            Some(
                "This saved session belongs to another repository. It is available for reading, but cannot be continued or used to load local source until that repository is indexed.",
            )
        } else {
            None
        }
    }

    /// Where the turn whose answer is shown stands.
    fn selected_index(&self) -> (selected: Option<usize>)
        ensures
            match selected {
                Some(index) => index < self.turns@.len() && gui_model::shown_turn(
                    self@.turns,
                    self@.selected_task,
                ) == Some(index as int),
                None => gui_model::shown_turn(self@.turns, self@.selected_task) is None,
            },
    {
        match self.selected_task {
            Some(request_id) => {
                let found = find_turn(&self.turns, request_id);
                if found.is_some() {
                    return found;
                }
            },
            None => {},
        }
        if self.turns.len() == 0 {
            None
        } else {
            Some(self.turns.len() - 1)
        }
    }

    #[must_use]
    pub fn selected_turn(&self) -> (selected: Option<&TurnView>)
        ensures
            match selected {
                Some(turn) => gui_model::shown_turn(self@.turns, self@.selected_task) matches Some(
                    index,
                ) && 0 <= index < self.turns@.len() && *turn == self.turns@[index],
                None => gui_model::shown_turn(self@.turns, self@.selected_task) is None,
            },
    {
        match self.selected_index() {
            Some(index) => Some(&self.turns[index]),
            None => None,
        }
    }

    #[must_use]
    pub fn selected_answer(&self) -> (selected: Option<&AgentAnswer>)
        ensures
            match selected {
                Some(answer) => self@.shown_answer() == Some(*answer),
                None => self@.shown_answer() is None,
            },
    {
        match self.selected_index() {
            Some(index) => match &self.turns[index].answer {
                Some(answer) => Some(answer),
                None => None,
            },
            None => None,
        }
    }

    /// Usage for the selected request, including cumulative usage received
    /// before that request has produced its final answer.
    #[must_use]
    pub fn selected_usage(&self) -> (selected: Option<&ModelUsage>)
        ensures
            (match selected {
                Some(usage) => Some(*usage),
                None => None,
            }) == self@.shown_usage(),
    {
        match self.selected_index() {
            Some(index) => match self.usage.get(&self.turns[index].request_id.value) {
                Some(usage) => Some(usage),
                None => match &self.turns[index].answer {
                    Some(answer) => match &answer.usage {
                        Some(usage) => Some(usage),
                        None => None,
                    },
                    None => None,
                },
            },
            None => None,
        }
    }

    #[must_use]
    pub fn visible_claims(&self) -> (claims: &[Claim])
        ensures
            claims@ == match self@.shown_answer() {
                Some(answer) => answer.claims@,
                None => Seq::empty(),
            },
    {
        match self.selected_answer() {
            Some(answer) => answer.claims.as_slice(),
            None => &[],
        }
    }

    #[must_use]
    pub fn visible_evidence(&self) -> (listed: Vec<&Evidence>)
        ensures
            listed@.map_values(|evidence: &Evidence| *evidence) == match self@.shown_answer() {
                Some(answer) => gui_model::listed_evidence(
                    answer.evidence@,
                    answer.claims@,
                    self@.selected_claim,
                ),
                None => Seq::empty(),
            },
            self@.shown_answer() matches Some(answer) ==> (forall|i: int|
                0 <= i < answer.evidence@.len() && self@.selected_claim is Some ==> (listed@.contains(
                    &#[trigger] answer.evidence@[i],
                ) <==> exists|c: int, e: int|
                    #![trigger answer.claims@[c].evidence_ids@[e]]
                    0 <= c < answer.claims@.len() && answer.claims@[c].id
                        == self@.selected_claim->0 && 0 <= e
                        < answer.claims@[c].evidence_ids@.len()
                        && answer.claims@[c].evidence_ids@[e] == answer.evidence@[i].id)),
    {
        let mut listed: Vec<&Evidence> = Vec::new();
        let answer = match self.selected_answer() {
            Some(answer) => answer,
            None => {
                assert(listed@.map_values(|evidence: &Evidence| *evidence) =~= Seq::empty());
                return listed;
            },
        };
        let mut index: usize = 0;
        assert(listed@.map_values(|evidence: &Evidence| *evidence)
            =~= gui_model::listed_evidence(
            answer.evidence@.take(0),
            answer.claims@,
            self.selected_claim,
        ));
        while index < answer.evidence.len()
            invariant
                index <= answer.evidence@.len(),
                listed@.map_values(|evidence: &Evidence| *evidence)
                    == gui_model::listed_evidence(
                    answer.evidence@.take(index as int),
                    answer.claims@,
                    self.selected_claim,
                ),
            decreases answer.evidence@.len() - index,
        {
            let evidence = &answer.evidence[index];
            let wanted = match self.selected_claim {
                None => true,
                Some(claim_id) => cites(&answer.claims, claim_id, evidence.id),
            };
            assert(answer.evidence@.take(index + 1).drop_last() =~= answer.evidence@.take(
                index as int,
            ));
            if wanted {
                let ghost before = listed@;
                listed.push(evidence);
                assert(listed@.map_values(|evidence: &Evidence| *evidence)
                    =~= before.map_values(|evidence: &Evidence| *evidence).push(*evidence));
            }
            index = index + 1;
        }
        assert(answer.evidence@.take(answer.evidence@.len() as int) =~= answer.evidence@);
        proof {
            let shown = listed@.map_values(|evidence: &Evidence| *evidence);
            let places = gui_model::law_listed_evidence_is_what_the_claim_cites(
                answer.evidence@,
                answer.claims@,
                self.selected_claim,
            );
            assert forall|i: int| 0 <= i < answer.evidence@.len() && self@.selected_claim
                is Some implies (listed@.contains(&#[trigger] answer.evidence@[i]) <==> exists|
                c: int,
                e: int,
            |
                #![trigger answer.claims@[c].evidence_ids@[e]]
                0 <= c < answer.claims@.len() && answer.claims@[c].id == self@.selected_claim->0
                    && 0 <= e < answer.claims@[c].evidence_ids@.len()
                    && answer.claims@[c].evidence_ids@[e] == answer.evidence@[i].id) by {
                let wanted = answer.evidence@[i];
                if listed@.contains(&wanted) {
                    let k = choose|k: int| 0 <= k < listed@.len() && listed@[k] == &wanted;
                    assert(shown[k] == wanted);
                    assert(places.contains(places[k]));
                    assert(answer.evidence@[places[k]] == wanted);
                }
                if places.contains(i) {
                    let k = choose|k: int| 0 <= k < places.len() && places[k] == i;
                    assert(shown[k] == wanted);
                    assert(listed@[k] == &wanted);
                }
            }
        }
        listed
    }

    #[must_use]
    pub fn diagram_message(&self, diagram_id: DiagramId) -> (message: Option<&str>)
        ensures
            match message {
                Some(message) => self@.diagram_messages.contains_key(diagram_id.value)
                    && self@.diagram_messages[diagram_id.value] == message@,
                None => !self@.diagram_messages.contains_key(diagram_id.value),
            },
    {
        match self.diagram_messages.get(&diagram_id.value) {
            Some(message) => Some(message.as_str()),
            None => None,
        }
    }
}

impl GuiState {
    fn next_request_id(&mut self, operation: &str) -> (request_id: RequestId)
        ensures
            request_id == old(self)@.request_id(operation@),
            final(self)@ == old(self)@.after_request(),
    {
        let sequence = text::decimal_text(self.next_request);
        let parts: [&str; 4] = ["gui", self.namespace.as_str(), operation, sequence.as_str()];
        let request_id = RequestId::from_stable_parts(parts.as_slice());
        assert(text::views(parts@) =~= seq![
            "gui"@,
            self.namespace@,
            operation@,
            text::decimal(self.next_request as nat),
        ]);
        self.next_request = self.next_request.saturating_add(1);
        request_id
    }

    fn fresh_session_id(&mut self, repository_id: RepositoryId) -> (session_id: SessionId)
        ensures
            session_id == old(self)@.fresh_session(repository_id),
            final(self)@ == (GuiModel {
                next_session: crate::scanner::one_more(old(self)@.next_session),
                ..old(self)@
            }),
    {
        let repository = repository_id.to_string();
        let sequence = text::decimal_text(self.next_session);
        let parts: [&str; 4] = [
            "gui",
            self.namespace.as_str(),
            repository.as_str(),
            sequence.as_str(),
        ];
        let session_id = SessionId::from_stable_parts(parts.as_slice());
        assert(text::views(parts@) =~= seq![
            "gui"@,
            self.namespace@,
            id::id_text(repository_id.value),
            text::decimal(self.next_session as nat),
        ]);
        self.next_session = self.next_session.saturating_add(1);
        session_id
    }

    pub fn local_error(&mut self, code: &str, message: &str)
        ensures
            final(self)@ == old(self)@.with_error(code@, message@),
    {
        self.error = Some(
            UiError { code: code.to_owned(), message: message.to_owned(), retryable: false },
        );
    }

    fn clear_session(&mut self)
        ensures
            final(self)@ == old(self)@.cleared(),
    {
        self.question_input = String::new();
        self.turns.clear();
        self.selected_task = None;
        self.selected_claim = None;
        self.selected_evidence = None;
        self.source = None;
        self.activity.clear();
        self.outcomes.clear();
        self.usage.clear();
        self.notices.clear();
        self.diagram_messages.clear();
        assert(self@ =~~= old(self)@.cleared());
    }

    #[must_use]
    pub fn index_repository(&mut self) -> (command: Option<AppCommand>)
        ensures
            if old(self)@.active is Some {
                command is None && final(self)@ == old(self)@.with_error(
                    "busy"@,
                    "Cancel the current work before indexing another repository."@,
                )
            } else if text::trim(old(self)@.repository_input).len() == 0 {
                command is None && final(self)@ == old(self)@.with_error(
                    "repository_path_required"@,
                    "Choose a repository directory first."@,
                )
            } else {
                &&& final(self)@ == old(self)@.indexing(text::trim(old(self)@.repository_input))
                &&& command matches Some(AppCommand::Index { request_id, repository_root })
                &&& request_id == old(self)@.request_id("index"@)
                &&& repository_root@ == text::trim(old(self)@.repository_input)
            },
    {
        if self.active.is_some() {
            self.local_error(
                "busy",
                "Cancel the current work before indexing another repository.",
            );
            return None;
        }
        let path = match trimmed(self.repository_input.as_str()) {
            Some(path) => path,
            None => {
                self.local_error(
                    "repository_path_required",
                    "Choose a repository directory first.",
                );
                return None;
            },
        };
        let request_id = self.next_request_id("index");
        self.active = Some(
            ActiveRequest { id: request_id, kind: RequestKind::Index, cancel_id: None },
        );
        self.pending_index_path = Some((request_id, path.clone()));
        self.status = WorkStatus::Indexing;
        self.error = None;
        Some(AppCommand::Index { request_id, repository_root: path })
    }

    #[must_use]
    pub fn ask(&mut self) -> (command: Option<AppCommand>)
        ensures
            if old(self)@.active is Some {
                command is None && final(self)@ == old(self)@.with_error(
                    "busy"@,
                    "Cancel the current work before asking another question."@,
                )
            } else if old(self)@.repository is None {
                command is None && final(self)@ == old(self)@.with_error(
                    "repository_not_indexed"@,
                    "Index a repository before asking a question."@,
                )
            } else if old(self)@.is_read_only() {
                command is None && final(self)@ == old(self)@.with_error(
                    "session_repository_mismatch"@,
                    "This session is read-only because it belongs to another repository."@,
                )
            } else if text::trim(old(self)@.question_input).len() == 0 {
                command is None && final(self)@ == old(self)@.with_error(
                    "question_required"@,
                    "Enter a question about the codebase."@,
                )
            } else {
                &&& final(self)@ == old(self)@.asking(text::trim(old(self)@.question_input))
                &&& command matches Some(
                    AppCommand::Ask { request_id, session_id, repository_id, question, profile },
                )
                &&& request_id == old(self)@.request_id("ask"@)
                &&& session_id == old(self)@.session_id
                &&& repository_id == old(self)@.repository->0.id
                &&& question@ == text::trim(old(self)@.question_input)
                &&& profile == old(self)@.profile
            },
    {
        if self.active.is_some() {
            self.local_error("busy", "Cancel the current work before asking another question.");
            return None;
        }
        let repository_id = match self.indexed_id() {
            Some(repository_id) => repository_id,
            None => {
                self.local_error(
                    "repository_not_indexed",
                    "Index a repository before asking a question.",
                );
                return None;
            },
        };
        if self.is_read_only() {
            self.local_error(
                "session_repository_mismatch",
                "This session is read-only because it belongs to another repository.",
            );
            return None;
        }
        let question = match trimmed(self.question_input.as_str()) {
            Some(question) => question,
            None => {
                self.local_error("question_required", "Enter a question about the codebase.");
                return None;
            },
        };
        let request_id = self.next_request_id("ask");
        let profile = self.profile;
        self.begin_turn(request_id, question.clone(), profile);
        self.question_input = String::new();
        assert(self@ =~~= old(self)@.asking(text::trim(old(self)@.question_input)));
        Some(
            AppCommand::Ask {
                request_id,
                session_id: self.session_id,
                repository_id,
                question,
                profile: self.profile,
            },
        )
    }

    /// Begins a turn.
    fn begin_turn(
        &mut self,
        request_id: RequestId,
        question: String,
        profile: ExplanationProfile,
    )
        ensures
            final(self)@ == old(self)@.with_turn(request_id, question@, profile),
    {
        self.turns.push(
            TurnView {
                request_id,
                question,
                profile,
                answer_text: String::new(),
                answer: None,
                status: TurnStatus::Running,
            },
        );
        self.selected_task = Some(request_id);
        self.profile = profile;
        self.selected_claim = None;
        self.selected_evidence = None;
        self.source = None;
        self.active = Some(
            ActiveRequest { id: request_id, kind: RequestKind::Ask, cancel_id: None },
        );
        self.status = WorkStatus::Thinking;
        self.error = None;
        assert(self@ =~~= old(self)@.with_turn(request_id, question@, profile));
    }

    /// Runs an action that the shown answer offers. Showing source makes no model
    /// call and can be done while another request is active.
    #[must_use]
    pub fn run_suggested_action(&mut self, action: SuggestedAction) -> (command: Option<
        AppCommand,
    >)
        ensures
            if !old(self)@.offers(action) {
                command is None && final(self)@ == old(self)@
            } else if old(self)@.repository is None {
                command is None && final(self)@ == old(self)@.with_error(
                    "repository_not_indexed"@,
                    "Index a repository before running a suggested action."@,
                )
            } else if old(self)@.is_read_only() {
                command is None && final(self)@ == old(self)@.with_error(
                    "session_repository_mismatch"@,
                    "This session is read-only because it belongs to another repository."@,
                )
            } else if old(self)@.active is Some && !(action is ShowSource) {
                command is None && final(self)@ == old(self)@.with_error(
                    "busy"@,
                    "Cancel the current work before running a suggested action."@,
                )
            } else {
                &&& final(self)@ == old(self)@.acting(action)
                &&& command == Some(
                    AppCommand::RunSuggestedAction {
                        request_id: old(self)@.request_id("action"@),
                        session_id: old(self)@.session_id,
                        repository_id: old(self)@.repository->0.id,
                        answer_id: old(self)@.shown_answer()->0.id,
                        action,
                    },
                )
            },
    {
        let answer_id = match self.selected_answer() {
            None => {
                return None;
            },
            Some(answer) => {
                if !lists_action(&answer.suggested_actions, action) {
                    return None;
                }
                answer.id
            },
        };
        let repository_id = match self.indexed_id() {
            Some(repository_id) => repository_id,
            None => {
                self.local_error(
                    "repository_not_indexed",
                    "Index a repository before running a suggested action.",
                );
                return None;
            },
        };
        if self.is_read_only() {
            self.local_error(
                "session_repository_mismatch",
                "This session is read-only because it belongs to another repository.",
            );
            return None;
        }
        match action {
            SuggestedAction::ShowSource { evidence_id } => {
                let request_id = self.show_offered_source(evidence_id, repository_id);
                Some(
                    AppCommand::RunSuggestedAction {
                        request_id,
                        session_id: self.session_id,
                        repository_id,
                        answer_id,
                        action,
                    },
                )
            },
            _ => {
                if self.active.is_some() {
                    self.local_error(
                        "busy",
                        "Cancel the current work before running a suggested action.",
                    );
                    return None;
                }
                let profile = self.profile_for(action);
                let request_id = self.next_request_id("action");
                self.begin_turn(request_id, action.label().to_owned(), profile);
                Some(
                    AppCommand::RunSuggestedAction {
                        request_id,
                        session_id: self.session_id,
                        repository_id,
                        answer_id,
                        action,
                    },
                )
            },
        }
    }

    /// The profile under which an action of the shown answer is run.
    fn profile_for(&self, action: SuggestedAction) -> (profile: ExplanationProfile)
        requires
            self@.shown_answer() is Some,
        ensures
            profile == self@.action_profile(action),
    {
        let profile = match self.selected_index() {
            Some(index) => {
                assert(self@.turns[index as int].profile == self.turns@[index as int].profile);
                self.turns[index].profile
            },
            None => self.profile,
        };
        match action {
            SuggestedAction::ChangeDepth { depth } => ExplanationProfile {
                audience: profile.audience,
                depth,
            },
            _ => profile,
        }
    }

    /// Shows an evidence of the shown answer while its source is being loaded.
    fn show_offered_source(
        &mut self,
        evidence_id: EvidenceId,
        repository_id: RepositoryId,
    ) -> (request_id: RequestId)
        requires
            old(self)@.indexed_id() == Some(repository_id),
        ensures
            request_id == old(self)@.request_id("action"@),
            final(self)@ == old(self)@.acting(SuggestedAction::ShowSource { evidence_id }),
    {
        let found = match self.selected_answer() {
            None => None,
            Some(answer) => match find_evidence(&answer.evidence, evidence_id) {
                None => None,
                Some(index) => {
                    let evidence = &answer.evidence[index];
                    let excerpt = match &evidence.excerpt {
                        Some(excerpt) => excerpt.clone(),
                        None => String::new(),
                    };
                    Some((evidence.path.clone(), evidence_line_range(evidence), excerpt))
                },
            },
        };
        let request_id = self.next_request_id("action");
        match found {
            Some((path, lines, excerpt)) => {
                self.selected_evidence = Some(evidence_id);
                self.source = Some(
                    SourceView {
                        evidence_id,
                        path,
                        start_line: lines.0,
                        end_line: lines.1,
                        content: excerpt,
                        status: SourceStatus::Loading,
                        message: None,
                        pending_request: Some(request_id),
                        repository_id: Some(repository_id),
                    },
                );
            },
            None => {},
        }
        request_id
    }

    #[must_use]
    pub fn cancel(&mut self) -> (command: Option<AppCommand>)
        ensures
            if old(self)@.active is Some && old(self)@.active->0.cancel_id is None {
                &&& final(self)@ == old(self)@.cancelling()
                &&& command == Some(
                    AppCommand::Cancel {
                        request_id: old(self)@.request_id("cancel"@),
                        target_request_id: old(self)@.active->0.id,
                    },
                )
            } else {
                command is None && final(self)@ == old(self)@
            },
    {
        let active = match self.active {
            Some(active) => active,
            None => {
                return None;
            },
        };
        if active.cancel_id.is_some() {
            return None;
        }
        let request_id = self.next_request_id("cancel");
        self.active = Some(
            ActiveRequest { id: active.id, kind: active.kind, cancel_id: Some(request_id) },
        );
        self.status = WorkStatus::Cancelling;
        Some(AppCommand::Cancel { request_id, target_request_id: active.id })
    }

    #[must_use]
    pub fn list_sessions(&mut self) -> (command: AppCommand)
        ensures
            command == (AppCommand::ListSessions {
                request_id: old(self)@.request_id("sessions"@),
                repository_id: None,
            }),
            final(self)@ == (GuiModel {
                pending_history: Some(old(self)@.request_id("sessions"@)),
                history_open: true,
                history_loading: true,
                ..old(self)@.after_request()
            }),
    {
        let request_id = self.next_request_id("sessions");
        self.pending_history = Some(request_id);
        self.history_open = true;
        self.history_loading = true;
        AppCommand::ListSessions { request_id, repository_id: None }
    }

    #[must_use]
    pub fn load_session(&mut self, session_id: SessionId) -> (command: Option<AppCommand>)
        ensures
            if old(self)@.active is Some {
                command is None && final(self)@ == old(self)@.with_error(
                    "busy"@,
                    "Cancel the current work before loading a saved session."@,
                )
            } else {
                &&& command == Some(
                    AppCommand::LoadSession {
                        request_id: old(self)@.request_id("load-session"@),
                        session_id,
                    },
                )
                &&& final(self)@ == (GuiModel {
                    pending_session: Some(old(self)@.request_id("load-session"@)),
                    history_loading: true,
                    ..old(self)@.after_request()
                })
            },
    {
        if self.active.is_some() {
            self.local_error("busy", "Cancel the current work before loading a saved session.");
            return None;
        }
        let request_id = self.next_request_id("load-session");
        self.pending_session = Some(request_id);
        self.history_loading = true;
        Some(AppCommand::LoadSession { request_id, session_id })
    }

    pub fn new_session(&mut self)
        ensures
            final(self)@ == (if old(self)@.active is Some {
                old(self)@.with_error(
                    "busy"@,
                    "Cancel the current work before starting a new session."@,
                )
            } else if old(self)@.repository is None {
                old(self)@.with_error(
                    "repository_not_indexed"@,
                    "Index a repository before starting a session."@,
                )
            } else {
                GuiModel {
                    status: WorkStatus::Indexed,
                    history_open: false,
                    error: None,
                    ..old(self)@.with_new_session(old(self)@.repository->0.id)
                }
            }),
    {
        if self.active.is_some() {
            self.local_error("busy", "Cancel the current work before starting a new session.");
            return;
        }
        let repository_id = match self.indexed_id() {
            Some(repository_id) => repository_id,
            None => {
                self.local_error(
                    "repository_not_indexed",
                    "Index a repository before starting a session.",
                );
                return;
            },
        };
        self.clear_session();
        self.session_id = self.fresh_session_id(repository_id);
        self.session_repository_id = Some(repository_id);
        self.status = WorkStatus::Indexed;
        self.history_open = false;
        self.error = None;
    }

    /// Selects a task and restores its profile.
    pub fn select_task(&mut self, request_id: RequestId)
        ensures
            final(self)@ == (match gui_model::first_turn(old(self)@.turns, request_id) {
                Some(index) => GuiModel {
                    selected_task: Some(request_id),
                    profile: old(self)@.turns[index].profile,
                    ..old(self)@.without_selection()
                },
                None => old(self)@,
            }),
    {
        match find_turn(&self.turns, request_id) {
            Some(index) => {
                self.selected_task = Some(request_id);
                self.profile = self.turns[index].profile;
                self.selected_claim = None;
                self.selected_evidence = None;
                self.source = None;
            },
            None => {},
        }
    }

    /// Selects a claim, or nothing when it was selected already.
    pub fn select_claim(&mut self, claim_id: ClaimId)
        ensures
            final(self)@ == (GuiModel {
                selected_claim: if old(self)@.selected_claim == Some(claim_id) {
                    None
                } else {
                    Some(claim_id)
                },
                ..old(self)@.without_selection()
            }),
    {
        self.selected_claim = if self.selected_claim == Some(claim_id) {
            None
        } else {
            Some(claim_id)
        };
        self.selected_evidence = None;
        self.source = None;
    }

    #[must_use]
    pub fn load_evidence(&mut self, evidence_id: EvidenceId) -> (command: Option<AppCommand>)
        ensures
            match old(self)@.shown_evidence(evidence_id) {
                None => command is None && final(self)@ == old(self)@,
                Some(evidence) => if old(self)@.repository is None {
                    command is None && final(self)@ == old(self)@.showing(
                        evidence,
                        SourceStatus::ReadOnly,
                        Some("Index this session's repository to load source from disk."@),
                        None,
                    )
                } else if old(self)@.session_repository_id != old(self)@.indexed_id() {
                    command is None && final(self)@ == old(self)@.showing(
                        evidence,
                        SourceStatus::ReadOnly,
                        Some("Source loading is disabled for a cross-repository session."@),
                        None,
                    )
                } else {
                    let request_id = old(self)@.request_id("source"@);
                    &&& command == Some(
                        AppCommand::LoadSource {
                            request_id,
                            repository_id: old(self)@.repository->0.id,
                            path: evidence.path,
                            start_line: gui_model::line_range(evidence.span@).0,
                            end_line: Some(gui_model::line_range(evidence.span@).1),
                        },
                    )
                    &&& final(self)@ == old(self)@.after_request().showing(
                        evidence,
                        SourceStatus::Loading,
                        None,
                        Some(request_id),
                    )
                },
            },
    {
        let (path, lines, excerpt) = match self.selected_answer() {
            None => {
                return None;
            },
            Some(answer) => match find_evidence(&answer.evidence, evidence_id) {
                None => {
                    return None;
                },
                Some(index) => {
                    let evidence = &answer.evidence[index];
                    let excerpt = match &evidence.excerpt {
                        Some(excerpt) => excerpt.clone(),
                        None => String::new(),
                    };
                    (evidence.path.clone(), evidence_line_range(evidence), excerpt)
                },
            },
        };
        self.selected_evidence = Some(evidence_id);
        let repository_id = match self.indexed_id() {
            Some(repository_id) => repository_id,
            None => {
                self.source = Some(
                    SourceView {
                        evidence_id,
                        path,
                        start_line: lines.0,
                        end_line: lines.1,
                        content: excerpt,
                        status: SourceStatus::ReadOnly,
                        message: Some(
                            "Index this session's repository to load source from disk.".to_owned(),
                        ),
                        pending_request: None,
                        repository_id: None,
                    },
                );
                return None;
            },
        };
        if self.session_repository_id != Some(repository_id) {
            self.source = Some(
                SourceView {
                    evidence_id,
                    path,
                    start_line: lines.0,
                    end_line: lines.1,
                    content: excerpt,
                    status: SourceStatus::ReadOnly,
                    message: Some(
                        "Source loading is disabled for a cross-repository session.".to_owned(),
                    ),
                    pending_request: None,
                    repository_id: Some(repository_id),
                },
            );
            return None;
        }
        let request_id = self.next_request_id("source");
        self.source = Some(
            SourceView {
                evidence_id,
                path: path.clone(),
                start_line: lines.0,
                end_line: lines.1,
                content: excerpt,
                status: SourceStatus::Loading,
                message: None,
                pending_request: Some(request_id),
                repository_id: Some(repository_id),
            },
        );
        Some(
            AppCommand::LoadSource {
                request_id,
                repository_id,
                path,
                start_line: lines.0,
                end_line: Some(lines.1),
            },
        )
    }

    #[must_use]
    pub fn open_diagram(&mut self, diagram_id: DiagramId) -> (command: AppCommand)
        ensures
            command == (AppCommand::OpenDiagram {
                request_id: old(self)@.request_id("diagram"@),
                diagram_id,
            }),
            final(self)@ == old(self)@.opening(diagram_id),
    {
        let request_id = self.next_request_id("diagram");
        self.pending_diagrams.insert(request_id.value, diagram_id);
        self.diagram_messages.insert(
            diagram_id.value,
            "Opening diagram in the default viewer...".to_owned(),
        );
        assert(self@ =~~= old(self)@.opening(diagram_id));
        AppCommand::OpenDiagram { request_id, diagram_id }
    }
}

impl GuiState {
    fn is_active(&self, request_id: RequestId) -> (active: bool)
        ensures
            active == self@.is_active(request_id),
    {
        match self.active {
            Some(active) => active.id == request_id,
            None => false,
        }
    }

    fn active_is(&self, request_id: RequestId, kind: RequestKind) -> (active: bool)
        ensures
            active == self@.active_is(request_id, kind),
    {
        match self.active {
            Some(active) => active.id == request_id && active.kind == kind,
            None => false,
        }
    }

    /// Ends a request: settles its activity and records its outcome.
    fn finish_request(&mut self, request_id: RequestId, outcome: RequestOutcome)
        ensures
            final(self)@ == old(self)@.ended(request_id, outcome),
    {
        finish_running_activity(&mut self.activity, request_id, outcome);
        self.outcomes.insert(request_id.value, outcome);
        if self.is_active(request_id) {
            self.active = None;
        }
        assert(self@ =~~= old(self)@.ended(request_id, outcome));
    }

    /// Reduces one backend event without performing I/O.
    pub fn reduce(&mut self, event: AppEvent)
        ensures
            final(self)@ == old(self)@.reduced(event),
    {
        match event {
            AppEvent::Progress { request_id, progress } => {
                self.reduce_progress(request_id, progress);
            },
            AppEvent::ToolCallStarted { request_id, call } => {
                if self.is_active(request_id) {
                    start_tool(&mut self.activity, request_id, call.id, call.name.as_str());
                }
            },
            AppEvent::ToolCallCompleted { request_id, output } => {
                if self.is_active(request_id) {
                    complete_tool(&mut self.activity, request_id, output.call_id, output.is_error);
                }
            },
            // Candidate evidence is exploratory. Only AnswerCompleted carries verified final evidence.
            AppEvent::EvidenceAdded { .. } => {},
            AppEvent::AnswerDelta { request_id, delta } => {
                self.reduce_delta(request_id, delta.as_str());
            },
            AppEvent::AnswerCompleted { request_id, answer } => {
                self.reduce_answer_completed(request_id, answer);
            },
            AppEvent::UsageUpdated { request_id, usage } => {
                self.reduce_usage_updated(request_id, usage);
            },
            // Ledgers, budgets and traces are kept by the runtime.
            AppEvent::ModelCallRecorded { .. } => {},
            AppEvent::BudgetUpdated { .. } => {},
            AppEvent::BudgetExceeded { .. } => {},
            AppEvent::TaskTraceRecorded { .. } => {},
            AppEvent::IndexCompleted {
                request_id,
                repository_id,
                file_count,
                symbol_count,
                repository_map,
            } => {
                self.reduce_index_completed(
                    request_id,
                    repository_id,
                    file_count,
                    symbol_count,
                    repository_map,
                );
            },
            AppEvent::SourceLoaded {
                request_id,
                repository_id,
                path,
                start_line,
                end_line,
                content,
            } => {
                self.reduce_source_loaded(
                    request_id,
                    repository_id,
                    &path,
                    start_line,
                    end_line,
                    content,
                );
            },
            AppEvent::Cancelled { request_id } => {
                self.reduce_cancelled(request_id);
            },
            AppEvent::SessionsListed { request_id, sessions } => {
                if self.pending_history == Some(request_id) {
                    self.pending_history = None;
                    self.sessions = sessions;
                    self.history_loading = false;
                }
            },
            AppEvent::SessionLoaded { request_id, session } => {
                self.reduce_session_loaded(request_id, session);
            },
            AppEvent::DiagramOpened { request_id, diagram_id } => {
                self.reduce_diagram_opened(request_id, diagram_id);
            },
            AppEvent::Error { request_id, error } => {
                self.reduce_error(request_id, error);
            },
        }
    }

    fn reduce_progress(&mut self, request_id: RequestId, progress: Progress)
        ensures
            final(self)@ == old(self)@.on_progress(request_id, progress),
    {
        if !self.is_active(request_id) {
            return;
        }
        let coalesce_file_progress = self.active_is(request_id, RequestKind::Index);
        self.record_progress(request_id, progress, coalesce_file_progress);
    }

    /// Records a progress report. Nothing but the progress of its own request changes:
    /// the items of other requests, and those that are no progress, stay as they were
    /// and in their order; no request gets more progress items than it may; and where
    /// reports on single files are merged, the last one of the phase shows the new
    /// report.
    pub fn record_progress(
        &mut self,
        request_id: RequestId,
        progress: Progress,
        coalesce_file_progress: bool,
    )
        ensures
            final(self)@ == (GuiModel {
                activity: gui_model::with_progress(
                    old(self)@.activity,
                    request_id,
                    progress,
                    coalesce_file_progress,
                ),
                ..old(self)@
            }),
            gui_model::apart_from_progress(final(self)@.activity, request_id)
                == gui_model::apart_from_progress(old(self)@.activity, request_id),
            old(self)@.progress_is_bounded() ==> final(self)@.progress_is_bounded(),
            coalesce_file_progress && (progress.phase == ProgressPhase::Parsing || progress.phase
                == ProgressPhase::Indexing) ==> (match gui_model::last_phase(
                old(self)@.activity,
                request_id,
                progress.phase,
            ) {
                Some(index) => {
                    &&& final(self)@.activity.len() == old(self)@.activity.len()
                    &&& 0 <= index < old(self)@.activity.len()
                    &&& final(self)@.activity[index].title == progress.message@
                },
                None => true,
            }),
    {
        let ghost given = self@;
        let ghost reported = progress;
        add_progress(&mut self.activity, request_id, progress, coalesce_file_progress);
        proof {
            gui_model::law_progress_leaves_the_rest(
                given.activity,
                request_id,
                reported,
                coalesce_file_progress,
                request_id,
            );
            assert forall|owner: RequestId|
                given.progress_is_bounded() implies #[trigger] gui_model::progress_count(
                self@.activity,
                owner,
            ) <= MAX_PROGRESS_ITEMS_PER_REQUEST by {
                assert(gui_model::progress_count(given.activity, owner)
                    <= MAX_PROGRESS_ITEMS_PER_REQUEST);
                gui_model::law_progress_leaves_the_rest(
                    given.activity,
                    request_id,
                    reported,
                    coalesce_file_progress,
                    owner,
                );
            }
            gui_model::lemma_last_phase_found(given.activity, request_id, reported.phase);
        }
    }

    fn reduce_delta(&mut self, request_id: RequestId, delta: &str)
        ensures
            final(self)@ == old(self)@.on_delta(request_id, delta@),
    {
        if !self.active_is(request_id, RequestKind::Ask) {
            return;
        }
        match find_turn(&self.turns, request_id) {
            Some(index) => {
                self.turns[index].answer_text.push_str(delta);
                assert(self@.turns =~= old(self)@.turns.update(
                    index as int,
                    self.turns@[index as int]@,
                ));
            },
            None => {},
        }
    }

    /// What is known of the usage of a request.
    fn known_usage(&self, request_id: RequestId) -> (usage: Option<ModelUsage>)
        ensures
            usage == gui_model::usage_of(self@.usage, request_id),
    {
        match self.usage.get(&request_id.value) {
            Some(usage) => Some(usage.clone()),
            None => None,
        }
    }

    /// Gives a turn its answer.
    fn answer_turn(&mut self, request_id: RequestId, answer: AgentAnswer)
        ensures
            final(self)@ == (GuiModel {
                turns: match gui_model::first_turn(old(self)@.turns, request_id) {
                    Some(index) => old(self)@.turns.update(
                        index,
                        gui_model::TurnShown {
                            answer_text: answer.text@,
                            answer: Some(answer),
                            status: TurnStatus::Completed,
                            ..old(self)@.turns[index]
                        },
                    ),
                    None => old(self)@.turns,
                },
                ..old(self)@
            }),
    {
        match find_turn(&self.turns, request_id) {
            Some(index) => {
                self.turns[index].answer_text = answer.text.clone();
                self.turns[index].answer = Some(answer);
                self.turns[index].status = TurnStatus::Completed;
                assert(self@.turns =~= old(self)@.turns.update(
                    index as int,
                    self.turns@[index as int]@,
                ));
            },
            None => {},
        }
    }

    fn reduce_answer_completed(&mut self, request_id: RequestId, answer: AgentAnswer)
        ensures
            final(self)@ == old(self)@.on_answer(request_id, answer),
    {
        if !self.active_is(request_id, RequestKind::Ask) || self.outcomes.contains_key(
            &request_id.value,
        ) {
            return;
        }
        let ghost given = answer;
        let mut answer = answer;
        let stored_usage = self.known_usage(request_id);
        let usage = match answer.usage {
            Some(answer_usage) => Some(merge_usage(stored_usage, answer_usage)),
            None => stored_usage,
        };
        answer.usage = match &usage {
            Some(usage) => Some(usage.clone()),
            None => None,
        };
        assert(answer == AgentAnswer { usage, ..given });
        match usage {
            Some(usage) => {
                self.usage.insert(request_id.value, usage);
            },
            None => {},
        }
        self.answer_turn(request_id, answer);
        self.finish_request(request_id, RequestOutcome::Completed);
        self.status = WorkStatus::AnswerReady;
        self.selected_task = Some(request_id);
        self.selected_claim = None;
        self.selected_evidence = None;
        self.source = None;
    }

    /// Tests whether a usage report belongs to something that is shown.
    fn wants_usage(&self, request_id: RequestId) -> (wanted: bool)
        ensures
            wanted == self@.usage_is_wanted(request_id),
    {
        if self.is_active(request_id) {
            return true;
        }
        let mut index: usize = 0;
        while index < self.turns.len()
            invariant
                index <= self.turns@.len(),
                !self@.is_active(request_id),
                forall|i: int|
                    0 <= i < index ==> !((#[trigger] self@.turns[i]).request_id == request_id
                        && self@.turns[i].answer is Some),
            decreases self.turns@.len() - index,
        {
            assert(self@.turns[index as int] == self.turns@[index as int]@);
            if self.turns[index].request_id == request_id && self.turns[index].answer.is_some() {
                return true;
            }
            index = index + 1;
        }
        false
    }

    fn reduce_usage_updated(&mut self, request_id: RequestId, usage: ModelUsage)
        ensures
            final(self)@ == old(self)@.on_usage(request_id, usage),
    {
        if !self.wants_usage(request_id) {
            return;
        }
        let usage = merge_usage(self.known_usage(request_id), usage);
        match find_turn(&self.turns, request_id) {
            Some(index) => {
                let mut turn = self.turns.remove(index);
                let ghost taken = turn;
                match turn.answer {
                    Some(answer) => {
                        let mut answer = answer;
                        answer.usage = Some(usage.clone());
                        turn.answer = Some(answer);
                    },
                    None => {
                        turn.answer = None;
                    },
                }
                self.turns.insert(index, turn);
                assert(self@.turns =~= old(self)@.turns.update(index as int, turn@));
                assert(taken.answer is None ==> self@.turns =~= old(self)@.turns);
            },
            None => {},
        }
        self.usage.insert(request_id.value, usage);
    }

    fn reduce_index_completed(
        &mut self,
        request_id: RequestId,
        repository_id: RepositoryId,
        file_count: u64,
        symbol_count: u64,
        map: RepositoryMap,
    )
        ensures
            final(self)@ == old(self)@.on_indexed(
                request_id,
                repository_id,
                file_count,
                symbol_count,
                map,
            ),
    {
        if !self.active_is(request_id, RequestKind::Index) {
            return;
        }
        let path = match &self.pending_index_path {
            Some(pending) => {
                if pending.0 != request_id {
                    return;
                }
                pending.1.clone()
            },
            None => {
                return;
            },
        };
        self.pending_index_path = None;
        self.repository = Some(
            RepositoryView { path, id: repository_id, file_count, symbol_count, map },
        );
        self.clear_session();
        self.session_id = self.fresh_session_id(repository_id);
        self.session_repository_id = Some(repository_id);
        self.finish_request(request_id, RequestOutcome::Completed);
        self.status = WorkStatus::Indexed;
        self.panel = WorkspacePanel::Conversation;
    }

    fn reduce_source_loaded(
        &mut self,
        request_id: RequestId,
        repository_id: RepositoryId,
        path: &RepositoryPath,
        start_line: u32,
        end_line: u32,
        content: String,
    )
        ensures
            final(self)@ == old(self)@.on_source(
                request_id,
                repository_id,
                *path,
                start_line,
                end_line,
                content@,
            ),
    {
        match &mut self.source {
            Some(source) => {
                if source.pending_request != Some(request_id) || source.repository_id != Some(
                    repository_id,
                ) || !source.path.same(path) || source.start_line != start_line {
                    return;
                }
                source.end_line = end_line;
                source.content = content;
                source.status = SourceStatus::Loaded;
                source.message = None;
                source.pending_request = None;
            },
            None => {},
        }
    }

    fn reduce_cancelled(&mut self, request_id: RequestId)
        ensures
            final(self)@ == old(self)@.on_cancelled(request_id),
    {
        let target_request_id = match self.active {
            Some(active) => if active.cancel_id == Some(request_id) {
                active.id
            } else {
                request_id
            },
            None => request_id,
        };
        if !self.is_active(target_request_id) || self.outcomes.contains_key(
            &target_request_id.value,
        ) {
            return;
        }
        if request_id != target_request_id {
            self.outcomes.insert(request_id.value, RequestOutcome::Cancelled);
        }
        set_turn_status(&mut self.turns, target_request_id, TurnStatus::Cancelled);
        self.finish_request(target_request_id, RequestOutcome::Cancelled);
        self.status = WorkStatus::Cancelled;
    }

    /// Restores one task of a session, whose answer is handed over.
    fn restore_task(&mut self, task: &SessionTask, answer: Option<AgentAnswer>)
        ensures
            final(self)@ == old(self)@.with_task((SessionTask { answer, ..*task })),
    {
        let ghost whole = SessionTask { answer, ..*task };
        let request_id = task.request_id;
        let outcome = match task.status {
            SessionTaskStatus::Completed => RequestOutcome::Completed,
            SessionTaskStatus::Cancelled => RequestOutcome::Cancelled,
            SessionTaskStatus::Failed | SessionTaskStatus::BudgetExceeded => RequestOutcome::Failed,
        };
        let ghost start = activity_shown(self.activity@);
        let ghost before = self@;
        let mut index: usize = 0;
        assert(task.trajectory@.take(0) =~= Seq::empty());
        while index < task.trajectory.len()
            invariant
                index <= task.trajectory@.len(),
                before == old(self)@,
                start == before.activity,
                request_id == task.request_id,
                self@.activity == gui_model::with_trajectory(
                    start,
                    request_id,
                    task.trajectory@.take(index as int),
                ),
                self@ == (GuiModel { activity: self@.activity, ..before }),
            decreases task.trajectory@.len() - index,
        {
            assert(task.trajectory@.take(index + 1).drop_last() =~= task.trajectory@.take(
                index as int,
            ));
            restore_activity(&mut self.activity, request_id, &task.trajectory[index]);
            index = index + 1;
        }
        assert(task.trajectory@.take(task.trajectory@.len() as int) =~= task.trajectory@);
        finish_running_activity(&mut self.activity, request_id, outcome);
        match &answer {
            Some(answer) => match &answer.usage {
                Some(usage) => {
                    self.usage.insert(request_id.value, usage.clone());
                },
                None => {},
            },
            None => {},
        }
        let answer_text = match &answer {
            Some(answer) => answer.text.clone(),
            None => String::new(),
        };
        let status = match outcome {
            RequestOutcome::Completed => TurnStatus::Completed,
            RequestOutcome::Cancelled => TurnStatus::Cancelled,
            RequestOutcome::Failed => TurnStatus::Failed,
        };
        self.turns.push(
            TurnView {
                request_id,
                question: task.question.clone(),
                profile: task.profile,
                answer_text,
                answer,
                status,
            },
        );
        assert(self@.turns =~~= before.turns.push(gui_model::recorded_turn(whole)));
        self.outcomes.insert(request_id.value, outcome);
        assert(self@ =~~= before.with_task(whole));
    }

    /// Restores the tasks of a session, in order.
    fn restore_tasks(&mut self, tasks: Vec<SessionTask>)
        ensures
            final(self)@ == old(self)@.with_tasks(tasks@),
    {
        let ghost base = self@;
        let ghost given = tasks@;
        let mut tasks = tasks;
        let mut index: usize = 0;
        assert(given.take(0) =~= Seq::empty());
        while index < tasks.len()
            invariant
                index <= tasks@.len(),
                tasks@.len() == given.len(),
                forall|i: int| index <= i < given.len() ==> tasks@[i] == #[trigger] given[i],
                self@ == base.with_tasks(given.take(index as int)),
            decreases tasks@.len() - index,
        {
            assert(given.take(index + 1).drop_last() =~= given.take(index as int));
            let answer = tasks[index].answer.take();
            assert((SessionTask { answer, ..tasks@[index as int] }) == given[index as int]);
            self.restore_task(&tasks[index], answer);
            index = index + 1;
        }
        assert(given.take(given.len() as int) =~= given);
    }

    /// Replaces the session that is shown by an empty one.
    fn open_session(&mut self, session_id: SessionId, repository_id: RepositoryId)
        ensures
            final(self)@ == old(self)@.with_session(session_id, repository_id),
    {
        self.pending_session = None;
        self.clear_session();
        self.session_id = session_id;
        self.session_repository_id = Some(repository_id);
    }

    /// Selects the last task.
    fn select_last(&mut self)
        ensures
            final(self)@ == old(self)@.with_last_selected(),
    {
        if self.turns.len() == 0 {
            self.selected_task = None;
            self.status = WorkStatus::Indexed;
        } else {
            let last = self.turns.len() - 1;
            self.selected_task = Some(self.turns[last].request_id);
            self.profile = self.turns[last].profile;
            self.status = WorkStatus::AnswerReady;
        }
        self.history_loading = false;
        self.history_open = false;
        self.error = None;
    }

    fn reduce_session_loaded(&mut self, request_id: RequestId, session: SessionContext)
        ensures
            final(self)@ == old(self)@.on_session(request_id, session),
    {
        if self.pending_session != Some(request_id) {
            return;
        }
        self.open_session(session.session_id, session.repository_id);
        self.restore_tasks(session.tasks);
        self.select_last();
    }

    fn reduce_diagram_opened(&mut self, request_id: RequestId, diagram_id: DiagramId)
        ensures
            final(self)@ == old(self)@.on_diagram(request_id, diagram_id),
    {
        let expected = match self.pending_diagrams.get(&request_id.value) {
            Some(pending) => *pending == diagram_id,
            None => false,
        };
        if expected {
            self.pending_diagrams.remove(&request_id.value);
            self.diagram_messages.insert(
                diagram_id.value,
                "Diagram opened in the default viewer.".to_owned(),
            );
            assert(self@ =~~= old(self)@.on_diagram(request_id, diagram_id));
        }
    }

    fn reduce_error(&mut self, request_id: Option<RequestId>, error: AppError)
        ensures
            final(self)@ == old(self)@.on_error(request_id, error),
    {
        let request_id = match request_id {
            Some(request_id) => request_id,
            None => {
                self.fail_active(present_error(error));
                return;
            },
        };
        let source_matches = match &self.source {
            Some(source) => source.pending_request == Some(request_id),
            None => false,
        };
        if source_matches {
            match &mut self.source {
                Some(source) => {
                    source.status = SourceStatus::Failed;
                    source.message = Some(error.message);
                    source.pending_request = None;
                },
                None => {},
            }
            return;
        }
        match self.pending_diagrams.remove(&request_id.value) {
            Some(diagram_id) => {
                let notice = present_error(error);
                let mut message = "Could not open diagram: ".to_owned();
                message.push_str(notice.message.as_str());
                self.diagram_messages.insert(diagram_id.value, message);
                self.error = Some(notice);
                assert(self@ =~~= old(self)@.on_error(Some(request_id), error));
            },
            None => {
                assert(self@.pending_diagrams =~= old(self)@.pending_diagrams);
                self.reduce_request_error(request_id, error);
            },
        }
    }

    /// Fails whatever is active.
    fn fail_active(&mut self, notice: UiError)
        ensures
            final(self)@ == old(self)@.on_general_error(notice@),
    {
        self.error = Some(notice);
        match self.active {
            Some(active) => {
                set_turn_status(&mut self.turns, active.id, TurnStatus::Failed);
                finish_running_activity(&mut self.activity, active.id, RequestOutcome::Failed);
            },
            None => {},
        }
        self.active = None;
        self.status = WorkStatus::Error;
    }

    fn reduce_request_error(&mut self, request_id: RequestId, error: AppError)
        ensures
            final(self)@ == old(self)@.on_request_error(request_id, error),
    {
        let history_failed = self.pending_history == Some(request_id);
        let session_failed = self.pending_session == Some(request_id);
        if history_failed {
            self.pending_history = None;
            self.history_loading = false;
        }
        if session_failed {
            self.pending_session = None;
            self.history_loading = false;
        }
        let notice = present_error(error);
        let non_fatal = text::same_text(notice.code.as_str(), "diagram_generation_failed")
            || text::same_text(notice.code.as_str(), "session_update_failed") || text::same_text(
            notice.code.as_str(),
            "session_save_failed",
        );
        if non_fatal && (self.is_active(request_id) || find_turn(
            &self.turns,
            request_id,
        ).is_some()) {
            self.notices.push(notice);
            assert(self@.notices =~= old(self)@.notices.push(notice@));
            return;
        }
        match self.active {
            Some(active) => {
                if active.cancel_id == Some(request_id) {
                    self.active = Some(
                        ActiveRequest { id: active.id, kind: active.kind, cancel_id: None },
                    );
                    self.status = match active.kind {
                        RequestKind::Index => WorkStatus::Indexing,
                        RequestKind::Ask => WorkStatus::Thinking,
                    };
                    self.error = Some(notice);
                    return;
                }
            },
            None => {},
        }
        if self.is_active(request_id) {
            set_turn_status(&mut self.turns, request_id, TurnStatus::Failed);
            self.finish_request(request_id, RequestOutcome::Failed);
            self.status = WorkStatus::Error;
            self.error = Some(notice);
        } else if history_failed || session_failed {
            self.error = Some(notice);
        }
    }
}

/// The larger of two reports of the usage of one request.
fn merge_usage(current: Option<ModelUsage>, newer: ModelUsage) -> (merged: ModelUsage)
    ensures
        merged == gui_model::merged_usage(current, newer),
{
    match current {
        Some(usage) => if usage.tokens.total_tokens > newer.tokens.total_tokens {
            usage
        } else {
            newer
        },
        None => newer,
    }
}

/// A text without the blanks around it, if anything is left of it.
fn trimmed(text: &str) -> (rest: Option<String>)
    ensures
        match rest {
            Some(rest) => rest@ == text::trim(text@) && rest@.len() > 0,
            None => text::trim(text@).len() == 0,
        },
{
    let chars = text::chars_of(text);
    let rest = text::trim_chars(chars.as_slice());
    if rest.len() == 0 {
        None
    } else {
        Some(text::string_of(rest))
    }
}

fn find_evidence(evidence: &Vec<Evidence>, id: EvidenceId) -> (found: Option<usize>)
    ensures
        match found {
            Some(index) => index < evidence@.len() && gui_model::first_evidence(evidence@, id)
                == Some(index as int) && evidence@[index as int].id == id,
            None => gui_model::first_evidence(evidence@, id) is None,
        },
{
    let mut index: usize = 0;
    while index < evidence.len()
        invariant
            index <= evidence@.len(),
            gui_model::first_evidence(evidence@.take(index as int), id) is None,
        decreases evidence@.len() - index,
    {
        assert(evidence@.take(index + 1).drop_last() =~= evidence@.take(index as int));
        if evidence[index].id == id {
            proof {
                lemma_first_evidence_stays(evidence@, id, index + 1);
            }
            return Some(index);
        }
        index = index + 1;
    }
    assert(evidence@.take(evidence@.len() as int) =~= evidence@);
    None
}

pub proof fn lemma_first_evidence_stays(evidence: Seq<Evidence>, id: EvidenceId, few: int)
    requires
        0 <= few <= evidence.len(),
        gui_model::first_evidence(evidence.take(few), id) is Some,
    ensures
        gui_model::first_evidence(evidence, id) == gui_model::first_evidence(
            evidence.take(few),
            id,
        ),
    decreases evidence.len(),
{
    if few == evidence.len() {
        assert(evidence.take(few) =~= evidence);
    } else {
        assert(evidence.drop_last().take(few) =~= evidence.take(few));
        lemma_first_evidence_stays(evidence.drop_last(), id, few);
    }
}

/// Tests whether a claim with an ID cites an evidence.
fn cites(claims: &Vec<Claim>, claim_id: ClaimId, evidence_id: EvidenceId) -> (found: bool)
    ensures
        found == gui_model::claim_cites(claims@, claim_id, evidence_id),
{
    let mut index: usize = 0;
    while index < claims.len()
        invariant
            index <= claims@.len(),
            forall|i: int|
                0 <= i < index ==> !((#[trigger] claims@[i]).id == claim_id
                    && claims@[i].evidence_ids@.contains(evidence_id)),
        decreases claims@.len() - index,
    {
        if claims[index].id == claim_id && holds_id(
            &claims[index].evidence_ids,
            evidence_id,
        ) {
            return true;
        }
        index = index + 1;
    }
    false
}

fn holds_id(ids: &Vec<EvidenceId>, wanted: EvidenceId) -> (found: bool)
    ensures
        found == ids@.contains(wanted),
{
    let mut index: usize = 0;
    while index < ids.len()
        invariant
            index <= ids@.len(),
            forall|i: int| 0 <= i < index ==> ids@[i] != wanted,
        decreases ids@.len() - index,
    {
        if ids[index] == wanted {
            return true;
        }
        index = index + 1;
    }
    false
}

} // verus!
