//! What a user of the workspace can rely on: what is shown of every event, and what
//! every event leaves as it was.
use crate::app::{AppError, AppEvent, Progress, RepositoryMap};
use crate::evidence::{AgentAnswer, Evidence, SuggestedAction};
use crate::explanation::ExplanationProfile;
use crate::gui_model;
use crate::gui_model::{
    ActiveRequest, ActivityShown, ActivityStatus, ErrorShown, GuiModel, RequestKind,
    RequestOutcome, SourceStatus, TurnShown, TurnStatus, WorkStatus,
};
use crate::id::{DiagramId, EvidenceId, RepositoryId, RequestId, ToolCallId};
use crate::model::ModelUsage;
use crate::path::RepositoryPath;
use crate::session::{SessionContext, SessionTask, SessionTaskStatus, WorkflowEvent};
use crate::text;
use crate::tool::{ToolCall, ToolOutput};
use vstd::prelude::*;

verus! {

/// Whether the turn at `i` is the first of a request.
pub open spec fn is_first(turns: Seq<TurnShown>, request_id: RequestId, i: int) -> bool {
    &&& 0 <= i < turns.len()
    &&& turns[i].request_id == request_id
    &&& forall|j: int| 0 <= j < i ==> (#[trigger] turns[j]).request_id != request_id
}

/// Whether no turn is of a request.
pub open spec fn has_none(turns: Seq<TurnShown>, request_id: RequestId) -> bool {
    forall|j: int| 0 <= j < turns.len() ==> (#[trigger] turns[j]).request_id != request_id
}

proof fn lemma_first_turn(turns: Seq<TurnShown>, request_id: RequestId)
    ensures
        match gui_model::first_turn(turns, request_id) {
            Some(i) => is_first(turns, request_id, i),
            None => has_none(turns, request_id),
        },
    decreases turns.len(),
{
    if turns.len() > 0 {
        let rest = turns.drop_last();
        lemma_first_turn(rest, request_id);
        assert forall|j: int| 0 <= j < rest.len() implies rest[j] == turns[j] by {}
        match gui_model::first_turn(rest, request_id) {
            Some(i) => {
                assert(turns[i] == rest[i]);
                assert forall|j: int| 0 <= j < i implies (#[trigger] turns[j]).request_id
                    != request_id by {
                    assert(rest[j] == turns[j]);
                }
            },
            None => {
                assert forall|j: int| 0 <= j < rest.len() implies (#[trigger] turns[j]).request_id
                    != request_id by {
                    assert(rest[j] == turns[j]);
                }
            },
        }
    }
}

/// The first turn of a request is the one that is found.
proof fn lemma_is_first(turns: Seq<TurnShown>, request_id: RequestId, i: int)
    requires
        is_first(turns, request_id, i),
    ensures
        gui_model::first_turn(turns, request_id) == Some(i),
{
    lemma_first_turn(turns, request_id);
    match gui_model::first_turn(turns, request_id) {
        Some(k) => {
            if k < i {
                assert(turns[k].request_id != request_id);
            }
        },
        None => {
            assert(turns[i].request_id != request_id);
        },
    }
}

/// The answer that is shown is that of the selected turn; without a selection, or where
/// no turn is of the selected request, it is that of the last turn.
pub proof fn law_selected_answer_is_shown(model: GuiModel, i: int)
    requires
        0 <= i < model.turns.len(),
        match model.selected_task {
            Some(request_id) => is_first(model.turns, request_id, i) || has_none(
                model.turns,
                request_id,
            ) && i == model.turns.len() - 1,
            None => i == model.turns.len() - 1,
        },
    ensures
        model.shown_answer() == model.turns[i].answer,
        model.shown_usage() == if model.usage.contains_key(model.turns[i].request_id.value) {
            Some(model.usage[model.turns[i].request_id.value])
        } else {
            match model.turns[i].answer {
                Some(answer) => answer.usage,
                None => None,
            }
        },
{
    match model.selected_task {
        Some(request_id) => {
            lemma_first_turn(model.turns, request_id);
            if is_first(model.turns, request_id, i) {
                lemma_is_first(model.turns, request_id, i);
            }
        },
        None => {},
    }
}

/// Whether turns differ at one place at most.
pub open spec fn others_kept(before: Seq<TurnShown>, after: Seq<TurnShown>, i: int) -> bool {
    after.len() == before.len() && forall|j: int|
        0 <= j < before.len() && j != i ==> #[trigger] after[j] == before[j]
}

/// A piece of an answer is put behind the text of the turn of its request, and nothing
/// else changes.
pub proof fn law_delta_extends_the_answer(
    model: GuiModel,
    request_id: RequestId,
    delta: String,
    i: int,
)
    requires
        model.active matches Some(active) && active.id == request_id && active.kind
            == RequestKind::Ask,
        is_first(model.turns, request_id, i),
    ensures
        ({
            let after = model.reduced(AppEvent::AnswerDelta { request_id, delta });
            let before = model.turns[i];
            &&& after.turns[i].answer_text == before.answer_text + delta@
            &&& after.turns[i].question == before.question
            &&& after.turns[i].profile == before.profile
            &&& after.turns[i].answer == before.answer
            &&& after.turns[i].status == before.status
            &&& after.turns[i].request_id == request_id
            &&& others_kept(model.turns, after.turns, i)
            &&& GuiModel { turns: model.turns, ..after } == model
        }),
{
    lemma_is_first(model.turns, request_id, i);
}

/// A completed answer takes the place of what was streamed: the turn of its request has
/// its text and its parts and is completed. The turn is selected, nothing below the
/// answer is, the request is over, and of two reports of its usage the larger one counts.
pub proof fn law_answer_completes_its_turn(
    model: GuiModel,
    request_id: RequestId,
    answer: AgentAnswer,
    i: int,
)
    requires
        model.active matches Some(active) && active.id == request_id && active.kind
            == RequestKind::Ask,
        !model.outcomes.contains_key(request_id.value),
        is_first(model.turns, request_id, i),
    ensures
        ({
            let after = model.reduced(AppEvent::AnswerCompleted { request_id, answer });
            let before = model.turns[i];
            let turn = after.turns[i];
            &&& turn.answer_text == answer.text@
            &&& turn.answer matches Some(shown) && AgentAnswer { usage: answer.usage, ..shown }
                == answer
            &&& turn.status == TurnStatus::Completed
            &&& turn.question == before.question
            &&& turn.profile == before.profile
            &&& turn.request_id == request_id
            &&& others_kept(model.turns, after.turns, i)
            &&& after.status == WorkStatus::AnswerReady
            &&& after.selected_task == Some(request_id)
            &&& after.selected_claim is None
            &&& after.selected_evidence is None
            &&& after.source is None
            &&& after.active is None
            &&& after.outcomes == model.outcomes.insert(request_id.value, RequestOutcome::Completed)
            &&& after.repository == model.repository
            &&& after.question_input == model.question_input
            &&& after.session_id == model.session_id
            &&& activity_rested(
                model.activity,
                after.activity,
                request_id,
                ActivityStatus::Complete,
            )
            &&& answer.usage matches Some(usage) ==> {
                &&& after.usage.contains_key(request_id.value)
                &&& turn.answer->0.usage == Some(after.usage[request_id.value])
                &&& after.usage[request_id.value].tokens.total_tokens >= usage.tokens.total_tokens
                &&& after.usage[request_id.value] == usage || model.usage.contains_key(
                    request_id.value,
                ) && after.usage[request_id.value] == model.usage[request_id.value]
            }
        }),
{
    lemma_is_first(model.turns, request_id, i);
    lemma_settled(model.activity, request_id, RequestOutcome::Completed);
}

/// Whether nothing of a request is running any more, and all else is as it was.
pub open spec fn activity_rested(
    before: Seq<ActivityShown>,
    after: Seq<ActivityShown>,
    request_id: RequestId,
    status: ActivityStatus,
) -> bool {
    &&& after.len() == before.len()
    &&& forall|k: int|
        0 <= k < before.len() ==> {
            let item = before[k];
            if item.request_id == request_id && item.status == ActivityStatus::Running {
                &&& (#[trigger] after[k]).status == status
                &&& after[k].title == item.title
                &&& after[k].request_id == item.request_id
                &&& after[k].call_id == item.call_id
                &&& after[k].progress_phase == item.progress_phase
            } else {
                after[k] == item
            }
        }
}

proof fn lemma_settled(
    activity: Seq<ActivityShown>,
    request_id: RequestId,
    outcome: RequestOutcome,
)
    ensures
        activity_rested(
            activity,
            gui_model::settled(activity, request_id, outcome),
            request_id,
            match outcome {
                RequestOutcome::Completed => ActivityStatus::Complete,
                RequestOutcome::Cancelled => ActivityStatus::Cancelled,
                RequestOutcome::Failed => ActivityStatus::Failed,
            },
        ),
{
}

/// Whether a running turn of a request got a status, and all else of the turns is as it
/// was.
pub open spec fn turn_stopped(
    before: Seq<TurnShown>,
    after: Seq<TurnShown>,
    request_id: RequestId,
    status: TurnStatus,
) -> bool {
    &&& after.len() == before.len()
    &&& forall|i: int|
        0 <= i < before.len() ==> {
            let own = is_first(before, request_id, i) && before[i].status == TurnStatus::Running;
            &&& own ==> (#[trigger] after[i]).status == status && TurnShown {
                status: TurnStatus::Running,
                ..after[i]
            } == before[i]
            &&& !own ==> after[i] == before[i]
        }
}

proof fn lemma_turn_ended(turns: Seq<TurnShown>, request_id: RequestId, status: TurnStatus)
    ensures
        turn_stopped(
            turns,
            gui_model::turn_ended(turns, request_id, status),
            request_id,
            status,
        ),
{
    lemma_first_turn(turns, request_id);
    let after = gui_model::turn_ended(turns, request_id, status);
    assert forall|i: int| 0 <= i < turns.len() implies {
        let own = is_first(turns, request_id, i) && turns[i].status == TurnStatus::Running;
        &&& own ==> (#[trigger] after[i]).status == status && TurnShown {
            status: TurnStatus::Running,
            ..after[i]
        } == turns[i]
        &&& !own ==> after[i] == turns[i]
    } by {
        if is_first(turns, request_id, i) {
            lemma_is_first(turns, request_id, i);
        }
    }
}

/// A cancellation stops the active request: its turn and what runs for it are cancelled,
/// and everything else stays.
pub proof fn law_cancelled_request_is_stopped(model: GuiModel, request_id: RequestId)
    requires
        model.active matches Some(active) && (active.id == request_id || active.cancel_id == Some(
            request_id,
        )) && !model.outcomes.contains_key(active.id.value),
    ensures
        ({
            let own = model.active->0.id;
            let after = model.reduced(AppEvent::Cancelled { request_id });
            &&& turn_stopped(model.turns, after.turns, own, TurnStatus::Cancelled)
            &&& activity_rested(model.activity, after.activity, own, ActivityStatus::Cancelled)
            &&& after.status == WorkStatus::Cancelled
            &&& after.active is None
            &&& after.outcomes.contains_key(own.value)
            &&& after.outcomes[own.value] == RequestOutcome::Cancelled
            &&& GuiModel {
                turns: model.turns,
                activity: model.activity,
                status: model.status,
                active: model.active,
                outcomes: model.outcomes,
                ..after
            } == model
        }),
{
    lemma_turn_ended(model.turns, model.active->0.id, TurnStatus::Cancelled);
    lemma_settled(model.activity, model.active->0.id, RequestOutcome::Cancelled);
}

/// Whether an error is shown with its code and its message; what a provider says of a
/// rejected key is not repeated.
pub open spec fn error_shown(error: AppError, shown: ErrorShown) -> bool {
    let rejected = error.code@ == "model_error"@ && (text::contains(error.message@, "HTTP 401"@)
        || text::contains(error.message@, "invalid_api_key"@) || text::contains(
        error.message@,
        "Incorrect API key"@,
    ));
    &&& shown.code == error.code@
    &&& shown.retryable == error.retryable
    &&& !rejected ==> shown.message == error.message@
    &&& rejected ==> shown.message == gui_model::authentication_message()
}

/// An error that belongs to the active request, and is none that leaves it unharmed,
/// fails it: its turn and what runs for it failed, and the error is shown.
pub proof fn law_failed_request_is_stopped(
    model: GuiModel,
    request_id: RequestId,
    error: AppError,
)
    requires
        model.active matches Some(active) && active.id == request_id && active.cancel_id != Some(
            request_id,
        ),
        model.source matches Some(source) ==> source.pending_request != Some(request_id),
        !model.pending_diagrams.contains_key(request_id.value),
        error.code@ != "diagram_generation_failed"@,
        error.code@ != "session_update_failed"@,
        error.code@ != "session_save_failed"@,
    ensures
        ({
            let after = model.reduced(AppEvent::Error { request_id: Some(request_id), error });
            &&& turn_stopped(model.turns, after.turns, request_id, TurnStatus::Failed)
            &&& activity_rested(model.activity, after.activity, request_id, ActivityStatus::Failed)
            &&& after.status == WorkStatus::Error
            &&& after.active is None
            &&& after.error matches Some(shown) && error_shown(error, shown)
            &&& after.outcomes == model.outcomes.insert(request_id.value, RequestOutcome::Failed)
            &&& after.repository == model.repository
            &&& after.selected_task == model.selected_task
            &&& after.notices == model.notices
            &&& after.usage == model.usage
        }),
{
    lemma_turn_ended(model.turns, request_id, TurnStatus::Failed);
    lemma_settled(model.activity, request_id, RequestOutcome::Failed);
}

/// An error of a step behind an answer leaves the request as it is and is noted.
pub proof fn law_harmless_error_is_noted(model: GuiModel, request_id: RequestId, error: AppError)
    requires
        (model.active matches Some(active) && active.id == request_id) || !has_none(
            model.turns,
            request_id,
        ),
        model.source matches Some(source) ==> source.pending_request != Some(request_id),
        !model.pending_diagrams.contains_key(request_id.value),
        error.code@ == "diagram_generation_failed"@ || error.code@ == "session_update_failed"@
            || error.code@ == "session_save_failed"@,
    ensures
        ({
            let after = model.reduced(AppEvent::Error { request_id: Some(request_id), error });
            &&& after.notices.len() == model.notices.len() + 1
            &&& after.notices.drop_last() == model.notices
            &&& error_shown(error, after.notices.last())
            &&& after.active == model.active
            &&& after.turns == model.turns
            &&& after.activity == model.activity
            &&& after.status == model.status
            &&& after.error == model.error
            &&& after.outcomes == model.outcomes
        }),
{
    lemma_first_turn(model.turns, request_id);
    assert(model.reduced(
        AppEvent::Error { request_id: Some(request_id), error },
    ).notices.drop_last() =~= model.notices);
}

/// A cancellation that fails leaves the request running.
pub proof fn law_failed_cancellation_lets_the_request_go_on(
    model: GuiModel,
    request_id: RequestId,
    error: AppError,
)
    requires
        model.active matches Some(active) && active.cancel_id == Some(request_id) && active.id
            != request_id,
        model.source matches Some(source) ==> source.pending_request != Some(request_id),
        !model.pending_diagrams.contains_key(request_id.value),
        error.code@ != "diagram_generation_failed"@,
        error.code@ != "session_update_failed"@,
        error.code@ != "session_save_failed"@,
    ensures
        ({
            let after = model.reduced(AppEvent::Error { request_id: Some(request_id), error });
            &&& after.active matches Some(active) && active.id == model.active->0.id && active.kind
                == model.active->0.kind && active.cancel_id is None
            &&& after.status == match model.active->0.kind {
                RequestKind::Index => WorkStatus::Indexing,
                RequestKind::Ask => WorkStatus::Thinking,
            }
            &&& after.error matches Some(shown) && error_shown(error, shown)
            &&& after.turns == model.turns
            &&& after.activity == model.activity
            &&& after.outcomes == model.outcomes
        }),
{
}

/// An error that belongs to no request fails the active one, and is shown in any case.
pub proof fn law_general_error_stops_the_active_request(model: GuiModel, error: AppError)
    ensures
        ({
            let after = model.reduced(AppEvent::Error { request_id: None, error });
            &&& after.error matches Some(shown) && error_shown(error, shown)
            &&& after.status == WorkStatus::Error
            &&& after.active is None
            &&& model.active matches Some(active) ==> {
                &&& turn_stopped(model.turns, after.turns, active.id, TurnStatus::Failed)
                &&& activity_rested(
                    model.activity,
                    after.activity,
                    active.id,
                    ActivityStatus::Failed,
                )
            }
            &&& model.active is None ==> after.turns == model.turns && after.activity
                == model.activity
        }),
{
    if model.active is Some {
        lemma_turn_ended(model.turns, model.active->0.id, TurnStatus::Failed);
        lemma_settled(model.activity, model.active->0.id, RequestOutcome::Failed);
    }
}

/// An error of the source that is waited for is shown at the source, and nowhere else.
pub proof fn law_failed_source_is_told(model: GuiModel, request_id: RequestId, error: AppError)
    requires
        model.source matches Some(source) && source.pending_request == Some(request_id),
    ensures
        ({
            let after = model.reduced(AppEvent::Error { request_id: Some(request_id), error });
            let before = model.source->0;
            &&& after.source matches Some(source) && source.status == SourceStatus::Failed
                && source.message == Some(error.message@) && source.pending_request is None
                && source.evidence_id == before.evidence_id && source.path == before.path
                && source.content == before.content && source.start_line == before.start_line
                && source.end_line == before.end_line
            &&& GuiModel { source: model.source, ..after } == model
        }),
{
}

/// A usage report of a request that runs or was answered counts if it is no smaller than
/// what was known.
pub proof fn law_larger_usage_counts(
    model: GuiModel,
    request_id: RequestId,
    usage: ModelUsage,
)
    requires
        (model.active matches Some(active) && active.id == request_id) || (exists|i: int|
            0 <= i < model.turns.len() && (#[trigger] model.turns[i]).request_id == request_id
                && model.turns[i].answer is Some),
    ensures
        ({
            let after = model.reduced(AppEvent::UsageUpdated { request_id, usage });
            let known = model.usage.contains_key(request_id.value);
            let total = usage.tokens.total_tokens;
            &&& after.usage.dom() == model.usage.dom().insert(request_id.value)
            &&& !known || model.usage[request_id.value].tokens.total_tokens <= total
                ==> after.usage[request_id.value] == usage
            &&& known && model.usage[request_id.value].tokens.total_tokens > total
                ==> after.usage[request_id.value] == model.usage[request_id.value]
            &&& forall|other: u128|
                other != request_id.value && #[trigger] model.usage.contains_key(other)
                    ==> after.usage[other] == model.usage[other]
            &&& after.turns.len() == model.turns.len()
            &&& forall|i: int|
                0 <= i < model.turns.len() ==> {
                    &&& (#[trigger] after.turns[i]).answer_text == model.turns[i].answer_text
                    &&& after.turns[i].status == model.turns[i].status
                    &&& after.turns[i].answer is Some == model.turns[i].answer is Some
                    &&& is_first(model.turns, request_id, i) && after.turns[i].answer is Some
                        ==> (after.turns[i].answer->0).usage == Some(
                        after.usage[request_id.value],
                    )
                }
        }),
{
    lemma_first_turn(model.turns, request_id);
    let after = model.reduced(AppEvent::UsageUpdated { request_id, usage });
    assert(after.usage.dom() =~= model.usage.dom().insert(request_id.value));
    assert forall|i: int| 0 <= i < model.turns.len() implies {
        &&& (#[trigger] after.turns[i]).answer_text == model.turns[i].answer_text
        &&& after.turns[i].status == model.turns[i].status
        &&& after.turns[i].answer is Some == model.turns[i].answer is Some
        &&& is_first(model.turns, request_id, i) && after.turns[i].answer is Some ==> (
        after.turns[i].answer->0).usage == Some(after.usage[request_id.value])
    } by {
        if is_first(model.turns, request_id, i) {
            lemma_is_first(model.turns, request_id, i);
        }
    }
}

/// An indexed repository is shown with the path that was asked for and with its counts,
/// in a new session with nothing in it.
pub proof fn law_indexed_repository_is_shown(
    model: GuiModel,
    request_id: RequestId,
    path: Seq<char>,
    repository_id: RepositoryId,
    file_count: u64,
    symbol_count: u64,
    repository_map: RepositoryMap,
)
    requires
        model.active matches Some(active) && active.id == request_id && active.kind
            == RequestKind::Index,
        model.pending_index_path == Some((request_id, path)),
    ensures
        ({
            let after = model.reduced(
                AppEvent::IndexCompleted {
                    request_id,
                    repository_id,
                    file_count,
                    symbol_count,
                    repository_map,
                },
            );
            &&& after.repository matches Some(shown) && shown.path == path && shown.id
                == repository_id && shown.file_count == file_count && shown.symbol_count
                == symbol_count && shown.map == repository_map
            &&& after.session_repository_id == Some(repository_id)
            &&& !after.is_read_only()
            &&& after.turns.len() == 0
            &&& after.activity.len() == 0
            &&& after.notices.len() == 0
            &&& after.usage == Map::<u128, ModelUsage>::empty()
            &&& after.selected_task is None
            &&& after.selected_claim is None
            &&& after.selected_evidence is None
            &&& after.source is None
            &&& after.question_input.len() == 0
            &&& after.active is None
            &&& after.pending_index_path is None
            &&& after.status == WorkStatus::Indexed
            &&& after.outcomes.contains_key(request_id.value)
            &&& after.outcomes[request_id.value] == RequestOutcome::Completed
        }),
{
}

/// A source is shown if and only if it is the one that is waited for: of the same
/// request, repository and path, from the same line on.
pub proof fn law_awaited_source_is_shown(
    model: GuiModel,
    request_id: RequestId,
    repository_id: RepositoryId,
    path: RepositoryPath,
    start_line: u32,
    end_line: u32,
    content: String,
)
    ensures
        ({
            let after = model.reduced(
                AppEvent::SourceLoaded {
                    request_id,
                    repository_id,
                    path,
                    start_line,
                    end_line,
                    content,
                },
            );
            let awaited = model.source matches Some(source) && source.pending_request == Some(
                request_id,
            ) && source.repository_id == Some(repository_id) && source.path@ == path@
                && source.start_line == start_line;
            &&& GuiModel { source: model.source, ..after } == model
            &&& !awaited ==> after.source == model.source
            &&& awaited ==> (after.source matches Some(source) && source.content == content@
                && source.status == SourceStatus::Loaded && source.start_line == start_line
                && source.end_line == end_line && source.message is None
                && source.pending_request is None && source.evidence_id
                == model.source->0.evidence_id && source.path@ == path@)
        }),
{
}

/// How a recorded task ended is how its turn is shown.
pub open spec fn ended_as(status: SessionTaskStatus, shown: TurnStatus) -> bool {
    match status {
        SessionTaskStatus::Completed => shown == TurnStatus::Completed,
        SessionTaskStatus::Cancelled => shown == TurnStatus::Cancelled,
        SessionTaskStatus::Failed => shown == TurnStatus::Failed,
        SessionTaskStatus::BudgetExceeded => shown == TurnStatus::Failed,
    }
}

/// Whether a turn shows a recorded task.
pub open spec fn task_shown(task: SessionTask, turn: TurnShown) -> bool {
    &&& turn.request_id == task.request_id
    &&& turn.question == task.question@
    &&& turn.profile == task.profile
    &&& turn.answer == task.answer
    &&& task.answer matches Some(answer) ==> turn.answer_text == answer.text@
    &&& task.answer is None ==> turn.answer_text.len() == 0
    &&& ended_as(task.status, turn.status)
}

proof fn lemma_tasks_shown(model: GuiModel, tasks: Seq<SessionTask>)
    ensures
        ({
            let after = model.with_tasks(tasks);
            &&& after.turns.len() == model.turns.len() + tasks.len()
            &&& forall|i: int|
                0 <= i < model.turns.len() ==> #[trigger] after.turns[i] == model.turns[i]
            &&& forall|i: int|
                0 <= i < tasks.len() ==> task_shown(
                    #[trigger] tasks[i],
                    after.turns[model.turns.len() + i],
                )
            &&& forall|i: int|
                0 <= i < tasks.len() ==> #[trigger] after.outcomes.contains_key(
                    tasks[i].request_id.value,
                )
            &&& GuiModel {
                turns: model.turns,
                activity: model.activity,
                usage: model.usage,
                outcomes: model.outcomes,
                ..after
            } == model
        }),
    decreases tasks.len(),
{
    if tasks.len() > 0 {
        let rest = tasks.drop_last();
        lemma_tasks_shown(model, rest);
        let before = model.with_tasks(rest);
        let after = model.with_tasks(tasks);
        let base = model.turns.len();
        assert(after.turns =~= before.turns.push(after.turns.last()));
        assert forall|i: int| 0 <= i < tasks.len() implies task_shown(
            #[trigger] tasks[i],
            after.turns[base + i],
        ) by {
            if i < rest.len() {
                assert(rest[i] == tasks[i]);
                assert(after.turns[base + i] == before.turns[base + i]);
            }
        }
        assert forall|i: int| 0 <= i < tasks.len() implies #[trigger] after.outcomes.contains_key(
            tasks[i].request_id.value,
        ) by {
            if i < rest.len() {
                assert(rest[i] == tasks[i]);
                assert(before.outcomes.contains_key(rest[i].request_id.value));
            }
        }
        assert forall|i: int| 0 <= i < base implies #[trigger] after.turns[i]
            == model.turns[i] by {
            assert(after.turns[i] == before.turns[i]);
        }
    }
}

/// A session that is loaded is shown task by task, in order; its last task is selected
/// and the profile of that task restored. Whatever was shown before is gone.
pub proof fn law_loaded_session_is_shown(
    model: GuiModel,
    request_id: RequestId,
    session: SessionContext,
)
    requires
        model.pending_session == Some(request_id),
    ensures
        ({
            let after = model.reduced(AppEvent::SessionLoaded { request_id, session });
            let tasks = session.tasks@;
            &&& after.turns.len() == tasks.len()
            &&& forall|i: int|
                0 <= i < tasks.len() ==> task_shown(#[trigger] tasks[i], after.turns[i])
            &&& forall|i: int|
                0 <= i < tasks.len() ==> #[trigger] after.outcomes.contains_key(
                    tasks[i].request_id.value,
                )
            &&& after.session_id == session.session_id
            &&& after.session_repository_id == Some(session.repository_id)
            &&& after.pending_session is None
            &&& after.question_input.len() == 0
            &&& after.selected_claim is None
            &&& after.selected_evidence is None
            &&& after.source is None
            &&& after.notices.len() == 0
            &&& after.error is None
            &&& !after.history_open
            &&& !after.history_loading
            &&& after.repository == model.repository
            &&& after.active == model.active
            &&& tasks.len() == 0 ==> after.selected_task is None && after.status
                == WorkStatus::Indexed && after.profile == model.profile
            &&& tasks.len() > 0 ==> after.selected_task == Some(tasks.last().request_id)
                && after.status == WorkStatus::AnswerReady && after.profile
                == tasks.last().profile
        }),
{
    let start = model.with_session(session.session_id, session.repository_id);
    lemma_tasks_shown(start, session.tasks@);
    let tasks = session.tasks@;
    let after = model.reduced(AppEvent::SessionLoaded { request_id, session });
    assert forall|i: int| 0 <= i < tasks.len() implies task_shown(
        #[trigger] tasks[i],
        after.turns[i],
    ) by {
        assert(after.turns[i] == start.with_tasks(tasks).turns[start.turns.len() + i]);
    }
    if tasks.len() > 0 {
        assert(task_shown(tasks[tasks.len() - 1], after.turns[tasks.len() - 1]));
    }
}

/// A tool call of the active request is listed as running, behind all that is listed.
pub proof fn law_tool_call_is_listed(model: GuiModel, request_id: RequestId, call: ToolCall)
    ensures
        ({
            let after = model.reduced(AppEvent::ToolCallStarted { request_id, call });
            let runs = model.active matches Some(active) && active.id == request_id;
            &&& GuiModel { activity: model.activity, ..after } == model
            &&& !runs ==> after.activity == model.activity
            &&& runs ==> {
                let item = after.activity.last();
                &&& after.activity.len() == model.activity.len() + 1
                &&& after.activity.drop_last() == model.activity
                &&& item.request_id == request_id
                &&& item.call_id == Some(call.id)
                &&& item.status == ActivityStatus::Running
                &&& item.progress_phase is None
            }
        }),
{
    let after = model.reduced(AppEvent::ToolCallStarted { request_id, call });
    if model.is_active(request_id) {
        assert(after.activity.drop_last() =~= model.activity);
    }
}

/// Whether the activity at `k` is the last one of a tool call.
pub open spec fn is_call(
    activity: Seq<ActivityShown>,
    request_id: RequestId,
    call_id: ToolCallId,
    k: int,
) -> bool {
    &&& 0 <= k < activity.len()
    &&& activity[k].request_id == request_id
    &&& activity[k].call_id == Some(call_id)
    &&& forall|j: int|
        k < j < activity.len() ==> !((#[trigger] activity[j]).request_id == request_id
            && activity[j].call_id == Some(call_id))
}

proof fn lemma_last_tool(
    activity: Seq<ActivityShown>,
    request_id: RequestId,
    call_id: ToolCallId,
    k: int,
)
    requires
        is_call(activity, request_id, call_id, k),
    ensures
        gui_model::last_tool(activity, request_id, call_id) == Some(k),
    decreases activity.len(),
{
    let last = activity.len() - 1;
    if k < last {
        assert(activity[last] == activity.last());
        let rest = activity.drop_last();
        assert forall|j: int| k < j < rest.len() implies !((#[trigger] rest[j]).request_id
            == request_id && rest[j].call_id == Some(call_id)) by {
            assert(rest[j] == activity[j]);
        }
        lemma_last_tool(rest, request_id, call_id, k);
    }
}

/// The result of a tool call of the active request settles that call alone.
pub proof fn law_tool_result_settles_its_call(
    model: GuiModel,
    request_id: RequestId,
    output: ToolOutput,
    k: int,
)
    requires
        model.active matches Some(active) && active.id == request_id,
        is_call(model.activity, request_id, output.call_id, k),
    ensures
        ({
            let after = model.reduced(AppEvent::ToolCallCompleted { request_id, output });
            &&& GuiModel { activity: model.activity, ..after } == model
            &&& after.activity.len() == model.activity.len()
            &&& after.activity[k].status == if output.is_error {
                ActivityStatus::Failed
            } else {
                ActivityStatus::Complete
            }
            &&& after.activity[k].title == model.activity[k].title
            &&& after.activity[k].request_id == request_id
            &&& after.activity[k].call_id == Some(output.call_id)
            &&& forall|j: int|
                0 <= j < model.activity.len() && j != k ==> #[trigger] after.activity[j]
                    == model.activity[j]
        }),
{
    lemma_last_tool(model.activity, request_id, output.call_id, k);
}

/// A diagram that was opened is no longer waited for, and only its own message changes.
pub proof fn law_opened_diagram_is_told(
    model: GuiModel,
    request_id: RequestId,
    diagram_id: DiagramId,
)
    ensures
        ({
            let after = model.reduced(AppEvent::DiagramOpened { request_id, diagram_id });
            let awaited = model.pending_diagrams.contains_key(request_id.value)
                && model.pending_diagrams[request_id.value] == diagram_id;
            &&& !awaited ==> after == model
            &&& awaited ==> {
                &&& !after.pending_diagrams.contains_key(request_id.value)
                &&& after.diagram_messages.contains_key(diagram_id.value)
                &&& after.diagram_messages[diagram_id.value]
                    == "Diagram opened in the default viewer."@
                &&& forall|other: u128|
                    other != diagram_id.value ==> #[trigger] after.diagram_messages.contains_key(
                        other,
                    ) == model.diagram_messages.contains_key(other)
                &&& GuiModel {
                    pending_diagrams: model.pending_diagrams,
                    diagram_messages: model.diagram_messages,
                    ..after
                } == model
            }
        }),
{
}

/// A question that is asked begins a turn behind all others: it runs, it is selected,
/// it has the profile that is set, and the draft of the question is empty.
pub proof fn law_question_begins_a_turn(model: GuiModel, question: Seq<char>)
    ensures
        ({
            let after = model.asking(question);
            let turn = after.turns.last();
            &&& after.turns.len() == model.turns.len() + 1
            &&& after.turns.drop_last() == model.turns
            &&& turn.question == question
            &&& turn.profile == model.profile
            &&& turn.status == TurnStatus::Running
            &&& turn.answer is None
            &&& turn.answer_text.len() == 0
            &&& after.active matches Some(active) && active.id == turn.request_id && active.kind
                == RequestKind::Ask && active.cancel_id is None
            &&& after.selected_task == Some(turn.request_id)
            &&& after.selected_claim is None
            &&& after.selected_evidence is None
            &&& after.source is None
            &&& after.question_input.len() == 0
            &&& after.status == WorkStatus::Thinking
            &&& after.error is None
            &&& after.next_request >= model.next_request
            &&& model.next_request < u64::MAX ==> after.next_request == model.next_request + 1
            &&& after.session_id == model.session_id
            &&& after.repository == model.repository
            &&& after.activity == model.activity
            &&& after.usage == model.usage
        }),
{
    assert(model.asking(question).turns.drop_last() =~= model.turns);
}

/// Whether the evidence at `k` is the first with an ID.
pub open spec fn is_evidence(evidence: Seq<Evidence>, id: EvidenceId, k: int) -> bool {
    &&& 0 <= k < evidence.len()
    &&& evidence[k].id == id
    &&& forall|j: int| 0 <= j < k ==> (#[trigger] evidence[j]).id != id
}

proof fn lemma_first_evidence(evidence: Seq<Evidence>, id: EvidenceId)
    ensures
        match gui_model::first_evidence(evidence, id) {
            Some(k) => is_evidence(evidence, id, k),
            None => forall|j: int| 0 <= j < evidence.len() ==> (#[trigger] evidence[j]).id != id,
        },
    decreases evidence.len(),
{
    if evidence.len() > 0 {
        let rest = evidence.drop_last();
        lemma_first_evidence(rest, id);
        match gui_model::first_evidence(rest, id) {
            Some(k) => {
                assert(evidence[k] == rest[k]);
                assert forall|j: int| 0 <= j < k implies (#[trigger] evidence[j]).id != id by {
                    assert(rest[j] == evidence[j]);
                }
            },
            None => {
                assert forall|j: int| 0 <= j < rest.len() implies (#[trigger] evidence[j]).id
                    != id by {
                    assert(rest[j] == evidence[j]);
                }
            },
        }
    }
}

/// The evidence that is looked up by an ID is the first of the shown answer with it.
pub proof fn law_evidence_is_found_by_its_id(
    model: GuiModel,
    answer: AgentAnswer,
    id: EvidenceId,
    k: int,
)
    requires
        model.shown_answer() == Some(answer),
    ensures
        is_evidence(answer.evidence@, id, k) ==> model.shown_evidence(id) == Some(
            answer.evidence@[k],
        ),
        (forall|j: int| 0 <= j < answer.evidence@.len() ==> (#[trigger] answer.evidence@[j]).id
            != id) ==> model.shown_evidence(id) is None,
{
    lemma_first_evidence(answer.evidence@, id);
    match gui_model::first_evidence(answer.evidence@, id) {
        Some(found) => {
            if is_evidence(answer.evidence@, id, k) {
                if found < k {
                    assert(answer.evidence@[found].id != id);
                } else if k < found {
                    assert(answer.evidence@[k].id != id);
                }
            }
        },
        None => {},
    }
}

/// The lines of an excerpt begin with the line that its span begins on, end at or behind
/// it, and end with the line that its span ends on, or one line earlier where the span
/// ends before the first column of a further line.
pub proof fn law_lines_of_an_excerpt(span: ((u32, u32), (u32, u32)))
    requires
        span.0.0 <= span.1.0,
    ensures
        ({
            let lines = gui_model::line_range(span);
            &&& lines.0 == span.0.0
            &&& lines.0 <= lines.1 <= span.1.0
            &&& span.1.1 > 0 || span.1.0 == span.0.0 ==> lines.1 == span.1.0
            &&& span.1.1 == 0 && span.1.0 > span.0.0 ==> lines.1 + 1 == span.1.0
        }),
{
}

/// The source of an evidence is shown with its path, its lines and its excerpt, for the
/// repository that is indexed.
pub proof fn law_evidence_is_shown_as_source(
    model: GuiModel,
    evidence: Evidence,
    status: SourceStatus,
    message: Option<Seq<char>>,
    pending: Option<RequestId>,
)
    ensures
        ({
            let after = model.showing(evidence, status, message, pending);
            &&& after.selected_evidence == Some(evidence.id)
            &&& after.source matches Some(source) && {
                &&& source.evidence_id == evidence.id
                &&& source.path == evidence.path
                &&& source.start_line == evidence.span@.0.0
                &&& source.status == status
                &&& source.message == message
                &&& source.pending_request == pending
                &&& evidence.excerpt matches Some(excerpt) ==> source.content == excerpt@
                &&& evidence.excerpt is None ==> source.content.len() == 0
                &&& match model.repository {
                    Some(repository) => source.repository_id == Some(repository.id),
                    None => source.repository_id is None,
                }
            }
            &&& GuiModel {
                selected_evidence: model.selected_evidence,
                source: model.source,
                ..after
            } == model
        }),
{
}

/// An action that is run on an answer begins a turn, except that a source is shown. The
/// turn has the profile of the shown turn, in another depth where the action says so.
pub proof fn law_action_begins_a_turn(model: GuiModel, action: SuggestedAction, i: int)
    requires
        !(action is ShowSource),
        0 <= i < model.turns.len(),
        match model.selected_task {
            Some(request_id) => is_first(model.turns, request_id, i),
            None => i == model.turns.len() - 1,
        },
    ensures
        ({
            let after = model.acting(action);
            let turn = after.turns.last();
            &&& after.turns.len() == model.turns.len() + 1
            &&& after.turns.drop_last() == model.turns
            &&& turn.profile.audience == model.turns[i].profile.audience
            &&& match action {
                SuggestedAction::ChangeDepth { depth } => turn.profile.depth == depth,
                _ => turn.profile.depth == model.turns[i].profile.depth,
            }
            &&& turn.status == TurnStatus::Running
            &&& turn.answer is None
            &&& after.active matches Some(active) && active.id == turn.request_id && active.kind
                == RequestKind::Ask
            &&& after.selected_task == Some(turn.request_id)
            &&& after.session_id == model.session_id
            &&& after.question_input == model.question_input
        }),
{
    match model.selected_task {
        Some(request_id) => {
            lemma_is_first(model.turns, request_id, i);
        },
        None => {},
    }
    assert(model.acting(action).turns.drop_last() =~= model.turns);
}

/// Indexing begins with a request of its own, which is active, and keeps what is shown
/// of the repository and the session until it is through.
pub proof fn law_indexing_is_begun(model: GuiModel, path: Seq<char>)
    ensures
        ({
            let after = model.indexing(path);
            &&& after.active matches Some(active) && active.kind == RequestKind::Index
                && active.cancel_id is None && after.pending_index_path == Some(
                (active.id, path),
            )
            &&& after.status == WorkStatus::Indexing
            &&& after.error is None
            &&& model.next_request < u64::MAX ==> after.next_request == model.next_request + 1
            &&& after.repository == model.repository
            &&& after.session_id == model.session_id
            &&& after.turns == model.turns
            &&& after.selected_task == model.selected_task
            &&& after.question_input == model.question_input
            &&& after.repository_input == model.repository_input
        }),
{
}

/// A cancellation leaves the request that it is of active until it is acknowledged, and
/// takes nothing away.
pub proof fn law_cancellation_is_begun(model: GuiModel, active: ActiveRequest)
    requires
        model.active == Some(active),
    ensures
        ({
            let after = model.cancelling();
            &&& after.active matches Some(now) && now.id == active.id && now.kind == active.kind
                && now.cancel_id is Some
            &&& after.status == WorkStatus::Cancelling
            &&& model.next_request < u64::MAX ==> after.next_request == model.next_request + 1
            &&& after.turns == model.turns
            &&& after.activity == model.activity
            &&& after.repository == model.repository
            &&& after.session_id == model.session_id
            &&& after.outcomes == model.outcomes
        }),
{
}

/// A new session of a repository is empty, and leaves the repository and what the user
/// has set as they were.
pub proof fn law_new_session_is_empty(model: GuiModel, repository_id: RepositoryId)
    ensures
        ({
            let after = model.with_new_session(repository_id);
            &&& after.session_repository_id == Some(repository_id)
            &&& after.turns.len() == 0
            &&& after.selected_task is None
            &&& after.selected_claim is None
            &&& after.selected_evidence is None
            &&& after.source is None
            &&& after.activity.len() == 0
            &&& after.notices.len() == 0
            &&& after.question_input.len() == 0
            &&& forall|key: u128| !(#[trigger] after.usage.dom().contains(key))
            &&& forall|key: u128| !(#[trigger] after.outcomes.dom().contains(key))
            &&& after.repository == model.repository
            &&& after.repository_input == model.repository_input
            &&& after.profile == model.profile
            &&& after.active == model.active
            &&& model.next_session < u64::MAX ==> after.next_session == model.next_session + 1
        }),
{
}

/// What an action may be run on: it stands among those that the shown answer suggests.
pub proof fn law_offered_action_is_suggested(model: GuiModel, action: SuggestedAction, i: int)
    requires
        0 <= i < model.turns.len(),
        match model.selected_task {
            Some(request_id) => is_first(model.turns, request_id, i),
            None => i == model.turns.len() - 1,
        },
    ensures
        model.offers(action) <==> (model.turns[i].answer matches Some(answer)
            && exists|k: int|
            0 <= k < answer.suggested_actions@.len() && #[trigger] answer.suggested_actions@[k]
                == action),
{
    match model.selected_task {
        Some(request_id) => {
            lemma_is_first(model.turns, request_id, i);
        },
        None => {},
    }
}

/// When a request ends, what runs for it gets the status of its end. Nothing else of the
/// activity changes.
pub proof fn law_running_activity_ends_with_its_request(
    model: GuiModel,
    request_id: RequestId,
    outcome: RequestOutcome,
    i: int,
)
    requires
        0 <= i < model.activity.len(),
    ensures
        ({
            let before = model.activity[i];
            let after = model.ended(request_id, outcome).activity[i];
            &&& model.ended(request_id, outcome).activity.len() == model.activity.len()
            &&& before.request_id != request_id || before.status != ActivityStatus::Running
                ==> after == before
            &&& before.request_id == request_id && before.status == ActivityStatus::Running ==> {
                &&& outcome == RequestOutcome::Completed ==> after.status
                    == ActivityStatus::Complete
                &&& outcome == RequestOutcome::Cancelled ==> after.status
                    == ActivityStatus::Cancelled
                &&& outcome == RequestOutcome::Failed ==> after.status == ActivityStatus::Failed
                &&& after.title == before.title
                &&& after.request_id == before.request_id
                &&& after.call_id == before.call_id
            }
        }),
{
}

/// A report of progress that is not merged with an earlier one is listed last, as it was
/// told. Where a request has too many reports its first one goes, and nothing else.
pub proof fn law_progress_is_listed_last(
    activity: Seq<ActivityShown>,
    request_id: RequestId,
    progress: Progress,
)
    ensures
        ({
            let after = gui_model::with_progress(activity, request_id, progress, false);
            let told = after.last();
            let kept = after.drop_last();
            &&& after.len() > 0
            &&& told.request_id == request_id
            &&& told.title == progress.message@
            &&& told.progress_phase == Some(progress.phase)
            &&& told.status == ActivityStatus::Information
            &&& told.call_id is None
            &&& told.detail is Some <==> progress.completed is Some && progress.total is Some
            &&& kept == activity || exists|i: int|
                {
                    &&& 0 <= i < activity.len()
                    &&& kept == #[trigger] activity.remove(i)
                    &&& activity[i].request_id == request_id && activity[i].progress_phase is Some
                    &&& forall|j: int|
                        0 <= j < i ==> (#[trigger] activity[j]).request_id != request_id
                            || activity[j].progress_phase is None
                }
        }),
{
    let after = gui_model::with_progress(activity, request_id, progress, false);
    lemma_first_progress(activity, request_id);
    if gui_model::progress_count(activity, request_id)
        >= gui_model::MAX_PROGRESS_ITEMS_PER_REQUEST {
        let i = gui_model::first_progress(activity, request_id)->0;
        assert(after.drop_last() =~= activity.remove(i));
    } else {
        assert(after.drop_last() =~= activity);
    }
}

proof fn lemma_first_progress(activity: Seq<ActivityShown>, request_id: RequestId)
    ensures
        gui_model::progress_count(activity, request_id) > 0 ==> gui_model::first_progress(
            activity,
            request_id,
        ) is Some,
        gui_model::first_progress(activity, request_id) matches Some(i) ==> {
            &&& 0 <= i < activity.len()
            &&& activity[i].request_id == request_id && activity[i].progress_phase is Some
            &&& forall|j: int|
                0 <= j < i ==> (#[trigger] activity[j]).request_id != request_id
                    || activity[j].progress_phase is None
        },
        gui_model::first_progress(activity, request_id) is None ==> forall|j: int|
            0 <= j < activity.len() ==> (#[trigger] activity[j]).request_id != request_id
                || activity[j].progress_phase is None,
    decreases activity.len(),
{
    if activity.len() > 0 {
        let rest = activity.drop_last();
        lemma_first_progress(rest, request_id);
        assert forall|j: int| 0 <= j < rest.len() implies #[trigger] activity[j] == rest[j] by {}
    }
}

/// A recorded step leaves the activity that the step left when it was taken: progress, a
/// tool call, the result of one. Other steps leave none.
pub proof fn law_recorded_steps_are_shown_as_they_were(
    model: GuiModel,
    active: ActiveRequest,
    event: WorkflowEvent,
    output: ToolOutput,
)
    requires
        model.active == Some(active),
    ensures
        ({
            let request_id = active.id;
            let told = gui_model::with_recorded(model.activity, request_id, event);
            match event {
                WorkflowEvent::ToolCallStarted(call) => told == model.reduced(
                    AppEvent::ToolCallStarted { request_id, call },
                ).activity,
                WorkflowEvent::ToolCallCompleted { call_id, is_error, .. } => output.call_id
                    == call_id && output.is_error == is_error ==> told == model.reduced(
                    AppEvent::ToolCallCompleted { request_id, output },
                ).activity,
                WorkflowEvent::Progress(progress) => told == gui_model::with_progress(
                    model.activity,
                    request_id,
                    progress,
                    true,
                ),
                _ => told == model.activity,
            }
        }),
{
}

} // verus!
