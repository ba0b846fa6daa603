//! The state of the workspace, its presentation and the relay of events.
use codeatlas::app::{
    AppCommand, AppError, AppEvent, Progress, ProgressPhase, RepositoryMap,
};
use codeatlas::evidence::{
    AgentAnswer, CallPath, CallPathStep, Claim, ClaimKind, Diagram, DiagramArtifact,
    DiagramDecision, DiagramKind, Evidence, SuggestedAction,
};
use codeatlas::explanation::{ExplanationAudience, ExplanationDepth, ExplanationProfile};
use codeatlas::gui_model::{
    ActivityStatus, SourceStatus, TurnStatus, WorkStatus, MAX_PROGRESS_ITEMS_PER_REQUEST,
};
use codeatlas::gui_state::{
    human_tool_name, present_error, short_id, ActivityItem, GuiState, SourceView, UiError,
};
use codeatlas::id::{
    AnswerId, CallPathId, ClaimId, DiagramId, EvidenceId, FileId, RepositoryId, RequestId,
    SessionId, SymbolId, ToolCallId,
};
use codeatlas::ir::{EntryPointKind, Language, TargetResolution, UnresolvedTarget};
use codeatlas::model::{Cost, ModelUsage, TokenUsage};
use codeatlas::path::RepositoryPath;
use codeatlas::presentation::{
    activity_mark, artifact_line, call_path_steps, call_path_title, cjk_font_paths, claim_labels,
    composer_message, diagram_kind, diagram_line, entry_kind, error_banner, evidence_number,
    language_name, listed_activity, notice_banner, question_enter_submits, session_can_continue,
    session_line, session_title, turn_notice, usage_summary, EventRelay, InputEvent, Platform,
    RelayAction, TurnNotice,
};
use codeatlas::session::{
    SessionContext, SessionSummary, SessionTask, SessionTaskStatus, SessionTaskSummary,
};
use codeatlas::source::SourceSpan;
use codeatlas::tool::{ToolCall, ToolOutput};

fn task(request_id: RequestId, question: &str, answer: Option<AgentAnswer>) -> SessionTask {
    SessionTask {
        request_id,
        question: question.to_owned(),
        profile: ExplanationProfile::default(),
        status: SessionTaskStatus::Completed,
        answer,
        terminal_error: None,
        budget_stop_reason: None,
        started_at_unix_ms: 0,
        finished_at_unix_ms: 0,
        trajectory: Vec::new(),
        model_calls: Vec::new(),
        usage: None,
        budget: None,
    }
}

fn repository_id(name: &str) -> RepositoryId {
    RepositoryId::from_stable_parts(&[name])
}

fn indexed(state: &mut GuiState, name: &str) -> RepositoryId {
    state.repository_input = name.to_owned();
    let command = state.index_repository().expect("index command");
    let AppCommand::Index { request_id, .. } = command else {
        panic!("expected index command");
    };
    let id = repository_id(name);
    state.reduce(AppEvent::IndexCompleted {
        request_id,
        repository_id: id,
        file_count: 2,
        symbol_count: 3,
        repository_map: RepositoryMap {
            name: name.to_owned(),
            ..RepositoryMap::default()
        },
    });
    id
}

fn answer(text: &str) -> AgentAnswer {
    AgentAnswer {
        id: AnswerId::from_stable_parts(&[text]),
        text: text.to_owned(),
        claims: Vec::new(),
        evidence: Vec::new(),
        call_paths: Vec::new(),
        diagram: DiagramDecision::NotNeeded {
            reason: "A diagram would not add clarity.".to_owned(),
        },
        suggested_actions: Vec::new(),
        usage: None,
    }
}

#[test]
fn provider_authentication_errors_are_actionable_and_do_not_repeat_key_fragments() {
    let error = present_error(AppError {
        code: "model_error".to_owned(),
        message: "model endpoint returned HTTP 401: Incorrect API key provided: sk-secret"
            .to_owned(),
        retryable: false,
    });

    assert!(error.message.contains("CODEATLAS_ENDPOINT"));
    assert!(error.message.contains("CODEATLAS_MODEL"));
    assert!(!error.message.contains("sk-secret"));
}

#[test]
fn answer_delta_and_non_fatal_error_do_not_block_final_answer() {
    let mut state = GuiState::new("test");
    indexed(&mut state, "repo");
    state.question_input = "What happens?".to_owned();
    let AppCommand::Ask { request_id, .. } = state.ask().expect("ask command") else {
        panic!("expected ask");
    };
    state.reduce(AppEvent::AnswerDelta {
        request_id,
        delta: "Partial".to_owned(),
    });
    state.reduce(AppEvent::Error {
        request_id: Some(request_id),
        error: AppError {
            code: "diagram_generation_failed".to_owned(),
            message: "SVG unavailable".to_owned(),
            retryable: false,
        },
    });
    state.reduce(AppEvent::AnswerCompleted {
        request_id,
        answer: answer("Final"),
    });
    state.reduce(AppEvent::Error {
        request_id: Some(request_id),
        error: AppError {
            code: "session_save_failed".to_owned(),
            message: "Answer remains available in memory".to_owned(),
            retryable: true,
        },
    });

    assert_eq!(state.turns[0].answer_text, "Final");
    assert!(state.turns[0].answer.is_some());
    assert_eq!(state.turns[0].status, TurnStatus::Completed);
    assert_eq!(state.notices.len(), 2);
    assert_eq!(state.status, WorkStatus::AnswerReady);
}

#[test]
fn usage_received_before_answer_is_merged_into_completed_turn() {
    let mut state = GuiState::new("usage-before-answer");
    indexed(&mut state, "repo");
    state.question_input = "How expensive was this?".to_owned();
    let AppCommand::Ask { request_id, .. } = state.ask().expect("ask command") else {
        panic!("expected ask");
    };
    let usage = ModelUsage {
        tokens: TokenUsage {
            input_tokens: 1_200,
            output_tokens: 300,
            cached_input_tokens: 250,
            total_tokens: 1_500,
        },
        cost: None,
    };

    state.reduce(AppEvent::UsageUpdated {
        request_id,
        usage: usage.clone(),
    });

    assert!(state.selected_answer().is_none());
    assert_eq!(state.selected_usage(), Some(&usage));
    assert_eq!(state.status, WorkStatus::Thinking);

    state.reduce(AppEvent::AnswerCompleted {
        request_id,
        answer: answer("Final answer"),
    });

    assert_eq!(
        state.turns[0]
            .answer
            .as_ref()
            .and_then(|answer| answer.usage.as_ref()),
        Some(&usage)
    );
    assert_eq!(state.selected_usage(), Some(&usage));
}

#[test]
fn usage_received_after_answer_updates_completed_turn() {
    let mut state = GuiState::new("usage-after-answer");
    indexed(&mut state, "repo");
    state.question_input = "How expensive was this?".to_owned();
    let AppCommand::Ask { request_id, .. } = state.ask().expect("ask command") else {
        panic!("expected ask");
    };
    state.reduce(AppEvent::AnswerCompleted {
        request_id,
        answer: answer("Final answer"),
    });
    let usage = ModelUsage {
        tokens: TokenUsage {
            input_tokens: 800,
            output_tokens: 200,
            cached_input_tokens: 100,
            total_tokens: 1_000,
        },
        cost: None,
    };

    state.reduce(AppEvent::UsageUpdated {
        request_id,
        usage: usage.clone(),
    });

    assert_eq!(
        state.turns[0]
            .answer
            .as_ref()
            .and_then(|answer| answer.usage.as_ref()),
        Some(&usage)
    );
    assert_eq!(state.selected_usage(), Some(&usage));
}

#[test]
fn delayed_partial_usage_does_not_replace_completed_cumulative_usage() {
    let mut state = GuiState::new("delayed-partial-usage");
    indexed(&mut state, "repo");
    state.question_input = "How expensive was this?".to_owned();
    let AppCommand::Ask { request_id, .. } = state.ask().expect("ask command") else {
        panic!("expected ask");
    };
    let cumulative = ModelUsage {
        tokens: TokenUsage {
            input_tokens: 1_200,
            output_tokens: 300,
            cached_input_tokens: 250,
            total_tokens: 1_500,
        },
        cost: None,
    };
    let mut completed = answer("Final answer");
    completed.usage = Some(cumulative.clone());
    state.reduce(AppEvent::AnswerCompleted {
        request_id,
        answer: completed,
    });

    state.reduce(AppEvent::UsageUpdated {
        request_id,
        usage: ModelUsage {
            tokens: TokenUsage {
                input_tokens: 800,
                output_tokens: 200,
                cached_input_tokens: 100,
                total_tokens: 1_000,
            },
            cost: None,
        },
    });

    assert_eq!(state.selected_usage(), Some(&cumulative));
    assert_eq!(
        state
            .selected_answer()
            .and_then(|answer| answer.usage.as_ref()),
        Some(&cumulative)
    );
}

#[test]
fn restored_session_exposes_selected_task_usage() {
    let mut state = GuiState::new("restored-usage");
    let session_id = SessionId::from_stable_parts(&["restored-session"]);
    let AppCommand::LoadSession { request_id, .. } = state
        .load_session(session_id)
        .expect("load session command")
    else {
        panic!("expected load session");
    };
    let task_request_id = RequestId::from_stable_parts(&["restored-task"]);
    let usage = ModelUsage {
        tokens: TokenUsage {
            input_tokens: 600,
            output_tokens: 150,
            cached_input_tokens: 25,
            total_tokens: 750,
        },
        cost: None,
    };
    let mut restored_answer = answer("Restored answer");
    restored_answer.usage = Some(usage.clone());

    state.reduce(AppEvent::SessionLoaded {
        request_id,
        session: SessionContext {
            schema_version: 2,
            session_id,
            repository_id: repository_id("restored-repo"),
            tasks: vec![task(task_request_id, "Restored question", Some(restored_answer))],
            usage: usage.clone(),
            created_at_unix_ms: 0,
            updated_at_unix_ms: 0,
            json_path: "session.json".to_owned(),
        },
    });

    assert_eq!(state.selected_task, Some(task_request_id));
    assert_eq!(state.selected_usage(), Some(&usage));
}

#[test]
fn exploratory_evidence_is_not_presented_as_verified() {
    let mut state = GuiState::new("test");
    indexed(&mut state, "repo");
    state.question_input = "Question".to_owned();
    let AppCommand::Ask { request_id, .. } = state.ask().expect("ask command") else {
        panic!("expected ask");
    };
    let evidence = Evidence {
        id: EvidenceId::from_stable_parts(&["candidate"]),
        file_id: FileId::from_stable_parts(&["file"]),
        path: RepositoryPath::new("src/lib.rs".to_owned()).expect("path"),
        span: SourceSpan::new(1, 0, 2, 0).expect("span"),
        symbol_id: None,
        excerpt: Some("candidate".to_owned()),
    };
    state.reduce(AppEvent::EvidenceAdded {
        request_id,
        evidence,
    });

    assert!(state.visible_evidence().is_empty());
}

#[test]
fn cancelled_ask_finishes_turn_and_running_activity() {
    let mut state = GuiState::new("cancelled");
    indexed(&mut state, "repo");
    state.question_input = "Question".to_owned();
    let AppCommand::Ask { request_id, .. } = state.ask().expect("ask command") else {
        panic!("expected ask");
    };
    state.activity.push(ActivityItem {
        request_id,
        call_id: Some(ToolCallId::from_stable_parts(&["running"])),
        title: "Reading source".to_owned(),
        detail: None,
        status: ActivityStatus::Running,
        progress_phase: None,
    });

    state.reduce(AppEvent::Cancelled { request_id });

    assert_eq!(state.turns[0].status, TurnStatus::Cancelled);
    assert_eq!(state.activity[0].status, ActivityStatus::Cancelled);
    assert_eq!(state.status, WorkStatus::Cancelled);
    assert!(!state.is_busy());
}

#[test]
fn fatal_ask_error_finishes_turn_and_running_activity() {
    let mut state = GuiState::new("failed");
    indexed(&mut state, "repo");
    state.question_input = "Question".to_owned();
    let AppCommand::Ask { request_id, .. } = state.ask().expect("ask command") else {
        panic!("expected ask");
    };
    state.activity.push(ActivityItem {
        request_id,
        call_id: Some(ToolCallId::from_stable_parts(&["running"])),
        title: "Tracing a call path".to_owned(),
        detail: None,
        status: ActivityStatus::Running,
        progress_phase: None,
    });

    state.reduce(AppEvent::Error {
        request_id: Some(request_id),
        error: AppError {
            code: "model_failed".to_owned(),
            message: "The model request failed".to_owned(),
            retryable: true,
        },
    });

    assert_eq!(state.turns[0].status, TurnStatus::Failed);
    assert_eq!(state.activity[0].status, ActivityStatus::Failed);
    assert_eq!(state.status, WorkStatus::Error);
    assert!(!state.is_busy());
}

#[test]
fn thousands_of_index_progress_events_remain_bounded() {
    let mut state = GuiState::new("progress");
    state.repository_input = "repo".to_owned();
    let AppCommand::Index { request_id, .. } = state.index_repository().expect("index command")
    else {
        panic!("expected index");
    };

    for step in 0..5_000 {
        state.reduce(AppEvent::Progress {
            request_id,
            progress: Progress {
                phase: if step % 2 == 0 {
                    ProgressPhase::Parsing
                } else {
                    ProgressPhase::Indexing
                },
                message: format!("processing file {step}"),
                completed: Some(step),
                total: Some(5_000),
            },
        });
    }

    assert_eq!(state.activity.len(), 2);
    assert!(state.activity.iter().all(|item| {
        matches!(
            item.progress_phase,
            Some(ProgressPhase::Parsing | ProgressPhase::Indexing)
        )
    }));
}

#[test]
fn index_attempt_keeps_current_activity_until_successful_switch() {
    let mut state = GuiState::new("switch");
    indexed(&mut state, "current");
    let retained_request = RequestId::from_stable_parts(&["retained"]);
    state.activity.push(ActivityItem {
        request_id: retained_request,
        call_id: None,
        title: "Existing session activity".to_owned(),
        detail: None,
        status: ActivityStatus::Complete,
        progress_phase: None,
    });
    state.question_input = "unfinished draft".to_owned();
    state.repository_input = "other".to_owned();
    let AppCommand::Index { request_id, .. } = state.index_repository().expect("index command")
    else {
        panic!("expected index");
    };
    assert!(
        state
            .activity
            .iter()
            .any(|item| item.request_id == retained_request)
    );
    state.reduce(AppEvent::Cancelled { request_id });
    assert!(
        state
            .activity
            .iter()
            .any(|item| item.request_id == retained_request)
    );
    assert_eq!(state.question_input, "unfinished draft");

    let AppCommand::Index { request_id, .. } =
        state.index_repository().expect("second index command")
    else {
        panic!("expected index");
    };
    state.reduce(AppEvent::Error {
        request_id: Some(request_id),
        error: AppError {
            code: "index_failed".to_owned(),
            message: "Indexing failed".to_owned(),
            retryable: true,
        },
    });
    assert!(
        state
            .activity
            .iter()
            .any(|item| item.request_id == retained_request)
    );
    assert_eq!(state.question_input, "unfinished draft");

    let AppCommand::Index { request_id, .. } =
        state.index_repository().expect("third index command")
    else {
        panic!("expected index");
    };
    state.reduce(AppEvent::IndexCompleted {
        request_id,
        repository_id: repository_id("other"),
        file_count: 1,
        symbol_count: 1,
        repository_map: RepositoryMap {
            name: "other".to_owned(),
            ..RepositoryMap::default()
        },
    });
    assert!(state.activity.is_empty());
    assert!(state.question_input.is_empty());
}

#[test]
fn stale_answer_and_source_events_are_ignored() {
    let mut state = GuiState::new("test");
    let repository_id = indexed(&mut state, "repo");
    state.question_input = "Question".to_owned();
    let AppCommand::Ask { request_id, .. } = state.ask().expect("ask command") else {
        panic!("expected ask");
    };
    let stale_request = RequestId::from_stable_parts(&["stale"]);
    state.reduce(AppEvent::AnswerCompleted {
        request_id: stale_request,
        answer: answer("stale"),
    });
    assert!(state.turns[0].answer.is_none());

    state.reduce(AppEvent::AnswerCompleted {
        request_id,
        answer: answer("current"),
    });
    assert_eq!(state.turns[0].answer_text, "current");

    state.source = Some(SourceView {
        evidence_id: EvidenceId::from_stable_parts(&["evidence"]),
        path: RepositoryPath::new("src/lib.rs".to_owned()).expect("path"),
        start_line: 1,
        end_line: 2,
        content: "excerpt".to_owned(),
        status: SourceStatus::Loading,
        message: None,
        pending_request: Some(request_id),
        repository_id: Some(repository_id),
    });
    state.reduce(AppEvent::SourceLoaded {
        request_id: stale_request,
        repository_id,
        path: RepositoryPath::new("src/lib.rs".to_owned()).expect("path"),
        start_line: 1,
        end_line: 2,
        content: "stale".to_owned(),
    });
    assert_eq!(state.source.as_ref().expect("source").content, "excerpt");
}

#[test]
fn loaded_session_for_another_repository_is_read_only() {
    let mut state = GuiState::new("test");
    indexed(&mut state, "current");
    let command = state.list_sessions();
    let AppCommand::ListSessions { request_id, .. } = command else {
        panic!("expected list");
    };
    state.reduce(AppEvent::SessionsListed {
        request_id,
        sessions: Vec::new(),
    });
    let other_session = SessionId::from_stable_parts(&["other-session"]);
    let AppCommand::LoadSession { request_id, .. } = state
        .load_session(other_session)
        .expect("load session command")
    else {
        panic!("expected load");
    };
    state.reduce(AppEvent::SessionLoaded {
        request_id,
        session: SessionContext {
            schema_version: 2,
            session_id: other_session,
            repository_id: repository_id("other"),
            tasks: Vec::new(),
            usage: ModelUsage {
                tokens: TokenUsage::default(),
                cost: None,
            },
            created_at_unix_ms: 0,
            updated_at_unix_ms: 0,
            json_path: "session.json".to_owned(),
        },
    });

    assert!(state.is_read_only());
    state.question_input = "Can I continue?".to_owned();
    assert!(state.ask().is_none());
    assert_eq!(
        state.error.as_ref().expect("human-readable error").code,
        "session_repository_mismatch"
    );
}

#[test]
fn cancel_source_and_diagram_commands_preserve_core_contracts() {
    let mut state = GuiState::new("test");
    let repository_id = indexed(&mut state, "repo");
    state.question_input = "Question".to_owned();
    let AppCommand::Ask { request_id, .. } = state.ask().expect("ask command") else {
        panic!("expected ask");
    };
    let AppCommand::Cancel {
        request_id: cancel_request_id,
        target_request_id,
    } = state.cancel().expect("cancel command")
    else {
        panic!("expected cancel");
    };
    assert_eq!(target_request_id, request_id);
    // Presentation implementations accept either the cancellation command
    // ID or the target ID so transports can acknowledge either form.
    state.reduce(AppEvent::Cancelled {
        request_id: cancel_request_id,
    });
    assert!(!state.is_busy());

    state.question_input = "Evidence?".to_owned();
    let AppCommand::Ask { request_id, .. } = state.ask().expect("second ask") else {
        panic!("expected ask");
    };
    let evidence = Evidence {
        id: EvidenceId::from_stable_parts(&["final"]),
        file_id: FileId::from_stable_parts(&["file"]),
        path: RepositoryPath::new("src/lib.rs".to_owned()).expect("path"),
        span: SourceSpan::new(4, 0, 7, 0).expect("span"),
        symbol_id: None,
        excerpt: Some("fn example() {}".to_owned()),
    };
    let claim_id = ClaimId::from_stable_parts(&["claim"]);
    let mut final_answer = answer("Supported answer");
    final_answer.claims.push(Claim {
        id: claim_id,
        kind: ClaimKind::Fact,
        text: "The example exists.".to_owned(),
        evidence_ids: vec![evidence.id],
    });
    final_answer.evidence.push(evidence.clone());
    state.reduce(AppEvent::AnswerCompleted {
        request_id,
        answer: final_answer,
    });
    state.select_claim(claim_id);
    assert_eq!(state.visible_evidence().len(), 1);
    let AppCommand::LoadSource {
        request_id: source_request,
        repository_id: source_repository,
        path,
        start_line,
        end_line,
    } = state.load_evidence(evidence.id).expect("source command")
    else {
        panic!("expected source command");
    };
    assert_eq!(source_repository, repository_id);
    assert_eq!(path.as_str(), "src/lib.rs");
    assert_eq!((start_line, end_line), (4, Some(6)));
    state.reduce(AppEvent::SourceLoaded {
        request_id: source_request,
        repository_id,
        path,
        start_line,
        end_line: 6,
        content: "loaded source".to_owned(),
    });
    assert_eq!(
        state.source.as_ref().expect("loaded source").status,
        SourceStatus::Loaded
    );

    let diagram_id = DiagramId::from_stable_parts(&["diagram"]);
    let other_diagram_id = DiagramId::from_stable_parts(&["other-diagram"]);
    let AppCommand::OpenDiagram {
        request_id: diagram_request,
        diagram_id: command_diagram,
    } = state.open_diagram(diagram_id)
    else {
        panic!("expected diagram command");
    };
    assert_eq!(command_diagram, diagram_id);
    assert_eq!(state.diagram_message(other_diagram_id), None);
    state.reduce(AppEvent::DiagramOpened {
        request_id: diagram_request,
        diagram_id,
    });
    assert_eq!(
        state.diagram_message(diagram_id),
        Some("Diagram opened in the default viewer.")
    );
}

#[test]
fn diagram_open_failure_is_visible_inline_and_in_the_error_banner() {
    let mut state = GuiState::new("diagram-error");
    let diagram_id = DiagramId::from_stable_parts(&["failed-diagram"]);
    let AppCommand::OpenDiagram { request_id, .. } = state.open_diagram(diagram_id) else {
        panic!("expected diagram command");
    };

    state.reduce(AppEvent::Error {
        request_id: Some(request_id),
        error: AppError {
            code: "diagram_open_failed".to_owned(),
            message: "No compatible viewer was found".to_owned(),
            retryable: false,
        },
    });

    assert_eq!(
        state.diagram_message(diagram_id),
        Some("Could not open diagram: No compatible viewer was found")
    );
    assert_eq!(
        state.error,
        Some(UiError {
            code: "diagram_open_failed".to_owned(),
            message: "No compatible viewer was found".to_owned(),
            retryable: false,
        })
    );
    assert_ne!(state.status, WorkStatus::Error);
}

fn asked(state: &mut GuiState, question: &str) -> RequestId {
    state.question_input = question.to_owned();
    let Some(AppCommand::Ask { request_id, .. }) = state.ask() else {
        panic!("expected ask");
    };
    request_id
}

fn no_usage() -> ModelUsage {
    ModelUsage {
        tokens: TokenUsage::default(),
        cost: None,
    }
}

#[test]
fn requests_have_identities_of_their_own() {
    let mut state = GuiState::new("identities");
    indexed(&mut state, "repo");
    let first = asked(&mut state, "First?");
    state.reduce(AppEvent::AnswerCompleted {
        request_id: first,
        answer: answer("One"),
    });
    let second = asked(&mut state, "Second?");
    assert_ne!(first, second);
    let mut other = GuiState::new("elsewhere");
    indexed(&mut other, "repo");
    assert_ne!(asked(&mut other, "First?"), first);
}

#[test]
fn a_question_is_asked_once_and_only_of_an_indexed_repository() {
    let mut state = GuiState::new("asking");
    state.question_input = "Too early?".to_owned();
    assert!(!state.can_ask());
    assert!(state.ask().is_none());
    assert!(state.error.is_some());

    indexed(&mut state, "repo");
    state.question_input = "   ".to_owned();
    assert!(state.ask().is_none());
    asked(&mut state, "  Now?  ");
    assert_eq!(state.turns[0].question, "Now?");
    assert_eq!(state.question_input, "");
    assert_eq!(state.status, WorkStatus::Thinking);
    state.question_input = "Again?".to_owned();
    assert!(state.ask().is_none());
    assert_eq!(state.turns.len(), 1);
}

#[test]
fn progress_of_one_request_is_listed_within_bounds() {
    let mut state = GuiState::new("bounded");
    state.repository_input = "repo".to_owned();
    let Some(AppCommand::Index { request_id, .. }) = state.index_repository() else {
        panic!("expected index");
    };
    let phases = [
        ProgressPhase::Scanning,
        ProgressPhase::Parsing,
        ProgressPhase::Indexing,
        ProgressPhase::Searching,
        ProgressPhase::Tracing,
        ProgressPhase::Reading,
        ProgressPhase::Verifying,
        ProgressPhase::Explaining,
    ];
    for step in 0..400_u64 {
        state.reduce(AppEvent::Progress {
            request_id,
            progress: Progress {
                phase: phases[step as usize % phases.len()],
                message: format!("step {step}"),
                completed: Some(step),
                total: None,
            },
        });
    }
    assert_eq!(state.activity.len(), MAX_PROGRESS_ITEMS_PER_REQUEST);
    assert_eq!(state.activity.last().map(|item| item.title.as_str()), Some("step 399"));
}

#[test]
fn tool_calls_are_listed_and_completed() {
    let mut state = GuiState::new("tools");
    indexed(&mut state, "repo");
    let request_id = asked(&mut state, "Question");
    let call_id = ToolCallId::from_stable_parts(&["call"]);
    state.reduce(AppEvent::ToolCallStarted {
        request_id,
        call: ToolCall {
            id: call_id,
            name: "read_file".to_owned(),
            arguments: "{}".to_owned(),
        },
    });
    let item = state.activity.last().expect("the call is listed");
    assert_eq!(item.title, "Reading source");
    assert_eq!(item.status, ActivityStatus::Running);
    state.reduce(AppEvent::ToolCallCompleted {
        request_id,
        output: ToolOutput {
            call_id,
            result: "{}".to_owned(),
            is_error: true,
        },
    });
    let item = state.activity.last().expect("the call is listed");
    assert_eq!(item.status, ActivityStatus::Failed);
    assert_eq!(listed_activity(&state.activity, Some(request_id)).len(), 1);
}

#[test]
fn a_restored_task_brings_its_profile_back() {
    let mut state = GuiState::new("profile");
    let session_id = SessionId::from_stable_parts(&["session"]);
    let Some(AppCommand::LoadSession { request_id, .. }) = state.load_session(session_id) else {
        panic!("expected load session");
    };
    let (one, two) = (
        RequestId::from_stable_parts(&["one"]),
        RequestId::from_stable_parts(&["two"]),
    );
    let mut first = task(one, "One?", Some(answer("One")));
    first.profile = ExplanationProfile::new(ExplanationAudience::Expert, ExplanationDepth::Code);
    let second = task(two, "Two?", None);
    state.reduce(AppEvent::SessionLoaded {
        request_id,
        session: SessionContext {
            schema_version: 2,
            session_id,
            repository_id: repository_id("repo"),
            tasks: vec![first, second],
            usage: no_usage(),
            created_at_unix_ms: 0,
            updated_at_unix_ms: 0,
            json_path: "session.json".to_owned(),
        },
    });
    assert_eq!(state.turns.len(), 2);
    assert_eq!(state.selected_task, Some(two));
    assert_eq!(state.profile, ExplanationProfile::default());
    state.select_task(one);
    assert_eq!(state.profile.audience, ExplanationAudience::Expert);
    assert_eq!(state.selected_turn().map(|turn| turn.question.as_str()), Some("One?"));
    assert!(state.visible_claims().is_empty());
}

#[test]
fn cjk_fallback_includes_wsl_windows_fonts() {
    assert!(cjk_font_paths(Platform::Linux).contains(&"/mnt/c/Windows/Fonts/msyh.ttc"));
}

#[test]
fn usage_summary_contains_all_token_counts_and_optional_cost() {
    let amount = 0.0123_f64;
    let usage = ModelUsage {
        tokens: TokenUsage {
            input_tokens: 1_200,
            output_tokens: 345,
            cached_input_tokens: 678,
            total_tokens: 1_545,
        },
        cost: Some(Cost {
            currency: "USD".to_owned(),
            amount_bits: amount.to_bits(),
            estimated: true,
        }),
    };

    assert_eq!(
        usage_summary(&usage, &format!("{amount:.4}")),
        "Input 1200  |  Output 345  |  Cached 678  |  Total 1545 tokens  |  Cost 0.0123 USD (estimated)"
    );
    let free = ModelUsage { cost: None, ..usage };
    assert_eq!(
        usage_summary(&free, ""),
        "Input 1200  |  Output 345  |  Cached 678  |  Total 1545 tokens"
    );
}

#[test]
fn enter_shortcuts_respect_shift_and_ime_composition() {
    let enter = InputEvent::Enter { pressed: true, modified: false };
    let shift_enter = InputEvent::Enter { pressed: true, modified: true };
    let mut ime_active = false;

    assert!(question_enter_submits(
        std::slice::from_ref(&enter),
        true,
        &mut ime_active
    ));
    assert!(!question_enter_submits(
        &[InputEvent::ImeEnabled, shift_enter],
        true,
        &mut ime_active,
    ));
    assert!(ime_active);
    assert!(!question_enter_submits(
        &[InputEvent::ImeCommit, enter],
        true,
        &mut ime_active,
    ));
    assert!(!ime_active);
    assert!(question_enter_submits(&[enter], true, &mut ime_active));
}

#[test]
fn event_bridge_coalesces_progress_but_preserves_terminal_events() {
    let request_id = RequestId::from_stable_parts(&["bridge-progress"]);
    let mut relay = EventRelay::new();
    let mut passed = Vec::new();
    for step in 0..5_000 {
        let action = relay.on_event(AppEvent::Progress {
            request_id,
            progress: Progress {
                phase: ProgressPhase::Parsing,
                message: format!("file {step}"),
                completed: Some(step),
                total: Some(5_000),
            },
        });
        assert_eq!(action, RelayAction::Wait);
    }
    match relay.on_event(AppEvent::Cancelled { request_id }) {
        RelayAction::Deliver { progress, event } => {
            passed.extend(progress);
            passed.push(event);
        }
        RelayAction::Wait => panic!("a terminal event does not wait"),
    }
    assert_eq!(passed.len(), 2);
    let AppEvent::Progress { progress, .. } = &passed[0] else {
        panic!("the last progress comes first");
    };
    assert_eq!(progress.completed, Some(4_999));
    assert_eq!(passed[1], AppEvent::Cancelled { request_id });
    assert_eq!(relay.on_flush(), None);
}

#[test]
fn labels_of_the_workspace_are_fixed() {
    assert_eq!(language_name(&Language::Cpp), "C++");
    assert_eq!(language_name(&Language::Other("Zig".to_owned())), "Zig");
    assert_eq!(entry_kind(&EntryPointKind::WebRoute), "web route");
    assert_eq!(diagram_kind(DiagramKind::Flow), "Flow");
    assert_ne!(activity_mark(ActivityStatus::Failed), activity_mark(ActivityStatus::Complete));
    assert_eq!(human_tool_name("trace_call"), "Tracing a call path");
    assert_eq!(human_tool_name("run_all_tests"), "Run all tests");
    assert_eq!(short_id("2ea8cb278da7e841842a5c8659723cf8"), "2ea8cb27");
    assert_eq!(
        turn_notice(false, TurnStatus::Completed).message(),
        "The answer completed without display text."
    );
    assert_eq!(turn_notice(true, TurnStatus::Completed), TurnNotice::Nothing);
    assert_eq!(WorkStatus::Idle.label(), "Ready to index");
    assert!(composer_message(&GuiState::new("empty")).is_some());
}

#[test]
fn banners_and_lines_name_what_they_are_about() {
    let error = UiError {
        code: "index_failed".to_owned(),
        message: "Indexing failed".to_owned(),
        retryable: true,
    };
    let (title, detail) = error_banner(&error);
    assert!(format!("{title} {detail}").contains("Indexing failed"));
    assert!(notice_banner(&error).contains("Indexing failed"));

    let artifact = DiagramArtifact {
        id: DiagramId::from_stable_parts(&["artifact"]),
        path: "artifacts/flow.svg".to_owned(),
        media_type: "image/svg+xml".to_owned(),
        byte_size: 512,
    };
    assert!(artifact_line(&artifact).contains("512"));
    let diagram = Diagram {
        kind: DiagramKind::Flow,
        title: "Request flow".to_owned(),
        nodes: Vec::new(),
        edges: Vec::new(),
        artifact: None,
    };
    assert!(diagram_line(&diagram).contains("Flow"));

    let symbol = SymbolId::from_stable_parts(&["run"]);
    let step = |target| CallPathStep {
        target,
        call_edge_id: None,
        evidence_ids: Vec::new(),
    };
    let path = CallPath {
        id: CallPathId::from_stable_parts(&["path"]),
        label: Some("Startup".to_owned()),
        steps: vec![
            step(TargetResolution::Resolved(symbol)),
            step(TargetResolution::Unresolved(UnresolvedTarget {
                name: "external".to_owned(),
                reason: None,
            })),
        ],
        complete: false,
    };
    assert!(call_path_title(&path).contains("Startup"));
    let steps = call_path_steps(&path);
    assert!(steps.contains(&short_id(&symbol.to_string())) && steps.contains("external"));
}

#[test]
fn claims_are_numbered_by_kind_and_evidence_by_place() {
    let claim = |name: &str, kind| Claim {
        id: ClaimId::from_stable_parts(&[name]),
        kind,
        text: name.to_owned(),
        evidence_ids: Vec::new(),
    };
    let labels = claim_labels(&[
        claim("a", ClaimKind::Fact),
        claim("b", ClaimKind::Inference),
        claim("c", ClaimKind::Fact),
        claim("d", ClaimKind::Unknown),
    ]);
    assert_eq!(labels, ["F1", "I1", "F2", "U1"]);
    let evidence = |name: &str| Evidence {
        id: EvidenceId::from_stable_parts(&[name]),
        file_id: FileId::from_stable_parts(&["file"]),
        path: RepositoryPath::new("src/lib.rs".to_owned()).expect("path"),
        span: SourceSpan::new(1, 0, 2, 0).expect("span"),
        symbol_id: None,
        excerpt: None,
    };
    let listed = [evidence("one"), evidence("two")];
    assert_eq!(evidence_number(&listed, listed[1].id), 2);
}

#[test]
fn sessions_are_listed_with_their_first_question() {
    let mut state = GuiState::new("sessions");
    let id = indexed(&mut state, "repo");
    let mut session = SessionSummary {
        session_id: SessionId::from_stable_parts(&["session"]),
        repository_id: id,
        tasks: vec![SessionTaskSummary {
            request_id: RequestId::from_stable_parts(&["task"]),
            question: "How does run work?".to_owned(),
            profile: ExplanationProfile::default(),
            status: SessionTaskStatus::Completed,
        }],
        created_at_unix_ms: 0,
        updated_at_unix_ms: 0,
        json_path: "session.json".to_owned(),
    };
    assert_eq!(session_title(&session), "How does run work?");
    assert!(session_can_continue(&session, &state));
    let line = session_line(&session, true);
    assert_ne!(line, session_line(&session, false));
    session.repository_id = repository_id("other");
    assert!(!session_can_continue(&session, &state));
}

#[test]
fn progress_leaves_the_activity_of_others_in_order() {
    let mut state = GuiState::new("order");
    indexed(&mut state, "repo");
    let asked_id = asked(&mut state, "question");
    let report = |state: &mut GuiState, phase: ProgressPhase, message: String| {
        state.reduce(AppEvent::Progress {
            request_id: asked_id,
            progress: Progress {
                phase,
                message,
                completed: None,
                total: None,
            },
        });
    };
    let before: Vec<String> = state
        .activity
        .iter()
        .filter(|item| item.request_id != asked_id)
        .map(|item| item.title.clone())
        .collect();
    for step in 0..100 {
        report(&mut state, ProgressPhase::Searching, format!("step {step}"));
    }
    let after: Vec<String> = state
        .activity
        .iter()
        .filter(|item| item.request_id != asked_id)
        .map(|item| item.title.clone())
        .collect();
    assert_eq!(after, before);
    let own = state
        .activity
        .iter()
        .filter(|item| item.request_id == asked_id)
        .count();
    assert_eq!(own, MAX_PROGRESS_ITEMS_PER_REQUEST);
}

#[test]
fn file_progress_of_an_indexing_is_merged() {
    let mut state = GuiState::new("merged");
    state.repository_input = "repo".to_owned();
    let Some(AppCommand::Index { request_id, .. }) = state.index_repository() else {
        panic!("expected index");
    };
    let mut lengths = Vec::new();
    for message in ["parsing a.rs", "parsing b.rs"] {
        state.reduce(AppEvent::Progress {
            request_id,
            progress: Progress {
                phase: ProgressPhase::Parsing,
                message: message.to_owned(),
                completed: Some(1),
                total: Some(2),
            },
        });
        lengths.push(state.activity.len());
    }
    assert_eq!(lengths[0], lengths[1]);
    assert_eq!(state.activity.last().map(|item| item.title.as_str()), Some("parsing b.rs"));
}

/// A state that shows an answer with one evidence and the given actions.
fn answered(actions: &[SuggestedAction]) -> (GuiState, RepositoryId) {
    let mut state = GuiState::new("actions");
    let repository = indexed(&mut state, "repo");
    state.profile = ExplanationProfile {
        audience: ExplanationAudience::Beginner,
        depth: ExplanationDepth::Overview,
    };
    let request_id = asked(&mut state, "question");
    let mut answer = answer("offers actions");
    answer.evidence.push(Evidence {
        id: EvidenceId::from_stable_parts(&["offered"]),
        file_id: FileId::from_stable_parts(&["src/lib.rs"]),
        path: RepositoryPath::new("src/lib.rs".to_owned()).expect("canonical path"),
        span: SourceSpan::new(2, 0, 4, 1).expect("valid span"),
        symbol_id: None,
        excerpt: Some("fn run() {}".to_owned()),
    });
    answer.suggested_actions = actions.to_vec();
    state.reduce(AppEvent::AnswerCompleted { request_id, answer });
    (state, repository)
}

#[test]
fn only_an_offered_action_is_run() {
    let deepen = SuggestedAction::ChangeDepth {
        depth: ExplanationDepth::Code,
    };
    let (mut state, repository_id) = answered(&[deepen]);
    let answer_id = state.selected_answer().expect("an answer is shown").id;
    let other = SuggestedAction::ChangeDepth {
        depth: ExplanationDepth::Detail,
    };
    assert_eq!(state.run_suggested_action(other), None);
    assert!(!state.is_busy() && state.error.is_none());

    state.question_input = "a draft".to_owned();
    let Some(AppCommand::RunSuggestedAction {
        request_id,
        session_id,
        repository_id: named,
        answer_id: origin,
        action,
    }) = state.run_suggested_action(deepen)
    else {
        panic!("the action is offered");
    };
    assert_eq!((named, origin, action), (repository_id, answer_id, deepen));
    assert_eq!(session_id, state.session_id);
    assert!(state.is_busy());
    let turn = state.selected_turn().expect("a turn begins");
    assert_eq!(turn.request_id, request_id);
    assert_eq!(turn.question, "Explain the code");
    assert_eq!(turn.profile.audience, ExplanationAudience::Beginner);
    assert_eq!(turn.profile.depth, ExplanationDepth::Code);
    assert_eq!(state.question_input, "a draft");

    state.reduce(AppEvent::AnswerCompleted {
        request_id,
        answer: answer("in more depth"),
    });
    assert_eq!(
        state.selected_answer().map(|answer| answer.text.as_str()),
        Some("in more depth")
    );
    assert_eq!(state.run_suggested_action(deepen), None);
}

#[test]
fn showing_source_is_no_turn() {
    let evidence_id = EvidenceId::from_stable_parts(&["offered"]);
    let show = SuggestedAction::ShowSource { evidence_id };
    let (mut state, repository_id) = answered(&[show]);
    let turns = state.turns.len();
    let Some(AppCommand::RunSuggestedAction { request_id, .. }) = state.run_suggested_action(show)
    else {
        panic!("the action is offered");
    };
    assert_eq!(state.turns.len(), turns);
    assert!(!state.is_busy());
    let source = state.source.as_ref().expect("the excerpt is shown");
    assert_eq!(source.status, SourceStatus::Loading);
    assert_eq!(source.content, "fn run() {}");
    let (start_line, end_line) = (source.start_line, source.end_line);
    state.reduce(AppEvent::SourceLoaded {
        request_id,
        repository_id,
        path: RepositoryPath::new("src/lib.rs".to_owned()).expect("canonical path"),
        start_line,
        end_line,
        content: "the source".to_owned(),
    });
    assert_eq!(
        state.source.as_ref().map(|source| source.content.as_str()),
        Some("the source")
    );
}

#[test]
fn a_request_that_is_active_keeps_actions_waiting() {
    let deepen = SuggestedAction::ChangeDepth {
        depth: ExplanationDepth::Code,
    };
    let (mut state, _) = answered(&[deepen]);
    let shown = state.selected_task.expect("the answer is selected");
    asked(&mut state, "another question");
    state.select_task(shown);
    assert_eq!(state.run_suggested_action(deepen), None);
    assert_eq!(state.error.as_ref().map(|error| error.code.as_str()), Some("busy"));
}

#[test]
fn recorded_progress_replaces_the_last_report_of_its_phase() {
    let mut state = GuiState::new("recorded");
    let owner = RequestId::from_stable_parts(&["owner"]);
    let report = |phase: ProgressPhase, message: &str| Progress {
        phase,
        message: message.to_owned(),
        completed: None,
        total: None,
    };
    state.record_progress(owner, report(ProgressPhase::Parsing, "a"), true);
    state.record_progress(owner, report(ProgressPhase::Searching, "b"), true);
    state.record_progress(owner, report(ProgressPhase::Parsing, "c"), true);
    state.record_progress(owner, report(ProgressPhase::Parsing, "d"), false);
    let titles: Vec<&str> = state.activity.iter().map(|item| item.title.as_str()).collect();
    assert_eq!(titles, vec!["c", "b", "d"]);
}
