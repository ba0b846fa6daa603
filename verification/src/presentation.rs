//! What the native interface says and decides, apart from drawing it.
use crate::app::AppEvent;
use crate::evidence::{CallPath, Claim, ClaimKind, Diagram, DiagramArtifact, DiagramKind, Evidence};
use crate::gui_model;
use crate::gui_model::{ActivityStatus, TurnStatus};
use crate::gui_state;
use crate::gui_state::{ActivityItem, GuiState, UiError};
use crate::id;
use crate::id::{EvidenceId, RequestId};
use crate::ir::{EntryPointKind, Language};
use crate::model::ModelUsage;
use crate::session::SessionSummary;
use crate::text;
use vstd::prelude::*;

verus! {

/// What the composer of a question has to know of the keyboard.
#[derive(Debug, Clone, Copy, PartialEq, Eq, Structural)]
pub enum InputEvent {
    /// Enter was pressed or released, with or without a modifier such as Shift.
    Enter { pressed: bool, modified: bool },
    ImeEnabled,
    ImePreedit,
    ImeCommit,
    ImeDisabled,
    Other,
}

impl InputEvent {
    /// Enter pressed without a modifier.
    pub open spec fn plain_enter() -> InputEvent {
        InputEvent::Enter { pressed: true, modified: false }
    }

    pub fn is_plain_enter(self) -> (plain: bool)
        ensures
            plain == (self == InputEvent::plain_enter()),
    {
        match self {
            InputEvent::Enter { pressed, modified } => pressed && !modified,
            _ => false,
        }
    }
}

/// Whether any event of a frame belongs to the composition of a character.
pub open spec fn composes(events: Seq<InputEvent>) -> bool {
    events.contains(InputEvent::ImeEnabled) || events.contains(InputEvent::ImePreedit)
        || events.contains(InputEvent::ImeCommit)
}

/// Whether a composition is going on after the events of a frame.
pub open spec fn composition_after(active: bool, events: Seq<InputEvent>) -> bool
    decreases events.len(),
{
    if events.len() == 0 {
        active
    } else {
        match events.last() {
            InputEvent::ImeEnabled => true,
            InputEvent::ImePreedit => true,
            InputEvent::ImeCommit => false,
            InputEvent::ImeDisabled => false,
            _ => composition_after(active, events.drop_last()),
        }
    }
}

/// Whether the events of a frame submit the question: Enter does, except while a
/// character is being composed. A commit and its confirming Enter may arrive in the
/// same frame, so that any composition in that frame counts.
pub fn question_enter_submits(events: &[InputEvent], has_focus: bool, ime_active: &mut bool) -> (
submits: bool)
    ensures
        submits == (has_focus && !*old(ime_active) && !composes(events@) && events@.contains(
            InputEvent::plain_enter(),
        )),
        *final(ime_active) == (has_focus && composition_after(*old(ime_active), events@)),
{
    if !has_focus {
        *ime_active = false;
        return false;
    }
    let started = *ime_active;
    let mut composing = false;
    let mut entered = false;
    let mut index: usize = 0;
    assert(events@.take(0) =~= Seq::empty());
    while index < events.len()
        invariant
            index <= events@.len(),
            composing == composes(events@.take(index as int)),
            entered == events@.take(index as int).contains(InputEvent::plain_enter()),
            *ime_active == composition_after(started, events@.take(index as int)),
        decreases events@.len() - index,
    {
        let ghost before = events@.take(index as int);
        let ghost after = events@.take(index + 1);
        assert(after =~= before.push(events@[index as int]));
        assert(after.drop_last() =~= before);
        proof {
            lemma_contains_push(before, events@[index as int], InputEvent::ImeEnabled);
            lemma_contains_push(before, events@[index as int], InputEvent::ImePreedit);
            lemma_contains_push(before, events@[index as int], InputEvent::ImeCommit);
            lemma_contains_push(before, events@[index as int], InputEvent::plain_enter());
        }
        match events[index] {
            InputEvent::ImeEnabled | InputEvent::ImePreedit => {
                composing = true;
                *ime_active = true;
            },
            InputEvent::ImeCommit => {
                composing = true;
                *ime_active = false;
            },
            InputEvent::ImeDisabled => {
                *ime_active = false;
            },
            event => {
                if event.is_plain_enter() {
                    entered = true;
                }
            },
        }
        index = index + 1;
    }
    assert(events@.take(events@.len() as int) =~= events@);
    !started && !composing && entered
}

proof fn lemma_contains_push(events: Seq<InputEvent>, last: InputEvent, wanted: InputEvent)
    ensures
        events.push(last).contains(wanted) == (events.contains(wanted) || last == wanted),
{
    let all = events.push(last);
    if events.contains(wanted) {
        let i = choose|i: int| 0 <= i < events.len() && events[i] == wanted;
        assert(all[i] == wanted);
    }
    if last == wanted {
        assert(all[events.len() as int] == wanted);
    }
}

/// The platforms whose fonts are known.
#[derive(Debug, Clone, Copy, PartialEq, Eq, Structural)]
pub enum Platform {
    Linux,
    Windows,
    MacOs,
    Other,
}

/// Where fonts for Chinese, Japanese and Korean may be found.
pub open spec fn font_paths(platform: Platform) -> Seq<Seq<char>> {
    match platform {
        Platform::Linux => seq![
            "/mnt/c/Windows/Fonts/msyh.ttc"@,
            "/mnt/c/Windows/Fonts/msyhl.ttc"@,
            "/mnt/c/Windows/Fonts/simsun.ttc"@,
            "/mnt/c/Windows/Fonts/simhei.ttf"@,
            "/usr/share/fonts/opentype/noto/NotoSansCJK-Regular.ttc"@,
            "/usr/share/fonts/truetype/noto/NotoSansCJK-Regular.ttc"@,
            "/usr/share/fonts/opentype/noto/NotoSansCJKsc-Regular.otf"@,
            "/usr/share/fonts/truetype/wqy/wqy-microhei.ttc"@,
            "/usr/share/fonts/opentype/adobe-source-han-sans/SourceHanSansCN-Regular.otf"@,
            "/usr/share/fonts/opentype/source-han-sans/SourceHanSansSC-Regular.otf"@,
        ],
        Platform::Windows => seq![
            "C:\\Windows\\Fonts\\msyh.ttc"@,
            "C:\\Windows\\Fonts\\simhei.ttf"@,
            "C:\\Windows\\Fonts\\simsun.ttc"@,
        ],
        Platform::MacOs => seq![
            "/System/Library/Fonts/PingFang.ttc"@,
            "/System/Library/Fonts/STHeiti Light.ttc"@,
            "/System/Library/Fonts/Hiragino Sans GB.ttc"@,
        ],
        Platform::Other => Seq::empty(),
    }
}

/// Where fonts for Chinese, Japanese and Korean may be found, the preferred one
/// first. On Linux the fonts of a Windows host come before those of the system,
/// which may have none.
pub fn cjk_font_paths(platform: Platform) -> (paths: Vec<&'static str>)
    ensures
        text::views(paths@) == font_paths(platform),
{
    let mut paths: Vec<&'static str> = Vec::new();
    match platform {
        Platform::Linux => {
            paths.push("/mnt/c/Windows/Fonts/msyh.ttc");
            paths.push("/mnt/c/Windows/Fonts/msyhl.ttc");
            paths.push("/mnt/c/Windows/Fonts/simsun.ttc");
            paths.push("/mnt/c/Windows/Fonts/simhei.ttf");
            paths.push("/usr/share/fonts/opentype/noto/NotoSansCJK-Regular.ttc");
            paths.push("/usr/share/fonts/truetype/noto/NotoSansCJK-Regular.ttc");
            paths.push("/usr/share/fonts/opentype/noto/NotoSansCJKsc-Regular.otf");
            paths.push("/usr/share/fonts/truetype/wqy/wqy-microhei.ttc");
            paths.push(
                "/usr/share/fonts/opentype/adobe-source-han-sans/SourceHanSansCN-Regular.otf",
            );
            paths.push("/usr/share/fonts/opentype/source-han-sans/SourceHanSansSC-Regular.otf");
        },
        Platform::Windows => {
            paths.push("C:\\Windows\\Fonts\\msyh.ttc");
            paths.push("C:\\Windows\\Fonts\\simhei.ttf");
            paths.push("C:\\Windows\\Fonts\\simsun.ttc");
        },
        Platform::MacOs => {
            paths.push("/System/Library/Fonts/PingFang.ttc");
            paths.push("/System/Library/Fonts/STHeiti Light.ttc");
            paths.push("/System/Library/Fonts/Hiragino Sans GB.ttc");
        },
        Platform::Other => {},
    }
    assert(text::views(paths@) =~= font_paths(platform));
    paths
}

pub fn activity_mark(status: ActivityStatus) -> (mark: &'static str)
    ensures
        mark@ == (match status {
            ActivityStatus::Running => "RUN"@,
            ActivityStatus::Complete => "OK"@,
            ActivityStatus::Cancelled => "STOP"@,
            ActivityStatus::Failed => "ERR"@,
            ActivityStatus::Information => "STEP"@,
        }),
{
    match status {
        ActivityStatus::Running => "RUN",
        ActivityStatus::Complete => "OK",
        ActivityStatus::Cancelled => "STOP",
        ActivityStatus::Failed => "ERR",
        ActivityStatus::Information => "STEP",
    }
}

pub fn language_name(language: &Language) -> (name: &str)
    ensures
        name@ == (match *language {
            Language::Rust => "Rust"@,
            Language::Python => "Python"@,
            Language::C => "C"@,
            Language::Cpp => "C++"@,
            Language::Java => "Java"@,
            Language::JavaScript => "JavaScript"@,
            Language::TypeScript => "TypeScript"@,
            Language::Go => "Go"@,
            Language::Other(name) => name@,
        }),
{
    match language {
        Language::Rust => "Rust",
        Language::Python => "Python",
        Language::C => "C",
        Language::Cpp => "C++",
        Language::Java => "Java",
        Language::JavaScript => "JavaScript",
        Language::TypeScript => "TypeScript",
        Language::Go => "Go",
        Language::Other(name) => name.as_str(),
    }
}

pub fn entry_kind(kind: &EntryPointKind) -> (name: &str)
    ensures
        name@ == (match *kind {
            EntryPointKind::Executable => "executable"@,
            EntryPointKind::Library => "library"@,
            EntryPointKind::Test => "test"@,
            EntryPointKind::Benchmark => "benchmark"@,
            EntryPointKind::WebRoute => "web route"@,
            EntryPointKind::BackgroundTask => "background task"@,
            EntryPointKind::Other(name) => name@,
        }),
{
    match kind {
        EntryPointKind::Executable => "executable",
        EntryPointKind::Library => "library",
        EntryPointKind::Test => "test",
        EntryPointKind::Benchmark => "benchmark",
        EntryPointKind::WebRoute => "web route",
        EntryPointKind::BackgroundTask => "background task",
        EntryPointKind::Other(name) => name.as_str(),
    }
}

/// The name of a kind of diagram.
pub open spec fn diagram_kind_text(kind: DiagramKind) -> Seq<char> {
    match kind {
        DiagramKind::Architecture => "Architecture"@,
        DiagramKind::Flow => "Flow"@,
        DiagramKind::Relationship => "Relationship"@,
    }
}

pub fn diagram_kind(kind: DiagramKind) -> (name: &'static str)
    ensures
        name@ == diagram_kind_text(kind),
{
    match kind {
        DiagramKind::Architecture => "Architecture",
        DiagramKind::Flow => "Flow",
        DiagramKind::Relationship => "Relationship",
    }
}

/// The summary of a usage; `amount` is the amount of its cost with four decimals.
pub open spec fn usage_text(usage: ModelUsage, amount: Seq<char>) -> Seq<char> {
    let counts = "Input "@ + text::decimal(usage.tokens.input_tokens as nat) + "  |  Output "@
        + text::decimal(usage.tokens.output_tokens as nat) + "  |  Cached "@ + text::decimal(
        usage.tokens.cached_input_tokens as nat,
    ) + "  |  Total "@ + text::decimal(usage.tokens.total_tokens as nat) + " tokens"@;
    match usage.cost {
        None => counts,
        Some(cost) => {
            let priced = counts + "  |  Cost "@ + amount + " "@ + cost.currency@;
            if cost.estimated {
                priced + " (estimated)"@
            } else {
                priced
            }
        },
    }
}

/// Summarizes a usage; `amount` is the amount of its cost with four decimals.
pub fn usage_summary(usage: &ModelUsage, amount: &str) -> (summary: String)
    ensures
        summary@ == usage_text(*usage, amount@),
{
    let mut summary = "Input ".to_owned();
    text::push_decimal(&mut summary, usage.tokens.input_tokens);
    summary.push_str("  |  Output ");
    text::push_decimal(&mut summary, usage.tokens.output_tokens);
    summary.push_str("  |  Cached ");
    text::push_decimal(&mut summary, usage.tokens.cached_input_tokens);
    summary.push_str("  |  Total ");
    text::push_decimal(&mut summary, usage.tokens.total_tokens);
    summary.push_str(" tokens");
    match &usage.cost {
        Some(cost) => {
            summary.push_str("  |  Cost ");
            summary.push_str(amount);
            summary.push_str(" ");
            summary.push_str(cost.currency.as_str());
            if cost.estimated {
                summary.push_str(" (estimated)");
            }
        },
        None => {},
    }
    summary
}

/// How many claims are of a kind.
pub open spec fn kind_count(claims: Seq<Claim>, kind: ClaimKind) -> nat
    decreases claims.len(),
{
    if claims.len() == 0 {
        0
    } else if claims.last().kind == kind {
        kind_count(claims.drop_last(), kind) + 1
    } else {
        kind_count(claims.drop_last(), kind)
    }
}

/// The label of a claim: the letter of its kind and its number among the claims of
/// that kind.
pub open spec fn claim_label(claims: Seq<Claim>, index: int) -> Seq<char> {
    let number = text::decimal(kind_count(claims.take(index + 1), claims[index].kind));
    match claims[index].kind {
        ClaimKind::Fact => "F"@ + number,
        ClaimKind::Inference => "I"@ + number,
        ClaimKind::Unknown => "U"@ + number,
    }
}

/// The labels of the claims of an answer, in order.
pub fn claim_labels(claims: &[Claim]) -> (labels: Vec<String>)
    ensures
        labels@.len() == claims@.len(),
        forall|i: int|
            0 <= i < claims@.len() ==> (#[trigger] labels@[i])@ == claim_label(claims@, i),
{
    let mut labels: Vec<String> = Vec::new();
    let mut facts: usize = 0;
    let mut inferences: usize = 0;
    let mut unknowns: usize = 0;
    let mut index: usize = 0;
    assert(claims@.take(0) =~= Seq::empty());
    while index < claims.len()
        invariant
            index <= claims@.len(),
            claims@.len() == claims.len(),
            labels@.len() == index,
            facts <= index && inferences <= index && unknowns <= index,
            facts == kind_count(claims@.take(index as int), ClaimKind::Fact),
            inferences == kind_count(claims@.take(index as int), ClaimKind::Inference),
            unknowns == kind_count(claims@.take(index as int), ClaimKind::Unknown),
            forall|i: int| 0 <= i < index ==> (#[trigger] labels@[i])@ == claim_label(claims@, i),
        decreases claims@.len() - index,
    {
        assert(claims@.take(index + 1).drop_last() =~= claims@.take(index as int));
        let (letter, number) = match claims[index].kind {
            ClaimKind::Fact => {
                facts = facts + 1;
                ("F", facts)
            },
            ClaimKind::Inference => {
                inferences = inferences + 1;
                ("I", inferences)
            },
            ClaimKind::Unknown => {
                unknowns = unknowns + 1;
                ("U", unknowns)
            },
        };
        let mut label = letter.to_owned();
        text::push_decimal(&mut label, number as u64);
        labels.push(label);
        index = index + 1;
    }
    labels
}

/// The number of an evidence in its answer, from one; zero where the answer does not
/// have it.
pub fn evidence_number(evidence: &[Evidence], wanted: EvidenceId) -> (number: usize)
    ensures
        match gui_model::first_evidence(evidence@, wanted) {
            Some(index) => number == index + 1,
            None => number == 0,
        },
{
    let mut index: usize = 0;
    assert(evidence@.take(0) =~= Seq::empty());
    while index < evidence.len()
        invariant
            index <= evidence@.len(),
            evidence@.len() == evidence.len(),
            gui_model::first_evidence(evidence@.take(index as int), wanted) is None,
        decreases evidence@.len() - index,
    {
        assert(evidence@.take(index + 1).drop_last() =~= evidence@.take(index as int));
        if evidence[index].id == wanted {
            proof {
                gui_state::lemma_first_evidence_stays(evidence@, wanted, index + 1);
            }
            return index + 1;
        }
        index = index + 1;
    }
    assert(evidence@.take(evidence@.len() as int) =~= evidence@);
    0
}

/// Why no question can be asked.
pub fn composer_message(state: &GuiState) -> (message: Option<&'static str>)
    ensures
        match message {
            Some(message) => if state@.active is Some {
                message@ == "A request is already running."@
            } else if state@.is_read_only() {
                message@ == "This historical session is read-only."@
            } else {
                state@.repository is None && message@ == "Index a repository to ask a question."@
            },
            None => state@.repository is Some && !state@.is_read_only() && state@.active is None,
        },
{
    if state.can_ask() {
        None
    } else if state.is_busy() {
        Some("A request is already running.")
    } else if state.is_read_only() {
        Some("This historical session is read-only.")
    } else {
        Some("Index a repository to ask a question.")
    }
}

/// What is said below the text of an answer.
#[derive(Debug, Clone, Copy, PartialEq, Eq, Structural)]
pub enum TurnNotice {
    Nothing,
    Researching,
    NoText,
    Cancelled,
    Failed,
}

impl TurnNotice {
    pub open spec fn message_text(self) -> Seq<char> {
        match self {
            TurnNotice::Nothing => ""@,
            TurnNotice::Researching => "Researching the repository..."@,
            TurnNotice::NoText => "The answer completed without display text."@,
            TurnNotice::Cancelled => "Request cancelled."@,
            TurnNotice::Failed => "The request failed before an answer was completed."@,
        }
    }

    pub fn message(self) -> (message: &'static str)
        ensures
            message@ == self.message_text(),
    {
        match self {
            TurnNotice::Nothing => "",
            TurnNotice::Researching => "Researching the repository...",
            TurnNotice::NoText => "The answer completed without display text.",
            TurnNotice::Cancelled => "Request cancelled.",
            TurnNotice::Failed => "The request failed before an answer was completed.",
        }
    }
}

/// Decides what is said below the text of an answer.
pub fn turn_notice(has_text: bool, status: TurnStatus) -> (notice: TurnNotice)
    ensures
        notice == (match status {
            TurnStatus::Running => if has_text {
                TurnNotice::Nothing
            } else {
                TurnNotice::Researching
            },
            TurnStatus::Completed => if has_text {
                TurnNotice::Nothing
            } else {
                TurnNotice::NoText
            },
            TurnStatus::Cancelled => TurnNotice::Cancelled,
            TurnStatus::Failed => TurnNotice::Failed,
        }),
{
    match status {
        TurnStatus::Running => if has_text {
            TurnNotice::Nothing
        } else {
            TurnNotice::Researching
        },
        TurnStatus::Completed => if has_text {
            TurnNotice::Nothing
        } else {
            TurnNotice::NoText
        },
        TurnStatus::Cancelled => TurnNotice::Cancelled,
        TurnStatus::Failed => TurnNotice::Failed,
    }
}

/// The title and the message of an error banner.
pub fn error_banner(error: &UiError) -> (banner: (String, String))
    ensures
        banner.0@ == "ERROR | "@ + error.code@,
        banner.1@ == error.message@ + (if error.retryable {
            " You can retry."@
        } else {
            ""@
        }),
{
    let mut title = "ERROR | ".to_owned();
    title.push_str(error.code.as_str());
    let mut message = error.message.clone();
    if error.retryable {
        message.push_str(" You can retry.");
    } else {
        message.push_str("");
    }
    (title, message)
}

/// The message of a notice banner.
pub fn notice_banner(notice: &UiError) -> (message: String)
    ensures
        message@ == notice.code@ + ": "@ + notice.message@,
{
    let mut message = notice.code.clone();
    message.push_str(": ");
    message.push_str(notice.message.as_str());
    message
}

/// The title of a saved session: its last question.
pub fn session_title(session: &SessionSummary) -> (title: &str)
    ensures
        title@ == (if session.tasks@.len() == 0 {
            "Empty session"@
        } else {
            session.tasks@.last().question@
        }),
{
    let count = session.tasks.len();
    if count == 0 {
        "Empty session"
    } else {
        session.tasks[count - 1].question.as_str()
    }
}

/// Whether a saved session belongs to the repository that is indexed.
pub fn session_can_continue(session: &SessionSummary, state: &GuiState) -> (can: bool)
    ensures
        can == (state@.indexed_id() == Some(session.repository_id)),
{
    match &state.repository {
        Some(repository) => repository.id == session.repository_id,
        None => false,
    }
}

/// The line below the title of a saved session.
pub fn session_line(session: &SessionSummary, can_continue: bool) -> (line: String)
    ensures
        line@ == text::decimal(session.tasks@.len()) + " tasks | repository "@
            + gui_state::short_text(id::id_text(session.repository_id.value)) + " | "@ + (
        if can_continue {
            "can continue"@
        } else {
            "read-only"@
        }),
{
    let mut line = text::decimal_text(session.tasks.len() as u64);
    line.push_str(" tasks | repository ");
    let full = session.repository_id.to_string();
    let short = gui_state::short_id(full.as_str());
    line.push_str(short.as_str());
    line.push_str(" | ");
    if can_continue {
        line.push_str("can continue");
    } else {
        line.push_str("read-only");
    }
    line
}

/// Whether an activity is listed: that of the selected task, or all of it.
pub open spec fn is_listed(item: ActivityItem, selected: Option<RequestId>) -> bool {
    selected is None || item.request_id == selected->0
}

/// The positions of the activities that are listed.
pub open spec fn listed_positions(activity: Seq<ActivityItem>, selected: Option<RequestId>) -> Seq<
    usize,
>
    decreases activity.len(),
{
    if activity.len() == 0 {
        Seq::empty()
    } else {
        let rest = listed_positions(activity.drop_last(), selected);
        if is_listed(activity.last(), selected) {
            rest.push((activity.len() - 1) as usize)
        } else {
            rest
        }
    }
}

/// The positions of the activities that are listed, in order.
pub fn listed_activity(activity: &Vec<ActivityItem>, selected: Option<RequestId>) -> (listed: Vec<
    usize,
>)
    ensures
        listed@ == listed_positions(activity@, selected),
{
    let mut listed: Vec<usize> = Vec::new();
    let mut index: usize = 0;
    assert(activity@.take(0) =~= Seq::empty());
    while index < activity.len()
        invariant
            index <= activity@.len(),
            listed@ == listed_positions(activity@.take(index as int), selected),
        decreases activity@.len() - index,
    {
        assert(activity@.take(index + 1).drop_last() =~= activity@.take(index as int));
        let wanted = match selected {
            Some(request_id) => activity[index].request_id == request_id,
            None => true,
        };
        if wanted {
            listed.push(index);
        }
        index = index + 1;
    }
    assert(activity@.take(activity@.len() as int) =~= activity@);
    listed
}

/// The title of a call path.
pub fn call_path_title(path: &CallPath) -> (title: String)
    ensures
        title@ == (match path.label {
            Some(label) => label@,
            None => "Call path"@,
        }) + " | "@ + (if path.complete {
            "complete"@
        } else {
            "partial"@
        }),
{
    let mut title = match &path.label {
        Some(label) => label.clone(),
        None => "Call path".to_owned(),
    };
    title.push_str(" | ");
    if path.complete {
        title.push_str("complete");
    } else {
        title.push_str("partial");
    }
    title
}

/// The steps of a call path with arrows between them.
pub open spec fn steps_text(path: CallPath, count: nat) -> Seq<char>
    decreases count,
{
    if count == 0 {
        Seq::empty()
    } else {
        let last = gui_state::target_text(path.steps@[count - 1].target);
        if count == 1 {
            last
        } else {
            steps_text(path, (count - 1) as nat) + "  ->  "@ + last
        }
    }
}

/// The steps of a call path with arrows between them.
pub fn call_path_steps(path: &CallPath) -> (steps: String)
    ensures
        steps@ == steps_text(*path, path.steps@.len()),
{
    let mut steps = String::new();
    let mut index: usize = 0;
    while index < path.steps.len()
        invariant
            index <= path.steps@.len(),
            steps@ == steps_text(*path, index as nat),
        decreases path.steps@.len() - index,
    {
        if index > 0 {
            steps.push_str("  ->  ");
        }
        let target = gui_state::call_target(&path.steps[index].target);
        steps.push_str(target.as_str());
        assert(steps@ =~= steps_text(*path, (index + 1) as nat));
        index = index + 1;
    }
    steps
}

/// The line that sums a diagram up.
pub fn diagram_line(diagram: &Diagram) -> (line: String)
    ensures
        line@ == diagram_kind_text(diagram.kind) + " | "@ + text::decimal(diagram.nodes@.len())
            + " nodes | "@ + text::decimal(diagram.edges@.len()) + " links"@,
{
    let mut line = diagram_kind(diagram.kind).to_owned();
    line.push_str(" | ");
    text::push_decimal(&mut line, diagram.nodes.len() as u64);
    line.push_str(" nodes | ");
    text::push_decimal(&mut line, diagram.edges.len() as u64);
    line.push_str(" links");
    line
}

/// The line that names the file of a diagram.
pub fn artifact_line(artifact: &DiagramArtifact) -> (line: String)
    ensures
        line@ == "SVG "@ + gui_state::short_text(id::id_text(artifact.id.value)) + " | "@
            + text::decimal(artifact.byte_size as nat) + " bytes"@,
{
    let mut line = "SVG ".to_owned();
    let full = artifact.id.to_string();
    let short = gui_state::short_id(full.as_str());
    line.push_str(short.as_str());
    line.push_str(" | ");
    text::push_decimal(&mut line, artifact.byte_size);
    line.push_str(" bytes");
    line
}

/// What the bridge between the runtime and the window does with an event.
#[derive(Debug, PartialEq, Eq)]
pub enum RelayAction {
    /// The event waits.
    Wait,
    /// The progress that waited is offered, and dropped where there is no room; then
    /// the event is delivered.
    Deliver { progress: Option<AppEvent>, event: AppEvent },
}

/// The bridge between the runtime and the window: of the progress reports that come
/// in between two deliveries only the last is passed on.
#[derive(Debug)]
pub struct EventRelay {
    pub pending_progress: Option<AppEvent>,
}

/// What the bridge makes of an event.
pub open spec fn relay_step(
    before: EventRelay,
    event: AppEvent,
    after: EventRelay,
    action: RelayAction,
) -> bool {
    if event is Progress {
        action == RelayAction::Wait && after.pending_progress == Some(event)
    } else {
        action == (RelayAction::Deliver { progress: before.pending_progress, event })
            && after.pending_progress is None
    }
}

impl EventRelay {
    /// Only progress waits in the bridge.
    pub open spec fn holds_progress(self) -> bool {
        self.pending_progress is None || self.pending_progress->0 is Progress
    }

    pub fn new() -> (relay: EventRelay)
        ensures
            relay.pending_progress is None,
    {
        EventRelay { pending_progress: None }
    }

    /// An event of the runtime.
    pub fn on_event(&mut self, event: AppEvent) -> (action: RelayAction)
        ensures
            relay_step(*old(self), event, *final(self), action),
    {
        match event {
            AppEvent::Progress { request_id, progress } => {
                self.pending_progress = Some(AppEvent::Progress { request_id, progress });
                RelayAction::Wait
            },
            event => {
                let progress = self.pending_progress.take();
                RelayAction::Deliver { progress, event }
            },
        }
    }

    /// The time to pass progress on, or the end of the events.
    pub fn on_flush(&mut self) -> (progress: Option<AppEvent>)
        ensures
            progress == old(self).pending_progress,
            final(self).pending_progress is None,
    {
        self.pending_progress.take()
    }

    /// There was no room for the progress that was offered: it waits.
    pub fn on_full(&mut self, progress: AppEvent)
        ensures
            final(self).pending_progress == Some(progress),
    {
        self.pending_progress = Some(progress);
    }
}

/// Whatever waits in the bridge is progress: every other event is delivered at once,
/// unchanged.
pub proof fn law_only_progress_waits(
    before: EventRelay,
    event: AppEvent,
    after: EventRelay,
    action: RelayAction,
)
    requires
        before.holds_progress(),
        relay_step(before, event, after, action),
    ensures
        after.holds_progress(),
        event !is Progress ==> action is Deliver && action->event == event,
{
}

/// The activities that are listed are those of the selected task, or all of them where
/// none is selected, in order.
pub proof fn law_listed_activity_is_that_of_the_task(
    activity: Seq<ActivityItem>,
    selected: Option<RequestId>,
)
    requires
        activity.len() <= usize::MAX,
    ensures
        ({
            let listed = listed_positions(activity, selected);
            &&& forall|i: int, j: int|
                0 <= i < j < listed.len() ==> #[trigger] listed[i] < #[trigger] listed[j]
            &&& forall|position: usize| #[trigger]
                listed.contains(position) <==> position < activity.len() && match selected {
                    Some(request_id) => activity[position as int].request_id == request_id,
                    None => true,
                }
        }),
    decreases activity.len(),
{
    let listed = listed_positions(activity, selected);
    if activity.len() == 0 {
        assert forall|position: usize| !#[trigger] listed.contains(position) by {}
    } else {
        let rest = activity.drop_last();
        let fewer = listed_positions(rest, selected);
        let last = (activity.len() - 1) as usize;
        law_listed_activity_is_that_of_the_task(rest, selected);
        assert forall|position: usize| #[trigger]
            listed.contains(position) <==> position < activity.len() && match selected {
                Some(request_id) => activity[position as int].request_id == request_id,
                None => true,
            } by {
            if fewer.contains(position) {
                let k = choose|k: int| 0 <= k < fewer.len() && fewer[k] == position;
                assert(listed[k] == position);
                assert(rest[position as int] == activity[position as int]);
            }
            if listed.contains(position) {
                let k = choose|k: int| 0 <= k < listed.len() && listed[k] == position;
                if k < fewer.len() {
                    assert(fewer[k] == position);
                }
            }
            if position < last {
                assert(rest[position as int] == activity[position as int]);
            }
            if position == last && is_listed(activity.last(), selected) {
                assert(listed[fewer.len() as int] == position);
            }
        }
        assert forall|i: int, j: int| 0 <= i < j < listed.len() implies #[trigger] listed[i]
            < #[trigger] listed[j] by {
            if j == fewer.len() {
                assert(fewer.contains(fewer[i]));
            }
        }
    }
}

/// Claims of one kind are numbered from one on, in order: the first of a kind has the
/// number one, and the next of the kind the next number, each behind the letter of its
/// kind.
pub proof fn law_claims_are_numbered_by_kind(claims: Seq<Claim>, i: int, j: int) -> (number: nat)
    requires
        0 <= i < j < claims.len(),
        claims[i].kind == claims[j].kind,
        forall|k: int| i < k < j ==> (#[trigger] claims[k]).kind != claims[i].kind,
    ensures
        ({
            let letter = match claims[i].kind {
                ClaimKind::Fact => "F"@,
                ClaimKind::Inference => "I"@,
                ClaimKind::Unknown => "U"@,
            };
            &&& number >= 1
            &&& claim_label(claims, i) == letter + text::decimal(number)
            &&& claim_label(claims, j) == letter + text::decimal(number + 1)
            &&& (forall|k: int| 0 <= k < i ==> (#[trigger] claims[k]).kind != claims[i].kind)
                ==> number == 1
        }),
{
    let kind = claims[i].kind;
    let number = kind_count(claims.take(i + 1), kind);
    assert(claims.take(i + 1).last() == claims[i]);
    assert(claims.take(i + 1).drop_last() =~= claims.take(i));
    assert(claims.take(j + 1).last() == claims[j]);
    assert(claims.take(j + 1).drop_last() =~= claims.take(j));
    lemma_kind_count_kept(claims, kind, i + 1, j);
    if forall|k: int| 0 <= k < i ==> (#[trigger] claims[k]).kind != kind {
        assert(claims.take(0) =~= Seq::empty());
        lemma_kind_count_kept(claims, kind, 0, i);
    }
    number
}

proof fn lemma_kind_count_kept(claims: Seq<Claim>, kind: ClaimKind, from: int, to: int)
    requires
        0 <= from <= to <= claims.len(),
        forall|k: int| from <= k < to ==> (#[trigger] claims[k]).kind != kind,
    ensures
        kind_count(claims.take(to), kind) == kind_count(claims.take(from), kind),
    decreases to - from,
{
    if from < to {
        lemma_kind_count_kept(claims, kind, from, to - 1);
        assert(claims.take(to).last() == claims[to - 1]);
        assert(claims.take(to).drop_last() =~= claims.take(to - 1));
    }
}

/// After the events of a frame a composition goes on if and only if the last event of a
/// composition began or continued one; without any it goes on as it did.
pub proof fn law_last_composition_event_decides(
    active: bool,
    events: Seq<InputEvent>,
    k: int,
)
    requires
        -1 <= k < events.len(),
        forall|j: int|
            k < j < events.len() ==> !(#[trigger] events[j] is ImeEnabled || events[j] is ImePreedit
                || events[j] is ImeCommit || events[j] is ImeDisabled),
        k >= 0 ==> events[k] is ImeEnabled || events[k] is ImePreedit || events[k] is ImeCommit
            || events[k] is ImeDisabled,
    ensures
        composition_after(active, events) == if k < 0 {
            active
        } else {
            events[k] is ImeEnabled || events[k] is ImePreedit
        },
    decreases events.len(),
{
    let last = events.len() - 1;
    if k < last {
        let rest = events.drop_last();
        assert(events[last] == events.last());
        assert forall|j: int| k < j < rest.len() implies !(#[trigger] rest[j] is ImeEnabled
            || rest[j] is ImePreedit || rest[j] is ImeCommit || rest[j] is ImeDisabled) by {
            assert(rest[j] == events[j]);
        }
        law_last_composition_event_decides(active, rest, k);
    }
}

/// Every event but progress is delivered, in order, and of the progress between two of
/// them the latest is delivered first.
pub proof fn law_latest_progress_goes_first(
    start: EventRelay,
    first: AppEvent,
    middle: EventRelay,
    second: AppEvent,
    end: EventRelay,
    first_action: RelayAction,
    second_action: RelayAction,
)
    requires
        first is Progress,
        relay_step(start, first, middle, first_action),
        relay_step(middle, second, end, second_action),
    ensures
        first_action == RelayAction::Wait,
        second is Progress ==> end.pending_progress == Some(second),
        !(second is Progress) ==> second_action == (RelayAction::Deliver {
            progress: Some(first),
            event: second,
        }) && end.pending_progress is None,
{
}

} // verus!
