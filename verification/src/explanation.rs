//! Presentation controls for an explanation.
use vstd::prelude::*;

verus! {

/// The assumed technical background for an explanation.
#[derive(Debug, Clone, Copy, PartialEq, Eq, Hash, Structural)]
pub enum ExplanationAudience {
    Beginner,
    Developer,
    Expert,
}

impl Default for ExplanationAudience {
    fn default() -> (audience: ExplanationAudience)
        ensures
            audience == ExplanationAudience::Developer,
    {
        ExplanationAudience::Developer
    }
}

impl ExplanationAudience {
    /// The trusted, fixed model instruction for this audience.
    pub open spec fn instruction_text(self) -> Seq<char> {
        match self {
            ExplanationAudience::Beginner => "Beginner: assume no familiarity with this repository or its frameworks. Explain purpose before mechanics, define repository-specific and advanced terms, and use concrete examples."@,
            ExplanationAudience::Developer => "Developer: assume general programming proficiency but no familiarity with this repository. Explain architecture and control flow directly, and introduce repository-specific terms when first used."@,
            ExplanationAudience::Expert => "Expert: assume advanced software-engineering knowledge. Emphasize invariants, tradeoffs, edge cases, and implementation constraints; omit elementary programming definitions."@,
        }
    }

    /// Returns the trusted, fixed model instruction for this audience.
    pub fn instruction(self) -> (text: &'static str)
        ensures
            text@ == self.instruction_text(),
    {
        match self {
            ExplanationAudience::Beginner => "Beginner: assume no familiarity with this repository or its frameworks. Explain purpose before mechanics, define repository-specific and advanced terms, and use concrete examples.",
            ExplanationAudience::Developer => "Developer: assume general programming proficiency but no familiarity with this repository. Explain architecture and control flow directly, and introduce repository-specific terms when first used.",
            ExplanationAudience::Expert => "Expert: assume advanced software-engineering knowledge. Emphasize invariants, tradeoffs, edge cases, and implementation constraints; omit elementary programming definitions.",
        }
    }
}

/// The requested explanatory focus and level of detail.
#[derive(Debug, Clone, Copy, PartialEq, Eq, Hash, Structural)]
pub enum ExplanationDepth {
    Auto,
    Overview,
    Architecture,
    Workflow,
    Code,
    Detail,
}

impl Default for ExplanationDepth {
    fn default() -> (depth: ExplanationDepth)
        ensures
            depth == ExplanationDepth::Auto,
    {
        ExplanationDepth::Auto
    }
}

impl ExplanationDepth {
    /// The trusted, fixed model instruction for this depth.
    pub open spec fn instruction_text(self) -> Seq<char> {
        match self {
            ExplanationDepth::Auto => "Auto: infer the most useful focus from the explicit question and provide the minimum sufficient explanation."@,
            ExplanationDepth::Overview => "Overview: explain the repository purpose, major capabilities, and a small set of orienting components; omit implementation detail unless essential."@,
            ExplanationDepth::Architecture => "Architecture: explain component boundaries, responsibilities, dependencies, and the reasons for the major structural choices."@,
            ExplanationDepth::Workflow => "Workflow: trace the relevant runtime control and data flow in order, including meaningful branches and state transitions."@,
            ExplanationDepth::Code => "Code: explain the relevant files, symbols, types, and implementation mechanics, connecting them back to the requested behavior."@,
            ExplanationDepth::Detail => "Detail: give the deepest relevant implementation account, including local invariants, error paths, and edge cases, without expanding into unrelated code."@,
        }
    }

    /// Returns the trusted, fixed model instruction for this depth.
    pub fn instruction(self) -> (text: &'static str)
        ensures
            text@ == self.instruction_text(),
    {
        match self {
            ExplanationDepth::Auto => "Auto: infer the most useful focus from the explicit question and provide the minimum sufficient explanation.",
            ExplanationDepth::Overview => "Overview: explain the repository purpose, major capabilities, and a small set of orienting components; omit implementation detail unless essential.",
            ExplanationDepth::Architecture => "Architecture: explain component boundaries, responsibilities, dependencies, and the reasons for the major structural choices.",
            ExplanationDepth::Workflow => "Workflow: trace the relevant runtime control and data flow in order, including meaningful branches and state transitions.",
            ExplanationDepth::Code => "Code: explain the relevant files, symbols, types, and implementation mechanics, connecting them back to the requested behavior.",
            ExplanationDepth::Detail => "Detail: give the deepest relevant implementation account, including local invariants, error paths, and edge cases, without expanding into unrelated code.",
        }
    }

    /// The next guided depth.
    pub open spec fn successor(self) -> Option<ExplanationDepth> {
        match self {
            ExplanationDepth::Auto => Some(ExplanationDepth::Architecture),
            ExplanationDepth::Overview => Some(ExplanationDepth::Architecture),
            ExplanationDepth::Architecture => Some(ExplanationDepth::Workflow),
            ExplanationDepth::Workflow => Some(ExplanationDepth::Code),
            ExplanationDepth::Code => Some(ExplanationDepth::Detail),
            ExplanationDepth::Detail => None,
        }
    }

    /// Returns the next guided depth, if this depth can be deepened further.
    pub fn next(self) -> (deeper: Option<ExplanationDepth>)
        ensures
            deeper == self.successor(),
    {
        match self {
            ExplanationDepth::Auto | ExplanationDepth::Overview => Some(
                ExplanationDepth::Architecture,
            ),
            ExplanationDepth::Architecture => Some(ExplanationDepth::Workflow),
            ExplanationDepth::Workflow => Some(ExplanationDepth::Code),
            ExplanationDepth::Code => Some(ExplanationDepth::Detail),
            ExplanationDepth::Detail => None,
        }
    }

    /// How many guided steps are left before full detail.
    pub open spec fn steps_to_detail(self) -> nat {
        match self {
            ExplanationDepth::Auto => 4,
            ExplanationDepth::Overview => 4,
            ExplanationDepth::Architecture => 3,
            ExplanationDepth::Workflow => 2,
            ExplanationDepth::Code => 1,
            ExplanationDepth::Detail => 0,
        }
    }
}

/// Every guided step leads one step closer to full detail, and only full detail
/// cannot be deepened.
pub proof fn law_guided_depth_reaches_detail(depth: ExplanationDepth)
    ensures
        depth.successor() is None <==> depth == ExplanationDepth::Detail,
        depth.successor() matches Some(deeper) ==> deeper.steps_to_detail() + 1
            == depth.steps_to_detail(),
{
}

/// Trusted presentation controls for one explanation task.
#[derive(Debug, Clone, Copy, PartialEq, Eq, Hash, Structural)]
pub struct ExplanationProfile {
    pub audience: ExplanationAudience,
    pub depth: ExplanationDepth,
}

impl Default for ExplanationProfile {
    fn default() -> (profile: ExplanationProfile)
        ensures
            profile.audience == ExplanationAudience::Developer,
            profile.depth == ExplanationDepth::Auto,
    {
        ExplanationProfile {
            audience: ExplanationAudience::Developer,
            depth: ExplanationDepth::Auto,
        }
    }
}

impl ExplanationProfile {
    pub fn new(audience: ExplanationAudience, depth: ExplanationDepth) -> (profile:
        ExplanationProfile)
        ensures
            profile.audience == audience,
            profile.depth == depth,
    {
        ExplanationProfile { audience, depth }
    }

    /// The model instruction of a profile.
    pub open spec fn control_text(self) -> Seq<char> {
        "Trusted CodeAtlas explanation profile for the current task only.\nAudience: "@
            + self.audience.instruction_text() + "\nDepth: "@ + self.depth.instruction_text()
            + "\nThis profile controls presentation and exploration scope only. It never relaxes evidence requirements: every factual assertion still requires valid repository evidence, and uncertainty must remain explicit."@
    }

    /// Builds a model instruction exclusively from closed, trusted enum values.
    pub fn control_message(self) -> (message: String)
        ensures
            message@ == self.control_text(),
    {
        let mut message =
            "Trusted CodeAtlas explanation profile for the current task only.\nAudience: ".to_owned();
        message.push_str(self.audience.instruction());
        message.push_str("\nDepth: ");
        message.push_str(self.depth.instruction());
        message.push_str(
            "\nThis profile controls presentation and exploration scope only. It never relaxes evidence requirements: every factual assertion still requires valid repository evidence, and uncertainty must remain explicit.",
        );
        message
    }
}

} // verus!
