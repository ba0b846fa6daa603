//! Evidence, claims, diagrams and the rules that bind them together.
use crate::checks;
use crate::explanation::ExplanationDepth;
use crate::id::{
    AnswerId, CallEdgeId, CallPathId, ClaimId, DiagramId, EvidenceId, FileId, SymbolId,
};
use crate::ir::TargetResolution;
use crate::model::ModelUsage;
use crate::path::RepositoryPath;
use crate::source::SourceSpan;
use crate::text;
use vstd::prelude::*;

verus! {

#[derive(Debug, Clone, PartialEq, Eq)]
pub struct Evidence {
    pub id: EvidenceId,
    pub file_id: FileId,
    pub path: RepositoryPath,
    pub span: SourceSpan,
    pub symbol_id: Option<SymbolId>,
    pub excerpt: Option<String>,
}

#[derive(Debug, Clone, Copy, PartialEq, Eq, Hash, Structural)]
pub enum ClaimKind {
    Fact,
    Inference,
    Unknown,
}

#[derive(Debug, Clone, PartialEq, Eq)]
pub struct Claim {
    pub id: ClaimId,
    pub kind: ClaimKind,
    pub text: String,
    pub evidence_ids: Vec<EvidenceId>,
}

impl Claim {
    pub fn has_evidence(&self) -> (has: bool)
        ensures
            has == (self.evidence_ids@.len() > 0),
    {
        self.evidence_ids.len() > 0
    }

    /// A fact without any attached evidence.
    pub open spec fn unsupported_fact(self) -> bool {
        self.kind == ClaimKind::Fact && self.evidence_ids@.len() == 0
    }

    pub fn is_unsupported_fact(&self) -> (unsupported: bool)
        ensures
            unsupported == self.unsupported_fact(),
    {
        self.kind == ClaimKind::Fact && !self.has_evidence()
    }

    /// Checks the evidence requirement that applies to factual claims.
    pub fn validate_evidence(&self) -> (outcome: Result<(), EvidenceValidationError>)
        ensures
            outcome == (if self.unsupported_fact() {
                Err::<(), EvidenceValidationError>(
                    EvidenceValidationError::FactWithoutEvidence { claim_id: self.id },
                )
            } else {
                Ok(())
            }),
    {
        if self.is_unsupported_fact() {
            Err(EvidenceValidationError::FactWithoutEvidence { claim_id: self.id })
        } else {
            Ok(())
        }
    }
}

#[derive(Debug, Clone, Copy, PartialEq, Eq, Hash, Structural)]
pub enum DiagramKind {
    Architecture,
    Flow,
    Relationship,
}

#[derive(Debug, Clone, PartialEq, Eq)]
pub struct DiagramArtifact {
    pub id: DiagramId,
    pub path: String,
    pub media_type: String,
    pub byte_size: u64,
}

#[derive(Debug, Clone, PartialEq, Eq)]
pub enum DiagramDecision {
    NotNeeded { reason: String },
    Needed { reason: String, diagram: Diagram },
}

impl Default for DiagramDecision {
    fn default() -> (decision: DiagramDecision)
        ensures
            decision matches DiagramDecision::NotNeeded { reason } && reason@
                == "legacy session did not include a diagram decision"@,
    {
        DiagramDecision::NotNeeded {
            reason: "legacy session did not include a diagram decision".to_owned(),
        }
    }
}

#[derive(Debug, Clone, PartialEq, Eq)]
pub struct Diagram {
    pub kind: DiagramKind,
    pub title: String,
    pub nodes: Vec<DiagramNode>,
    pub edges: Vec<DiagramEdge>,
    pub artifact: Option<DiagramArtifact>,
}

#[derive(Debug, Clone, PartialEq, Eq)]
pub struct DiagramNode {
    pub id: String,
    pub label: String,
    pub claim_ids: Vec<ClaimId>,
    pub evidence_ids: Vec<EvidenceId>,
}

#[derive(Debug, Clone, PartialEq, Eq)]
pub struct DiagramEdge {
    pub source: String,
    pub target: String,
    pub label: String,
    pub claim_ids: Vec<ClaimId>,
    pub evidence_ids: Vec<EvidenceId>,
}

#[derive(Debug, Clone, PartialEq, Eq)]
pub struct CallPathStep {
    pub target: TargetResolution<SymbolId>,
    pub call_edge_id: Option<CallEdgeId>,
    pub evidence_ids: Vec<EvidenceId>,
}

#[derive(Debug, Clone, PartialEq, Eq)]
pub struct CallPath {
    pub id: CallPathId,
    pub label: Option<String>,
    pub steps: Vec<CallPathStep>,
    pub complete: bool,
}

/// A closed, non-executable follow-up capability offered by a grounded answer.
#[derive(Debug, Clone, Copy, PartialEq, Eq, Hash, Structural)]
pub enum SuggestedAction {
    DeepenClaim { claim_id: ClaimId },
    ContinueCallPath { call_path_id: CallPathId },
    ExplainEvidence { evidence_id: EvidenceId },
    ShowSource { evidence_id: EvidenceId },
    ChangeDepth { depth: ExplanationDepth },
}

impl SuggestedAction {
    /// The runtime-owned label of an action.
    pub open spec fn label_text(self) -> Seq<char> {
        match self {
            SuggestedAction::DeepenClaim { .. } => "Explain this claim in more depth"@,
            SuggestedAction::ContinueCallPath { .. } => "Continue this call path"@,
            SuggestedAction::ExplainEvidence { .. } => "Explain this evidence"@,
            SuggestedAction::ShowSource { .. } => "Show source"@,
            SuggestedAction::ChangeDepth { depth } => match depth {
                ExplanationDepth::Auto => "Use automatic depth"@,
                ExplanationDepth::Overview => "Switch to overview"@,
                ExplanationDepth::Architecture => "Explore the architecture"@,
                ExplanationDepth::Workflow => "Trace the workflow"@,
                ExplanationDepth::Code => "Explain the code"@,
                ExplanationDepth::Detail => "Go into full detail"@,
            },
        }
    }

    /// Returns a bounded runtime-owned label; models cannot supply action labels.
    pub fn label(self) -> (label: &'static str)
        ensures
            label@ == self.label_text(),
    {
        match self {
            SuggestedAction::DeepenClaim { .. } => "Explain this claim in more depth",
            SuggestedAction::ContinueCallPath { .. } => "Continue this call path",
            SuggestedAction::ExplainEvidence { .. } => "Explain this evidence",
            SuggestedAction::ShowSource { .. } => "Show source",
            SuggestedAction::ChangeDepth { depth } => match depth {
                ExplanationDepth::Auto => "Use automatic depth",
                ExplanationDepth::Overview => "Switch to overview",
                ExplanationDepth::Architecture => "Explore the architecture",
                ExplanationDepth::Workflow => "Trace the workflow",
                ExplanationDepth::Code => "Explain the code",
                ExplanationDepth::Detail => "Go into full detail",
            },
        }
    }
}

#[derive(Debug, Clone, PartialEq, Eq)]
pub struct AgentAnswer {
    pub id: AnswerId,
    pub text: String,
    pub claims: Vec<Claim>,
    pub evidence: Vec<Evidence>,
    pub call_paths: Vec<CallPath>,
    pub diagram: DiagramDecision,
    pub suggested_actions: Vec<SuggestedAction>,
    pub usage: Option<ModelUsage>,
}

/// The outcome of a validation.
pub type Outcome = Result<(), EvidenceValidationError>;

/// Whether the answer carries evidence with this ID.
pub open spec fn carries_evidence(evidence: Seq<Evidence>, id: EvidenceId) -> bool {
    exists|i: int| 0 <= i < evidence.len() && (#[trigger] evidence[i]).id == id
}

/// Whether the answer makes a claim with this ID.
pub open spec fn carries_claim(claims: Seq<Claim>, id: ClaimId) -> bool {
    exists|i: int| 0 <= i < claims.len() && (#[trigger] claims[i]).id == id
}

/// Whether the answer holds a call path with this ID.
pub open spec fn carries_path(paths: Seq<CallPath>, id: CallPathId) -> bool {
    exists|i: int| 0 <= i < paths.len() && (#[trigger] paths[i]).id == id
}

/// The evidence record at `k` repeats no earlier ID.
pub open spec fn evidence_check(evidence: Seq<Evidence>, k: int) -> Outcome {
    if carries_evidence(evidence.take(k), evidence[k].id) {
        Err(EvidenceValidationError::DuplicateEvidence { evidence_id: evidence[k].id })
    } else {
        Ok(())
    }
}

pub open spec fn evidence_checks(evidence: Seq<Evidence>) -> spec_fn(int) -> Outcome {
    |k: int| evidence_check(evidence, k)
}

/// The evidence ID at `k` of a claim is carried by the answer.
pub open spec fn claim_reference_check(claim: Claim, evidence: Seq<Evidence>, k: int) -> Outcome {
    if carries_evidence(evidence, claim.evidence_ids@[k]) {
        Ok(())
    } else {
        Err(
            EvidenceValidationError::UnknownClaimEvidence {
                claim_id: claim.id,
                evidence_id: claim.evidence_ids@[k],
            },
        )
    }
}

pub open spec fn claim_reference_checks(claim: Claim, evidence: Seq<Evidence>) -> spec_fn(
    int,
) -> Outcome {
    |k: int| claim_reference_check(claim, evidence, k)
}

/// The claim at `k` is supported where it must be, refers to carried evidence
/// only, and repeats no earlier ID.
pub open spec fn claim_check(claims: Seq<Claim>, evidence: Seq<Evidence>, k: int) -> Outcome {
    let claim = claims[k];
    let references = checks::first_error(
        claim.evidence_ids@.len(),
        claim_reference_checks(claim, evidence),
    );
    if claim.unsupported_fact() {
        Err(EvidenceValidationError::FactWithoutEvidence { claim_id: claim.id })
    } else if references is Err {
        references
    } else if carries_claim(claims.take(k), claim.id) {
        Err(EvidenceValidationError::DuplicateClaim { claim_id: claim.id })
    } else {
        Ok(())
    }
}

pub open spec fn claim_checks(claims: Seq<Claim>, evidence: Seq<Evidence>) -> spec_fn(
    int,
) -> Outcome {
    |k: int| claim_check(claims, evidence, k)
}

/// The evidence ID at `k` of a call path step is carried by the answer.
pub open spec fn step_reference_check(
    path_id: CallPathId,
    step: CallPathStep,
    evidence: Seq<Evidence>,
    k: int,
) -> Outcome {
    if carries_evidence(evidence, step.evidence_ids@[k]) {
        Ok(())
    } else {
        Err(
            EvidenceValidationError::UnknownCallPathEvidence {
                call_path_id: path_id,
                evidence_id: step.evidence_ids@[k],
            },
        )
    }
}

pub open spec fn step_reference_checks(
    path_id: CallPathId,
    step: CallPathStep,
    evidence: Seq<Evidence>,
) -> spec_fn(int) -> Outcome {
    |k: int| step_reference_check(path_id, step, evidence, k)
}

pub open spec fn step_check(path: CallPath, evidence: Seq<Evidence>, k: int) -> Outcome {
    checks::first_error(
        path.steps@[k].evidence_ids@.len(),
        step_reference_checks(path.id, path.steps@[k], evidence),
    )
}

pub open spec fn step_checks(path: CallPath, evidence: Seq<Evidence>) -> spec_fn(int) -> Outcome {
    |k: int| step_check(path, evidence, k)
}

/// The call path at `k` repeats no earlier ID, and its steps refer to carried
/// evidence only.
pub open spec fn path_check(paths: Seq<CallPath>, evidence: Seq<Evidence>, k: int) -> Outcome {
    if carries_path(paths.take(k), paths[k].id) {
        Err(EvidenceValidationError::DuplicateCallPath { call_path_id: paths[k].id })
    } else {
        checks::first_error(paths[k].steps@.len(), step_checks(paths[k], evidence))
    }
}

pub open spec fn path_checks(paths: Seq<CallPath>, evidence: Seq<Evidence>) -> spec_fn(
    int,
) -> Outcome {
    |k: int| path_check(paths, evidence, k)
}

/// The least index of an element that equals the one at `k`.
pub open spec fn earlier_equal<T>(values: Seq<T>, k: int) -> Option<int> {
    checks::least_index(k as nat, |j: int| values[j] == values[k])
}

/// The first repetition in a sequence: the index of the first element that
/// repeats an earlier one, behind the index that it repeats.
pub open spec fn repetition<T>(values: Seq<T>) -> Option<(int, int)> {
    match checks::least_index(values.len(), |k: int| earlier_equal(values, k) is Some) {
        Some(k) => Some((earlier_equal(values, k)->0, k)),
        None => None,
    }
}

/// The claim at `k` of a diagram element is known and a fact.
pub open spec fn linked_claim_check(claim_ids: Seq<ClaimId>, claims: Seq<Claim>, k: int) -> Result<
    (),
    DiagramBindingError,
> {
    match claim_with_id(claims, claim_ids[k]) {
        None => Err(DiagramBindingError::UnknownClaim { claim_index: k as usize }),
        Some(index) => if claims[index].kind != ClaimKind::Fact {
            Err(DiagramBindingError::NonFactClaim { claim_index: k as usize })
        } else {
            Ok(())
        },
    }
}

pub open spec fn linked_claim_checks(claim_ids: Seq<ClaimId>, claims: Seq<Claim>) -> spec_fn(
    int,
) -> Result<(), DiagramBindingError> {
    |k: int| linked_claim_check(claim_ids, claims, k)
}

/// The index of the claim with an ID.
pub open spec fn claim_with_id(claims: Seq<Claim>, id: ClaimId) -> Option<int> {
    checks::least_index(claims.len(), has_claim_id(claims, id))
}

pub open spec fn has_claim_id(claims: Seq<Claim>, id: ClaimId) -> spec_fn(int) -> bool {
    |i: int| claims[i].id == id
}

/// Whether the claim with an ID lists a piece of evidence.
pub open spec fn claim_lists(claims: Seq<Claim>, id: ClaimId, evidence_id: EvidenceId) -> bool {
    claim_with_id(claims, id) matches Some(index) && claims[index].evidence_ids@.contains(
        evidence_id,
    )
}

/// The evidence at `k` of a diagram element is carried by the answer and listed
/// by one of the element's claims.
pub open spec fn linked_evidence_check(
    claim_ids: Seq<ClaimId>,
    evidence_ids: Seq<EvidenceId>,
    claims: Seq<Claim>,
    evidence: Seq<Evidence>,
    k: int,
) -> Result<(), DiagramBindingError> {
    if !carries_evidence(evidence, evidence_ids[k]) {
        Err(DiagramBindingError::UnknownEvidence { evidence_index: k as usize })
    } else if !(exists|c: int|
        0 <= c < claim_ids.len() && claim_lists(claims, #[trigger] claim_ids[c], evidence_ids[k])) {
        Err(DiagramBindingError::EvidenceNotLinkedToAnyClaim { evidence_index: k as usize })
    } else {
        Ok(())
    }
}

pub open spec fn linked_evidence_checks(
    claim_ids: Seq<ClaimId>,
    evidence_ids: Seq<EvidenceId>,
    claims: Seq<Claim>,
    evidence: Seq<Evidence>,
) -> spec_fn(int) -> Result<(), DiagramBindingError> {
    |k: int| linked_evidence_check(claim_ids, evidence_ids, claims, evidence, k)
}

/// The claim at `k` of a diagram element lists some of the element's evidence.
pub open spec fn covered_claim_check(
    claim_ids: Seq<ClaimId>,
    evidence_ids: Seq<EvidenceId>,
    claims: Seq<Claim>,
    k: int,
) -> Result<(), DiagramBindingError> {
    if exists|e: int|
        0 <= e < evidence_ids.len() && claim_lists(claims, claim_ids[k], #[trigger] evidence_ids[e]) {
        Ok(())
    } else {
        Err(DiagramBindingError::ClaimWithoutLinkedEvidence { claim_index: k as usize })
    }
}

pub open spec fn covered_claim_checks(
    claim_ids: Seq<ClaimId>,
    evidence_ids: Seq<EvidenceId>,
    claims: Seq<Claim>,
) -> spec_fn(int) -> Result<(), DiagramBindingError> {
    |k: int| covered_claim_check(claim_ids, evidence_ids, claims, k)
}

/// The outcome of binding a diagram element to claims and evidence.
pub open spec fn binding_outcome(
    claim_ids: Seq<ClaimId>,
    evidence_ids: Seq<EvidenceId>,
    claims: Seq<Claim>,
    evidence: Seq<Evidence>,
) -> Result<(), DiagramBindingError> {
    let known = checks::first_error(claim_ids.len(), linked_claim_checks(claim_ids, claims));
    let linked = checks::first_error(
        evidence_ids.len(),
        linked_evidence_checks(claim_ids, evidence_ids, claims, evidence),
    );
    if claim_ids.len() == 0 {
        Err(DiagramBindingError::WithoutClaims)
    } else if evidence_ids.len() == 0 {
        Err(DiagramBindingError::WithoutEvidence)
    } else if repetition(claim_ids) is Some {
        Err(
            DiagramBindingError::DuplicateClaim {
                first_index: (repetition(claim_ids)->0).0 as usize,
                duplicate_index: (repetition(claim_ids)->0).1 as usize,
            },
        )
    } else if repetition(evidence_ids) is Some {
        Err(
            DiagramBindingError::DuplicateEvidence {
                first_index: (repetition(evidence_ids)->0).0 as usize,
                duplicate_index: (repetition(evidence_ids)->0).1 as usize,
            },
        )
    } else if known is Err {
        known
    } else if linked is Err {
        linked
    } else {
        checks::first_error(
            claim_ids.len(),
            covered_claim_checks(claim_ids, evidence_ids, claims),
        )
    }
}

/// The IDs of the nodes of a diagram.
pub open spec fn node_ids(nodes: Seq<DiagramNode>) -> Seq<Seq<char>> {
    nodes.map_values(|node: DiagramNode| node.id@)
}

/// The node at `k` has an ID of its own and a label.
pub open spec fn node_check(nodes: Seq<DiagramNode>, k: int) -> Outcome {
    if text::all_blank(nodes[k].id@) {
        Err(EvidenceValidationError::EmptyDiagramNodeId { node_index: k as usize })
    } else if text::all_blank(nodes[k].label@) {
        Err(EvidenceValidationError::EmptyDiagramNodeLabel { node_index: k as usize })
    } else {
        match earlier_equal(node_ids(nodes), k) {
            Some(first) => Err(
                EvidenceValidationError::DuplicateDiagramNodeId {
                    first_node_index: first as usize,
                    duplicate_node_index: k as usize,
                },
            ),
            None => Ok(()),
        }
    }
}

pub open spec fn node_checks(nodes: Seq<DiagramNode>) -> spec_fn(int) -> Outcome {
    |k: int| node_check(nodes, k)
}

/// The edge at `k` joins nodes of the diagram.
pub open spec fn edge_check(nodes: Seq<DiagramNode>, edges: Seq<DiagramEdge>, k: int) -> Outcome {
    if !node_ids(nodes).contains(edges[k].source@) {
        Err(EvidenceValidationError::UnknownDiagramEdgeSource { edge_index: k as usize })
    } else if !node_ids(nodes).contains(edges[k].target@) {
        Err(EvidenceValidationError::UnknownDiagramEdgeTarget { edge_index: k as usize })
    } else {
        Ok(())
    }
}

pub open spec fn edge_checks(nodes: Seq<DiagramNode>, edges: Seq<DiagramEdge>) -> spec_fn(
    int,
) -> Outcome {
    |k: int| edge_check(nodes, edges, k)
}

pub open spec fn node_binding_check(
    nodes: Seq<DiagramNode>,
    claims: Seq<Claim>,
    evidence: Seq<Evidence>,
    k: int,
) -> Outcome {
    match binding_outcome(nodes[k].claim_ids@, nodes[k].evidence_ids@, claims, evidence) {
        Ok(()) => Ok(()),
        Err(error) => Err(error.at_node(k as usize)),
    }
}

pub open spec fn node_binding_checks(
    nodes: Seq<DiagramNode>,
    claims: Seq<Claim>,
    evidence: Seq<Evidence>,
) -> spec_fn(int) -> Outcome {
    |k: int| node_binding_check(nodes, claims, evidence, k)
}

pub open spec fn edge_binding_check(
    edges: Seq<DiagramEdge>,
    claims: Seq<Claim>,
    evidence: Seq<Evidence>,
    k: int,
) -> Outcome {
    match binding_outcome(edges[k].claim_ids@, edges[k].evidence_ids@, claims, evidence) {
        Ok(()) => Ok(()),
        Err(error) => Err(error.at_edge(k as usize)),
    }
}

pub open spec fn edge_binding_checks(
    edges: Seq<DiagramEdge>,
    claims: Seq<Claim>,
    evidence: Seq<Evidence>,
) -> spec_fn(int) -> Outcome {
    |k: int| edge_binding_check(edges, claims, evidence, k)
}

/// The outcome of validating a diagram against the claims and the evidence of
/// its answer.
pub open spec fn diagram_outcome(
    diagram: Diagram,
    claims: Seq<Claim>,
    evidence: Seq<Evidence>,
) -> Outcome {
    let nodes = diagram.nodes@;
    let edges = diagram.edges@;
    let named = checks::first_error(nodes.len(), node_checks(nodes));
    let joined = checks::first_error(edges.len(), edge_checks(nodes, edges));
    let bound = checks::first_error(nodes.len(), node_binding_checks(nodes, claims, evidence));
    if text::all_blank(diagram.title@) {
        Err(EvidenceValidationError::EmptyDiagramTitle)
    } else if !(2 <= nodes.len() <= 32) {
        Err(
            EvidenceValidationError::InvalidDiagramNodeCount { node_count: nodes.len() as usize },
        )
    } else if !(1 <= edges.len() <= 64) {
        Err(
            EvidenceValidationError::InvalidDiagramEdgeCount { edge_count: edges.len() as usize },
        )
    } else if named is Err {
        named
    } else if joined is Err {
        joined
    } else if bound is Err {
        bound
    } else {
        checks::first_error(edges.len(), edge_binding_checks(edges, claims, evidence))
    }
}

/// The outcome of validating a diagram decision: it needs a reason, and a
/// diagram, where there is one, must be valid.
pub open spec fn decision_outcome(
    decision: DiagramDecision,
    claims: Seq<Claim>,
    evidence: Seq<Evidence>,
) -> Outcome {
    match decision {
        DiagramDecision::NotNeeded { reason } => if text::all_blank(reason@) {
            Err(EvidenceValidationError::EmptyDiagramDecisionReason)
        } else {
            Ok(())
        },
        DiagramDecision::Needed { reason, diagram } => if text::all_blank(reason@) {
            Err(EvidenceValidationError::EmptyDiagramDecisionReason)
        } else {
            diagram_outcome(diagram, claims, evidence)
        },
    }
}

/// The suggested action at `k` repeats no earlier one and refers to what the
/// answer carries.
pub open spec fn action_check(answer: AgentAnswer, k: int) -> Outcome {
    let action = answer.suggested_actions@[k];
    if answer.suggested_actions@.take(k).contains(action) {
        Err(EvidenceValidationError::DuplicateSuggestedAction)
    } else {
        match action {
            SuggestedAction::DeepenClaim { claim_id } => if carries_claim(
                answer.claims@,
                claim_id,
            ) {
                Ok(())
            } else {
                Err(EvidenceValidationError::UnknownSuggestedClaim { claim_id })
            },
            SuggestedAction::ContinueCallPath { call_path_id } => if carries_path(
                answer.call_paths@,
                call_path_id,
            ) {
                Ok(())
            } else {
                Err(EvidenceValidationError::UnknownSuggestedCallPath { call_path_id })
            },
            SuggestedAction::ExplainEvidence { evidence_id } => if carries_evidence(
                answer.evidence@,
                evidence_id,
            ) {
                Ok(())
            } else {
                Err(EvidenceValidationError::UnknownSuggestedEvidence { evidence_id })
            },
            SuggestedAction::ShowSource { evidence_id } => if carries_evidence(
                answer.evidence@,
                evidence_id,
            ) {
                Ok(())
            } else {
                Err(EvidenceValidationError::UnknownSuggestedEvidence { evidence_id })
            },
            SuggestedAction::ChangeDepth { .. } => Ok(()),
        }
    }
}

pub open spec fn action_checks(answer: AgentAnswer) -> spec_fn(int) -> Outcome {
    |k: int| action_check(answer, k)
}

pub open spec fn actions_outcome(answer: AgentAnswer) -> Outcome {
    if answer.suggested_actions@.len() > 4 {
        Err(
            EvidenceValidationError::TooManySuggestedActions {
                actual: answer.suggested_actions@.len() as usize,
            },
        )
    } else {
        checks::first_error(answer.suggested_actions@.len(), action_checks(answer))
    }
}

/// The outcome of validating an answer: the evidence, the claims, the call
/// paths, the diagram and the suggested actions, in this order.
pub open spec fn answer_outcome(answer: AgentAnswer) -> Outcome {
    let evidence = answer.evidence@;
    let claims = answer.claims@;
    let paths = answer.call_paths@;
    let distinct = checks::first_error(evidence.len(), evidence_checks(evidence));
    let supported = checks::first_error(claims.len(), claim_checks(claims, evidence));
    let traced = checks::first_error(paths.len(), path_checks(paths, evidence));
    let drawn = decision_outcome(answer.diagram, claims, evidence);
    if distinct is Err {
        distinct
    } else if supported is Err {
        supported
    } else if traced is Err {
        traced
    } else if drawn is Err {
        drawn
    } else {
        actions_outcome(answer)
    }
}

impl AgentAnswer {
    /// Validates factual support and all evidence references in this answer.
    pub fn validate_evidence(&self) -> (outcome: Result<(), EvidenceValidationError>)
        ensures
            outcome == answer_outcome(*self),
    {
        let distinct = validate_distinct_evidence(&self.evidence);
        if distinct.is_err() {
            return distinct;
        }
        let supported = validate_claims(&self.claims, &self.evidence);
        if supported.is_err() {
            return supported;
        }
        let traced = validate_paths(&self.call_paths, &self.evidence);
        if traced.is_err() {
            return traced;
        }
        let drawn = validate_diagram_decision(&self.diagram, &self.claims, &self.evidence);
        if drawn.is_err() {
            return drawn;
        }
        self.validate_suggested_actions()
    }

    fn validate_suggested_actions(&self) -> (outcome: Result<(), EvidenceValidationError>)
        ensures
            outcome == actions_outcome(*self),
    {
        let actions = &self.suggested_actions;
        if actions.len() > 4 {
            return Err(
                EvidenceValidationError::TooManySuggestedActions { actual: actions.len() },
            );
        }
        let mut index: usize = 0;
        while index < actions.len()
            invariant
                index <= actions@.len() <= 4,
                actions@ == self.suggested_actions@,
                checks::first_error(index as nat, action_checks(*self)) is Ok,
            decreases actions@.len() - index,
        {
            let action = actions[index];
            let repeated = action_repeats(actions.as_slice(), index);
            let checked = if repeated {
                Err(EvidenceValidationError::DuplicateSuggestedAction)
            } else {
                match action {
                    SuggestedAction::DeepenClaim { claim_id } => if knows_claim(
                        &self.claims,
                        self.claims.len(),
                        claim_id,
                    ) {
                        Ok(())
                    } else {
                        Err(EvidenceValidationError::UnknownSuggestedClaim { claim_id })
                    },
                    SuggestedAction::ContinueCallPath { call_path_id } => if knows_path(
                        &self.call_paths,
                        self.call_paths.len(),
                        call_path_id,
                    ) {
                        Ok(())
                    } else {
                        Err(EvidenceValidationError::UnknownSuggestedCallPath { call_path_id })
                    },
                    SuggestedAction::ExplainEvidence { evidence_id }
                    | SuggestedAction::ShowSource { evidence_id } => if knows_evidence(
                        &self.evidence,
                        self.evidence.len(),
                        evidence_id,
                    ) {
                        Ok(())
                    } else {
                        Err(EvidenceValidationError::UnknownSuggestedEvidence { evidence_id })
                    },
                    SuggestedAction::ChangeDepth { .. } => Ok(()),
                }
            };
            assert(checked == action_checks(*self)(index as int)) by {
                assert(self.claims@.take(self.claims@.len() as int) =~= self.claims@);
                assert(self.call_paths@.take(self.call_paths@.len() as int) =~= self.call_paths@);
                assert(self.evidence@.take(self.evidence@.len() as int) =~= self.evidence@);
            }
            index = index + 1;
            if checked.is_err() {
                proof {
                    checks::lemma_first_error_stays(
                        index as nat,
                        actions@.len(),
                        action_checks(*self),
                    );
                }
                return checked;
            }
        }
        Ok(())
    }
}

/// Tests whether the action at `index` repeats an earlier one.
fn action_repeats(actions: &[SuggestedAction], index: usize) -> (repeats: bool)
    requires
        index < actions@.len(),
    ensures
        repeats == actions@.take(index as int).contains(actions@[index as int]),
{
    let mut earlier: usize = 0;
    while earlier < index
        invariant
            earlier <= index < actions@.len(),
            forall|i: int| 0 <= i < earlier ==> #[trigger] actions@[i] != actions@[index as int],
        decreases index - earlier,
    {
        if actions[earlier] == actions[index] {
            assert(actions@.take(index as int)[earlier as int] == actions@[index as int]);
            return true;
        }
        earlier = earlier + 1;
    }
    assert forall|i: int| 0 <= i < index implies #[trigger] actions@.take(index as int)[i]
        != actions@[index as int] by {
        assert(actions@.take(index as int)[i] == actions@[i]);
    }
    false
}

/// Tests whether one of the first `count` evidence records has an ID.
fn knows_evidence(evidence: &Vec<Evidence>, count: usize, id: EvidenceId) -> (known: bool)
    requires
        count <= evidence@.len(),
    ensures
        known == carries_evidence(evidence@.take(count as int), id),
{
    let mut index: usize = 0;
    while index < count
        invariant
            index <= count <= evidence@.len(),
            forall|i: int| 0 <= i < index ==> (#[trigger] evidence@[i]).id != id,
        decreases count - index,
    {
        if evidence[index].id == id {
            assert(evidence@.take(count as int)[index as int].id == id);
            return true;
        }
        index = index + 1;
    }
    assert forall|i: int| 0 <= i < count implies (#[trigger] evidence@.take(count as int)[i]).id
        != id by {
        assert(evidence@.take(count as int)[i] == evidence@[i]);
    }
    false
}

/// Tests whether one of the first `count` claims has an ID.
fn knows_claim(claims: &Vec<Claim>, count: usize, id: ClaimId) -> (known: bool)
    requires
        count <= claims@.len(),
    ensures
        known == carries_claim(claims@.take(count as int), id),
{
    let mut index: usize = 0;
    while index < count
        invariant
            index <= count <= claims@.len(),
            forall|i: int| 0 <= i < index ==> (#[trigger] claims@[i]).id != id,
        decreases count - index,
    {
        if claims[index].id == id {
            assert(claims@.take(count as int)[index as int].id == id);
            return true;
        }
        index = index + 1;
    }
    assert forall|i: int| 0 <= i < count implies (#[trigger] claims@.take(count as int)[i]).id
        != id by {
        assert(claims@.take(count as int)[i] == claims@[i]);
    }
    false
}

/// Tests whether one of the first `count` call paths has an ID.
fn knows_path(paths: &Vec<CallPath>, count: usize, id: CallPathId) -> (known: bool)
    requires
        count <= paths@.len(),
    ensures
        known == carries_path(paths@.take(count as int), id),
{
    let mut index: usize = 0;
    while index < count
        invariant
            index <= count <= paths@.len(),
            forall|i: int| 0 <= i < index ==> (#[trigger] paths@[i]).id != id,
        decreases count - index,
    {
        if paths[index].id == id {
            assert(paths@.take(count as int)[index as int].id == id);
            return true;
        }
        index = index + 1;
    }
    assert forall|i: int| 0 <= i < count implies (#[trigger] paths@.take(count as int)[i]).id
        != id by {
        assert(paths@.take(count as int)[i] == paths@[i]);
    }
    false
}

fn validate_distinct_evidence(evidence: &Vec<Evidence>) -> (outcome: Outcome)
    ensures
        outcome == checks::first_error(evidence@.len(), evidence_checks(evidence@)),
{
    let mut index: usize = 0;
    while index < evidence.len()
        invariant
            index <= evidence@.len(),
            checks::first_error(index as nat, evidence_checks(evidence@)) is Ok,
        decreases evidence@.len() - index,
    {
        let id = evidence[index].id;
        let repeated = knows_evidence(evidence, index, id);
        index = index + 1;
        if repeated {
            let outcome: Outcome = Err(
                EvidenceValidationError::DuplicateEvidence { evidence_id: id },
            );
            assert(outcome == evidence_checks(evidence@)(index - 1));
            proof {
                checks::lemma_first_error_stays(
                    index as nat,
                    evidence@.len(),
                    evidence_checks(evidence@),
                );
            }
            return outcome;
        }
        assert(evidence_checks(evidence@)(index - 1) is Ok);
    }
    Ok(())
}

fn validate_claims(claims: &Vec<Claim>, evidence: &Vec<Evidence>) -> (outcome: Outcome)
    ensures
        outcome == checks::first_error(claims@.len(), claim_checks(claims@, evidence@)),
{
    let mut index: usize = 0;
    while index < claims.len()
        invariant
            index <= claims@.len(),
            checks::first_error(index as nat, claim_checks(claims@, evidence@)) is Ok,
        decreases claims@.len() - index,
    {
        let claim = &claims[index];
        let supported = claim.validate_evidence();
        let referring = validate_references(claim, evidence);
        let checked = if supported.is_err() {
            supported
        } else if referring.is_err() {
            referring
        } else if knows_claim(claims, index, claim.id) {
            Err(EvidenceValidationError::DuplicateClaim { claim_id: claim.id })
        } else {
            Ok(())
        };
        assert(checked == claim_checks(claims@, evidence@)(index as int));
        index = index + 1;
        if checked.is_err() {
            proof {
                checks::lemma_first_error_stays(
                    index as nat,
                    claims@.len(),
                    claim_checks(claims@, evidence@),
                );
            }
            return checked;
        }
    }
    Ok(())
}

fn validate_references(claim: &Claim, evidence: &Vec<Evidence>) -> (outcome: Outcome)
    ensures
        outcome == checks::first_error(
            claim.evidence_ids@.len(),
            claim_reference_checks(*claim, evidence@),
        ),
{
    let mut index: usize = 0;
    assert(evidence@.take(evidence@.len() as int) =~= evidence@);
    while index < claim.evidence_ids.len()
        invariant
            index <= claim.evidence_ids@.len(),
            evidence@.take(evidence@.len() as int) == evidence@,
            checks::first_error(index as nat, claim_reference_checks(*claim, evidence@)) is Ok,
        decreases claim.evidence_ids@.len() - index,
    {
        let evidence_id = claim.evidence_ids[index];
        let known = knows_evidence(evidence, evidence.len(), evidence_id);
        index = index + 1;
        if !known {
            let outcome: Outcome = Err(
                EvidenceValidationError::UnknownClaimEvidence { claim_id: claim.id, evidence_id },
            );
            assert(outcome == claim_reference_checks(*claim, evidence@)(index - 1));
            proof {
                checks::lemma_first_error_stays(
                    index as nat,
                    claim.evidence_ids@.len(),
                    claim_reference_checks(*claim, evidence@),
                );
            }
            return outcome;
        }
        assert(claim_reference_checks(*claim, evidence@)(index - 1) is Ok);
    }
    Ok(())
}

fn validate_paths(paths: &Vec<CallPath>, evidence: &Vec<Evidence>) -> (outcome: Outcome)
    ensures
        outcome == checks::first_error(paths@.len(), path_checks(paths@, evidence@)),
{
    let mut index: usize = 0;
    while index < paths.len()
        invariant
            index <= paths@.len(),
            checks::first_error(index as nat, path_checks(paths@, evidence@)) is Ok,
        decreases paths@.len() - index,
    {
        let path = &paths[index];
        let checked = if knows_path(paths, index, path.id) {
            Err(EvidenceValidationError::DuplicateCallPath { call_path_id: path.id })
        } else {
            validate_steps(path, evidence)
        };
        assert(checked == path_checks(paths@, evidence@)(index as int));
        index = index + 1;
        if checked.is_err() {
            proof {
                checks::lemma_first_error_stays(
                    index as nat,
                    paths@.len(),
                    path_checks(paths@, evidence@),
                );
            }
            return checked;
        }
    }
    Ok(())
}

fn validate_steps(path: &CallPath, evidence: &Vec<Evidence>) -> (outcome: Outcome)
    ensures
        outcome == checks::first_error(path.steps@.len(), step_checks(*path, evidence@)),
{
    let mut index: usize = 0;
    while index < path.steps.len()
        invariant
            index <= path.steps@.len(),
            checks::first_error(index as nat, step_checks(*path, evidence@)) is Ok,
        decreases path.steps@.len() - index,
    {
        let checked = validate_step(path.id, &path.steps[index], evidence);
        assert(checked == step_checks(*path, evidence@)(index as int));
        index = index + 1;
        if checked.is_err() {
            proof {
                checks::lemma_first_error_stays(
                    index as nat,
                    path.steps@.len(),
                    step_checks(*path, evidence@),
                );
            }
            return checked;
        }
    }
    Ok(())
}

fn validate_step(path_id: CallPathId, step: &CallPathStep, evidence: &Vec<Evidence>) -> (outcome:
    Outcome)
    ensures
        outcome == checks::first_error(
            step.evidence_ids@.len(),
            step_reference_checks(path_id, *step, evidence@),
        ),
{
    let mut index: usize = 0;
    assert(evidence@.take(evidence@.len() as int) =~= evidence@);
    while index < step.evidence_ids.len()
        invariant
            index <= step.evidence_ids@.len(),
            evidence@.take(evidence@.len() as int) == evidence@,
            checks::first_error(
                index as nat,
                step_reference_checks(path_id, *step, evidence@),
            ) is Ok,
        decreases step.evidence_ids@.len() - index,
    {
        let evidence_id = step.evidence_ids[index];
        let known = knows_evidence(evidence, evidence.len(), evidence_id);
        index = index + 1;
        if !known {
            let outcome: Outcome = Err(
                EvidenceValidationError::UnknownCallPathEvidence {
                    call_path_id: path_id,
                    evidence_id,
                },
            );
            assert(outcome == step_reference_checks(path_id, *step, evidence@)(index - 1));
            proof {
                checks::lemma_first_error_stays(
                    index as nat,
                    step.evidence_ids@.len(),
                    step_reference_checks(path_id, *step, evidence@),
                );
            }
            return outcome;
        }
        assert(step_reference_checks(path_id, *step, evidence@)(index - 1) is Ok);
    }
    Ok(())
}

fn validate_diagram_decision(
    decision: &DiagramDecision,
    claims: &Vec<Claim>,
    evidence: &Vec<Evidence>,
) -> (outcome: Outcome)
    ensures
        outcome == decision_outcome(*decision, claims@, evidence@),
{
    match decision {
        DiagramDecision::NotNeeded { reason } => validate_diagram_reason(reason.as_str()),
        DiagramDecision::Needed { reason, diagram } => {
            let reasoned = validate_diagram_reason(reason.as_str());
            if reasoned.is_err() {
                return reasoned;
            }
            validate_diagram(diagram, claims, evidence)
        },
    }
}

fn validate_diagram_reason(reason: &str) -> (outcome: Outcome)
    ensures
        outcome == (if text::all_blank(reason@) {
            Err::<(), EvidenceValidationError>(EvidenceValidationError::EmptyDiagramDecisionReason)
        } else {
            Ok(())
        }),
{
    if text::is_blank_text(reason) {
        Err(EvidenceValidationError::EmptyDiagramDecisionReason)
    } else {
        Ok(())
    }
}

fn validate_diagram(diagram: &Diagram, claims: &Vec<Claim>, evidence: &Vec<Evidence>) -> (outcome:
    Outcome)
    ensures
        outcome == diagram_outcome(*diagram, claims@, evidence@),
{
    if text::is_blank_text(diagram.title.as_str()) {
        return Err(EvidenceValidationError::EmptyDiagramTitle);
    }
    if !(2 <= diagram.nodes.len() && diagram.nodes.len() <= 32) {
        return Err(
            EvidenceValidationError::InvalidDiagramNodeCount { node_count: diagram.nodes.len() },
        );
    }
    if !(1 <= diagram.edges.len() && diagram.edges.len() <= 64) {
        return Err(
            EvidenceValidationError::InvalidDiagramEdgeCount { edge_count: diagram.edges.len() },
        );
    }
    let named = validate_nodes(&diagram.nodes);
    if named.is_err() {
        return named;
    }
    let joined = validate_edges(&diagram.nodes, &diagram.edges);
    if joined.is_err() {
        return joined;
    }
    let bound = validate_node_bindings(&diagram.nodes, claims, evidence);
    if bound.is_err() {
        return bound;
    }
    validate_edge_bindings(&diagram.edges, claims, evidence)
}

/// The index of the first of the first `count` nodes that has an ID.
fn find_node(nodes: &Vec<DiagramNode>, count: usize, id: &str) -> (found: Option<usize>)
    requires
        count <= nodes@.len(),
    ensures
        match found {
            Some(index) => {
                &&& index < count
                &&& nodes@[index as int].id@ == id@
                &&& forall|i: int| 0 <= i < index ==> (#[trigger] nodes@[i]).id@ != id@
            },
            None => forall|i: int| 0 <= i < count ==> (#[trigger] nodes@[i]).id@ != id@,
        },
{
    let mut index: usize = 0;
    while index < count
        invariant
            index <= count <= nodes@.len(),
            forall|i: int| 0 <= i < index ==> (#[trigger] nodes@[i]).id@ != id@,
        decreases count - index,
    {
        if text::same_text(nodes[index].id.as_str(), id) {
            return Some(index);
        }
        index = index + 1;
    }
    None
}

fn validate_nodes(nodes: &Vec<DiagramNode>) -> (outcome: Outcome)
    ensures
        outcome == checks::first_error(nodes@.len(), node_checks(nodes@)),
{
    let mut index: usize = 0;
    while index < nodes.len()
        invariant
            index <= nodes@.len(),
            checks::first_error(index as nat, node_checks(nodes@)) is Ok,
        decreases nodes@.len() - index,
    {
        let node = &nodes[index];
        let ghost same = |j: int| node_ids(nodes@)[j] == node_ids(nodes@)[index as int];
        let checked = if text::is_blank_text(node.id.as_str()) {
            Err(EvidenceValidationError::EmptyDiagramNodeId { node_index: index })
        } else if text::is_blank_text(node.label.as_str()) {
            Err(EvidenceValidationError::EmptyDiagramNodeLabel { node_index: index })
        } else {
            match find_node(nodes, index, node.id.as_str()) {
                Some(first) => {
                    proof {
                        assert forall|i: int| 0 <= i < first implies !(#[trigger] same(i)) by {
                            assert(nodes@[i].id@ != node.id@);
                        }
                        checks::lemma_least_index_is(index as nat, same, first as int);
                    }
                    Err(
                        EvidenceValidationError::DuplicateDiagramNodeId {
                            first_node_index: first,
                            duplicate_node_index: index,
                        },
                    )
                },
                None => {
                    proof {
                        checks::lemma_least_index(index as nat, same);
                        assert forall|i: int| 0 <= i < index implies !(#[trigger] same(i)) by {
                            assert(nodes@[i].id@ != node.id@);
                        }
                    }
                    Ok(())
                },
            }
        };
        assert(checked == node_checks(nodes@)(index as int));
        index = index + 1;
        if checked.is_err() {
            proof {
                checks::lemma_first_error_stays(index as nat, nodes@.len(), node_checks(nodes@));
            }
            return checked;
        }
    }
    Ok(())
}

/// Tests whether a diagram has a node with an ID.
fn knows_node(nodes: &Vec<DiagramNode>, id: &str) -> (known: bool)
    ensures
        known == node_ids(nodes@).contains(id@),
{
    match find_node(nodes, nodes.len(), id) {
        Some(index) => {
            assert(node_ids(nodes@)[index as int] == id@);
            true
        },
        None => {
            assert forall|i: int| 0 <= i < nodes@.len() implies #[trigger] node_ids(nodes@)[i]
                != id@ by {
                assert(nodes@[i].id@ != id@);
            }
            false
        },
    }
}

fn validate_edges(nodes: &Vec<DiagramNode>, edges: &Vec<DiagramEdge>) -> (outcome: Outcome)
    ensures
        outcome == checks::first_error(edges@.len(), edge_checks(nodes@, edges@)),
{
    let mut index: usize = 0;
    while index < edges.len()
        invariant
            index <= edges@.len(),
            checks::first_error(index as nat, edge_checks(nodes@, edges@)) is Ok,
        decreases edges@.len() - index,
    {
        let edge = &edges[index];
        let checked = if !knows_node(nodes, edge.source.as_str()) {
            Err(EvidenceValidationError::UnknownDiagramEdgeSource { edge_index: index })
        } else if !knows_node(nodes, edge.target.as_str()) {
            Err(EvidenceValidationError::UnknownDiagramEdgeTarget { edge_index: index })
        } else {
            Ok(())
        };
        assert(checked == edge_checks(nodes@, edges@)(index as int));
        index = index + 1;
        if checked.is_err() {
            proof {
                checks::lemma_first_error_stays(
                    index as nat,
                    edges@.len(),
                    edge_checks(nodes@, edges@),
                );
            }
            return checked;
        }
    }
    Ok(())
}

fn validate_node_bindings(
    nodes: &Vec<DiagramNode>,
    claims: &Vec<Claim>,
    evidence: &Vec<Evidence>,
) -> (outcome: Outcome)
    ensures
        outcome == checks::first_error(
            nodes@.len(),
            node_binding_checks(nodes@, claims@, evidence@),
        ),
{
    let mut index: usize = 0;
    while index < nodes.len()
        invariant
            index <= nodes@.len(),
            checks::first_error(
                index as nat,
                node_binding_checks(nodes@, claims@, evidence@),
            ) is Ok,
        decreases nodes@.len() - index,
    {
        let node = &nodes[index];
        let checked = match validate_diagram_bindings(
            node.claim_ids.as_slice(),
            node.evidence_ids.as_slice(),
            claims,
            evidence,
        ) {
            Ok(()) => Ok(()),
            Err(error) => Err(error.for_node(index)),
        };
        assert(checked == node_binding_checks(nodes@, claims@, evidence@)(index as int));
        index = index + 1;
        if checked.is_err() {
            proof {
                checks::lemma_first_error_stays(
                    index as nat,
                    nodes@.len(),
                    node_binding_checks(nodes@, claims@, evidence@),
                );
            }
            return checked;
        }
    }
    Ok(())
}

fn validate_edge_bindings(
    edges: &Vec<DiagramEdge>,
    claims: &Vec<Claim>,
    evidence: &Vec<Evidence>,
) -> (outcome: Outcome)
    ensures
        outcome == checks::first_error(
            edges@.len(),
            edge_binding_checks(edges@, claims@, evidence@),
        ),
{
    let mut index: usize = 0;
    while index < edges.len()
        invariant
            index <= edges@.len(),
            checks::first_error(
                index as nat,
                edge_binding_checks(edges@, claims@, evidence@),
            ) is Ok,
        decreases edges@.len() - index,
    {
        let edge = &edges[index];
        let checked = match validate_diagram_bindings(
            edge.claim_ids.as_slice(),
            edge.evidence_ids.as_slice(),
            claims,
            evidence,
        ) {
            Ok(()) => Ok(()),
            Err(error) => Err(error.for_edge(index)),
        };
        assert(checked == edge_binding_checks(edges@, claims@, evidence@)(index as int));
        index = index + 1;
        if checked.is_err() {
            proof {
                checks::lemma_first_error_stays(
                    index as nat,
                    edges@.len(),
                    edge_binding_checks(edges@, claims@, evidence@),
                );
            }
            return checked;
        }
    }
    Ok(())
}

/// The index of the claim with an ID.
fn find_claim(claims: &Vec<Claim>, id: ClaimId) -> (found: Option<usize>)
    ensures
        match found {
            Some(index) => index < claims@.len() && claim_with_id(claims@, id) == Some(
                index as int,
            ),
            None => claim_with_id(claims@, id) is None,
        },
{
    let ghost wanted = has_claim_id(claims@, id);
    let mut index: usize = 0;
    while index < claims.len()
        invariant
            index <= claims@.len(),
            wanted == has_claim_id(claims@, id),
            checks::least_index(index as nat, wanted) is None,
        decreases claims@.len() - index,
    {
        proof {
            checks::lemma_least_index(index as nat, wanted);
        }
        if claims[index].id == id {
            proof {
                checks::lemma_least_index_is(claims@.len(), wanted, index as int);
            }
            return Some(index);
        }
        assert(!wanted(index as int));
        index = index + 1;
    }
    None
}

/// Tests whether the claim with an ID lists a piece of evidence.
fn lists_evidence(claims: &Vec<Claim>, id: ClaimId, evidence_id: EvidenceId) -> (lists: bool)
    ensures
        lists == claim_lists(claims@, id, evidence_id),
{
    match find_claim(claims, id) {
        None => false,
        Some(index) => {
            let ids = &claims[index].evidence_ids;
            let mut position: usize = 0;
            while position < ids.len()
                invariant
                    position <= ids@.len(),
                    index < claims@.len(),
                    ids@ == claims@[index as int].evidence_ids@,
                    claim_with_id(claims@, id) == Some(index as int),
                    forall|i: int| 0 <= i < position ==> #[trigger] ids@[i] != evidence_id,
                decreases ids@.len() - position,
            {
                if ids[position] == evidence_id {
                    assert(ids@[position as int] == evidence_id);
                    return true;
                }
                position = position + 1;
            }
            false
        },
    }
}

fn validate_diagram_bindings(
    claim_ids: &[ClaimId],
    evidence_ids: &[EvidenceId],
    claims: &Vec<Claim>,
    evidence: &Vec<Evidence>,
) -> (outcome: Result<(), DiagramBindingError>)
    ensures
        outcome == binding_outcome(claim_ids@, evidence_ids@, claims@, evidence@),
{
    if claim_ids.len() == 0 {
        return Err(DiagramBindingError::WithoutClaims);
    }
    if evidence_ids.len() == 0 {
        return Err(DiagramBindingError::WithoutEvidence);
    }
    if let Some((first_index, duplicate_index)) = duplicate_claims(claim_ids) {
        return Err(DiagramBindingError::DuplicateClaim { first_index, duplicate_index });
    }
    if let Some((first_index, duplicate_index)) = duplicate_evidence(evidence_ids) {
        return Err(DiagramBindingError::DuplicateEvidence { first_index, duplicate_index });
    }
    let known = validate_linked_claims(claim_ids, claims);
    if known.is_err() {
        return known;
    }
    let linked = validate_linked_evidence(claim_ids, evidence_ids, claims, evidence);
    if linked.is_err() {
        return linked;
    }
    validate_covered_claims(claim_ids, evidence_ids, claims)
}

fn validate_linked_claims(claim_ids: &[ClaimId], claims: &Vec<Claim>) -> (outcome: Result<
    (),
    DiagramBindingError,
>)
    ensures
        outcome == checks::first_error(claim_ids@.len(), linked_claim_checks(claim_ids@, claims@)),
{
    let mut index: usize = 0;
    while index < claim_ids.len()
        invariant
            index <= claim_ids@.len(),
            checks::first_error(index as nat, linked_claim_checks(claim_ids@, claims@)) is Ok,
        decreases claim_ids@.len() - index,
    {
        let checked: Result<(), DiagramBindingError> = match find_claim(claims, claim_ids[index]) {
            None => Err(DiagramBindingError::UnknownClaim { claim_index: index }),
            Some(position) => if claims[position].kind != ClaimKind::Fact {
                Err(DiagramBindingError::NonFactClaim { claim_index: index })
            } else {
                Ok(())
            },
        };
        assert(checked == linked_claim_checks(claim_ids@, claims@)(index as int));
        index = index + 1;
        if checked.is_err() {
            proof {
                checks::lemma_first_error_stays(
                    index as nat,
                    claim_ids@.len(),
                    linked_claim_checks(claim_ids@, claims@),
                );
            }
            return checked;
        }
    }
    Ok(())
}

fn validate_linked_evidence(
    claim_ids: &[ClaimId],
    evidence_ids: &[EvidenceId],
    claims: &Vec<Claim>,
    evidence: &Vec<Evidence>,
) -> (outcome: Result<(), DiagramBindingError>)
    ensures
        outcome == checks::first_error(
            evidence_ids@.len(),
            linked_evidence_checks(claim_ids@, evidence_ids@, claims@, evidence@),
        ),
{
    let mut index: usize = 0;
    assert(evidence@.take(evidence@.len() as int) =~= evidence@);
    while index < evidence_ids.len()
        invariant
            index <= evidence_ids@.len(),
            evidence@.take(evidence@.len() as int) == evidence@,
            checks::first_error(
                index as nat,
                linked_evidence_checks(claim_ids@, evidence_ids@, claims@, evidence@),
            ) is Ok,
        decreases evidence_ids@.len() - index,
    {
        let evidence_id = evidence_ids[index];
        let known = knows_evidence(evidence, evidence.len(), evidence_id);
        let listed = any_claim_lists(claim_ids, claims, evidence_id);
        let checked: Result<(), DiagramBindingError> = if !known {
            Err(DiagramBindingError::UnknownEvidence { evidence_index: index })
        } else if !listed {
            Err(DiagramBindingError::EvidenceNotLinkedToAnyClaim { evidence_index: index })
        } else {
            Ok(())
        };
        assert(checked == linked_evidence_checks(claim_ids@, evidence_ids@, claims@, evidence@)(
            index as int,
        ));
        index = index + 1;
        if checked.is_err() {
            proof {
                checks::lemma_first_error_stays(
                    index as nat,
                    evidence_ids@.len(),
                    linked_evidence_checks(claim_ids@, evidence_ids@, claims@, evidence@),
                );
            }
            return checked;
        }
    }
    Ok(())
}

fn any_claim_lists(claim_ids: &[ClaimId], claims: &Vec<Claim>, evidence_id: EvidenceId) -> (listed:
    bool)
    ensures
        listed == exists|c: int|
            0 <= c < claim_ids@.len() && claim_lists(
                claims@,
                #[trigger] claim_ids@[c],
                evidence_id,
            ),
{
    let mut index: usize = 0;
    while index < claim_ids.len()
        invariant
            index <= claim_ids@.len(),
            forall|c: int|
                0 <= c < index ==> !claim_lists(claims@, #[trigger] claim_ids@[c], evidence_id),
        decreases claim_ids@.len() - index,
    {
        if lists_evidence(claims, claim_ids[index], evidence_id) {
            assert(claim_lists(claims@, claim_ids@[index as int], evidence_id));
            return true;
        }
        index = index + 1;
    }
    false
}

fn validate_covered_claims(
    claim_ids: &[ClaimId],
    evidence_ids: &[EvidenceId],
    claims: &Vec<Claim>,
) -> (outcome: Result<(), DiagramBindingError>)
    ensures
        outcome == checks::first_error(
            claim_ids@.len(),
            covered_claim_checks(claim_ids@, evidence_ids@, claims@),
        ),
{
    let mut index: usize = 0;
    while index < claim_ids.len()
        invariant
            index <= claim_ids@.len(),
            checks::first_error(
                index as nat,
                covered_claim_checks(claim_ids@, evidence_ids@, claims@),
            ) is Ok,
        decreases claim_ids@.len() - index,
    {
        let covered = lists_any_evidence(claims, claim_ids[index], evidence_ids);
        let checked: Result<(), DiagramBindingError> = if covered {
            Ok(())
        } else {
            Err(DiagramBindingError::ClaimWithoutLinkedEvidence { claim_index: index })
        };
        assert(checked == covered_claim_checks(claim_ids@, evidence_ids@, claims@)(index as int));
        index = index + 1;
        if checked.is_err() {
            proof {
                checks::lemma_first_error_stays(
                    index as nat,
                    claim_ids@.len(),
                    covered_claim_checks(claim_ids@, evidence_ids@, claims@),
                );
            }
            return checked;
        }
    }
    Ok(())
}

fn lists_any_evidence(claims: &Vec<Claim>, id: ClaimId, evidence_ids: &[EvidenceId]) -> (listed:
    bool)
    ensures
        listed == exists|e: int|
            0 <= e < evidence_ids@.len() && claim_lists(claims@, id, #[trigger] evidence_ids@[e]),
{
    let mut index: usize = 0;
    while index < evidence_ids.len()
        invariant
            index <= evidence_ids@.len(),
            forall|e: int|
                0 <= e < index ==> !claim_lists(claims@, id, #[trigger] evidence_ids@[e]),
        decreases evidence_ids@.len() - index,
    {
        if lists_evidence(claims, id, evidence_ids[index]) {
            assert(claim_lists(claims@, id, evidence_ids@[index as int]));
            return true;
        }
        index = index + 1;
    }
    false
}

proof fn lemma_repetition_found<T>(values: Seq<T>, first: int, duplicate: int)
    requires
        0 <= first < duplicate < values.len(),
        values[first] == values[duplicate],
        forall|j: int| 0 <= j < first ==> #[trigger] values[j] != values[duplicate],
        forall|i: int, j: int|
            0 <= i < j < duplicate ==> #[trigger] values[i] != #[trigger] values[j],
    ensures
        repetition(values) == Some((first, duplicate)),
{
    let same = |j: int| values[j] == values[duplicate];
    checks::lemma_least_index_is(duplicate as nat, same, first);
    let repeats = |k: int| earlier_equal(values, k) is Some;
    assert(earlier_equal(values, duplicate) == Some(first));
    assert forall|k: int| 0 <= k < duplicate implies !(#[trigger] repeats(k)) by {
        checks::lemma_least_index(k as nat, |j: int| values[j] == values[k]);
    }
    checks::lemma_least_index_is(values.len(), repeats, duplicate);
}

proof fn lemma_no_repetition<T>(values: Seq<T>)
    requires
        forall|i: int, j: int|
            0 <= i < j < values.len() ==> #[trigger] values[i] != #[trigger] values[j],
    ensures
        repetition(values) is None,
{
    let repeats = |k: int| earlier_equal(values, k) is Some;
    checks::lemma_least_index(values.len(), repeats);
    if let Some(k) = checks::least_index(values.len(), repeats) {
        checks::lemma_least_index(k as nat, |j: int| values[j] == values[k]);
    }
}

/// The first repetition among claim IDs: the index of the first ID that repeats
/// an earlier one, behind the index that it repeats.
fn duplicate_claims(values: &[ClaimId]) -> (found: Option<(usize, usize)>)
    ensures
        match found {
            Some((first, duplicate)) => repetition(values@) == Some(
                (first as int, duplicate as int),
            ),
            None => repetition(values@) is None,
        },
{
    let mut index: usize = 0;
    while index < values.len()
        invariant
            index <= values@.len(),
            forall|i: int, j: int|
                0 <= i < j < index ==> #[trigger] values@[i] != #[trigger] values@[j],
        decreases values@.len() - index,
    {
        let mut earlier: usize = 0;
        while earlier < index
            invariant
                earlier <= index < values@.len(),
                forall|i: int, j: int|
                    0 <= i < j < index ==> #[trigger] values@[i] != #[trigger] values@[j],
                forall|i: int| 0 <= i < earlier ==> #[trigger] values@[i] != values@[index as int],
            decreases index - earlier,
        {
            if values[earlier] == values[index] {
                proof {
                    lemma_repetition_found(values@, earlier as int, index as int);
                }
                return Some((earlier, index));
            }
            earlier = earlier + 1;
        }
        index = index + 1;
    }
    proof {
        lemma_no_repetition(values@);
    }
    None
}

/// The first repetition among evidence IDs.
fn duplicate_evidence(values: &[EvidenceId]) -> (found: Option<(usize, usize)>)
    ensures
        match found {
            Some((first, duplicate)) => repetition(values@) == Some(
                (first as int, duplicate as int),
            ),
            None => repetition(values@) is None,
        },
{
    let mut index: usize = 0;
    while index < values.len()
        invariant
            index <= values@.len(),
            forall|i: int, j: int|
                0 <= i < j < index ==> #[trigger] values@[i] != #[trigger] values@[j],
        decreases values@.len() - index,
    {
        let mut earlier: usize = 0;
        while earlier < index
            invariant
                earlier <= index < values@.len(),
                forall|i: int, j: int|
                    0 <= i < j < index ==> #[trigger] values@[i] != #[trigger] values@[j],
                forall|i: int| 0 <= i < earlier ==> #[trigger] values@[i] != values@[index as int],
            decreases index - earlier,
        {
            if values[earlier] == values[index] {
                proof {
                    lemma_repetition_found(values@, earlier as int, index as int);
                }
                return Some((earlier, index));
            }
            earlier = earlier + 1;
        }
        index = index + 1;
    }
    proof {
        lemma_no_repetition(values@);
    }
    None
}

/// Why a diagram element is not bound to claims and evidence.
#[derive(Debug, Clone, Copy, PartialEq, Eq, Structural)]
pub enum DiagramBindingError {
    WithoutClaims,
    WithoutEvidence,
    DuplicateClaim { first_index: usize, duplicate_index: usize },
    DuplicateEvidence { first_index: usize, duplicate_index: usize },
    UnknownClaim { claim_index: usize },
    NonFactClaim { claim_index: usize },
    UnknownEvidence { evidence_index: usize },
    ClaimWithoutLinkedEvidence { claim_index: usize },
    EvidenceNotLinkedToAnyClaim { evidence_index: usize },
}

impl DiagramBindingError {
    /// The error as one of the node at an index.
    pub open spec fn at_node(self, node_index: usize) -> EvidenceValidationError {
        match self {
            DiagramBindingError::WithoutClaims => EvidenceValidationError::DiagramNodeWithoutClaims {
                node_index,
            },
            DiagramBindingError::WithoutEvidence => EvidenceValidationError::DiagramNodeWithoutEvidence {
                node_index,
            },
            DiagramBindingError::DuplicateClaim { first_index, duplicate_index } => EvidenceValidationError::DuplicateDiagramNodeClaim {
                node_index,
                first_claim_index: first_index,
                duplicate_claim_index: duplicate_index,
            },
            DiagramBindingError::DuplicateEvidence { first_index, duplicate_index } => EvidenceValidationError::DuplicateDiagramNodeEvidence {
                node_index,
                first_evidence_index: first_index,
                duplicate_evidence_index: duplicate_index,
            },
            DiagramBindingError::UnknownClaim { claim_index } => EvidenceValidationError::UnknownDiagramNodeClaim {
                node_index,
                claim_index,
            },
            DiagramBindingError::NonFactClaim { claim_index } => EvidenceValidationError::NonFactDiagramNodeClaim {
                node_index,
                claim_index,
            },
            DiagramBindingError::UnknownEvidence { evidence_index } => EvidenceValidationError::UnknownDiagramNodeEvidence {
                node_index,
                evidence_index,
            },
            DiagramBindingError::ClaimWithoutLinkedEvidence { claim_index } => EvidenceValidationError::DiagramNodeClaimWithoutLinkedEvidence {
                node_index,
                claim_index,
            },
            DiagramBindingError::EvidenceNotLinkedToAnyClaim { evidence_index } => EvidenceValidationError::DiagramNodeEvidenceNotLinkedToAnyClaim {
                node_index,
                evidence_index,
            },
        }
    }

    fn for_node(self, node_index: usize) -> (error: EvidenceValidationError)
        ensures
            error == self.at_node(node_index),
    {
        match self {
            DiagramBindingError::WithoutClaims => EvidenceValidationError::DiagramNodeWithoutClaims {
                node_index,
            },
            DiagramBindingError::WithoutEvidence => EvidenceValidationError::DiagramNodeWithoutEvidence {
                node_index,
            },
            DiagramBindingError::DuplicateClaim { first_index, duplicate_index } => EvidenceValidationError::DuplicateDiagramNodeClaim {
                node_index,
                first_claim_index: first_index,
                duplicate_claim_index: duplicate_index,
            },
            DiagramBindingError::DuplicateEvidence { first_index, duplicate_index } => EvidenceValidationError::DuplicateDiagramNodeEvidence {
                node_index,
                first_evidence_index: first_index,
                duplicate_evidence_index: duplicate_index,
            },
            DiagramBindingError::UnknownClaim { claim_index } => EvidenceValidationError::UnknownDiagramNodeClaim {
                node_index,
                claim_index,
            },
            DiagramBindingError::NonFactClaim { claim_index } => EvidenceValidationError::NonFactDiagramNodeClaim {
                node_index,
                claim_index,
            },
            DiagramBindingError::UnknownEvidence { evidence_index } => EvidenceValidationError::UnknownDiagramNodeEvidence {
                node_index,
                evidence_index,
            },
            DiagramBindingError::ClaimWithoutLinkedEvidence { claim_index } => EvidenceValidationError::DiagramNodeClaimWithoutLinkedEvidence {
                node_index,
                claim_index,
            },
            DiagramBindingError::EvidenceNotLinkedToAnyClaim { evidence_index } => EvidenceValidationError::DiagramNodeEvidenceNotLinkedToAnyClaim {
                node_index,
                evidence_index,
            },
        }
    }

    /// The error as one of the edge at an index.
    pub open spec fn at_edge(self, edge_index: usize) -> EvidenceValidationError {
        match self {
            DiagramBindingError::WithoutClaims => EvidenceValidationError::DiagramEdgeWithoutClaims {
                edge_index,
            },
            DiagramBindingError::WithoutEvidence => EvidenceValidationError::DiagramEdgeWithoutEvidence {
                edge_index,
            },
            DiagramBindingError::DuplicateClaim { first_index, duplicate_index } => EvidenceValidationError::DuplicateDiagramEdgeClaim {
                edge_index,
                first_claim_index: first_index,
                duplicate_claim_index: duplicate_index,
            },
            DiagramBindingError::DuplicateEvidence { first_index, duplicate_index } => EvidenceValidationError::DuplicateDiagramEdgeEvidence {
                edge_index,
                first_evidence_index: first_index,
                duplicate_evidence_index: duplicate_index,
            },
            DiagramBindingError::UnknownClaim { claim_index } => EvidenceValidationError::UnknownDiagramEdgeClaim {
                edge_index,
                claim_index,
            },
            DiagramBindingError::NonFactClaim { claim_index } => EvidenceValidationError::NonFactDiagramEdgeClaim {
                edge_index,
                claim_index,
            },
            DiagramBindingError::UnknownEvidence { evidence_index } => EvidenceValidationError::UnknownDiagramEdgeEvidence {
                edge_index,
                evidence_index,
            },
            DiagramBindingError::ClaimWithoutLinkedEvidence { claim_index } => EvidenceValidationError::DiagramEdgeClaimWithoutLinkedEvidence {
                edge_index,
                claim_index,
            },
            DiagramBindingError::EvidenceNotLinkedToAnyClaim { evidence_index } => EvidenceValidationError::DiagramEdgeEvidenceNotLinkedToAnyClaim {
                edge_index,
                evidence_index,
            },
        }
    }

    fn for_edge(self, edge_index: usize) -> (error: EvidenceValidationError)
        ensures
            error == self.at_edge(edge_index),
    {
        match self {
            DiagramBindingError::WithoutClaims => EvidenceValidationError::DiagramEdgeWithoutClaims {
                edge_index,
            },
            DiagramBindingError::WithoutEvidence => EvidenceValidationError::DiagramEdgeWithoutEvidence {
                edge_index,
            },
            DiagramBindingError::DuplicateClaim { first_index, duplicate_index } => EvidenceValidationError::DuplicateDiagramEdgeClaim {
                edge_index,
                first_claim_index: first_index,
                duplicate_claim_index: duplicate_index,
            },
            DiagramBindingError::DuplicateEvidence { first_index, duplicate_index } => EvidenceValidationError::DuplicateDiagramEdgeEvidence {
                edge_index,
                first_evidence_index: first_index,
                duplicate_evidence_index: duplicate_index,
            },
            DiagramBindingError::UnknownClaim { claim_index } => EvidenceValidationError::UnknownDiagramEdgeClaim {
                edge_index,
                claim_index,
            },
            DiagramBindingError::NonFactClaim { claim_index } => EvidenceValidationError::NonFactDiagramEdgeClaim {
                edge_index,
                claim_index,
            },
            DiagramBindingError::UnknownEvidence { evidence_index } => EvidenceValidationError::UnknownDiagramEdgeEvidence {
                edge_index,
                evidence_index,
            },
            DiagramBindingError::ClaimWithoutLinkedEvidence { claim_index } => EvidenceValidationError::DiagramEdgeClaimWithoutLinkedEvidence {
                edge_index,
                claim_index,
            },
            DiagramBindingError::EvidenceNotLinkedToAnyClaim { evidence_index } => EvidenceValidationError::DiagramEdgeEvidenceNotLinkedToAnyClaim {
                edge_index,
                evidence_index,
            },
        }
    }
}

/// Why an answer is refused.
#[derive(Debug, Clone, Copy, PartialEq, Eq, Structural)]
pub enum EvidenceValidationError {
    FactWithoutEvidence { claim_id: ClaimId },
    DuplicateEvidence { evidence_id: EvidenceId },
    DuplicateClaim { claim_id: ClaimId },
    DuplicateCallPath { call_path_id: CallPathId },
    UnknownClaimEvidence { claim_id: ClaimId, evidence_id: EvidenceId },
    UnknownCallPathEvidence { call_path_id: CallPathId, evidence_id: EvidenceId },
    TooManySuggestedActions { actual: usize },
    DuplicateSuggestedAction,
    UnknownSuggestedClaim { claim_id: ClaimId },
    UnknownSuggestedCallPath { call_path_id: CallPathId },
    UnknownSuggestedEvidence { evidence_id: EvidenceId },
    EmptyDiagramDecisionReason,
    EmptyDiagramTitle,
    InvalidDiagramNodeCount { node_count: usize },
    InvalidDiagramEdgeCount { edge_count: usize },
    EmptyDiagramNodeId { node_index: usize },
    EmptyDiagramNodeLabel { node_index: usize },
    DuplicateDiagramNodeId { first_node_index: usize, duplicate_node_index: usize },
    UnknownDiagramEdgeSource { edge_index: usize },
    UnknownDiagramEdgeTarget { edge_index: usize },
    DiagramNodeWithoutClaims { node_index: usize },
    DiagramNodeWithoutEvidence { node_index: usize },
    DuplicateDiagramNodeClaim { node_index: usize, first_claim_index: usize, duplicate_claim_index: usize },
    DuplicateDiagramNodeEvidence { node_index: usize, first_evidence_index: usize, duplicate_evidence_index: usize },
    UnknownDiagramNodeClaim { node_index: usize, claim_index: usize },
    NonFactDiagramNodeClaim { node_index: usize, claim_index: usize },
    UnknownDiagramNodeEvidence { node_index: usize, evidence_index: usize },
    DiagramNodeClaimWithoutLinkedEvidence { node_index: usize, claim_index: usize },
    DiagramNodeEvidenceNotLinkedToAnyClaim { node_index: usize, evidence_index: usize },
    DiagramEdgeWithoutClaims { edge_index: usize },
    DiagramEdgeWithoutEvidence { edge_index: usize },
    DuplicateDiagramEdgeClaim { edge_index: usize, first_claim_index: usize, duplicate_claim_index: usize },
    DuplicateDiagramEdgeEvidence { edge_index: usize, first_evidence_index: usize, duplicate_evidence_index: usize },
    UnknownDiagramEdgeClaim { edge_index: usize, claim_index: usize },
    NonFactDiagramEdgeClaim { edge_index: usize, claim_index: usize },
    UnknownDiagramEdgeEvidence { edge_index: usize, evidence_index: usize },
    DiagramEdgeClaimWithoutLinkedEvidence { edge_index: usize, claim_index: usize },
    DiagramEdgeEvidenceNotLinkedToAnyClaim { edge_index: usize, evidence_index: usize },
}

impl EvidenceValidationError {
    /// Whether a failure concerns the answer itself rather than its diagram.
    pub open spec fn concerns_answer(self) -> bool {
        ||| self is FactWithoutEvidence
        ||| self is DuplicateEvidence
        ||| self is DuplicateClaim
        ||| self is DuplicateCallPath
        ||| self is UnknownClaimEvidence
        ||| self is UnknownCallPathEvidence
        ||| self is TooManySuggestedActions
        ||| self is DuplicateSuggestedAction
        ||| self is UnknownSuggestedClaim
        ||| self is UnknownSuggestedCallPath
        ||| self is UnknownSuggestedEvidence
    }

    /// Whether this failure is confined to the optional diagram contract.
    pub fn is_diagram_error(&self) -> (confined: bool)
        ensures
            confined == !self.concerns_answer(),
    {
        match self {
            EvidenceValidationError::FactWithoutEvidence { .. } => false,
            EvidenceValidationError::DuplicateEvidence { .. } => false,
            EvidenceValidationError::DuplicateClaim { .. } => false,
            EvidenceValidationError::DuplicateCallPath { .. } => false,
            EvidenceValidationError::UnknownClaimEvidence { .. } => false,
            EvidenceValidationError::UnknownCallPathEvidence { .. } => false,
            EvidenceValidationError::TooManySuggestedActions { .. } => false,
            EvidenceValidationError::DuplicateSuggestedAction => false,
            EvidenceValidationError::UnknownSuggestedClaim { .. } => false,
            EvidenceValidationError::UnknownSuggestedCallPath { .. } => false,
            EvidenceValidationError::UnknownSuggestedEvidence { .. } => false,
            _ => true,
        }
    }
}

/// A diagram element is bound: it has claims and evidence without repetition, all
/// of its claims are facts of the answer, all of its evidence is carried by the
/// answer and listed by one of its claims, and each claim lists some of it.
pub open spec fn bound(
    claim_ids: Seq<ClaimId>,
    evidence_ids: Seq<EvidenceId>,
    claims: Seq<Claim>,
    evidence: Seq<Evidence>,
) -> bool {
    &&& claim_ids.len() > 0
    &&& evidence_ids.len() > 0
    &&& claim_ids.no_duplicates()
    &&& evidence_ids.no_duplicates()
    &&& forall|k: int|
        0 <= k < claim_ids.len() ==> (claim_with_id(claims, #[trigger] claim_ids[k]) matches Some(
            index,
        ) && claims[index].kind == ClaimKind::Fact)
    &&& forall|k: int|
        0 <= k < evidence_ids.len() ==> carries_evidence(evidence, #[trigger] evidence_ids[k])
    &&& forall|k: int|
        0 <= k < evidence_ids.len() ==> exists|c: int|
            0 <= c < claim_ids.len() && claim_lists(
                claims,
                #[trigger] claim_ids[c],
                #[trigger] evidence_ids[k],
            )
    &&& forall|k: int|
        0 <= k < claim_ids.len() ==> exists|e: int|
            0 <= e < evidence_ids.len() && claim_lists(
                claims,
                #[trigger] claim_ids[k],
                #[trigger] evidence_ids[e],
            )
}

/// A diagram that its answer supports.
pub open spec fn supported_diagram(
    diagram: Diagram,
    claims: Seq<Claim>,
    evidence: Seq<Evidence>,
) -> bool {
    let nodes = diagram.nodes@;
    let edges = diagram.edges@;
    &&& !text::all_blank(diagram.title@)
    &&& 2 <= nodes.len() <= 32
    &&& 1 <= edges.len() <= 64
    &&& forall|k: int|
        0 <= k < nodes.len() ==> !text::all_blank((#[trigger] nodes[k]).id@) && !text::all_blank(
            nodes[k].label@,
        )
    &&& node_ids(nodes).no_duplicates()
    &&& forall|k: int|
        0 <= k < edges.len() ==> node_ids(nodes).contains((#[trigger] edges[k]).source@)
            && node_ids(nodes).contains(edges[k].target@)
    &&& forall|k: int|
        0 <= k < nodes.len() ==> bound(
            (#[trigger] nodes[k]).claim_ids@,
            nodes[k].evidence_ids@,
            claims,
            evidence,
        )
    &&& forall|k: int|
        0 <= k < edges.len() ==> bound(
            (#[trigger] edges[k]).claim_ids@,
            edges[k].evidence_ids@,
            claims,
            evidence,
        )
}

/// A suggested action that refers to what the answer carries.
pub open spec fn offered(answer: AgentAnswer, action: SuggestedAction) -> bool {
    match action {
        SuggestedAction::DeepenClaim { claim_id } => carries_claim(answer.claims@, claim_id),
        SuggestedAction::ContinueCallPath { call_path_id } => carries_path(
            answer.call_paths@,
            call_path_id,
        ),
        SuggestedAction::ExplainEvidence { evidence_id } => carries_evidence(
            answer.evidence@,
            evidence_id,
        ),
        SuggestedAction::ShowSource { evidence_id } => carries_evidence(
            answer.evidence@,
            evidence_id,
        ),
        SuggestedAction::ChangeDepth { .. } => true,
    }
}

/// The reason of a diagram decision.
pub open spec fn decision_reason(decision: DiagramDecision) -> Seq<char> {
    match decision {
        DiagramDecision::NotNeeded { reason } => reason@,
        DiagramDecision::Needed { reason, .. } => reason@,
    }
}

/// An answer all of whose facts, call paths, diagram elements and suggested
/// actions rest on evidence, claims and paths that it carries itself.
pub open spec fn grounded(answer: AgentAnswer) -> bool {
    let evidence = answer.evidence@;
    let claims = answer.claims@;
    let paths = answer.call_paths@;
    let actions = answer.suggested_actions@;
    &&& forall|i: int, j: int|
        0 <= i < j < evidence.len() ==> (#[trigger] evidence[i]).id != (#[trigger] evidence[j]).id
    &&& forall|i: int, j: int|
        0 <= i < j < claims.len() ==> (#[trigger] claims[i]).id != (#[trigger] claims[j]).id
    &&& forall|k: int| 0 <= k < claims.len() ==> !(#[trigger] claims[k]).unsupported_fact()
    &&& forall|k: int, e: int|
        0 <= k < claims.len() && 0 <= e < claims[k].evidence_ids@.len() ==> carries_evidence(
            evidence,
            #[trigger] claims[k].evidence_ids@[e],
        )
    &&& forall|i: int, j: int|
        0 <= i < j < paths.len() ==> (#[trigger] paths[i]).id != (#[trigger] paths[j]).id
    &&& forall|p: int, s: int, e: int|
        0 <= p < paths.len() && 0 <= s < paths[p].steps@.len() && 0 <= e
            < paths[p].steps@[s].evidence_ids@.len() ==> carries_evidence(
            evidence,
            #[trigger] paths[p].steps@[s].evidence_ids@[e],
        )
    &&& !text::all_blank(decision_reason(answer.diagram))
    &&& answer.diagram matches DiagramDecision::Needed { diagram, .. } ==> supported_diagram(
        diagram,
        claims,
        evidence,
    )
    &&& actions.len() <= 4
    &&& actions.no_duplicates()
    &&& forall|k: int| 0 <= k < actions.len() ==> offered(answer, #[trigger] actions[k])
}

proof fn lemma_repetition_none<T>(values: Seq<T>)
    ensures
        repetition(values) is None <==> values.no_duplicates(),
{
    let repeats = |k: int| earlier_equal(values, k) is Some;
    checks::lemma_least_index(values.len(), repeats);
    if values.no_duplicates() {
        lemma_no_repetition(values);
    }
    if repetition(values) is None {
        assert forall|i: int, j: int| 0 <= i < j < values.len() implies values[i] != values[j] by {
            assert(!repeats(j));
            let same = |m: int| values[m] == values[j];
            checks::lemma_least_index(j as nat, same);
            assert(!same(i));
        }
    }
}

proof fn lemma_binding(
    claim_ids: Seq<ClaimId>,
    evidence_ids: Seq<EvidenceId>,
    claims: Seq<Claim>,
    evidence: Seq<Evidence>,
)
    ensures
        binding_outcome(claim_ids, evidence_ids, claims, evidence) is Ok <==> bound(
            claim_ids,
            evidence_ids,
            claims,
            evidence,
        ),
{
    let known = linked_claim_checks(claim_ids, claims);
    let linked = linked_evidence_checks(claim_ids, evidence_ids, claims, evidence);
    let covered = covered_claim_checks(claim_ids, evidence_ids, claims);
    lemma_repetition_none(claim_ids);
    lemma_repetition_none(evidence_ids);
    checks::lemma_first_error_ok(claim_ids.len(), known);
    checks::lemma_first_error_ok(evidence_ids.len(), linked);
    checks::lemma_first_error_ok(claim_ids.len(), covered);
    if binding_outcome(claim_ids, evidence_ids, claims, evidence) is Ok {
        assert forall|k: int| 0 <= k < claim_ids.len() implies (claim_with_id(
            claims,
            #[trigger] claim_ids[k],
        ) matches Some(index) && claims[index].kind == ClaimKind::Fact) by {
            assert(known(k) is Ok);
        }
        assert forall|k: int| 0 <= k < evidence_ids.len() implies carries_evidence(
            evidence,
            #[trigger] evidence_ids[k],
        ) by {
            assert(linked(k) is Ok);
        }
        assert forall|k: int| 0 <= k < evidence_ids.len() implies exists|c: int|
            0 <= c < claim_ids.len() && claim_lists(
                claims,
                #[trigger] claim_ids[c],
                #[trigger] evidence_ids[k],
            ) by {
            assert(linked(k) is Ok);
        }
        assert forall|k: int| 0 <= k < claim_ids.len() implies exists|e: int|
            0 <= e < evidence_ids.len() && claim_lists(
                claims,
                #[trigger] claim_ids[k],
                #[trigger] evidence_ids[e],
            ) by {
            assert(covered(k) is Ok);
        }
    }
    if bound(claim_ids, evidence_ids, claims, evidence) {
        assert forall|k: int| 0 <= k < claim_ids.len() implies (#[trigger] known(k)) is Ok by {
            assert(claim_with_id(claims, claim_ids[k]) is Some);
        }
        assert forall|k: int| 0 <= k < evidence_ids.len() implies (#[trigger] linked(k)) is Ok by {
            assert(carries_evidence(evidence, evidence_ids[k]));
        }
        assert forall|k: int| 0 <= k < claim_ids.len() implies (#[trigger] covered(k)) is Ok by {
            assert(claim_with_id(claims, claim_ids[k]) is Some);
        }
    }
}

proof fn lemma_diagram(diagram: Diagram, claims: Seq<Claim>, evidence: Seq<Evidence>)
    ensures
        diagram_outcome(diagram, claims, evidence) is Ok <==> supported_diagram(
            diagram,
            claims,
            evidence,
        ),
{
    let nodes = diagram.nodes@;
    let edges = diagram.edges@;
    let named = node_checks(nodes);
    let joined = edge_checks(nodes, edges);
    let nodes_bound = node_binding_checks(nodes, claims, evidence);
    let edges_bound = edge_binding_checks(edges, claims, evidence);
    checks::lemma_first_error_ok(nodes.len(), named);
    checks::lemma_first_error_ok(edges.len(), joined);
    checks::lemma_first_error_ok(nodes.len(), nodes_bound);
    checks::lemma_first_error_ok(edges.len(), edges_bound);
    assert forall|k: int| 0 <= k < nodes.len() implies ((#[trigger] nodes_bound(k)) is Ok <==> bound(
        nodes[k].claim_ids@,
        nodes[k].evidence_ids@,
        claims,
        evidence,
    )) by {
        lemma_binding(nodes[k].claim_ids@, nodes[k].evidence_ids@, claims, evidence);
    }
    assert forall|k: int| 0 <= k < edges.len() implies ((#[trigger] edges_bound(k)) is Ok <==> bound(
        edges[k].claim_ids@,
        edges[k].evidence_ids@,
        claims,
        evidence,
    )) by {
        lemma_binding(edges[k].claim_ids@, edges[k].evidence_ids@, claims, evidence);
    }
    let ids = node_ids(nodes);
    assert forall|k: int| 0 <= k < nodes.len() implies ((earlier_equal(ids, k) is None) <==> (
    forall|j: int| 0 <= j < k ==> #[trigger] ids[j] != ids[k])) by {
        let same = |j: int| ids[j] == ids[k];
        checks::lemma_least_index(k as nat, same);
        if earlier_equal(ids, k) is None {
            assert forall|j: int| 0 <= j < k implies #[trigger] ids[j] != ids[k] by {
                assert(!same(j));
            }
        }
    }
    if diagram_outcome(diagram, claims, evidence) is Ok {
        assert forall|k: int| 0 <= k < nodes.len() implies !text::all_blank(
            (#[trigger] nodes[k]).id@,
        ) && !text::all_blank(nodes[k].label@) by {
            assert(named(k) is Ok);
        }
        assert forall|i: int, j: int| 0 <= i < ids.len() && 0 <= j < ids.len() && i
            != j implies ids[i] != ids[j] by {
            assert(named(i) is Ok);
            assert(named(j) is Ok);
        }
        assert forall|k: int| 0 <= k < edges.len() implies ids.contains(
            (#[trigger] edges[k]).source@,
        ) && ids.contains(edges[k].target@) by {
            assert(joined(k) is Ok);
        }
        assert forall|k: int| 0 <= k < nodes.len() implies bound(
            (#[trigger] nodes[k]).claim_ids@,
            nodes[k].evidence_ids@,
            claims,
            evidence,
        ) by {
            assert(nodes_bound(k) is Ok);
        }
        assert forall|k: int| 0 <= k < edges.len() implies bound(
            (#[trigger] edges[k]).claim_ids@,
            edges[k].evidence_ids@,
            claims,
            evidence,
        ) by {
            assert(edges_bound(k) is Ok);
        }
    }
    if supported_diagram(diagram, claims, evidence) {
        assert forall|k: int| 0 <= k < nodes.len() implies (#[trigger] named(k)) is Ok by {
            assert(!text::all_blank(nodes[k].id@));
        }
        assert forall|k: int| 0 <= k < edges.len() implies (#[trigger] joined(k)) is Ok by {
            assert(ids.contains(edges[k].source@));
        }
        assert forall|k: int| 0 <= k < nodes.len() implies (#[trigger] nodes_bound(k)) is Ok by {
            assert(bound(nodes[k].claim_ids@, nodes[k].evidence_ids@, claims, evidence));
        }
        assert forall|k: int| 0 <= k < edges.len() implies (#[trigger] edges_bound(k)) is Ok by {
            assert(bound(edges[k].claim_ids@, edges[k].evidence_ids@, claims, evidence));
        }
    }
}

proof fn lemma_evidence_distinct(evidence: Seq<Evidence>)
    ensures
        checks::first_error(evidence.len(), evidence_checks(evidence)) is Ok <==> (forall|
            i: int,
            j: int,
        |
            0 <= i < j < evidence.len() ==> (#[trigger] evidence[i]).id != (
            #[trigger] evidence[j]).id),
{
    let each = evidence_checks(evidence);
    checks::lemma_first_error_ok(evidence.len(), each);
    if checks::first_error(evidence.len(), each) is Ok {
        assert forall|i: int, j: int| 0 <= i < j < evidence.len() implies (
        #[trigger] evidence[i]).id != (#[trigger] evidence[j]).id by {
            assert(each(j) is Ok);
            assert(evidence.take(j)[i] == evidence[i]);
        }
    }
    if forall|i: int, j: int|
        0 <= i < j < evidence.len() ==> (#[trigger] evidence[i]).id != (#[trigger] evidence[j]).id {
        assert forall|k: int| 0 <= k < evidence.len() implies (#[trigger] each(k)) is Ok by {
            if carries_evidence(evidence.take(k), evidence[k].id) {
                let i = choose|i: int|
                    0 <= i < evidence.take(k).len() && (#[trigger] evidence.take(k)[i]).id
                        == evidence[k].id;
                assert(evidence[i].id != evidence[k].id);
            }
        }
    }
}

proof fn lemma_claims(claims: Seq<Claim>, evidence: Seq<Evidence>)
    ensures
        checks::first_error(claims.len(), claim_checks(claims, evidence)) is Ok <==> {
            &&& forall|i: int, j: int|
                0 <= i < j < claims.len() ==> (#[trigger] claims[i]).id != (#[trigger] claims[j]).id
            &&& forall|k: int| 0 <= k < claims.len() ==> !(#[trigger] claims[k]).unsupported_fact()
            &&& forall|k: int, e: int|
                0 <= k < claims.len() && 0 <= e < claims[k].evidence_ids@.len()
                    ==> carries_evidence(evidence, #[trigger] claims[k].evidence_ids@[e])
        },
{
    let each = claim_checks(claims, evidence);
    checks::lemma_first_error_ok(claims.len(), each);
    if checks::first_error(claims.len(), each) is Ok {
        assert forall|i: int, j: int| 0 <= i < j < claims.len() implies (#[trigger] claims[i]).id
            != (#[trigger] claims[j]).id by {
            assert(each(j) is Ok);
            assert(claims.take(j)[i] == claims[i]);
        }
        assert forall|k: int| 0 <= k < claims.len() implies !(
        #[trigger] claims[k]).unsupported_fact() by {
            assert(each(k) is Ok);
        }
        assert forall|k: int, e: int|
            0 <= k < claims.len() && 0 <= e < claims[k].evidence_ids@.len() implies carries_evidence(
            evidence,
            #[trigger] claims[k].evidence_ids@[e],
        ) by {
            assert(each(k) is Ok);
            let inner = claim_reference_checks(claims[k], evidence);
            checks::lemma_first_error_ok(claims[k].evidence_ids@.len(), inner);
            assert(inner(e) is Ok);
        }
    }
    if {
        &&& forall|i: int, j: int|
            0 <= i < j < claims.len() ==> (#[trigger] claims[i]).id != (#[trigger] claims[j]).id
        &&& forall|k: int| 0 <= k < claims.len() ==> !(#[trigger] claims[k]).unsupported_fact()
        &&& forall|k: int, e: int|
            0 <= k < claims.len() && 0 <= e < claims[k].evidence_ids@.len() ==> carries_evidence(
                evidence,
                #[trigger] claims[k].evidence_ids@[e],
            )
    } {
        assert forall|k: int| 0 <= k < claims.len() implies (#[trigger] each(k)) is Ok by {
            let inner = claim_reference_checks(claims[k], evidence);
            checks::lemma_first_error_ok(claims[k].evidence_ids@.len(), inner);
            assert forall|e: int| 0 <= e < claims[k].evidence_ids@.len() implies (
            #[trigger] inner(e)) is Ok by {
                assert(carries_evidence(evidence, claims[k].evidence_ids@[e]));
            }
            assert(!claims[k].unsupported_fact());
            if carries_claim(claims.take(k), claims[k].id) {
                let i = choose|i: int|
                    0 <= i < claims.take(k).len() && (#[trigger] claims.take(k)[i]).id
                        == claims[k].id;
                assert(claims[i].id != claims[k].id);
            }
        }
    }
}

proof fn lemma_paths(paths: Seq<CallPath>, evidence: Seq<Evidence>)
    ensures
        checks::first_error(paths.len(), path_checks(paths, evidence)) is Ok <==> {
            &&& forall|i: int, j: int|
                0 <= i < j < paths.len() ==> (#[trigger] paths[i]).id != (#[trigger] paths[j]).id
            &&& forall|p: int, s: int, e: int|
                0 <= p < paths.len() && 0 <= s < paths[p].steps@.len() && 0 <= e
                    < paths[p].steps@[s].evidence_ids@.len() ==> carries_evidence(
                    evidence,
                    #[trigger] paths[p].steps@[s].evidence_ids@[e],
                )
        },
{
    let each = path_checks(paths, evidence);
    checks::lemma_first_error_ok(paths.len(), each);
    if checks::first_error(paths.len(), each) is Ok {
        assert forall|i: int, j: int| 0 <= i < j < paths.len() implies (#[trigger] paths[i]).id
            != (#[trigger] paths[j]).id by {
            assert(each(j) is Ok);
            assert(paths.take(j)[i] == paths[i]);
        }
        assert forall|p: int, s: int, e: int|
            0 <= p < paths.len() && 0 <= s < paths[p].steps@.len() && 0 <= e
                < paths[p].steps@[s].evidence_ids@.len() implies carries_evidence(
            evidence,
            #[trigger] paths[p].steps@[s].evidence_ids@[e],
        ) by {
            assert(each(p) is Ok);
            let steps = step_checks(paths[p], evidence);
            checks::lemma_first_error_ok(paths[p].steps@.len(), steps);
            assert(steps(s) is Ok);
            let inner = step_reference_checks(paths[p].id, paths[p].steps@[s], evidence);
            checks::lemma_first_error_ok(paths[p].steps@[s].evidence_ids@.len(), inner);
            assert(inner(e) is Ok);
        }
    }
    if {
        &&& forall|i: int, j: int|
            0 <= i < j < paths.len() ==> (#[trigger] paths[i]).id != (#[trigger] paths[j]).id
        &&& forall|p: int, s: int, e: int|
            0 <= p < paths.len() && 0 <= s < paths[p].steps@.len() && 0 <= e
                < paths[p].steps@[s].evidence_ids@.len() ==> carries_evidence(
                evidence,
                #[trigger] paths[p].steps@[s].evidence_ids@[e],
            )
    } {
        assert forall|p: int| 0 <= p < paths.len() implies (#[trigger] each(p)) is Ok by {
            if carries_path(paths.take(p), paths[p].id) {
                let i = choose|i: int|
                    0 <= i < paths.take(p).len() && (#[trigger] paths.take(p)[i]).id
                        == paths[p].id;
                assert(paths[i].id != paths[p].id);
            }
            let steps = step_checks(paths[p], evidence);
            checks::lemma_first_error_ok(paths[p].steps@.len(), steps);
            assert forall|s: int| 0 <= s < paths[p].steps@.len() implies (
            #[trigger] steps(s)) is Ok by {
                let inner = step_reference_checks(paths[p].id, paths[p].steps@[s], evidence);
                checks::lemma_first_error_ok(paths[p].steps@[s].evidence_ids@.len(), inner);
                assert forall|e: int|
                    0 <= e < paths[p].steps@[s].evidence_ids@.len() implies (
                #[trigger] inner(e)) is Ok by {
                    assert(carries_evidence(evidence, paths[p].steps@[s].evidence_ids@[e]));
                }
            }
        }
    }
}

proof fn lemma_actions(answer: AgentAnswer)
    ensures
        actions_outcome(answer) is Ok <==> {
            &&& answer.suggested_actions@.len() <= 4
            &&& answer.suggested_actions@.no_duplicates()
            &&& forall|k: int|
                0 <= k < answer.suggested_actions@.len() ==> offered(
                    answer,
                    #[trigger] answer.suggested_actions@[k],
                )
        },
{
    let actions = answer.suggested_actions@;
    let each = action_checks(answer);
    checks::lemma_first_error_ok(actions.len(), each);
    if actions_outcome(answer) is Ok {
        assert forall|i: int, j: int| 0 <= i < actions.len() && 0 <= j < actions.len() && i
            != j implies actions[i] != actions[j] by {
            assert(each(i) is Ok);
            assert(each(j) is Ok);
            if i < j {
                assert(actions.take(j)[i] == actions[i]);
            } else {
                assert(actions.take(i)[j] == actions[j]);
            }
        }
        assert forall|k: int| 0 <= k < actions.len() implies offered(
            answer,
            #[trigger] actions[k],
        ) by {
            assert(each(k) is Ok);
        }
    }
    if {
        &&& actions.len() <= 4
        &&& actions.no_duplicates()
        &&& forall|k: int| 0 <= k < actions.len() ==> offered(answer, #[trigger] actions[k])
    } {
        assert forall|k: int| 0 <= k < actions.len() implies (#[trigger] each(k)) is Ok by {
            assert(offered(answer, actions[k]));
            if actions.take(k).contains(actions[k]) {
                let i = choose|i: int|
                    0 <= i < actions.take(k).len() && actions.take(k)[i] == actions[k];
                assert(actions[i] == actions[k]);
            }
        }
    }
}

/// An answer passes validation exactly when it is grounded.
pub proof fn law_validation_accepts_exactly_grounded_answers(answer: AgentAnswer)
    ensures
        answer_outcome(answer) is Ok <==> grounded(answer),
{
    lemma_evidence_distinct(answer.evidence@);
    lemma_claims(answer.claims@, answer.evidence@);
    lemma_paths(answer.call_paths@, answer.evidence@);
    lemma_actions(answer);
    if let DiagramDecision::Needed { diagram, .. } = answer.diagram {
        lemma_diagram(diagram, answer.claims@, answer.evidence@);
    }
}

/// A refusal is confined to the optional diagram exactly when everything before
/// the diagram is in order and the diagram decision is refused.
pub proof fn law_diagram_refusals_are_told_apart(answer: AgentAnswer)
    requires
        answer_outcome(answer) is Err,
    ensures
        !(answer_outcome(answer)->Err_0).concerns_answer() <==> {
            &&& checks::first_error(
                answer.evidence@.len(),
                evidence_checks(answer.evidence@),
            ) is Ok
            &&& checks::first_error(
                answer.claims@.len(),
                claim_checks(answer.claims@, answer.evidence@),
            ) is Ok
            &&& checks::first_error(
                answer.call_paths@.len(),
                path_checks(answer.call_paths@, answer.evidence@),
            ) is Ok
            &&& decision_outcome(answer.diagram, answer.claims@, answer.evidence@) is Err
        },
{
    let evidence = answer.evidence@;
    let claims = answer.claims@;
    let paths = answer.call_paths@;
    if checks::first_error(evidence.len(), evidence_checks(evidence)) is Err {
        let at = checks::lemma_first_error_at(evidence.len(), evidence_checks(evidence));
    } else if checks::first_error(claims.len(), claim_checks(claims, evidence)) is Err {
        let at = checks::lemma_first_error_at(claims.len(), claim_checks(claims, evidence));
        let inner = claim_reference_checks(claims[at], evidence);
        if checks::first_error(claims[at].evidence_ids@.len(), inner) is Err {
            let e = checks::lemma_first_error_at(claims[at].evidence_ids@.len(), inner);
        }
    } else if checks::first_error(paths.len(), path_checks(paths, evidence)) is Err {
        let at = checks::lemma_first_error_at(paths.len(), path_checks(paths, evidence));
        let steps = step_checks(paths[at], evidence);
        if checks::first_error(paths[at].steps@.len(), steps) is Err {
            let s = checks::lemma_first_error_at(paths[at].steps@.len(), steps);
            let inner = step_reference_checks(paths[at].id, paths[at].steps@[s], evidence);
            let e = checks::lemma_first_error_at(paths[at].steps@[s].evidence_ids@.len(), inner);
        }
    } else if decision_outcome(answer.diagram, claims, evidence) is Err {
        if let DiagramDecision::Needed { diagram, .. } = answer.diagram {
            lemma_diagram_refusals(diagram, claims, evidence);
        }
    } else {
        let count = answer.suggested_actions@.len();
        if count <= 4 {
            let at = checks::lemma_first_error_at(count, action_checks(answer));
        }
    }
}

proof fn lemma_diagram_refusals(diagram: Diagram, claims: Seq<Claim>, evidence: Seq<Evidence>)
    ensures
        diagram_outcome(diagram, claims, evidence) matches Err(error) ==> !error.concerns_answer(),
{
    let nodes = diagram.nodes@;
    let edges = diagram.edges@;
    if checks::first_error(nodes.len(), node_checks(nodes)) is Err {
        let at = checks::lemma_first_error_at(nodes.len(), node_checks(nodes));
    }
    if checks::first_error(edges.len(), edge_checks(nodes, edges)) is Err {
        let at = checks::lemma_first_error_at(edges.len(), edge_checks(nodes, edges));
    }
    if checks::first_error(nodes.len(), node_binding_checks(nodes, claims, evidence)) is Err {
        let at = checks::lemma_first_error_at(
            nodes.len(),
            node_binding_checks(nodes, claims, evidence),
        );
    }
    if checks::first_error(edges.len(), edge_binding_checks(edges, claims, evidence)) is Err {
        let at = checks::lemma_first_error_at(
            edges.len(),
            edge_binding_checks(edges, claims, evidence),
        );
    }
}

} // verus!
