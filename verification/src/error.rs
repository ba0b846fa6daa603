//! What errors tell a reader, and one error for all of them.
use crate::evidence::EvidenceValidationError;
use crate::id;
use crate::id::IdParseError;
use crate::ir::ConfidenceError;
use crate::parser::ParserError;
use crate::path::RepositoryPathError;
use crate::schema::{SchemaError, SchemaVersion};
use crate::source::SourceSpanError;
use crate::text;
use crate::tool::ToolError;
use vstd::prelude::*;

verus! {

/// Convenience error umbrella for consumers that do not need typed failures.
#[derive(Debug)]
pub enum CoreError {
    Id(IdParseError),
    RepositoryPath(RepositoryPathError),
    SourceSpan(SourceSpanError),
    Confidence(ConfidenceError),
    Schema(SchemaError),
    Evidence(EvidenceValidationError),
    Tool(ToolError),
}

impl From<IdParseError> for CoreError {
    fn from(error: IdParseError) -> (whole: CoreError) {
        CoreError::Id(error)
    }
}

impl vstd::std_specs::convert::FromSpecImpl<IdParseError> for CoreError {
    open spec fn obeys_from_spec() -> bool {
        true
    }

    open spec fn from_spec(error: IdParseError) -> CoreError {
        CoreError::Id(error)
    }
}

impl From<RepositoryPathError> for CoreError {
    fn from(error: RepositoryPathError) -> (whole: CoreError) {
        CoreError::RepositoryPath(error)
    }
}

impl vstd::std_specs::convert::FromSpecImpl<RepositoryPathError> for CoreError {
    open spec fn obeys_from_spec() -> bool {
        true
    }

    open spec fn from_spec(error: RepositoryPathError) -> CoreError {
        CoreError::RepositoryPath(error)
    }
}

impl From<SourceSpanError> for CoreError {
    fn from(error: SourceSpanError) -> (whole: CoreError) {
        CoreError::SourceSpan(error)
    }
}

impl vstd::std_specs::convert::FromSpecImpl<SourceSpanError> for CoreError {
    open spec fn obeys_from_spec() -> bool {
        true
    }

    open spec fn from_spec(error: SourceSpanError) -> CoreError {
        CoreError::SourceSpan(error)
    }
}

impl From<ConfidenceError> for CoreError {
    fn from(error: ConfidenceError) -> (whole: CoreError) {
        CoreError::Confidence(error)
    }
}

impl vstd::std_specs::convert::FromSpecImpl<ConfidenceError> for CoreError {
    open spec fn obeys_from_spec() -> bool {
        true
    }

    open spec fn from_spec(error: ConfidenceError) -> CoreError {
        CoreError::Confidence(error)
    }
}

impl From<SchemaError> for CoreError {
    fn from(error: SchemaError) -> (whole: CoreError) {
        CoreError::Schema(error)
    }
}

impl vstd::std_specs::convert::FromSpecImpl<SchemaError> for CoreError {
    open spec fn obeys_from_spec() -> bool {
        true
    }

    open spec fn from_spec(error: SchemaError) -> CoreError {
        CoreError::Schema(error)
    }
}

impl From<EvidenceValidationError> for CoreError {
    fn from(error: EvidenceValidationError) -> (whole: CoreError) {
        CoreError::Evidence(error)
    }
}

impl vstd::std_specs::convert::FromSpecImpl<EvidenceValidationError> for CoreError {
    open spec fn obeys_from_spec() -> bool {
        true
    }

    open spec fn from_spec(error: EvidenceValidationError) -> CoreError {
        CoreError::Evidence(error)
    }
}

impl From<ToolError> for CoreError {
    fn from(error: ToolError) -> (whole: CoreError) {
        CoreError::Tool(error)
    }
}

impl vstd::std_specs::convert::FromSpecImpl<ToolError> for CoreError {
    open spec fn obeys_from_spec() -> bool {
        true
    }

    open spec fn from_spec(error: ToolError) -> CoreError {
        CoreError::Tool(error)
    }
}

impl EvidenceValidationError {
    /// What the error tells a reader.
    pub open spec fn message_text(self) -> Seq<char> {
        match self {
            EvidenceValidationError::FactWithoutEvidence { claim_id } => "fact claim "@
                + id::id_text(claim_id.value) + " has no evidence"@,
            EvidenceValidationError::DuplicateEvidence { evidence_id } => "evidence "@
                + id::id_text(evidence_id.value) + " occurs more than once"@,
            EvidenceValidationError::DuplicateClaim { claim_id } => "claim "@
                + id::id_text(claim_id.value) + " occurs more than once"@,
            EvidenceValidationError::DuplicateCallPath { call_path_id } => "call path "@
                + id::id_text(call_path_id.value) + " occurs more than once"@,
            EvidenceValidationError::UnknownClaimEvidence { claim_id, evidence_id } => "claim "@
                + id::id_text(claim_id.value) + " refers to unknown evidence "@
                + id::id_text(evidence_id.value),
            EvidenceValidationError::UnknownCallPathEvidence { call_path_id, evidence_id } =>
                "call path "@ + id::id_text(call_path_id.value) + " refers to unknown evidence "@
                + id::id_text(evidence_id.value),
            EvidenceValidationError::TooManySuggestedActions { actual } => "answer offers "@
                + text::decimal(actual as nat) + " suggested actions; at most 4 are allowed"@,
            EvidenceValidationError::DuplicateSuggestedAction =>
                "answer offers the same suggested action more than once"@,
            EvidenceValidationError::UnknownSuggestedClaim { claim_id } =>
                "suggested action refers to unknown claim "@ + id::id_text(claim_id.value),
            EvidenceValidationError::UnknownSuggestedCallPath { call_path_id } =>
                "suggested action refers to unknown call path "@ + id::id_text(call_path_id.value),
            EvidenceValidationError::UnknownSuggestedEvidence { evidence_id } =>
                "suggested action refers to unknown evidence "@ + id::id_text(evidence_id.value),
            EvidenceValidationError::EmptyDiagramDecisionReason =>
                "diagram decision reason must not be empty"@,
            EvidenceValidationError::EmptyDiagramTitle => "diagram title must not be empty"@,
            EvidenceValidationError::InvalidDiagramNodeCount { node_count } =>
                "diagram must contain 2..=32 nodes, got "@ + text::decimal(node_count as nat),
            EvidenceValidationError::InvalidDiagramEdgeCount { edge_count } =>
                "diagram must contain 1..=64 edges, got "@ + text::decimal(edge_count as nat),
            EvidenceValidationError::EmptyDiagramNodeId { node_index } => "diagram node at index "@
                + text::decimal(node_index as nat) + " has an empty ID"@,
            EvidenceValidationError::EmptyDiagramNodeLabel { node_index } =>
                "diagram node at index "@ + text::decimal(node_index as nat)
                + " has an empty label"@,
            EvidenceValidationError::DuplicateDiagramNodeId { first_node_index, duplicate_node_index } =>
                "diagram node at index "@ + text::decimal(duplicate_node_index as nat)
                + " duplicates the ID of node at index "@ + text::decimal(first_node_index as nat),
            EvidenceValidationError::UnknownDiagramEdgeSource { edge_index } =>
                "diagram edge at index "@ + text::decimal(edge_index as nat)
                + " has an unknown source node"@,
            EvidenceValidationError::UnknownDiagramEdgeTarget { edge_index } =>
                "diagram edge at index "@ + text::decimal(edge_index as nat)
                + " has an unknown target node"@,
            EvidenceValidationError::DiagramNodeWithoutClaims { node_index } =>
                "diagram node at index "@ + text::decimal(node_index as nat)
                + " must link at least one claim"@,
            EvidenceValidationError::DiagramNodeWithoutEvidence { node_index } =>
                "diagram node at index "@ + text::decimal(node_index as nat)
                + " must link at least one evidence record"@,
            EvidenceValidationError::DuplicateDiagramNodeClaim {
                node_index,
                first_claim_index,
                duplicate_claim_index,
            } =>
                "diagram node at index "@ + text::decimal(node_index as nat) + " claim at index "@
                + text::decimal(duplicate_claim_index as nat) + " duplicates claim at index "@
                + text::decimal(first_claim_index as nat),
            EvidenceValidationError::DuplicateDiagramNodeEvidence {
                node_index,
                first_evidence_index,
                duplicate_evidence_index,
            } =>
                "diagram node at index "@ + text::decimal(node_index as nat)
                + " evidence at index "@ + text::decimal(duplicate_evidence_index as nat)
                + " duplicates evidence at index "@ + text::decimal(first_evidence_index as nat),
            EvidenceValidationError::UnknownDiagramNodeClaim { node_index, claim_index } =>
                "diagram node at index "@ + text::decimal(node_index as nat)
                + " refers to an unknown claim at index "@ + text::decimal(claim_index as nat),
            EvidenceValidationError::NonFactDiagramNodeClaim { node_index, claim_index } =>
                "diagram node at index "@ + text::decimal(node_index as nat)
                + " refers to a non-fact claim at index "@ + text::decimal(claim_index as nat),
            EvidenceValidationError::UnknownDiagramNodeEvidence { node_index, evidence_index } =>
                "diagram node at index "@ + text::decimal(node_index as nat)
                + " refers to unknown evidence at index "@ + text::decimal(evidence_index as nat),
            EvidenceValidationError::DiagramNodeClaimWithoutLinkedEvidence { node_index, claim_index } =>
                "diagram node at index "@ + text::decimal(node_index as nat) + " claim at index "@
                + text::decimal(claim_index as nat) + " has no linked element evidence"@,
            EvidenceValidationError::DiagramNodeEvidenceNotLinkedToAnyClaim {
                node_index,
                evidence_index,
            } =>
                "diagram node at index "@ + text::decimal(node_index as nat)
                + " evidence at index "@ + text::decimal(evidence_index as nat)
                + " is not linked to any element claim"@,
            EvidenceValidationError::DiagramEdgeWithoutClaims { edge_index } =>
                "diagram edge at index "@ + text::decimal(edge_index as nat)
                + " must link at least one claim"@,
            EvidenceValidationError::DiagramEdgeWithoutEvidence { edge_index } =>
                "diagram edge at index "@ + text::decimal(edge_index as nat)
                + " must link at least one evidence record"@,
            EvidenceValidationError::DuplicateDiagramEdgeClaim {
                edge_index,
                first_claim_index,
                duplicate_claim_index,
            } =>
                "diagram edge at index "@ + text::decimal(edge_index as nat) + " claim at index "@
                + text::decimal(duplicate_claim_index as nat) + " duplicates claim at index "@
                + text::decimal(first_claim_index as nat),
            EvidenceValidationError::DuplicateDiagramEdgeEvidence {
                edge_index,
                first_evidence_index,
                duplicate_evidence_index,
            } =>
                "diagram edge at index "@ + text::decimal(edge_index as nat)
                + " evidence at index "@ + text::decimal(duplicate_evidence_index as nat)
                + " duplicates evidence at index "@ + text::decimal(first_evidence_index as nat),
            EvidenceValidationError::UnknownDiagramEdgeClaim { edge_index, claim_index } =>
                "diagram edge at index "@ + text::decimal(edge_index as nat)
                + " refers to an unknown claim at index "@ + text::decimal(claim_index as nat),
            EvidenceValidationError::NonFactDiagramEdgeClaim { edge_index, claim_index } =>
                "diagram edge at index "@ + text::decimal(edge_index as nat)
                + " refers to a non-fact claim at index "@ + text::decimal(claim_index as nat),
            EvidenceValidationError::UnknownDiagramEdgeEvidence { edge_index, evidence_index } =>
                "diagram edge at index "@ + text::decimal(edge_index as nat)
                + " refers to unknown evidence at index "@ + text::decimal(evidence_index as nat),
            EvidenceValidationError::DiagramEdgeClaimWithoutLinkedEvidence { edge_index, claim_index } =>
                "diagram edge at index "@ + text::decimal(edge_index as nat) + " claim at index "@
                + text::decimal(claim_index as nat) + " has no linked element evidence"@,
            EvidenceValidationError::DiagramEdgeEvidenceNotLinkedToAnyClaim {
                edge_index,
                evidence_index,
            } =>
                "diagram edge at index "@ + text::decimal(edge_index as nat)
                + " evidence at index "@ + text::decimal(evidence_index as nat)
                + " is not linked to any element claim"@,
        }
    }

    #[verifier::rlimit(40)]
    pub fn to_string(&self) -> (message: String)
        ensures
            message@ == self.message_text(),
    {
        match self {
            EvidenceValidationError::FactWithoutEvidence { claim_id } => {
                let mut message = "fact claim ".to_owned();
                let shown_claim_id = claim_id.to_string();
                message.push_str(shown_claim_id.as_str());
                message.push_str(" has no evidence");
                message
            },
            EvidenceValidationError::DuplicateEvidence { evidence_id } => {
                let mut message = "evidence ".to_owned();
                let shown_evidence_id = evidence_id.to_string();
                message.push_str(shown_evidence_id.as_str());
                message.push_str(" occurs more than once");
                message
            },
            EvidenceValidationError::DuplicateClaim { claim_id } => {
                let mut message = "claim ".to_owned();
                let shown_claim_id = claim_id.to_string();
                message.push_str(shown_claim_id.as_str());
                message.push_str(" occurs more than once");
                message
            },
            EvidenceValidationError::DuplicateCallPath { call_path_id } => {
                let mut message = "call path ".to_owned();
                let shown_call_path_id = call_path_id.to_string();
                message.push_str(shown_call_path_id.as_str());
                message.push_str(" occurs more than once");
                message
            },
            EvidenceValidationError::UnknownClaimEvidence { claim_id, evidence_id } => {
                let mut message = "claim ".to_owned();
                let shown_claim_id = claim_id.to_string();
                message.push_str(shown_claim_id.as_str());
                message.push_str(" refers to unknown evidence ");
                let shown_evidence_id = evidence_id.to_string();
                message.push_str(shown_evidence_id.as_str());
                message
            },
            EvidenceValidationError::UnknownCallPathEvidence { call_path_id, evidence_id } => {
                let mut message = "call path ".to_owned();
                let shown_call_path_id = call_path_id.to_string();
                message.push_str(shown_call_path_id.as_str());
                message.push_str(" refers to unknown evidence ");
                let shown_evidence_id = evidence_id.to_string();
                message.push_str(shown_evidence_id.as_str());
                message
            },
            EvidenceValidationError::TooManySuggestedActions { actual } => {
                let mut message = "answer offers ".to_owned();
                text::push_decimal(&mut message, *actual as u64);
                message.push_str(" suggested actions; at most 4 are allowed");
                message
            },
            EvidenceValidationError::DuplicateSuggestedAction =>
                "answer offers the same suggested action more than once".to_owned(),
            EvidenceValidationError::UnknownSuggestedClaim { claim_id } => {
                let mut message = "suggested action refers to unknown claim ".to_owned();
                let shown_claim_id = claim_id.to_string();
                message.push_str(shown_claim_id.as_str());
                message
            },
            EvidenceValidationError::UnknownSuggestedCallPath { call_path_id } => {
                let mut message = "suggested action refers to unknown call path ".to_owned();
                let shown_call_path_id = call_path_id.to_string();
                message.push_str(shown_call_path_id.as_str());
                message
            },
            EvidenceValidationError::UnknownSuggestedEvidence { evidence_id } => {
                let mut message = "suggested action refers to unknown evidence ".to_owned();
                let shown_evidence_id = evidence_id.to_string();
                message.push_str(shown_evidence_id.as_str());
                message
            },
            EvidenceValidationError::EmptyDiagramDecisionReason =>
                "diagram decision reason must not be empty".to_owned(),
            EvidenceValidationError::EmptyDiagramTitle => "diagram title must not be empty".to_owned(),
            EvidenceValidationError::InvalidDiagramNodeCount { node_count } => {
                let mut message = "diagram must contain 2..=32 nodes, got ".to_owned();
                text::push_decimal(&mut message, *node_count as u64);
                message
            },
            EvidenceValidationError::InvalidDiagramEdgeCount { edge_count } => {
                let mut message = "diagram must contain 1..=64 edges, got ".to_owned();
                text::push_decimal(&mut message, *edge_count as u64);
                message
            },
            EvidenceValidationError::EmptyDiagramNodeId { node_index } => {
                let mut message = "diagram node at index ".to_owned();
                text::push_decimal(&mut message, *node_index as u64);
                message.push_str(" has an empty ID");
                message
            },
            EvidenceValidationError::EmptyDiagramNodeLabel { node_index } => {
                let mut message = "diagram node at index ".to_owned();
                text::push_decimal(&mut message, *node_index as u64);
                message.push_str(" has an empty label");
                message
            },
            EvidenceValidationError::DuplicateDiagramNodeId { first_node_index, duplicate_node_index } => {
                let mut message = "diagram node at index ".to_owned();
                text::push_decimal(&mut message, *duplicate_node_index as u64);
                message.push_str(" duplicates the ID of node at index ");
                text::push_decimal(&mut message, *first_node_index as u64);
                message
            },
            EvidenceValidationError::UnknownDiagramEdgeSource { edge_index } => {
                let mut message = "diagram edge at index ".to_owned();
                text::push_decimal(&mut message, *edge_index as u64);
                message.push_str(" has an unknown source node");
                message
            },
            EvidenceValidationError::UnknownDiagramEdgeTarget { edge_index } => {
                let mut message = "diagram edge at index ".to_owned();
                text::push_decimal(&mut message, *edge_index as u64);
                message.push_str(" has an unknown target node");
                message
            },
            EvidenceValidationError::DiagramNodeWithoutClaims { node_index } => {
                let mut message = "diagram node at index ".to_owned();
                text::push_decimal(&mut message, *node_index as u64);
                message.push_str(" must link at least one claim");
                message
            },
            EvidenceValidationError::DiagramNodeWithoutEvidence { node_index } => {
                let mut message = "diagram node at index ".to_owned();
                text::push_decimal(&mut message, *node_index as u64);
                message.push_str(" must link at least one evidence record");
                message
            },
            EvidenceValidationError::DuplicateDiagramNodeClaim { node_index, first_claim_index, duplicate_claim_index } => {
                let mut message = "diagram node at index ".to_owned();
                text::push_decimal(&mut message, *node_index as u64);
                message.push_str(" claim at index ");
                text::push_decimal(&mut message, *duplicate_claim_index as u64);
                message.push_str(" duplicates claim at index ");
                text::push_decimal(&mut message, *first_claim_index as u64);
                message
            },
            EvidenceValidationError::DuplicateDiagramNodeEvidence { node_index, first_evidence_index, duplicate_evidence_index } => {
                let mut message = "diagram node at index ".to_owned();
                text::push_decimal(&mut message, *node_index as u64);
                message.push_str(" evidence at index ");
                text::push_decimal(&mut message, *duplicate_evidence_index as u64);
                message.push_str(" duplicates evidence at index ");
                text::push_decimal(&mut message, *first_evidence_index as u64);
                message
            },
            EvidenceValidationError::UnknownDiagramNodeClaim { node_index, claim_index } => {
                let mut message = "diagram node at index ".to_owned();
                text::push_decimal(&mut message, *node_index as u64);
                message.push_str(" refers to an unknown claim at index ");
                text::push_decimal(&mut message, *claim_index as u64);
                message
            },
            EvidenceValidationError::NonFactDiagramNodeClaim { node_index, claim_index } => {
                let mut message = "diagram node at index ".to_owned();
                text::push_decimal(&mut message, *node_index as u64);
                message.push_str(" refers to a non-fact claim at index ");
                text::push_decimal(&mut message, *claim_index as u64);
                message
            },
            EvidenceValidationError::UnknownDiagramNodeEvidence { node_index, evidence_index } => {
                let mut message = "diagram node at index ".to_owned();
                text::push_decimal(&mut message, *node_index as u64);
                message.push_str(" refers to unknown evidence at index ");
                text::push_decimal(&mut message, *evidence_index as u64);
                message
            },
            EvidenceValidationError::DiagramNodeClaimWithoutLinkedEvidence { node_index, claim_index } => {
                let mut message = "diagram node at index ".to_owned();
                text::push_decimal(&mut message, *node_index as u64);
                message.push_str(" claim at index ");
                text::push_decimal(&mut message, *claim_index as u64);
                message.push_str(" has no linked element evidence");
                message
            },
            EvidenceValidationError::DiagramNodeEvidenceNotLinkedToAnyClaim { node_index, evidence_index } => {
                let mut message = "diagram node at index ".to_owned();
                text::push_decimal(&mut message, *node_index as u64);
                message.push_str(" evidence at index ");
                text::push_decimal(&mut message, *evidence_index as u64);
                message.push_str(" is not linked to any element claim");
                message
            },
            EvidenceValidationError::DiagramEdgeWithoutClaims { edge_index } => {
                let mut message = "diagram edge at index ".to_owned();
                text::push_decimal(&mut message, *edge_index as u64);
                message.push_str(" must link at least one claim");
                message
            },
            EvidenceValidationError::DiagramEdgeWithoutEvidence { edge_index } => {
                let mut message = "diagram edge at index ".to_owned();
                text::push_decimal(&mut message, *edge_index as u64);
                message.push_str(" must link at least one evidence record");
                message
            },
            EvidenceValidationError::DuplicateDiagramEdgeClaim { edge_index, first_claim_index, duplicate_claim_index } => {
                let mut message = "diagram edge at index ".to_owned();
                text::push_decimal(&mut message, *edge_index as u64);
                message.push_str(" claim at index ");
                text::push_decimal(&mut message, *duplicate_claim_index as u64);
                message.push_str(" duplicates claim at index ");
                text::push_decimal(&mut message, *first_claim_index as u64);
                message
            },
            EvidenceValidationError::DuplicateDiagramEdgeEvidence { edge_index, first_evidence_index, duplicate_evidence_index } => {
                let mut message = "diagram edge at index ".to_owned();
                text::push_decimal(&mut message, *edge_index as u64);
                message.push_str(" evidence at index ");
                text::push_decimal(&mut message, *duplicate_evidence_index as u64);
                message.push_str(" duplicates evidence at index ");
                text::push_decimal(&mut message, *first_evidence_index as u64);
                message
            },
            EvidenceValidationError::UnknownDiagramEdgeClaim { edge_index, claim_index } => {
                let mut message = "diagram edge at index ".to_owned();
                text::push_decimal(&mut message, *edge_index as u64);
                message.push_str(" refers to an unknown claim at index ");
                text::push_decimal(&mut message, *claim_index as u64);
                message
            },
            EvidenceValidationError::NonFactDiagramEdgeClaim { edge_index, claim_index } => {
                let mut message = "diagram edge at index ".to_owned();
                text::push_decimal(&mut message, *edge_index as u64);
                message.push_str(" refers to a non-fact claim at index ");
                text::push_decimal(&mut message, *claim_index as u64);
                message
            },
            EvidenceValidationError::UnknownDiagramEdgeEvidence { edge_index, evidence_index } => {
                let mut message = "diagram edge at index ".to_owned();
                text::push_decimal(&mut message, *edge_index as u64);
                message.push_str(" refers to unknown evidence at index ");
                text::push_decimal(&mut message, *evidence_index as u64);
                message
            },
            EvidenceValidationError::DiagramEdgeClaimWithoutLinkedEvidence { edge_index, claim_index } => {
                let mut message = "diagram edge at index ".to_owned();
                text::push_decimal(&mut message, *edge_index as u64);
                message.push_str(" claim at index ");
                text::push_decimal(&mut message, *claim_index as u64);
                message.push_str(" has no linked element evidence");
                message
            },
            EvidenceValidationError::DiagramEdgeEvidenceNotLinkedToAnyClaim { edge_index, evidence_index } => {
                let mut message = "diagram edge at index ".to_owned();
                text::push_decimal(&mut message, *edge_index as u64);
                message.push_str(" evidence at index ");
                text::push_decimal(&mut message, *evidence_index as u64);
                message.push_str(" is not linked to any element claim");
                message
            },
        }
    }
}

/// How a schema version is shown to a developer.
pub open spec fn version_text(version: SchemaVersion) -> Seq<char> {
    "SchemaVersion("@ + text::decimal(version.value as nat) + ")"@
}

fn push_version(message: &mut String, version: SchemaVersion)
    ensures
        final(message)@ == old(message)@ + version_text(version),
{
    message.push_str("SchemaVersion(");
    text::push_decimal(message, version.value as u64);
    message.push_str(")");
    assert(message@ =~= old(message)@ + version_text(version));
}

impl SchemaError {
    /// What the error tells a reader.
    pub open spec fn message_text(self) -> Seq<char> {
        match self {
            SchemaError::Unsupported { expected, actual } => "unsupported schema version "@
                + version_text(actual) + "; expected "@ + version_text(expected),
        }
    }

    pub fn to_string(&self) -> (message: String)
        ensures
            message@ == self.message_text(),
    {
        match self {
            SchemaError::Unsupported { expected, actual } => {
                let mut message = "unsupported schema version ".to_owned();
                push_version(&mut message, *actual);
                message.push_str("; expected ");
                push_version(&mut message, *expected);
                message
            },
        }
    }
}

impl ToolError {
    /// What the error tells a reader.
    pub open spec fn message_text(self) -> Seq<char> {
        match self {
            ToolError::NotFound { name } => "unknown tool: "@ + name@,
            ToolError::InvalidArguments { name, message } => "invalid arguments for tool "@ + name@
                + ": "@ + message@,
            ToolError::Execution { name, message } => "tool "@ + name@ + " failed: "@ + message@,
            ToolError::Cancelled => "tool call was cancelled"@,
        }
    }

    pub fn to_string(&self) -> (shown: String)
        ensures
            shown@ == self.message_text(),
    {
        match self {
            ToolError::NotFound { name } => {
                let mut shown = "unknown tool: ".to_owned();
                shown.push_str(name.as_str());
                shown
            },
            ToolError::InvalidArguments { name, message } => {
                let mut shown = "invalid arguments for tool ".to_owned();
                shown.push_str(name.as_str());
                shown.push_str(": ");
                shown.push_str(message.as_str());
                shown
            },
            ToolError::Execution { name, message } => {
                let mut shown = "tool ".to_owned();
                shown.push_str(name.as_str());
                shown.push_str(" failed: ");
                shown.push_str(message.as_str());
                shown
            },
            ToolError::Cancelled => "tool call was cancelled".to_owned(),
        }
    }
}

impl ParserError {
    /// What the error tells a reader.
    pub open spec fn message_text(self) -> Seq<char> {
        "failed to parse "@ + self.path@ + ": "@ + self.message@
    }

    pub fn to_string(&self) -> (shown: String)
        ensures
            shown@ == self.message_text(),
    {
        let mut shown = "failed to parse ".to_owned();
        shown.push_str(self.path.as_str());
        shown.push_str(": ");
        shown.push_str(self.message.as_str());
        shown
    }
}

impl IdParseError {
    /// What the error tells a reader.
    pub open spec fn message_text(self) -> Seq<char> {
        match self {
            IdParseError::InvalidLength { expected, actual } => "stable ID must contain "@
                + text::decimal(expected as nat) + " hexadecimal characters, got "@
                + text::decimal(actual as nat),
            IdParseError::InvalidCharacter { index, character } => "invalid hexadecimal character "@
                + text::debug_char(character) + " at stable ID offset "@ + text::decimal(
                index as nat,
            ),
        }
    }

    pub fn to_string(&self) -> (message: String)
        ensures
            message@ == self.message_text(),
    {
        match self {
            IdParseError::InvalidLength { expected, actual } => {
                let mut message = "stable ID must contain ".to_owned();
                text::push_decimal(&mut message, *expected as u64);
                message.push_str(" hexadecimal characters, got ");
                text::push_decimal(&mut message, *actual as u64);
                message
            },
            IdParseError::InvalidCharacter { index, character } => {
                let mut message = "invalid hexadecimal character ".to_owned();
                let shown = text::quoted_char(*character);
                message.push_str(shown.as_str());
                message.push_str(" at stable ID offset ");
                text::push_decimal(&mut message, *index as u64);
                message
            },
        }
    }
}

} // verus!
