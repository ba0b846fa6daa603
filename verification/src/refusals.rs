//! What a refused answer is told is wrong with it.
use crate::checks;
use crate::evidence;
use crate::evidence::{
    AgentAnswer, CallPath, Claim, ClaimKind, Diagram, DiagramBindingError, DiagramDecision,
    Evidence, EvidenceValidationError, SuggestedAction,
};
use crate::id::{CallPathId, ClaimId, EvidenceId};
use crate::text;
use vstd::prelude::*;

verus! {

pub open spec fn no_evidence(evidence: Seq<Evidence>, id: EvidenceId) -> bool {
    forall|i: int| 0 <= i < evidence.len() ==> (#[trigger] evidence[i]).id != id
}

pub open spec fn no_claim(claims: Seq<Claim>, id: ClaimId) -> bool {
    forall|i: int| 0 <= i < claims.len() ==> (#[trigger] claims[i]).id != id
}

pub open spec fn no_path(paths: Seq<CallPath>, id: CallPathId) -> bool {
    forall|i: int| 0 <= i < paths.len() ==> (#[trigger] paths[i]).id != id
}

/// Whether the claim at `i` is the first with an ID.
pub open spec fn is_claim(claims: Seq<Claim>, id: ClaimId, i: int) -> bool {
    &&& 0 <= i < claims.len()
    &&& claims[i].id == id
    &&& forall|j: int| 0 <= j < i ==> (#[trigger] claims[j]).id != id
}

/// Whether the claim with an ID is no fact.
pub open spec fn no_fact(claims: Seq<Claim>, id: ClaimId) -> bool {
    exists|i: int| #[trigger] is_claim(claims, id, i) && claims[i].kind != ClaimKind::Fact
}

/// Whether the claim with an ID cites an evidence.
pub open spec fn cites(claims: Seq<Claim>, id: ClaimId, evidence_id: EvidenceId) -> bool {
    exists|i: int| #[trigger]
        is_claim(claims, id, i) && claims[i].evidence_ids@.contains(evidence_id)
}

/// Whether the value at one index is that at a later one.
pub open spec fn repeated<T>(values: Seq<T>, first: usize, again: usize) -> bool {
    first < again < values.len() && values[first as int] == values[again as int]
}

/// What an error says of a diagram.
pub open spec fn told_of_diagram(
    diagram: Diagram,
    claims: Seq<Claim>,
    evidence: Seq<Evidence>,
    error: EvidenceValidationError,
) -> bool {
    let nodes = diagram.nodes@;
    let edges = diagram.edges@;
    match error {
        EvidenceValidationError::EmptyDiagramTitle => text::all_blank(diagram.title@),
        EvidenceValidationError::InvalidDiagramNodeCount { node_count } => node_count
            == nodes.len() && (node_count < 2 || node_count > 32),
        EvidenceValidationError::InvalidDiagramEdgeCount { edge_count } => edge_count
            == edges.len() && (edge_count < 1 || edge_count > 64),
        EvidenceValidationError::EmptyDiagramNodeId { node_index } => node_index < nodes.len()
            && text::all_blank(nodes[node_index as int].id@),
        EvidenceValidationError::EmptyDiagramNodeLabel { node_index } => node_index < nodes.len()
            && text::all_blank(nodes[node_index as int].label@),
        EvidenceValidationError::DuplicateDiagramNodeId {
            first_node_index,
            duplicate_node_index,
        } => first_node_index < duplicate_node_index < nodes.len()
            && nodes[first_node_index as int].id@ == nodes[duplicate_node_index as int].id@,
        EvidenceValidationError::UnknownDiagramEdgeSource { edge_index } => edge_index
            < edges.len() && (forall|i: int|
            0 <= i < nodes.len() ==> (#[trigger] nodes[i]).id@
                != edges[edge_index as int].source@),
        EvidenceValidationError::UnknownDiagramEdgeTarget { edge_index } => edge_index
            < edges.len() && (forall|i: int|
            0 <= i < nodes.len() ==> (#[trigger] nodes[i]).id@
                != edges[edge_index as int].target@),
        EvidenceValidationError::DiagramNodeWithoutClaims { node_index } => node_index < nodes.len()
            && nodes[node_index as int].claim_ids@.len() == 0,
        EvidenceValidationError::DiagramNodeWithoutEvidence { node_index } => node_index < nodes.len()
            && nodes[node_index as int].evidence_ids@.len() == 0,
        EvidenceValidationError::DuplicateDiagramNodeClaim {
            node_index,
            first_claim_index,
            duplicate_claim_index,
        } => node_index < nodes.len() && repeated(
            nodes[node_index as int].claim_ids@,
            first_claim_index,
            duplicate_claim_index,
        ),
        EvidenceValidationError::DuplicateDiagramNodeEvidence {
            node_index,
            first_evidence_index,
            duplicate_evidence_index,
        } => node_index < nodes.len() && repeated(
            nodes[node_index as int].evidence_ids@,
            first_evidence_index,
            duplicate_evidence_index,
        ),
        EvidenceValidationError::UnknownDiagramNodeClaim { node_index, claim_index } => node_index
            < nodes.len() && claim_index < nodes[node_index as int].claim_ids@.len() && no_claim(
            claims,
            nodes[node_index as int].claim_ids@[claim_index as int],
        ),
        EvidenceValidationError::NonFactDiagramNodeClaim { node_index, claim_index } => node_index
            < nodes.len() && claim_index < nodes[node_index as int].claim_ids@.len() && no_fact(
            claims,
            nodes[node_index as int].claim_ids@[claim_index as int],
        ),
        EvidenceValidationError::UnknownDiagramNodeEvidence { node_index, evidence_index } => node_index
            < nodes.len() && evidence_index < nodes[node_index as int].evidence_ids@.len()
            && no_evidence(
            evidence,
            nodes[node_index as int].evidence_ids@[evidence_index as int],
        ),
        EvidenceValidationError::DiagramNodeClaimWithoutLinkedEvidence {
            node_index,
            claim_index,
        } => node_index < nodes.len() && claim_index < nodes[node_index as int].claim_ids@.len()
            && (forall|e: int|
            0 <= e < nodes[node_index as int].evidence_ids@.len() ==> !cites(
                claims,
                nodes[node_index as int].claim_ids@[claim_index as int],
                #[trigger] nodes[node_index as int].evidence_ids@[e],
            )),
        EvidenceValidationError::DiagramNodeEvidenceNotLinkedToAnyClaim {
            node_index,
            evidence_index,
        } => node_index < nodes.len() && evidence_index
            < nodes[node_index as int].evidence_ids@.len() && (forall|c: int|
            0 <= c < nodes[node_index as int].claim_ids@.len() ==> !cites(
                claims,
                #[trigger] nodes[node_index as int].claim_ids@[c],
                nodes[node_index as int].evidence_ids@[evidence_index as int],
            )),
        EvidenceValidationError::DiagramEdgeWithoutClaims { edge_index } => edge_index < edges.len()
            && edges[edge_index as int].claim_ids@.len() == 0,
        EvidenceValidationError::DiagramEdgeWithoutEvidence { edge_index } => edge_index < edges.len()
            && edges[edge_index as int].evidence_ids@.len() == 0,
        EvidenceValidationError::DuplicateDiagramEdgeClaim {
            edge_index,
            first_claim_index,
            duplicate_claim_index,
        } => edge_index < edges.len() && repeated(
            edges[edge_index as int].claim_ids@,
            first_claim_index,
            duplicate_claim_index,
        ),
        EvidenceValidationError::DuplicateDiagramEdgeEvidence {
            edge_index,
            first_evidence_index,
            duplicate_evidence_index,
        } => edge_index < edges.len() && repeated(
            edges[edge_index as int].evidence_ids@,
            first_evidence_index,
            duplicate_evidence_index,
        ),
        EvidenceValidationError::UnknownDiagramEdgeClaim { edge_index, claim_index } => edge_index
            < edges.len() && claim_index < edges[edge_index as int].claim_ids@.len() && no_claim(
            claims,
            edges[edge_index as int].claim_ids@[claim_index as int],
        ),
        EvidenceValidationError::NonFactDiagramEdgeClaim { edge_index, claim_index } => edge_index
            < edges.len() && claim_index < edges[edge_index as int].claim_ids@.len() && no_fact(
            claims,
            edges[edge_index as int].claim_ids@[claim_index as int],
        ),
        EvidenceValidationError::UnknownDiagramEdgeEvidence { edge_index, evidence_index } => edge_index
            < edges.len() && evidence_index < edges[edge_index as int].evidence_ids@.len()
            && no_evidence(
            evidence,
            edges[edge_index as int].evidence_ids@[evidence_index as int],
        ),
        EvidenceValidationError::DiagramEdgeClaimWithoutLinkedEvidence {
            edge_index,
            claim_index,
        } => edge_index < edges.len() && claim_index < edges[edge_index as int].claim_ids@.len()
            && (forall|e: int|
            0 <= e < edges[edge_index as int].evidence_ids@.len() ==> !cites(
                claims,
                edges[edge_index as int].claim_ids@[claim_index as int],
                #[trigger] edges[edge_index as int].evidence_ids@[e],
            )),
        EvidenceValidationError::DiagramEdgeEvidenceNotLinkedToAnyClaim {
            edge_index,
            evidence_index,
        } => edge_index < edges.len() && evidence_index
            < edges[edge_index as int].evidence_ids@.len() && (forall|c: int|
            0 <= c < edges[edge_index as int].claim_ids@.len() ==> !cites(
                claims,
                #[trigger] edges[edge_index as int].claim_ids@[c],
                edges[edge_index as int].evidence_ids@[evidence_index as int],
            )),
        _ => false,
    }
}

/// What an error says of an answer.
pub open spec fn told_of_answer(answer: AgentAnswer, error: EvidenceValidationError) -> bool {
    let evidence = answer.evidence@;
    let claims = answer.claims@;
    let paths = answer.call_paths@;
    let actions = answer.suggested_actions@;
    match error {
        EvidenceValidationError::FactWithoutEvidence { claim_id } => exists|i: int|
            0 <= i < claims.len() && (#[trigger] claims[i]).id == claim_id && claims[i].kind
                == ClaimKind::Fact && claims[i].evidence_ids@.len() == 0,
        EvidenceValidationError::DuplicateEvidence { evidence_id } => exists|i: int, j: int|
            0 <= i < j < evidence.len() && (#[trigger] evidence[i]).id == evidence_id && (
            #[trigger] evidence[j]).id == evidence_id,
        EvidenceValidationError::DuplicateClaim { claim_id } => exists|i: int, j: int|
            0 <= i < j < claims.len() && (#[trigger] claims[i]).id == claim_id && (
            #[trigger] claims[j]).id == claim_id,
        EvidenceValidationError::DuplicateCallPath { call_path_id } => exists|i: int, j: int|
            0 <= i < j < paths.len() && (#[trigger] paths[i]).id == call_path_id && (
            #[trigger] paths[j]).id == call_path_id,
        EvidenceValidationError::UnknownClaimEvidence { claim_id, evidence_id } => no_evidence(
            evidence,
            evidence_id,
        ) && exists|i: int, e: int|
            0 <= i < claims.len() && claims[i].id == claim_id && 0 <= e
                < claims[i].evidence_ids@.len() && #[trigger] claims[i].evidence_ids@[e]
                == evidence_id,
        EvidenceValidationError::UnknownCallPathEvidence {
            call_path_id,
            evidence_id,
        } => no_evidence(evidence, evidence_id) && exists|p: int, s: int, e: int|
            0 <= p < paths.len() && paths[p].id == call_path_id && 0 <= s < paths[p].steps@.len()
                && 0 <= e < paths[p].steps@[s].evidence_ids@.len()
                && #[trigger] paths[p].steps@[s].evidence_ids@[e] == evidence_id,
        EvidenceValidationError::TooManySuggestedActions { actual } => actual == actions.len()
            && actual > 4,
        EvidenceValidationError::DuplicateSuggestedAction => exists|i: int, j: int|
            0 <= i < j < actions.len() && #[trigger] actions[i] == #[trigger] actions[j],
        EvidenceValidationError::UnknownSuggestedClaim { claim_id } => no_claim(claims, claim_id)
            && actions.contains(SuggestedAction::DeepenClaim { claim_id }),
        EvidenceValidationError::UnknownSuggestedCallPath { call_path_id } => no_path(
            paths,
            call_path_id,
        ) && actions.contains(SuggestedAction::ContinueCallPath { call_path_id }),
        EvidenceValidationError::UnknownSuggestedEvidence { evidence_id } => no_evidence(
            evidence,
            evidence_id,
        ) && (actions.contains(SuggestedAction::ExplainEvidence { evidence_id })
            || actions.contains(SuggestedAction::ShowSource { evidence_id })),
        EvidenceValidationError::EmptyDiagramDecisionReason => match answer.diagram {
            DiagramDecision::NotNeeded { reason } => text::all_blank(reason@),
            DiagramDecision::Needed { reason, .. } => text::all_blank(reason@),
        },
        _ => answer.diagram matches DiagramDecision::Needed { diagram, .. } && told_of_diagram(
            diagram,
            claims,
            evidence,
            error,
        ),
    }
}

/// What a failed binding says of a diagram element.
spec fn told_of_element(
    claim_ids: Seq<ClaimId>,
    evidence_ids: Seq<EvidenceId>,
    claims: Seq<Claim>,
    evidence: Seq<Evidence>,
    error: DiagramBindingError,
) -> bool {
    match error {
        DiagramBindingError::WithoutClaims => claim_ids.len() == 0,
        DiagramBindingError::WithoutEvidence => evidence_ids.len() == 0,
        DiagramBindingError::DuplicateClaim { first_index, duplicate_index } => repeated(
            claim_ids,
            first_index,
            duplicate_index,
        ),
        DiagramBindingError::DuplicateEvidence { first_index, duplicate_index } => repeated(
            evidence_ids,
            first_index,
            duplicate_index,
        ),
        DiagramBindingError::UnknownClaim { claim_index } => claim_index < claim_ids.len()
            && no_claim(claims, claim_ids[claim_index as int]),
        DiagramBindingError::NonFactClaim { claim_index } => claim_index < claim_ids.len()
            && no_fact(claims, claim_ids[claim_index as int]),
        DiagramBindingError::UnknownEvidence { evidence_index } => evidence_index
            < evidence_ids.len() && no_evidence(evidence, evidence_ids[evidence_index as int]),
        DiagramBindingError::ClaimWithoutLinkedEvidence { claim_index } => claim_index
            < claim_ids.len() && (forall|e: int|
            0 <= e < evidence_ids.len() ==> !cites(
                claims,
                claim_ids[claim_index as int],
                #[trigger] evidence_ids[e],
            )),
        DiagramBindingError::EvidenceNotLinkedToAnyClaim { evidence_index } => evidence_index
            < evidence_ids.len() && (forall|c: int|
            0 <= c < claim_ids.len() ==> !cites(
                claims,
                #[trigger] claim_ids[c],
                evidence_ids[evidence_index as int],
            )),
    }
}

/// The claim with an ID.
proof fn lemma_claim_with_id(claims: Seq<Claim>, id: ClaimId)
    ensures
        match evidence::claim_with_id(claims, id) {
            Some(i) => is_claim(claims, id, i),
            None => no_claim(claims, id),
        },
        forall|i: int| #[trigger]
            is_claim(claims, id, i) ==> evidence::claim_with_id(claims, id) == Some(i),
{
    let wanted = evidence::has_claim_id(claims, id);
    checks::lemma_least_index(claims.len(), wanted);
    match evidence::claim_with_id(claims, id) {
        Some(i) => {
            assert(wanted(i));
            assert forall|j: int| 0 <= j < i implies (#[trigger] claims[j]).id != id by {
                assert(!wanted(j));
            }
        },
        None => {
            assert forall|j: int| 0 <= j < claims.len() implies (#[trigger] claims[j]).id
                != id by {
                assert(!wanted(j));
            }
        },
    }
}

proof fn lemma_cites(claims: Seq<Claim>, id: ClaimId, evidence_id: EvidenceId)
    ensures
        cites(claims, id, evidence_id) == evidence::claim_lists(claims, id, evidence_id),
{
    lemma_claim_with_id(claims, id);
}

proof fn lemma_repetition<T>(values: Seq<T>)
    requires
        values.len() <= usize::MAX,
    ensures
        evidence::repetition(values) matches Some(found) ==> repeated(
            values,
            found.0 as usize,
            found.1 as usize,
        ),
{
    let repeats = |k: int| evidence::earlier_equal(values, k) is Some;
    checks::lemma_least_index(values.len(), repeats);
    match evidence::repetition(values) {
        Some(found) => {
            let k = found.1;
            assert(repeats(k));
            checks::lemma_least_index(k as nat, |j: int| values[j] == values[k]);
        },
        None => {},
    }
}

proof fn lemma_element(
    claim_ids: Seq<ClaimId>,
    evidence_ids: Seq<EvidenceId>,
    claims: Seq<Claim>,
    carried: Seq<Evidence>,
)
    requires
        claim_ids.len() <= usize::MAX,
        evidence_ids.len() <= usize::MAX,
    ensures
        evidence::binding_outcome(claim_ids, evidence_ids, claims, carried) matches Err(error)
            ==> told_of_element(claim_ids, evidence_ids, claims, carried, error),
{
    lemma_repetition(claim_ids);
    lemma_repetition(evidence_ids);
    let known = evidence::linked_claim_checks(claim_ids, claims);
    let linked = evidence::linked_evidence_checks(claim_ids, evidence_ids, claims, carried);
    let covered = evidence::covered_claim_checks(claim_ids, evidence_ids, claims);
    if checks::first_error(claim_ids.len(), known) is Err {
        let k = checks::lemma_first_error_at(claim_ids.len(), known);
        lemma_claim_with_id(claims, claim_ids[k]);
        match evidence::claim_with_id(claims, claim_ids[k]) {
            Some(i) => {
                assert(is_claim(claims, claim_ids[k], i));
            },
            None => {},
        }
    }
    if checks::first_error(evidence_ids.len(), linked) is Err {
        let k = checks::lemma_first_error_at(evidence_ids.len(), linked);
        if evidence::carries_evidence(carried, evidence_ids[k]) {
            assert forall|c: int| 0 <= c < claim_ids.len() implies !cites(
                claims,
                #[trigger] claim_ids[c],
                evidence_ids[k],
            ) by {
                lemma_cites(claims, claim_ids[c], evidence_ids[k]);
            }
        }
    }
    if checks::first_error(claim_ids.len(), covered) is Err {
        let k = checks::lemma_first_error_at(claim_ids.len(), covered);
        assert forall|e: int| 0 <= e < evidence_ids.len() implies !cites(
            claims,
            claim_ids[k],
            #[trigger] evidence_ids[e],
        ) by {
            lemma_cites(claims, claim_ids[k], evidence_ids[e]);
        }
    }
}

proof fn lemma_diagram(diagram: Diagram, claims: Seq<Claim>, carried: Seq<Evidence>)
    ensures
        evidence::diagram_outcome(diagram, claims, carried) matches Err(error)
            ==> told_of_diagram(diagram, claims, carried, error),
{
    let nodes = diagram.nodes@;
    let edges = diagram.edges@;
    assert(diagram.nodes.len() == nodes.len() && diagram.edges.len() == edges.len());
    let named = evidence::node_checks(nodes);
    let joined = evidence::edge_checks(nodes, edges);
    let bound = evidence::node_binding_checks(nodes, claims, carried);
    let linked = evidence::edge_binding_checks(edges, claims, carried);
    let ids = evidence::node_ids(nodes);
    if checks::first_error(nodes.len(), named) is Err {
        let k = checks::lemma_first_error_at(nodes.len(), named);
        checks::lemma_least_index(k as nat, |j: int| ids[j] == ids[k]);
    }
    if checks::first_error(edges.len(), joined) is Err {
        let k = checks::lemma_first_error_at(edges.len(), joined);
        assert forall|i: int| 0 <= i < nodes.len() implies ids.contains(
            (#[trigger] nodes[i]).id@,
        ) by {
            assert(ids[i] == nodes[i].id@);
        }
    }
    if checks::first_error(nodes.len(), bound) is Err {
        let k = checks::lemma_first_error_at(nodes.len(), bound);
        assert(nodes[k].claim_ids.len() == nodes[k].claim_ids@.len());
        assert(nodes[k].evidence_ids.len() == nodes[k].evidence_ids@.len());
        lemma_element(nodes[k].claim_ids@, nodes[k].evidence_ids@, claims, carried);
    }
    if checks::first_error(edges.len(), linked) is Err {
        let k = checks::lemma_first_error_at(edges.len(), linked);
        assert(edges[k].claim_ids.len() == edges[k].claim_ids@.len());
        assert(edges[k].evidence_ids.len() == edges[k].evidence_ids@.len());
        lemma_element(edges[k].claim_ids@, edges[k].evidence_ids@, claims, carried);
    }
}

proof fn lemma_claims(answer: AgentAnswer)
    ensures
        ({
            let claims = answer.claims@;
            let carried = answer.evidence@;
            checks::first_error(
                claims.len(),
                evidence::claim_checks(claims, carried),
            ) matches Err(error) ==> told_of_answer(answer, error)
        }),
{
    let claims = answer.claims@;
    let carried = answer.evidence@;
    let each = evidence::claim_checks(claims, carried);
    if checks::first_error(claims.len(), each) is Err {
        let k = checks::lemma_first_error_at(claims.len(), each);
        let claim = claims[k];
        let inner = evidence::claim_reference_checks(claim, carried);
        if claim.unsupported_fact() {
        } else if checks::first_error(claim.evidence_ids@.len(), inner) is Err {
            let e = checks::lemma_first_error_at(claim.evidence_ids@.len(), inner);
            assert(claims[k].evidence_ids@[e] == claim.evidence_ids@[e]);
        } else {
            let i = choose|i: int|
                0 <= i < claims.take(k).len() && (#[trigger] claims.take(k)[i]).id == claim.id;
            assert(claims[i].id == claims[k].id);
        }
    }
}

proof fn lemma_paths(answer: AgentAnswer)
    ensures
        ({
            let paths = answer.call_paths@;
            checks::first_error(
                paths.len(),
                evidence::path_checks(paths, answer.evidence@),
            ) matches Err(error) ==> told_of_answer(answer, error)
        }),
{
    let paths = answer.call_paths@;
    let carried = answer.evidence@;
    let each = evidence::path_checks(paths, carried);
    if checks::first_error(paths.len(), each) is Err {
        let k = checks::lemma_first_error_at(paths.len(), each);
        if evidence::carries_path(paths.take(k), paths[k].id) {
            let i = choose|i: int|
                0 <= i < paths.take(k).len() && (#[trigger] paths.take(k)[i]).id == paths[k].id;
            assert(paths[i].id == paths[k].id);
        } else {
            let steps = evidence::step_checks(paths[k], carried);
            let s = checks::lemma_first_error_at(paths[k].steps@.len(), steps);
            let step = paths[k].steps@[s];
            let inner = evidence::step_reference_checks(paths[k].id, step, carried);
            let e = checks::lemma_first_error_at(step.evidence_ids@.len(), inner);
            assert(paths[k].steps@[s].evidence_ids@[e] == step.evidence_ids@[e]);
        }
    }
}

proof fn lemma_actions(answer: AgentAnswer)
    ensures
        evidence::actions_outcome(answer) matches Err(error) ==> told_of_answer(answer, error),
{
    let actions = answer.suggested_actions@;
    assert(answer.suggested_actions.len() == actions.len());
    let each = evidence::action_checks(answer);
    if actions.len() <= 4 && checks::first_error(actions.len(), each) is Err {
        let k = checks::lemma_first_error_at(actions.len(), each);
        assert(actions.contains(actions[k]));
        if actions.take(k).contains(actions[k]) {
            let i = choose|i: int|
                0 <= i < actions.take(k).len() && actions.take(k)[i] == actions[k];
            assert(actions[i] == actions[k]);
        }
    }
}

/// What a refused answer is told is true of it: the error names what is missing, empty,
/// repeated or too many, and where.
pub proof fn law_refusal_names_what_is_wrong(answer: AgentAnswer)
    ensures
        evidence::answer_outcome(answer) matches Err(error) ==> told_of_answer(answer, error),
{
    let carried = answer.evidence@;
    let claims = answer.claims@;
    let each = evidence::evidence_checks(carried);
    if checks::first_error(carried.len(), each) is Err {
        let k = checks::lemma_first_error_at(carried.len(), each);
        let i = choose|i: int|
            0 <= i < carried.take(k).len() && (#[trigger] carried.take(k)[i]).id == carried[k].id;
        assert(carried[i].id == carried[k].id);
    }
    lemma_claims(answer);
    lemma_paths(answer);
    lemma_actions(answer);
    match answer.diagram {
        DiagramDecision::Needed { diagram, .. } => {
            lemma_diagram(diagram, claims, carried);
        },
        _ => {},
    }
}

} // verus!
