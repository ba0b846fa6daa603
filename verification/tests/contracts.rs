//! Identities, paths, spans and the rules of grounded answers.
use codeatlas::error::CoreError;
use codeatlas::evidence::{
    AgentAnswer, CallPath, CallPathStep, Claim, ClaimKind, Diagram, DiagramArtifact,
    DiagramDecision, DiagramEdge, DiagramKind, DiagramNode, Evidence, EvidenceValidationError,
    SuggestedAction,
};
use codeatlas::explanation::{ExplanationAudience, ExplanationDepth, ExplanationProfile};
use codeatlas::id::{
    AnswerId, CallEdgeId, CallPathId, ClaimId, DiagramId, EvidenceId, FileId, IdParseError,
    RepositoryId, SymbolId,
};
use codeatlas::ir::{
    CallEdge, Confidence, FileInfo, Language, RepositoryModel, Symbol, SymbolKind,
    TargetResolution, UnresolvedTarget,
};
use codeatlas::parser::ParserError;
use codeatlas::path::{RepositoryPath, RepositoryPathError};
use codeatlas::schema::{SchemaError, SchemaVersion};
use codeatlas::source::{SourcePosition, SourceSpan, SourceSpanError};
use codeatlas::text::signed_text;
use codeatlas::tool::ToolError;

fn id_parts() -> [&'static str; 3] {
    ["src/lib.rs", "function", "codeatlas_core::run"]
}

fn path(value: &str) -> RepositoryPath {
    RepositoryPath::new(value.to_owned()).expect("canonical path")
}

#[test]
fn validation_errors_distinguish_optional_diagram_failures() {
    assert!(EvidenceValidationError::EmptyDiagramTitle.is_diagram_error());
    assert!(
        EvidenceValidationError::DiagramNodeClaimWithoutLinkedEvidence {
            node_index: 3,
            claim_index: 1,
        }
        .is_diagram_error()
    );
    assert!(
        !EvidenceValidationError::FactWithoutEvidence {
            claim_id: ClaimId::from_stable_parts(&["strict-fact"]),
        }
        .is_diagram_error()
    );
}

fn diagram_answer(kind: DiagramKind) -> AgentAnswer {
    let evidence = Evidence {
        id: EvidenceId::from_stable_parts(&["diagram", "evidence"]),
        file_id: FileId::from_stable_parts(&["src/lib.rs"]),
        path: path("src/lib.rs"),
        span: SourceSpan::new(1, 0, 3, 1).expect("valid source span"),
        symbol_id: Some(SymbolId::from_stable_parts(&["diagram", "symbol"])),
        excerpt: Some("fn run() { service(); }".to_owned()),
    };
    let evidence_id = evidence.id;
    let claim_id = ClaimId::from_stable_parts(&["diagram", "claim"]);
    let node = |id: &str, label: &str| DiagramNode {
        id: id.to_owned(),
        label: label.to_owned(),
        claim_ids: vec![claim_id],
        evidence_ids: vec![evidence_id],
    };

    AgentAnswer {
        id: AnswerId::from_stable_parts(&["diagram", "answer"]),
        text: "The runtime delegates to the service.".to_owned(),
        claims: vec![Claim {
            id: claim_id,
            kind: ClaimKind::Fact,
            text: "The runtime delegates to the service.".to_owned(),
            evidence_ids: vec![evidence_id],
        }],
        evidence: vec![evidence],
        call_paths: Vec::new(),
        diagram: DiagramDecision::Needed {
            reason: "The interaction is easier to follow visually.".to_owned(),
            diagram: Diagram {
                kind,
                title: "Runtime delegation".to_owned(),
                nodes: vec![node("runtime", "Runtime"), node("service", "Service")],
                edges: vec![DiagramEdge {
                    source: "runtime".to_owned(),
                    target: "service".to_owned(),
                    label: "delegates".to_owned(),
                    claim_ids: vec![claim_id],
                    evidence_ids: vec![evidence_id],
                }],
                artifact: Some(DiagramArtifact {
                    id: DiagramId::from_stable_parts(&["diagram", "artifact"]),
                    path: "artifacts/runtime.svg".to_owned(),
                    media_type: "image/svg+xml".to_owned(),
                    byte_size: 512,
                }),
            },
        },
        suggested_actions: Vec::new(),
        usage: None,
    }
}

fn answer_diagram_mut(answer: &mut AgentAnswer) -> &mut Diagram {
    let DiagramDecision::Needed { diagram, .. } = &mut answer.diagram else {
        panic!("test answer should require a diagram");
    };
    diagram
}

#[test]
fn stable_ids_are_deterministic_and_namespaced() {
    let first = SymbolId::from_stable_parts(&id_parts());
    let second = SymbolId::from_stable_parts(&id_parts());
    let file = FileId::from_stable_parts(&id_parts());

    assert_eq!(first, second);
    assert_eq!(first.to_string(), "2ea8cb278da7e841842a5c8659723cf8");
    assert_ne!(first.to_string(), file.to_string());

    let encoded = serde_json::to_string(&first.to_string()).expect("ID should serialize");
    let decoded: String = serde_json::from_str(&encoded).expect("ID should deserialize");
    assert_eq!(SymbolId::parse(&decoded), Ok(first));
}

#[test]
fn ids_are_read_from_thirty_two_hexadecimal_digits() {
    assert_eq!(
        SymbolId::parse("2ea8cb278da7e841842a5c8659723cf8").map(|id| id.to_string()),
        Ok("2ea8cb278da7e841842a5c8659723cf8".to_owned())
    );
    assert_eq!(
        FileId::parse("2ea8"),
        Err(IdParseError::InvalidLength { expected: 32, actual: 4 })
    );
    assert_eq!(
        SymbolId::parse("2EA8CB278DA7E841842A5C8659723CF8"),
        SymbolId::parse("2ea8cb278da7e841842a5c8659723cf8")
    );
    assert_eq!(
        SymbolId::parse("2xa8cb278da7e841842a5c8659723cf8"),
        Err(IdParseError::InvalidCharacter { index: 1, character: 'x' })
    );
    let refused = SymbolId::parse("2\na8cb278da7e841842a5c8659723cf8").expect_err("no digit");
    assert_eq!(
        refused,
        IdParseError::InvalidCharacter { index: 1, character: '\n' }
    );
    assert!(refused.to_string().contains("'\\n'"));
    let zero = "00000000000000000000000000000000";
    assert_eq!(RepositoryId::parse(zero).map(|id| id.to_string()), Ok(zero.to_owned()));
}

#[test]
fn parts_of_an_identity_are_not_run_together() {
    assert_ne!(
        ClaimId::from_stable_parts(&["ab", "c"]),
        ClaimId::from_stable_parts(&["a", "bc"])
    );
    assert_ne!(
        ClaimId::from_stable_parts(&["abc"]),
        ClaimId::from_stable_parts(&["abc", ""])
    );
}

#[test]
fn source_span_validates_bounds_and_deserialization() {
    let span = SourceSpan::new(1, 0, 2, 4).expect("valid source span");
    assert_eq!(span.start().line(), 1);
    assert_eq!(span.start().column(), 0);
    assert_eq!(span.end().line(), 2);
    assert_eq!(span.end().column(), 4);

    assert!(SourceSpan::new(0, 0, 1, 0).is_err());
    assert!(SourceSpan::new(3, 0, 2, 0).is_err());
    assert!(SourceSpan::new(2, 8, 2, 7).is_err());

    let start = SourcePosition::new(2, 4).expect("valid position");
    let end = SourcePosition::new(2, 3).expect("valid position");
    assert!(SourceSpan::from_positions(start, end).is_err());
}

#[test]
fn span_errors_name_what_is_wrong() {
    assert_eq!(SourceSpan::new(0, 0, 1, 0), Err(SourceSpanError::ZeroLine));
    let reversed = SourceSpan::new(2, 8, 2, 7).expect_err("the end comes first");
    assert!(matches!(reversed, SourceSpanError::EndBeforeStart { .. }));
    assert!(reversed.to_string().contains("line: 2, column: 8"));
    assert!(reversed.to_string().contains("line: 2, column: 7"));
    let empty = SourceSpan::new(3, 5, 3, 5).expect("an empty span is valid");
    assert!(empty.is_empty());
    assert!(!SourceSpan::new(3, 5, 3, 6).expect("valid").is_empty());
}

#[test]
fn repository_paths_are_canonical_even_after_deserialization() {
    let path = RepositoryPath::new("src/parser/mod.rs".to_owned()).expect("canonical path");
    let encoded = serde_json::to_string(path.as_str()).expect("path should serialize");
    assert_eq!(encoded, r#""src/parser/mod.rs""#);
    let decoded: String = serde_json::from_str(&encoded).expect("path should deserialize");
    assert_eq!(RepositoryPath::new(decoded), Ok(path));

    for invalid in [r#""/src/lib.rs""#, r#""src\\lib.rs""#, r#""src/../lib.rs""#] {
        let decoded: String = serde_json::from_str(invalid).expect("a JSON string");
        assert!(RepositoryPath::new(decoded).is_err());
    }
}

#[test]
fn refused_paths_tell_why() {
    let refused = |value: &str| RepositoryPath::new(value.to_owned()).expect_err("refused");
    assert_eq!(refused(""), RepositoryPathError::Empty);
    let text = |value: &str| value.to_owned();
    assert_eq!(refused("/src"), RepositoryPathError::Absolute(text("/src")));
    assert_eq!(refused("C:/src"), RepositoryPathError::Absolute(text("C:/src")));
    assert_eq!(refused("src\\lib.rs"), RepositoryPathError::Backslash(text("src\\lib.rs")));
    assert_eq!(refused("src/\0"), RepositoryPathError::NulByte);
    assert_eq!(refused("src//a.rs"), RepositoryPathError::EmptyComponent(text("src//a.rs")));
    assert_eq!(refused("src/"), RepositoryPathError::EmptyComponent(text("src/")));
    assert_eq!(refused("./src"), RepositoryPathError::CurrentDirectory(text("./src")));
    assert_eq!(refused("src/.."), RepositoryPathError::ParentDirectory(text("src/..")));
    assert!(refused("src/..").to_string().contains("src/.."));
    let same = path("src/lib.rs");
    assert!(same.same(&path("src/lib.rs")));
    assert!(!same.same(&path("src/main.rs")));
    assert_eq!(same.to_string(), "src/lib.rs");
}

#[test]
fn unresolved_calls_keep_their_name_and_caller() {
    let file = path("src/lib.rs");
    let repository_id = RepositoryId::from_stable_parts(&["codeatlas"]);
    let file_id = FileId::from_stable_parts(&[file.as_str()]);
    let caller_id = SymbolId::from_stable_parts(&[file.as_str(), "function", "run"]);
    let call_id = CallEdgeId::from_stable_parts(&[&caller_id.to_string(), "external_call", "1:12"]);

    let mut model = RepositoryModel::empty(repository_id, "codeatlas".to_owned());
    assert_eq!(model.validate_schema(), Ok(()));
    model.files.push(FileInfo {
        id: file_id,
        path: file,
        language: Language::Rust,
    });
    model.symbols.push(Symbol {
        id: caller_id,
        name: "run".to_owned(),
        qualified_name: "crate::run".to_owned(),
        kind: SymbolKind::Function,
        file_id,
        module_id: None,
        span: SourceSpan::new(1, 0, 3, 1).expect("valid symbol span"),
        parent_id: None,
    });
    model.calls.push(CallEdge {
        id: call_id,
        source_file_id: file_id,
        caller_id: None,
        target: TargetResolution::Unresolved(UnresolvedTarget {
            name: "external_call".to_owned(),
            reason: Some("dependency not indexed".to_owned()),
        }),
        span: SourceSpan::new(2, 4, 2, 19).expect("valid call span"),
        confidence: None,
    });

    let copy = model.clone();
    assert_eq!(copy, model);
    assert!(matches!(copy.calls[0].target, TargetResolution::Unresolved(_)));
    assert!(!copy.calls[0].target.is_resolved());
    assert!(TargetResolution::Resolved(caller_id).is_resolved());
    assert_eq!(copy.calls[0].caller_id, None);
}

#[test]
fn fact_without_evidence_is_reported() {
    let claim_id = ClaimId::from_stable_parts(&["answer", "claim-1"]);
    let claim = Claim {
        id: claim_id,
        kind: ClaimKind::Fact,
        text: "run calls external_call".to_owned(),
        evidence_ids: Vec::new(),
    };

    assert!(claim.is_unsupported_fact());
    assert_eq!(
        claim.validate_evidence(),
        Err(EvidenceValidationError::FactWithoutEvidence { claim_id })
    );

    let answer = AgentAnswer {
        id: AnswerId::from_stable_parts(&["answer"]),
        text: claim.text.clone(),
        claims: vec![claim],
        evidence: Vec::new(),
        call_paths: Vec::new(),
        diagram: DiagramDecision::default(),
        suggested_actions: Vec::new(),
        usage: None,
    };
    assert!(matches!(
        answer.validate_evidence(),
        Err(EvidenceValidationError::FactWithoutEvidence { .. })
    ));
}

#[test]
fn grounded_answers_with_diagrams_of_all_kinds_are_valid() {
    for kind in [
        DiagramKind::Architecture,
        DiagramKind::Flow,
        DiagramKind::Relationship,
    ] {
        assert_eq!(diagram_answer(kind).validate_evidence(), Ok(()));
    }
}

#[test]
fn an_answer_without_a_diagram_decision_needs_none() {
    let mut answer = diagram_answer(DiagramKind::Architecture);
    answer.diagram = DiagramDecision::default();
    let DiagramDecision::NotNeeded { reason } = &answer.diagram else {
        panic!("the default decision is that no diagram is needed");
    };
    assert!(reason.contains("legacy"));
    assert_eq!(answer.validate_evidence(), Ok(()));
}

#[test]
fn diagram_decision_requires_a_nonempty_reason() {
    let mut answer = diagram_answer(DiagramKind::Architecture);
    answer.diagram = DiagramDecision::NotNeeded {
        reason: "  ".to_owned(),
    };

    assert_eq!(
        answer.validate_evidence(),
        Err(EvidenceValidationError::EmptyDiagramDecisionReason)
    );
}

#[test]
fn duplicate_and_dangling_diagram_nodes_are_reported_by_index() {
    let mut duplicate = diagram_answer(DiagramKind::Architecture);
    answer_diagram_mut(&mut duplicate).nodes[1].id = "runtime".to_owned();
    assert_eq!(
        duplicate.validate_evidence(),
        Err(EvidenceValidationError::DuplicateDiagramNodeId {
            first_node_index: 0,
            duplicate_node_index: 1,
        })
    );

    let mut dangling = diagram_answer(DiagramKind::Architecture);
    answer_diagram_mut(&mut dangling).edges[0].target = "missing".to_owned();
    assert_eq!(
        dangling.validate_evidence(),
        Err(EvidenceValidationError::UnknownDiagramEdgeTarget { edge_index: 0 })
    );
}

#[test]
fn diagram_elements_reject_unknown_claims() {
    let mut answer = diagram_answer(DiagramKind::Flow);
    answer_diagram_mut(&mut answer).nodes[0].claim_ids =
        vec![ClaimId::from_stable_parts(&["diagram", "unknown-claim"])];

    assert_eq!(
        answer.validate_evidence(),
        Err(EvidenceValidationError::UnknownDiagramNodeClaim {
            node_index: 0,
            claim_index: 0,
        })
    );
}

#[test]
fn diagram_elements_reject_non_fact_claims() {
    let mut answer = diagram_answer(DiagramKind::Relationship);
    let claim_id = ClaimId::from_stable_parts(&["diagram", "inference"]);
    answer.claims.push(Claim {
        id: claim_id,
        kind: ClaimKind::Inference,
        text: "The delegation may be intentional layering.".to_owned(),
        evidence_ids: vec![answer.evidence[0].id],
    });
    answer_diagram_mut(&mut answer).edges[0].claim_ids = vec![claim_id];

    assert_eq!(
        answer.validate_evidence(),
        Err(EvidenceValidationError::NonFactDiagramEdgeClaim {
            edge_index: 0,
            claim_index: 0,
        })
    );
}

#[test]
fn diagram_evidence_must_cover_every_linked_fact_claim() {
    let mut answer = diagram_answer(DiagramKind::Architecture);
    let first_claim_id = answer.claims[0].id;
    let first_evidence_id = answer.evidence[0].id;
    let second_evidence_id = EvidenceId::from_stable_parts(&["diagram", "second-evidence"]);
    let mut second_evidence = answer.evidence[0].clone();
    second_evidence.id = second_evidence_id;
    answer.evidence.push(second_evidence);

    let second_claim_id = ClaimId::from_stable_parts(&["diagram", "second-claim"]);
    answer.claims.push(Claim {
        id: second_claim_id,
        kind: ClaimKind::Fact,
        text: "The service has a separate implementation.".to_owned(),
        evidence_ids: vec![second_evidence_id],
    });
    let node = &mut answer_diagram_mut(&mut answer).nodes[0];
    node.claim_ids = vec![first_claim_id, second_claim_id];
    node.evidence_ids = vec![first_evidence_id];

    assert_eq!(
        answer.validate_evidence(),
        Err(
            EvidenceValidationError::DiagramNodeClaimWithoutLinkedEvidence {
                node_index: 0,
                claim_index: 1,
            }
        )
    );

    answer_diagram_mut(&mut answer).nodes[0]
        .evidence_ids
        .push(second_evidence_id);
    answer
        .validate_evidence()
        .expect("each fact may be covered by its own directly linked evidence");
}

/// Applies a change to a valid answer and returns why it is then refused.
fn refusal(change: impl Fn(&mut AgentAnswer)) -> EvidenceValidationError {
    let mut answer = diagram_answer(DiagramKind::Flow);
    change(&mut answer);
    answer.validate_evidence().expect_err("the change breaks a rule")
}

#[test]
fn duplicates_and_dangling_references_of_an_answer_are_told_apart() {
    let evidence_id = EvidenceId::from_stable_parts(&["diagram", "evidence"]);
    let claim_id = ClaimId::from_stable_parts(&["diagram", "claim"]);
    let call_path_id = CallPathId::from_stable_parts(&["path"]);
    let unknown = EvidenceId::from_stable_parts(&["unknown"]);

    assert_eq!(
        refusal(|answer| {
            let copy = answer.evidence[0].clone();
            answer.evidence.push(copy);
        }),
        EvidenceValidationError::DuplicateEvidence { evidence_id }
    );
    assert_eq!(
        refusal(|answer| {
            let copy = answer.claims[0].clone();
            answer.claims.push(copy);
        }),
        EvidenceValidationError::DuplicateClaim { claim_id }
    );
    assert_eq!(
        refusal(|answer| answer.claims[0].evidence_ids.push(unknown)),
        EvidenceValidationError::UnknownClaimEvidence {
            claim_id,
            evidence_id: unknown,
        }
    );
    assert_eq!(
        refusal(|answer| answer.call_paths.push(CallPath {
            id: call_path_id,
            label: None,
            steps: vec![CallPathStep {
                target: TargetResolution::Resolved(SymbolId::from_stable_parts(&["run"])),
                call_edge_id: None,
                evidence_ids: vec![unknown],
            }],
            complete: true,
        })),
        EvidenceValidationError::UnknownCallPathEvidence {
            call_path_id,
            evidence_id: unknown,
        }
    );
}

#[test]
fn suggested_actions_lead_to_what_the_answer_holds() {
    let claim_id = ClaimId::from_stable_parts(&["diagram", "claim"]);
    let mut answer = diagram_answer(DiagramKind::Flow);
    answer.suggested_actions = vec![
        SuggestedAction::DeepenClaim { claim_id },
        SuggestedAction::ChangeDepth {
            depth: ExplanationDepth::Code,
        },
    ];
    assert_eq!(answer.validate_evidence(), Ok(()));
    answer.suggested_actions = vec![SuggestedAction::DeepenClaim {
        claim_id: ClaimId::from_stable_parts(&["elsewhere"]),
    }];
    assert!(answer.validate_evidence().is_err());
    assert_eq!(
        SuggestedAction::ChangeDepth {
            depth: ExplanationDepth::Code
        }
        .label(),
        "Explain the code"
    );
}

#[test]
fn every_refusal_of_a_diagram_is_confined_to_it() {
    let unknown_claim = ClaimId::from_stable_parts(&["unknown"]);
    let unknown_evidence = EvidenceId::from_stable_parts(&["unknown"]);
    let blank = || " \t".to_owned();
    let refusals = [
        refusal(|answer| answer_diagram_mut(answer).title = blank()),
        refusal(|answer| answer_diagram_mut(answer).nodes.clear()),
        refusal(|answer| answer_diagram_mut(answer).nodes[0].id = blank()),
        refusal(|answer| answer_diagram_mut(answer).nodes[0].label = blank()),
        refusal(|answer| answer_diagram_mut(answer).edges.clear()),
        refusal(|answer| {
            let repeated = answer_diagram_mut(answer).nodes[0].claim_ids[0];
            answer_diagram_mut(answer).nodes[0].claim_ids.push(repeated);
        }),
        refusal(|answer| answer_diagram_mut(answer).edges[0].source = "gone".to_owned()),
        refusal(|answer| answer_diagram_mut(answer).nodes[0].claim_ids.clear()),
        refusal(|answer| answer_diagram_mut(answer).nodes[0].evidence_ids.clear()),
        refusal(|answer| answer_diagram_mut(answer).edges[0].claim_ids.push(unknown_claim)),
        refusal(|answer| answer_diagram_mut(answer).edges[0].evidence_ids.push(unknown_evidence)),
    ];
    for error in refusals {
        assert!(error.is_diagram_error(), "{error:?}");
        assert!(!error.to_string().is_empty());
    }
}

#[test]
fn schema_versions_are_checked() {
    assert_eq!(SchemaVersion::current().ensure_current(), Ok(()));
    let refused = SchemaVersion::new(999)
        .ensure_current()
        .expect_err("another version");
    assert!(matches!(refused, SchemaError::Unsupported { .. }));
    assert!(refused.to_string().contains("999"));
    let mut model = RepositoryModel::empty(RepositoryId::from_stable_parts(&["r"]), "r".to_owned());
    model.schema_version = SchemaVersion::new(999);
    assert_eq!(model.validate_schema(), Err(refused));
}

#[test]
fn confidence_lies_between_zero_and_one() {
    assert!(Confidence::new(0.0_f32.to_bits()).is_ok());
    assert!(Confidence::new(1.0_f32.to_bits()).is_ok());
    assert_eq!(
        Confidence::new(0.25_f32.to_bits()).map(|value| f32::from_bits(value.value())),
        Ok(0.25)
    );
    assert!(Confidence::new((-0.25_f32).to_bits()).is_err());
    assert!(Confidence::new(1.0001_f32.to_bits()).is_err());
    assert!(Confidence::new(f32::NAN.to_bits()).is_err());
    assert!(Confidence::new(f32::INFINITY.to_bits()).is_err());
    assert!(Confidence::new((-0.0_f32).to_bits()).is_ok());
}

#[test]
fn guided_depth_ends_in_full_detail() {
    assert_eq!(ExplanationDepth::Overview.next(), Some(ExplanationDepth::Architecture));
    assert_eq!(ExplanationDepth::Detail.next(), None);
    let mut depth = ExplanationDepth::Overview;
    let mut steps = 0;
    while let Some(deeper) = depth.next() {
        depth = deeper;
        steps += 1;
    }
    assert_eq!((depth, steps), (ExplanationDepth::Detail, 4));
    let profile = ExplanationProfile::new(ExplanationAudience::Beginner, ExplanationDepth::Code);
    let message = profile.control_message();
    assert!(message.contains(ExplanationAudience::Beginner.instruction()));
    assert!(message.contains(ExplanationDepth::Code.instruction()));
}

#[test]
fn errors_of_every_kind_become_core_errors() {
    let id = SymbolId::parse("short").expect_err("too short");
    assert!(matches!(CoreError::from(id), CoreError::Id(inner) if inner == id));
    let schema = SchemaVersion::new(999).ensure_current().expect_err("another version");
    assert!(matches!(CoreError::from(schema), CoreError::Schema(_)));
    let tool = ToolError::NotFound {
        name: "grep".to_owned(),
    };
    assert!(matches!(CoreError::from(tool.clone()), CoreError::Tool(inner) if inner == tool));
    assert!(tool.to_string().contains("grep"));
    let parser = ParserError {
        path: path("src/lib.rs"),
        message: "unexpected end".to_owned(),
    };
    let text = parser.to_string();
    assert!(text.contains("src/lib.rs") && text.contains("unexpected end"));
}

#[test]
fn confidences_are_compared_as_numbers() {
    let confidence = |value: f32| Confidence::new(value.to_bits()).expect("within the range");
    assert_eq!(confidence(0.0), confidence(-0.0));
    assert_eq!(Some(confidence(-0.0)), Some(confidence(0.0)));
    assert_ne!(confidence(0.0), confidence(0.5));
    assert!(confidence(-0.0) < confidence(0.5));
    assert!(confidence(0.5) < confidence(1.0));
    assert!(!(confidence(-0.0) < confidence(0.0)));
    assert_eq!(confidence(-0.0).value(), (-0.0_f32).to_bits());
}

#[test]
fn the_text_of_a_parsed_id_is_in_lower_case() {
    let mixed = "2Ea8cB278dA7e841842A5c8659723cF8";
    let id = SymbolId::parse(mixed).expect("hexadecimal");
    assert_eq!(id.to_string(), mixed.to_ascii_lowercase());
    assert_eq!(SymbolId::parse(&id.to_string().to_ascii_uppercase()), Ok(id));
}

#[test]
fn every_number_has_a_numeral() {
    for value in [i64::MIN, -1, 0, 1, i64::MAX] {
        assert_eq!(signed_text(value), value.to_string());
    }
}
