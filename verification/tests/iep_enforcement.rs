use avx512_butterfly::instrument::{
    artifact::{Artifact, Authority, EvidenceGraph, EvidenceKind, EvidenceNode, EvidenceNodes, EvidenceResult},
    evaluate::{evaluate_transition, PromotionDecision, RejectionReason},
    event::PromotionEvent,
    policy::{Gate, PromotionPolicy},
};

const POLICY_HASH: &str =
    "sha256:403af6631e0c10cfe324cc43b0021ec09f7e15edad683bc5bed9d9a7e6fbe42d";
const EXPECTED_HASH: &str =
    "sha256:d2a418be1dec267776a7f7392f521dee0d58651e37295656a4c9e82f4b35bddc";

fn test_authority() -> Authority {
    Authority {
        spec:          "ntt-contract-v1".to_string(),
        reference:     "scalar_butterfly".to_string(),
        corpus:        "babybear_vectors_001".to_string(),
        corpus_hash:   "sha256:48da63b99e1c7e0ce2490dd503e1d536850d286136b4b6e7d779a814f152e319".to_string(),
        expected_hash: EXPECTED_HASH.to_string(),
    }
}

fn passing_graph(median_ns: Option<u64>) -> EvidenceGraph {
    let mut nodes = EvidenceNodes::new();

    nodes.insert(EvidenceKind::Identity, EvidenceNode {
        kind:      EvidenceKind::Identity,
        result:    EvidenceResult::Pass,
        mechanism: "output_hash matches authority.expected_hash".to_string(),
        median_ns: None,
    });
    nodes.insert(EvidenceKind::Determinism, EvidenceNode {
        kind:      EvidenceKind::Determinism,
        result:    EvidenceResult::Pass,
        mechanism: "pure function — no RNG, no time, no uninitialized memory".to_string(),
        median_ns: None,
    });
    nodes.insert(EvidenceKind::Independence, EvidenceNode {
        kind:      EvidenceKind::Independence,
        result:    EvidenceResult::Pass,
        mechanism: "butterfly_reference agrees on all corpus triples".to_string(),
        median_ns: None,
    });
    nodes.insert(EvidenceKind::Robustness, EvidenceNode {
        kind:      EvidenceKind::Robustness,
        result:    EvidenceResult::Pass,
        mechanism: "boundary corpus: zero, p-1, midpoint, cross-quadrant".to_string(),
        median_ns: None,
    });
    nodes.insert(EvidenceKind::Performance, EvidenceNode {
        kind:      EvidenceKind::Performance,
        result:    EvidenceResult::Pass,
        mechanism: "Criterion --baseline comparison".to_string(),
        median_ns,
    });

    let graph = EvidenceGraph { nodes, graph_hash: String::new() };
    let hash = graph.compute_hash();
    EvidenceGraph { nodes: graph.nodes, graph_hash: hash }
}

fn parent_artifact() -> Artifact {
    let graph = passing_graph(Some(800)); // 800ns reference (intentionally slow)
    Artifact {
        id:             "firebird_reference_c422bfb".to_string(),
        iep_version:    "0.1".to_string(),
        authority:      test_authority(),
        backend:        "reference".to_string(),
        commit:         "c422bfb".to_string(),
        output_hash:    EXPECTED_HASH.to_string(),
        correct:        true,
        evidence_graph: graph,
        median_ns:      Some(800),
    }
}

fn candidate_artifact_faster() -> Artifact {
    let graph = passing_graph(Some(400)); // 400ns — faster than parent 800ns
    Artifact {
        id:             "firebird_avx512_abc1234".to_string(),
        iep_version:    "0.1".to_string(),
        authority:      test_authority(),
        backend:        "avx512".to_string(),
        commit:         "abc1234".to_string(),
        output_hash:    EXPECTED_HASH.to_string(),
        correct:        true,
        evidence_graph: graph,
        median_ns:      Some(400),
    }
}

fn policy() -> PromotionPolicy {
    PromotionPolicy::firebird_v1()
}

#[test]
fn reject_policy_hash_mismatch() {
    let parent    = parent_artifact();
    let candidate = candidate_artifact_faster();
    let policy    = policy();

    let result = evaluate_transition(
        &parent, &candidate, &policy,
        "sha256:000000wronghash",
    );

    assert!(result.is_rejected(), "Expected rejection on policy hash mismatch");
    if let PromotionDecision::Rejected { reason, .. } = result {
        assert!(
            matches!(reason, RejectionReason::PolicyHashMismatch { .. }),
            "Expected PolicyHashMismatch, got: {reason:?}"
        );
    }
}

#[test]
fn reject_authority_mismatch() {
    let parent    = parent_artifact();
    let policy    = policy();

    let mut wrong_authority = test_authority();
    wrong_authority.spec = "ntt-contract-v2".to_string();
    let graph = passing_graph(Some(400));
    let candidate = Artifact {
        id:             "firebird_avx512_badauth".to_string(),
        iep_version:    "0.1".to_string(),
        authority:      wrong_authority,
        backend:        "avx512".to_string(),
        commit:         "abc1234".to_string(),
        output_hash:    EXPECTED_HASH.to_string(),
        correct:        true,
        evidence_graph: graph,
        median_ns:      Some(400),
    };

    let result = evaluate_transition(&parent, &candidate, &policy, POLICY_HASH);

    assert!(result.is_rejected());
    assert!(
        matches!(result, PromotionDecision::Rejected {
            reason: RejectionReason::AuthorityMismatch, ..
        }),
        "Expected AuthorityMismatch"
    );
}

#[test]
fn reject_artifact_identity_failed() {
    let parent = parent_artifact();
    let policy = policy();

    let graph = passing_graph(Some(400));
    let candidate = Artifact {
        id:             "firebird_avx512_wrongout".to_string(),
        iep_version:    "0.1".to_string(),
        authority:      test_authority(),
        backend:        "avx512".to_string(),
        commit:         "abc1234".to_string(),
        output_hash:    "sha256:deadbeefdeadbeefdeadbeefdeadbeefdeadbeefdeadbeefdeadbeefdeadbeef".to_string(),
        correct:        false,
        evidence_graph: graph,
        median_ns:      Some(400),
    };

    let result = evaluate_transition(&parent, &candidate, &policy, POLICY_HASH);

    assert!(result.is_rejected());
    assert!(
        matches!(result, PromotionDecision::Rejected {
            reason: RejectionReason::ArtifactIdentityFailed { .. }, ..
        }),
        "Expected ArtifactIdentityFailed"
    );
}

#[test]
fn reject_evidence_graph_altered() {
    let parent = parent_artifact();
    let policy = policy();

    let mut tampered_graph = passing_graph(Some(400));
    tampered_graph.graph_hash = "sha256:tampered00000000000000000000000000000000000000000000000000000000".to_string();

    let candidate = Artifact {
        id:             "firebird_avx512_tampered".to_string(),
        iep_version:    "0.1".to_string(),
        authority:      test_authority(),
        backend:        "avx512".to_string(),
        commit:         "abc1234".to_string(),
        output_hash:    EXPECTED_HASH.to_string(),
        correct:        true,
        evidence_graph: tampered_graph,
        median_ns:      Some(400),
    };

    let result = evaluate_transition(&parent, &candidate, &policy, POLICY_HASH);

    assert!(result.is_rejected());
    assert!(
        matches!(result, PromotionDecision::Rejected {
            reason: RejectionReason::EvidenceGraphAltered, ..
        }),
        "Expected EvidenceGraphAltered"
    );
}

fn candidate_missing_kind(missing: EvidenceKind) -> Artifact {
    let mut nodes = EvidenceNodes::new();
    for kind in [
        EvidenceKind::Identity,
        EvidenceKind::Determinism,
        EvidenceKind::Independence,
        EvidenceKind::Robustness,
        EvidenceKind::Performance,
    ] {
        if kind == missing { continue; }
        nodes.insert(kind.clone(), EvidenceNode {
            kind:      kind.clone(),
            result:    EvidenceResult::Pass,
            mechanism: "ok".to_string(),
            median_ns: if kind == EvidenceKind::Performance { Some(400) } else { None },
        });
    }
    let graph = EvidenceGraph { nodes, graph_hash: String::new() };
    let hash  = graph.compute_hash();
    let graph = EvidenceGraph { nodes: graph.nodes, graph_hash: hash };

    Artifact {
        id:             format!("firebird_avx512_missing_{}", missing.as_str()),
        iep_version:    "0.1".to_string(),
        authority:      test_authority(),
        backend:        "avx512".to_string(),
        commit:         "abc1234".to_string(),
        output_hash:    EXPECTED_HASH.to_string(),
        correct:        true,
        evidence_graph: graph,
        median_ns:      Some(400),
    }
}

#[test]
fn reject_identity_evidence_absent() {
    let parent    = parent_artifact();
    let candidate = candidate_missing_kind(EvidenceKind::Identity);
    let result    = evaluate_transition(&parent, &candidate, &policy(), POLICY_HASH);
    assert!(result.is_rejected());
    assert!(matches!(result, PromotionDecision::Rejected {
        reason: RejectionReason::RequiredEvidenceAbsent {
            kind: EvidenceKind::Identity
        }, ..
    }), "Expected RequiredEvidenceAbsent(Identity)");
}

#[test]
fn reject_determinism_evidence_absent() {
    let parent    = parent_artifact();
    let candidate = candidate_missing_kind(EvidenceKind::Determinism);
    let result    = evaluate_transition(&parent, &candidate, &policy(), POLICY_HASH);
    assert!(result.is_rejected());
    assert!(matches!(result, PromotionDecision::Rejected {
        reason: RejectionReason::RequiredEvidenceAbsent {
            kind: EvidenceKind::Determinism
        }, ..
    }), "Expected RequiredEvidenceAbsent(Determinism)");
}

#[test]
fn reject_robustness_evidence_absent() {
    let parent    = parent_artifact();
    let candidate = candidate_missing_kind(EvidenceKind::Robustness);
    let result    = evaluate_transition(&parent, &candidate, &policy(), POLICY_HASH);
    assert!(result.is_rejected());
    assert!(matches!(result, PromotionDecision::Rejected {
        reason: RejectionReason::RequiredEvidenceAbsent {
            kind: EvidenceKind::Robustness
        }, ..
    }), "Expected RequiredEvidenceAbsent(Robustness)");
}

#[test]
fn reject_required_evidence_failed() {
    let parent = parent_artifact();
    let policy = policy();

    let mut nodes = EvidenceNodes::new();
    nodes.insert(EvidenceKind::Identity, EvidenceNode {
        kind: EvidenceKind::Identity, result: EvidenceResult::Pass,
        mechanism: "ok".to_string(), median_ns: None,
    });
    nodes.insert(EvidenceKind::Determinism, EvidenceNode {
        kind: EvidenceKind::Determinism, result: EvidenceResult::Pass,
        mechanism: "ok".to_string(), median_ns: None,
    });
    nodes.insert(EvidenceKind::Robustness, EvidenceNode {
        kind: EvidenceKind::Robustness,
        result: EvidenceResult::Fail("output mismatch at (p-1, p-1, p-1)".to_string()),
        mechanism: "boundary sweep".to_string(), median_ns: None,
    });

    let graph = EvidenceGraph { nodes, graph_hash: String::new() };
    let hash  = graph.compute_hash();
    let graph = EvidenceGraph { nodes: graph.nodes, graph_hash: hash };

    let candidate = Artifact {
        id: "firebird_avx512_robfail".to_string(),
        iep_version: "0.1".to_string(),
        authority: test_authority(),
        backend: "avx512".to_string(),
        commit: "abc1234".to_string(),
        output_hash: EXPECTED_HASH.to_string(),
        correct: true,
        evidence_graph: graph,
        median_ns: Some(400),
    };

    let result = evaluate_transition(&parent, &candidate, &policy, POLICY_HASH);
    assert!(result.is_rejected());
    assert!(matches!(result, PromotionDecision::Rejected {
        reason: RejectionReason::RequiredEvidenceFailed {
            kind: EvidenceKind::Robustness, ..
        }, ..
    }), "Expected RequiredEvidenceFailed(Robustness)");
}

#[test]
fn correct_but_slower_preserves_parent() {
    let parent = parent_artifact(); // 800ns
    let policy = policy();

    let graph = passing_graph(Some(1200)); // 1200ns — slower than 800ns parent
    let slower_candidate = Artifact {
        id:             "firebird_avx512_slower".to_string(),
        iep_version:    "0.1".to_string(),
        authority:      test_authority(),
        backend:        "avx512".to_string(),
        commit:         "abc1234".to_string(),
        output_hash:    EXPECTED_HASH.to_string(),
        correct:        true,
        evidence_graph: graph,
        median_ns:      Some(1200),
    };

    let result = evaluate_transition(&parent, &slower_candidate, &policy, POLICY_HASH);

    assert!(!result.is_rejected(), "A correct candidate should never be Rejected");
    assert!(!result.is_promoted(), "A slower candidate should not be Promoted");
    assert!(
        matches!(result, PromotionDecision::CorrectButSlower {
            candidate_ns: 1200, parent_ns: 800, ..
        }),
        "Expected CorrectButSlower with correct ns values, got: {result:?}"
    );
    assert!(result.candidate_is_correct());
}

#[test]
fn correct_and_faster_is_promoted() {
    let parent    = parent_artifact(); // 800ns
    let candidate = candidate_artifact_faster(); // 400ns
    let policy    = policy();

    let result = evaluate_transition(&parent, &candidate, &policy, POLICY_HASH);

    assert!(result.is_promoted(), "Expected Promoted, got: {result:?}");
    assert!(result.candidate_is_correct());

    if let PromotionDecision::Promoted(event) = &result {
        assert_eq!(event.from, "firebird_reference_c422bfb");
        assert_eq!(event.to,   "firebird_avx512_abc1234");
        assert_eq!(event.policy_hash, POLICY_HASH);
        assert_eq!(event.result, "promoted");
        assert_eq!(event.candidate_ns, Some(400));
        assert_eq!(event.parent_ns,    Some(800));
        let h = event.commitment_hash();
        assert!(h.starts_with("sha256:"), "commitment_hash format wrong: {h}");
        assert_eq!(h, event.commitment_hash());
    }
}

#[test]
fn full_positive_chain_is_auditable() {
    let parent    = parent_artifact();
    let candidate = candidate_artifact_faster();
    let policy    = policy();

    let result = evaluate_transition(&parent, &candidate, &policy, POLICY_HASH);
    assert!(result.is_promoted());

    if let PromotionDecision::Promoted(event) = result {
        let record = event.to_record();
        assert!(record.contains("\"event\":\"promotion\""));
        assert!(record.contains("\"result\":\"promoted\""));
        assert!(record.contains(&parent.id));
        assert!(record.contains(&candidate.id));
        assert!(record.contains(&candidate.evidence_graph.graph_hash));
    }
}

#[test]
fn rejection_descriptions_are_exact() {
    let r = RejectionReason::PolicyHashMismatch { expected: "e".to_string(), actual: "a".to_string() };
    assert_eq!(r.description(), "policy hash mismatch — expected e, got a");
    assert_eq!(
        RejectionReason::RequiredEvidenceFailed { kind: EvidenceKind::Robustness, reason: "r".to_string() }.description(),
        "required evidence failed: robustness — r"
    );
    assert_eq!(
        RejectionReason::RequiredEvidenceAbsent { kind: EvidenceKind::Identity }.description(),
        "required evidence absent: identity"
    );
    assert_eq!(RejectionReason::EvidenceGraphAltered.description(), "evidence graph hash mismatch — graph was altered after sealing");
    assert_eq!(RejectionReason::ParentArtifactMissing.description(), "parent artifact is absent or not in trusted state");
}

#[test]
fn evidence_kind_names_round_trip() {
    for k in [
        EvidenceKind::Identity,
        EvidenceKind::Determinism,
        EvidenceKind::Independence,
        EvidenceKind::Robustness,
        EvidenceKind::Performance,
    ] {
        assert_eq!(EvidenceKind::from_str(k.as_str()), Some(k.clone()));
    }
    assert_eq!(EvidenceKind::from_str("speed"), None);
}

#[test]
fn graph_commitment_covers_sorted_parts() {
    let mut nodes = EvidenceNodes::new();
    nodes.insert(EvidenceKind::Robustness, EvidenceNode {
        kind: EvidenceKind::Robustness,
        result: EvidenceResult::Fail("edge".to_string()),
        mechanism: "m2".to_string(),
        median_ns: None,
    });
    nodes.insert(EvidenceKind::Determinism, EvidenceNode {
        kind: EvidenceKind::Determinism,
        result: EvidenceResult::NotApplicable,
        mechanism: "m1".to_string(),
        median_ns: Some(12),
    });
    let graph = EvidenceGraph { nodes, graph_hash: String::new() };
    let payload = "determinism:na:m1,median_ns=12|robustness:fail:edge:m2";
    let expected = avx512_butterfly::evidence_core::hash::Hash::compute(payload.as_bytes()).to_prefixed_hex();
    assert_eq!(graph.compute_hash(), expected);
    assert!(!graph.verify_commitment());
}

#[test]
fn promotion_event_record_is_exact() {
    let event = PromotionEvent {
        from: "p".to_string(),
        to: "c".to_string(),
        policy_id: "pol".to_string(),
        policy_hash: "ph".to_string(),
        evidence_hash: "eh".to_string(),
        candidate_ns: Some(5),
        parent_ns: None,
        result: "promoted".to_string(),
    };
    let record = event.to_record();
    assert_eq!(record, "{\"event\":\"promotion\",\"from\":\"p\",\"to\":\"c\",\"policy_id\":\"pol\",\"policy_hash\":\"ph\",\"evidence_hash\":\"eh\",\"candidate_ns\":5,\"parent_ns\":null,\"result\":\"promoted\"}");
    let expected = avx512_butterfly::evidence_core::hash::Hash::compute(record.as_bytes()).to_prefixed_hex();
    assert_eq!(event.commitment_hash(), expected);
}

#[test]
fn policy_gates() {
    let p = policy();
    assert_eq!(p.gate_for(&EvidenceKind::Identity), Gate::Required);
    assert_eq!(p.gate_for(&EvidenceKind::Independence), Gate::Recommended);
    assert_eq!(p.gate_for(&EvidenceKind::Performance), Gate::Informational);
}
