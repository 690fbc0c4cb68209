use avx512_butterfly::evidence_core::artifact::{Artifact, EvaluationRequest, EvaluationResult};
use avx512_butterfly::evidence_core::environment::EnvironmentContract;
use avx512_butterfly::evidence_core::evidence::{
    evaluate_admission, AdmissionDecision, EvidenceArtifact, ProvenanceRecord,
};
use avx512_butterfly::evidence_core::hash;
use avx512_butterfly::evidence_core::predicate::{PredicateResult, PredicateStage};

#[test]
fn artifact_has_no_domain_fields() {
    let a = Artifact::new(
        "any-artifact",
        hash::Hash::compute(b"content"),
        hash::Hash::compute(b"schema"),
    );
    assert_eq!(a.artifact_id, "any-artifact");
}

#[test]
fn evaluation_request_introduces_variability() {
    let a = Artifact::new("x", hash::Hash::compute(b"x"), hash::Hash::compute(b"s"));

    let r1 = EvaluationRequest::new(
        &a.artifact_id,
        "adapter-alpha",
        hash::Hash::compute(b"env"),
        hash::Hash::compute(b"preds"),
    );
    let r2 = EvaluationRequest::new(
        &a.artifact_id,
        "adapter-beta",
        hash::Hash::compute(b"env"),
        hash::Hash::compute(b"preds"),
    );

    assert_eq!(r1.artifact_id, r2.artifact_id); // same artifact
    assert_ne!(r1.adapter_id, r2.adapter_id);   // different adapter
}

#[test]
fn environment_contract_is_domain_blind() {
    let math_contract = EnvironmentContract::new(
        "math-host-v1",
        "x86_64",
        "python 3.11",
        "runner-v1",
        "json-canonical",
    );
    let ser_contract = EnvironmentContract::new(
        "serialization-host-v1",
        "aarch64",
        "rustc 1.97",
        "runner-v1",
        "cbor",
    );

    assert_ne!(math_contract.identity_hash(), ser_contract.identity_hash());

    assert_eq!(
        std::mem::size_of_val(&math_contract),
        std::mem::size_of_val(&ser_contract),
    );
}

#[test]
fn evidence_artifact_works_for_any_domain() {
    let domain_a = EvidenceArtifact::new(
        EvaluationRequest::new("domain-a-artifact", "domain-a-adapter",
            hash::Hash::compute(b"env-a"), hash::Hash::compute(b"preds-a")),
        EvaluationResult::new(
            hash::Hash::compute(b"output-a"),
            vec![PredicateResult::passed("predicate-a")],
        ),
        ProvenanceRecord::new(
            "domain-a-artifact", hash::Hash::compute(b"c-a"), "commit-a",
            "domain-a-adapter", hash::Hash::compute(b"env-a"), "2026-07-16T00:00:00Z",
        ),
    );

    let domain_b = EvidenceArtifact::new(
        EvaluationRequest::new("domain-b-artifact", "domain-b-adapter",
            hash::Hash::compute(b"env-b"), hash::Hash::compute(b"preds-b")),
        EvaluationResult::new(
            hash::Hash::compute(b"output-b"),
            vec![PredicateResult::passed("predicate-b")],
        ),
        ProvenanceRecord::new(
            "domain-b-artifact", hash::Hash::compute(b"c-b"), "commit-b",
            "domain-b-adapter", hash::Hash::compute(b"env-b"), "2026-07-16T00:00:00Z",
        ),
    );

    assert_eq!(evaluate_admission(&domain_a), AdmissionDecision::Admitted);
    assert_eq!(evaluate_admission(&domain_b), AdmissionDecision::Admitted);

    assert_ne!(domain_a.evidence_hash(), domain_b.evidence_hash());
}

#[test]
fn evidence_rejection_is_domain_blind() {
    let bad_evidence = EvidenceArtifact::new(
        EvaluationRequest::new("any-artifact", "any-adapter",
            hash::Hash::compute(b"env"), hash::Hash::compute(b"preds")),
        EvaluationResult::new(
            hash::Hash::compute(b"output"),
            vec![
                PredicateResult::passed("pred-1"),
                PredicateResult::failed("pred-2", "semantic mismatch"),
            ],
        ),
        ProvenanceRecord::new(
            "any-artifact", hash::Hash::compute(b"c"), "commit",
            "any-adapter", hash::Hash::compute(b"env"), "2026-07-16T00:00:00Z",
        ),
    );

    assert!(!bad_evidence.is_admissible());
    match evaluate_admission(&bad_evidence) {
        AdmissionDecision::Rejected(reason) => {
            assert!(reason.contains("pred-2"));
            assert!(reason.contains("semantic mismatch"));
        }
        AdmissionDecision::Admitted => panic!("should be rejected"),
    }
}

#[test]
fn predicate_stage_ordering_is_enforced() {
    assert!(PredicateStage::SemanticCorrectness < PredicateStage::CanonicalRepresentation);
    assert!(PredicateStage::CanonicalRepresentation < PredicateStage::IdentityStability);
    assert!(PredicateStage::IdentityStability < PredicateStage::EvidenceAdmission);

    assert_eq!(PredicateStage::SemanticCorrectness.order(), 0);
    assert_eq!(PredicateStage::CanonicalRepresentation.order(), 1);
    assert_eq!(PredicateStage::IdentityStability.order(), 2);
    assert_eq!(PredicateStage::EvidenceAdmission.order(), 3);
}

#[test]
fn hash_identity_is_computational_not_declarative() {
    let c1 = EnvironmentContract::new("test", "x86_64", "rustc", "v1", "json");
    let c2 = EnvironmentContract::new("test", "x86_64", "rustc", "v1", "json");

    assert_eq!(c1.identity_hash(), c2.identity_hash());

    let c3 = EnvironmentContract::new("test", "aarch64", "rustc", "v1", "json");
    assert_ne!(c1.identity_hash(), c3.identity_hash());
}

#[test]
fn no_domain_adapter_trait_in_core() {
    
    let req = EvaluationRequest::new("a", "my-adapter", hash::Hash::compute(b"e"), hash::Hash::compute(b"p"));
    assert_eq!(req.adapter_id, "my-adapter");
}
