use avx512_butterfly::evidence_core::artifact::{Artifact, EvaluationRequest, EvaluationResult};
use avx512_butterfly::evidence_core::canonical::{encode_map, encode_sorted_pairs, Canonical, StringMap};
use avx512_butterfly::evidence_core::environment::EnvironmentContract;
use avx512_butterfly::evidence_core::evidence::{
    evaluate_admission, AdmissionDecision, EvidenceArtifact, ProvenanceRecord,
};
use avx512_butterfly::evidence_core::hash;
use avx512_butterfly::evidence_core::predicate::{
    EvaluationContext, PredicateDescriptor, PredicateResult, PredicateSet, PredicateStage,
    PredicateStatus,
};

fn map_of(pairs: &[(&str, &str)]) -> StringMap {
    let mut m = StringMap::new();
    for (k, v) in pairs {
        m.insert(k.to_string(), v.to_string());
    }
    m
}

#[test]
fn canonical_map_is_deterministic() {
    let mut m1 = StringMap::new();
    m1.insert("b".to_string(), "2".to_string());
    m1.insert("a".to_string(), "1".to_string());

    let mut m2 = StringMap::new();
    m2.insert("a".to_string(), "1".to_string());
    m2.insert("b".to_string(), "2".to_string());

    assert_eq!(encode_map(&m1), encode_map(&m2));
    let s = String::from_utf8(encode_map(&m1)).unwrap();
    assert_eq!(s, r#"{"a":"1","b":"2"}"#);
}

#[test]
fn canonical_map_different_values_different_bytes() {
    let mut m1 = StringMap::new();
    m1.insert("a".to_string(), "1".to_string());

    let mut m2 = StringMap::new();
    m2.insert("a".to_string(), "2".to_string());

    assert_ne!(encode_map(&m1), encode_map(&m2));
}

#[test]
fn canonical_map_escapes_and_orders_by_bytes() {
    let m = map_of(&[("z", "q\"\\\n\r\t"), ("B", "\u{1}\u{7f}é"), ("a", "")]);
    let s = String::from_utf8(encode_map(&m)).unwrap();
    assert_eq!(s, "{\"B\":\"\\u0001\\u007fé\",\"a\":\"\",\"z\":\"q\\\"\\\\\\n\\r\\t\"}");
    assert_eq!(String::from_utf8(encode_map(&StringMap::new())).unwrap(), "{}");
}

#[test]
fn string_map_insert_replaces_and_get_finds() {
    let mut m = map_of(&[("k", "1"), ("j", "2")]);
    m.insert("k".to_string(), "3".to_string());
    assert_eq!(m.len(), 2);
    assert_eq!(m.get("k"), Some("3"));
    assert_eq!(m.get("j"), Some("2"));
    assert_eq!(m.get("x"), None);
    assert_eq!(m.entry(0), ("j", "2"));
}

#[test]
fn sorted_pairs_copy_values_verbatim() {
    let pairs = [("a", "1".to_string()), ("b\"", "[true]".to_string())];
    let s = String::from_utf8(encode_sorted_pairs(&pairs)).unwrap();
    assert_eq!(s, "{\"a\":1,\"b\\\"\":[true]}");
}

#[test]
fn contract_identity_is_deterministic() {
    let c1 = EnvironmentContract::new("host-v1", "x86_64", "rustc 1.97", "runner-v1", "json-canonical");
    let c2 = EnvironmentContract::new("host-v1", "x86_64", "rustc 1.97", "runner-v1", "json-canonical");
    assert_eq!(c1.identity_hash(), c2.identity_hash());
}

#[test]
fn contract_identity_changes_with_fields() {
    let c1 = EnvironmentContract::new("host-v1", "x86_64", "rustc 1.97", "runner-v1", "json-canonical");
    let c2 = EnvironmentContract::new("host-v1", "x86_64", "rustc 1.98", "runner-v1", "json-canonical");
    assert_ne!(c1.identity_hash(), c2.identity_hash());
}

#[test]
fn contract_extra_affects_identity() {
    let c1 = EnvironmentContract::new("host-v1", "x86_64", "rustc 1.97", "runner-v1", "json-canonical");
    let c2 = EnvironmentContract::new("host-v1", "x86_64", "rustc 1.97", "runner-v1", "json-canonical")
        .with_extra("cpu_features", "avx512f");
    assert_ne!(c1.identity_hash(), c2.identity_hash());
}

#[test]
fn contract_is_domain_blind() {
    let math = EnvironmentContract::new("math-v1", "x86_64", "python 3.11", "runner-v1", "json-canonical");
    let ntt = EnvironmentContract::new("ntt-v1", "x86_64", "python 3.11", "runner-v1", "json-canonical");
    assert_ne!(math.identity_hash(), ntt.identity_hash());
    assert_eq!(std::mem::size_of_val(&math), std::mem::size_of_val(&ntt));
}

#[test]
fn contract_canonical_bytes_are_sorted_debug_strings() {
    let c = EnvironmentContract::new("id\"1", "x86_64", "rustc", "v1", "json")
        .with_extra("cpu", "avx512f");
    let s = String::from_utf8(c.canonical_bytes()).unwrap();
    assert_eq!(
        s,
        "{\"architecture\":\"\\\"x86_64\\\"\",\"compiler\":\"\\\"rustc\\\"\",\"contract_id\":\"\\\"id\\\\\\\"1\\\"\",\"cpu\":\"\\\"avx512f\\\"\",\"evaluator_version\":\"\\\"v1\\\"\",\"serialization_format\":\"\\\"json\\\"\"}"
    );
    assert_eq!(c.identity_hash(), hash::Hash::compute(s.as_bytes()));
}

#[test]
fn stage_ordering_is_protocol() {
    assert!(PredicateStage::SemanticCorrectness < PredicateStage::CanonicalRepresentation);
    assert!(PredicateStage::CanonicalRepresentation < PredicateStage::IdentityStability);
    assert!(PredicateStage::IdentityStability < PredicateStage::EvidenceAdmission);
}

#[test]
fn stage_names_and_orders() {
    assert_eq!(PredicateStage::SemanticCorrectness.as_str(), "semantic_correctness");
    assert_eq!(PredicateStage::CanonicalRepresentation.as_str(), "canonical_representation");
    assert_eq!(PredicateStage::IdentityStability.as_str(), "identity_stability");
    assert_eq!(PredicateStage::EvidenceAdmission.as_str(), "evidence_admission");
    assert_eq!(PredicateStage::SemanticCorrectness.order(), 0);
    assert_eq!(PredicateStage::CanonicalRepresentation.order(), 1);
    assert_eq!(PredicateStage::IdentityStability.order(), 2);
    assert_eq!(PredicateStage::EvidenceAdmission.order(), 3);
}

#[test]
fn descriptor_is_identity_not_state() {
    let d = PredicateDescriptor::new("pi-match-v1", "1", 0);
    assert_eq!(d.id, "pi-match-v1");
    assert_eq!(d.version, "1");
    assert_eq!(d.order, 0);
}

#[test]
fn predicate_set_hash_is_deterministic() {
    let d1 = PredicateDescriptor::new("p1", "1", 0);
    let d2 = PredicateDescriptor::new("p2", "1", 1);
    let s1 = PredicateSet::new("set-v1", vec![d1.clone(), d2.clone()]);
    let s2 = PredicateSet::new("set-v1", vec![d1, d2]);
    assert_eq!(s1.set_hash(), s2.set_hash());
}

#[test]
fn predicate_set_hash_changes_with_order() {
    let d1 = PredicateDescriptor::new("p1", "1", 0);
    let d2 = PredicateDescriptor::new("p2", "1", 1);
    let s1 = PredicateSet::new("set-v1", vec![d1.clone(), d2.clone()]);
    let s2 = PredicateSet::new("set-v1", vec![d2, d1]);
    assert_ne!(s1.set_hash(), s2.set_hash());
}

#[test]
fn predicate_set_hash_covers_the_descriptor_bytes() {
    let d = PredicateDescriptor::new("p", "v", 0x0102_0304);
    let s = PredicateSet::new("set", vec![d]);
    let expected = hash::Hash::compute(&[b'p', 0, b'v', 0, 4, 3, 2, 1, 0]);
    assert_eq!(s.set_hash(), expected);
    let empty = PredicateSet::new("set", vec![]);
    assert_eq!(empty.set_hash(), hash::Hash::compute(&[]));
}

#[test]
fn fail_status_carries_reason() {
    let s = PredicateStatus::Fail("mismatch at position 42".to_string());
    assert!(s.is_fail());
    assert!(!s.is_pass());
}

#[test]
fn evaluation_context_holds_digests() {
    let c = EvaluationContext::new(hash::Hash::compute(b"out"));
    assert_eq!(c.reference_digest, None);
    let c = c.with_reference(hash::Hash::compute(b"ref"));
    assert_eq!(c.output_digest, hash::Hash::compute(b"out"));
    assert_eq!(c.reference_digest, Some(hash::Hash::compute(b"ref")));
}

#[test]
fn hash_compute_is_deterministic() {
    let h1 = hash::Hash::compute(b"hello");
    let h2 = hash::Hash::compute(b"hello");
    assert_eq!(h1, h2);
}

#[test]
fn hash_different_inputs_different_hashes() {
    let h1 = hash::Hash::compute(b"hello");
    let h2 = hash::Hash::compute(b"world");
    assert_ne!(h1, h2);
}

#[test]
fn hash_roundtrip_hex() {
    let h = hash::Hash::compute(b"test data");
    let hex = h.to_prefixed_hex();
    let parsed = hash::Hash::from_prefixed_hex(&hex).unwrap();
    assert_eq!(h, parsed);
}

#[test]
fn hash_display_is_prefixed() {
    let h = hash::Hash::compute(b"x");
    let s = h.to_string();
    assert!(s.starts_with("sha256:"));
    assert_eq!(s.len(), 71);
}

#[test]
fn hash_of_empty_input_is_the_sha256_of_nothing() {
    let h = hash::Hash::compute(b"");
    assert_eq!(
        h.to_hex(),
        "e3b0c44298fc1c149afbf4c8996fb92427ae41e4649b934ca495991b7852b855"
    );
    assert_eq!(h.as_bytes()[0], 0xe3);
}

#[test]
fn hash_hex_parsing_edges() {
    let mut bytes = [0u8; 32];
    bytes[0] = 0xab;
    bytes[31] = 0x0f;
    let h = hash::Hash::from_bytes(bytes);
    let upper = h.to_hex().to_uppercase();
    assert_eq!(hash::Hash::from_hex(&upper), Some(h));
    assert_eq!(hash::Hash::from_hex("abc"), None);
    let mut bad = h.to_hex();
    bad.replace_range(10..11, "g");
    assert_eq!(hash::Hash::from_hex(&bad), None);
    let plus = format!("+b{}", &h.to_hex()[2..]);
    assert_eq!(hash::Hash::from_hex(&plus).unwrap().as_bytes()[0], 0x0b);
    assert_eq!(hash::Hash::from_prefixed_hex(&h.to_hex()), None);
    assert_eq!(hash::Hash::from_prefixed_hex(&format!("sha256:{}", h.to_hex())), Some(h));
}

#[test]
fn artifact_has_no_evaluator_info() {
    let a = Artifact::new("test-artifact", hash::Hash::compute(b"content"), hash::Hash::compute(b"schema"));
    assert_eq!(a.artifact_id, "test-artifact");
    assert!(*a.content_hash.as_bytes() != [0u8; 32]);
    assert!(*a.schema_hash.as_bytes() != [0u8; 32]);
}

#[test]
fn same_artifact_different_evaluations() {
    let artifact = Artifact::new("pi-1488", hash::Hash::compute(b"pi digits"), hash::Hash::compute(b"pi schema"));
    let req1 = EvaluationRequest::new(
        &artifact.artifact_id,
        "agm_adapter",
        hash::Hash::compute(b"env1"),
        hash::Hash::compute(b"preds"),
    );
    let req2 = EvaluationRequest::new(
        &artifact.artifact_id,
        "machin_adapter",
        hash::Hash::compute(b"env1"),
        hash::Hash::compute(b"preds"),
    );
    assert_eq!(req1.artifact_id, req2.artifact_id);
    assert_ne!(req1.adapter_id, req2.adapter_id);
}

#[test]
fn evaluation_result_all_passed() {
    let results = vec![
        PredicateResult::new("pred-1", PredicateStatus::Pass),
        PredicateResult::new("pred-2", PredicateStatus::Pass),
    ];
    let er = EvaluationResult::new(hash::Hash::compute(b"output"), results);
    assert!(er.all_passed);
}

#[test]
fn evaluation_result_not_all_passed() {
    let results = vec![
        PredicateResult::new("pred-1", PredicateStatus::Pass),
        PredicateResult::new("pred-2", PredicateStatus::Fail("mismatch at position 42".to_string())),
    ];
    let er = EvaluationResult::new(hash::Hash::compute(b"output"), results);
    assert!(!er.all_passed);
}

fn make_request() -> EvaluationRequest {
    EvaluationRequest::new("test-artifact", "test-adapter", hash::Hash::compute(b"env"), hash::Hash::compute(b"preds"))
}

fn make_provenance() -> ProvenanceRecord {
    ProvenanceRecord::new(
        "test-artifact",
        hash::Hash::compute(b"content"),
        "abc123",
        "test-adapter",
        hash::Hash::compute(b"env"),
        "2026-07-16T00:00:00Z",
    )
}

#[test]
fn admissible_evidence_all_passed() {
    let result = EvaluationResult::new(
        hash::Hash::compute(b"output"),
        vec![PredicateResult::passed("p1"), PredicateResult::passed("p2")],
    );
    let evidence = EvidenceArtifact::new(make_request(), result, make_provenance());
    assert!(evidence.is_admissible());
    assert_eq!(evaluate_admission(&evidence), AdmissionDecision::Admitted);
}

#[test]
fn rejected_evidence_failing_predicate() {
    let result = EvaluationResult::new(
        hash::Hash::compute(b"output"),
        vec![PredicateResult::passed("p1"), PredicateResult::failed("p2", "mismatch")],
    );
    let evidence = EvidenceArtifact::new(make_request(), result, make_provenance());
    assert!(!evidence.is_admissible());
    match evaluate_admission(&evidence) {
        AdmissionDecision::Rejected(reason) => {
            assert!(reason.contains("p2"));
            assert!(reason.contains("mismatch"));
        }
        AdmissionDecision::Admitted => panic!("should be rejected"),
    }
}

#[test]
fn rejection_reasons_name_the_first_failure() {
    let result = EvaluationResult::new(
        hash::Hash::compute(b"output"),
        vec![
            PredicateResult::passed("p1"),
            PredicateResult::new("p2", PredicateStatus::Error("boom".to_string())),
            PredicateResult::failed("p3", "late"),
        ],
    );
    let evidence = EvidenceArtifact::new(make_request(), result, make_provenance());
    assert_eq!(evaluate_admission(&evidence), AdmissionDecision::Rejected("p2: ERROR: boom".to_string()));
    let mut inconsistent = EvaluationResult::new(hash::Hash::compute(b"o"), vec![PredicateResult::passed("p")]);
    inconsistent.all_passed = false;
    let evidence = EvidenceArtifact::new(make_request(), inconsistent, make_provenance());
    assert_eq!(evaluate_admission(&evidence), AdmissionDecision::Rejected(String::new()));
}

#[test]
fn evidence_hash_is_deterministic() {
    let e1 = EvidenceArtifact::new(
        make_request(),
        EvaluationResult::new(hash::Hash::compute(b"output"), vec![PredicateResult::passed("p1")]),
        make_provenance(),
    );
    let e2 = EvidenceArtifact::new(
        make_request(),
        EvaluationResult::new(hash::Hash::compute(b"output"), vec![PredicateResult::passed("p1")]),
        make_provenance(),
    );
    assert_eq!(e1.evidence_hash(), e2.evidence_hash());
}

#[test]
fn evidence_hash_changes_with_result() {
    let request = make_request();
    let provenance = make_provenance();
    let pass = EvidenceArtifact::new(
        request.clone(),
        EvaluationResult::new(hash::Hash::compute(b"output"), vec![PredicateResult::passed("p1")]),
        provenance.clone(),
    );
    let fail = EvidenceArtifact::new(
        request,
        EvaluationResult::new(hash::Hash::compute(b"output"), vec![PredicateResult::failed("p1", "bad")]),
        provenance,
    );
    assert_ne!(pass.evidence_hash(), fail.evidence_hash());
}

#[test]
fn evidence_canonical_bytes_layout() {
    let e = EvidenceArtifact::new(
        EvaluationRequest::new("a", "b", hash::Hash::from_bytes([1u8; 32]), hash::Hash::from_bytes([2u8; 32])),
        EvaluationResult::new(hash::Hash::from_bytes([3u8; 32]), vec![PredicateResult::failed("p", "r")]),
        ProvenanceRecord::new("c", hash::Hash::from_bytes([4u8; 32]), "d", "e", hash::Hash::from_bytes([5u8; 32]), "t")
            .with_adapter_hash(hash::Hash::from_bytes([9u8; 32])),
    );
    let mut expected: Vec<u8> = Vec::new();
    expected.extend_from_slice(b"a\0b\0");
    expected.extend_from_slice(&[1u8; 32]);
    expected.push(0);
    expected.extend_from_slice(&[2u8; 32]);
    expected.push(0);
    expected.extend_from_slice(&[3u8; 32]);
    expected.push(0);
    expected.extend_from_slice(b"p\0Fr\0c\0");
    expected.extend_from_slice(&[4u8; 32]);
    expected.push(0);
    expected.extend_from_slice(b"d\0e\0");
    expected.extend_from_slice(&[5u8; 32]);
    expected.extend_from_slice(b"\0t\0");
    assert_eq!(e.canonical_bytes(), expected);
    assert_eq!(e.evidence_hash(), hash::Hash::compute(&expected));
}

#[test]
fn evidence_is_domain_blind() {
    let pi_evidence = EvidenceArtifact::new(
        EvaluationRequest::new("pi-1488", "agm-adapter", hash::Hash::compute(b"e1"), hash::Hash::compute(b"p1")),
        EvaluationResult::new(hash::Hash::compute(b"pi-output"), vec![PredicateResult::passed("pi-match")]),
        ProvenanceRecord::new("pi-1488", hash::Hash::compute(b"c"), "abc", "agm", hash::Hash::compute(b"e1"), "2026"),
    );
    let ntt_evidence = EvidenceArtifact::new(
        EvaluationRequest::new("ntt-butterfly", "avx512-adapter", hash::Hash::compute(b"e2"), hash::Hash::compute(b"p2")),
        EvaluationResult::new(hash::Hash::compute(b"ntt-output"), vec![PredicateResult::passed("ntt-match")]),
        ProvenanceRecord::new("ntt-butterfly", hash::Hash::compute(b"c2"), "def", "avx512", hash::Hash::compute(b"e2"), "2026"),
    );
    assert!(pi_evidence.is_admissible());
    assert!(ntt_evidence.is_admissible());
    assert_eq!(std::mem::size_of_val(&pi_evidence), std::mem::size_of_val(&ntt_evidence));
}
