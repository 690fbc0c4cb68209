use avx512_butterfly::instrument::predicate::{Predicate, PredicateCollection, PredicateStatus, PredicateId};
use avx512_butterfly::instrument::gate::{evaluate_gate, GateBuilder, PromotionResult};
use avx512_butterfly::instrument::coverage::CoverageMap;
use avx512_butterfly::instrument::evidence_contract::{
    EvidenceContractV1, BackendIdentity, ParityResult,
};

fn identity() -> BackendIdentity {
    BackendIdentity {
        arch: "x86_64".to_string(),
        os: "linux".to_string(),
        rustc: "unknown".to_string(),
        cpu_features: vec!["x86_64".to_string(), "avx2".to_string()],
    }
}

fn new_contract(run_id: &str, coverage: CoverageMap, parity: ParityResult) -> EvidenceContractV1 {
    EvidenceContractV1::new(run_id, coverage, parity, "epoch:0".to_string(), identity())
}

#[test]
fn predicate_status_pass() {
    let p = Predicate::pass("representation_custody", 1, "representation_audit.json");
    assert!(p.status.is_pass());
    assert!(!p.status.is_reject());
    assert_eq!(p.status.to_string(), "PASS");
}

#[test]
fn predicate_status_fail() {
    let p = Predicate::fail("execution_custody", 1, "backend_parity.json", "3 mismatches");
    assert!(!p.status.is_pass());
    assert!(p.status.is_reject());
    assert!(p.status.to_string().contains("FAIL"));
}

#[test]
fn predicate_status_skip() {
    let p = Predicate::skip("execution_custody", 1, "backend_parity.json", "AVX-512 not available");
    assert!(!p.status.is_pass());
    assert!(p.status.is_reject());
    assert!(p.status.to_string().contains("SKIP"));
}

#[test]
fn predicate_status_pending() {
    let p = Predicate::pending("execution_coverage", 1, "coverage.json");
    assert!(!p.status.is_pass());
    assert!(p.status.is_reject());
    assert_eq!(p.status.to_string(), "PENDING");
}

#[test]
fn predicate_id_ordering() {
    let a = PredicateId::new("a_predicate");
    let b = PredicateId::new("b_predicate");
    assert!(a < b);
    assert_eq!(a.as_str(), "a_predicate");
    assert_eq!(a.to_string(), "a_predicate");
}

#[test]
fn gate_all_pass_yields_promotion() {
    let result = GateBuilder::new()
        .pass("representation_custody", 1, "representation_audit.json")
        .pass("execution_custody", 1, "backend_parity.json")
        .pass("execution_coverage", 1, "coverage.json")
        .evaluate();

    assert!(result.is_pass());
    match &result {
        PromotionResult::Pass { predicate_count, passed } => {
            assert_eq!(*predicate_count, 3);
            assert_eq!(passed.len(), 3);
            assert!(passed.contains(&"representation_custody".to_string()));
            assert!(passed.contains(&"execution_custody".to_string()));
            assert!(passed.contains(&"execution_coverage".to_string()));
        }
        _ => panic!("expected Pass"),
    }
}

#[test]
fn gate_one_fail_rejects() {
    let result = GateBuilder::new()
        .pass("representation_custody", 1, "representation_audit.json")
        .fail("execution_custody", 1, "backend_parity.json", "3 mismatches found")
        .pass("execution_coverage", 1, "coverage.json")
        .evaluate();

    assert!(result.is_reject());
    match &result {
        PromotionResult::Reject { rejecting_predicate, reason, .. } => {
            assert_eq!(rejecting_predicate, "execution_custody");
            assert!(reason.contains("3 mismatches"));
        }
        _ => panic!("expected Reject"),
    }
}

#[test]
fn gate_one_skip_rejects() {
    let result = GateBuilder::new()
        .pass("representation_custody", 1, "representation_audit.json")
        .pass("execution_custody", 1, "backend_parity.json")
        .skip("execution_coverage", 1, "coverage.json", "no coverage data")
        .evaluate();

    assert!(result.is_reject());
    match &result {
        PromotionResult::Reject { rejecting_predicate, reason, .. } => {
            assert_eq!(rejecting_predicate, "execution_coverage");
            assert!(reason.contains("skipped"));
        }
        _ => panic!("expected Reject"),
    }
}

#[test]
fn gate_one_pending_rejects() {
    let result = GateBuilder::new()
        .pass("representation_custody", 1, "representation_audit.json")
        .pending("execution_custody", 1, "backend_parity.json")
        .pass("execution_coverage", 1, "coverage.json")
        .evaluate();

    assert!(result.is_reject());
    match &result {
        PromotionResult::Reject { rejecting_predicate, reason, .. } => {
            assert_eq!(rejecting_predicate, "execution_custody");
            assert!(reason.contains("pending"));
        }
        _ => panic!("expected Reject"),
    }
}

#[test]
fn gate_empty_collection_passes() {
    let collection = PredicateCollection::new();
    let result = evaluate_gate(&collection);
    assert!(result.is_pass());
}

#[test]
fn gate_first_failure_wins() {
    let result = GateBuilder::new()
        .fail("representation_custody", 1, "audit.json", "construction bypassed")
        .fail("execution_custody", 1, "parity.json", "5 mismatches")
        .evaluate();

    match &result {
        PromotionResult::Reject { rejecting_predicate, reason, .. } => {
            assert_eq!(rejecting_predicate, "representation_custody");
            assert!(reason.contains("construction bypassed"));
        }
        _ => panic!("expected Reject"),
    }
}

#[test]
fn canonical_predicate_set_starts_pending() {
    let collection = PredicateCollection::avx512_butterfly_v1();
    assert_eq!(collection.predicates.len(), 3);

    for p in &collection.predicates {
        assert_eq!(p.status, PredicateStatus::Pending);
    }

    let result = evaluate_gate(&collection);
    assert!(result.is_reject());
}

#[test]
fn canonical_predicate_set_passes_when_all_pass() {
    let mut collection = PredicateCollection::avx512_butterfly_v1();
    for p in collection.predicates.iter_mut() {
        p.status = PredicateStatus::Pass;
    }
    let result = evaluate_gate(&collection);
    assert!(result.is_pass());
}

#[test]
fn coverage_map_basic_operations() {
    let mut map = CoverageMap::new();
    map.record("scalar", "mul", 10012);
    map.record("avx512", "butterfly", 5328);

    assert_eq!(map.get("scalar", "mul"), 10012);
    assert_eq!(map.get("avx512", "butterfly"), 5328);
    assert_eq!(map.get("scalar", "butterfly"), 0); // not recorded
    assert_eq!(map.get("neon", "mul"), 0); // backend not recorded
}

#[test]
fn coverage_map_increment_and_add() {
    let mut map = CoverageMap::new();

    map.increment("scalar", "mul");
    map.increment("scalar", "mul");
    assert_eq!(map.get("scalar", "mul"), 2);

    map.add("scalar", "mul", 10);
    assert_eq!(map.get("scalar", "mul"), 12);
}

#[test]
fn coverage_map_merge() {
    let mut map1 = CoverageMap::new();
    map1.record("scalar", "mul", 100);
    map1.record("avx512", "butterfly", 200);

    let mut map2 = CoverageMap::new();
    map2.record("scalar", "mul", 50);
    map2.record("scalar", "ntt_stage", 45);

    map1.merge(&map2);

    assert_eq!(map1.get("scalar", "mul"), 150); // 100 + 50
    assert_eq!(map1.get("avx512", "butterfly"), 200);
    assert_eq!(map1.get("scalar", "ntt_stage"), 45); // new operation
}

#[test]
fn coverage_map_backends_and_operations() {
    let mut map = CoverageMap::new();
    map.record("scalar", "mul", 100);
    map.record("scalar", "butterfly", 200);
    map.record("avx512", "mul", 300);

    let backends = map.backends();
    assert!(backends.contains(&"scalar"));
    assert!(backends.contains(&"avx512"));

    let scalar_ops = map.operations("scalar");
    assert!(scalar_ops.contains(&"mul"));
    assert!(scalar_ops.contains(&"butterfly"));

    assert_eq!(map.total_operations(), 3);
}

#[test]
fn coverage_map_json_serialization() {
    let mut map = CoverageMap::new();
    map.record("scalar", "mul", 10012);
    map.record("avx512", "butterfly", 5328);

    let json = map.to_json();
    assert!(json.contains("\"scalar\""));
    assert!(json.contains("\"mul\":10012"));
    assert!(json.contains("\"avx512\""));
    assert!(json.contains("\"butterfly\":5328"));

    println!("coverage_map_json: {}", json);
}

#[test]
fn coverage_map_adding_backend_is_just_data() {
    let mut map = CoverageMap::new();
    map.record("neon", "mul", 5000);
    map.record("cuda", "butterfly", 10000);

    assert_eq!(map.get("neon", "mul"), 5000);
    assert_eq!(map.get("cuda", "butterfly"), 10000);
    assert_eq!(map.backends().len(), 2);
}

#[test]
fn evidence_contract_v1_serialization() {
    let mut coverage = CoverageMap::new();
    coverage.record("scalar", "mul", 10012);
    coverage.record("avx512", "butterfly", 5328);

    let contract = new_contract(
        "test_run_001",
        coverage,
        ParityResult::pass(),
    );

    let json = contract.to_json();

    assert!(json.contains("\"schema_version\":1"));
    assert!(json.contains("\"run_id\":\"test_run_001\""));
    assert!(json.contains("\"timestamp\""));
    assert!(json.contains("\"backend_identity\""));
    assert!(json.contains("\"coverage\""));
    assert!(json.contains("\"parity\""));
    assert!(json.contains("\"passed\":true"));
    assert!(json.contains("\"mismatches\":0"));

    println!("evidence_contract_v1: {}", json);
}

#[test]
fn evidence_contract_v1_fail_result() {
    let coverage = CoverageMap::new();
    let contract = new_contract(
        "test_run_fail",
        coverage,
        ParityResult::fail(7),
    );

    let json = contract.to_json();
    assert!(json.contains("\"passed\":false"));
    assert!(json.contains("\"mismatches\":7"));
}

#[test]
fn backend_identity_capture() {
    let identity = identity();
    assert!(!identity.arch.is_empty());
    assert!(!identity.os.is_empty());

    let json = identity.to_json();
    assert!(json.contains("\"arch\""));
    assert!(json.contains("\"os\""));
    assert!(json.contains("\"rustc\""));
    assert!(json.contains("\"cpu_features\""));

    println!("backend_identity: {}", json);
}

#[test]
fn end_to_end_promotion_flow() {

    let mut coverage = CoverageMap::new();
    coverage.record("scalar", "mul", 10012);
    coverage.record("scalar", "butterfly", 5017);
    coverage.record("scalar", "ntt_stage", 71);
    coverage.record("avx512", "butterfly", 8016);
    coverage.record("avx512", "ntt_stage", 71);

    let contract = new_contract(
        "backend_parity_1544BEEFCAFE4242",
        coverage,
        ParityResult::pass(),
    );
    let evidence_json = contract.to_json();

    let result = GateBuilder::new()
        .pass("representation_custody", 1, "tests/representation_audit.json")
        .pass("execution_custody", 1, "tests/backend_parity.json")
        .pass("execution_coverage", 1, "tests/backend_parity.json")
        .evaluate();

    assert!(result.is_pass());
    println!("end_to_end_promotion: PASS");
    println!("evidence: {}", evidence_json);
}

#[test]
fn end_to_end_rejection_flow() {
    let result = GateBuilder::new()
        .pass("representation_custody", 1, "representation_audit.json")
        .fail("execution_custody", 1, "backend_parity.json", "5 mismatches in AVX-512 butterfly")
        .pass("execution_coverage", 1, "backend_parity.json")
        .evaluate();

    assert!(result.is_reject());

    match &result {
        PromotionResult::Reject { rejecting_predicate, reason, all_statuses } => {
            assert_eq!(rejecting_predicate, "execution_custody");
            assert!(reason.contains("5 mismatches"));
            assert!(all_statuses.iter().any(|(id, _)| id == "representation_custody"));
            assert!(all_statuses.iter().any(|(id, _)| id == "execution_custody"));

            println!("end_to_end_rejection: REJECT — predicate={}, reason={}", rejecting_predicate, reason);
        }
        _ => panic!("expected Reject"),
    }
}

#[test]
fn coverage_map_json_is_exact() {
    let mut map = CoverageMap::new();
    map.record("scalar", "mul", 10012);
    map.record("avx512", "butterfly", 5328);
    map.record("scalar", "butterfly", 7);
    assert_eq!(map.to_json(), "{\"avx512\":{\"butterfly\":5328},\"scalar\":{\"butterfly\":7,\"mul\":10012}}");
    assert_eq!(CoverageMap::new().to_json(), "{}");
    assert_eq!(map.backends(), vec!["avx512", "scalar"]);
    assert_eq!(map.operations("scalar"), vec!["butterfly", "mul"]);
    assert!(map.operations("neon").is_empty());
}

#[test]
fn coverage_map_record_replaces() {
    let mut map = CoverageMap::new();
    map.record("scalar", "mul", 5);
    map.record("scalar", "mul", 9);
    assert_eq!(map.get("scalar", "mul"), 9);
    assert_eq!(map.total_operations(), 1);
    let copy = map.clone();
    assert_eq!(copy.get("scalar", "mul"), 9);
}

#[test]
fn evidence_contract_json_is_exact() {
    let mut coverage = CoverageMap::new();
    coverage.record("scalar", "mul", 3);
    let contract = new_contract("run", coverage, ParityResult::fail(2));
    assert_eq!(
        contract.to_json(),
        "{\"schema_version\":1,\"run_id\":\"run\",\"timestamp\":\"epoch:0\",\"backend_identity\":{\"arch\":\"x86_64\",\"os\":\"linux\",\"rustc\":\"unknown\",\"cpu_features\":[\"x86_64\",\"avx2\"]},\"coverage\":{\"scalar\":{\"mul\":3}},\"parity\":{\"passed\":false,\"mismatches\":2}}"
    );
}

#[test]
fn gate_statuses_and_reasons_are_exact() {
    let result = GateBuilder::new()
        .pass("a", 1, "a.json")
        .skip("b", 1, "b.json", "no cpu")
        .fail("c", 1, "c.json", "bad")
        .evaluate();
    match result {
        PromotionResult::Reject { rejecting_predicate, reason, all_statuses } => {
            assert_eq!(rejecting_predicate, "b");
            assert_eq!(reason, "skipped: no cpu");
            assert_eq!(
                all_statuses,
                vec![
                    ("a".to_string(), "PASS".to_string()),
                    ("b".to_string(), "SKIP(no cpu)".to_string()),
                    ("c".to_string(), "FAIL(bad)".to_string()),
                ]
            );
        }
        _ => panic!("expected Reject"),
    }
    let pending = GateBuilder::new().pending("p", 1, "p.json").evaluate();
    match pending {
        PromotionResult::Reject { reason, .. } => {
            assert_eq!(reason, "evaluation pending — evidence not yet collected");
        }
        _ => panic!("expected Reject"),
    }
}

#[test]
fn collection_lookup_and_failures() {
    let mut c = PredicateCollection::new();
    c.add(Predicate::pass("a", 1, "a.json"));
    c.add(Predicate::fail("b", 2, "b.json", "x"));
    c.add(Predicate::pending("a", 3, "a2.json"));
    assert_eq!(c.get(&PredicateId::new("a")).unwrap().version, 1);
    assert!(c.get(&PredicateId::new("z")).is_none());
    assert!(!c.all_pass());
    let f: Vec<u32> = c.failures().iter().map(|p| p.version).collect();
    assert_eq!(f, vec![2, 3]);
    let built = GateBuilder::default().pass("q", 1, "q.json").collection();
    assert!(built.all_pass());
}
