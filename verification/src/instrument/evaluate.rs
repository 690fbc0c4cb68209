//! The promotion decision. `evaluate_transition` walks a strictly ordered
//! decision tree: policy identity, parent/candidate authority, candidate
//! identity, evidence-graph integrity, required evidence, and only then
//! performance. Each rejection names one reason.
use crate::instrument::artifact::{
    graph_hash_spec, kind_name_spec, Artifact, EvidenceKind, EvidenceNode, EvidenceResult,
};
use crate::instrument::event::PromotionEvent;
use crate::instrument::policy::PromotionPolicy;
use crate::text::str_eq;
use vstd::prelude::*;

verus! {

/// Why a transition was rejected, one per decision step.
#[derive(Debug, Clone, PartialEq, Eq)]
pub enum RejectionReason {
    /// The declared policy hash is not the policy's.
    PolicyHashMismatch { expected: String, actual: String },
    /// The parent artifact is absent or untrusted.
    ParentArtifactMissing,
    /// Parent and candidate are judged against different authorities.
    AuthorityMismatch,
    /// The candidate's output hash is not the expected hash.
    ArtifactIdentityFailed { output_hash: String, expected_hash: String },
    /// The evidence graph no longer matches its sealed commitment.
    EvidenceGraphAltered,
    /// A required evidence kind is absent (or not applicable).
    RequiredEvidenceAbsent { kind: EvidenceKind },
    /// A required evidence kind failed.
    RequiredEvidenceFailed { kind: EvidenceKind, reason: String },
}

/// The human-readable text of a rejection reason.
pub open spec fn description_spec(r: RejectionReason) -> Seq<char> {
    match r {
        RejectionReason::PolicyHashMismatch { expected, actual } => "policy hash mismatch — expected "@
            + expected@ + ", got "@ + actual@,
        RejectionReason::ParentArtifactMissing => "parent artifact is absent or not in trusted state"@,
        RejectionReason::AuthorityMismatch => "authority spec differs between parent and candidate — incomparable"@,
        RejectionReason::ArtifactIdentityFailed { output_hash, expected_hash } => "identity failed — output_hash "@
            + output_hash@ + " != expected_hash "@ + expected_hash@,
        RejectionReason::EvidenceGraphAltered => "evidence graph hash mismatch — graph was altered after sealing"@,
        RejectionReason::RequiredEvidenceAbsent { kind } => "required evidence absent: "@
            + kind_name_spec(kind),
        RejectionReason::RequiredEvidenceFailed { kind, reason } => "required evidence failed: "@
            + kind_name_spec(kind) + " — "@ + reason@,
    }
}

fn push_str(s: &mut String, t: &str)
    ensures
        final(s)@ == old(s)@ + t@,
{
    s.append(t);
}

impl RejectionReason {
    pub fn description(&self) -> (r: String)
        ensures
            r@ == description_spec(*self),
    {
        let mut s = String::new();
        match self {
            RejectionReason::PolicyHashMismatch { expected, actual } => {
                push_str(&mut s, "policy hash mismatch — expected ");
                push_str(&mut s, expected.as_str());
                push_str(&mut s, ", got ");
                push_str(&mut s, actual.as_str());
            },
            RejectionReason::ParentArtifactMissing => {
                push_str(&mut s, "parent artifact is absent or not in trusted state");
            },
            RejectionReason::AuthorityMismatch => {
                push_str(
                    &mut s,
                    "authority spec differs between parent and candidate — incomparable",
                );
            },
            RejectionReason::ArtifactIdentityFailed { output_hash, expected_hash } => {
                push_str(&mut s, "identity failed — output_hash ");
                push_str(&mut s, output_hash.as_str());
                push_str(&mut s, " != expected_hash ");
                push_str(&mut s, expected_hash.as_str());
            },
            RejectionReason::EvidenceGraphAltered => {
                push_str(
                    &mut s,
                    "evidence graph hash mismatch — graph was altered after sealing",
                );
            },
            RejectionReason::RequiredEvidenceAbsent { kind } => {
                push_str(&mut s, "required evidence absent: ");
                push_str(&mut s, kind.as_str());
            },
            RejectionReason::RequiredEvidenceFailed { kind, reason } => {
                push_str(&mut s, "required evidence failed: ");
                push_str(&mut s, kind.as_str());
                push_str(&mut s, " — ");
                push_str(&mut s, reason.as_str());
            },
        }
        assert(s@ =~= description_spec(*self));
        s
    }
}

/// The outcome of a transition.
#[derive(Debug, Clone, PartialEq)]
pub enum PromotionDecision {
    /// Every gate passed; the candidate replaces the parent.
    Promoted(PromotionEvent),
    /// Correct, but not faster than the parent: the parent is kept.
    CorrectButSlower { candidate_id: String, parent_id: String, candidate_ns: u64, parent_ns: u64 },
    /// A gate failed; the parent is kept.
    Rejected { candidate_id: String, reason: RejectionReason },
}

impl PromotionDecision {
    pub fn is_promoted(&self) -> (r: bool)
        ensures
            r == self is Promoted,
    {
        match self {
            PromotionDecision::Promoted(_) => true,
            _ => false,
        }
    }

    pub fn is_rejected(&self) -> (r: bool)
        ensures
            r == self is Rejected,
    {
        match self {
            PromotionDecision::Rejected { .. } => true,
            _ => false,
        }
    }

    /// True when promoted or correct-but-slower.
    pub fn candidate_is_correct(&self) -> (r: bool)
        ensures
            r == !(self is Rejected),
    {
        !self.is_rejected()
    }
}

/// The first required kind, in policy order, that is absent or not
/// applicable (`Some((kind, None))`) or failed (`Some((kind, Some(reason)))`);
/// `None` when every required kind passed.
pub open spec fn required_outcome(
    nodes: Map<EvidenceKind, EvidenceNode>,
    required: Seq<EvidenceKind>,
) -> Option<(EvidenceKind, Option<Seq<char>>)>
    decreases required.len(),
{
    if required.len() == 0 {
        None
    } else {
        let k = required[0];
        if !nodes.dom().contains(k) {
            Some((k, None))
        } else {
            match nodes[k].result {
                EvidenceResult::Pass => required_outcome(nodes, required.drop_first()),
                EvidenceResult::Fail(reason) => Some((k, Some(reason@))),
                EvidenceResult::NotApplicable => Some((k, None)),
            }
        }
    }
}

/// Step 1: the declared policy hash is not the policy's.
pub open spec fn policy_mismatch(policy: PromotionPolicy, declared: Seq<char>) -> bool {
    declared != policy.policy_hash@
}

/// Step 2: the authorities differ in spec or expected hash.
pub open spec fn authority_mismatch(parent: Artifact, candidate: Artifact) -> bool {
    parent.authority.spec@ != candidate.authority.spec@ || parent.authority.expected_hash@
        != candidate.authority.expected_hash@
}

/// Step 3: the candidate's output hash is not the expected hash.
pub open spec fn identity_failed(candidate: Artifact) -> bool {
    candidate.output_hash@ != candidate.authority.expected_hash@
}

/// Step 4: the graph's commitment does not match its nodes.
pub open spec fn graph_altered(candidate: Artifact) -> bool {
    graph_hash_spec(candidate.evidence_graph.nodes@) != candidate.evidence_graph.graph_hash@
}

/// Step 6: both timings known and the candidate is not faster.
pub open spec fn not_faster(parent: Artifact, candidate: Artifact) -> bool {
    match (candidate.median_ns, parent.median_ns) {
        (Some(c), Some(p)) => c >= p,
        _ => false,
    }
}

/// The decision that the ordered tree prescribes.
pub open spec fn transition_spec(
    parent: Artifact,
    candidate: Artifact,
    policy: PromotionPolicy,
    declared: Seq<char>,
    d: PromotionDecision,
) -> bool {
    if policy_mismatch(policy, declared) {
        match d {
            PromotionDecision::Rejected {
                candidate_id,
                reason: RejectionReason::PolicyHashMismatch { expected, actual },
            } => candidate_id@ == candidate.id@ && expected@ == policy.policy_hash@ && actual@
                == declared,
            _ => false,
        }
    } else if authority_mismatch(parent, candidate) {
        match d {
            PromotionDecision::Rejected {
                candidate_id,
                reason: RejectionReason::AuthorityMismatch,
            } => candidate_id@ == candidate.id@,
            _ => false,
        }
    } else if identity_failed(candidate) {
        match d {
            PromotionDecision::Rejected {
                candidate_id,
                reason: RejectionReason::ArtifactIdentityFailed { output_hash, expected_hash },
            } => candidate_id@ == candidate.id@ && output_hash@ == candidate.output_hash@
                && expected_hash@ == candidate.authority.expected_hash@,
            _ => false,
        }
    } else if graph_altered(candidate) {
        match d {
            PromotionDecision::Rejected {
                candidate_id,
                reason: RejectionReason::EvidenceGraphAltered,
            } => candidate_id@ == candidate.id@,
            _ => false,
        }
    } else if required_outcome(candidate.evidence_graph.nodes@, policy.required@) is Some {
        let (k, failure) = required_outcome(candidate.evidence_graph.nodes@, policy.required@)->0;
        match d {
            PromotionDecision::Rejected {
                candidate_id,
                reason: RejectionReason::RequiredEvidenceAbsent { kind },
            } => candidate_id@ == candidate.id@ && kind == k && failure is None,
            PromotionDecision::Rejected {
                candidate_id,
                reason: RejectionReason::RequiredEvidenceFailed { kind, reason },
            } => candidate_id@ == candidate.id@ && kind == k && failure == Some(reason@),
            _ => false,
        }
    } else if not_faster(parent, candidate) {
        match d {
            PromotionDecision::CorrectButSlower {
                candidate_id,
                parent_id,
                candidate_ns,
                parent_ns,
            } => candidate_id@ == candidate.id@ && parent_id@ == parent.id@ && Some(candidate_ns)
                == candidate.median_ns && Some(parent_ns) == parent.median_ns,
            _ => false,
        }
    } else {
        match d {
            PromotionDecision::Promoted(e) => e.from@ == parent.id@ && e.to@ == candidate.id@
                && e.policy_id@ == policy.policy_id@ && e.policy_hash@ == policy.policy_hash@
                && e.evidence_hash@ == candidate.evidence_graph.graph_hash@ && e.candidate_ns
                == candidate.median_ns && e.parent_ns == parent.median_ns && e.result@
                == "promoted"@,
            _ => false,
        }
    }
}

/// Evaluates a proposed transition from the trusted `parent` to
/// `candidate` under `policy`, where `declared_policy_hash` is the policy
/// hash the candidate records. Step N is reached only when steps 1..N-1
/// passed; performance is reached only for a correct candidate.
pub fn evaluate_transition(
    parent: &Artifact,
    candidate: &Artifact,
    policy: &PromotionPolicy,
    declared_policy_hash: &str,
) -> (r: PromotionDecision)
    ensures
        transition_spec(*parent, *candidate, *policy, declared_policy_hash@, r),
        declared_policy_hash@ == policy.policy_hash@ && (parent.authority.spec@
            != candidate.authority.spec@ || parent.authority.expected_hash@
            != candidate.authority.expected_hash@) ==> r matches PromotionDecision::Rejected {
            reason: RejectionReason::AuthorityMismatch,
            ..
        },
{
    // Step 1: policy identity.
    if !str_eq(declared_policy_hash, policy.policy_hash.as_str()) {
        return PromotionDecision::Rejected {
            candidate_id: candidate.id.clone(),
            reason: RejectionReason::PolicyHashMismatch {
                expected: policy.policy_hash.clone(),
                actual: String::from_str(declared_policy_hash),
            },
        };
    }
    // Step 2: parent and candidate are judged against the same authority.
    if !str_eq(parent.authority.spec.as_str(), candidate.authority.spec.as_str()) || !str_eq(
        parent.authority.expected_hash.as_str(),
        candidate.authority.expected_hash.as_str(),
    ) {
        return PromotionDecision::Rejected {
            candidate_id: candidate.id.clone(),
            reason: RejectionReason::AuthorityMismatch,
        };
    }
    // Step 3: candidate identity.
    if !candidate.identity_valid() {
        return PromotionDecision::Rejected {
            candidate_id: candidate.id.clone(),
            reason: RejectionReason::ArtifactIdentityFailed {
                output_hash: candidate.output_hash.clone(),
                expected_hash: candidate.authority.expected_hash.clone(),
            },
        };
    }
    // Step 4: evidence-graph integrity.
    if !candidate.evidence_graph.verify_commitment() {
        return PromotionDecision::Rejected {
            candidate_id: candidate.id.clone(),
            reason: RejectionReason::EvidenceGraphAltered,
        };
    }
    // Step 5: required evidence, in policy order.
    let ghost nodes = candidate.evidence_graph.nodes@;
    let required = &policy.required;
    assert(required@.skip(0) =~= required@);
    let mut i: usize = 0;
    while i < required.len()
        invariant
            i <= required@.len(),
            required@ == policy.required@,
            nodes == candidate.evidence_graph.nodes@,
            !policy_mismatch(*policy, declared_policy_hash@),
            !authority_mismatch(*parent, *candidate),
            !identity_failed(*candidate),
            !graph_altered(*candidate),
            required_outcome(nodes, required@) == required_outcome(nodes, required@.skip(i as int)),
        decreases required.len() - i,
    {
        let kind = required[i];
        assert(required@.skip(i as int)[0] == kind);
        assert(required@.skip(i as int).drop_first() =~= required@.skip(i + 1));
        match candidate.evidence_graph.nodes.get(&kind) {
            None => {
                return PromotionDecision::Rejected {
                    candidate_id: candidate.id.clone(),
                    reason: RejectionReason::RequiredEvidenceAbsent { kind },
                };
            },
            Some(node) => {
                match &node.result {
                    EvidenceResult::Pass => {},
                    EvidenceResult::Fail(reason) => {
                        return PromotionDecision::Rejected {
                            candidate_id: candidate.id.clone(),
                            reason: RejectionReason::RequiredEvidenceFailed {
                                kind,
                                reason: reason.clone(),
                            },
                        };
                    },
                    EvidenceResult::NotApplicable => {
                        return PromotionDecision::Rejected {
                            candidate_id: candidate.id.clone(),
                            reason: RejectionReason::RequiredEvidenceAbsent { kind },
                        };
                    },
                }
            },
        }
        i += 1;
    }
    assert(required@.skip(i as int).len() == 0);
    // Step 6: performance, only between two timed artifacts.
    match (candidate.median_ns, parent.median_ns) {
        (Some(candidate_ns), Some(parent_ns)) => {
            if candidate_ns >= parent_ns {
                return PromotionDecision::CorrectButSlower {
                    candidate_id: candidate.id.clone(),
                    parent_id: parent.id.clone(),
                    candidate_ns,
                    parent_ns,
                };
            }
        },
        _ => {},
    }
    // Step 7: the promotion event.
    let event = PromotionEvent {
        from: parent.id.clone(),
        to: candidate.id.clone(),
        policy_id: policy.policy_id.clone(),
        policy_hash: policy.policy_hash.clone(),
        evidence_hash: candidate.evidence_graph.graph_hash.clone(),
        candidate_ns: candidate.median_ns,
        parent_ns: parent.median_ns,
        result: String::from_str("promoted"),
    };
    PromotionDecision::Promoted(event)
}

/// A candidate is not rejected exactly when it passes every correctness
/// gate: the policy hash, the authority, its identity, its graph commitment
/// and all required evidence; timing cannot block it. A candidate that is
/// not rejected is promoted exactly when it is not slower than a timed
/// parent; otherwise the parent is kept as correct-but-slower.
pub proof fn law_promotion_needs_every_gate(
    parent: Artifact,
    candidate: Artifact,
    policy: PromotionPolicy,
    declared: Seq<char>,
    d: PromotionDecision,
)
    requires
        transition_spec(parent, candidate, policy, declared, d),
    ensures
        !(d is Rejected) <==> (!policy_mismatch(policy, declared) && !authority_mismatch(
            parent,
            candidate,
        ) && !identity_failed(candidate) && !graph_altered(candidate) && required_outcome(
            candidate.evidence_graph.nodes@,
            policy.required@,
        ) is None),
        !(d is Rejected) ==> (d is Promoted <==> !not_faster(parent, candidate)),
        !(d is Rejected) ==> (d is CorrectButSlower <==> not_faster(parent, candidate)),
{
}

/// A rejection names the first failing step: when an earlier step fails,
/// no later step's reason is given.
pub proof fn law_rejection_is_first_failure(
    parent: Artifact,
    candidate: Artifact,
    policy: PromotionPolicy,
    declared: Seq<char>,
    d: PromotionDecision,
)
    requires
        transition_spec(parent, candidate, policy, declared, d),
    ensures
        policy_mismatch(policy, declared) ==> d matches PromotionDecision::Rejected {
            reason: RejectionReason::PolicyHashMismatch { .. },
            ..
        },
        !policy_mismatch(policy, declared) && authority_mismatch(parent, candidate)
            ==> d matches PromotionDecision::Rejected {
            reason: RejectionReason::AuthorityMismatch,
            ..
        },
        !policy_mismatch(policy, declared) && !authority_mismatch(parent, candidate)
            && identity_failed(candidate) ==> d matches PromotionDecision::Rejected {
            reason: RejectionReason::ArtifactIdentityFailed { .. },
            ..
        },
        !policy_mismatch(policy, declared) && !authority_mismatch(parent, candidate)
            && !identity_failed(candidate) && graph_altered(candidate)
            ==> d matches PromotionDecision::Rejected {
            reason: RejectionReason::EvidenceGraphAltered,
            ..
        },
{
}


/// Every required kind has a node, and that node passed.
proof fn lemma_required_outcome_none(
    nodes: Map<EvidenceKind, EvidenceNode>,
    required: Seq<EvidenceKind>,
)
    ensures
        required_outcome(nodes, required) is None <==> forall|i: int|
            0 <= i < required.len() ==> nodes.dom().contains(#[trigger] required[i])
                && nodes[required[i]].result is Pass,
    decreases required.len(),
{
    if required.len() > 0 {
        let rest = required.drop_first();
        lemma_required_outcome_none(nodes, rest);
        assert forall|i: int| 0 <= i < rest.len() implies #[trigger] rest[i] == required[i + 1] by {}
        if forall|i: int|
            0 <= i < required.len() ==> nodes.dom().contains(#[trigger] required[i])
                && nodes[required[i]].result is Pass {
            assert(nodes.dom().contains(required[0]) && nodes[required[0]].result is Pass);
            assert forall|i: int| 0 <= i < rest.len() implies nodes.dom().contains(
                #[trigger] rest[i],
            ) && nodes[rest[i]].result is Pass by {
                assert(rest[i] == required[i + 1]);
            }
        }
        if required_outcome(nodes, required) is None {
            assert forall|i: int| 0 <= i < required.len() implies nodes.dom().contains(
                #[trigger] required[i],
            ) && nodes[required[i]].result is Pass by {
                if i > 0 {
                    assert(required[i] == rest[i - 1]);
                }
            }
        }
    }
}

/// **Parent and candidate must share one authority.** Under the declared
/// policy hash, when the two artifacts' authorities differ in spec or in
/// expected hash, the transition is rejected for an authority mismatch,
/// whatever the candidate's evidence and timing.
pub proof fn law_authority_must_match(
    parent: Artifact,
    candidate: Artifact,
    policy: PromotionPolicy,
    declared: Seq<char>,
    d: PromotionDecision,
)
    requires
        transition_spec(parent, candidate, policy, declared, d),
        declared == policy.policy_hash@,
        parent.authority.spec@ != candidate.authority.spec@ || parent.authority.expected_hash@
            != candidate.authority.expected_hash@,
    ensures
        d matches PromotionDecision::Rejected {
            candidate_id,
            reason: RejectionReason::AuthorityMismatch,
        } && candidate_id@ == candidate.id@,
{
}

/// **What a candidate that is not rejected has passed**, on the artifacts'
/// own fields: the declared policy hash is the policy's; parent and
/// candidate name the same authority spec and expected hash; the
/// candidate's output hash is that expected hash; its graph commitment is
/// the hash of its nodes; and every required kind has a node that passed.
/// A promotion records parent, candidate, policy and graph commitment.
pub proof fn law_accepted_candidate_fields(
    parent: Artifact,
    candidate: Artifact,
    policy: PromotionPolicy,
    declared: Seq<char>,
    d: PromotionDecision,
)
    requires
        transition_spec(parent, candidate, policy, declared, d),
        !(d is Rejected),
    ensures
        declared == policy.policy_hash@,
        parent.authority.spec@ == candidate.authority.spec@,
        parent.authority.expected_hash@ == candidate.authority.expected_hash@,
        candidate.output_hash@ == candidate.authority.expected_hash@,
        candidate.evidence_graph.graph_hash@ == graph_hash_spec(candidate.evidence_graph.nodes@),
        forall|i: int|
            0 <= i < policy.required@.len() ==> candidate.evidence_graph.nodes@.dom().contains(
                #[trigger] policy.required@[i],
            ) && candidate.evidence_graph.nodes@[policy.required@[i]].result is Pass,
        d matches PromotionDecision::Promoted(e) ==> e.from@ == parent.id@ && e.to@
            == candidate.id@ && e.policy_hash@ == policy.policy_hash@ && e.evidence_hash@
            == candidate.evidence_graph.graph_hash@,
{
    lemma_required_outcome_none(candidate.evidence_graph.nodes@, policy.required@);
}

/// **A candidate whose own output misses the expected hash is rejected**
/// (once the policy hash and the authorities agree), for an identity
/// failure that reports both hashes.
pub proof fn law_identity_failure_rejects(
    parent: Artifact,
    candidate: Artifact,
    policy: PromotionPolicy,
    declared: Seq<char>,
    d: PromotionDecision,
)
    requires
        transition_spec(parent, candidate, policy, declared, d),
        declared == policy.policy_hash@,
        parent.authority.spec@ == candidate.authority.spec@,
        parent.authority.expected_hash@ == candidate.authority.expected_hash@,
        candidate.output_hash@ != candidate.authority.expected_hash@,
    ensures
        d matches PromotionDecision::Rejected {
            reason: RejectionReason::ArtifactIdentityFailed { output_hash, expected_hash },
            ..
        } && output_hash@ == candidate.output_hash@ && expected_hash@
            == candidate.authority.expected_hash@,
{
}

} // verus!
