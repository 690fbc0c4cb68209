//! The promotion policy: which evidence kinds are required (checked in
//! order), recommended or informational, and the hash that pins the policy
//! document.
use crate::instrument::artifact::EvidenceKind;
use vstd::prelude::*;

verus! {

/// How a policy treats an evidence kind.
#[derive(Debug, Clone, PartialEq, Eq, Structural)]
pub enum Gate {
    /// Must be present and passing.
    Required,
    /// Absence is a warning; failure rejects.
    Recommended,
    /// Collected after promotion; never blocks.
    Informational,
}

/// A promotion policy.
#[derive(Debug, Clone)]
pub struct PromotionPolicy {
    pub policy_id: String,
    pub spec: String,
    /// SHA-256 of the canonical policy document.
    pub policy_hash: String,
    /// Required kinds, in evaluation order.
    pub required: Vec<EvidenceKind>,
    pub recommended: Vec<EvidenceKind>,
    pub informational: Vec<EvidenceKind>,
}

/// The policy gate of `kind`: required if listed as required, else recommended if
/// listed as recommended, else informational.
pub open spec fn gate_spec(p: PromotionPolicy, kind: EvidenceKind) -> Gate {
    if p.required@.contains(kind) {
        Gate::Required
    } else if p.recommended@.contains(kind) {
        Gate::Recommended
    } else {
        Gate::Informational
    }
}

fn kinds_contain(kinds: &Vec<EvidenceKind>, kind: &EvidenceKind) -> (r: bool)
    ensures
        r == kinds@.contains(*kind),
{
    let mut i: usize = 0;
    while i < kinds.len()
        invariant
            i <= kinds@.len(),
            forall|j: int| 0 <= j < i ==> kinds@[j] != *kind,
        decreases kinds.len() - i,
    {
        if kinds[i] == *kind {
            return true;
        }
        i += 1;
    }
    false
}

impl PromotionPolicy {
    pub fn gate_for(&self, kind: &EvidenceKind) -> (r: Gate)
        ensures
            r == gate_spec(*self, *kind),
    {
        if kinds_contain(&self.required, kind) {
            return Gate::Required;
        }
        if kinds_contain(&self.recommended, kind) {
            return Gate::Recommended;
        }
        Gate::Informational
    }

    /// The Firebird policy: identity, determinism and robustness required
    /// (in that order), independence recommended, performance informational.
    pub fn firebird_v1() -> (r: Self)
        ensures
            r.policy_id@ == "firebird-promotion-v1"@,
            r.spec@ == "ntt-contract-v1"@,
            r.policy_hash@
                == "sha256:403af6631e0c10cfe324cc43b0021ec09f7e15edad683bc5bed9d9a7e6fbe42d"@,
            r.required@ == seq![
                EvidenceKind::Identity,
                EvidenceKind::Determinism,
                EvidenceKind::Robustness,
            ],
            r.recommended@ == seq![EvidenceKind::Independence],
            r.informational@ == seq![EvidenceKind::Performance],
    {
        let mut required = Vec::new();
        required.push(EvidenceKind::Identity);
        required.push(EvidenceKind::Determinism);
        required.push(EvidenceKind::Robustness);
        let mut recommended = Vec::new();
        recommended.push(EvidenceKind::Independence);
        let mut informational = Vec::new();
        informational.push(EvidenceKind::Performance);
        let r = PromotionPolicy {
            policy_id: String::from_str("firebird-promotion-v1"),
            spec: String::from_str("ntt-contract-v1"),
            policy_hash: String::from_str(
                "sha256:403af6631e0c10cfe324cc43b0021ec09f7e15edad683bc5bed9d9a7e6fbe42d",
            ),
            required,
            recommended,
            informational,
        };
        assert(r.required@ =~= seq![
            EvidenceKind::Identity,
            EvidenceKind::Determinism,
            EvidenceKind::Robustness,
        ]);
        assert(r.recommended@ =~= seq![EvidenceKind::Independence]);
        assert(r.informational@ =~= seq![EvidenceKind::Performance]);
        r
    }
}

} // verus!
