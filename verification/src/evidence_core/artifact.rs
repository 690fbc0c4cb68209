//! Artifact, evaluation request and evaluation result: the artifact is the
//! immutable identity; requests and results are where variability enters.
use crate::evidence_core::hash;
use crate::evidence_core::predicate::PredicateResult;
use vstd::prelude::*;

verus! {

/// Minimal immutable artifact identity: what it is, what it contains and
/// what schema it conforms to. No evaluator information.
#[derive(Debug, Clone, PartialEq, Eq)]
pub struct Artifact {
    pub artifact_id: String,
    pub content_hash: hash::Hash,
    pub schema_hash: hash::Hash,
}

impl Artifact {
    pub fn new(artifact_id: &str, content_hash: hash::Hash, schema_hash: hash::Hash) -> (r: Self)
        ensures
            r.artifact_id@ == artifact_id@,
            r.content_hash == content_hash,
            r.schema_hash == schema_hash,
    {
        Artifact { artifact_id: String::from_str(artifact_id), content_hash, schema_hash }
    }
}

/// An evaluation request: this artifact, by this adapter, under this
/// environment contract, against this predicate set.
#[derive(Debug, Clone, PartialEq, Eq)]
pub struct EvaluationRequest {
    pub artifact_id: String,
    pub adapter_id: String,
    pub environment_contract_hash: hash::Hash,
    pub predicate_set_hash: hash::Hash,
}

impl EvaluationRequest {
    pub fn new(
        artifact_id: &str,
        adapter_id: &str,
        environment_contract_hash: hash::Hash,
        predicate_set_hash: hash::Hash,
    ) -> (r: Self)
        ensures
            r.artifact_id@ == artifact_id@,
            r.adapter_id@ == adapter_id@,
            r.environment_contract_hash == environment_contract_hash,
            r.predicate_set_hash == predicate_set_hash,
    {
        EvaluationRequest {
            artifact_id: String::from_str(artifact_id),
            adapter_id: String::from_str(adapter_id),
            environment_contract_hash,
            predicate_set_hash,
        }
    }
}

/// Whether every predicate result passed.
pub open spec fn all_pass_spec(rs: Seq<PredicateResult>) -> bool {
    forall|i: int| 0 <= i < rs.len() ==> (#[trigger] rs[i]).status is Pass
}

/// The evaluation result: the output digest and the predicate results.
#[derive(Debug, Clone, PartialEq, Eq)]
pub struct EvaluationResult {
    pub output_digest: hash::Hash,
    pub predicate_results: Vec<PredicateResult>,
    pub all_passed: bool,
}

impl EvaluationResult {
    /// A result whose `all_passed` records whether every predicate passed.
    pub fn new(output_digest: hash::Hash, predicate_results: Vec<PredicateResult>) -> (r: Self)
        ensures
            r.output_digest == output_digest,
            r.predicate_results@ == predicate_results@,
            r.all_passed == all_pass_spec(predicate_results@),
            r.all_passed <==> forall|i: int|
                0 <= i < predicate_results@.len() ==> (#[trigger] predicate_results@[i]).status is Pass,
    {
        let mut all_passed = true;
        let mut i: usize = 0;
        while i < predicate_results.len()
            invariant
                i <= predicate_results@.len(),
                all_passed == all_pass_spec(predicate_results@.subrange(0, i as int)),
            decreases predicate_results.len() - i,
        {
            let p = predicate_results[i].status.is_pass();
            assert(predicate_results@.subrange(0, i + 1)[i as int] == predicate_results@[i as int]);
            assert forall|j: int| 0 <= j < i implies predicate_results@.subrange(0, i + 1)[j]
                == #[trigger] predicate_results@.subrange(0, i as int)[j] by {}
            all_passed = all_passed && p;
            i += 1;
        }
        assert(predicate_results@.subrange(0, predicate_results.len() as int) =~= predicate_results@);
        EvaluationResult { output_digest, predicate_results, all_passed }
    }
}


/// **One result that did not pass keeps the evaluation from passing**: a
/// failed or errored predicate result makes `all_passed` false.
pub proof fn law_unpassed_result_blocks(rs: Seq<PredicateResult>, i: int)
    requires
        0 <= i < rs.len(),
        !(rs[i].status is Pass),
    ensures
        !all_pass_spec(rs),
{
}

/// **Every result passed makes the evaluation pass**, including no result.
pub proof fn law_all_results_passed(rs: Seq<PredicateResult>)
    requires
        forall|i: int| 0 <= i < rs.len() ==> (#[trigger] rs[i]).status is Pass,
    ensures
        all_pass_spec(rs),
{
}

} // verus!
