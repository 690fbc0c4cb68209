//! The evidence artifact binds what was asked (request), what was produced
//! (result) and what happened (provenance). Evidence accumulates; it is
//! never rewritten. Admission asks one thing: did every predicate pass?
use crate::evidence_core::artifact::{EvaluationRequest, EvaluationResult};
use crate::evidence_core::canonical::Canonical;
use crate::evidence_core::hash::{self, sha256_spec};
use crate::evidence_core::predicate::{PredicateResult, PredicateStatus};
use crate::text::push_bytes;
use vstd::prelude::*;
use vstd::utf8::*;

verus! {

/// What happened during execution: enough immutable references to relate
/// inputs, execution and result.
#[derive(Debug, Clone, PartialEq, Eq)]
pub struct ProvenanceRecord {
    pub artifact_id: String,
    pub artifact_content_hash: hash::Hash,
    pub source_commit: String,
    pub adapter_id: String,
    pub adapter_hash: Option<hash::Hash>,
    pub environment_contract_hash: hash::Hash,
    pub executed_at: String,
}

impl ProvenanceRecord {
    pub fn new(
        artifact_id: &str,
        artifact_content_hash: hash::Hash,
        source_commit: &str,
        adapter_id: &str,
        environment_contract_hash: hash::Hash,
        executed_at: &str,
    ) -> (r: Self)
        ensures
            r.artifact_id@ == artifact_id@,
            r.artifact_content_hash == artifact_content_hash,
            r.source_commit@ == source_commit@,
            r.adapter_id@ == adapter_id@,
            r.adapter_hash is None,
            r.environment_contract_hash == environment_contract_hash,
            r.executed_at@ == executed_at@,
    {
        ProvenanceRecord {
            artifact_id: String::from_str(artifact_id),
            artifact_content_hash,
            source_commit: String::from_str(source_commit),
            adapter_id: String::from_str(adapter_id),
            adapter_hash: None,
            environment_contract_hash,
            executed_at: String::from_str(executed_at),
        }
    }

    pub fn with_adapter_hash(self, hash: hash::Hash) -> (r: Self)
        ensures
            r.artifact_id == self.artifact_id,
            r.artifact_content_hash == self.artifact_content_hash,
            r.source_commit == self.source_commit,
            r.adapter_id == self.adapter_id,
            r.adapter_hash == Some(hash),
            r.environment_contract_hash == self.environment_contract_hash,
            r.executed_at == self.executed_at,
    {
        let mut p = self;
        p.adapter_hash = Some(hash);
        p
    }
}

/// The frozen evaluation record.
#[derive(Debug, Clone, PartialEq, Eq)]
pub struct EvidenceArtifact {
    pub request: EvaluationRequest,
    pub result: EvaluationResult,
    pub provenance: ProvenanceRecord,
}

/// A text field in the evidence encoding: its UTF-8 bytes and a NUL.
pub open spec fn text_field(s: Seq<char>) -> Seq<u8> {
    encode_utf8(s) + seq![0u8]
}

/// A hash field in the evidence encoding: its 32 bytes and a NUL.
pub open spec fn hash_field(h: hash::Hash) -> Seq<u8> {
    h@ + seq![0u8]
}

/// A status in the evidence encoding: `P`, `F` and the reason, or `E` and
/// the error.
pub open spec fn status_bytes_spec(s: PredicateStatus) -> Seq<u8> {
    match s {
        PredicateStatus::Pass => seq![80u8],
        PredicateStatus::Fail(r) => seq![70u8] + encode_utf8(r@),
        PredicateStatus::Error(e) => seq![69u8] + encode_utf8(e@),
    }
}

/// The predicate results in the evidence encoding, in order.
pub open spec fn results_bytes_spec(rs: Seq<PredicateResult>) -> Seq<u8>
    decreases rs.len(),
{
    if rs.len() == 0 {
        Seq::empty()
    } else {
        results_bytes_spec(rs.drop_last()) + text_field(rs.last().predicate_id@)
            + status_bytes_spec(rs.last().status) + seq![0u8]
    }
}

/// The canonical bytes of an evidence artifact: request, result, then
/// provenance (the adapter hash is not part of them).
pub open spec fn evidence_bytes_spec(e: EvidenceArtifact) -> Seq<u8> {
    text_field(e.request.artifact_id@) + text_field(e.request.adapter_id@) + hash_field(
        e.request.environment_contract_hash,
    ) + hash_field(e.request.predicate_set_hash) + hash_field(e.result.output_digest)
        + results_bytes_spec(e.result.predicate_results@) + text_field(e.provenance.artifact_id@)
        + hash_field(e.provenance.artifact_content_hash) + text_field(e.provenance.source_commit@)
        + text_field(e.provenance.adapter_id@) + hash_field(e.provenance.environment_contract_hash)
        + text_field(e.provenance.executed_at@)
}

/// One predicate result in the evidence encoding, written out: the id's
/// UTF-8 bytes, NUL, `P` for a pass, `F` and the reason for a failure or
/// `E` and the error for an error, and NUL.
pub open spec fn result_entry_bytes(r: PredicateResult) -> Seq<u8> {
    encode_utf8(r.predicate_id@) + seq![0u8] + (match r.status {
        PredicateStatus::Pass => seq![80u8],
        PredicateStatus::Fail(m) => seq![70u8] + encode_utf8(m@),
        PredicateStatus::Error(m) => seq![69u8] + encode_utf8(m@),
    }) + seq![0u8]
}

proof fn lemma_results_flatten(rs: Seq<PredicateResult>)
    ensures
        results_bytes_spec(rs) == rs.map_values(|r: PredicateResult| result_entry_bytes(r)).flatten(),
    decreases rs.len(),
{
    let f = |r: PredicateResult| result_entry_bytes(r);
    let m = rs.map_values(f);
    m.lemma_flatten_and_flatten_alt_are_equivalent();
    if rs.len() > 0 {
        lemma_results_flatten(rs.drop_last());
        assert(m.drop_last() =~= rs.drop_last().map_values(f));
        rs.drop_last().map_values(f).lemma_flatten_and_flatten_alt_are_equivalent();
        assert(m.last() == result_entry_bytes(rs.last()));
        assert(text_field(rs.last().predicate_id@) + status_bytes_spec(rs.last().status)
            + seq![0u8] =~= result_entry_bytes(rs.last()));
    } else {
        assert(m.flatten_alt() =~= Seq::<u8>::empty());
    }
}

/// **The evidence encoding covers every predicate result, in order.** The
/// canonical bytes are: artifact id, adapter id (each UTF-8 and NUL), the
/// environment-contract, predicate-set and output hashes (each 32 bytes and
/// NUL), then every predicate result in order (id, NUL, status, NUL), then
/// the provenance's artifact id, content hash, source commit, adapter id,
/// environment-contract hash and execution time.
pub proof fn law_evidence_bytes_cover_every_result(e: EvidenceArtifact)
    ensures
        evidence_bytes_spec(e) == encode_utf8(e.request.artifact_id@) + seq![0u8] + encode_utf8(
            e.request.adapter_id@,
        ) + seq![0u8] + e.request.environment_contract_hash@ + seq![0u8]
            + e.request.predicate_set_hash@ + seq![0u8] + e.result.output_digest@ + seq![0u8]
            + e.result.predicate_results@.map_values(|r: PredicateResult| result_entry_bytes(r)).flatten()
            + encode_utf8(e.provenance.artifact_id@) + seq![0u8]
            + e.provenance.artifact_content_hash@ + seq![0u8] + encode_utf8(
            e.provenance.source_commit@,
        ) + seq![0u8] + encode_utf8(e.provenance.adapter_id@) + seq![0u8]
            + e.provenance.environment_contract_hash@ + seq![0u8] + encode_utf8(
            e.provenance.executed_at@,
        ) + seq![0u8],
{
    lemma_results_flatten(e.result.predicate_results@);
}

fn push_text_field(data: &mut Vec<u8>, s: &String)
    ensures
        final(data)@ == old(data)@ + text_field(s@),
{
    push_bytes(data, s.as_str().as_bytes());
    data.push(0u8);
}

fn push_hash_field(data: &mut Vec<u8>, h: &hash::Hash)
    ensures
        final(data)@ == old(data)@ + hash_field(*h),
{
    let b = h.as_bytes();
    push_bytes(data, b);
    data.push(0u8);
}

impl EvidenceArtifact {
    pub fn new(request: EvaluationRequest, result: EvaluationResult, provenance: ProvenanceRecord) -> (r: Self)
        ensures
            r.request == request,
            r.result == result,
            r.provenance == provenance,
    {
        EvidenceArtifact { request, result, provenance }
    }

    /// Admissible exactly when the result records that all predicates passed.
    pub fn is_admissible(&self) -> (r: bool)
        ensures
            r == self.result.all_passed,
    {
        self.result.all_passed
    }

    /// The custody commitment: the hash of the canonical bytes.
    pub fn evidence_hash(&self) -> (r: hash::Hash)
        ensures
            r@ == sha256_spec(evidence_bytes_spec(*self)),
    {
        self.canonical_hash()
    }
}

impl Canonical for EvidenceArtifact {
    open spec fn canonical_spec(&self) -> Seq<u8> {
        evidence_bytes_spec(*self)
    }

    fn canonical_bytes(&self) -> (r: Vec<u8>) {
        let mut data: Vec<u8> = Vec::new();
        push_text_field(&mut data, &self.request.artifact_id);
        push_text_field(&mut data, &self.request.adapter_id);
        push_hash_field(&mut data, &self.request.environment_contract_hash);
        push_hash_field(&mut data, &self.request.predicate_set_hash);
        push_hash_field(&mut data, &self.result.output_digest);
        let ghost head = data@;
        let rs = &self.result.predicate_results;
        let mut i: usize = 0;
        while i < rs.len()
            invariant
                i <= rs@.len(),
                data@ == head + results_bytes_spec(rs@.subrange(0, i as int)),
            decreases rs.len() - i,
        {
            let pr = &rs[i];
            push_text_field(&mut data, &pr.predicate_id);
            match &pr.status {
                PredicateStatus::Pass => {
                    data.push(80u8);
                },
                PredicateStatus::Fail(r) => {
                    data.push(70u8);
                    push_bytes(&mut data, r.as_str().as_bytes());
                },
                PredicateStatus::Error(e) => {
                    data.push(69u8);
                    push_bytes(&mut data, e.as_str().as_bytes());
                },
            }
            data.push(0u8);
            assert(rs@.subrange(0, i + 1).drop_last() =~= rs@.subrange(0, i as int));
            assert(data@ =~= head + results_bytes_spec(rs@.subrange(0, i + 1)));
            i += 1;
        }
        assert(rs@.subrange(0, rs.len() as int) =~= rs@);
        push_text_field(&mut data, &self.provenance.artifact_id);
        push_hash_field(&mut data, &self.provenance.artifact_content_hash);
        push_text_field(&mut data, &self.provenance.source_commit);
        push_text_field(&mut data, &self.provenance.adapter_id);
        push_hash_field(&mut data, &self.provenance.environment_contract_hash);
        push_text_field(&mut data, &self.provenance.executed_at);
        assert(data@ =~= evidence_bytes_spec(*self));
        data
    }
}

/// The admission decision for an evidence artifact.
#[derive(Debug, Clone, PartialEq, Eq)]
pub enum AdmissionDecision {
    /// All predicates passed.
    Admitted,
    /// Not admissible; the first failing predicate's reason.
    Rejected(String),
}

/// The rejection text of the first result that did not pass:
/// `"id: reason"` for a failure, `"id: ERROR: error"` for an error, and
/// empty when every result passed.
pub open spec fn rejection_text_spec(rs: Seq<PredicateResult>) -> Seq<char>
    decreases rs.len(),
{
    if rs.len() == 0 {
        Seq::empty()
    } else {
        match rs[0].status {
            PredicateStatus::Pass => rejection_text_spec(rs.drop_first()),
            PredicateStatus::Fail(r) => rs[0].predicate_id@ + ": "@ + r@,
            PredicateStatus::Error(e) => rs[0].predicate_id@ + ": ERROR: "@ + e@,
        }
    }
}

/// Admission: admitted when the result records that all predicates passed,
/// otherwise rejected with the first failing predicate's reason.
pub fn evaluate_admission(evidence: &EvidenceArtifact) -> (r: AdmissionDecision)
    ensures
        evidence.result.all_passed ==> r is Admitted,
        !evidence.result.all_passed ==> (r matches AdmissionDecision::Rejected(m) && m@
            == rejection_text_spec(evidence.result.predicate_results@)),
{
    if evidence.result.all_passed {
        return AdmissionDecision::Admitted;
    }
    let rs = &evidence.result.predicate_results;
    assert(rs@.skip(0) =~= rs@);
    let mut i: usize = 0;
    while i < rs.len()
        invariant
            i <= rs@.len(),
            !evidence.result.all_passed,
            rs@ == evidence.result.predicate_results@,
            rejection_text_spec(rs@) == rejection_text_spec(rs@.skip(i as int)),
        decreases rs.len() - i,
    {
        assert(rs@.skip(i as int)[0] == rs@[i as int]);
        match &rs[i].status {
            PredicateStatus::Pass => {},
            PredicateStatus::Fail(reason) => {
                let mut m = String::from_str(rs[i].predicate_id.as_str());
                m.append(": ");
                m.append(reason.as_str());
                return AdmissionDecision::Rejected(m);
            },
            PredicateStatus::Error(e) => {
                let mut m = String::from_str(rs[i].predicate_id.as_str());
                m.append(": ERROR: ");
                m.append(e.as_str());
                return AdmissionDecision::Rejected(m);
            },
        }
        assert(rs@.skip(i as int).drop_first() =~= rs@.skip(i + 1));
        i += 1;
    }
    assert(rs@.skip(i as int).len() == 0);
    AdmissionDecision::Rejected(String::new())
}


/// **A rejection names the first result that did not pass.** When some
/// result did not pass, the rejection text is `"id: reason"` (failure) or
/// `"id: ERROR: error"` (error) of the first such result; every result
/// before it passed.
pub proof fn law_rejection_names_first_unpassed(rs: Seq<PredicateResult>, i: int)
    requires
        0 <= i < rs.len(),
        !(rs[i].status is Pass),
        forall|j: int| 0 <= j < i ==> (#[trigger] rs[j]).status is Pass,
    ensures
        rejection_text_spec(rs) == match rs[i].status {
            PredicateStatus::Fail(m) => rs[i].predicate_id@ + ": "@ + m@,
            PredicateStatus::Error(m) => rs[i].predicate_id@ + ": ERROR: "@ + m@,
            PredicateStatus::Pass => Seq::<char>::empty(),
        },
    decreases i,
{
    if i > 0 {
        assert(rs[0].status is Pass);
        let t = rs.drop_first();
        assert forall|j: int| 0 <= j < i - 1 implies (#[trigger] t[j]).status is Pass by {
            assert(t[j] == rs[j + 1]);
        }
        assert(t[i - 1] == rs[i]);
        law_rejection_names_first_unpassed(t, i - 1);
    }
}

} // verus!
