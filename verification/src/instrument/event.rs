//! The promotion event: the immutable record of a successful transition,
//! which can itself be hashed and committed.
use crate::evidence_core::hash::{self, prefixed_hex_spec, sha256_spec};
use crate::text::{decimal_spec, u64_to_decimal};
use vstd::prelude::*;
use vstd::utf8::*;

verus! {

/// The record of a promotion: from which artifact to which, under which
/// policy, with which evidence, and the timings compared.
#[derive(Debug, Clone, PartialEq)]
pub struct PromotionEvent {
    pub from: String,
    pub to: String,
    pub policy_id: String,
    pub policy_hash: String,
    pub evidence_hash: String,
    pub candidate_ns: Option<u64>,
    pub parent_ns: Option<u64>,
    /// `"promoted"` for events emitted by the evaluation.
    pub result: String,
}

/// An optional count in the record: its decimal, or `null`.
pub open spec fn optional_count_spec(n: Option<u64>) -> Seq<char> {
    match n {
        Some(v) => decimal_spec(v as nat),
        None => "null"@,
    }
}

/// The stable one-line record of an event.
pub open spec fn record_spec(e: PromotionEvent) -> Seq<char> {
    "{\"event\":\"promotion\",\"from\":\""@ + e.from@ + "\",\"to\":\""@ + e.to@
        + "\",\"policy_id\":\""@ + e.policy_id@ + "\",\"policy_hash\":\""@ + e.policy_hash@
        + "\",\"evidence_hash\":\""@ + e.evidence_hash@ + "\",\"candidate_ns\":"@
        + optional_count_spec(e.candidate_ns) + ",\"parent_ns\":"@ + optional_count_spec(
        e.parent_ns,
    ) + ",\"result\":\""@ + e.result@ + "\"}"@
}

fn push_str(s: &mut String, t: &str)
    ensures
        final(s)@ == old(s)@ + t@,
{
    s.append(t);
}

fn push_optional_count(s: &mut String, n: Option<u64>)
    ensures
        final(s)@ == old(s)@ + optional_count_spec(n),
{
    match n {
        Some(v) => {
            let d = u64_to_decimal(v);
            push_str(s, d.as_str());
        },
        None => push_str(s, "null"),
    }
}

impl PromotionEvent {
    /// The event as a stable one-line JSON-like record, for hashing or logging.
    pub fn to_record(&self) -> (r: String)
        ensures
            r@ == record_spec(*self),
    {
        let mut s = String::new();
        push_str(&mut s, "{\"event\":\"promotion\",\"from\":\"");
        push_str(&mut s, self.from.as_str());
        push_str(&mut s, "\",\"to\":\"");
        push_str(&mut s, self.to.as_str());
        push_str(&mut s, "\",\"policy_id\":\"");
        push_str(&mut s, self.policy_id.as_str());
        push_str(&mut s, "\",\"policy_hash\":\"");
        push_str(&mut s, self.policy_hash.as_str());
        push_str(&mut s, "\",\"evidence_hash\":\"");
        push_str(&mut s, self.evidence_hash.as_str());
        push_str(&mut s, "\",\"candidate_ns\":");
        push_optional_count(&mut s, self.candidate_ns);
        push_str(&mut s, ",\"parent_ns\":");
        push_optional_count(&mut s, self.parent_ns);
        push_str(&mut s, ",\"result\":\"");
        push_str(&mut s, self.result.as_str());
        push_str(&mut s, "\"}");
        assert(s@ =~= record_spec(*self));
        s
    }

    /// `sha256:` and the hex digest of the record.
    pub fn commitment_hash(&self) -> (r: String)
        ensures
            r@ == prefixed_hex_spec(sha256_spec(encode_utf8(record_spec(*self)))),
    {
        let record = self.to_record();
        let h = hash::Hash::compute(record.as_str().as_bytes());
        h.to_prefixed_hex()
    }
}

} // verus!
