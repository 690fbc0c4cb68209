//! Predicates as protocol objects: a result carries a predicate's identity
//! and status, a descriptor carries its identity and stage, never runtime
//! state. Stages run in a fixed order; a failure at one stage ends the path.
use crate::evidence_core::hash::{self, sha256_spec};
use crate::text::push_bytes;
use vstd::prelude::*;
use vstd::utf8::*;

verus! {

/// The status of a predicate evaluation.
#[derive(Debug, Clone, PartialEq, Eq)]
pub enum PredicateStatus {
    Pass,
    Fail(String),
    Error(String),
}

impl PredicateStatus {
    pub fn is_pass(&self) -> (r: bool)
        ensures
            r == self is Pass,
    {
        match self {
            PredicateStatus::Pass => true,
            _ => false,
        }
    }

    pub fn is_fail(&self) -> (r: bool)
        ensures
            r == self is Fail,
    {
        match self {
            PredicateStatus::Fail(_) => true,
            _ => false,
        }
    }
}

/// The result of evaluating one predicate: its identity and status.
#[derive(Debug, Clone, PartialEq, Eq)]
pub struct PredicateResult {
    pub predicate_id: String,
    pub status: PredicateStatus,
}

impl PredicateResult {
    pub fn new(predicate_id: &str, status: PredicateStatus) -> (r: Self)
        ensures
            r.predicate_id@ == predicate_id@,
            r.status == status,
    {
        PredicateResult { predicate_id: String::from_str(predicate_id), status }
    }

    pub fn passed(predicate_id: &str) -> (r: Self)
        ensures
            r.predicate_id@ == predicate_id@,
            r.status is Pass,
    {
        Self::new(predicate_id, PredicateStatus::Pass)
    }

    pub fn failed(predicate_id: &str, reason: &str) -> (r: Self)
        ensures
            r.predicate_id@ == predicate_id@,
            r.status matches PredicateStatus::Fail(m) && m@ == reason@,
    {
        Self::new(predicate_id, PredicateStatus::Fail(String::from_str(reason)))
    }
}

/// A predicate's identity in an evidence graph: id, version and stage
/// order (0 semantic correctness, 1 canonical representation, 2 identity
/// stability, 3 evidence admission).
#[derive(Debug, Clone, PartialEq, Eq, PartialOrd, Ord)]
pub struct PredicateDescriptor {
    pub id: String,
    pub version: String,
    pub order: u32,
}

impl PredicateDescriptor {
    pub fn new(id: &str, version: &str, order: u32) -> (r: Self)
        ensures
            r.id@ == id@,
            r.version@ == version@,
            r.order == order,
    {
        PredicateDescriptor {
            id: String::from_str(id),
            version: String::from_str(version),
            order,
        }
    }
}

/// The four execution stages, in protocol order.
#[derive(Debug, Clone, Copy, PartialEq, Eq, PartialOrd, Ord, Structural)]
pub enum PredicateStage {
    /// Does the computation mean what it claims?
    SemanticCorrectness,
    /// Is the output in canonical form?
    CanonicalRepresentation,
    /// Does the same input produce the same hash?
    IdentityStability,
    /// Does the evidence satisfy the contract?
    EvidenceAdmission,
}

/// The position of a stage in the protocol order.
pub open spec fn stage_order_spec(s: PredicateStage) -> u32 {
    match s {
        PredicateStage::SemanticCorrectness => 0,
        PredicateStage::CanonicalRepresentation => 1,
        PredicateStage::IdentityStability => 2,
        PredicateStage::EvidenceAdmission => 3,
    }
}

impl PredicateStage {
    pub fn as_str(&self) -> (r: &'static str)
        ensures
            r@ == match *self {
                PredicateStage::SemanticCorrectness => "semantic_correctness"@,
                PredicateStage::CanonicalRepresentation => "canonical_representation"@,
                PredicateStage::IdentityStability => "identity_stability"@,
                PredicateStage::EvidenceAdmission => "evidence_admission"@,
            },
    {
        match self {
            PredicateStage::SemanticCorrectness => "semantic_correctness",
            PredicateStage::CanonicalRepresentation => "canonical_representation",
            PredicateStage::IdentityStability => "identity_stability",
            PredicateStage::EvidenceAdmission => "evidence_admission",
        }
    }

    pub fn order(&self) -> (r: u32)
        ensures
            r == stage_order_spec(*self),
    {
        match self {
            PredicateStage::SemanticCorrectness => 0,
            PredicateStage::CanonicalRepresentation => 1,
            PredicateStage::IdentityStability => 2,
            PredicateStage::EvidenceAdmission => 3,
        }
    }
}

/// Stages are ordered by their position, and distinct stages have distinct
/// positions.
pub proof fn law_stage_order_injective(a: PredicateStage, b: PredicateStage)
    ensures
        stage_order_spec(a) == stage_order_spec(b) <==> a == b,
        stage_order_spec(a) < 4,
{
}

/// An ordered collection of predicate descriptors.
#[derive(Debug, Clone, PartialEq, Eq)]
pub struct PredicateSet {
    pub set_id: String,
    pub descriptors: Vec<PredicateDescriptor>,
}

/// The little-endian bytes of a `u32`.
pub open spec fn le_bytes_spec(x: u32) -> Seq<u8> {
    seq![
        (x % 256) as u8,
        (x / 256 % 256) as u8,
        (x / 65536 % 256) as u8,
        (x / 16777216 % 256) as u8,
    ]
}

/// One descriptor in the set encoding: `id \0 version \0 order(LE) \0`.
pub open spec fn descriptor_bytes_spec(d: PredicateDescriptor) -> Seq<u8> {
    encode_utf8(d.id@) + seq![0u8] + encode_utf8(d.version@) + seq![0u8] + le_bytes_spec(d.order)
        + seq![0u8]
}

/// The bytes hashed for a predicate set: its descriptors' encodings in order.
pub open spec fn set_bytes_spec(ds: Seq<PredicateDescriptor>) -> Seq<u8>
    decreases ds.len(),
{
    if ds.len() == 0 {
        Seq::empty()
    } else {
        set_bytes_spec(ds.drop_last()) + descriptor_bytes_spec(ds.last())
    }
}

/// **The set encoding covers every descriptor, in order**: each
/// descriptor's id, NUL, version, NUL, order as four little-endian bytes,
/// NUL, one after another.
pub proof fn law_set_bytes_cover_every_descriptor(ds: Seq<PredicateDescriptor>)
    ensures
        set_bytes_spec(ds) == ds.map_values(
            |d: PredicateDescriptor|
                encode_utf8(d.id@) + seq![0u8] + encode_utf8(d.version@) + seq![0u8] + seq![
                    (d.order % 256) as u8,
                    (d.order / 256 % 256) as u8,
                    (d.order / 65536 % 256) as u8,
                    (d.order / 16777216 % 256) as u8,
                    0u8,
                ],
        ).flatten(),
    decreases ds.len(),
{
    let f = |d: PredicateDescriptor|
        encode_utf8(d.id@) + seq![0u8] + encode_utf8(d.version@) + seq![0u8] + seq![
            (d.order % 256) as u8,
            (d.order / 256 % 256) as u8,
            (d.order / 65536 % 256) as u8,
            (d.order / 16777216 % 256) as u8,
            0u8,
        ];
    let m = ds.map_values(f);
    m.lemma_flatten_and_flatten_alt_are_equivalent();
    if ds.len() > 0 {
        law_set_bytes_cover_every_descriptor(ds.drop_last());
        assert(m.drop_last() =~= ds.drop_last().map_values(f));
        ds.drop_last().map_values(f).lemma_flatten_and_flatten_alt_are_equivalent();
        assert(descriptor_bytes_spec(ds.last()) =~= f(ds.last()));
    } else {
        assert(m.flatten_alt() =~= Seq::<u8>::empty());
    }
}

impl PredicateSet {
    pub fn new(set_id: &str, descriptors: Vec<PredicateDescriptor>) -> (r: Self)
        ensures
            r.set_id@ == set_id@,
            r.descriptors == descriptors,
    {
        PredicateSet { set_id: String::from_str(set_id), descriptors }
    }

    /// The set hash: SHA-256 over the descriptors' encodings, in order.
    pub fn set_hash(&self) -> (r: hash::Hash)
        ensures
            r@ == sha256_spec(set_bytes_spec(self.descriptors@)),
    {
        let mut data: Vec<u8> = Vec::new();
        let ds = &self.descriptors;
        let mut i: usize = 0;
        while i < ds.len()
            invariant
                i <= ds@.len(),
                data@ == set_bytes_spec(ds@.subrange(0, i as int)),
            decreases ds.len() - i,
        {
            let d = &ds[i];
            push_bytes(&mut data, d.id.as_str().as_bytes());
            data.push(0u8);
            push_bytes(&mut data, d.version.as_str().as_bytes());
            data.push(0u8);
            let o = d.order;
            data.push((o % 256) as u8);
            data.push((o / 256 % 256) as u8);
            data.push((o / 65536 % 256) as u8);
            data.push((o / 16777216 % 256) as u8);
            data.push(0u8);
            assert(ds@.subrange(0, i + 1).drop_last() =~= ds@.subrange(0, i as int));
            assert(data@ =~= set_bytes_spec(ds@.subrange(0, i + 1)));
            i += 1;
        }
        assert(ds@.subrange(0, ds.len() as int) =~= ds@);
        hash::Hash::compute(data.as_slice())
    }
}

/// A predicate that an adapter implements: identity, stage and evaluation
/// logic live in the adapter; the core stores only the descriptor.
pub trait Predicate {
    /// The stable identifier, as text.
    spec fn id_spec(&self) -> Seq<char>;

    /// The definition version, as text.
    spec fn version_spec(&self) -> Seq<char>;

    /// The execution stage.
    spec fn stage_spec(&self) -> PredicateStage;

    /// The stable identifier for this predicate.
    fn id(&self) -> (r: &'static str)
        ensures
            r@ == self.id_spec(),
    ;

    /// The version of this predicate's definition.
    fn version(&self) -> (r: &'static str)
        ensures
            r@ == self.version_spec(),
    ;

    /// The execution stage this predicate belongs to.
    fn stage(&self) -> (r: PredicateStage)
        ensures
            r == self.stage_spec(),
    ;

    /// Evaluates the predicate against the given context.
    fn evaluate(&self, context: &EvaluationContext) -> PredicateResult;

    /// The descriptor of this predicate: identity, not state.
    fn descriptor(&self) -> (r: PredicateDescriptor)
        ensures
            r.id@ == self.id_spec(),
            r.version@ == self.version_spec(),
            r.order == stage_order_spec(self.stage_spec()),
    {
        let id = self.id();
        let version = self.version();
        let stage = self.stage();
        PredicateDescriptor::new(id, version, stage.order())
    }
}

/// The inputs a predicate evaluates: the output digest and, for comparison
/// predicates, a reference digest.
#[derive(Debug, Clone)]
pub struct EvaluationContext {
    pub output_digest: hash::Hash,
    pub reference_digest: Option<hash::Hash>,
}

impl EvaluationContext {
    pub fn new(output_digest: hash::Hash) -> (r: Self)
        ensures
            r.output_digest == output_digest,
            r.reference_digest is None,
    {
        EvaluationContext { output_digest, reference_digest: None }
    }

    pub fn with_reference(self, reference_digest: hash::Hash) -> (r: Self)
        ensures
            r.output_digest == self.output_digest,
            r.reference_digest == Some(reference_digest),
    {
        let mut c = self;
        c.reference_digest = Some(reference_digest);
        c
    }
}

} // verus!
