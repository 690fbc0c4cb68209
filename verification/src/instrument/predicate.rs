//! Verification predicates: the contract between a subsystem and the
//! verification gate, which only checks that each status is `Pass`; the
//! evidence reference is opaque to it.
use crate::text::str_eq;
use vstd::prelude::*;

verus! {

/// A stable predicate identifier.
#[derive(Debug, Clone, PartialEq, Eq, Hash, PartialOrd, Ord)]
pub struct PredicateId(pub String);

impl PredicateId {
    pub fn new(id: &str) -> (r: Self)
        ensures
            r.0@ == id@,
    {
        PredicateId(String::from_str(id))
    }

    pub fn as_str(&self) -> (r: &str)
        ensures
            r@ == self.0@,
    {
        self.0.as_str()
    }

    /// The identifier as displayed: its text.
    pub fn to_string(&self) -> (r: String)
        ensures
            r@ == self.0@,
    {
        self.0.clone()
    }
}

/// The status of a predicate. Only `Pass` satisfies the promotion rule.
#[derive(Debug, Clone, PartialEq, Eq)]
pub enum PredicateStatus {
    /// The evidence contract is satisfied.
    Pass,
    /// The evidence contract is not satisfied, with the reason.
    Fail(String),
    /// Not evaluated (for instance the backend is unavailable); rejects.
    Skip(String),
    /// Not yet evaluated; rejects.
    Pending,
}

/// A status as displayed: `PASS`, `FAIL(reason)`, `SKIP(reason)`, `PENDING`.
pub open spec fn status_text_spec(s: PredicateStatus) -> Seq<char> {
    match s {
        PredicateStatus::Pass => "PASS"@,
        PredicateStatus::Fail(r) => "FAIL("@ + r@ + ")"@,
        PredicateStatus::Skip(r) => "SKIP("@ + r@ + ")"@,
        PredicateStatus::Pending => "PENDING"@,
    }
}

impl PredicateStatus {
    pub fn is_pass(&self) -> (r: bool)
        ensures
            r == self is Pass,
    {
        match self {
            PredicateStatus::Pass => true,
            _ => false,
        }
    }

    pub fn is_reject(&self) -> (r: bool)
        ensures
            r == !(self is Pass),
    {
        !self.is_pass()
    }

    /// The status as displayed.
    pub fn to_string(&self) -> (r: String)
        ensures
            r@ == status_text_spec(*self),
    {
        let mut s = String::new();
        match self {
            PredicateStatus::Pass => s.append("PASS"),
            PredicateStatus::Fail(r) => {
                s.append("FAIL(");
                s.append(r.as_str());
                s.append(")");
            },
            PredicateStatus::Skip(r) => {
                s.append("SKIP(");
                s.append(r.as_str());
                s.append(")");
            },
            PredicateStatus::Pending => s.append("PENDING"),
        }
        assert(s@ =~= status_text_spec(*self));
        s
    }
}

/// One verification predicate: identifier, contract version, status and
/// a reference to its evidence.
#[derive(Debug, Clone)]
pub struct Predicate {
    pub id: PredicateId,
    pub version: u32,
    pub status: PredicateStatus,
    pub evidence_reference: String,
}

impl Predicate {
    pub fn new(id: &str, version: u32, status: PredicateStatus, evidence: &str) -> (r: Self)
        ensures
            r.id.0@ == id@,
            r.version == version,
            r.status == status,
            r.evidence_reference@ == evidence@,
    {
        Predicate {
            id: PredicateId::new(id),
            version,
            status,
            evidence_reference: String::from_str(evidence),
        }
    }

    pub fn pass(id: &str, version: u32, evidence: &str) -> (r: Self)
        ensures
            r.id.0@ == id@,
            r.version == version,
            r.status is Pass,
            r.evidence_reference@ == evidence@,
    {
        Self::new(id, version, PredicateStatus::Pass, evidence)
    }

    pub fn fail(id: &str, version: u32, evidence: &str, reason: &str) -> (r: Self)
        ensures
            r.id.0@ == id@,
            r.version == version,
            r.status matches PredicateStatus::Fail(m) && m@ == reason@,
            r.evidence_reference@ == evidence@,
    {
        Self::new(id, version, PredicateStatus::Fail(String::from_str(reason)), evidence)
    }

    pub fn skip(id: &str, version: u32, evidence: &str, reason: &str) -> (r: Self)
        ensures
            r.id.0@ == id@,
            r.version == version,
            r.status matches PredicateStatus::Skip(m) && m@ == reason@,
            r.evidence_reference@ == evidence@,
    {
        Self::new(id, version, PredicateStatus::Skip(String::from_str(reason)), evidence)
    }

    pub fn pending(id: &str, version: u32, evidence: &str) -> (r: Self)
        ensures
            r.id.0@ == id@,
            r.version == version,
            r.status is Pending,
            r.evidence_reference@ == evidence@,
    {
        Self::new(id, version, PredicateStatus::Pending, evidence)
    }
}

/// The predicates of one promotion evaluation, in the order added.
#[derive(Debug, Clone, Default)]
pub struct PredicateCollection {
    pub predicates: Vec<Predicate>,
}

/// The first index whose predicate has identifier `id`, if any.
pub open spec fn first_with_id(ps: Seq<Predicate>, id: Seq<char>) -> Option<int>
    decreases ps.len(),
{
    if ps.len() == 0 {
        None
    } else if ps[0].id.0@ == id {
        Some(0)
    } else {
        match first_with_id(ps.drop_first(), id) {
            Some(i) => Some(i + 1),
            None => None,
        }
    }
}

/// Whether every predicate passes.
pub open spec fn all_pass_spec(ps: Seq<Predicate>) -> bool {
    forall|i: int| 0 <= i < ps.len() ==> (#[trigger] ps[i]).status is Pass
}

/// The predicates that do not pass, in order.
pub open spec fn failures_spec(ps: Seq<Predicate>) -> Seq<Predicate> {
    ps.filter(|p: Predicate| !(p.status is Pass))
}

impl PredicateCollection {
    pub fn new() -> (r: Self)
        ensures
            r.predicates@ == Seq::<Predicate>::empty(),
    {
        PredicateCollection { predicates: Vec::new() }
    }

    /// Appends a predicate.
    pub fn add(&mut self, predicate: Predicate)
        ensures
            final(self).predicates@ == old(self).predicates@.push(predicate),
    {
        self.predicates.push(predicate);
    }

    /// The first predicate with identifier `id`.
    pub fn get(&self, id: &PredicateId) -> (r: Option<&Predicate>)
        ensures
            match first_with_id(self.predicates@, id.0@) {
                Some(i) => r == Some(&self.predicates@[i]),
                None => r is None,
            },
    {
        let ps = &self.predicates;
        assert(ps@.skip(0) =~= ps@);
        let mut i: usize = 0;
        while i < ps.len()
            invariant
                i <= ps@.len(),
                ps@ == self.predicates@,
                first_with_id(ps@, id.0@) == match first_with_id(ps@.skip(i as int), id.0@) {
                    Some(j) => Some(j + i),
                    None => None,
                },
            decreases ps.len() - i,
        {
            assert(ps@.skip(i as int)[0] == ps@[i as int]);
            if str_eq(ps[i].id.0.as_str(), id.0.as_str()) {
                return Some(&ps[i]);
            }
            assert(ps@.skip(i as int).drop_first() =~= ps@.skip(i + 1));
            i += 1;
        }
        assert(ps@.skip(i as int).len() == 0);
        None
    }

    /// Whether every predicate passes.
    pub fn all_pass(&self) -> (r: bool)
        ensures
            r == all_pass_spec(self.predicates@),
    {
        let ps = &self.predicates;
        let mut i: usize = 0;
        while i < ps.len()
            invariant
                i <= ps@.len(),
                ps@ == self.predicates@,
                forall|j: int| 0 <= j < i ==> (#[trigger] ps@[j]).status is Pass,
            decreases ps.len() - i,
        {
            if !ps[i].status.is_pass() {
                return false;
            }
            i += 1;
        }
        true
    }

    /// The predicates that do not pass, in order.
    pub fn failures(&self) -> (r: Vec<&Predicate>)
        ensures
            r@.map_values(|p: &Predicate| *p) == failures_spec(self.predicates@),
    {
        let ps = &self.predicates;
        let mut out: Vec<&Predicate> = Vec::new();
        let mut i: usize = 0;
        while i < ps.len()
            invariant
                i <= ps@.len(),
                ps@ == self.predicates@,
                out@.map_values(|p: &Predicate| *p) == failures_spec(ps@.subrange(0, i as int)),
            decreases ps.len() - i,
        {
            let ghost before = ps@.subrange(0, i as int);
            assert(ps@.subrange(0, i + 1).drop_last() =~= before);
            assert(ps@.subrange(0, i + 1).last() == ps@[i as int]);
            proof {
                reveal(Seq::filter);
            }
            if ps[i].status.is_reject() {
                out.push(&ps[i]);
            }
            assert(out@.map_values(|p: &Predicate| *p) =~= failures_spec(ps@.subrange(0, i + 1)));
            i += 1;
        }
        assert(ps@.subrange(0, ps.len() as int) =~= ps@);
        out
    }

    /// The canonical gate predicates of this crate, all pending:
    /// representation custody, execution custody, execution coverage.
    pub fn avx512_butterfly_v1() -> (r: Self)
        ensures
            r.predicates@.len() == 3,
            r.predicates@[0].id.0@ == "representation_custody"@,
            r.predicates@[1].id.0@ == "execution_custody"@,
            r.predicates@[2].id.0@ == "execution_coverage"@,
            forall|i: int| 0 <= i < 3 ==> (#[trigger] r.predicates@[i]).status is Pending
                && r.predicates@[i].version == 1,
            r.predicates@[0].evidence_reference@ == "tests/representation_audit.json"@,
            r.predicates@[1].evidence_reference@ == "tests/backend_parity.json"@,
            r.predicates@[2].evidence_reference@ == "tests/backend_parity.json"@,
    {
        let mut collection = Self::new();
        collection.add(
            Predicate::pending("representation_custody", 1, "tests/representation_audit.json"),
        );
        collection.add(Predicate::pending("execution_custody", 1, "tests/backend_parity.json"));
        collection.add(Predicate::pending("execution_coverage", 1, "tests/backend_parity.json"));
        collection
    }
}

} // verus!
