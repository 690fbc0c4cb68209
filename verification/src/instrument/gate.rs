//! The verification gate: every predicate passes, or the promotion is
//! rejected by the first one that does not, with every status recorded.
use crate::instrument::predicate::{
    all_pass_spec, status_text_spec, Predicate, PredicateCollection, PredicateStatus,
};
use vstd::prelude::*;

verus! {

/// The outcome of the verification gate.
#[derive(Debug, Clone, PartialEq, Eq)]
pub enum PromotionResult {
    /// Every predicate passed.
    Pass { predicate_count: usize, passed: Vec<String> },
    /// A predicate did not pass: the first such, why, and every status.
    Reject { rejecting_predicate: String, reason: String, all_statuses: Vec<(String, String)> },
}

impl PromotionResult {
    pub fn is_pass(&self) -> (r: bool)
        ensures
            r == self is Pass,
    {
        match self {
            PromotionResult::Pass { .. } => true,
            _ => false,
        }
    }

    pub fn is_reject(&self) -> (r: bool)
        ensures
            r == self is Reject,
    {
        match self {
            PromotionResult::Reject { .. } => true,
            _ => false,
        }
    }
}

/// The first predicate, in order, that does not pass.
pub open spec fn first_reject(ps: Seq<Predicate>) -> Option<int>
    decreases ps.len(),
{
    if ps.len() == 0 {
        None
    } else if !(ps[0].status is Pass) {
        Some(0)
    } else {
        match first_reject(ps.drop_first()) {
            Some(i) => Some(i + 1),
            None => None,
        }
    }
}

/// Why a non-passing status rejects: the failure reason, `skipped: ` and
/// the skip reason, or the pending notice.
pub open spec fn reject_reason_spec(s: PredicateStatus) -> Seq<char> {
    match s {
        PredicateStatus::Fail(r) => r@,
        PredicateStatus::Skip(r) => "skipped: "@ + r@,
        PredicateStatus::Pending => "evaluation pending — evidence not yet collected"@,
        PredicateStatus::Pass => Seq::empty(),
    }
}

/// Every predicate's identifier and displayed status, in order.
pub open spec fn statuses_spec(ps: Seq<Predicate>) -> Seq<(Seq<char>, Seq<char>)> {
    ps.map_values(|p: Predicate| (p.id.0@, status_text_spec(p.status)))
}

/// Every predicate's identifier, in order.
pub open spec fn ids_spec(ps: Seq<Predicate>) -> Seq<Seq<char>> {
    ps.map_values(|p: Predicate| p.id.0@)
}

/// The text view of a list of strings.
pub open spec fn strings_view(v: Seq<String>) -> Seq<Seq<char>> {
    v.map_values(|s: String| s@)
}

/// The text view of a list of string pairs.
pub open spec fn string_pairs_view(v: Seq<(String, String)>) -> Seq<(Seq<char>, Seq<char>)> {
    v.map_values(|x: (String, String)| (x.0@, x.1@))
}

/// The decision of the verification gate on a sequence of predicates.
pub open spec fn gate_result_spec(ps: Seq<Predicate>, r: PromotionResult) -> bool {
    match first_reject(ps) {
        None => match r {
            PromotionResult::Pass { predicate_count, passed } => predicate_count == ps.len()
                && strings_view(passed@) == ids_spec(ps),
            _ => false,
        },
        Some(i) => match r {
            PromotionResult::Reject { rejecting_predicate, reason, all_statuses } =>
                rejecting_predicate@ == ps[i].id.0@ && reason@ == reject_reason_spec(ps[i].status)
                && string_pairs_view(all_statuses@) == statuses_spec(ps),
            _ => false,
        },
    }
}

proof fn lemma_first_reject_skip(ps: Seq<Predicate>, i: int)
    requires
        0 <= i <= ps.len(),
        forall|j: int| 0 <= j < i ==> (#[trigger] ps[j]).status is Pass,
    ensures
        first_reject(ps) == match first_reject(ps.skip(i)) {
            Some(j) => Some(j + i),
            None => None,
        },
    decreases i,
{
    if i == 0 {
        assert(ps.skip(0) =~= ps);
        match first_reject(ps) {
            Some(j) => {},
            None => {},
        }
    } else {
        assert forall|j: int| 0 <= j < i - 1 implies (#[trigger] ps.drop_first()[j]).status is Pass by {
            assert(ps.drop_first()[j] == ps[j + 1]);
        }
        lemma_first_reject_skip(ps.drop_first(), i - 1);
        assert(ps.drop_first().skip(i - 1) =~= ps.skip(i));
    }
}

proof fn lemma_first_reject_none(ps: Seq<Predicate>)
    ensures
        first_reject(ps) is None <==> all_pass_spec(ps),
        first_reject(ps) matches Some(i) ==> 0 <= i < ps.len() && !(ps[i].status is Pass) && forall|
            j: int,
        | 0 <= j < i ==> (#[trigger] ps[j]).status is Pass,
    decreases ps.len(),
{
    if ps.len() > 0 {
        lemma_first_reject_none(ps.drop_first());
        if all_pass_spec(ps.drop_first()) && ps[0].status is Pass {
            assert forall|i: int| 0 <= i < ps.len() implies (#[trigger] ps[i]).status is Pass by {
                if i > 0 {
                    assert(ps[i] == ps.drop_first()[i - 1]);
                }
            }
        }
        if all_pass_spec(ps) {
            assert forall|i: int| 0 <= i < ps.drop_first().len() implies (
            #[trigger] ps.drop_first()[i]).status is Pass by {
                assert(ps.drop_first()[i] == ps[i + 1]);
            }
        }
        match first_reject(ps.drop_first()) {
            Some(k) => {
                assert forall|j: int| 0 <= j < k + 1 implies (#[trigger] ps[j]).status is Pass
                    || first_reject(ps) == Some(0int) by {
                    if j > 0 {
                        assert(ps[j] == ps.drop_first()[j - 1]);
                    }
                }
                assert(ps[k + 1] == ps.drop_first()[k]);
            },
            None => {},
        }
    }
}

/// The verification gate passes exactly when every predicate passes; when it rejects,
/// the rejecting predicate is the first that does not pass, and every
/// predicate before it passed.
pub proof fn law_gate_all_or_first_failure(ps: Seq<Predicate>, r: PromotionResult)
    requires
        gate_result_spec(ps, r),
    ensures
        r is Pass <==> all_pass_spec(ps),
        r is Pass <==> forall|i: int| 0 <= i < ps.len() ==> (#[trigger] ps[i]).status is Pass,
        r matches PromotionResult::Reject { rejecting_predicate, .. } ==> exists|i: int|
            0 <= i < ps.len() && !(ps[i].status is Pass) && rejecting_predicate@ == ps[i].id.0@
                && forall|j: int| 0 <= j < i ==> (#[trigger] ps[j]).status is Pass,
{
    lemma_first_reject_none(ps);
    match first_reject(ps) {
        Some(i) => {
            assert(!(ps[i].status is Pass));
        },
        None => {},
    }
}

/// Appends the identifier and displayed status of predicates `from..`.
fn push_statuses(all: &mut Vec<(String, String)>, ps: &Vec<Predicate>, from: usize)
    requires
        from <= ps@.len(),
    ensures
        string_pairs_view(final(all)@) == string_pairs_view(old(all)@) + statuses_spec(
            ps@.skip(from as int),
        ),
{
    let ghost a0 = string_pairs_view(all@);
    let mut i: usize = from;
    while i < ps.len()
        invariant
            from <= i <= ps@.len(),
            string_pairs_view(all@) == a0 + statuses_spec(ps@.subrange(from as int, i as int)),
        decreases ps.len() - i,
    {
        let id = String::from_str(ps[i].id.as_str());
        let st = ps[i].status.to_string();
        let ghost before = all@;
        all.push((id, st));
        assert(all@ == before.push((id, st)));
        assert(string_pairs_view(all@) =~= string_pairs_view(before).push((id@, st@)));
        assert(ps@.subrange(from as int, i + 1) =~= ps@.subrange(from as int, i as int).push(
            ps@[i as int],
        ));
        assert(string_pairs_view(all@) =~= a0 + statuses_spec(ps@.subrange(from as int, i + 1)));
        i += 1;
    }
    assert(ps@.subrange(from as int, ps@.len() as int) =~= ps@.skip(from as int));
}

/// Evaluates the predicates in the order they were added: the first one
/// that does not pass rejects (with its reason and every status);
/// otherwise the promotion passes with every identifier.
pub fn evaluate_gate(predicates: &PredicateCollection) -> (r: PromotionResult)
    ensures
        gate_result_spec(predicates.predicates@, r),
{
    let ps = &predicates.predicates;
    let mut passed: Vec<String> = Vec::new();
    let mut all_statuses: Vec<(String, String)> = Vec::new();
    let mut i: usize = 0;
    while i < ps.len()
        invariant
            i <= ps@.len(),
            ps@ == predicates.predicates@,
            forall|j: int| 0 <= j < i ==> (#[trigger] ps@[j]).status is Pass,
            passed@.len() == i,
            strings_view(passed@) == ids_spec(ps@.subrange(0, i as int)),
            string_pairs_view(all_statuses@) == statuses_spec(ps@.subrange(0, i as int)),
        decreases ps.len() - i,
    {
        let id_str = String::from_str(ps[i].id.as_str());
        let status_str = ps[i].status.to_string();
        assert(id_str@ == ps@[i as int].id.0@);
        assert(status_str@ == status_text_spec(ps@[i as int].status));
        let ghost passed0 = passed@;
        let ghost all0 = all_statuses@;
        let ghost sub = ps@.subrange(0, i + 1);
        assert(sub =~= ps@.subrange(0, i as int).push(ps@[i as int]));
        match &ps[i].status {
            PredicateStatus::Pass => {
                let c = id_str.clone();
                passed.push(c);
                all_statuses.push((id_str, status_str));
                assert(strings_view(passed@) =~= strings_view(passed0).push(c@));
                assert(string_pairs_view(all_statuses@) =~= string_pairs_view(all0).push(
                    (c@, status_str@),
                ));
                assert(strings_view(passed@) =~= ids_spec(sub));
                assert(string_pairs_view(all_statuses@) =~= statuses_spec(sub));
            },
            _ => {
                let reason = match &ps[i].status {
                    PredicateStatus::Fail(r) => r.clone(),
                    PredicateStatus::Skip(r) => {
                        let mut m = String::from_str("skipped: ");
                        m.append(r.as_str());
                        m
                    },
                    _ => String::from_str("evaluation pending — evidence not yet collected"),
                };
                let c = id_str.clone();
                all_statuses.push((c, status_str));
                assert(string_pairs_view(all_statuses@) =~= string_pairs_view(all0).push(
                    (c@, status_str@),
                ));
                assert(string_pairs_view(all_statuses@) =~= statuses_spec(sub));
                push_statuses(&mut all_statuses, ps, i + 1);
                proof {
                    assert(sub + ps@.skip(i + 1) =~= ps@);
                    assert(statuses_spec(sub) + statuses_spec(ps@.skip(i + 1)) =~= statuses_spec(
                        ps@,
                    ));
                    lemma_first_reject_skip(ps@, i as int);
                    assert(ps@.skip(i as int)[0] == ps@[i as int]);
                }
                return PromotionResult::Reject {
                    rejecting_predicate: id_str,
                    reason,
                    all_statuses,
                };
            },
        }
        i += 1;
    }
    proof {
        lemma_first_reject_skip(ps@, i as int);
        assert(ps@.skip(i as int).len() == 0);
        assert(ps@.subrange(0, i as int) =~= ps@);
    }
    PromotionResult::Pass { predicate_count: passed.len(), passed }
}

/// Builds a predicate collection step by step and evaluates it.
pub struct GateBuilder {
    collection: PredicateCollection,
}

impl GateBuilder {
    /// The predicates added so far.
    pub closed spec fn added(&self) -> Seq<Predicate> {
        self.collection.predicates@
    }

    pub fn new() -> (r: Self)
        ensures
            r.added() == Seq::<Predicate>::empty(),
    {
        GateBuilder { collection: PredicateCollection::new() }
    }

    pub fn pass(self, id: &str, version: u32, evidence: &str) -> (r: Self)
        ensures
            r.added().len() == self.added().len() + 1,
            r.added().drop_last() == self.added(),
            r.added().last().id.0@ == id@ && r.added().last().version == version,
            r.added().last().status is Pass,
            r.added().last().evidence_reference@ == evidence@,
    {
        self.add(Predicate::pass(id, version, evidence))
    }

    pub fn fail(self, id: &str, version: u32, evidence: &str, reason: &str) -> (r: Self)
        ensures
            r.added().len() == self.added().len() + 1,
            r.added().drop_last() == self.added(),
            r.added().last().id.0@ == id@ && r.added().last().version == version,
            r.added().last().status matches PredicateStatus::Fail(m) && m@ == reason@,
            r.added().last().evidence_reference@ == evidence@,
    {
        self.add(Predicate::fail(id, version, evidence, reason))
    }

    pub fn skip(self, id: &str, version: u32, evidence: &str, reason: &str) -> (r: Self)
        ensures
            r.added().len() == self.added().len() + 1,
            r.added().drop_last() == self.added(),
            r.added().last().id.0@ == id@ && r.added().last().version == version,
            r.added().last().status matches PredicateStatus::Skip(m) && m@ == reason@,
            r.added().last().evidence_reference@ == evidence@,
    {
        self.add(Predicate::skip(id, version, evidence, reason))
    }

    pub fn pending(self, id: &str, version: u32, evidence: &str) -> (r: Self)
        ensures
            r.added().len() == self.added().len() + 1,
            r.added().drop_last() == self.added(),
            r.added().last().id.0@ == id@ && r.added().last().version == version,
            r.added().last().status is Pending,
            r.added().last().evidence_reference@ == evidence@,
    {
        self.add(Predicate::pending(id, version, evidence))
    }

    pub fn add(self, predicate: Predicate) -> (r: Self)
        ensures
            r.added() == self.added().push(predicate),
    {
        let mut b = self;
        b.collection.add(predicate);
        b
    }

    /// Evaluates the predicates added so far.
    pub fn evaluate(self) -> (r: PromotionResult)
        ensures
            gate_result_spec(self.added(), r),
    {
        evaluate_gate(&self.collection)
    }

    /// The collection built so far.
    pub fn collection(self) -> (r: PredicateCollection)
        ensures
            r.predicates@ == self.added(),
    {
        self.collection
    }
}

impl Default for GateBuilder {
    fn default() -> (r: Self)
        ensures
            r.added() == Seq::<Predicate>::empty(),
    {
        Self::new()
    }
}

} // verus!
