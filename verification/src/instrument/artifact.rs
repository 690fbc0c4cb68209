//! The unit of trust: an artifact carries its evidence graph and a
//! commitment hash over the graph's content, so that altering any node
//! after sealing is detectable.
use crate::evidence_core::hash::{self, prefixed_hex_spec, sha256_spec};
use crate::text::{contains_spec, decimal_spec, str_eq, u64_to_decimal};
use vstd::prelude::*;
use vstd::utf8::*;

verus! {

/// The five evidence kinds.
#[derive(Debug, Clone, Copy, PartialEq, Eq, Hash, PartialOrd, Ord, Structural)]
pub enum EvidenceKind {
    Identity,
    Determinism,
    Independence,
    Robustness,
    Performance,
}

/// The name of an evidence kind.
pub open spec fn kind_name_spec(k: EvidenceKind) -> Seq<char> {
    match k {
        EvidenceKind::Identity => "identity"@,
        EvidenceKind::Determinism => "determinism"@,
        EvidenceKind::Independence => "independence"@,
        EvidenceKind::Robustness => "robustness"@,
        EvidenceKind::Performance => "performance"@,
    }
}

impl EvidenceKind {
    pub fn as_str(&self) -> (r: &'static str)
        ensures
            r@ == kind_name_spec(*self),
    {
        match self {
            EvidenceKind::Identity => "identity",
            EvidenceKind::Determinism => "determinism",
            EvidenceKind::Independence => "independence",
            EvidenceKind::Robustness => "robustness",
            EvidenceKind::Performance => "performance",
        }
    }

    /// The kind with the given name, if any.
    pub fn from_str(s: &str) -> (r: Option<Self>)
        ensures
            r matches Some(k) ==> kind_name_spec(k) == s@,
            r is None ==> forall|k: EvidenceKind| kind_name_spec(k) != s@,
    {
        if str_eq(s, "identity") {
            Some(EvidenceKind::Identity)
        } else if str_eq(s, "determinism") {
            Some(EvidenceKind::Determinism)
        } else if str_eq(s, "independence") {
            Some(EvidenceKind::Independence)
        } else if str_eq(s, "robustness") {
            Some(EvidenceKind::Robustness)
        } else if str_eq(s, "performance") {
            Some(EvidenceKind::Performance)
        } else {
            assert forall|k: EvidenceKind| kind_name_spec(k) != s@ by {
                match k {
                    EvidenceKind::Identity => {},
                    EvidenceKind::Determinism => {},
                    EvidenceKind::Independence => {},
                    EvidenceKind::Robustness => {},
                    EvidenceKind::Performance => {},
                }
            }
            None
        }
    }
}

/// Names and kinds correspond one to one.
pub proof fn law_kind_name_roundtrip(k: EvidenceKind, j: EvidenceKind)
    ensures
        kind_name_spec(k) == kind_name_spec(j) <==> k == j,
{
    reveal_strlit("identity");
    reveal_strlit("determinism");
    reveal_strlit("independence");
    reveal_strlit("robustness");
    reveal_strlit("performance");
    if kind_name_spec(k) == kind_name_spec(j) && k != j {
        assert(kind_name_spec(k)[1] != kind_name_spec(j)[1] || kind_name_spec(k)[2]
            != kind_name_spec(j)[2] || kind_name_spec(k).len() != kind_name_spec(j).len());
    }
}

/// The result of one evidence node.
#[derive(Debug, Clone, PartialEq)]
pub enum EvidenceResult {
    Pass,
    Fail(String),
    NotApplicable,
}

/// One node of the evidence graph.
#[derive(Debug, Clone)]
pub struct EvidenceNode {
    pub kind: EvidenceKind,
    pub result: EvidenceResult,
    pub mechanism: String,
    /// For performance nodes: median time in nanoseconds.
    pub median_ns: Option<u64>,
}

/// The nodes of an evidence graph, at most one per kind.
#[derive(Debug, Clone)]
pub struct EvidenceNodes {
    identity: Option<EvidenceNode>,
    determinism: Option<EvidenceNode>,
    independence: Option<EvidenceNode>,
    robustness: Option<EvidenceNode>,
    performance: Option<EvidenceNode>,
}

impl EvidenceNodes {
    closed spec fn slot(&self, k: EvidenceKind) -> Option<EvidenceNode> {
        match k {
            EvidenceKind::Identity => self.identity,
            EvidenceKind::Determinism => self.determinism,
            EvidenceKind::Independence => self.independence,
            EvidenceKind::Robustness => self.robustness,
            EvidenceKind::Performance => self.performance,
        }
    }
}

impl View for EvidenceNodes {
    type V = Map<EvidenceKind, EvidenceNode>;

    closed spec fn view(&self) -> Map<EvidenceKind, EvidenceNode> {
        Map::new(|k: EvidenceKind| self.slot(k) is Some, |k: EvidenceKind| self.slot(k)->0)
    }
}

impl EvidenceNodes {
    /// No nodes.
    pub fn new() -> (r: Self)
        ensures
            r@ == Map::<EvidenceKind, EvidenceNode>::empty(),
    {
        let r = EvidenceNodes {
            identity: None,
            determinism: None,
            independence: None,
            robustness: None,
            performance: None,
        };
        assert(r@ =~= Map::<EvidenceKind, EvidenceNode>::empty());
        r
    }

    /// Sets the node for `kind`, returning the node it replaces.
    pub fn insert(&mut self, kind: EvidenceKind, node: EvidenceNode) -> (r: Option<EvidenceNode>)
        ensures
            final(self)@ == old(self)@.insert(kind, node),
            r == (if old(self)@.dom().contains(kind) {
                Some(old(self)@[kind])
            } else {
                None
            }),
    {
        let prev = match kind {
            EvidenceKind::Identity => {
                let p = self.identity.take();
                self.identity = Some(node);
                p
            },
            EvidenceKind::Determinism => {
                let p = self.determinism.take();
                self.determinism = Some(node);
                p
            },
            EvidenceKind::Independence => {
                let p = self.independence.take();
                self.independence = Some(node);
                p
            },
            EvidenceKind::Robustness => {
                let p = self.robustness.take();
                self.robustness = Some(node);
                p
            },
            EvidenceKind::Performance => {
                let p = self.performance.take();
                self.performance = Some(node);
                p
            },
        };
        assert(self@ =~= old(self)@.insert(kind, node));
        prev
    }

    /// The node for `kind`, if present.
    pub fn get(&self, kind: &EvidenceKind) -> (r: Option<&EvidenceNode>)
        ensures
            r matches Some(n) ==> self@.dom().contains(*kind) && self@[*kind] == *n,
            r is None ==> !self@.dom().contains(*kind),
    {
        match kind {
            EvidenceKind::Identity => self.identity.as_ref(),
            EvidenceKind::Determinism => self.determinism.as_ref(),
            EvidenceKind::Independence => self.independence.as_ref(),
            EvidenceKind::Robustness => self.robustness.as_ref(),
            EvidenceKind::Performance => self.performance.as_ref(),
        }
    }
}

/// The evidence graph: its nodes and the commitment sealed over them.
#[derive(Debug, Clone)]
pub struct EvidenceGraph {
    pub nodes: EvidenceNodes,
    /// `sha256:` hex of the serialized node content, computed at seal time.
    pub graph_hash: String,
}

/// A node result in the commitment text.
pub open spec fn result_text_spec(r: EvidenceResult) -> Seq<char> {
    match r {
        EvidenceResult::Pass => "pass"@,
        EvidenceResult::Fail(reason) => "fail:"@ + reason@,
        EvidenceResult::NotApplicable => "na"@,
    }
}

/// One node in the commitment text:
/// `kind:result:mechanism`, with `,median_ns=N` when timed.
pub open spec fn part_spec(k: EvidenceKind, n: EvidenceNode) -> Seq<char> {
    kind_name_spec(k) + ":"@ + result_text_spec(n.result) + ":"@ + n.mechanism@ + match n.median_ns {
        Some(ns) => ",median_ns="@ + decimal_spec(ns as nat),
        None => Seq::<char>::empty(),
    }
}

/// The kinds in the order of their names, which is the order of the
/// serialized parts.
pub open spec fn name_order() -> Seq<EvidenceKind> {
    seq![
        EvidenceKind::Determinism,
        EvidenceKind::Identity,
        EvidenceKind::Independence,
        EvidenceKind::Performance,
        EvidenceKind::Robustness,
    ]
}

/// The parts of the present kinds among `kinds`, in order.
pub open spec fn parts_spec(nodes: Map<EvidenceKind, EvidenceNode>, kinds: Seq<EvidenceKind>) -> Seq<Seq<char>>
    decreases kinds.len(),
{
    if kinds.len() == 0 {
        Seq::empty()
    } else {
        let rest = parts_spec(nodes, kinds.drop_last());
        let k = kinds.last();
        if nodes.dom().contains(k) {
            rest.push(part_spec(k, nodes[k]))
        } else {
            rest
        }
    }
}

/// Parts joined with `|`.
pub open spec fn join_spec(parts: Seq<Seq<char>>) -> Seq<char>
    decreases parts.len(),
{
    if parts.len() == 0 {
        Seq::empty()
    } else if parts.len() == 1 {
        parts[0]
    } else {
        join_spec(parts.drop_last()) + "|"@ + parts.last()
    }
}

/// The serialized graph content that the commitment covers.
pub open spec fn payload_spec(nodes: Map<EvidenceKind, EvidenceNode>) -> Seq<char> {
    join_spec(parts_spec(nodes, name_order()))
}

/// The commitment of a graph's nodes: `sha256:` and the hex digest of the
/// serialized content.
pub open spec fn graph_hash_spec(nodes: Map<EvidenceKind, EvidenceNode>) -> Seq<char> {
    prefixed_hex_spec(sha256_spec(encode_utf8(payload_spec(nodes))))
}

/// The part of kind `k` stands among the parts of the present kinds.
proof fn lemma_parts_contain(
    nodes: Map<EvidenceKind, EvidenceNode>,
    kinds: Seq<EvidenceKind>,
    k: EvidenceKind,
    idx: int,
) -> (j: int)
    requires
        0 <= idx < kinds.len(),
        kinds[idx] == k,
        nodes.dom().contains(k),
    ensures
        0 <= j < parts_spec(nodes, kinds).len(),
        parts_spec(nodes, kinds)[j] == part_spec(k, nodes[k]),
    decreases kinds.len(),
{
    let rest = parts_spec(nodes, kinds.drop_last());
    if idx == kinds.len() - 1 {
        rest.len() as int
    } else {
        assert(kinds.drop_last()[idx] == k);
        let j = lemma_parts_contain(nodes, kinds.drop_last(), k, idx);
        if nodes.dom().contains(kinds.last()) {
            assert(rest.push(part_spec(kinds.last(), nodes[kinds.last()]))[j] == rest[j]);
        }
        j
    }
}

/// Every part appears, whole, in the joined text.
proof fn lemma_join_contains(parts: Seq<Seq<char>>, j: int) -> (i: int)
    requires
        0 <= j < parts.len(),
    ensures
        0 <= i,
        i + parts[j].len() <= join_spec(parts).len(),
        join_spec(parts).subrange(i, i + parts[j].len()) == parts[j],
    decreases parts.len(),
{
    reveal_strlit("|");
    if parts.len() == 1 {
        assert(join_spec(parts).subrange(0, parts[0].len() as int) =~= parts[0]);
        0
    } else {
        let head = join_spec(parts.drop_last());
        let whole = head + "|"@ + parts.last();
        assert(join_spec(parts) == whole);
        if j == parts.len() - 1 {
            let i: int = head.len() as int + 1;
            assert(whole.subrange(i, i + parts[j].len()) =~= parts[j]);
            i
        } else {
            let i = lemma_join_contains(parts.drop_last(), j);
            assert(parts.drop_last()[j] == parts[j]);
            assert(whole.subrange(i, i + parts[j].len()) =~= head.subrange(i, i + parts[j].len()));
            i
        }
    }
}

/// **The commitment covers every node.** For every kind present in the
/// graph, the committed text contains that node written out in full: its
/// kind's name, its result (`pass`, `fail:` and the reason, or `na`), its
/// mechanism, and its median time when it has one. Altering any present
/// node therefore alters the committed text.
pub proof fn law_commitment_covers_every_node(nodes: Map<EvidenceKind, EvidenceNode>, k: EvidenceKind)
    requires
        nodes.dom().contains(k),
    ensures
        contains_spec(
            payload_spec(nodes),
            kind_name_spec(k) + ":"@ + (match nodes[k].result {
                EvidenceResult::Pass => "pass"@,
                EvidenceResult::Fail(reason) => "fail:"@ + reason@,
                EvidenceResult::NotApplicable => "na"@,
            }) + ":"@ + nodes[k].mechanism@ + match nodes[k].median_ns {
                Some(ns) => ",median_ns="@ + decimal_spec(ns as nat),
                None => Seq::<char>::empty(),
            },
        ),
{
    let order = name_order();
    let idx: int = match k {
        EvidenceKind::Determinism => 0,
        EvidenceKind::Identity => 1,
        EvidenceKind::Independence => 2,
        EvidenceKind::Performance => 3,
        EvidenceKind::Robustness => 4,
    };
    assert(order[idx] == k);
    let parts = parts_spec(nodes, order);
    let j = lemma_parts_contain(nodes, order, k, idx);
    let i = lemma_join_contains(parts, j);
    let t = part_spec(k, nodes[k]);
    assert(payload_spec(nodes).subrange(i, i + t.len()) == t);
}

fn push_str(s: &mut String, t: &str)
    ensures
        final(s)@ == old(s)@ + t@,
{
    s.append(t);
}

/// Appends the part of `node` under `kind`, preceded by `|` when parts
/// are already there.
fn push_part(payload: &mut String, count: usize, kind: EvidenceKind, node: &EvidenceNode)
    ensures
        final(payload)@ == old(payload)@ + (if count > 0 {
            "|"@
        } else {
            Seq::<char>::empty()
        }) + part_spec(kind, *node),
{
    let ghost p0 = payload@;
    if count > 0 {
        push_str(payload, "|");
    }
    let ghost p1 = payload@;
    push_str(payload, kind.as_str());
    push_str(payload, ":");
    match &node.result {
        EvidenceResult::Pass => push_str(payload, "pass"),
        EvidenceResult::Fail(reason) => {
            push_str(payload, "fail:");
            push_str(payload, reason.as_str());
        },
        EvidenceResult::NotApplicable => push_str(payload, "na"),
    }
    push_str(payload, ":");
    push_str(payload, node.mechanism.as_str());
    match node.median_ns {
        Some(ns) => {
            push_str(payload, ",median_ns=");
            let d = u64_to_decimal(ns);
            push_str(payload, d.as_str());
        },
        None => {},
    }
    assert(payload@ =~= p1 + part_spec(kind, *node));
}

impl EvidenceGraph {
    /// The commitment recomputed from the nodes: the parts in name order,
    /// joined with `|`, hashed with SHA-256, as `sha256:` hex.
    pub fn compute_hash(&self) -> (r: String)
        ensures
            r@ == graph_hash_spec(self.nodes@),
    {
        let order: [EvidenceKind; 5] = [
            EvidenceKind::Determinism,
            EvidenceKind::Identity,
            EvidenceKind::Independence,
            EvidenceKind::Performance,
            EvidenceKind::Robustness,
        ];
        assert(order@ == name_order());
        let mut payload = String::new();
        let mut count: usize = 0;
        let mut i: usize = 0;
        while i < 5
            invariant
                i <= 5,
                order@ == name_order(),
                count == parts_spec(self.nodes@, name_order().subrange(0, i as int)).len(),
                count <= i,
                payload@ == join_spec(parts_spec(self.nodes@, name_order().subrange(0, i as int))),
            decreases 5 - i,
        {
            let kind = order[i];
            let ghost before = parts_spec(self.nodes@, name_order().subrange(0, i as int));
            assert(name_order().subrange(0, i + 1).drop_last() =~= name_order().subrange(0, i as int));
            match self.nodes.get(&kind) {
                Some(node) => {
                    push_part(&mut payload, count, kind, node);
                    let ghost after = before.push(part_spec(kind, *node));
                    assert(after.drop_last() =~= before);
                    count += 1;
                },
                None => {},
            }
            i += 1;
        }
        assert(name_order().subrange(0, 5) =~= name_order());
        let h = hash::Hash::compute(payload.as_str().as_bytes());
        h.to_prefixed_hex()
    }

    /// Whether the sealed commitment matches the nodes.
    pub fn verify_commitment(&self) -> (r: bool)
        ensures
            r == (graph_hash_spec(self.nodes@) == self.graph_hash@),
    {
        let computed = self.compute_hash();
        computed == self.graph_hash
    }
}

/// The authority an artifact is judged against.
#[derive(Debug, Clone)]
pub struct Authority {
    pub spec: String,
    pub reference: String,
    pub corpus: String,
    pub corpus_hash: String,
    pub expected_hash: String,
}

/// An artifact: the unit of trust.
#[derive(Debug, Clone)]
pub struct Artifact {
    pub id: String,
    pub iep_version: String,
    pub authority: Authority,
    pub backend: String,
    pub commit: String,
    /// SHA-256 of the output encoding.
    pub output_hash: String,
    /// Whether `output_hash` matched the expected hash when the artifact
    /// was made.
    pub correct: bool,
    pub evidence_graph: EvidenceGraph,
    /// Median time in nanoseconds, when measured.
    pub median_ns: Option<u64>,
}

impl Artifact {
    /// Whether the output hash is the authority's expected hash.
    pub fn identity_valid(&self) -> (r: bool)
        ensures
            r == (self.output_hash@ == self.authority.expected_hash@),
    {
        self.output_hash == self.authority.expected_hash
    }
}

} // verus!
