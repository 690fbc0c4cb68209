//! The evidence contract (schema version 1): the JSON artifact that test
//! suites produce and predicates of the verification gate reference. The schema version
//! makes evolution explicit.
use crate::evidence_core::canonical::{json_text_spec, push_json_text};
use crate::instrument::coverage::{coverage_json_spec, CoverageMap};
use crate::text::{decimal_spec, u64_to_decimal};
use vstd::prelude::*;

verus! {

/// Where a parity result was obtained: architecture, OS, compiler and the
/// CPU features that were enabled.
#[derive(Debug, Clone)]
pub struct BackendIdentity {
    pub arch: String,
    pub os: String,
    pub rustc: String,
    pub cpu_features: Vec<String>,
}

/// The feature names a build target enables, in the order they are listed:
/// `x86_64`, `avx512f`, `avx512dq`, `avx2`, `neon`.
pub open spec fn target_features_spec(
    x86_64: bool,
    avx512f: bool,
    avx512dq: bool,
    avx2: bool,
    neon: bool,
) -> Seq<Seq<char>> {
    (if x86_64 {
        seq!["x86_64"@]
    } else {
        Seq::empty()
    }) + (if avx512f {
        seq!["avx512f"@]
    } else {
        Seq::empty()
    }) + (if avx512dq {
        seq!["avx512dq"@]
    } else {
        Seq::empty()
    }) + (if avx2 {
        seq!["avx2"@]
    } else {
        Seq::empty()
    }) + (if neon {
        seq!["neon"@]
    } else {
        Seq::empty()
    })
}

/// The text of each name.
pub open spec fn names_view(v: Seq<String>) -> Seq<Seq<char>> {
    v.map_values(|s: String| s@)
}

/// Appends `name` when `on` holds.
fn push_if(features: &mut Vec<String>, on: bool, name: &str)
    ensures
        names_view(final(features)@) == names_view(old(features)@) + if on {
            seq![name@]
        } else {
            Seq::empty()
        },
{
    if on {
        features.push(String::from_str(name));
        assert(names_view(features@) =~= names_view(old(features)@) + seq![name@]);
    } else {
        assert(names_view(features@) =~= names_view(old(features)@) + Seq::empty());
    }
}

/// Quoted, escaped features separated by commas.
pub open spec fn features_json_spec(fs: Seq<String>) -> Seq<char>
    decreases fs.len(),
{
    if fs.len() == 0 {
        Seq::empty()
    } else {
        features_json_spec(fs.drop_last()) + (if fs.len() > 1 {
            ","@
        } else {
            Seq::empty()
        }) + json_text_spec(fs.last()@)
    }
}

/// The identity's JSON members (without braces).
pub open spec fn identity_json_spec(b: BackendIdentity) -> Seq<char> {
    "\"arch\":"@ + json_text_spec(b.arch@) + ",\"os\":"@ + json_text_spec(b.os@) + ",\"rustc\":"@
        + json_text_spec(b.rustc@) + ",\"cpu_features\":["@ + features_json_spec(b.cpu_features@)
        + "]"@
}

impl BackendIdentity {
    /// The identity of a build target from what it reports: architecture
    /// and OS names, the compiler version if one was recorded (`unknown`
    /// otherwise), and which of the listed CPU features it enables.
    pub fn capture(
        arch: &str,
        os: &str,
        rustc: Option<&str>,
        x86_64: bool,
        avx512f: bool,
        avx512dq: bool,
        avx2: bool,
        neon: bool,
    ) -> (r: Self)
        ensures
            r.arch@ == arch@,
            r.os@ == os@,
            r.rustc@ == match rustc {
                Some(v) => v@,
                None => "unknown"@,
            },
            names_view(r.cpu_features@) == target_features_spec(x86_64, avx512f, avx512dq, avx2, neon),
    {
        let mut features: Vec<String> = Vec::new();
        assert(names_view(features@) =~= Seq::<Seq<char>>::empty());
        push_if(&mut features, x86_64, "x86_64");
        push_if(&mut features, avx512f, "avx512f");
        push_if(&mut features, avx512dq, "avx512dq");
        push_if(&mut features, avx2, "avx2");
        push_if(&mut features, neon, "neon");
        let version = match rustc {
            Some(v) => String::from_str(v),
            None => String::from_str("unknown"),
        };
        BackendIdentity {
            arch: String::from_str(arch),
            os: String::from_str(os),
            rustc: version,
            cpu_features: features,
        }
    }

    /// The identity's JSON members (without braces).
    pub fn to_json(&self) -> (r: String)
        ensures
            r@ == identity_json_spec(*self),
    {
        let mut s = String::from_str("\"arch\":");
        push_json_text(&mut s, self.arch.as_str());
        s.append(",\"os\":");
        push_json_text(&mut s, self.os.as_str());
        s.append(",\"rustc\":");
        push_json_text(&mut s, self.rustc.as_str());
        s.append(",\"cpu_features\":[");
        let ghost head = s@;
        let fs = &self.cpu_features;
        let mut i: usize = 0;
        while i < fs.len()
            invariant
                i <= fs@.len(),
                s@ == head + features_json_spec(fs@.subrange(0, i as int)),
            decreases fs.len() - i,
        {
            if i > 0 {
                s.append(",");
            }
            push_json_text(&mut s, fs[i].as_str());
            proof {
                assert(fs@.subrange(0, i + 1).drop_last() =~= fs@.subrange(0, i as int));
                assert(fs@.subrange(0, i + 1).last() == fs@[i as int]);
            }
            assert(s@ =~= head + features_json_spec(fs@.subrange(0, i + 1)));
            i += 1;
        }
        s.append("]");
        assert(fs@.subrange(0, i as int) =~= fs@);
        assert(s@ =~= identity_json_spec(*self));
        s
    }
}

/// The summary of a backend parity comparison.
#[derive(Debug, Clone)]
pub struct ParityResult {
    pub passed: bool,
    pub mismatches: u64,
}

/// The parity's JSON members (without braces).
pub open spec fn parity_json_spec(p: ParityResult) -> Seq<char> {
    "\"passed\":"@ + (if p.passed {
        "true"@
    } else {
        "false"@
    }) + ",\"mismatches\":"@ + decimal_spec(p.mismatches as nat)
}

impl ParityResult {
    pub fn pass() -> (r: Self)
        ensures
            r.passed && r.mismatches == 0,
    {
        ParityResult { passed: true, mismatches: 0 }
    }

    pub fn fail(mismatches: u64) -> (r: Self)
        ensures
            !r.passed && r.mismatches == mismatches,
    {
        ParityResult { passed: false, mismatches }
    }

    /// The parity's JSON members (without braces).
    pub fn to_json(&self) -> (r: String)
        ensures
            r@ == parity_json_spec(*self),
    {
        let mut s = String::from_str("\"passed\":");
        if self.passed {
            s.append("true");
        } else {
            s.append("false");
        }
        s.append(",\"mismatches\":");
        let d = u64_to_decimal(self.mismatches);
        s.append(d.as_str());
        s
    }
}

/// The evidence contract artifact, schema version 1.
#[derive(Debug, Clone)]
pub struct EvidenceContractV1 {
    pub schema_version: u32,
    pub run_id: String,
    pub timestamp: String,
    pub backend_identity: BackendIdentity,
    pub coverage: CoverageMap,
    pub parity: ParityResult,
}

/// The contract's one-line JSON.
pub open spec fn contract_json_spec(c: EvidenceContractV1) -> Seq<char> {
    "{\"schema_version\":"@ + decimal_spec(c.schema_version as nat) + ",\"run_id\":"@
        + json_text_spec(c.run_id@) + ",\"timestamp\":"@ + json_text_spec(c.timestamp@)
        + ",\"backend_identity\":{"@
        + identity_json_spec(c.backend_identity) + "},\"coverage\":"@ + coverage_json_spec(
        c.coverage@,
    ) + ",\"parity\":{"@ + parity_json_spec(c.parity) + "}}"@
}

impl EvidenceContractV1 {
    /// A version-1 contract for `run_id`, stamped with `timestamp` and the
    /// backend identity where it ran.
    pub fn new(
        run_id: &str,
        coverage: CoverageMap,
        parity: ParityResult,
        timestamp: String,
        backend_identity: BackendIdentity,
    ) -> (r: Self)
        ensures
            r.schema_version == 1,
            r.run_id@ == run_id@,
            r.timestamp == timestamp,
            r.backend_identity == backend_identity,
            r.coverage == coverage,
            r.parity == parity,
    {
        EvidenceContractV1 {
            schema_version: 1,
            run_id: String::from_str(run_id),
            timestamp,
            backend_identity,
            coverage,
            parity,
        }
    }

    /// The contract as one line of JSON.
    pub fn to_json(&self) -> (r: String)
        ensures
            r@ == contract_json_spec(*self),
    {
        let mut s = String::from_str("{\"schema_version\":");
        let v = u64_to_decimal(self.schema_version as u64);
        s.append(v.as_str());
        s.append(",\"run_id\":");
        push_json_text(&mut s, self.run_id.as_str());
        s.append(",\"timestamp\":");
        push_json_text(&mut s, self.timestamp.as_str());
        s.append(",\"backend_identity\":{");
        let bi = self.backend_identity.to_json();
        s.append(bi.as_str());
        s.append("},\"coverage\":");
        let cov = self.coverage.to_json();
        s.append(cov.as_str());
        s.append(",\"parity\":{");
        let par = self.parity.to_json();
        s.append(par.as_str());
        s.append("}}");
        assert(s@ =~= contract_json_spec(*self));
        s
    }
}


/// The contract timestamp for `secs` seconds since the Unix epoch:
/// `epoch:<secs>`. The run id, not the timestamp, correlates runs.
pub fn epoch_timestamp(secs: u64) -> (r: String)
    ensures
        r@ == "epoch:"@ + decimal_spec(secs as nat),
{
    let mut s = String::from_str("epoch:");
    let d = u64_to_decimal(secs);
    s.append(d.as_str());
    s
}

} // verus!
