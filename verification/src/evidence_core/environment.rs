//! The environment contract: what must hold for an evaluation to be
//! reproducible. Its identity is the hash of its canonical encoding; the
//! core stores the fields without interpreting them.
use crate::evidence_core::canonical::{encode_map, encode_map_spec, Canonical, StringMap};
use crate::evidence_core::hash::{self, sha256_spec};
use crate::keyed::{
    insert_spec, keys_sorted, lemma_insert_sorted, lemma_lookup_drop_last, lookup_spec,
};
use crate::text::key_lt;
use vstd::prelude::*;

verus! {

/// The `Debug` rendering of a string: quoted, with escapes.
pub uninterp spec fn debug_str_spec(s: Seq<char>) -> Seq<char>;

/// `format!("{:?}", s)` on a `str`: the quoted, escaped rendering. Its
/// escaping rules (which depend on Unicode tables) are named, not stated.
#[verifier::external_body]
fn debug_quoted(s: &str) -> (r: String)
    ensures
        r@ == debug_str_spec(s@),
{
    format!("{:?}", s)
}

/// The environment contract. The required fields are named; optional
/// fields live in `extra` and take part in the identity.
#[derive(Debug, Clone, PartialEq, Eq)]
pub struct EnvironmentContract {
    pub contract_id: String,
    pub architecture: String,
    pub compiler: String,
    pub evaluator_version: String,
    pub serialization_format: String,
    pub extra: StringMap,
}

/// The fields map of the canonical encoding: the five required fields,
/// each value rendered with `Debug`.
pub open spec fn required_fields_spec(c: EnvironmentContract) -> Seq<(Seq<char>, Seq<char>)> {
    let m0 = insert_spec(
        Seq::<(Seq<char>, Seq<char>)>::empty(),
        "contract_id"@,
        debug_str_spec(c.contract_id@),
    );
    let m1 = insert_spec(m0, "architecture"@, debug_str_spec(c.architecture@));
    let m2 = insert_spec(m1, "compiler"@, debug_str_spec(c.compiler@));
    let m3 = insert_spec(m2, "evaluator_version"@, debug_str_spec(c.evaluator_version@));
    insert_spec(m3, "serialization_format"@, debug_str_spec(c.serialization_format@))
}

/// Inserts each extra entry, in order, with its value rendered with `Debug`.
pub open spec fn with_extra_fields_spec(
    m: Seq<(Seq<char>, Seq<char>)>,
    extra: Seq<(Seq<char>, Seq<char>)>,
) -> Seq<(Seq<char>, Seq<char>)>
    decreases extra.len(),
{
    if extra.len() == 0 {
        m
    } else {
        insert_spec(
            with_extra_fields_spec(m, extra.drop_last()),
            extra.last().0,
            debug_str_spec(extra.last().1),
        )
    }
}

/// The canonical bytes of an environment contract.
pub open spec fn environment_bytes_spec(c: EnvironmentContract) -> Seq<u8> {
    encode_map_spec(with_extra_fields_spec(required_fields_spec(c), c.extra@))
}

/// The value the canonical encoding holds under `key`: an extra entry's
/// value when `key` is an extra key, else the required field of that name,
/// each rendered with `Debug`; nothing for any other key.
pub open spec fn encoded_field_spec(c: EnvironmentContract, key: Seq<char>) -> Option<Seq<char>> {
    match lookup_spec(c.extra@, key) {
        Some(v) => Some(debug_str_spec(v)),
        None => if key == "serialization_format"@ {
            Some(debug_str_spec(c.serialization_format@))
        } else if key == "evaluator_version"@ {
            Some(debug_str_spec(c.evaluator_version@))
        } else if key == "compiler"@ {
            Some(debug_str_spec(c.compiler@))
        } else if key == "architecture"@ {
            Some(debug_str_spec(c.architecture@))
        } else if key == "contract_id"@ {
            Some(debug_str_spec(c.contract_id@))
        } else {
            None
        },
    }
}

/// Inserting entries one by one: a key holds its last inserted value, or
/// what it held before when no entry has it.
proof fn lemma_with_extra_lookup(
    m: Seq<(Seq<char>, Seq<char>)>,
    extra: Seq<(Seq<char>, Seq<char>)>,
    key: Seq<char>,
)
    requires
        keys_sorted(m),
        keys_sorted(extra),
    ensures
        keys_sorted(with_extra_fields_spec(m, extra)),
        lookup_spec(with_extra_fields_spec(m, extra), key) == match lookup_spec(extra, key) {
            Some(v) => Some(debug_str_spec(v)),
            None => lookup_spec(m, key),
        },
    decreases extra.len(),
{
    if extra.len() > 0 {
        let rest = extra.drop_last();
        assert(keys_sorted(rest)) by {
            assert forall|a: int, b: int| 0 <= a < b < rest.len() implies key_lt(
                #[trigger] rest[a].0,
                #[trigger] rest[b].0,
            ) by {
                assert(rest[a] == extra[a] && rest[b] == extra[b]);
            }
        }
        lemma_with_extra_lookup(m, rest, key);
        let inner = with_extra_fields_spec(m, rest);
        lemma_insert_sorted(inner, extra.last().0, debug_str_spec(extra.last().1));
        lemma_lookup_drop_last(extra, key);
    }
}

/// **Every field takes part in the identity.** The canonical bytes of a
/// contract (whose extra keys are in order, as the contract keeps them)
/// are the canonical JSON of an ordered map that holds, under every key,
/// exactly [`encoded_field_spec`]: each extra entry's value (overriding a
/// required field of the same name) and each required field, rendered
/// with `Debug`, and nothing else.
pub proof fn law_environment_encodes_every_field(c: EnvironmentContract)
    requires
        keys_sorted(c.extra@),
    ensures
        exists|f: Seq<(Seq<char>, Seq<char>)>|
            #![trigger encode_map_spec(f)]
            environment_bytes_spec(c) == encode_map_spec(f) && keys_sorted(f) && forall|key: Seq<char>|
                #[trigger] lookup_spec(f, key) == encoded_field_spec(c, key),
{
    let e = Seq::<(Seq<char>, Seq<char>)>::empty();
    let m0 = insert_spec(e, "contract_id"@, debug_str_spec(c.contract_id@));
    let m1 = insert_spec(m0, "architecture"@, debug_str_spec(c.architecture@));
    let m2 = insert_spec(m1, "compiler"@, debug_str_spec(c.compiler@));
    let m3 = insert_spec(m2, "evaluator_version"@, debug_str_spec(c.evaluator_version@));
    let m4 = insert_spec(m3, "serialization_format"@, debug_str_spec(c.serialization_format@));
    lemma_insert_sorted(e, "contract_id"@, debug_str_spec(c.contract_id@));
    lemma_insert_sorted(m0, "architecture"@, debug_str_spec(c.architecture@));
    lemma_insert_sorted(m1, "compiler"@, debug_str_spec(c.compiler@));
    lemma_insert_sorted(m2, "evaluator_version"@, debug_str_spec(c.evaluator_version@));
    lemma_insert_sorted(m3, "serialization_format"@, debug_str_spec(c.serialization_format@));
    assert(m4 == required_fields_spec(c));
    let f = with_extra_fields_spec(m4, c.extra@);
    assert forall|key: Seq<char>| #[trigger] lookup_spec(f, key) == encoded_field_spec(c, key) by {
        lemma_with_extra_lookup(m4, c.extra@, key);
        assert(lookup_spec(e, key) is None);
    }
    lemma_with_extra_lookup(m4, c.extra@, Seq::empty());
    assert(environment_bytes_spec(c) == encode_map_spec(f));
}

impl EnvironmentContract {
    /// A contract with the required fields and no extra field.
    pub fn new(
        contract_id: &str,
        architecture: &str,
        compiler: &str,
        evaluator_version: &str,
        serialization_format: &str,
    ) -> (r: Self)
        ensures
            r.contract_id@ == contract_id@,
            r.architecture@ == architecture@,
            r.compiler@ == compiler@,
            r.evaluator_version@ == evaluator_version@,
            r.serialization_format@ == serialization_format@,
            r.extra@ == Seq::<(Seq<char>, Seq<char>)>::empty(),
    {
        EnvironmentContract {
            contract_id: String::from_str(contract_id),
            architecture: String::from_str(architecture),
            compiler: String::from_str(compiler),
            evaluator_version: String::from_str(evaluator_version),
            serialization_format: String::from_str(serialization_format),
            extra: StringMap::new(),
        }
    }

    /// Adds (or replaces) an optional field; it takes part in the identity.
    pub fn with_extra(self, key: &str, value: &str) -> (r: Self)
        ensures
            r.contract_id == self.contract_id,
            r.architecture == self.architecture,
            r.compiler == self.compiler,
            r.evaluator_version == self.evaluator_version,
            r.serialization_format == self.serialization_format,
            r.extra@ == insert_spec(self.extra@, key@, value@),
    {
        let mut c = self;
        c.extra.insert(String::from_str(key), String::from_str(value));
        c
    }

    /// The identity hash: the hash of the canonical encoding.
    pub fn identity_hash(&self) -> (r: hash::Hash)
        ensures
            r@ == sha256_spec(environment_bytes_spec(*self)),
    {
        self.canonical_hash()
    }
}

impl Canonical for EnvironmentContract {
    open spec fn canonical_spec(&self) -> Seq<u8> {
        environment_bytes_spec(*self)
    }

    fn canonical_bytes(&self) -> (r: Vec<u8>) {
        let mut fields = StringMap::new();
        fields.insert(String::from_str("contract_id"), debug_quoted(self.contract_id.as_str()));
        fields.insert(String::from_str("architecture"), debug_quoted(self.architecture.as_str()));
        fields.insert(String::from_str("compiler"), debug_quoted(self.compiler.as_str()));
        fields.insert(
            String::from_str("evaluator_version"),
            debug_quoted(self.evaluator_version.as_str()),
        );
        fields.insert(
            String::from_str("serialization_format"),
            debug_quoted(self.serialization_format.as_str()),
        );
        assert(fields@ == required_fields_spec(*self));
        let n = self.extra.len();
        let mut i: usize = 0;
        while i < n
            invariant
                i <= n,
                n == self.extra@.len(),
                fields@ == with_extra_fields_spec(
                    required_fields_spec(*self),
                    self.extra@.subrange(0, i as int),
                ),
            decreases n - i,
        {
            let (k, v) = self.extra.entry(i);
            fields.insert(String::from_str(k), debug_quoted(v));
            assert(self.extra@.subrange(0, i + 1).drop_last() =~= self.extra@.subrange(0, i as int));
            i += 1;
        }
        assert(self.extra@.subrange(0, n as int) =~= self.extra@);
        encode_map(&fields)
    }
}

} // verus!
