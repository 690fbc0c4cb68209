//! The identity unit: a SHA-256 digest, computed (never declared) from the
//! canonical bytes of an object, and its `sha256:`-prefixed hex form.
use crate::text::{hex_digit_char, hex_spec, lemma_hex_spec_index, lemma_hex_spec_len, push_hex};
use sha2::Digest;
use vstd::prelude::*;
use vstd::string::StringSliceAdditionalSpecFns;
use vstd::utf8::*;

verus! {

/// The SHA-256 digest of a byte string (32 bytes).
pub uninterp spec fn sha256_spec(data: Seq<u8>) -> Seq<u8>;

/// `sha2::Sha256::digest`: the SHA-256 digest of `data`, copied into an
/// array. The contract names the digest and claims nothing else of it.
#[verifier::external_body]
fn sha256_digest(data: &[u8]) -> (r: [u8; 32])
    ensures
        r@ == sha256_spec(data@),
{
    let out = sha2::Sha256::digest(data);
    let mut bytes = [0u8; 32];
    bytes.copy_from_slice(&out);
    bytes
}

/// A SHA-256 hash: the identity primitive of the evidence protocol.
#[derive(Clone, Copy, Debug, PartialEq, Eq, Hash, PartialOrd, Ord)]
pub struct Hash([u8; 32]);

impl View for Hash {
    type V = Seq<u8>;

    closed spec fn view(&self) -> Seq<u8> {
        self.0@
    }
}

/// Two hashes are equal exactly when their bytes are.
pub proof fn lemma_hash_view_injective(a: Hash, b: Hash)
    ensures
        a@ == b@ <==> a == b,
{
    broadcast use vstd::array::axiom_array_ext_equal;

    if a@ == b@ {
        assert(a.0 =~= b.0);
    }
}

/// `"sha256:"` followed by the lowercase hex of `bytes`.
pub open spec fn prefixed_hex_spec(bytes: Seq<u8>) -> Seq<char> {
    "sha256:"@ + hex_spec(bytes)
}

/// The value of one hex digit (either case), if `b` is one.
pub open spec fn hex_value(b: u8) -> Option<u8> {
    if 48 <= b <= 57 {
        Some((b - 48) as u8)
    } else if 97 <= b <= 102 {
        Some((b - 87) as u8)
    } else if 65 <= b <= 70 {
        Some((b - 55) as u8)
    } else {
        None
    }
}

/// What `u8::from_str_radix(.., 16)` makes of a two-byte string: two hex
/// digits, or a `+` sign followed by one hex digit.
pub open spec fn hex_pair_spec(b0: u8, b1: u8) -> Option<u8> {
    if b0 == 43 {
        hex_value(b1)
    } else {
        match (hex_value(b0), hex_value(b1)) {
            (Some(h), Some(l)) => Some((h * 16 + l) as u8),
            _ => None,
        }
    }
}

/// Whether every two-byte chunk of a 64-byte text parses.
pub open spec fn hex_chunks_parse(b: Seq<u8>) -> bool {
    forall|k: int| 0 <= k < 32 ==> #[trigger] hex_pair_spec(b[2 * k], b[2 * k + 1]) is Some
}

/// The bytes that [`Hash::from_hex`] reads from a text's UTF-8 bytes:
/// `None` unless it has 64 bytes whose 32 chunks all parse.
pub open spec fn from_hex_spec(b: Seq<u8>) -> Option<Seq<u8>> {
    if b.len() == 64 && hex_chunks_parse(b) {
        Some(Seq::new(32, |k: int| hex_pair_spec(b[2 * k], b[2 * k + 1])->0))
    } else {
        None
    }
}

/// The two-byte chunks before chunk `k` all parse.
pub open spec fn chunks_parse_before(b: Seq<u8>, k: int) -> bool {
    forall|j: int| 0 <= j < k ==> #[trigger] hex_pair_spec(b[2 * j], b[2 * j + 1]) is Some
}

/// Parsing slices a 64-byte text into two-byte chunks in order and stops at
/// the first chunk that does not parse; each chunk it slices must begin and
/// end at a character boundary (no UTF-8 continuation byte there).
pub open spec fn hex_chunks_sliceable(b: Seq<u8>) -> bool {
    b.len() == 64 ==> forall|k: int|
        0 <= k < 32 && #[trigger] chunks_parse_before(b, k) ==> !is_continuation_byte(b[2 * k])
            && (k + 1 < 32 ==> !is_continuation_byte(b[2 * k + 2]))
}

/// The UTF-8 bytes of `"sha256:"`.
pub open spec fn sha256_prefix_bytes() -> Seq<u8> {
    seq![115u8, 104u8, 97u8, 50u8, 53u8, 54u8, 58u8]
}

/// Whether a text's bytes start with `"sha256:"`.
pub open spec fn has_sha256_prefix(b: Seq<u8>) -> bool {
    b.len() >= 7 && b.subrange(0, 7) == sha256_prefix_bytes()
}

/// Rendering then parsing gives the bytes back: the hex text of any 32
/// bytes can be sliced, parses to those bytes, and its prefixed form starts
/// with `"sha256:"` followed by the same hex text.
pub proof fn law_hex_roundtrip(b: Seq<u8>)
    requires
        b.len() == 32,
    ensures
        hex_chunks_sliceable(encode_utf8(hex_spec(b))),
        from_hex_spec(encode_utf8(hex_spec(b))) == Some(b),
        has_sha256_prefix(encode_utf8(prefixed_hex_spec(b))),
        encode_utf8(prefixed_hex_spec(b)).skip(7) == encode_utf8(hex_spec(b)),
{
    let h = hex_spec(b);
    lemma_hex_spec_len(b);
    assert forall|i: int| 0 <= i < h.len() implies '\0' <= #[trigger] h[i] <= '\u{7f}' by {
        lemma_hex_spec_index(b, i / 2);
        assert(i == 2 * (i / 2) || i == 2 * (i / 2) + 1);
        let v = if i == 2 * (i / 2) { b[i / 2] as nat / 16 } else { b[i / 2] as nat % 16 };
        assert(h[i] == hex_digit_char(v));
        assert(v < 16);
        if v < 10 {
            assert(hex_digit_char(v) == (48 + v) as char);
        } else {
            assert(hex_digit_char(v) == (87 + v) as char);
        }
    }
    assert(is_ascii_chars(h));
    is_ascii_chars_encode_utf8(h);
    let e = encode_utf8(h);
    assert forall|k: int| 0 <= k < 32 implies #[trigger] hex_pair_spec(e[2 * k], e[2 * k + 1])
        == Some(b[k]) by {
        lemma_hex_spec_index(b, k);
        assert(e[2 * k] == h[2 * k] as u8);
        assert(e[2 * k + 1] == h[2 * k + 1] as u8);
        let hi = b[k] as nat / 16;
        let lo = b[k] as nat % 16;
        assert(hex_value(hex_digit_char(hi) as u8) == Some(hi as u8));
        assert(hex_value(hex_digit_char(lo) as u8) == Some(lo as u8));
    }
    assert(hex_chunks_parse(e));
    assert(Seq::new(32, |k: int| hex_pair_spec(e[2 * k], e[2 * k + 1])->0) =~= b);
    reveal_strlit("sha256:");
    let p = prefixed_hex_spec(b);
    assert(is_ascii_chars(p));
    is_ascii_chars_encode_utf8(p);
    let ep = encode_utf8(p);
    assert(ep.subrange(0, 7) =~= sha256_prefix_bytes());
    assert(ep.skip(7) =~= e);
}

fn hex_value_exec(b: u8) -> (r: Option<u8>)
    ensures
        r == hex_value(b),
{
    if 48 <= b && b <= 57 {
        Some(b - 48)
    } else if 97 <= b && b <= 102 {
        Some(b - 87)
    } else if 65 <= b && b <= 70 {
        Some(b - 55)
    } else {
        None
    }
}

fn hex_pair(b0: u8, b1: u8) -> (r: Option<u8>)
    ensures
        r == hex_pair_spec(b0, b1),
{
    if b0 == 43 {
        hex_value_exec(b1)
    } else {
        match (hex_value_exec(b0), hex_value_exec(b1)) {
            (Some(h), Some(l)) => Some(h * 16 + l),
            _ => None,
        }
    }
}

/// Parses the 64 bytes of `b` starting at `start` as a hash.
fn parse_hex_at(b: &[u8], start: usize) -> (r: Option<Hash>)
    requires
        start <= b@.len(),
    ensures
        r matches Some(h) ==> from_hex_spec(b@.skip(start as int)) == Some(h@),
        r is None ==> from_hex_spec(b@.skip(start as int)) is None,
{
    let ghost rest = b@.skip(start as int);
    let n = b.len();
    if n - start != 64 {
        return None;
    }
    let mut bytes = [0u8; 32];
    let mut i: usize = 0;
    while i < 32
        invariant
            i <= 32,
            start + 64 == n,
            n == b@.len(),
            rest == b@.skip(start as int),
            forall|k: int| 0 <= k < i ==> #[trigger] hex_pair_spec(rest[2 * k], rest[2 * k + 1]) == Some(bytes@[k]),
        decreases 32 - i,
    {
        match hex_pair(b[start + 2 * i], b[start + 2 * i + 1]) {
            Some(v) => {
                bytes[i] = v;
            },
            None => {
                assert(hex_pair_spec(rest[2 * i as int], rest[2 * i as int + 1]) is None);
                return None;
            },
        }
        i += 1;
    }
    let h = Hash(bytes);
    assert(hex_chunks_parse(rest));
    assert(h@ =~= Seq::new(32, |k: int| hex_pair_spec(rest[2 * k], rest[2 * k + 1])->0));
    Some(h)
}

impl Hash {
    /// The SHA-256 hash of `data`.
    pub fn compute(data: &[u8]) -> (r: Self)
        ensures
            r@ == sha256_spec(data@),
    {
        Hash(sha256_digest(data))
    }

    /// The hash with the given 32 bytes.
    pub fn from_bytes(bytes: [u8; 32]) -> (r: Self)
        ensures
            r@ == bytes@,
    {
        Hash(bytes)
    }

    /// The raw 32 bytes.
    pub fn as_bytes(&self) -> (r: &[u8; 32])
        ensures
            r@ == self@,
    {
        &self.0
    }

    /// `"sha256:"` followed by the lowercase hex of the bytes.
    pub fn to_prefixed_hex(&self) -> (r: String)
        ensures
            r@ == prefixed_hex_spec(self@),
    {
        let mut s = String::from_str("sha256:");
        push_hex(&mut s, &self.0);
        s
    }

    /// The lowercase hex of the bytes (64 characters).
    pub fn to_hex(&self) -> (r: String)
        ensures
            r@ == hex_spec(self@),
            r@.len() == 64,
    {
        proof {
            lemma_hex_spec_len(self@);
        }
        let mut s = String::new();
        push_hex(&mut s, &self.0);
        s
    }

    /// The text form of a hash, as it is displayed: the prefixed hex.
    pub fn to_string(&self) -> (r: String)
        ensures
            r@ == prefixed_hex_spec(self@),
    {
        self.to_prefixed_hex()
    }

    /// Parses a raw hex string of 64 bytes; `None` when the length is not
    /// 64 bytes or a two-byte chunk is not a hex number.
    pub fn from_hex(hex: &str) -> (r: Option<Self>)
        requires
            hex_chunks_sliceable(hex.spec_bytes()),
        ensures
            r matches Some(h) ==> from_hex_spec(hex.spec_bytes()) == Some(h@),
            r is None ==> from_hex_spec(hex.spec_bytes()) is None,
    {
        let b = hex.as_bytes();
        proof {
            assert(b@.skip(0) =~= b@);
        }
        parse_hex_at(b, 0)
    }

    /// Parses `"sha256:"` followed by 64 bytes of hex; `None` without the
    /// prefix or when the rest does not parse.
    pub fn from_prefixed_hex(s: &str) -> (r: Option<Self>)
        requires
            has_sha256_prefix(s.spec_bytes()) ==> hex_chunks_sliceable(s.spec_bytes().skip(7)),
        ensures
            !has_sha256_prefix(s.spec_bytes()) ==> r is None,
            has_sha256_prefix(s.spec_bytes()) ==> (match r {
                Some(h) => from_hex_spec(s.spec_bytes().skip(7)) == Some(h@),
                None => from_hex_spec(s.spec_bytes().skip(7)) is None,
            }),
    {
        let b = s.as_bytes();
        if b.len() < 7 {
            return None;
        }
        let prefix: [u8; 7] = [115u8, 104u8, 97u8, 50u8, 53u8, 54u8, 58u8];
        let mut i: usize = 0;
        while i < 7
            invariant
                i <= 7,
                b@.len() >= 7,
                b@ == s.spec_bytes(),
                prefix@ == sha256_prefix_bytes(),
                forall|k: int| 0 <= k < i ==> b@[k] == prefix@[k],
            decreases 7 - i,
        {
            if b[i] != prefix[i] {
                assert(!has_sha256_prefix(b@)) by {
                    if b@.subrange(0, 7) == sha256_prefix_bytes() {
                        assert(b@.subrange(0, 7)[i as int] == b@[i as int]);
                    }
                }
                return None;
            }
            i += 1;
        }
        assert(b@.subrange(0, 7) =~= sha256_prefix_bytes());
        parse_hex_at(b, 7)
    }
}

} // verus!
