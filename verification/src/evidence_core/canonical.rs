//! Canonical encoding for identity hashing: compact JSON with keys in
//! `str` order, so that structurally identical objects give identical
//! bytes.
use crate::evidence_core::hash::{self, sha256_spec};
use crate::keyed::{
    entries_view, find_key, insert_spec, keys_sorted, lemma_insert_existing, lemma_insert_new,
    lemma_insert_sorted, lemma_lookup_position, lookup_spec, position_spec,
};
use crate::text::{hex_digit, hex_digit_char, key_lt, push_bytes, push_char, push_char_utf8};
use vstd::prelude::*;
use vstd::utf8::*;

verus! {

/// Whether `c` is a Unicode control character (general category Cc).
pub open spec fn is_control_spec(c: char) -> bool {
    (c as u32) <= 0x1f || (0x7f <= (c as u32) && (c as u32) <= 0x9f)
}

/// The canonical JSON escape of one character inside a string literal.
pub open spec fn escape_char_spec(c: char) -> Seq<u8> {
    if c == '"' {
        seq![92u8, 34u8]
    } else if c == '\\' {
        seq![92u8, 92u8]
    } else if c == '\n' {
        seq![92u8, 110u8]
    } else if c == '\r' {
        seq![92u8, 114u8]
    } else if c == '\t' {
        seq![92u8, 116u8]
    } else if is_control_spec(c) {
        seq![
            92u8,
            117u8,
            48u8,
            48u8,
            hex_digit_char((c as u32 / 16) as nat) as u8,
            hex_digit_char((c as u32 % 16) as nat) as u8,
        ]
    } else {
        encode_utf8(seq![c])
    }
}

/// The escaped characters of a string, in order.
pub open spec fn escape_spec(s: Seq<char>) -> Seq<u8>
    decreases s.len(),
{
    if s.len() == 0 {
        Seq::empty()
    } else {
        escape_spec(s.drop_last()) + escape_char_spec(s.last())
    }
}

/// A canonical JSON string literal: quoted and escaped.
pub open spec fn json_string_spec(s: Seq<char>) -> Seq<u8> {
    seq![34u8] + escape_spec(s) + seq![34u8]
}

/// The JSON escape of one character, as text: the characters whose UTF-8
/// bytes are [`escape_char_spec`].
pub open spec fn escape_char_text(c: char) -> Seq<char> {
    if c == '"' {
        seq!['\\', '"']
    } else if c == '\\' {
        seq!['\\', '\\']
    } else if c == '\n' {
        seq!['\\', 'n']
    } else if c == '\r' {
        seq!['\\', 'r']
    } else if c == '\t' {
        seq!['\\', 't']
    } else if is_control_spec(c) {
        seq![
            '\\',
            'u',
            '0',
            '0',
            hex_digit_char((c as u32 / 16) as nat),
            hex_digit_char((c as u32 % 16) as nat),
        ]
    } else {
        seq![c]
    }
}

/// The escaped characters of a string, as text.
pub open spec fn escape_text_spec(s: Seq<char>) -> Seq<char>
    decreases s.len(),
{
    if s.len() == 0 {
        Seq::empty()
    } else {
        escape_text_spec(s.drop_last()) + escape_char_text(s.last())
    }
}

/// A JSON string literal as text: quoted and escaped. Its UTF-8 bytes are
/// the canonical literal [`json_string_spec`] (see
/// [`lemma_json_text_bytes`]).
pub open spec fn json_text_spec(s: Seq<char>) -> Seq<char> {
    seq!['"'] + escape_text_spec(s) + seq!['"']
}

/// UTF-8 encoding distributes over concatenation.
proof fn lemma_encode_utf8_concat(a: Seq<char>, b: Seq<char>)
    ensures
        encode_utf8(a + b) == encode_utf8(a) + encode_utf8(b),
    decreases a.len(),
{
    if a.len() == 0 {
        assert(a + b =~= b);
        assert(encode_utf8(a) + encode_utf8(b) =~= encode_utf8(b));
    } else {
        assert((a + b)[0] == a[0]);
        assert((a + b).drop_first() =~= a.drop_first() + b);
        lemma_encode_utf8_concat(a.drop_first(), b);
        assert(encode_scalar(a[0] as u32) + (encode_utf8(a.drop_first()) + encode_utf8(b))
            =~= (encode_scalar(a[0] as u32) + encode_utf8(a.drop_first())) + encode_utf8(b));
    }
}

/// ASCII characters encode to one byte each, their code.
proof fn lemma_encode_ascii(t: Seq<char>)
    requires
        forall|i: int| 0 <= i < t.len() ==> (#[trigger] t[i] as u32) < 128,
    ensures
        encode_utf8(t) == t.map_values(|c: char| (c as u32) as u8),
    decreases t.len(),
{
    if t.len() > 0 {
        let v = t[0] as u32;
        assert(v < 128);
        assert((v & 0x7f) as u8 == v as u8) by (bit_vector)
            requires
                v < 128,
        ;
        let r = t.drop_first();
        assert forall|i: int| 0 <= i < r.len() implies (#[trigger] r[i] as u32) < 128 by {
            assert(r[i] == t[i + 1]);
        }
        lemma_encode_ascii(r);
        assert(has_width_1_encoding(v));
        assert(encode_scalar(v) == seq![(v & 0x7f) as u8]);
        assert(encode_utf8(t) == encode_scalar(v) + encode_utf8(r));
        assert(t.map_values(|c: char| (c as u32) as u8) =~= seq![v as u8] + r.map_values(
            |c: char| (c as u32) as u8,
        ));
    } else {
        assert(t.map_values(|c: char| (c as u32) as u8) =~= Seq::<u8>::empty());
    }
}

/// The text escape of a character encodes to its canonical escape bytes.
proof fn lemma_escape_char_bytes(c: char)
    ensures
        encode_utf8(escape_char_text(c)) == escape_char_spec(c),
{
    let t = escape_char_text(c);
    if c == '"' || c == '\\' || c == '\n' || c == '\r' || c == '\t' || is_control_spec(c) {
        if is_control_spec(c) && !(c == '"' || c == '\\' || c == '\n' || c == '\r' || c
            == '\t') {
            let hi = (c as u32 / 16) as nat;
            let lo = (c as u32 % 16) as nat;
            assert(hi < 16 && lo < 16);
            assert((hex_digit_char(hi) as u32) < 128);
            assert((hex_digit_char(lo) as u32) < 128);
        }
        lemma_encode_ascii(t);
        assert(t.map_values(|c: char| (c as u32) as u8) =~= escape_char_spec(c));
    }
}

/// The text escape of a string encodes to its canonical escape bytes.
proof fn lemma_escape_text_bytes(s: Seq<char>)
    ensures
        encode_utf8(escape_text_spec(s)) == escape_spec(s),
    decreases s.len(),
{
    if s.len() == 0 {
        assert(encode_utf8(Seq::<char>::empty()) =~= Seq::<u8>::empty());
    } else {
        lemma_escape_text_bytes(s.drop_last());
        lemma_escape_char_bytes(s.last());
        lemma_encode_utf8_concat(escape_text_spec(s.drop_last()), escape_char_text(s.last()));
    }
}

/// A JSON string literal as text encodes to the canonical literal bytes.
pub proof fn lemma_json_text_bytes(s: Seq<char>)
    ensures
        encode_utf8(json_text_spec(s)) == json_string_spec(s),
{
    lemma_escape_text_bytes(s);
    lemma_encode_utf8_concat(seq!['"'], escape_text_spec(s));
    lemma_encode_utf8_concat(seq!['"'] + escape_text_spec(s), seq!['"']);
    lemma_encode_ascii(seq!['"']);
    assert(seq!['"'].map_values(|c: char| (c as u32) as u8) =~= seq![34u8]);
}

/// `"key":"value"` members separated by commas.
pub open spec fn map_members_spec(e: Seq<(Seq<char>, Seq<char>)>) -> Seq<u8>
    decreases e.len(),
{
    if e.len() == 0 {
        Seq::empty()
    } else {
        map_members_spec(e.drop_last()) + (if e.len() > 1 {
            seq![44u8]
        } else {
            Seq::empty()
        }) + json_string_spec(e.last().0) + seq![58u8] + json_string_spec(e.last().1)
    }
}

/// The canonical JSON object of an ordered string map.
pub open spec fn encode_map_spec(e: Seq<(Seq<char>, Seq<char>)>) -> Seq<u8> {
    seq![123u8] + map_members_spec(e) + seq![125u8]
}

/// `"key":value` members (values already canonical) separated by commas.
pub open spec fn pair_members_spec(e: Seq<(Seq<char>, Seq<char>)>) -> Seq<u8>
    decreases e.len(),
{
    if e.len() == 0 {
        Seq::empty()
    } else {
        pair_members_spec(e.drop_last()) + (if e.len() > 1 {
            seq![44u8]
        } else {
            Seq::empty()
        }) + json_string_spec(e.last().0) + seq![58u8] + encode_utf8(e.last().1)
    }
}

proof fn lemma_members_flatten(e: Seq<(Seq<char>, Seq<char>)>)
    ensures
        map_members_spec(e) == Seq::new(
            e.len(),
            |i: int|
                (if i > 0 {
                    seq![44u8]
                } else {
                    Seq::<u8>::empty()
                }) + seq![34u8] + escape_spec(e[i].0) + seq![34u8, 58u8, 34u8] + escape_spec(e[i].1)
                    + seq![34u8],
        ).flatten(),
    decreases e.len(),
{
    let f = |e: Seq<(Seq<char>, Seq<char>)>|
        Seq::new(
            e.len(),
            |i: int|
                (if i > 0 {
                    seq![44u8]
                } else {
                    Seq::<u8>::empty()
                }) + seq![34u8] + escape_spec(e[i].0) + seq![34u8, 58u8, 34u8] + escape_spec(e[i].1)
                    + seq![34u8],
        );
    let m = f(e);
    m.lemma_flatten_and_flatten_alt_are_equivalent();
    if e.len() > 0 {
        lemma_members_flatten(e.drop_last());
        assert(m.drop_last() =~= f(e.drop_last()));
        f(e.drop_last()).lemma_flatten_and_flatten_alt_are_equivalent();
        let l = e.last();
        assert(m.last() =~= (if e.len() > 1 {
            seq![44u8]
        } else {
            Seq::<u8>::empty()
        }) + json_string_spec(l.0) + seq![58u8] + json_string_spec(l.1));
        assert(map_members_spec(e) =~= map_members_spec(e.drop_last()) + m.last());
    } else {
        assert(m.flatten_alt() =~= Seq::<u8>::empty());
    }
}

/// **The canonical map encoding writes every entry, in order.** It is `{`,
/// then for each entry `i` (a comma before all but the first) the quoted,
/// escaped key, `:`, and the quoted, escaped value, then `}`.
pub proof fn law_encode_map_writes_every_entry(e: Seq<(Seq<char>, Seq<char>)>)
    ensures
        encode_map_spec(e) == seq![123u8] + Seq::new(
            e.len(),
            |i: int|
                (if i > 0 {
                    seq![44u8]
                } else {
                    Seq::<u8>::empty()
                }) + seq![34u8] + escape_spec(e[i].0) + seq![34u8, 58u8, 34u8] + escape_spec(e[i].1)
                    + seq![34u8],
        ).flatten() + seq![125u8],
{
    lemma_members_flatten(e);
}

/// **Escaping treats every character, in order, on its own.**
pub proof fn law_escape_every_char(s: Seq<char>)
    ensures
        escape_spec(s) == s.map_values(|c: char| escape_char_spec(c)).flatten(),
    decreases s.len(),
{
    let f = |c: char| escape_char_spec(c);
    let m = s.map_values(f);
    m.lemma_flatten_and_flatten_alt_are_equivalent();
    if s.len() > 0 {
        law_escape_every_char(s.drop_last());
        assert(m.drop_last() =~= s.drop_last().map_values(f));
        s.drop_last().map_values(f).lemma_flatten_and_flatten_alt_are_equivalent();
    } else {
        assert(m.flatten_alt() =~= Seq::<u8>::empty());
    }
}

/// The canonical JSON object of pre-encoded `(key, value)` pairs.
pub open spec fn encode_pairs_spec(e: Seq<(Seq<char>, Seq<char>)>) -> Seq<u8> {
    seq![123u8] + pair_members_spec(e) + seq![125u8]
}

/// The text view of string pairs.
pub open spec fn pairs_view(e: Seq<(String, String)>) -> Seq<(Seq<char>, Seq<char>)> {
    e.map_values(|x: (String, String)| (x.0@, x.1@))
}

/// The text view of borrowed-key pairs.
pub open spec fn str_pairs_view(e: Seq<(&str, String)>) -> Seq<(Seq<char>, Seq<char>)> {
    e.map_values(|x: (&str, String)| (x.0@, x.1@))
}

/// A map from text keys to text values whose entries are kept in key
/// order, as an ordered map iterates them.
#[derive(Debug, PartialEq, Eq)]
pub struct StringMap {
    entries: Vec<(String, String)>,
}

impl View for StringMap {
    type V = Seq<(Seq<char>, Seq<char>)>;

    closed spec fn view(&self) -> Seq<(Seq<char>, Seq<char>)> {
        pairs_view(self.entries@)
    }
}

impl StringMap {
    #[verifier::type_invariant]
    closed spec fn keys_in_order(self) -> bool {
        keys_sorted(entries_view(self.entries@))
    }

    proof fn lemma_same_keys(e: Seq<(String, String)>)
        ensures
            keys_sorted(entries_view(e)) <==> keys_sorted(pairs_view(e)),
    {
        let a = entries_view(e);
        let b = pairs_view(e);
        if keys_sorted(a) {
            assert forall|i: int, j: int| 0 <= i < j < b.len() implies key_lt(
                #[trigger] b[i].0,
                #[trigger] b[j].0,
            ) by {
                assert(a[i].0 == b[i].0 && a[j].0 == b[j].0);
            }
        }
        if keys_sorted(b) {
            assert forall|i: int, j: int| 0 <= i < j < a.len() implies key_lt(
                #[trigger] a[i].0,
                #[trigger] a[j].0,
            ) by {
                assert(a[i].0 == b[i].0 && a[j].0 == b[j].0);
            }
        }
    }

    proof fn lemma_position_transfer(e: Seq<(String, String)>, k: Seq<char>, r: Result<usize, usize>)
        requires
            position_spec(entries_view(e), k, r),
        ensures
            position_spec(pairs_view(e), k, r),
    {
        let a = entries_view(e);
        let b = pairs_view(e);
        assert forall|j: int| 0 <= j < e.len() implies #[trigger] b[j].0 == a[j].0 by {}
        match r {
            Ok(i) => {
                assert(b[i as int].0 == a[i as int].0);
                assert forall|j: int| 0 <= j < i implies key_lt(#[trigger] b[j].0, k) by {
                    assert(b[j].0 == a[j].0);
                }
            },
            Err(i) => {
                assert forall|j: int| 0 <= j < i implies key_lt(#[trigger] b[j].0, k) by {
                    assert(b[j].0 == a[j].0);
                }
                assert forall|j: int| i <= j < b.len() implies key_lt(k, #[trigger] b[j].0) by {
                    assert(b[j].0 == a[j].0);
                }
            },
        }
    }

    /// The empty map.
    pub fn new() -> (r: Self)
        ensures
            r@ == Seq::<(Seq<char>, Seq<char>)>::empty(),
    {
        let r = StringMap { entries: Vec::new() };
        assert(r@ =~= Seq::<(Seq<char>, Seq<char>)>::empty());
        r
    }

    /// Entries, in increasing key order.
    pub fn len(&self) -> (r: usize)
        ensures
            r == self@.len(),
            keys_sorted(self@),
    {
        proof {
            use_type_invariant(self);
            Self::lemma_same_keys(self.entries@);
        }
        self.entries.len()
    }

    /// The `i`-th entry in key order.
    pub fn entry(&self, i: usize) -> (r: (&str, &str))
        requires
            i < self@.len(),
        ensures
            r.0@ == self@[i as int].0,
            r.1@ == self@[i as int].1,
    {
        (self.entries[i].0.as_str(), self.entries[i].1.as_str())
    }

    /// Sets `key` to `value`, replacing an earlier value for the same key.
    pub fn insert(&mut self, key: String, value: String)
        ensures
            final(self)@ == insert_spec(old(self)@, key@, value@),
            keys_sorted(final(self)@),
            forall|k: Seq<char>|
                #[trigger] lookup_spec(final(self)@, k) == if k == key@ {
                    Some(value@)
                } else {
                    lookup_spec(old(self)@, k)
                },
    {
        proof {
            use_type_invariant(&*self);
            Self::lemma_same_keys(self.entries@);
        }
        let ghost before = self@;
        let pos = find_key(&self.entries, key.as_str());
        proof {
            Self::lemma_position_transfer(self.entries@, key@, pos);
        }
        let ghost k = key@;
        let ghost v = value@;
        let mut e: Vec<(String, String)> = Vec::new();
        std::mem::swap(&mut e, &mut self.entries);
        match pos {
            Ok(i) => {
                e.set(i, (key, value));
                proof {
                    lemma_insert_existing(before, k, v, i);
                    assert(pairs_view(e@) =~= before.update(i as int, (k, v)));
                }
            },
            Err(i) => {
                e.insert(i, (key, value));
                proof {
                    lemma_insert_new(before, k, v, i);
                    assert(pairs_view(e@) =~= before.insert(i as int, (k, v)));
                }
            },
        }
        proof {
            lemma_insert_sorted(before, k, v);
            Self::lemma_same_keys(e@);
        }
        self.entries = e;
    }

    /// The value stored under `key`.
    pub fn get(&self, key: &str) -> (r: Option<&str>)
        ensures
            r matches Some(v) ==> lookup_spec(self@, key@) == Some(v@),
            r is None ==> lookup_spec(self@, key@) is None,
    {
        proof {
            use_type_invariant(self);
            Self::lemma_same_keys(self.entries@);
        }
        let pos = find_key(&self.entries, key);
        proof {
            Self::lemma_position_transfer(self.entries@, key@, pos);
            lemma_lookup_position(self@, key@, pos);
        }
        match pos {
            Ok(i) => Some(self.entries[i].1.as_str()),
            Err(_) => None,
        }
    }
}

impl Clone for StringMap {
    fn clone(&self) -> (r: Self)
        ensures
            r@ == self@,
    {
        proof {
            use_type_invariant(self);
        }
        let mut entries: Vec<(String, String)> = Vec::new();
        let mut i: usize = 0;
        while i < self.entries.len()
            invariant
                i <= self.entries@.len(),
                entries@ == self.entries@.subrange(0, i as int),
            decreases self.entries.len() - i,
        {
            let k = self.entries[i].0.clone();
            let v = self.entries[i].1.clone();
            entries.push((k, v));
            assert(entries@ =~= self.entries@.subrange(0, i + 1));
            i += 1;
        }
        assert(entries@ =~= self.entries@);
        StringMap { entries }
    }
}

/// Appends the escaped UTF-8 bytes of `c` to `out`.
fn push_escaped(out: &mut Vec<u8>, c: char)
    ensures
        final(out)@ == old(out)@ + escape_char_spec(c),
{
    let ghost o0 = out@;
    if c == '"' {
        out.push(92u8);
        out.push(34u8);
    } else if c == '\\' {
        out.push(92u8);
        out.push(92u8);
    } else if c == '\n' {
        out.push(92u8);
        out.push(110u8);
    } else if c == '\r' {
        out.push(92u8);
        out.push(114u8);
    } else if c == '\t' {
        out.push(92u8);
        out.push(116u8);
    } else {
        let v: u32 = c as u32;
        if v <= 0x1f || (0x7f <= v && v <= 0x9f) {
            let hi: u8 = (v / 16) as u8;
            let lo: u8 = (v % 16) as u8;
            out.push(92u8);
            out.push(117u8);
            out.push(48u8);
            out.push(48u8);
            out.push(hex_digit_byte(hi));
            out.push(hex_digit_byte(lo));
        } else {
            push_char_utf8(out, c);
            return;
        }
    }
    assert(out@ =~= o0 + escape_char_spec(c));
}

/// Appends the JSON escape of `c` to `out`, as text.
fn push_escaped_text(out: &mut String, c: char)
    ensures
        final(out)@ == old(out)@ + escape_char_text(c),
{
    let ghost o0 = out@;
    if c == '"' {
        push_char(out, '\\');
        push_char(out, '"');
    } else if c == '\\' {
        push_char(out, '\\');
        push_char(out, '\\');
    } else if c == '\n' {
        push_char(out, '\\');
        push_char(out, 'n');
    } else if c == '\r' {
        push_char(out, '\\');
        push_char(out, 'r');
    } else if c == '\t' {
        push_char(out, '\\');
        push_char(out, 't');
    } else {
        let v: u32 = c as u32;
        if v <= 0x1f || (0x7f <= v && v <= 0x9f) {
            let hi: u8 = (v / 16) as u8;
            let lo: u8 = (v % 16) as u8;
            push_char(out, '\\');
            push_char(out, 'u');
            push_char(out, '0');
            push_char(out, '0');
            push_char(out, hex_digit(hi));
            push_char(out, hex_digit(lo));
        } else {
            push_char(out, c);
        }
    }
    assert(out@ =~= o0 + escape_char_text(c));
}

/// Appends `s` as a JSON string literal (quoted and escaped) to `out`.
pub fn push_json_text(out: &mut String, s: &str)
    ensures
        final(out)@ == old(out)@ + json_text_spec(s@),
{
    let ghost o0 = out@;
    push_char(out, '"');
    let n = s.unicode_len();
    let mut i: usize = 0;
    while i < n
        invariant
            i <= n,
            n == s@.len(),
            out@ == o0 + seq!['"'] + escape_text_spec(s@.subrange(0, i as int)),
        decreases n - i,
    {
        let c = s.get_char(i);
        push_escaped_text(out, c);
        assert(s@.subrange(0, i + 1).drop_last() =~= s@.subrange(0, i as int));
        assert(out@ =~= o0 + seq!['"'] + escape_text_spec(s@.subrange(0, i + 1)));
        i += 1;
    }
    push_char(out, '"');
    assert(s@.subrange(0, n as int) =~= s@);
    assert(out@ =~= o0 + json_text_spec(s@));
}

fn hex_digit_byte(v: u8) -> (r: u8)
    requires
        v < 16,
    ensures
        r == hex_digit_char(v as nat) as u8,
{
    if v < 10 {
        48u8 + v
    } else {
        87u8 + v
    }
}

/// Appends `s` as a canonical JSON string literal to `out`.
fn encode_string(out: &mut Vec<u8>, s: &str)
    ensures
        final(out)@ == old(out)@ + json_string_spec(s@),
{
    let ghost o0 = out@;
    out.push(34u8);
    let n = s.unicode_len();
    let mut i: usize = 0;
    while i < n
        invariant
            i <= n,
            n == s@.len(),
            out@ == o0 + seq![34u8] + escape_spec(s@.subrange(0, i as int)),
        decreases n - i,
    {
        let c = s.get_char(i);
        push_escaped(out, c);
        assert(s@.subrange(0, i + 1).drop_last() =~= s@.subrange(0, i as int));
        assert(out@ =~= o0 + seq![34u8] + escape_spec(s@.subrange(0, i + 1)));
        i += 1;
    }
    out.push(34u8);
    assert(s@.subrange(0, n as int) =~= s@);
    assert(out@ =~= o0 + json_string_spec(s@));
}

/// Encodes an ordered string map as canonical JSON: `{"k":"v",...}` in
/// key order, strings escaped.
pub fn encode_map(map: &StringMap) -> (r: Vec<u8>)
    ensures
        r@ == encode_map_spec(map@),
{
    let mut result: Vec<u8> = Vec::new();
    result.push(123u8);
    let n = map.len();
    let mut i: usize = 0;
    while i < n
        invariant
            i <= n,
            n == map@.len(),
            result@ == seq![123u8] + map_members_spec(map@.subrange(0, i as int)),
        decreases n - i,
    {
        let ghost before = result@;
        if i > 0 {
            result.push(44u8);
        }
        let (k, v) = map.entry(i);
        encode_string(&mut result, k);
        result.push(58u8);
        encode_string(&mut result, v);
        proof {
            let sub = map@.subrange(0, i + 1);
            assert(sub.drop_last() =~= map@.subrange(0, i as int));
            assert(sub.last() == map@[i as int]);
        }
        assert(result@ =~= seq![123u8] + map_members_spec(map@.subrange(0, i + 1)));
        i += 1;
    }
    result.push(125u8);
    assert(map@.subrange(0, n as int) =~= map@);
    assert(result@ =~= encode_map_spec(map@));
    result
}

/// Encodes `(key, value)` pairs as a canonical JSON object, keys quoted
/// and escaped, values copied as they are (they are already canonical).
/// The caller supplies the keys in order.
pub fn encode_sorted_pairs(pairs: &[(&str, String)]) -> (r: Vec<u8>)
    ensures
        r@ == encode_pairs_spec(str_pairs_view(pairs@)),
{
    let ghost e = str_pairs_view(pairs@);
    let mut result: Vec<u8> = Vec::new();
    result.push(123u8);
    let mut i: usize = 0;
    while i < pairs.len()
        invariant
            i <= pairs@.len(),
            e == str_pairs_view(pairs@),
            result@ == seq![123u8] + pair_members_spec(e.subrange(0, i as int)),
        decreases pairs.len() - i,
    {
        if i > 0 {
            result.push(44u8);
        }
        let k: &str = pairs[i].0;
        encode_string(&mut result, k);
        result.push(58u8);
        push_bytes(&mut result, pairs[i].1.as_str().as_bytes());
        proof {
            let sub = e.subrange(0, i + 1);
            assert(sub.drop_last() =~= e.subrange(0, i as int));
            assert(sub.last() == e[i as int]);
        }
        assert(result@ =~= seq![123u8] + pair_members_spec(e.subrange(0, i + 1)));
        i += 1;
    }
    result.push(125u8);
    assert(e.subrange(0, pairs.len() as int) =~= e);
    assert(result@ =~= encode_pairs_spec(e));
    result
}

/// A value with a canonical byte encoding, and the identity hash derived
/// from it.
pub trait Canonical {
    /// The canonical bytes of this value.
    spec fn canonical_spec(&self) -> Seq<u8>;

    /// Encodes this value into its canonical bytes.
    fn canonical_bytes(&self) -> (r: Vec<u8>)
        ensures
            r@ == self.canonical_spec(),
    ;

    /// The SHA-256 hash of the canonical bytes.
    fn canonical_hash(&self) -> (r: hash::Hash)
        ensures
            r@ == sha256_spec(self.canonical_spec()),
    {
        let bytes = self.canonical_bytes();
        hash::Hash::compute(bytes.as_slice())
    }
}

} // verus!
