//! The map's entities: what it places in itself, as brace-delimited blocks of quoted
//! key and value pairs.
//!
//! The model works on the text's UTF-8 bytes. Every character the grammar looks at is
//! ASCII, so a key or value is exactly the bytes between two quote bytes, and skipping
//! whitespace means skipping the encodings of the characters Unicode calls white space.
use vstd::prelude::*;
use vstd::utf8::{
    valid_utf8, encode_utf8, is_char_boundary, valid_utf8_split, encode_utf8_valid_utf8,
    is_char_boundary_iff_not_is_continuation_byte, is_char_boundary_start_end_of_seq,
};
use vstd::string::StringSliceAdditionalSpecFns;
use vstd::std_specs::iter::IteratorSpec;
use crate::bsp::{Bsp, BspView, Error, Result, LUMP_ENTITIES};
use crate::bsp::records::{core_lump, core_lump_spec};

verus! {

/// A key and a value, as the bytes the map spells them with.
pub type PairBytes = (Seq<u8>, Seq<u8>);

// ---------------------------------------------------------------------------
// The grammar over bytes
// ---------------------------------------------------------------------------

/// The encodings of the characters Unicode calls white space.
pub open spec fn ws_len(s: Seq<u8>, i: int) -> nat {
    if i < 0 || i >= s.len() {
        0
    } else if s[i] == 0x20 || (0x09 <= s[i] <= 0x0d) {
        1
    } else if i + 1 < s.len() && s[i] == 0xc2 && (s[i + 1] == 0x85 || s[i + 1] == 0xa0) {
        2
    } else if i + 2 < s.len() && (
        (s[i] == 0xe1 && s[i + 1] == 0x9a && s[i + 2] == 0x80)
        || (s[i] == 0xe2 && s[i + 1] == 0x80 && ((0x80 <= s[i + 2] <= 0x8a) || s[i + 2] == 0xa8
            || s[i + 2] == 0xa9 || s[i + 2] == 0xaf))
        || (s[i] == 0xe2 && s[i + 1] == 0x81 && s[i + 2] == 0x9f)
        || (s[i] == 0xe3 && s[i + 1] == 0x80 && s[i + 2] == 0x80)) {
        3
    } else {
        0
    }
}

/// Where the text from `i` resumes after any white space.
pub open spec fn skip_ws(s: Seq<u8>, i: int) -> int
    decreases s.len() - i,
{
    if 0 <= i < s.len() && ws_len(s, i) > 0 {
        skip_ws(s, i + ws_len(s, i))
    } else {
        i
    }
}

/// The first quote at or after `i`.
pub open spec fn next_quote(s: Seq<u8>, i: int) -> Option<int>
    decreases s.len() - i,
{
    if i < 0 || i >= s.len() {
        None
    } else if s[i] == 0x22 {
        Some(i)
    } else {
        next_quote(s, i + 1)
    }
}

pub proof fn lemma_skip_ws(s: Seq<u8>, i: int)
    ensures
        skip_ws(s, i) >= i,
        0 <= i ==> skip_ws(s, i) >= 0,
        0 <= i <= s.len() ==> skip_ws(s, i) <= s.len(),
    decreases s.len() - i,
{
    if 0 <= i < s.len() && ws_len(s, i) > 0 {
        lemma_skip_ws(s, i + ws_len(s, i));
    }
}

pub proof fn lemma_next_quote(s: Seq<u8>, i: int)
    ensures
        next_quote(s, i) matches Some(k) ==> i <= k < s.len() && s[k] == 0x22 && (forall|j: int| i <= j < k ==> s[j] != 0x22),
        next_quote(s, i) is None ==> (forall|j: int| 0 <= i <= j < s.len() ==> s[j] != 0x22),
    decreases s.len() - i,
{
    if 0 <= i < s.len() && s[i] != 0x22 {
        lemma_next_quote(s, i + 1);
    }
}

/// The entities of the text from `pos` on, with `open` the block being read and `done`
/// the blocks closed so far; nothing where the text is not what the format allows.
pub open spec fn entity_text(
    s: Seq<u8>,
    pos: int,
    open: Option<Seq<PairBytes>>,
    done: Seq<Seq<PairBytes>>,
) -> Option<Seq<Seq<PairBytes>>>
    decreases s.len() - pos,
{
    let p = skip_ws(s, pos);
    proof {
        lemma_skip_ws(s, pos);
    }
    if p >= s.len() {
        if open is Some {
            None
        } else {
            Some(done)
        }
    } else if s[p] == 0x7b {
        if open is Some {
            None
        } else {
            entity_text(s, p + 1, Some(Seq::empty()), done)
        }
    } else if s[p] == 0x7d {
        match open {
            None => None,
            Some(pairs) => entity_text(s, p + 1, None, done.push(pairs)),
        }
    } else if s[p] == 0x22 {
        match open {
            None => None,
            Some(pairs) => {
                proof {
                    lemma_next_quote(s, p + 1);
                }
                match next_quote(s, p + 1) {
                    None => None,
                    Some(key_end) => {
                        let q = skip_ws(s, key_end + 1);
                        proof {
                            lemma_skip_ws(s, key_end + 1);
                        }
                        if q >= s.len() || s[q] != 0x22 {
                            None
                        } else {
                            proof {
                                lemma_next_quote(s, q + 1);
                            }
                            match next_quote(s, q + 1) {
                                None => None,
                                Some(value_end) => entity_text(
                                    s,
                                    value_end + 1,
                                    Some(pairs.push((s.subrange(p + 1, key_end), s.subrange(q + 1, value_end)))),
                                    done,
                                ),
                            }
                        }
                    },
                }
            },
        }
    } else {
        None
    }
}

/// Where the text ends: at the first nul, or at the end of the lump.
pub open spec fn text_end(s: Seq<u8>, i: int) -> int
    decreases s.len() - i,
{
    if i < 0 || i >= s.len() {
        s.len() as int
    } else if s[i] == 0 {
        i
    } else {
        text_end(s, i + 1)
    }
}

/// What an entity lump reads as: the text before its first nul, which must be UTF-8
/// and follow the grammar.
pub open spec fn entities_spec(bytes: Seq<u8>) -> Option<Seq<Seq<PairBytes>>> {
    let text = bytes.subrange(0, text_end(bytes, 0));
    if !valid_utf8(text) {
        None
    } else {
        entity_text(text, 0, None, Seq::empty())
    }
}

// ---------------------------------------------------------------------------
// Reading the text
// ---------------------------------------------------------------------------

/// `std::str::from_utf8`: the text the bytes spell, where they are valid UTF-8.
///
/// Claimed: it gives text exactly for valid UTF-8, and that text is those bytes.
#[verifier::external_body]
pub(crate) fn utf8_text<'a>(bytes: &'a [u8]) -> (r: Option<&'a str>)
    ensures
        r is Some <==> valid_utf8(bytes@),
        r matches Some(text) ==> text.spec_bytes() == bytes@,
{
    std::str::from_utf8(bytes).ok()
}

fn whitespace_len(b: &[u8], i: usize) -> (r: usize)
    ensures
        r == ws_len(b@, i as int),
{
    let n = b.len();
    if i >= n {
        return 0;
    }
    let c = b[i];
    if c == 0x20 || (0x09 <= c && c <= 0x0d) {
        return 1;
    }
    if i + 1 < n && c == 0xc2 && (b[i + 1] == 0x85 || b[i + 1] == 0xa0) {
        return 2;
    }
    if n - i > 2 {
        let d = b[i + 1];
        let e = b[i + 2];
        if (c == 0xe1 && d == 0x9a && e == 0x80) || (c == 0xe2 && d == 0x80 && ((0x80 <= e && e <= 0x8a)
            || e == 0xa8 || e == 0xa9 || e == 0xaf)) || (c == 0xe2 && d == 0x81 && e == 0x9f) || (c == 0xe3
            && d == 0x80 && e == 0x80) {
            return 3;
        }
    }
    0
}

fn skip_whitespace(b: &[u8], i: usize) -> (r: usize)
    requires
        i <= b@.len(),
    ensures
        r == skip_ws(b@, i as int),
        i <= r <= b@.len(),
{
    let mut p = i;
    while p < b.len() && whitespace_len(b, p) > 0
        invariant
            i <= p <= b@.len(),
            skip_ws(b@, i as int) == skip_ws(b@, p as int),
        decreases b@.len() - p,
    {
        p = p + whitespace_len(b, p);
    }
    p
}

fn find_quote(b: &[u8], i: usize) -> (r: Option<usize>)
    ensures
        match r {
            Some(k) => next_quote(b@, i as int) == Some(k as int),
            None => next_quote(b@, i as int) is None,
        },
{
    let mut k = i;
    while k < b.len()
        invariant
            i <= k,
            next_quote(b@, i as int) == next_quote(b@, k as int),
        decreases b@.len() - k,
    {
        if b[k] == 0x22 {
            return Some(k);
        }
        k = k + 1;
    }
    None
}

/// In valid UTF-8, an ASCII byte is a character of its own: it starts one, and the
/// next byte starts another.
proof fn lemma_ascii_boundaries(b: Seq<u8>, i: int)
    requires
        valid_utf8(b),
        0 <= i < b.len(),
        b[i] < 0x80,
    ensures
        is_char_boundary(b, i),
        is_char_boundary(b, i + 1),
{
    is_char_boundary_iff_not_is_continuation_byte(b, i);
    let t = b.subrange(i, b.len() as int);
    valid_utf8_split(b, i);
    assert(t[0] == b[i]);
    assert(is_char_boundary(t, 1)) by {
        reveal_with_fuel(is_char_boundary, 2);
        reveal_with_fuel(valid_utf8, 2);
    }
    if i + 1 == b.len() {
        is_char_boundary_start_end_of_seq(b);
    } else {
        is_char_boundary_iff_not_is_continuation_byte(t, 1);
        assert(t[1] == b[i + 1]);
        is_char_boundary_iff_not_is_continuation_byte(b, i + 1);
    }
}

/// The text strictly between two quotes, as a string of its own.
fn quoted_text(text: &str, start: usize, end: usize) -> (r: String)
    requires
        1 <= start <= end < text.spec_bytes().len(),
        text.spec_bytes()[start - 1] == 0x22,
        text.spec_bytes()[end as int] == 0x22,
    ensures
        encode_utf8(r@) == text.spec_bytes().subrange(start as int, end as int),
{
    let ghost b = text.spec_bytes();
    proof {
        encode_utf8_valid_utf8(text@);
        lemma_ascii_boundaries(b, start - 1);
        lemma_ascii_boundaries(b, end as int);
    }
    let (_, tail) = text.split_at(start);
    let ghost t = tail.spec_bytes();
    proof {
        valid_utf8_split(b, start as int);
        assert(t[end - start] == b[end as int]);
        is_char_boundary_iff_not_is_continuation_byte(t, end - start);
    }
    let (piece, _) = tail.split_at(end - start);
    proof {
        assert(piece.spec_bytes() =~= b.subrange(start as int, end as int));
    }
    piece.to_owned()
}

// ---------------------------------------------------------------------------
// Entities
// ---------------------------------------------------------------------------

/// The value of the first pair whose key is `key`.
pub open spec fn first_value(pairs: Seq<PairBytes>, key: Seq<u8>) -> Option<Seq<u8>>
    decreases pairs.len(),
{
    if pairs.len() == 0 {
        None
    } else if pairs[0].0 == key {
        Some(pairs[0].1)
    } else {
        first_value(pairs.drop_first(), key)
    }
}

/// The values of every pair whose key is `key`, in the order the map states them.
pub open spec fn all_values(pairs: Seq<PairBytes>, key: Seq<u8>) -> Seq<Seq<u8>>
    decreases pairs.len(),
{
    if pairs.len() == 0 {
        Seq::empty()
    } else {
        let rest = all_values(pairs.drop_first(), key);
        if pairs[0].0 == key {
            seq![pairs[0].1] + rest
        } else {
            rest
        }
    }
}

/// The one value a lookup gives for a key is the first of all its values, and there is
/// none exactly when the key has no value.
pub proof fn lemma_first_of_all_values(pairs: Seq<PairBytes>, key: Seq<u8>)
    ensures
        first_value(pairs, key) == (if all_values(pairs, key).len() > 0 {
            Some(all_values(pairs, key)[0])
        } else {
            None
        }),
    decreases pairs.len(),
{
    if pairs.len() > 0 {
        lemma_first_of_all_values(pairs.drop_first(), key);
    }
}

/// The key an entity's kind is written under.
pub open spec fn classname_key() -> Seq<u8> {
    seq![0x63u8, 0x6c, 0x61, 0x73, 0x73, 0x6e, 0x61, 0x6d, 0x65]
}

/// The key a brush entity names its model under.
pub open spec fn model_key() -> Seq<u8> {
    seq![0x6du8, 0x6f, 0x64, 0x65, 0x6c]
}

/// The class the compiler gives the map's own settings.
pub open spec fn worldspawn_name() -> Seq<u8> {
    seq![0x77u8, 0x6f, 0x72, 0x6c, 0x64, 0x73, 0x70, 0x61, 0x77, 0x6e]
}

/// The decimal number a run of ASCII digits spells.
pub open spec fn digits_value(s: Seq<u8>) -> nat
    decreases s.len(),
{
    if s.len() == 0 {
        0
    } else {
        digits_value(s.drop_last()) * 10 + (s.last() - 0x30) as nat
    }
}

pub open spec fn all_digits(s: Seq<u8>) -> bool {
    forall|i: int| 0 <= i < s.len() ==> 0x30 <= #[trigger] s[i] <= 0x39
}

/// What an unsigned decimal reads as: an optional plus sign and at least one digit,
/// no larger than a `usize` holds.
pub open spec fn decimal_spec(s: Seq<u8>) -> Option<usize> {
    let digits = if s.len() > 0 && s[0] == 0x2b {
        s.drop_first()
    } else {
        s
    };
    if digits.len() == 0 || !all_digits(digits) || digits_value(digits) > usize::MAX {
        None
    } else {
        Some(digits_value(digits) as usize)
    }
}

/// The brush model a value names: `*` and the model's number.
pub open spec fn brush_model_spec(value: Option<Seq<u8>>) -> Option<usize> {
    match value {
        Some(v) => if v.len() > 0 && v[0] == 0x2a {
            decimal_spec(v.drop_first())
        } else {
            None
        },
        None => None,
    }
}

/// One of the map's entities: a bag of key and value pairs naming what it is, where it
/// is and what it does.
///
/// A key can appear more than once, which is how an entity lists several outputs firing
/// on the same event, so the pairs are kept in the order the map states them rather
/// than folded into a map.
#[derive(Debug, Clone, Default, PartialEq, Eq)]
pub struct Entity {
    pairs: Vec<(String, String)>,
}

/// The bytes a key and value pair spells.
pub open spec fn pair_bytes(p: (String, String)) -> PairBytes {
    (encode_utf8(p.0@), encode_utf8(p.1@))
}

impl View for Entity {
    type V = Seq<PairBytes>;

    closed spec fn view(&self) -> Seq<PairBytes> {
        self.pairs@.map_values(|p: (String, String)| pair_bytes(p))
    }
}

fn same_bytes(a: &[u8], b: &[u8]) -> (r: bool)
    ensures
        r == (a@ == b@),
{
    if a.len() != b.len() {
        return false;
    }
    let mut i: usize = 0;
    while i < a.len()
        invariant
            a@.len() == b@.len(),
            i <= a@.len(),
            forall|j: int| 0 <= j < i ==> a@[j] == b@[j],
        decreases a@.len() - i,
    {
        if a[i] != b[i] {
            return false;
        }
        i = i + 1;
    }
    proof {
        assert(a@ =~= b@);
    }
    true
}

fn string_bytes(s: &String) -> (r: &[u8])
    ensures
        r@ == encode_utf8(s@),
{
    s.as_str().as_bytes()
}

/// Parses an unsigned decimal, as `usize`'s `from_str` does.
fn parse_decimal(s: &[u8]) -> (r: Option<usize>)
    ensures
        r == decimal_spec(s@),
{
    let start: usize = if s.len() > 0 && s[0] == 0x2b { 1 } else { 0 };
    let ghost digits = if s@.len() > 0 && s@[0] == 0x2b { s@.drop_first() } else { s@ };
    proof {
        assert(digits =~= s@.subrange(start as int, s@.len() as int));
    }
    if start == s.len() {
        return None;
    }
    let mut value: usize = 0;
    let mut i: usize = start;
    while i < s.len()
        invariant
            start <= i <= s@.len(),
            start < s@.len(),
            digits == s@.subrange(start as int, s@.len() as int),
            digits == if s@.len() > 0 && s@[0] == 0x2b {
                s@.drop_first()
            } else {
                s@
            },
            all_digits(s@.subrange(start as int, i as int)),
            value == digits_value(s@.subrange(start as int, i as int)),
        decreases s@.len() - i,
    {
        let c = s[i];
        proof {
            assert(s@.subrange(start as int, i + 1).drop_last() =~= s@.subrange(start as int, i as int));
        }
        if c < 0x30 || c > 0x39 {
            proof {
                assert(digits[i - start] == c);
                assert(!all_digits(digits));
            }
            return None;
        }
        let d = (c - 0x30) as usize;
        if value > (usize::MAX - d) / 10 {
            proof {
                let prefix = s@.subrange(start as int, i + 1);
                assert(digits.subrange(0, prefix.len() as int) =~= prefix);
                lemma_digits_grow(prefix, digits);
                assert(digits_value(prefix) == value * 10 + d);
                assert(value * 10 + d > usize::MAX) by (nonlinear_arith)
                    requires
                        value > (usize::MAX - d) / 10,
                        d <= 9,
                {
                }
            }
            return None;
        }
        value = value * 10 + d;
        i = i + 1;
    }
    proof {
        assert(s@.subrange(start as int, s@.len() as int) =~= digits);
    }
    Some(value)
}

/// A longer run of digits is worth at least as much as its prefix.
proof fn lemma_digits_grow(prefix: Seq<u8>, s: Seq<u8>)
    requires
        prefix.len() <= s.len(),
        prefix == s.subrange(0, prefix.len() as int),
    ensures
        digits_value(prefix) <= digits_value(s),
    decreases s.len(),
{
    if prefix.len() < s.len() {
        assert(s.drop_last().subrange(0, prefix.len() as int) =~= prefix);
        lemma_digits_grow(prefix, s.drop_last());
    } else {
        assert(prefix =~= s);
    }
}

impl Entity {
    fn get_bytes(&self, key: &[u8]) -> (r: Option<&str>)
        ensures
            match r {
                Some(v) => first_value(self@, key@) == Some(v.spec_bytes()),
                None => first_value(self@, key@) is None,
            },
    {
        let mut i: usize = 0;
        proof {
            assert(self@.subrange(0, self@.len() as int) =~= self@);
        }
        while i < self.pairs.len()
            invariant
                i <= self.pairs@.len(),
                first_value(self@, key@) == first_value(self@.subrange(i as int, self@.len() as int), key@),
            decreases self.pairs@.len() - i,
        {
            proof {
                assert(self@.subrange(i as int, self@.len() as int).drop_first() =~= self@.subrange(i + 1, self@.len() as int));
                assert(self@[i as int] == pair_bytes(self.pairs@[i as int]));
            }
            let pair = &self.pairs[i];
            if same_bytes(string_bytes(&pair.0), key) {
                return Some(pair.1.as_str());
            }
            i = i + 1;
        }
        None
    }

    /// The first value for a key, which is the one the engine reads for every key but
    /// an output.
    pub fn get(&self, key: &str) -> (r: Option<&str>)
        ensures
            match r {
                Some(v) => first_value(self@, key.spec_bytes()) == Some(v.spec_bytes()),
                None => first_value(self@, key.spec_bytes()) is None,
            },
    {
        self.get_bytes(key.as_bytes())
    }

    /// Every value for a key, in the order the map states them.
    pub fn all(&self, key: &str) -> (r: Vec<&str>)
        ensures
            r@.len() == all_values(self@, key.spec_bytes()).len(),
            forall|i: int| 0 <= i < r@.len() ==> #[trigger] r@[i].spec_bytes() == all_values(self@, key.spec_bytes())[i],
    {
        let ghost k = key.spec_bytes();
        let wanted = key.as_bytes();
        let mut out: Vec<&str> = Vec::new();
        let mut i: usize = self.pairs.len();
        proof {
            assert(self@.subrange(i as int, self@.len() as int) =~= Seq::<PairBytes>::empty());
        }
        while i > 0
            invariant
                i <= self.pairs@.len(),
                wanted@ == k,
                out@.len() == all_values(self@.subrange(i as int, self@.len() as int), k).len(),
                forall|j: int| 0 <= j < out@.len() ==> #[trigger] out@[j].spec_bytes() == all_values(
                    self@.subrange(i as int, self@.len() as int),
                    k,
                )[out@.len() - 1 - j],
            decreases i,
        {
            i = i - 1;
            proof {
                assert(self@.subrange(i as int, self@.len() as int).drop_first() =~= self@.subrange(i + 1, self@.len() as int));
                assert(self@[i as int] == pair_bytes(self.pairs@[i as int]));
            }
            let pair = &self.pairs[i];
            if same_bytes(string_bytes(&pair.0), wanted) {
                out.push(pair.1.as_str());
            }
        }
        proof {
            assert(self@.subrange(0, self@.len() as int) =~= self@);
        }
        let mut result: Vec<&str> = Vec::new();
        let mut j: usize = out.len();
        while j > 0
            invariant
                j <= out@.len(),
                result@.len() == out@.len() - j,
                forall|m: int| 0 <= m < result@.len() ==> #[trigger] result@[m] == out@[out@.len() - 1 - m],
            decreases j,
        {
            j = j - 1;
            result.push(out[j]);
        }
        result
    }

    pub fn classname(&self) -> (r: Option<&str>)
        ensures
            match r {
                Some(v) => first_value(self@, classname_key()) == Some(v.spec_bytes()),
                None => first_value(self@, classname_key()) is None,
            },
    {
        let key: [u8; 9] = [0x63, 0x6c, 0x61, 0x73, 0x73, 0x6e, 0x61, 0x6d, 0x65];
        proof {
            assert(key@ =~= classname_key());
        }
        self.get_bytes(key.as_slice())
    }

    /// The brush model this entity draws and collides with, if it is one of the map's
    /// own brushes rather than a point in space.
    ///
    /// Written as `*` and the model's number, which is what distinguishes a door cut
    /// from the map from one loaded out of a model file.
    pub fn brush_model(&self) -> (r: Option<usize>)
        ensures
            r == brush_model_spec(first_value(self@, model_key())),
    {
        let key: [u8; 5] = [0x6d, 0x6f, 0x64, 0x65, 0x6c];
        proof {
            assert(key@ =~= model_key());
        }
        let value = match self.get_bytes(key.as_slice()) {
            Some(v) => v.as_bytes(),
            None => return None,
        };
        if value.len() == 0 || value[0] != 0x2a {
            return None;
        }
        let number = vstd::slice::slice_subrange(value, 1, value.len());
        proof {
            assert(number@ =~= value@.drop_first());
        }
        parse_decimal(number)
    }

    pub fn pairs(&self) -> (r: &[(String, String)])
        ensures
            r@.map_values(|p: (String, String)| pair_bytes(p)) == self@,
    {
        self.pairs.as_slice()
    }
}

/// Everything the map places in itself.
#[derive(Debug, Clone, Default, PartialEq, Eq)]
pub struct Entities(Vec<Entity>);

impl View for Entities {
    type V = Seq<Seq<PairBytes>>;

    closed spec fn view(&self) -> Seq<Seq<PairBytes>> {
        self.0@.map_values(|e: Entity| e@)
    }
}

/// The entity lump of a map, read.
pub open spec fn parse_spec(b: BspView) -> core::result::Result<Seq<Seq<PairBytes>>, Error> {
    match core_lump_spec(b.header, b.bytes, LUMP_ENTITIES as int) {
        Err(e) => Err(e),
        Ok(lump) => match entities_spec(lump) {
            Some(es) => Ok(es),
            None => Err(Error::InvalidEntityText),
        },
    }
}

/// The pairs of an open block, as bytes.
pub open spec fn pairs_view(pairs: Vec<(String, String)>) -> Seq<PairBytes> {
    pairs@.map_values(|p: (String, String)| pair_bytes(p))
}

/// The entities whose class is `name`, in map order.
pub open spec fn with_class(es: Seq<Seq<PairBytes>>, name: Seq<u8>) -> Seq<Seq<PairBytes>>
    decreases es.len(),
{
    if es.len() == 0 {
        Seq::empty()
    } else {
        let rest = with_class(es.drop_first(), name);
        if first_value(es[0], classname_key()) == Some(name) {
            seq![es[0]] + rest
        } else {
            rest
        }
    }
}

impl Entities {
    /// The entities, in the order the map states them.
    pub closed spec fn items(&self) -> Seq<Entity> {
        self.0@
    }

    pub fn parse(bsp: &Bsp<'_>) -> (r: Result<Self>)
        ensures
            match r {
                Ok(es) => parse_spec(bsp@) == Ok::<Seq<Seq<PairBytes>>, Error>(es@),
                Err(e) => parse_spec(bsp@) == Err::<Seq<Seq<PairBytes>>, Error>(e),
            },
    {
        let lump = core_lump(bsp, LUMP_ENTITIES)?;
        Self::read(lump)
    }

    /// Reads the lump's own text, which is a run of brace-delimited blocks of quoted
    /// key and value pairs.
    ///
    /// The lump is terminated by a nul and often padded past it, so everything from the
    /// first nul on is ignored. Quoted values are taken literally: the format has no
    /// escape, and a value holding a backslash is a Windows content path rather than
    /// the start of one.
    fn read(bytes: &[u8]) -> (r: Result<Self>)
        ensures
            match r {
                Ok(es) => entities_spec(bytes@) == Some(es@),
                Err(e) => entities_spec(bytes@) is None && e == Error::InvalidEntityText,
            },
    {
        let mut end: usize = 0;
        while end < bytes.len() && bytes[end] != 0
            invariant
                end <= bytes@.len(),
                text_end(bytes@, 0) == text_end(bytes@, end as int),
            decreases bytes@.len() - end,
        {
            end = end + 1;
        }
        let raw = vstd::slice::slice_subrange(bytes, 0, end);
        let text = match utf8_text(raw) {
            Some(t) => t,
            None => return Err(Error::InvalidEntityText),
        };
        let b = text.as_bytes();
        let ghost t = b@;
        let ghost goal = entity_text(t, 0, None, Seq::empty());
        let mut entities: Vec<Entity> = Vec::new();
        let mut current: Vec<(String, String)> = Vec::new();
        let mut is_open = false;
        let mut pos: usize = 0;
        proof {
            assert(entities@.map_values(|e: Entity| e@) =~= Seq::<Seq<PairBytes>>::empty());
        }
        loop
            invariant
                t == b@,
                t == text.spec_bytes(),
                goal == entities_spec(bytes@),
                pos <= t.len(),
                goal == entity_text(
                    t,
                    pos as int,
                    if is_open { Some(pairs_view(current)) } else { None },
                    entities@.map_values(|e: Entity| e@),
                ),
            ensures
                pos <= t.len(),
                skip_ws(t, pos as int) >= t.len(),
                goal == entity_text(
                    t,
                    pos as int,
                    if is_open { Some(pairs_view(current)) } else { None },
                    entities@.map_values(|e: Entity| e@),
                ),
            decreases t.len() - pos,
        {
            let p = skip_whitespace(b, pos);
            if p >= b.len() {
                break;
            }
            let c = b[p];
            if c == 0x7b {
                if is_open {
                    return Err(Error::InvalidEntityText);
                }
                is_open = true;
                current = Vec::new();
                proof {
                    assert(pairs_view(current) =~= Seq::<PairBytes>::empty());
                }
                pos = p + 1;
            } else if c == 0x7d {
                if !is_open {
                    return Err(Error::InvalidEntityText);
                }
                let ghost before = entities@.map_values(|e: Entity| e@);
                let closed = Entity { pairs: current };
                proof {
                    assert(closed@ == pairs_view(current));
                }
                entities.push(closed);
                proof {
                    assert(entities@.map_values(|e: Entity| e@) =~= before.push(closed@));
                }
                current = Vec::new();
                is_open = false;
                pos = p + 1;
            } else if c == 0x22 {
                if !is_open {
                    return Err(Error::InvalidEntityText);
                }
                proof {
                    lemma_next_quote(t, p + 1);
                }
                let key_end = match find_quote(b, p + 1) {
                    Some(k) => k,
                    None => return Err(Error::InvalidEntityText),
                };
                let q = skip_whitespace(b, key_end + 1);
                if q >= b.len() || b[q] != 0x22 {
                    return Err(Error::InvalidEntityText);
                }
                proof {
                    lemma_next_quote(t, q + 1);
                }
                let value_end = match find_quote(b, q + 1) {
                    Some(k) => k,
                    None => return Err(Error::InvalidEntityText),
                };
                let key = quoted_text(text, p + 1, key_end);
                let value = quoted_text(text, q + 1, value_end);
                let ghost before = pairs_view(current);
                let ghost pair = (key, value);
                current.push((key, value));
                proof {
                    assert(pair_bytes(pair) == (t.subrange(p + 1, key_end as int), t.subrange(q + 1, value_end as int)));
                    assert(pairs_view(current) =~= before.push(pair_bytes(pair)));
                }
                pos = value_end + 1;
            } else {
                return Err(Error::InvalidEntityText);
            }
        }
        if is_open {
            return Err(Error::InvalidEntityText);
        }
        Ok(Entities(entities))
    }

    /// The entities, in the order the map states them.
    pub fn iter(&self) -> (r: std::slice::Iter<'_, Entity>)
        ensures
            r.remaining() == self.items().as_ref(),
    {
        let items = self.0.as_slice();
        proof {
            vstd::std_specs::slice::axiom_spec_slice_iter(items);
        }
        items.iter()
    }

    pub fn len(&self) -> (r: usize)
        ensures
            r == self@.len(),
    {
        self.0.len()
    }

    pub fn is_empty(&self) -> (r: bool)
        ensures
            r == (self@.len() == 0),
    {
        self.0.len() == 0
    }

    /// The map's own settings, which the compiler writes as the first entity and which
    /// names the map's sky and its lighting.
    pub fn worldspawn(&self) -> (r: Option<&Entity>)
        ensures
            match r {
                Some(e) => self@.len() > 0 && e@ == self@[0] && first_value(self@[0], classname_key()) == Some(worldspawn_name()),
                None => !(self@.len() > 0 && first_value(self@[0], classname_key()) == Some(worldspawn_name())),
            },
    {
        if self.0.len() == 0 {
            return None;
        }
        let first = &self.0[0];
        let name: [u8; 10] = [0x77, 0x6f, 0x72, 0x6c, 0x64, 0x73, 0x70, 0x61, 0x77, 0x6e];
        proof {
            assert(name@ =~= worldspawn_name());
            assert(self@[0] == first@);
        }
        match first.classname() {
            Some(class) => if same_bytes(class.as_bytes(), name.as_slice()) {
                Some(first)
            } else {
                None
            },
            None => None,
        }
    }

    /// The entities of one class, in map order.
    pub fn by_classname(&self, classname: &str) -> (r: Vec<&Entity>)
        ensures
            r@.map_values(|e: &Entity| e@) == with_class(self@, classname.spec_bytes()),
    {
        let wanted = classname.as_bytes();
        let ghost name = classname.spec_bytes();
        let mut out: Vec<&Entity> = Vec::new();
        let mut i: usize = self.0.len();
        proof {
            assert(self@.subrange(i as int, self@.len() as int) =~= Seq::<Seq<PairBytes>>::empty());
        }
        while i > 0
            invariant
                i <= self@.len(),
                self@.len() == self.0@.len(),
                wanted@ == name,
                out@.len() == with_class(self@.subrange(i as int, self@.len() as int), name).len(),
                forall|j: int| 0 <= j < out@.len() ==> #[trigger] out@[j]@ == with_class(
                    self@.subrange(i as int, self@.len() as int),
                    name,
                )[out@.len() - 1 - j],
            decreases i,
        {
            i = i - 1;
            proof {
                assert(self@.subrange(i as int, self@.len() as int).drop_first() =~= self@.subrange(i + 1, self@.len() as int));
                assert(self@[i as int] == self.0@[i as int]@);
            }
            let entity = &self.0[i];
            let matches = match entity.classname() {
                Some(class) => same_bytes(class.as_bytes(), wanted),
                None => false,
            };
            if matches {
                out.push(entity);
            }
        }
        proof {
            assert(self@.subrange(0, self@.len() as int) =~= self@);
        }
        let mut result: Vec<&Entity> = Vec::new();
        let mut j: usize = out.len();
        while j > 0
            invariant
                j <= out@.len(),
                result@.len() == out@.len() - j,
                forall|m: int| 0 <= m < result@.len() ==> #[trigger] result@[m] == out@[out@.len() - 1 - m],
            decreases j,
        {
            j = j - 1;
            result.push(out[j]);
        }
        proof {
            assert(result@.map_values(|e: &Entity| e@) =~= with_class(self@, name));
        }
        result
    }
}

/// What follows the first nul of the lump is never read: a lump padded past its
/// terminator reads as the text before it.
pub proof fn lemma_padding_ignored(text: Seq<u8>, padding: Seq<u8>)
    requires
        forall|i: int| 0 <= i < text.len() ==> text[i] != 0,
    ensures
        entities_spec(text + seq![0u8] + padding) == entities_spec(text),
{
    let lump = text + seq![0u8] + padding;
    lemma_text_end(lump, 0, text.len() as int);
    lemma_text_end(text, 0, text.len() as int);
    assert(lump.subrange(0, text.len() as int) =~= text);
    assert(text.subrange(0, text.len() as int) =~= text);
}

proof fn lemma_text_end(s: Seq<u8>, i: int, end: int)
    requires
        0 <= i <= end <= s.len(),
        forall|j: int| i <= j < end ==> s[j] != 0,
        end == s.len() || s[end] == 0,
    ensures
        text_end(s, i) == end,
    decreases s.len() - i,
{
    if i < end {
        lemma_text_end(s, i + 1, end);
    }
}

/// The brush model entity `e` places.
pub open spec fn placed_model(e: Seq<PairBytes>) -> Option<usize> {
    brush_model_spec(first_value(e, model_key()))
}

/// Entity `i` is the first to place brush model `m`, and `m` is not the world.
pub open spec fn first_placing(es: Seq<Seq<PairBytes>>, m: usize, i: int) -> bool {
    &&& 0 <= i < es.len()
    &&& m != 0
    &&& placed_model(es[i]) == Some(m)
    &&& forall|j: int| 0 <= j < i ==> placed_model(#[trigger] es[j]) != Some(m)
}

/// Every brush model the entities place, other than the world, each once with the
/// first entity placing it, in increasing order of model.
pub open spec fn brush_models_spec(es: Seq<Seq<PairBytes>>, r: Seq<(usize, usize)>) -> bool {
    &&& forall|a: int, b: int| 0 <= a < b < r.len() ==> (#[trigger] r[a]).0 < (#[trigger] r[b]).0
    &&& forall|k: int| 0 <= k < r.len() ==> first_placing(es, (#[trigger] r[k]).0, r[k].1 as int)
    &&& forall|m: usize, i: int| first_placing(es, m, i) ==> exists|k: int| 0 <= k < r.len() && #[trigger] r[k] == (m, i as usize)
}

impl Entities {
    /// Every brush model the map places, other than the world, with the first entity
    /// that places it, ordered by model so a caller draws them in the order the map
    /// stores them. A model no entity claims is left out: without an entity there is
    /// nothing to say where it goes.
    pub fn brush_models(&self) -> (r: Vec<(usize, usize)>)
        ensures
            brush_models_spec(self@, r@),
    {
        let ghost es = self@;
        let mut out: Vec<(usize, usize)> = Vec::new();
        let mut i: usize = 0;
        while i < self.0.len()
            invariant
                i <= self.0@.len(),
                es == self@,
                es.len() == self.0@.len(),
                forall|a: int, b: int| 0 <= a < b < out@.len() ==> (#[trigger] out@[a]).0 < (#[trigger] out@[b]).0,
                forall|k: int| 0 <= k < out@.len() ==> #[trigger] out@[k].1 < i && first_placing(es, out@[k].0, out@[k].1 as int),
                forall|m: usize, j: int| 0 <= j < i && first_placing(es, m, j) ==> exists|k: int|
                    0 <= k < out@.len() && #[trigger] out@[k] == (m, j as usize),
                forall|j: int|
                    0 <= j < i && #[trigger] placed_model(es[j]) is Some && placed_model(es[j])->Some_0 != 0 ==> exists|k: int|
                        0 <= k < out@.len() && out@[k].0 == placed_model(es[j])->Some_0,
            decreases self.0@.len() - i,
        {
            proof {
                assert(self.0@[i as int]@ == es[i as int]);
            }
            let model = self.0[i].brush_model();
            if let Some(m) = model {
                if m != 0 {
                    let mut j: usize = 0;
                    while j < out.len() && out[j].0 < m
                        invariant
                            j <= out@.len(),
                            forall|q: int| 0 <= q < j ==> #[trigger] out@[q].0 < m,
                        decreases out@.len() - j,
                    {
                        j = j + 1;
                    }
                    if j < out.len() && out[j].0 == m {
                        // An earlier entity already places this model.
                    } else {
                        let ghost before = out@;
                        proof {
                            assert forall|j2: int| 0 <= j2 < i implies placed_model(#[trigger] es[j2]) != Some(m) by {
                                if placed_model(es[j2]) == Some(m) {
                                    let k = choose|k: int| 0 <= k < before.len() && before[k].0 == m;
                                    if k < j {
                                    } else if k > j {
                                        assert(before[j as int].0 < before[k].0);
                                        assert(j < before.len());
                                    }
                                }
                            }
                        }
                        out.insert(j, (m, i));
                        proof {
                            assert forall|a: int, b: int| 0 <= a < b < out@.len() implies (#[trigger] out@[a]).0 < (
                            #[trigger] out@[b]).0 by {
                                if b < j {
                                    assert(out@[a] == before[a]);
                                    assert(out@[b] == before[b]);
                                } else if b == j {
                                    assert(out@[a] == before[a]);
                                } else if a < j {
                                    assert(out@[a] == before[a]);
                                    assert(out@[b] == before[b - 1]);
                                    assert(before[b - 1].0 >= m);
                                } else if a == j {
                                    assert(out@[b] == before[b - 1]);
                                    assert(before[b - 1].0 > m) by {
                                        if b - 1 > j {
                                            assert(before[j as int].0 < before[b - 1].0);
                                        }
                                    }
                                } else {
                                    assert(out@[a] == before[a - 1]);
                                    assert(out@[b] == before[b - 1]);
                                }
                            }
                            assert forall|k: int| 0 <= k < out@.len() implies #[trigger] out@[k].1 < i + 1 && first_placing(
                                es,
                                out@[k].0,
                                out@[k].1 as int,
                            ) by {
                                if k < j {
                                    assert(out@[k] == before[k]);
                                } else if k > j {
                                    assert(out@[k] == before[k - 1]);
                                }
                            }
                            assert forall|m2: usize, j2: int| 0 <= j2 < i + 1 && first_placing(es, m2, j2) implies exists|k: int|
                                0 <= k < out@.len() && #[trigger] out@[k] == (m2, j2 as usize) by {
                                if j2 < i {
                                    let k = choose|k: int| 0 <= k < before.len() && #[trigger] before[k] == (m2, j2 as usize);
                                    if k < j {
                                        assert(out@[k] == before[k]);
                                    } else {
                                        assert(out@[k + 1] == before[k]);
                                    }
                                } else {
                                    assert(out@[j as int] == (m, i));
                                }
                            }
                            assert forall|j2: int|
                                0 <= j2 < i + 1 && #[trigger] placed_model(es[j2]) is Some && placed_model(es[j2])->Some_0 != 0 implies exists|k: int|
                                    0 <= k < out@.len() && out@[k].0 == placed_model(es[j2])->Some_0 by {
                                let m2 = placed_model(es[j2])->Some_0;
                                if j2 < i {
                                    let k = choose|k: int| 0 <= k < before.len() && before[k].0 == m2;
                                    if k < j {
                                        assert(out@[k] == before[k]);
                                    } else {
                                        assert(out@[k + 1] == before[k]);
                                    }
                                } else {
                                    assert(out@[j as int].0 == m2);
                                }
                            }
                        }
                    }
                }
            }
            i = i + 1;
        }
        out
    }
}

} // verus!
