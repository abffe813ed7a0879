//! Checked little-endian and Source-style bit-buffer primitives.
use vstd::prelude::*;
use crate::text::{decimal, push_decimal, push_str};
use vstd::arithmetic::div_mod::{lemma_div_denominator, lemma_mod_breakdown, lemma_small_mod};
use vstd::arithmetic::power2::{pow2, lemma_pow2_pos, lemma_pow2_unfold, lemma_pow2_strictly_increases, lemma2_to64};
use vstd::bits::{lemma_u64_shl_is_mul, lemma_u64_pow2_no_overflow, lemma_u64_shr_is_div};

verus! {

/// Why a read, seek or write was refused.
#[derive(Debug, Clone, PartialEq, Eq)]
pub enum Error {
    UnexpectedEof { offset: usize, requested: usize, remaining: usize },
    InvalidSeek { offset: usize, length: usize },
    UnterminatedString { offset: usize, limit: usize },
    LimitExceeded { what: &'static str, value: usize, limit: usize },
    InvalidBitCount(u32),
}

pub type Result<T> = core::result::Result<T, Error>;

// ---------------------------------------------------------------------------
// Byte-level model
// ---------------------------------------------------------------------------

/// `256` raised to `n`.
pub open spec fn pow256(n: nat) -> nat
    decreases n,
{
    if n == 0 {
        1
    } else {
        256 * pow256((n - 1) as nat)
    }
}

/// The number a run of bytes spells least-significant byte first.
pub open spec fn le_value(s: Seq<u8>) -> nat
    decreases s.len(),
{
    if s.len() == 0 {
        0
    } else {
        s[0] as nat + 256 * le_value(s.drop_first())
    }
}

/// The `n` bytes that spell `v` least-significant byte first (keeping the low `n` bytes).
pub open spec fn le_bytes(v: nat, n: nat) -> Seq<u8> {
    Seq::new(n, |i: int| ((v / pow256(i as nat)) % 256) as u8)
}

/// Two's complement reading of an `n`-byte unsigned value.
pub open spec fn signed_value(u: nat, n: nat) -> int {
    if u >= pow256(n) / 2 {
        u - pow256(n)
    } else {
        u as int
    }
}

/// The `n`-byte unsigned value whose two's complement reading is `v`.
pub open spec fn unsigned_value(v: int, n: nat) -> nat {
    if v < 0 {
        (v + pow256(n)) as nat
    } else {
        v as nat
    }
}

pub proof fn lemma_pow256_pos(n: nat)
    ensures
        pow256(n) > 0,
    decreases n,
{
    if n > 0 {
        lemma_pow256_pos((n - 1) as nat);
    }
}

pub proof fn lemma_pow256_values()
    ensures
        pow256(1) == 0x100,
        pow256(2) == 0x10000,
        pow256(4) == 0x1_0000_0000,
        pow256(8) == 0x1_0000_0000_0000_0000,
{
    reveal_with_fuel(pow256, 9);
}

pub proof fn lemma_pow256_monotonic(a: nat, b: nat)
    requires
        a <= b,
    ensures
        pow256(a) <= pow256(b),
    decreases b,
{
    if a < b {
        lemma_pow256_monotonic(a, (b - 1) as nat);
        lemma_pow256_pos((b - 1) as nat);
    }
}

/// A value spelled by `n` bytes is below `256^n`.
pub proof fn lemma_le_value_bound(s: Seq<u8>)
    ensures
        le_value(s) < pow256(s.len()),
    decreases s.len(),
{
    if s.len() > 0 {
        lemma_le_value_bound(s.drop_first());
    }
}

/// Spelling a value in bytes and reading it back gives the value modulo `256^n`.
pub proof fn lemma_le_round_trip(v: nat, n: nat)
    ensures
        le_value(le_bytes(v, n)) == v % pow256(n),
    decreases n,
{
    lemma_pow256_pos(n);
    if n == 0 {
        assert(v % 1 == 0);
    } else {
        let s = le_bytes(v, n);
        let rest = le_bytes(v / 256, (n - 1) as nat);
        assert forall|i: int| 0 <= i < n - 1 implies #[trigger] s.drop_first()[i] == rest[i] by {
            lemma_pow256_pos(i as nat);
            lemma_div_denominator(v as int, 256, pow256(i as nat) as int);
            assert(pow256((i + 1) as nat) == 256 * pow256(i as nat));
        }
        assert(s.drop_first() =~= rest);
        reveal_with_fuel(pow256, 1);
        assert(pow256(0) == 1);
        assert(v / 1 == v);
        assert(s[0] == v % 256);
        assert(le_value(s) == s[0] as nat + 256 * le_value(s.drop_first()));
        lemma_le_round_trip(v / 256, (n - 1) as nat);
        lemma_pow256_pos((n - 1) as nat);
        lemma_mod_breakdown(v as int, 256, pow256((n - 1) as nat) as int);
        assert(pow256(n) == 256 * pow256((n - 1) as nat));
    }
}

/// Reading back a written value: a value below `256^n` survives the byte spelling.
pub proof fn lemma_le_value_of_bytes(v: nat, n: nat)
    requires
        v < pow256(n),
    ensures
        le_value(le_bytes(v, n)) == v,
{
    lemma_le_round_trip(v, n);
    lemma_small_mod(v, pow256(n));
}

/// The byte spelling of a value read from bytes is those bytes.
pub proof fn lemma_le_bytes_of_value(s: Seq<u8>)
    ensures
        le_bytes(le_value(s), s.len()) =~= s,
    decreases s.len(),
{
    if s.len() > 0 {
        let t = s.drop_first();
        lemma_le_bytes_of_value(t);
        let v = le_value(s);
        assert(v == s[0] as nat + 256 * le_value(t));
        assert(v % 256 == s[0] as nat);
        assert(v / 256 == le_value(t));
        assert forall|i: int| 0 <= i < s.len() implies #[trigger] le_bytes(v, s.len())[i] == s[i] by {
            if i == 0 {
                reveal_with_fuel(pow256, 1);
                assert(pow256(0) == 1);
                assert(v / 1 == v);
            } else {
                lemma_pow256_pos((i - 1) as nat);
                lemma_div_denominator(v as int, 256, pow256((i - 1) as nat) as int);
                assert(pow256(i as nat) == 256 * pow256((i - 1) as nat));
                assert(t[i - 1] == le_bytes(le_value(t), t.len())[i - 1]);
                assert(s[i] == t[i - 1]);
            }
        }
    }
}

// ---------------------------------------------------------------------------
// Reader
// ---------------------------------------------------------------------------

/// A cursor over borrowed bytes that refuses to read past their end.
#[derive(Clone, Copy)]
pub struct Reader<'a> {
    bytes: &'a [u8],
    position: usize,
}

impl<'a> Reader<'a> {
    /// The bytes being read.
    pub closed spec fn data(&self) -> Seq<u8> {
        self.bytes@
    }

    /// The offset of the next byte to be read.
    pub closed spec fn pos(&self) -> nat {
        self.position as nat
    }

    pub open spec fn wf(&self) -> bool {
        self.pos() <= self.data().len()
    }

    /// How many bytes are left to read.
    pub open spec fn rest(&self) -> nat {
        (self.data().len() - self.pos()) as nat
    }

    /// The next `n` bytes.
    pub open spec fn window(&self, n: nat) -> Seq<u8> {
        self.data().subrange(self.pos() as int, (self.pos() + n) as int)
    }

    /// The error a read of `n` bytes past the end is refused with.
    pub open spec fn eof_error(&self, n: nat) -> Error {
        Error::UnexpectedEof {
            offset: self.pos() as usize,
            requested: n as usize,
            remaining: self.rest() as usize,
        }
    }

    /// `after` is this cursor moved on by `n` bytes.
    pub open spec fn advanced(&self, after: &Self, n: nat) -> bool {
        &&& n <= self.rest()
        &&& after.data() == self.data()
        &&& after.pos() == self.pos() + n
        &&& after.wf()
    }

    /// The outcome of reading `n` bytes into a value: either the cursor moves on by `n`
    /// and `ok` holds, or there were fewer than `n` bytes and nothing moved.
    pub open spec fn read_outcome<T>(&self, after: &Self, n: nat, r: Result<T>, ok: spec_fn(T) -> bool) -> bool {
        match r {
            Ok(v) => self.advanced(after, n) && ok(v),
            Err(e) => n > self.rest() && *after == *self && e == self.eof_error(n),
        }
    }

    pub fn new(bytes: &'a [u8]) -> (r: Self)
        ensures
            r.data() == bytes@,
            r.pos() == 0,
            r.wf(),
    {
        Self { bytes, position: 0 }
    }

    pub fn with_position(bytes: &'a [u8], position: usize) -> (r: Result<Self>)
        ensures
            match r {
                Ok(reader) => position <= bytes@.len() && reader.data() == bytes@ && reader.pos()
                    == position && reader.wf(),
                Err(e) => position > bytes@.len() && e == Error::InvalidSeek {
                    offset: position,
                    length: bytes@.len() as usize,
                },
            },
    {
        if position > bytes.len() {
            return Err(Error::InvalidSeek { offset: position, length: bytes.len() });
        }
        Ok(Self { bytes, position })
    }

    pub fn position(&self) -> (r: usize)
        ensures
            r == self.pos(),
    {
        self.position
    }

    pub fn len(&self) -> (r: usize)
        ensures
            r == self.data().len(),
    {
        self.bytes.len()
    }

    pub fn is_empty(&self) -> (r: bool)
        requires
            self.wf(),
        ensures
            r == (self.rest() == 0),
    {
        self.remaining() == 0
    }

    pub fn remaining(&self) -> (r: usize)
        requires
            self.wf(),
        ensures
            r == self.rest(),
    {
        self.bytes.len() - self.position
    }

    pub fn seek(&mut self, position: usize) -> (r: Result<()>)
        requires
            old(self).wf(),
        ensures
            final(self).wf(),
            final(self).data() == old(self).data(),
            match r {
                Ok(_) => position <= old(self).data().len() && final(self).pos() == position,
                Err(e) => position > old(self).data().len() && final(self).pos() == old(self).pos()
                    && e == Error::InvalidSeek {
                    offset: position,
                    length: old(self).data().len() as usize,
                },
            },
    {
        if position > self.bytes.len() {
            return Err(Error::InvalidSeek { offset: position, length: self.bytes.len() });
        }
        self.position = position;
        Ok(())
    }

    pub fn skip(&mut self, count: usize) -> (r: Result<()>)
        requires
            old(self).wf(),
        ensures
            final(self).wf(),
            final(self).data() == old(self).data(),
            match r {
                Ok(_) => count <= old(self).rest() && final(self).pos() == old(self).pos() + count,
                Err(e) => count > old(self).rest() && final(self).pos() == old(self).pos() && e == (
                if old(self).pos() + count > usize::MAX {
                    Error::InvalidSeek { offset: usize::MAX, length: old(self).data().len() as usize }
                } else {
                    Error::InvalidSeek {
                        offset: (old(self).pos() + count) as usize,
                        length: old(self).data().len() as usize,
                    }
                }),
            },
    {
        let position = match self.position.checked_add(count) {
            Some(p) => p,
            None => {
                return Err(Error::InvalidSeek { offset: usize::MAX, length: self.bytes.len() });
            },
        };
        self.seek(position)
    }

    pub fn take(&mut self, count: usize) -> (r: Result<&'a [u8]>)
        requires
            old(self).wf(),
        ensures
            old(self).read_outcome(final(self), count as nat, r, |v: &'a [u8]| v@ == old(self).window(count as nat)),
    {
        if count > self.remaining() {
            return Err(
                Error::UnexpectedEof {
                    offset: self.position,
                    requested: count,
                    remaining: self.remaining(),
                },
            );
        }
        let start = self.position;
        let length = self.bytes.len();
        assert(start + count <= length);
        self.position = start + count;
        Ok(vstd::slice::slice_subrange(self.bytes, start, self.position))
    }

    pub fn read_u8(&mut self) -> (r: Result<u8>)
        requires
            old(self).wf(),
        ensures
            old(self).read_outcome(final(self), 1, r, |v: u8| v == old(self).data()[old(self).pos() as int]),
    {
        let bytes = self.take(1)?;
        Ok(bytes[0])
    }

    pub fn read_i8(&mut self) -> (r: Result<i8>)
        requires
            old(self).wf(),
        ensures
            old(self).read_outcome(final(self), 1, r, |v: i8| v == signed_value(old(self).data()[old(self).pos() as int] as nat, 1)),
    {
        let b = self.read_u8()?;
        proof {
            lemma_pow256_values();
        }
        if b >= 128 {
            Ok((b as i16 - 256) as i8)
        } else {
            Ok(b as i8)
        }
    }

    /// Reads `n` bytes as a little-endian number.
    fn read_le(&mut self, n: usize) -> (r: Result<u64>)
        requires
            old(self).wf(),
            1 <= n <= 8,
        ensures
            old(self).read_outcome(final(self), n as nat, r, |v: u64| v == le_value(old(self).window(n as nat)) && v < pow256(n as nat)),
    {
        let bytes = self.take(n)?;
        let ghost s = bytes@;
        let mut value: u64 = 0;
        let mut i: usize = n;
        proof {
            assert(s.subrange(n as int, n as int) =~= Seq::<u8>::empty());
        }
        while i > 0
            invariant
                0 <= i <= n <= 8,
                s.len() == n,
                bytes@ == s,
                value == le_value(s.subrange(i as int, n as int)),
                value < pow256((n - i) as nat),
            decreases i,
        {
            i = i - 1;
            proof {
                assert(s.subrange(i as int, n as int).drop_first() =~= s.subrange(i + 1, n as int));
                lemma_pow256_monotonic((n - i) as nat, 8);
                lemma_pow256_values();
            }
            value = value * 256 + bytes[i] as u64;
        }
        proof {
            assert(s.subrange(0, n as int) =~= s);
        }
        Ok(value)
    }

    pub fn read_u16_le(&mut self) -> (r: Result<u16>)
        requires
            old(self).wf(),
        ensures
            old(self).read_outcome(final(self), 2, r, |v: u16| v == le_value(old(self).window(2))),
    {
        let v = self.read_le(2)?;
        proof {
            lemma_pow256_values();
        }
        Ok(v as u16)
    }

    pub fn read_i16_le(&mut self) -> (r: Result<i16>)
        requires
            old(self).wf(),
        ensures
            old(self).read_outcome(final(self), 2, r, |v: i16| v == signed_value(le_value(old(self).window(2)), 2)),
    {
        let v = self.read_le(2)?;
        proof {
            lemma_pow256_values();
        }
        if v >= 0x8000 {
            Ok((v as i32 - 0x10000) as i16)
        } else {
            Ok(v as i16)
        }
    }

    pub fn read_u32_le(&mut self) -> (r: Result<u32>)
        requires
            old(self).wf(),
        ensures
            old(self).read_outcome(final(self), 4, r, |v: u32| v == le_value(old(self).window(4))),
    {
        let v = self.read_le(4)?;
        proof {
            lemma_pow256_values();
        }
        Ok(v as u32)
    }

    pub fn read_i32_le(&mut self) -> (r: Result<i32>)
        requires
            old(self).wf(),
        ensures
            old(self).read_outcome(final(self), 4, r, |v: i32| v == signed_value(le_value(old(self).window(4)), 4)),
    {
        let v = self.read_le(4)?;
        proof {
            lemma_pow256_values();
        }
        if v >= 0x8000_0000 {
            Ok((v as i64 - 0x1_0000_0000) as i32)
        } else {
            Ok(v as i32)
        }
    }

    pub fn read_u64_le(&mut self) -> (r: Result<u64>)
        requires
            old(self).wf(),
        ensures
            old(self).read_outcome(final(self), 8, r, |v: u64| v == le_value(old(self).window(8))),
    {
        self.read_le(8)
    }

    pub fn read_i64_le(&mut self) -> (r: Result<i64>)
        requires
            old(self).wf(),
        ensures
            old(self).read_outcome(final(self), 8, r, |v: i64| v == signed_value(le_value(old(self).window(8)), 8)),
    {
        let v = self.read_le(8)?;
        proof {
            lemma_pow256_values();
        }
        if v >= 0x8000_0000_0000_0000 {
            Ok((v - 0x8000_0000_0000_0000) as i64 + i64::MIN)
        } else {
            Ok(v as i64)
        }
    }

    /// Reads a NUL-terminated string of at most `max_len` bytes, returning the bytes before
    /// the NUL and moving past it.
    pub fn read_cstr(&mut self, max_len: usize) -> (r: Result<&'a [u8]>)
        requires
            old(self).wf(),
        ensures
            final(self).wf(),
            final(self).data() == old(self).data(),
            ({
                let search = cstr_search(old(self).rest(), max_len);
                match r {
                    Ok(v) => {
                        &&& v@.len() < search
                        &&& v@ == old(self).window(v@.len())
                        &&& old(self).data()[(old(self).pos() + v@.len()) as int] == 0
                        &&& final(self).pos() == old(self).pos() + v@.len() + 1
                    },
                    Err(e) => {
                        &&& forall|j: int| 0 <= j < search ==> #[trigger] old(self).window(search)[j] != 0
                        &&& final(self).pos() == old(self).pos()
                        &&& e == Error::UnterminatedString { offset: old(self).pos() as usize, limit: max_len }
                    },
                }
            }),
            r matches Ok(v) ==> forall|j: int| 0 <= j < v@.len() ==> v@[j] != 0,
    {
        let start = self.position;
        let length = self.bytes.len();
        let limit = max_len.saturating_add(1);
        let rest = self.remaining();
        let search_len = if rest < limit { rest } else { limit };
        let mut relative_end: usize = 0;
        let ghost w = self.window(search_len as nat);
        while relative_end < search_len && self.bytes[start + relative_end] != 0
            invariant
                start == self.position,
                length == self.data().len(),
                self.wf(),
                search_len <= self.rest(),
                relative_end <= search_len,
                w == self.window(search_len as nat),
                forall|j: int| 0 <= j < relative_end ==> #[trigger] w[j] != 0,
            decreases search_len - relative_end,
        {
            relative_end = relative_end + 1;
        }
        if relative_end == search_len {
            return Err(Error::UnterminatedString { offset: start, limit: max_len });
        }
        if relative_end > max_len {
            return Err(
                Error::LimitExceeded { what: "string length", value: relative_end, limit: max_len },
            );
        }
        self.position = start + relative_end + 1;
        Ok(vstd::slice::slice_subrange(self.bytes, start, start + relative_end))
    }
}


// ---------------------------------------------------------------------------
// Writer
// ---------------------------------------------------------------------------

/// How far a search for a string's terminator looks: the string's bytes and its nul,
/// within the `rest` bytes left.
pub open spec fn cstr_search(rest: nat, max_len: usize) -> nat {
    if rest < max_len + 1 {
        rest
    } else {
        (max_len + 1) as nat
    }
}

/// Whether `x` is a power of two.
pub open spec fn is_power_of_two(x: nat) -> bool {
    exists|k: nat| pow2(k) == x
}

/// How many zero bytes bring a length of `len` up to a multiple of `alignment`.
pub open spec fn align_padding(len: nat, alignment: nat) -> nat {
    if len % alignment == 0 {
        0
    } else {
        (alignment - len % alignment) as nat
    }
}

fn power_of_two(x: usize) -> (r: bool)
    ensures
        r == is_power_of_two(x as nat),
{
    let mut p: usize = 1;
    let ghost mut k: nat = 0;
    proof {
        lemma2_to64();
    }
    while p < x && p <= usize::MAX / 2
        invariant
            p == pow2(k),
            p >= 1,
            forall|j: nat| j < k ==> #[trigger] pow2(j) < x,
        decreases usize::MAX - p,
    {
        proof {
            lemma_pow2_unfold(k + 1);
        }
        p = p * 2;
        proof {
            k = k + 1;
        }
    }
    if p == x {
        return true;
    }
    proof {
        lemma_pow2_unfold(k + 1);
        assert forall|j: nat| pow2(j) != x by {
            if j > k {
                lemma_pow2_strictly_increases(k, j);
                if j > k + 1 {
                    lemma_pow2_strictly_increases(k + 1, j);
                }
            }
        }
    }
    false
}

/// A growing buffer written least-significant byte first.
#[derive(Debug, PartialEq, Eq)]
pub struct Writer {
    bytes: Vec<u8>,
}

impl Clone for Writer {
    fn clone(&self) -> (r: Self)
        ensures
            r.data() == self.data(),
    {
        let bytes = self.bytes.clone();
        proof {
            assert(bytes@ =~= self.bytes@);
        }
        Writer { bytes }
    }
}

impl Default for Writer {
    fn default() -> (r: Self)
        ensures
            r.data() == Seq::<u8>::empty(),
    {
        Writer { bytes: Vec::new() }
    }
}

impl Writer {
    /// The bytes written so far.
    pub closed spec fn data(&self) -> Seq<u8> {
        self.bytes@
    }

    pub fn new() -> (r: Self)
        ensures
            r.data() == Seq::<u8>::empty(),
    {
        Writer { bytes: Vec::new() }
    }

    pub fn with_capacity(capacity: usize) -> (r: Self)
        ensures
            r.data() == Seq::<u8>::empty(),
    {
        Writer { bytes: Vec::with_capacity(capacity) }
    }

    pub fn position(&self) -> (r: usize)
        ensures
            r == self.data().len(),
    {
        self.bytes.len()
    }

    pub fn into_inner(self) -> (r: Vec<u8>)
        ensures
            r@ == self.data(),
    {
        self.bytes
    }

    pub fn as_slice(&self) -> (r: &[u8])
        ensures
            r@ == self.data(),
    {
        self.bytes.as_slice()
    }

    pub fn write_bytes(&mut self, bytes: &[u8])
        ensures
            final(self).data() == old(self).data() + bytes@,
    {
        let mut i: usize = 0;
        while i < bytes.len()
            invariant
                i <= bytes@.len(),
                self.data() == old(self).data() + bytes@.subrange(0, i as int),
            decreases bytes@.len() - i,
        {
            self.bytes.push(bytes[i]);
            i = i + 1;
            proof {
                assert(self.data() =~= old(self).data() + bytes@.subrange(0, i as int));
            }
        }
        proof {
            assert(bytes@.subrange(0, bytes@.len() as int) =~= bytes@);
        }
    }

    pub fn write_u8(&mut self, value: u8)
        ensures
            final(self).data() == old(self).data().push(value),
    {
        self.bytes.push(value);
    }

    /// Appends the low `n` bytes of `value`, least significant first.
    fn write_le(&mut self, value: u64, n: usize)
        requires
            n <= 8,
        ensures
            final(self).data() == old(self).data() + le_bytes(value as nat, n as nat),
    {
        let mut x: u64 = value;
        let mut i: usize = 0;
        proof {
            reveal_with_fuel(pow256, 1);
            assert(value as nat / 1 == value);
        }
        while i < n
            invariant
                i <= n <= 8,
                self.data() == old(self).data() + le_bytes(value as nat, n as nat).subrange(0, i as int),
                x == value as nat / pow256(i as nat),
            decreases n - i,
        {
            proof {
                lemma_pow256_pos(i as nat);
                lemma_div_denominator(value as int, pow256(i as nat) as int, 256);
                assert(pow256((i + 1) as nat) == 256 * pow256(i as nat));
            }
            self.bytes.push((x % 256) as u8);
            x = x / 256;
            i = i + 1;
            proof {
                assert(self.data() =~= old(self).data() + le_bytes(value as nat, n as nat).subrange(0, i as int));
            }
        }
        proof {
            assert(le_bytes(value as nat, n as nat).subrange(0, n as int) =~= le_bytes(value as nat, n as nat));
        }
    }

    pub fn write_u16_le(&mut self, value: u16)
        ensures
            final(self).data() == old(self).data() + le_bytes(value as nat, 2),
    {
        self.write_le(value as u64, 2);
    }

    pub fn write_i16_le(&mut self, value: i16)
        ensures
            final(self).data() == old(self).data() + le_bytes(unsigned_value(value as int, 2), 2),
    {
        proof {
            lemma_pow256_values();
        }
        let u: u64 = if value < 0 {
            (value as i32 + 0x10000) as u64
        } else {
            value as u64
        };
        self.write_le(u, 2);
    }

    pub fn write_u32_le(&mut self, value: u32)
        ensures
            final(self).data() == old(self).data() + le_bytes(value as nat, 4),
    {
        self.write_le(value as u64, 4);
    }

    pub fn write_i32_le(&mut self, value: i32)
        ensures
            final(self).data() == old(self).data() + le_bytes(unsigned_value(value as int, 4), 4),
    {
        proof {
            lemma_pow256_values();
        }
        let u: u64 = if value < 0 {
            (value as i64 + 0x1_0000_0000) as u64
        } else {
            value as u64
        };
        self.write_le(u, 4);
    }

    pub fn write_u64_le(&mut self, value: u64)
        ensures
            final(self).data() == old(self).data() + le_bytes(value as nat, 8),
    {
        self.write_le(value, 8);
    }

    pub fn write_i64_le(&mut self, value: i64)
        ensures
            final(self).data() == old(self).data() + le_bytes(unsigned_value(value as int, 8), 8),
    {
        proof {
            lemma_pow256_values();
        }
        let u: u64 = if value < 0 {
            ((value - i64::MIN) as u64) + 0x8000_0000_0000_0000
        } else {
            value as u64
        };
        self.write_le(u, 8);
    }

    /// Appends the bytes and a terminating NUL.
    pub fn write_cstr(&mut self, value: &[u8])
        ensures
            final(self).data() == old(self).data() + value@ + seq![0u8],
    {
        self.write_bytes(value);
        self.write_u8(0);
        proof {
            assert(self.data() =~= old(self).data() + value@ + seq![0u8]);
        }
    }

    /// Pads with zeros up to the next multiple of `alignment`, which must be a power of two.
    pub fn align(&mut self, alignment: usize) -> (r: Result<()>)
        requires
            old(self).data().len() <= isize::MAX,
        ensures
            match r {
                Ok(_) => {
                    &&& is_power_of_two(alignment as nat)
                    &&& final(self).data() == old(self).data() + Seq::new(
                        align_padding(old(self).data().len(), alignment as nat),
                        |i: int| 0u8,
                    )
                    &&& final(self).data().len() % (alignment as nat) == 0
                },
                Err(e) => {
                    &&& !is_power_of_two(alignment as nat)
                    &&& final(self).data() == old(self).data()
                    &&& e == Error::LimitExceeded { what: "alignment", value: alignment, limit: usize::MAX }
                },
            },
    {
        if alignment == 0 || !power_of_two(alignment) {
            proof {
                if alignment == 0 {
                    assert forall|k: nat| pow2(k) != 0 by {
                        lemma_pow2_pos(k);
                    }
                }
            }
            return Err(Error::LimitExceeded { what: "alignment", value: alignment, limit: usize::MAX });
        }
        let length = self.bytes.len();
        let rem = length % alignment;
        let padding = if rem == 0 {
            0
        } else {
            alignment - rem
        };
        let ghost zeros = Seq::new(padding as nat, |i: int| 0u8);
        let mut i: usize = 0;
        while i < padding
            invariant
                i <= padding,
                padding < alignment,
                length == old(self).data().len(),
                length <= isize::MAX,
                zeros == Seq::new(padding as nat, |i: int| 0u8),
                self.data() == old(self).data() + zeros.subrange(0, i as int),
            decreases padding - i,
        {
            self.bytes.push(0);
            i = i + 1;
            proof {
                assert(self.data() =~= old(self).data() + zeros.subrange(0, i as int));
            }
        }
        proof {
            assert(zeros.subrange(0, padding as int) =~= zeros);
            if rem != 0 {
                assert((length + (alignment - rem)) % (alignment as int) == 0) by (nonlinear_arith)
                    requires
                        rem == length % alignment,
                        alignment > 0,
                {
                }
            }
        }
        Ok(())
    }

    /// Overwrites four already written bytes at `offset` with `value`, least significant first.
    pub fn patch_u32_le(&mut self, offset: usize, value: u32) -> (r: Result<()>)
        ensures
            match r {
                Ok(_) => {
                    &&& offset + 4 <= old(self).data().len()
                    &&& final(self).data() == old(self).data().subrange(0, offset as int) + le_bytes(value as nat, 4)
                        + old(self).data().subrange(offset + 4, old(self).data().len() as int)
                },
                Err(e) => {
                    &&& offset + 4 > old(self).data().len()
                    &&& final(self).data() == old(self).data()
                    &&& e == Error::InvalidSeek { offset, length: old(self).data().len() as usize }
                },
            },
    {
        let length = self.bytes.len();
        let end = match offset.checked_add(4) {
            Some(end) => end,
            None => {
                return Err(Error::InvalidSeek { offset, length });
            },
        };
        if end > length {
            return Err(Error::InvalidSeek { offset, length });
        }
        let ghost spelled = le_bytes(value as nat, 4);
        proof {
            reveal_with_fuel(pow256, 1);
            assert(value as nat / 1 == value);
        }
        let mut x: u32 = value;
        let mut i: usize = 0;
        while i < 4
            invariant
                i <= 4,
                end == offset + 4,
                end <= length,
                length == old(self).data().len(),
                self.data().len() == length,
                spelled == le_bytes(value as nat, 4),
                x == value as nat / pow256(i as nat),
                forall|j: int| 0 <= j < length && !(offset <= j < offset + i) ==> #[trigger] self.data()[j]
                    == old(self).data()[j],
                forall|j: int| 0 <= j < i ==> #[trigger] self.data()[offset + j] == spelled[j],
            decreases 4 - i,
        {
            proof {
                lemma_pow256_pos(i as nat);
                lemma_div_denominator(value as int, pow256(i as nat) as int, 256);
                assert(pow256((i + 1) as nat) == 256 * pow256(i as nat));
            }
            self.bytes.set(offset + i, (x % 256) as u8);
            x = x / 256;
            i = i + 1;
        }
        proof {
            let expected = old(self).data().subrange(0, offset as int) + spelled
                + old(self).data().subrange(offset + 4, length as int);
            assert forall|j: int| 0 <= j < length implies #[trigger] self.data()[j] == expected[j] by {
                if offset <= j < offset + 4 {
                    assert(self.data()[offset + (j - offset)] == spelled[j - offset]);
                }
            }
            assert(self.data() =~= expected);
        }
        Ok(())
    }
}

// ---------------------------------------------------------------------------
// Bit-level model
// ---------------------------------------------------------------------------

/// Bit `k` (least significant first) of a byte, as `0` or `1`.
pub open spec fn byte_bit(b: u8, k: nat) -> nat {
    ((b >> (k as u8)) & 1u8) as nat
}

/// Bit `i` of a byte sequence, numbering each byte's bits least significant first.
pub open spec fn seq_bit(s: Seq<u8>, i: int) -> nat {
    byte_bit(s[i / 8], (i % 8) as nat)
}

/// Bit `j` of a value, as `0` or `1`.
pub open spec fn value_bit(v: u64, j: nat) -> nat {
    ((v >> (j as u64)) & 1u64) as nat
}

/// The number the `c` bits from bit `p` spell, the first of them least significant.
pub open spec fn bits_value(s: Seq<u8>, p: int, c: nat) -> nat
    decreases c,
{
    if c == 0 {
        0
    } else {
        bits_value(s, p, (c - 1) as nat) + seq_bit(s, p + c - 1) * pow2((c - 1) as nat)
    }
}

proof fn lemma_byte_bit_is_bit(b: u8, k: u8)
    ensures
        (b >> k) & 1u8 <= 1u8,
        byte_bit(b, k as nat) <= 1,
{
    assert((b >> k) & 1u8 <= 1u8) by (bit_vector);
}

pub proof fn lemma_seq_bit_is_bit(s: Seq<u8>, i: int)
    ensures
        seq_bit(s, i) == 0 || seq_bit(s, i) == 1,
{
    let k = (i % 8) as nat;
    lemma_byte_bit_is_bit(s[i / 8], k as u8);
}

pub proof fn lemma_bits_value_bound(s: Seq<u8>, p: int, c: nat)
    ensures
        bits_value(s, p, c) < pow2(c),
    decreases c,
{
    lemma_pow2_pos(c);
    if c > 0 {
        let e = (c - 1) as nat;
        let b = seq_bit(s, p + c - 1);
        lemma_seq_bit_is_bit(s, p + c - 1);
        lemma_bits_value_bound(s, p, e);
        lemma_pow2_unfold(c);
        assert(b * pow2(e) <= pow2(e)) by (nonlinear_arith)
            requires
                b == 0 || b == 1,
        ;
    }
}

/// Bits whose positions agree spell the same number.
pub proof fn lemma_bits_value_same(s: Seq<u8>, p: int, t: Seq<u8>, q: int, c: nat)
    requires
        forall|j: int| 0 <= j < c ==> #[trigger] seq_bit(s, p + j) == seq_bit(t, q + j),
    ensures
        bits_value(s, p, c) == bits_value(t, q, c),
    decreases c,
{
    if c > 0 {
        assert(seq_bit(s, p + (c - 1)) == seq_bit(t, q + (c - 1)));
        lemma_bits_value_same(s, p, t, q, (c - 1) as nat);
    }
}

/// The bits of a value spell the value modulo `2^c`.
pub proof fn lemma_value_bits(v: u64, c: nat)
    requires
        c <= 64,
    ensures
        (forall|s: Seq<u8>, p: int|
            (forall|j: int| 0 <= j < c ==> #[trigger] seq_bit(s, p + j) == value_bit(v, j as nat))
                ==> bits_value(s, p, c) == v as nat % pow2(c)),
    decreases c,
{
    lemma_pow2_pos(c);
    if c == 0 {
        assert forall|s: Seq<u8>, p: int| bits_value(s, p, c) == v as nat % pow2(c) by {
            lemma2_to64();
        }
    } else {
        lemma_value_bits(v, (c - 1) as nat);
        let e = (c - 1) as nat;
        let shift = e as u64;
        lemma_u64_shr_is_div(v, shift);
        assert((v >> shift) & 1u64 == (v >> shift) % 2) by (bit_vector);
        lemma_pow2_pos(e);
        lemma_pow2_unfold(c);
        lemma_mod_breakdown(v as int, pow2(e) as int, 2);
        let top = (v as nat / pow2(e)) % 2;
        assert(value_bit(v, e) == top);
        assert(v as nat % pow2(c) == pow2(e) * top + v as nat % pow2(e));
        assert(top == 0 || top == 1);
        assert forall|s: Seq<u8>, p: int|
            (forall|j: int| 0 <= j < c ==> #[trigger] seq_bit(s, p + j) == value_bit(v, j as nat))
                implies bits_value(s, p, c) == v as nat % pow2(c) by {
            assert(seq_bit(s, p + e) == value_bit(v, e));
            assert(seq_bit(s, p + c - 1) == top);
            assert forall|j: int| 0 <= j < e implies #[trigger] seq_bit(s, p + j) == value_bit(v, j as nat) by {
                assert(seq_bit(s, p + j) == value_bit(v, j as nat));
            }
            assert(bits_value(s, p, e) == v as nat % pow2(e));
            assert(bits_value(s, p, c) == bits_value(s, p, e) + seq_bit(s, p + c - 1) * pow2(e));
            assert(top * pow2(e) == pow2(e) * top) by (nonlinear_arith);
        }
    }
}

// ---------------------------------------------------------------------------
// BitReader
// ---------------------------------------------------------------------------

/// A cursor over the bits of borrowed bytes, least significant bit of each byte first.
#[derive(Clone, Copy)]
pub struct BitReader<'a> {
    bytes: &'a [u8],
    bit_position: usize,
    bit_len: usize,
}

/// `8 * len`, or `usize::MAX` where that does not fit.
pub open spec fn saturating_bits(len: nat) -> nat {
    if len * 8 <= usize::MAX {
        len * 8
    } else {
        usize::MAX as nat
    }
}

fn available_bits(len: usize) -> (r: usize)
    ensures
        r == saturating_bits(len as nat),
{
    if len <= usize::MAX / 8 {
        len * 8
    } else {
        usize::MAX
    }
}

impl<'a> BitReader<'a> {
    pub closed spec fn data(&self) -> Seq<u8> {
        self.bytes@
    }

    /// The index of the next bit to be read.
    pub closed spec fn pos(&self) -> nat {
        self.bit_position as nat
    }

    /// How many bits the reader covers.
    pub closed spec fn bit_count(&self) -> nat {
        self.bit_len as nat
    }

    pub open spec fn wf(&self) -> bool {
        &&& self.pos() <= self.bit_count()
        &&& self.bit_count() <= self.data().len() * 8
    }

    pub open spec fn rest(&self) -> nat {
        (self.bit_count() - self.pos()) as nat
    }

    pub open spec fn eof_error(&self, n: nat) -> Error {
        Error::UnexpectedEof {
            offset: self.pos() as usize,
            requested: n as usize,
            remaining: self.rest() as usize,
        }
    }

    /// The outcome of reading `count` bits, as `read_bits` and `peek_bits` report it.
    pub open spec fn bits_outcome(&self, count: u32, r: Result<u64>) -> bool {
        match r {
            Ok(v) => count <= 64 && count <= self.rest() && v == bits_value(self.data(), self.pos() as int, count as nat),
            Err(e) => if count > 64 {
                e == Error::InvalidBitCount(count)
            } else {
                count > self.rest() && e == self.eof_error(count as nat)
            },
        }
    }

    pub fn new(bytes: &'a [u8]) -> (r: Self)
        ensures
            r.data() == bytes@,
            r.pos() == 0,
            r.bit_count() == saturating_bits(bytes@.len()),
            r.wf(),
    {
        Self { bytes, bit_position: 0, bit_len: available_bits(bytes.len()) }
    }

    pub fn with_bit_len(bytes: &'a [u8], bit_len: usize) -> (r: Result<Self>)
        ensures
            match r {
                Ok(reader) => {
                    &&& bit_len <= saturating_bits(bytes@.len())
                    &&& reader.data() == bytes@
                    &&& reader.pos() == 0
                    &&& reader.bit_count() == bit_len
                    &&& reader.wf()
                },
                Err(e) => {
                    &&& bit_len > saturating_bits(bytes@.len())
                    &&& e == Error::UnexpectedEof {
                        offset: 0,
                        requested: bit_len,
                        remaining: saturating_bits(bytes@.len()) as usize,
                    }
                },
            },
    {
        let available = available_bits(bytes.len());
        if bit_len > available {
            return Err(Error::UnexpectedEof { offset: 0, requested: bit_len, remaining: available });
        }
        Ok(Self { bytes, bit_position: 0, bit_len })
    }

    pub fn position(&self) -> (r: usize)
        ensures
            r == self.pos(),
    {
        self.bit_position
    }

    pub fn len_bits(&self) -> (r: usize)
        ensures
            r == self.bit_count(),
    {
        self.bit_len
    }

    pub fn remaining(&self) -> (r: usize)
        requires
            self.wf(),
        ensures
            r == self.rest(),
    {
        self.bit_len - self.bit_position
    }

    /// Reads `count` bits as a number whose first bit read is its least significant.
    pub fn read_bits(&mut self, count: u32) -> (r: Result<u64>)
        requires
            old(self).wf(),
        ensures
            final(self).wf(),
            final(self).data() == old(self).data(),
            final(self).bit_count() == old(self).bit_count(),
            old(self).bits_outcome(count, r),
            final(self).pos() == if r is Ok {
                old(self).pos() + count
            } else {
                old(self).pos() as int
            },
    {
        if count > 64 {
            return Err(Error::InvalidBitCount(count));
        }
        let count = count as usize;
        if count > self.remaining() {
            return Err(
                Error::UnexpectedEof {
                    offset: self.bit_position,
                    requested: count,
                    remaining: self.remaining(),
                },
            );
        }
        let start = self.bit_position;
        let ghost s = self.data();
        proof {
            lemma2_to64();
        }
        let mut value: u64 = 0;
        let mut k: usize = 0;
        while k < count
            invariant
                k <= count <= 64,
                start == self.bit_position,
                s == self.data(),
                self.wf(),
                start + count <= self.bit_count(),
                value == bits_value(s, start as int, k as nat),
                value < pow2(k as nat),
            decreases count - k,
        {
            let absolute = start + k;
            let shift = (absolute % 8) as u8;
            let byte = self.bytes[absolute / 8];
            let bit = (byte >> shift) & 1u8;
            proof {
                lemma_byte_bit_is_bit(byte, shift);
                lemma_bits_value_bound(s, start as int, k as nat);
                lemma_u64_pow2_no_overflow(k as nat);
                assert((bit as u64) * pow2(k as nat) <= pow2(k as nat)) by (nonlinear_arith)
                    requires
                        bit <= 1,
                ;
                lemma_u64_shl_is_mul(bit as u64, k as u64);
                lemma_pow2_unfold((k + 1) as nat);
                lemma2_to64();
                if k + 1 < 64 {
                    lemma_pow2_strictly_increases((k + 1) as nat, 64);
                }
                assert(seq_bit(s, start + k) == bit);
            }
            value = value + ((bit as u64) << (k as u64));
            k = k + 1;
        }
        self.bit_position = start + count;
        Ok(value)
    }

    pub fn read_bool(&mut self) -> (r: Result<bool>)
        requires
            old(self).wf(),
        ensures
            final(self).wf(),
            final(self).data() == old(self).data(),
            final(self).bit_count() == old(self).bit_count(),
            match r {
                Ok(b) => 1 <= old(self).rest() && b == (seq_bit(old(self).data(), old(self).pos() as int) == 1)
                    && final(self).pos() == old(self).pos() + 1,
                Err(e) => 1 > old(self).rest() && e == old(self).eof_error(1) && final(self).pos()
                    == old(self).pos(),
            },
    {
        let v = self.read_bits(1)?;
        proof {
            lemma2_to64();
            reveal_with_fuel(bits_value, 2);
            let b = seq_bit(old(self).data(), old(self).pos() as int);
            lemma_seq_bit_is_bit(old(self).data(), old(self).pos() as int);
            assert(b * pow2(0) == b) by (nonlinear_arith)
                requires
                    pow2(0) == 1,
            ;
            assert(bits_value(old(self).data(), old(self).pos() as int, 1) == seq_bit(old(self).data(), old(self).pos() as int));
        }
        Ok(v != 0)
    }

    /// The bits `read_bits` would read, without moving.
    pub fn peek_bits(&self, count: u32) -> (r: Result<u64>)
        requires
            self.wf(),
        ensures
            self.bits_outcome(count, r),
    {
        let mut copy = *self;
        copy.read_bits(count)
    }

    pub fn skip_bits(&mut self, count: usize) -> (r: Result<()>)
        requires
            old(self).wf(),
        ensures
            final(self).wf(),
            final(self).data() == old(self).data(),
            final(self).bit_count() == old(self).bit_count(),
            match r {
                Ok(_) => count <= old(self).rest() && final(self).pos() == old(self).pos() + count,
                Err(e) => count > old(self).rest() && e == old(self).eof_error(count as nat) && final(self).pos()
                    == old(self).pos(),
            },
    {
        if count > self.remaining() {
            return Err(
                Error::UnexpectedEof {
                    offset: self.bit_position,
                    requested: count,
                    remaining: self.remaining(),
                },
            );
        }
        self.bit_position = self.bit_position + count;
        Ok(())
    }
}

// ---------------------------------------------------------------------------
// BitWriter
// ---------------------------------------------------------------------------

/// A growing buffer written a bit at a time, least significant bit of each byte first.
#[derive(Debug, PartialEq, Eq)]
pub struct BitWriter {
    bytes: Vec<u8>,
    bit_len: usize,
}

impl Clone for BitWriter {
    fn clone(&self) -> (r: Self)
        ensures
            r.data() == self.data(),
            r.bit_count() == self.bit_count(),
    {
        let bytes = self.bytes.clone();
        proof {
            assert(bytes@ =~= self.bytes@);
        }
        BitWriter { bytes, bit_len: self.bit_len }
    }
}

impl Default for BitWriter {
    fn default() -> (r: Self)
        ensures
            r.data() == Seq::<u8>::empty(),
            r.bit_count() == 0,
            r.wf(),
    {
        BitWriter { bytes: Vec::new(), bit_len: 0 }
    }
}

proof fn lemma_set_bit(b: u8, k: u8, m: u8)
    requires
        k < 8,
        m < 8,
    ensures
        ((b | (1u8 << k)) >> m) & 1u8 == if m == k {
            1u8
        } else {
            (b >> m) & 1u8
        },
{
    assert(((b | (1u8 << k)) >> m) & 1u8 == if m == k {
        1u8
    } else {
        (b >> m) & 1u8
    }) by (bit_vector)
        requires
            k < 8,
            m < 8,
    ;
}

proof fn lemma_zero_bits(m: u8)
    requires
        m < 8,
    ensures
        (0u8 >> m) & 1u8 == 0u8,
{
    assert((0u8 >> m) & 1u8 == 0u8) by (bit_vector);
}

impl BitWriter {
    pub closed spec fn data(&self) -> Seq<u8> {
        self.bytes@
    }

    /// How many bits have been written.
    pub closed spec fn bit_count(&self) -> nat {
        self.bit_len as nat
    }

    /// The bytes hold exactly the written bits, rounded up to whole bytes with zero bits.
    pub open spec fn wf(&self) -> bool {
        &&& self.data().len() == (self.bit_count() + 7) / 8
        &&& forall|i: int| self.bit_count() <= i < self.data().len() * 8 ==> #[trigger] seq_bit(self.data(), i) == 0
    }

    pub fn new() -> (r: Self)
        ensures
            r.data() == Seq::<u8>::empty(),
            r.bit_count() == 0,
            r.wf(),
    {
        BitWriter { bytes: Vec::new(), bit_len: 0 }
    }

    pub fn len_bits(&self) -> (r: usize)
        ensures
            r == self.bit_count(),
    {
        self.bit_len
    }

    pub fn is_empty(&self) -> (r: bool)
        ensures
            r == (self.bit_count() == 0),
    {
        self.bit_len == 0
    }

    /// Appends the low `count` bits of `value`, least significant first.
    pub fn write_bits(&mut self, value: u64, count: u32) -> (r: Result<()>)
        requires
            old(self).wf(),
            count > 64 || old(self).bit_count() + count <= usize::MAX,
        ensures
            final(self).wf(),
            match r {
                Ok(_) => {
                    &&& count <= 64
                    &&& final(self).bit_count() == old(self).bit_count() + count
                    &&& forall|i: int| 0 <= i < old(self).bit_count() ==> #[trigger] seq_bit(final(self).data(), i)
                        == seq_bit(old(self).data(), i)
                    &&& forall|j: int| 0 <= j < count ==> #[trigger] seq_bit(final(self).data(), old(self).bit_count() + j)
                        == value_bit(value, j as nat)
                },
                Err(e) => count > 64 && e == Error::InvalidBitCount(count) && *final(self) == *old(self),
            },
    {
        if count > 64 {
            return Err(Error::InvalidBitCount(count));
        }
        let count = count as usize;
        let start = self.bit_len;
        let mut k: usize = 0;
        while k < count
            invariant
                k <= count <= 64,
                start == self.bit_len,
                start == old(self).bit_count(),
                start + count <= usize::MAX,
                self.data().len() == (start + k + 7) / 8,
                forall|i: int| 0 <= i < start ==> #[trigger] seq_bit(self.data(), i) == seq_bit(old(self).data(), i),
                forall|j: int| 0 <= j < k ==> #[trigger] seq_bit(self.data(), start + j) == value_bit(value, j as nat),
                forall|i: int| start + k <= i < self.data().len() * 8 ==> #[trigger] seq_bit(self.data(), i) == 0,
            decreases count - k,
        {
            let absolute = start + k;
            let ghost before = self.data();
            if absolute / 8 == self.bytes.len() {
                self.bytes.push(0);
                proof {
                    assert forall|i: int| 0 <= i < before.len() * 8 implies #[trigger] seq_bit(self.data(), i) == seq_bit(before, i) by {
                        assert(self.data()[i / 8] == before[i / 8]);
                    }
                    assert forall|i: int| before.len() * 8 <= i < self.data().len() * 8 implies #[trigger] seq_bit(self.data(), i) == 0 by {
                        lemma_zero_bits((i % 8) as u8);
                    }
                }
            }
            let ghost middle = self.data();
            let shift = (absolute % 8) as u8;
            let bit = (value >> (k as u64)) & 1u64;
            if bit != 0 {
                let index = absolute / 8;
                let b = self.bytes[index];
                self.bytes.set(index, b | (1u8 << shift));
                proof {
                    assert forall|i: int| 0 <= i < middle.len() * 8 implies #[trigger] seq_bit(self.data(), i)
                        == if i == absolute { 1 } else { seq_bit(middle, i) } by {
                        if i / 8 == index {
                            lemma_set_bit(b, shift, (i % 8) as u8);
                        }
                    }
                }
            } else {
                proof {
                    assert(seq_bit(self.data(), absolute as int) == 0);
                }
            }
            proof {
                assert(value_bit(value, k as nat) == bit);
                assert((value >> (k as u64)) & 1u64 <= 1u64) by (bit_vector);
                assert(seq_bit(self.data(), start + k) == value_bit(value, k as nat));
            }
            k = k + 1;
        }
        self.bit_len = start + count;
        Ok(())
    }

    pub fn write_bool(&mut self, value: bool) -> (r: Result<()>)
        requires
            old(self).wf(),
            old(self).bit_count() + 1 <= usize::MAX,
        ensures
            final(self).wf(),
            r is Ok,
            final(self).bit_count() == old(self).bit_count() + 1,
            forall|i: int| 0 <= i < old(self).bit_count() ==> #[trigger] seq_bit(final(self).data(), i)
                == seq_bit(old(self).data(), i),
            seq_bit(final(self).data(), old(self).bit_count() as int) == if value { 1nat } else { 0nat },
    {
        let v: u64 = if value { 1 } else { 0 };
        let r = self.write_bits(v, 1);
        proof {
            assert(seq_bit(self.data(), old(self).bit_count() as int + 0) == value_bit(v, 0));
            assert((1u64 >> 0u64) & 1u64 == 1u64) by (bit_vector);
            assert((0u64 >> 0u64) & 1u64 == 0u64) by (bit_vector);
        }
        r
    }

    pub fn as_slice(&self) -> (r: &[u8])
        ensures
            r@ == self.data(),
    {
        self.bytes.as_slice()
    }

    pub fn into_inner(self) -> (r: Vec<u8>)
        ensures
            r@ == self.data(),
    {
        self.bytes
    }
}

// ---------------------------------------------------------------------------
// Messages
// ---------------------------------------------------------------------------

/// What an error says.
pub open spec fn error_text(e: Error) -> Seq<char> {
    match e {
        Error::UnexpectedEof { offset, requested, remaining } => "unexpected end at "@ + decimal(offset as nat)
            + ": requested "@ + decimal(requested as nat) + " bytes, "@ + decimal(remaining as nat) + " remain"@,
        Error::InvalidSeek { offset, length } => "offset "@ + decimal(offset as nat) + " is outside a "@ + decimal(
            length as nat,
        ) + "-byte buffer"@,
        Error::UnterminatedString { offset, limit } => "unterminated string at "@ + decimal(offset as nat) + " (limit "@
            + decimal(limit as nat) + ")"@,
        Error::LimitExceeded { what, value, limit } => what@ + " value "@ + decimal(value as nat) + " exceeds limit "@
            + decimal(limit as nat),
        Error::InvalidBitCount(count) => "invalid bit count "@ + decimal(count as nat) + "; maximum is 64"@,
    }
}

impl Error {
    /// The error as a sentence.
    pub fn message(&self) -> (r: String)
        ensures
            r@ == error_text(*self),
    {
        let mut s = String::new();
        match self {
            Error::UnexpectedEof { offset, requested, remaining } => {
                push_str(&mut s, "unexpected end at ");
                push_decimal(&mut s, *offset as u64);
                push_str(&mut s, ": requested ");
                push_decimal(&mut s, *requested as u64);
                push_str(&mut s, " bytes, ");
                push_decimal(&mut s, *remaining as u64);
                push_str(&mut s, " remain");
            },
            Error::InvalidSeek { offset, length } => {
                push_str(&mut s, "offset ");
                push_decimal(&mut s, *offset as u64);
                push_str(&mut s, " is outside a ");
                push_decimal(&mut s, *length as u64);
                push_str(&mut s, "-byte buffer");
            },
            Error::UnterminatedString { offset, limit } => {
                push_str(&mut s, "unterminated string at ");
                push_decimal(&mut s, *offset as u64);
                push_str(&mut s, " (limit ");
                push_decimal(&mut s, *limit as u64);
                push_str(&mut s, ")");
            },
            Error::LimitExceeded { what, value, limit } => {
                push_str(&mut s, what);
                push_str(&mut s, " value ");
                push_decimal(&mut s, *value as u64);
                push_str(&mut s, " exceeds limit ");
                push_decimal(&mut s, *limit as u64);
            },
            Error::InvalidBitCount(count) => {
                push_str(&mut s, "invalid bit count ");
                push_decimal(&mut s, *count as u64);
                push_str(&mut s, "; maximum is 64");
            },
        }
        s
    }
}

} // verus!
