//! The props a map places once and never moves.
//!
//! These are the crates, lamps, railings and signs a level is dressed with, and a map
//! holds far more of them than it holds brush entities. They are not in the entity
//! lump: the compiler moves them into a lump of their own inside the game lump, so the
//! engine can load them as one table keyed by a dictionary of model names. A prop's
//! position and angles are floats, kept as the bit patterns they are stored as.
use vstd::prelude::*;
use vstd::utf8::{valid_utf8, encode_utf8};
use vstd::string::StringSliceAdditionalSpecFns;
use crate::binary::{self, Reader, le_value};
use crate::bsp::{Bsp, BspView, Error, Result, LUMP_GAME_LUMP, lump_bytes, u32_at, i32_at};
use crate::bsp::records::{u16_at, take_u16, take_u32, take_i32};
use crate::bsp::entities::utf8_text;

verus! {

/// The four bytes naming the static prop lump inside the game lump, `sprp` read as a
/// big-endian number.
pub const GAME_LUMP_STATIC_PROPS: i32 = 0x7370_7270;
pub const GAME_LUMP_ENTRY_SIZE: usize = 16;
/// Bytes one model name takes in the dictionary.
pub const STATIC_PROP_NAME_SIZE: usize = 128;
/// The fewest bytes a prop record of any version takes.
pub const STATIC_PROP_MIN_SIZE: usize = 56;

/// One static prop. The position and the pitch, yaw and roll in degrees are the bit
/// patterns of their floats.
#[derive(Debug, Clone, Copy, PartialEq, Eq)]
pub struct StaticProp {
    /// Which of the dictionary's model names this prop draws.
    pub model: usize,
    pub origin: [u32; 3],
    pub angles: [u32; 3],
    pub skin: i32,
    /// The leaves this prop stands in, as a run of the shared leaf table, which is what
    /// decides whether a view can see it.
    pub first_leaf: usize,
    pub leaf_count: usize,
}

/// A map's static props: the lump's version, the model dictionary, the shared leaf
/// table and the props.
#[derive(Debug, Clone)]
pub struct StaticProps {
    version: i32,
    names: Vec<String>,
    leaves: Vec<u16>,
    props: Vec<StaticProp>,
}

pub struct StaticPropsView {
    pub version: i32,
    /// The bytes of each model name.
    pub names: Seq<Seq<u8>>,
    pub leaves: Seq<u16>,
    pub props: Seq<StaticProp>,
}

pub open spec fn string_bytes(s: String) -> Seq<u8> {
    encode_utf8(s@)
}

impl View for StaticProps {
    type V = StaticPropsView;

    closed spec fn view(&self) -> StaticPropsView {
        StaticPropsView {
            version: self.version,
            names: self.names@.map_values(|n: String| string_bytes(n)),
            leaves: self.leaves@,
            props: self.props@,
        }
    }
}

pub open spec fn no_props() -> StaticPropsView {
    StaticPropsView { version: 0, names: Seq::empty(), leaves: Seq::empty(), props: Seq::empty() }
}

// ---------------------------------------------------------------------------
// What the lump says
// ---------------------------------------------------------------------------

/// The refusal a read of `n` bytes at `pos` meets in `len` bytes.
pub open spec fn eof(len: nat, pos: nat, n: nat) -> Error {
    Error::Binary(
        binary::Error::UnexpectedEof { offset: pos as usize, requested: n as usize, remaining: (len - pos) as usize },
    )
}

/// Why the game lump's directory entry at `at` cannot be read out of `len` bytes, if it
/// cannot: the first of its five fields that runs past the end.
pub open spec fn entry_refusal(len: nat, at: nat) -> Option<Error> {
    if at > len {
        Some(Error::Binary(binary::Error::InvalidSeek { offset: at as usize, length: len as usize }))
    } else if at + 4 > len {
        Some(eof(len, at, 4))
    } else if at + 6 > len {
        Some(eof(len, at + 4, 2))
    } else if at + 8 > len {
        Some(eof(len, at + 6, 2))
    } else if at + 12 > len {
        Some(eof(len, at + 8, 4))
    } else if at + 16 > len {
        Some(eof(len, at + 12, 4))
    } else {
        None
    }
}

/// The version, file offset and length of the first static prop entry among the
/// directory's entries from `e` on, none where there is none.
pub open spec fn find_static_props(lump: Seq<u8>, count: nat, e: nat) -> core::result::Result<
    Option<(i32, i32, i32)>,
    Error,
>
    decreases count - e,
{
    if e >= count {
        Ok(None)
    } else {
        let at = (4 + 16 * e) as int;
        match entry_refusal(lump.len(), at as nat) {
            Some(err) => Err(err),
            None => if i32_at(lump, at) == GAME_LUMP_STATIC_PROPS {
                Ok(Some((u16_at(lump, at + 6) as i32, i32_at(lump, at + 8), i32_at(lump, at + 12))))
            } else {
                find_static_props(lump, count, e + 1)
            },
        }
    }
}

/// Where the first nul at or after `i` stands in a name slot, or its end.
pub open spec fn nul_end(raw: Seq<u8>, i: int) -> int
    decreases raw.len() - i,
{
    if i < 0 || i >= raw.len() {
        raw.len() as int
    } else if raw[i] == 0 {
        i
    } else {
        nul_end(raw, i + 1)
    }
}

/// The bytes of a name slot before its first nul.
pub open spec fn name_text(raw: Seq<u8>) -> Seq<u8> {
    raw.subrange(0, nul_end(raw, 0))
}

/// The first `n` model names of the dictionary, or why they cannot be read.
pub open spec fn names_upto(s: Seq<u8>, n: nat) -> core::result::Result<Seq<Seq<u8>>, Error>
    decreases n,
{
    if n == 0 {
        Ok(Seq::empty())
    } else {
        match names_upto(s, (n - 1) as nat) {
            Err(e) => Err(e),
            Ok(names) => {
                let at = 4 + STATIC_PROP_NAME_SIZE * (n - 1);
                if at + STATIC_PROP_NAME_SIZE > s.len() {
                    Err(eof(s.len(), at as nat, STATIC_PROP_NAME_SIZE as nat))
                } else {
                    let text = name_text(s.subrange(at, at + STATIC_PROP_NAME_SIZE));
                    if !valid_utf8(text) {
                        Err(Error::InvalidEntityText)
                    } else {
                        Ok(names.push(text))
                    }
                }
            },
        }
    }
}

/// The stride a known version's prop records have. Later versions append fields rather
/// than rearranging them, so the leading ones read here are the same in all of them.
pub open spec fn known_stride(version: i32) -> Option<nat> {
    if version == 4 {
        Some(56)
    } else if version == 5 {
        Some(60)
    } else if version == 6 || version == 7 {
        Some(64)
    } else if version == 8 {
        Some(68)
    } else if version == 10 {
        Some(72)
    } else {
        None
    }
}

/// The prop record at `at`.
pub open spec fn prop_at(s: Seq<u8>, at: int) -> StaticProp {
    StaticProp {
        model: u16_at(s, at + 24) as usize,
        origin: [u32_at(s, at), u32_at(s, at + 4), u32_at(s, at + 8)],
        angles: [u32_at(s, at + 12), u32_at(s, at + 16), u32_at(s, at + 20)],
        skin: i32_at(s, at + 32),
        first_leaf: u16_at(s, at + 26) as usize,
        leaf_count: u16_at(s, at + 28) as usize,
    }
}

proof fn lemma_le_bytes_2(s: Seq<u8>, at: int)
    requires
        0 <= at,
        at + 2 <= s.len(),
    ensures
        u16_at(s, at) == s[at] + 256 * s[at + 1],
{
    let w = s.subrange(at, at + 2);
    assert(w.drop_first().drop_first().len() == 0);
    assert(le_value(w.drop_first()) == w[1] + 256 * le_value(w.drop_first().drop_first()));
    assert(le_value(w) == w[0] + 256 * le_value(w.drop_first()));
}

proof fn lemma_le_bytes_4(s: Seq<u8>, at: int)
    requires
        0 <= at,
        at + 4 <= s.len(),
    ensures
        u32_at(s, at) == s[at] + 256 * s[at + 1] + 65536 * s[at + 2] + 16777216 * s[at + 3],
{
    let w = s.subrange(at, at + 4);
    let w1 = w.drop_first();
    let w2 = w1.drop_first();
    let w3 = w2.drop_first();
    assert(w3.drop_first().len() == 0);
    assert(le_value(w3) == w3[0] + 256 * le_value(w3.drop_first()));
    assert(le_value(w2) == w2[0] + 256 * le_value(w3));
    assert(le_value(w1) == w1[0] + 256 * le_value(w2));
    assert(le_value(w) == w[0] + 256 * le_value(w1));
}

/// A prop record is read field by field as the format lays it out, each a
/// little-endian word: the origin's three coordinates at 0, 4 and 8, the angles at 12,
/// 16 and 20, the model at 24, the first leaf at 26 and the leaf count at 28.
pub proof fn lemma_prop_fields(s: Seq<u8>, at: int)
    requires
        0 <= at,
        at + 36 <= s.len(),
    ensures
        ({
            let p = prop_at(s, at);
            &&& p.model == s[at + 24] + 256 * s[at + 25]
            &&& p.first_leaf == s[at + 26] + 256 * s[at + 27]
            &&& p.leaf_count == s[at + 28] + 256 * s[at + 29]
            &&& forall|j: int|
                0 <= j < 3 ==> #[trigger] p.origin[j] == s[at + 4 * j] + 256 * s[at + 4 * j + 1] + 65536 * s[at
                    + 4 * j + 2] + 16777216 * s[at + 4 * j + 3]
            &&& forall|j: int|
                0 <= j < 3 ==> #[trigger] p.angles[j] == s[at + 12 + 4 * j] + 256 * s[at + 12 + 4 * j + 1] + 65536
                    * s[at + 12 + 4 * j + 2] + 16777216 * s[at + 12 + 4 * j + 3]
        }),
{
    lemma_le_bytes_2(s, at + 24);
    lemma_le_bytes_2(s, at + 26);
    lemma_le_bytes_2(s, at + 28);
    lemma_le_bytes_4(s, at);
    lemma_le_bytes_4(s, at + 4);
    lemma_le_bytes_4(s, at + 8);
    lemma_le_bytes_4(s, at + 12);
    lemma_le_bytes_4(s, at + 16);
    lemma_le_bytes_4(s, at + 20);
    let p = prop_at(s, at);
    assert forall|j: int| 0 <= j < 3 implies #[trigger] p.origin[j] == s[at + 4 * j] + 256 * s[at + 4 * j + 1]
        + 65536 * s[at + 4 * j + 2] + 16777216 * s[at + 4 * j + 3] by {
        if j == 0 {
        } else if j == 1 {
        } else {
        }
    }
    assert forall|j: int| 0 <= j < 3 implies #[trigger] p.angles[j] == s[at + 12 + 4 * j] + 256 * s[at + 12 + 4 * j
        + 1] + 65536 * s[at + 12 + 4 * j + 2] + 16777216 * s[at + 12 + 4 * j + 3] by {
        if j == 0 {
        } else if j == 1 {
        } else {
        }
    }
}

/// The first `n` props of records `stride` bytes apart from `start`, or the first that
/// names a model the dictionary does not hold or leaves the table does not hold.
pub open spec fn props_upto(
    s: Seq<u8>,
    start: nat,
    stride: nat,
    n: nat,
    name_count: nat,
    leaf_count: nat,
) -> core::result::Result<Seq<StaticProp>, Error>
    decreases n,
{
    if n == 0 {
        Ok(Seq::empty())
    } else {
        match props_upto(s, start, stride, (n - 1) as nat, name_count, leaf_count) {
            Err(e) => Err(e),
            Ok(props) => {
                let index = (n - 1) as nat;
                let p = prop_at(s, (start + index * stride) as int);
                if p.model >= name_count {
                    Err(Error::InvalidStaticPropModel { index: index as usize, model: p.model })
                } else if p.first_leaf + p.leaf_count > leaf_count {
                    Err(
                        Error::InvalidStaticPropLeaves {
                            index: index as usize,
                            first: p.first_leaf,
                            count: p.leaf_count,
                        },
                    )
                } else {
                    Ok(props.push(p))
                }
            },
        }
    }
}

/// The props part once the dictionary and the leaf table are read: `start` is where the
/// prop count stands.
pub open spec fn props_part(s: Seq<u8>, version: i32, names: Seq<Seq<u8>>, leaves: Seq<u16>, start: nat) -> core::result::Result<
    StaticPropsView,
    Error,
> {
    if start + 4 > s.len() {
        Err(eof(s.len(), start, 4))
    } else if i32_at(s, start as int) < 0 {
        Err(Error::SizeOverflow)
    } else {
        let count = i32_at(s, start as int) as nat;
        let first = start + 4;
        let remaining = (s.len() - first) as nat;
        let stride = match known_stride(version) {
            Some(k) => k,
            None => if count != 0 {
                remaining / count
            } else {
                0
            },
        };
        if count != 0 && (stride < STATIC_PROP_MIN_SIZE || stride * count != remaining) {
            Err(
                Error::InvalidStaticPropStride {
                    version,
                    stride: stride as usize,
                    count: count as usize,
                    length: remaining as usize,
                },
            )
        } else {
            match props_upto(s, first, stride, count, names.len(), leaves.len()) {
                Err(e) => Err(e),
                Ok(props) => Ok(StaticPropsView { version, names, leaves, props }),
            }
        }
    }
}

/// The record size the format gives each static prop lump version it defines.
pub open spec fn format_prop_strides() -> Seq<(i32, nat)> {
    seq![(4i32, 56nat), (5i32, 60nat), (6i32, 64nat), (7i32, 64nat), (8i32, 68nat), (10i32, 72nat)]
}

proof fn lemma_props_upto_records(
    s: Seq<u8>,
    start: nat,
    stride: nat,
    n: nat,
    name_count: nat,
    leaf_count: nat,
)
    requires
        props_upto(s, start, stride, n, name_count, leaf_count) is Ok,
    ensures
        props_upto(s, start, stride, n, name_count, leaf_count)->Ok_0.len() == n,
        forall|i: int| 0 <= i < n ==> #[trigger] props_upto(s, start, stride, n, name_count, leaf_count)->Ok_0[i]
            == prop_at(s, start + stride * i),
    decreases n,
{
    if n > 0 {
        let k = (n - 1) as nat;
        lemma_props_upto_records(s, start, stride, k, name_count, leaf_count);
        let prev = props_upto(s, start, stride, k, name_count, leaf_count)->Ok_0;
        let cur = props_upto(s, start, stride, n, name_count, leaf_count)->Ok_0;
        assert forall|i: int| 0 <= i < n implies #[trigger] cur[i] == prop_at(s, start + stride * i) by {
            if i < k {
                assert(cur[i] == prev[i]);
            } else {
                assert(i == k);
                assert(k * stride == stride * k) by (nonlinear_arith);
            }
        }
    }
}

proof fn lemma_props_upto_error(s: Seq<u8>, start: nat, stride: nat, n: nat, name_count: nat, leaf_count: nat)
    ensures
        !(props_upto(s, start, stride, n, name_count, leaf_count) matches Err(Error::InvalidStaticPropStride { .. })),
    decreases n,
{
    if n > 0 {
        lemma_props_upto_error(s, start, stride, (n - 1) as nat, name_count, leaf_count);
    }
}

/// For each version the format defines, the props are read as records of the format's
/// size for that version, one after another from just past their count: a lump whose
/// props do not fill the rest of it exactly at that size is refused as having the wrong
/// stride, and otherwise prop `i` is the record `i` strides in.
pub proof fn lemma_props_read_at_the_format_stride(
    s: Seq<u8>,
    version: i32,
    stride: nat,
    names: Seq<Seq<u8>>,
    leaves: Seq<u16>,
    start: nat,
)
    requires
        format_prop_strides().contains((version, stride)),
        start + 4 <= s.len(),
        i32_at(s, start as int) > 0,
    ensures
        ({
            let count = i32_at(s, start as int) as nat;
            let remaining = s.len() - (start + 4);
            &&& (props_part(s, version, names, leaves, start) matches Err(Error::InvalidStaticPropStride { .. }))
                <==> stride * count != remaining
            &&& props_part(s, version, names, leaves, start) matches Ok(p) ==> p.props.len() == count && forall|i: int|
                0 <= i < count ==> #[trigger] p.props[i] == prop_at(s, start + 4 + stride * i)
        }),
{
    let t = format_prop_strides();
    let k = choose|k: int| 0 <= k < t.len() && t[k] == (version, stride);
    assert(known_stride(version) == Some(stride)) by {
        if k == 0 {
        } else if k == 1 {
        } else if k == 2 {
        } else if k == 3 {
        } else if k == 4 {
        } else {
        }
    }
    let count = i32_at(s, start as int) as nat;
    if props_part(s, version, names, leaves, start) is Ok {
        lemma_props_upto_records(s, start + 4, stride, count, names.len(), leaves.len());
    } else if stride * count == (s.len() - (start + 4)) as nat {
        let r = props_upto(s, start + 4, stride, count, names.len(), leaves.len());
        lemma_props_upto_error(s, start + 4, stride, count, names.len(), leaves.len());
    }
}

/// What the static prop lump's own bytes read as: the model dictionary, the leaf table
/// and the props, each preceded by its count.
pub open spec fn props_body(s: Seq<u8>, version: i32) -> core::result::Result<StaticPropsView, Error> {
    if s.len() < 4 {
        Err(eof(s.len(), 0, 4))
    } else if i32_at(s, 0) < 0 {
        Err(Error::SizeOverflow)
    } else {
        let name_count = i32_at(s, 0) as nat;
        match names_upto(s, name_count) {
            Err(e) => Err(e),
            Ok(names) => {
                let at = 4 + STATIC_PROP_NAME_SIZE * name_count;
                if at + 4 > s.len() {
                    Err(eof(s.len(), at as nat, 4))
                } else if i32_at(s, at) < 0 {
                    Err(Error::SizeOverflow)
                } else {
                    let leaf_count = i32_at(s, at) as nat;
                    let base = at + 4;
                    if base + 2 * leaf_count > s.len() {
                        let short = base + (s.len() - base) / 2 * 2;
                        Err(eof(s.len(), short as nat, 2))
                    } else {
                        let leaves = Seq::new(leaf_count, |j: int| u16_at(s, base + 2 * j));
                        props_part(s, version, names, leaves, (base + 2 * leaf_count) as nat)
                    }
                }
            },
        }
    }
}

/// What a map's static props read as, or why they are refused. A map without the game
/// lump, or whose game lump holds no static prop lump, has none.
///
/// The static prop lump's offset is into the whole file rather than into the game lump
/// holding its entry.
pub open spec fn static_props_spec(b: BspView) -> core::result::Result<StaticPropsView, Error> {
    let lump = lump_bytes(b.header, b.bytes, LUMP_GAME_LUMP as int);
    if lump.len() == 0 {
        Ok(no_props())
    } else if lump.len() < 4 {
        Err(eof(lump.len(), 0, 4))
    } else if i32_at(lump, 0) < 0 {
        Err(Error::SizeOverflow)
    } else {
        match find_static_props(lump, i32_at(lump, 0) as nat, 0) {
            Err(e) => Err(e),
            Ok(None) => Ok(no_props()),
            Ok(Some((version, offset, length))) => if offset < 0 || length < 0 || offset + length > usize::MAX {
                Err(Error::SizeOverflow)
            } else if offset + length > b.bytes.len() {
                Err(Error::InvalidGameLumpRange { offset: offset as usize, length: length as usize })
            } else {
                props_body(b.bytes.subrange(offset as int, offset + length), version)
            },
        }
    }
}

// ---------------------------------------------------------------------------
// Reading it
// ---------------------------------------------------------------------------

fn eof_at(len: usize, pos: usize, n: usize) -> (r: Error)
    requires
        pos <= len,
    ensures
        r == eof(len as nat, pos as nat, n as nat),
{
    Error::Binary(binary::Error::UnexpectedEof { offset: pos, requested: n, remaining: len - pos })
}

fn i32_from(bytes: &[u8], at: usize) -> (r: i32)
    requires
        at + 4 <= bytes@.len(),
    ensures
        r == i32_at(bytes@, at as int),
{
    match Reader::with_position(bytes, at) {
        Ok(mut reader) => take_i32(&mut reader),
        Err(_) => 0,
    }
}

fn u32_from(bytes: &[u8], at: usize) -> (r: u32)
    requires
        at + 4 <= bytes@.len(),
    ensures
        r == u32_at(bytes@, at as int),
{
    match Reader::with_position(bytes, at) {
        Ok(mut reader) => take_u32(&mut reader),
        Err(_) => 0,
    }
}

fn u16_from(bytes: &[u8], at: usize) -> (r: u16)
    requires
        at + 2 <= bytes@.len(),
    ensures
        r == u16_at(bytes@, at as int),
{
    match Reader::with_position(bytes, at) {
        Ok(mut reader) => take_u16(&mut reader),
        Err(_) => 0,
    }
}

/// Walks the game lump's directory for the static prop entry.
fn find_entry(lump: &[u8], count: usize) -> (r: Result<Option<(i32, i32, i32)>>)
    requires
        lump@.len() >= 4,
    ensures
        match r {
            Ok(found) => find_static_props(lump@, count as nat, 0) == Ok::<Option<(i32, i32, i32)>, Error>(found),
            Err(e) => find_static_props(lump@, count as nat, 0) == Err::<Option<(i32, i32, i32)>, Error>(e),
        },
{
    let len = lump.len();
    let mut e: usize = 0;
    let mut at: usize = 4;
    while e < count
        invariant
            e <= count,
            len == lump@.len(),
            at == 4 + 16 * e,
            at <= len,
            find_static_props(lump@, count as nat, 0) == find_static_props(lump@, count as nat, e as nat),
        decreases count - e,
    {
        if len - at < 4 {
            return Err(eof_at(len, at, 4));
        }
        if len - at < 6 {
            return Err(eof_at(len, at + 4, 2));
        }
        if len - at < 8 {
            return Err(eof_at(len, at + 6, 2));
        }
        if len - at < 12 {
            return Err(eof_at(len, at + 8, 4));
        }
        if len - at < 16 {
            return Err(eof_at(len, at + 12, 4));
        }
        let id = i32_from(lump, at);
        if id == GAME_LUMP_STATIC_PROPS {
            let version = u16_from(lump, at + 6) as i32;
            let offset = i32_from(lump, at + 8);
            let length = i32_from(lump, at + 12);
            return Ok(Some((version, offset, length)));
        }
        e = e + 1;
        at = at + 16;
    }
    Ok(None)
}

proof fn lemma_names_fail(s: Seq<u8>, k: nat, m: nat)
    requires
        k <= m,
        names_upto(s, k) is Err,
    ensures
        names_upto(s, m) == names_upto(s, k),
    decreases m - k,
{
    if k < m {
        lemma_names_fail(s, k, (m - 1) as nat);
    }
}

proof fn lemma_props_fail(s: Seq<u8>, start: nat, stride: nat, k: nat, m: nat, names: nat, leaves: nat)
    requires
        k <= m,
        props_upto(s, start, stride, k, names, leaves) is Err,
    ensures
        props_upto(s, start, stride, m, names, leaves) == props_upto(s, start, stride, k, names, leaves),
    decreases m - k,
{
    if k < m {
        lemma_props_fail(s, start, stride, k, (m - 1) as nat, names, leaves);
    }
}

/// The model dictionary's first `count` names.
fn read_names(s: &[u8], count: usize) -> (r: Result<Vec<String>>)
    requires
        s@.len() >= 4,
    ensures
        match r {
            Ok(names) => names_upto(s@, count as nat) == Ok::<Seq<Seq<u8>>, Error>(
                names@.map_values(|n: String| string_bytes(n)),
            ),
            Err(e) => names_upto(s@, count as nat) == Err::<Seq<Seq<u8>>, Error>(e),
        },
{
    let len = s.len();
    let mut names: Vec<String> = Vec::new();
    let mut k: usize = 0;
    let mut at: usize = 4;
    proof {
        assert(names@.map_values(|n: String| string_bytes(n)) =~= Seq::<Seq<u8>>::empty());
    }
    while k < count
        invariant
            k <= count,
            len == s@.len(),
            at == 4 + STATIC_PROP_NAME_SIZE * k,
            at <= len,
            names_upto(s@, k as nat) == Ok::<Seq<Seq<u8>>, Error>(names@.map_values(|n: String| string_bytes(n))),
        decreases count - k,
    {
        let ghost before = names@;
        if len - at < STATIC_PROP_NAME_SIZE {
            proof {
                lemma_names_fail(s@, (k + 1) as nat, count as nat);
            }
            return Err(eof_at(len, at, STATIC_PROP_NAME_SIZE));
        }
        let raw = vstd::slice::slice_subrange(s, at, at + STATIC_PROP_NAME_SIZE);
        let mut end: usize = 0;
        while end < raw.len() && raw[end] != 0
            invariant
                end <= raw@.len(),
                nul_end(raw@, 0) == nul_end(raw@, end as int),
            decreases raw@.len() - end,
        {
            end = end + 1;
        }
        let text = match utf8_text(vstd::slice::slice_subrange(raw, 0, end)) {
            Some(t) => t,
            None => {
                proof {
                    lemma_names_fail(s@, (k + 1) as nat, count as nat);
                }
                return Err(Error::InvalidEntityText);
            },
        };
        let name = text.to_owned();
        names.push(name);
        proof {
            assert(names@.map_values(|n: String| string_bytes(n)) =~= before.map_values(|n: String| string_bytes(n)).push(
                string_bytes(name),
            ));
        }
        k = k + 1;
        at = at + STATIC_PROP_NAME_SIZE;
    }
    Ok(names)
}


/// The shared leaf table's `count` entries from `base`.
fn read_leaves(s: &[u8], base: usize, count: usize) -> (r: Vec<u16>)
    requires
        base + 2 * count <= s@.len(),
    ensures
        r@ == Seq::new(count as nat, |j: int| u16_at(s@, base + 2 * j)),
{
    let len = s.len();
    let mut leaves: Vec<u16> = Vec::new();
    let mut j: usize = 0;
    while j < count
        invariant
            j <= count,
            len == s@.len(),
            base + 2 * count <= s@.len(),
            leaves@ == Seq::new(j as nat, |i: int| u16_at(s@, base + 2 * i)),
        decreases count - j,
    {
        let leaf = u16_from(s, base + 2 * j);
        leaves.push(leaf);
        proof {
            assert(leaves@ =~= Seq::new((j + 1) as nat, |i: int| u16_at(s@, base + 2 * i)));
        }
        j = j + 1;
    }
    leaves
}

proof fn lemma_record_inside(index: nat, count: nat, stride: nat)
    requires
        index < count,
    ensures
        index * stride + stride <= count * stride,
        (index + 1) * stride == index * stride + stride,
{
    assert(index * stride + stride <= count * stride) by (nonlinear_arith)
        requires
            index < count,
    ;
    assert((index + 1) * stride == index * stride + stride) by (nonlinear_arith);
}

/// The props of `count` records `stride` bytes apart from `first`, each checked against
/// the dictionary and the leaf table.
fn read_props(s: &[u8], first: usize, stride: usize, count: usize, name_count: usize, leaf_count: usize) -> (r: Result<
    Vec<StaticProp>,
>)
    requires
        first <= s@.len(),
        count == 0 || (stride >= STATIC_PROP_MIN_SIZE && stride * count == s@.len() - first),
    ensures
        match r {
            Ok(props) => props_upto(s@, first as nat, stride as nat, count as nat, name_count as nat, leaf_count as nat)
                == Ok::<Seq<StaticProp>, Error>(props@),
            Err(e) => props_upto(s@, first as nat, stride as nat, count as nat, name_count as nat, leaf_count as nat)
                == Err::<Seq<StaticProp>, Error>(e),
        },
{
    let ghost g = props_upto(s@, first as nat, stride as nat, count as nat, name_count as nat, leaf_count as nat);
    let mut props: Vec<StaticProp> = Vec::new();
    let mut index: usize = 0;
    let mut at: usize = first;
    let len = s.len();
    while index < count
        invariant
            index <= count,
            len == s@.len(),
            first <= s@.len(),
            count == 0 || (stride >= STATIC_PROP_MIN_SIZE && stride * count == s@.len() - first),
            index < count ==> at == first + index * stride,
            g == props_upto(s@, first as nat, stride as nat, count as nat, name_count as nat, leaf_count as nat),
            props_upto(s@, first as nat, stride as nat, index as nat, name_count as nat, leaf_count as nat) == Ok::<
                Seq<StaticProp>,
                Error,
            >(props@),
        decreases count - index,
    {
        proof {
            lemma_record_inside(index as nat, count as nat, stride as nat);
        }
        let prop = StaticProp {
            model: u16_from(s, at + 24) as usize,
            origin: [u32_from(s, at), u32_from(s, at + 4), u32_from(s, at + 8)],
            angles: [u32_from(s, at + 12), u32_from(s, at + 16), u32_from(s, at + 20)],
            skin: i32_from(s, at + 32),
            first_leaf: u16_from(s, at + 26) as usize,
            leaf_count: u16_from(s, at + 28) as usize,
        };
        proof {
            assert(prop == prop_at(s@, at as int));
        }
        if prop.model >= name_count {
            proof {
                lemma_props_fail(s@, first as nat, stride as nat, (index + 1) as nat, count as nat, name_count as nat, leaf_count as nat);
            }
            return Err(Error::InvalidStaticPropModel { index, model: prop.model });
        }
        if prop.first_leaf + prop.leaf_count > leaf_count {
            proof {
                lemma_props_fail(s@, first as nat, stride as nat, (index + 1) as nat, count as nat, name_count as nat, leaf_count as nat);
            }
            return Err(Error::InvalidStaticPropLeaves { index, first: prop.first_leaf, count: prop.leaf_count });
        }
        props.push(prop);
        index = index + 1;
        if index < count {
            at = at + stride;
        }
    }
    Ok(props)
}


proof fn lemma_names_fit(s: Seq<u8>, n: nat)
    requires
        s.len() >= 4,
        names_upto(s, n) is Ok,
    ensures
        4 + STATIC_PROP_NAME_SIZE * n <= s.len(),
        names_upto(s, n)->Ok_0.len() == n,
    decreases n,
{
    if n > 0 {
        lemma_names_fit(s, (n - 1) as nat);
    }
}

/// The static prop lump's own bytes: the model dictionary, the leaf table and the
/// props, each preceded by its count.
fn parse_body(s: &[u8], version: i32) -> (r: Result<StaticProps>)
    ensures
        match r {
            Ok(p) => props_body(s@, version) == Ok::<StaticPropsView, Error>(p@),
            Err(e) => props_body(s@, version) == Err::<StaticPropsView, Error>(e),
        },
{
    let len = s.len();
    if len < 4 {
        return Err(eof_at(len, 0, 4));
    }
    let name_count = i32_from(s, 0);
    if name_count < 0 {
        return Err(Error::SizeOverflow);
    }
    let names = match read_names(s, name_count as usize) {
        Ok(n) => n,
        Err(e) => return Err(e),
    };
    proof {
        lemma_names_fit(s@, name_count as nat);
    }
    let ghost name_view = names@.map_values(|n: String| string_bytes(n));
    let at = 4 + STATIC_PROP_NAME_SIZE * (name_count as usize);
    if len - at < 4 {
        return Err(eof_at(len, at, 4));
    }
    let leaf_count = i32_from(s, at);
    if leaf_count < 0 {
        return Err(Error::SizeOverflow);
    }
    let base = at + 4;
    let lc = leaf_count as usize;
    if lc > (len - base) / 2 {
        let short = base + (len - base) / 2 * 2;
        return Err(eof_at(len, short, 2));
    }
    let leaves = read_leaves(s, base, lc);
    let start = base + 2 * lc;
    if len - start < 4 {
        return Err(eof_at(len, start, 4));
    }
    let count = i32_from(s, start);
    if count < 0 {
        return Err(Error::SizeOverflow);
    }
    let first = start + 4;
    let remaining = len - first;
    let pc = count as usize;
    let stride: usize = match version {
        4 => 56,
        5 => 60,
        6 | 7 => 64,
        8 => 68,
        10 => 72,
        _ => if pc != 0 {
            remaining / pc
        } else {
            0
        },
    };
    if pc != 0 {
        let whole = match stride.checked_mul(pc) {
            Some(p) => p == remaining,
            None => false,
        };
        if stride < STATIC_PROP_MIN_SIZE || !whole {
            return Err(Error::InvalidStaticPropStride { version, stride, count: pc, length: remaining });
        }
    }
    let props = match read_props(s, first, stride, pc, names.len(), leaves.len()) {
        Ok(p) => p,
        Err(e) => return Err(e),
    };
    Ok(StaticProps { version, names, leaves, props })
}

impl StaticProps {
    /// No props at all, which is what a map without the lump has.
    pub fn empty() -> (r: Self)
        ensures
            r@ == no_props(),
    {
        let r = StaticProps { version: 0, names: Vec::new(), leaves: Vec::new(), props: Vec::new() };
        proof {
            assert(r@.names =~= Seq::<Seq<u8>>::empty());
        }
        r
    }

    /// Reads the props out of the map's game lump, where it holds them.
    ///
    /// A game lump's entry gives its offset into the whole file rather than into the
    /// lump holding the entry, which is the one thing about this lump that catches
    /// every reader out.
    pub fn parse(bsp: &Bsp<'_>) -> (r: Result<Self>)
        ensures
            match r {
                Ok(p) => static_props_spec(bsp@) == Ok::<StaticPropsView, Error>(p@),
                Err(e) => static_props_spec(bsp@) == Err::<StaticPropsView, Error>(e),
            },
    {
        let lump = match bsp.lump(LUMP_GAME_LUMP) {
            Some(b) => b,
            None => return Ok(Self::empty()),
        };
        let len = lump.len();
        if len == 0 {
            return Ok(Self::empty());
        }
        if len < 4 {
            return Err(eof_at(len, 0, 4));
        }
        let count = i32_from(lump, 0);
        if count < 0 {
            return Err(Error::SizeOverflow);
        }
        let found = match find_entry(lump, count as usize) {
            Ok(f) => f,
            Err(e) => return Err(e),
        };
        let (version, offset, length) = match found {
            Some(entry) => entry,
            None => return Ok(Self::empty()),
        };
        if offset < 0 || length < 0 {
            return Err(Error::SizeOverflow);
        }
        let start = offset as usize;
        let size = length as usize;
        let end = match start.checked_add(size) {
            Some(e) => e,
            None => return Err(Error::SizeOverflow),
        };
        let file = bsp.file_bytes();
        if end > file.len() {
            return Err(Error::InvalidGameLumpRange { offset: start, length: size });
        }
        parse_body(vstd::slice::slice_subrange(file, start, end), version)
    }

    pub fn version(&self) -> (r: i32)
        ensures
            r == self@.version,
    {
        self.version
    }

    /// The model dictionary.
    pub fn names(&self) -> (r: &[String])
        ensures
            r@.map_values(|n: String| string_bytes(n)) == self@.names,
    {
        self.names.as_slice()
    }

    pub fn props(&self) -> (r: &[StaticProp])
        ensures
            r@ == self@.props,
    {
        self.props.as_slice()
    }

    pub fn is_empty(&self) -> (r: bool)
        ensures
            r == (self@.props.len() == 0),
    {
        self.props.len() == 0
    }

    /// The model a prop draws, where the dictionary holds it.
    pub fn name(&self, prop: &StaticProp) -> (r: Option<&str>)
        ensures
            match r {
                Some(n) => prop.model < self@.names.len() && n.spec_bytes() == self@.names[prop.model as int],
                None => prop.model >= self@.names.len(),
            },
    {
        if prop.model < self.names.len() {
            Some(self.names[prop.model].as_str())
        } else {
            None
        }
    }

    /// The leaves a prop stands in, which is what a view culls it by: none where the
    /// table does not hold the run.
    pub fn leaves(&self, prop: &StaticProp) -> (r: &[u16])
        requires
            prop.first_leaf + prop.leaf_count <= usize::MAX,
        ensures
            r@ == if prop.first_leaf + prop.leaf_count <= self@.leaves.len() {
                self@.leaves.subrange(prop.first_leaf as int, prop.first_leaf + prop.leaf_count)
            } else {
                Seq::empty()
            },
    {
        let end = prop.first_leaf + prop.leaf_count;
        if end <= self.leaves.len() {
            vstd::slice::slice_subrange(self.leaves.as_slice(), prop.first_leaf, end)
        } else {
            vstd::slice::slice_subrange(self.leaves.as_slice(), 0, 0)
        }
    }
}

impl Default for StaticProps {
    fn default() -> (r: Self)
        ensures
            r@ == no_props(),
    {
        Self::empty()
    }
}


} // verus!
