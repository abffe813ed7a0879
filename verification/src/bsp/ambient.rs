//! The light the compiler measured inside the map's open leaves.
//!
//! A world surface has a lightmap because the compiler knew where it was and which way
//! it faced; a prop, a player or a thrown crate does not, so the compiler instead
//! records what arrives at points inside each open leaf from each of the six axial
//! directions. The colours are kept as stored: three bytes and a shared exponent each.
use vstd::prelude::*;
use crate::bsp::{
    Bsp, BspView, Error, Result, LUMP_LEAVES, LUMP_LEAF_AMBIENT_INDEX, LUMP_LEAF_AMBIENT_INDEX_HDR,
    LUMP_LEAF_AMBIENT_LIGHTING, LUMP_LEAF_AMBIENT_LIGHTING_HDR, lump_bytes,
};
use crate::bsp::records::{LEAF_V0_SIZE, u16_at, lemma_record_room};

verus! {

/// Bytes one ambient sample takes: six stored colours and a position byte per axis.
pub const AMBIENT_SAMPLE_SIZE: usize = 28;
/// Bytes one leaf's entry in the ambient index takes.
pub const AMBIENT_INDEX_SIZE: usize = 4;
/// Where the cube sits inside a version-0 leaf record: after the thirty bytes a
/// version-1 leaf is, and before the two bytes of padding that end the record.
pub const LEAF_V0_CUBE_OFFSET: usize = 30;

/// One of the compiler's measurements of the light inside a leaf.
#[derive(Debug, Clone, Copy, PartialEq, Eq)]
pub struct AmbientSample {
    /// The light arriving from `+x, -x, +y, -y, +z, -z`, in that order, each as three
    /// colour bytes and a signed exponent they share.
    pub cube: [[u8; 4]; 6],
    /// Where in the leaf it was taken, as 255ths of the leaf's box on each axis; none
    /// where the record does not say, which places it at the leaf's middle.
    pub position: Option<[u8; 3]>,
}

/// The light inside the map's open leaves.
#[derive(Debug)]
pub struct AmbientLighting {
    samples: Vec<AmbientSample>,
    /// Per leaf, where its samples start and how many it has.
    index: Vec<(usize, usize)>,
    hdr: bool,
}

pub struct AmbientLightingView {
    pub samples: Seq<AmbientSample>,
    pub index: Seq<(usize, usize)>,
    pub hdr: bool,
}

impl View for AmbientLighting {
    type V = AmbientLightingView;

    closed spec fn view(&self) -> AmbientLightingView {
        AmbientLightingView { samples: self.samples@, index: self.index@, hdr: self.hdr }
    }
}

pub open spec fn no_ambient() -> AmbientLightingView {
    AmbientLightingView { samples: Seq::empty(), index: Seq::empty(), hdr: false }
}

/// The stored colour at `at`.
pub open spec fn stored_at(s: Seq<u8>, at: int) -> [u8; 4] {
    [s[at], s[at + 1], s[at + 2], s[at + 3]]
}

/// The six stored colours from `at` on.
pub open spec fn cube_at(s: Seq<u8>, at: int) -> [[u8; 4]; 6] {
    [
        stored_at(s, at),
        stored_at(s, at + 4),
        stored_at(s, at + 8),
        stored_at(s, at + 12),
        stored_at(s, at + 16),
        stored_at(s, at + 20),
    ]
}

/// The ambient sample record at `at`.
pub open spec fn sample_at(s: Seq<u8>, at: int) -> AmbientSample {
    AmbientSample { cube: cube_at(s, at), position: Some([s[at + 24], s[at + 25], s[at + 26]]) }
}

proof fn lemma_cube_bytes(s: Seq<u8>, at: int, j: int, c: int)
    requires
        0 <= j < 6,
        0 <= c < 4,
    ensures
        cube_at(s, at)[j][c] == s[at + 4 * j + c],
{
    if j == 0 {
    } else if j == 1 {
    } else if j == 2 {
    } else if j == 3 {
    } else if j == 4 {
    } else {
    }
}

/// Each sample of the separate ambient lumps is its stored 28-byte record: colour `j`
/// of its cube (from `+x, -x, +y, -y, +z, -z`) is the four bytes at `4 * j` of the
/// record, in order, and its position is the three bytes after the cube.
pub proof fn lemma_lump_samples_are_stored(lighting: Seq<u8>, index: Seq<u8>, hdr: bool)
    requires
        ambient_from_lumps(lighting, index, hdr) is Ok,
    ensures
        ({
            let a = ambient_from_lumps(lighting, index, hdr)->Ok_0;
            &&& a.samples.len() * 28 == lighting.len()
            &&& forall|k: int, j: int, c: int|
                0 <= k < a.samples.len() && 0 <= j < 6 && 0 <= c < 4 ==> #[trigger] a.samples[k].cube[j][c]
                    == lighting[28 * k + 4 * j + c]
            &&& forall|k: int|
                0 <= k < a.samples.len() ==> #[trigger] a.samples[k].position == Some(
                    [lighting[28 * k + 24], lighting[28 * k + 25], lighting[28 * k + 26]],
                )
        }),
{
    let a = ambient_from_lumps(lighting, index, hdr)->Ok_0;
    assert forall|k: int, j: int, c: int|
        0 <= k < a.samples.len() && 0 <= j < 6 && 0 <= c < 4 implies #[trigger] a.samples[k].cube[j][c]
            == lighting[28 * k + 4 * j + c] by {
        lemma_cube_bytes(lighting, 28 * k, j, c);
    }
}

/// Each sample read out of version-0 leaf records is the cube its record stores:
/// colour `j` is the four bytes at `4 * j` past the cube's offset in the record.
pub proof fn lemma_leaf_cubes_are_stored(leaves: Seq<u8>)
    requires
        ambient_from_leaves(leaves) is Ok,
    ensures
        ({
            let a = ambient_from_leaves(leaves)->Ok_0;
            &&& a.samples.len() * 56 == leaves.len()
            &&& forall|k: int, j: int, c: int|
                0 <= k < a.samples.len() && 0 <= j < 6 && 0 <= c < 4 ==> #[trigger] a.samples[k].cube[j][c]
                    == leaves[56 * k + 30 + 4 * j + c]
        }),
{
    let a = ambient_from_leaves(leaves)->Ok_0;
    assert forall|k: int, j: int, c: int|
        0 <= k < a.samples.len() && 0 <= j < 6 && 0 <= c < 4 implies #[trigger] a.samples[k].cube[j][c]
            == leaves[56 * k + 30 + 4 * j + c] by {
        lemma_cube_bytes(leaves, 56 * k + 30, j, c);
    }
}

/// The first `n` leaves' entries of the ambient index, or the first pointing past the
/// `samples` there are.
pub open spec fn entries_upto(index: Seq<u8>, samples: nat, n: nat) -> core::result::Result<Seq<(usize, usize)>, Error>
    decreases n,
{
    if n == 0 {
        Ok(Seq::empty())
    } else {
        match entries_upto(index, samples, (n - 1) as nat) {
            Err(e) => Err(e),
            Ok(entries) => {
                let at = AMBIENT_INDEX_SIZE * (n - 1);
                let count = u16_at(index, at) as usize;
                let first = u16_at(index, at + 2) as usize;
                if first + count > samples {
                    Err(Error::InvalidAmbientRange { first, count, samples: samples as usize })
                } else {
                    Ok(entries.push((first, count)))
                }
            },
        }
    }
}

/// What the separate ambient lumps read as. A leaf pointing past the samples would
/// light everything in it black, so it is refused rather than clamped. Either pair of
/// lumps is refused under the standard lumps' numbers.
pub open spec fn ambient_from_lumps(lighting: Seq<u8>, index: Seq<u8>, hdr: bool) -> core::result::Result<
    AmbientLightingView,
    Error,
> {
    if lighting.len() % AMBIENT_SAMPLE_SIZE as nat != 0 {
        Err(Error::InvalidLumpLength { lump: LUMP_LEAF_AMBIENT_LIGHTING, length: lighting.len() as usize })
    } else if index.len() % AMBIENT_INDEX_SIZE as nat != 0 {
        Err(Error::InvalidLumpLength { lump: LUMP_LEAF_AMBIENT_INDEX, length: index.len() as usize })
    } else {
        let samples = Seq::new(
            lighting.len() / AMBIENT_SAMPLE_SIZE as nat,
            |k: int| sample_at(lighting, AMBIENT_SAMPLE_SIZE * k),
        );
        match entries_upto(index, samples.len(), index.len() / AMBIENT_INDEX_SIZE as nat) {
            Err(e) => Err(e),
            Ok(entries) => Ok(AmbientLightingView { samples, index: entries, hdr }),
        }
    }
}

/// What version-0 leaf records read as: one sample per leaf, out of the cube each
/// record carries, at the middle of the leaf.
pub open spec fn ambient_from_leaves(leaves: Seq<u8>) -> core::result::Result<AmbientLightingView, Error> {
    if leaves.len() % LEAF_V0_SIZE as nat != 0 {
        Err(Error::InvalidLumpLength { lump: LUMP_LEAVES, length: leaves.len() as usize })
    } else {
        let n = leaves.len() / LEAF_V0_SIZE as nat;
        Ok(
            AmbientLightingView {
                samples: Seq::new(
                    n,
                    |k: int| AmbientSample { cube: cube_at(leaves, LEAF_V0_SIZE * k + LEAF_V0_CUBE_OFFSET), position: None },
                ),
                index: Seq::new(n, |k: int| (k as usize, 1usize)),
                hdr: false,
            },
        )
    }
}

/// What a map's ambient light reads as: the high-range lumps where the map carries
/// both, else the standard ones where it carries both, else the cube inside each leaf
/// record of a map whose leaves are version 0, else nothing.
pub open spec fn ambient_spec(b: BspView) -> core::result::Result<AmbientLightingView, Error> {
    let hdr_lighting = lump_bytes(b.header, b.bytes, LUMP_LEAF_AMBIENT_LIGHTING_HDR as int);
    let hdr_index = lump_bytes(b.header, b.bytes, LUMP_LEAF_AMBIENT_INDEX_HDR as int);
    let lighting = lump_bytes(b.header, b.bytes, LUMP_LEAF_AMBIENT_LIGHTING as int);
    let index = lump_bytes(b.header, b.bytes, LUMP_LEAF_AMBIENT_INDEX as int);
    if hdr_lighting.len() != 0 && hdr_index.len() != 0 {
        ambient_from_lumps(hdr_lighting, hdr_index, true)
    } else if lighting.len() != 0 && index.len() != 0 {
        ambient_from_lumps(lighting, index, false)
    } else if b.header.lumps[LUMP_LEAVES as int].version == 0 {
        ambient_from_leaves(lump_bytes(b.header, b.bytes, LUMP_LEAVES as int))
    } else {
        Ok(no_ambient())
    }
}

// ---------------------------------------------------------------------------
// Reading it
// ---------------------------------------------------------------------------

fn stored_from(s: &[u8], at: usize) -> (r: [u8; 4])
    requires
        at + 4 <= s@.len(),
    ensures
        r == stored_at(s@, at as int),
{
    [s[at], s[at + 1], s[at + 2], s[at + 3]]
}

fn cube_from(s: &[u8], at: usize) -> (r: [[u8; 4]; 6])
    requires
        at + 24 <= s@.len(),
    ensures
        r == cube_at(s@, at as int),
{
    let _len = s.len();
    [
        stored_from(s, at),
        stored_from(s, at + 4),
        stored_from(s, at + 8),
        stored_from(s, at + 12),
        stored_from(s, at + 16),
        stored_from(s, at + 20),
    ]
}

proof fn lemma_whole_records(len: nat, size: nat, k: nat)
    requires
        size > 0,
        len % size == 0,
        k < len / size,
    ensures
        size * k + size <= len,
{
    assert(size * k + size <= len) by (nonlinear_arith)
        requires
            size > 0,
            len % size == 0,
            k < len / size,
    {
        assert(len == size * (len / size) + len % size);
        assert(k + 1 <= len / size);
        assert(size * (k + 1) <= size * (len / size));
    }
}

proof fn lemma_entries_fail(index: Seq<u8>, samples: nat, k: nat, m: nat)
    requires
        k <= m,
        entries_upto(index, samples, k) is Err,
    ensures
        entries_upto(index, samples, m) == entries_upto(index, samples, k),
    decreases m - k,
{
    if k < m {
        lemma_entries_fail(index, samples, k, (m - 1) as nat);
    }
}

/// Every leaf's entry of the index lies within the samples.
pub open spec fn entries_within(index: Seq<(usize, usize)>, samples: nat) -> bool {
    forall|k: int| 0 <= k < index.len() ==> #[trigger] index[k].0 + index[k].1 <= samples
}

proof fn lemma_entries_within(index: Seq<u8>, samples: nat, n: nat)
    ensures
        entries_upto(index, samples, n) matches Ok(entries) ==> entries_within(entries, samples),
    decreases n,
{
    if n > 0 {
        lemma_entries_within(index, samples, (n - 1) as nat);
        if let Ok(entries) = entries_upto(index, samples, n) {
            let prev = entries_upto(index, samples, (n - 1) as nat)->Ok_0;
            assert forall|k: int| 0 <= k < entries.len() implies #[trigger] entries[k].0 + entries[k].1 <= samples by {
                if k < prev.len() {
                    assert(entries[k] == prev[k]);
                }
            }
        }
    }
}

impl AmbientLighting {
    #[verifier::type_invariant]
    closed spec fn inv(&self) -> bool {
        entries_within(self.index@, self.samples@.len())
    }

    /// No measured light at all.
    pub fn empty() -> (r: Self)
        ensures
            r@ == no_ambient(),
    {
        AmbientLighting { samples: Vec::new(), index: Vec::new(), hdr: false }
    }

    /// Reads the high-range lumps where the map carries them, as the engine does for a
    /// map built against them, and the standard ones otherwise.
    ///
    /// Falls back to the leaf lump itself, because a map compiled before the ambient
    /// lumps existed carries one cube inside each leaf record instead, which is what
    /// the shipped campaign's own maps do. Reading only the separate lumps would light
    /// every prop in them black.
    pub fn parse(bsp: &Bsp<'_>) -> (r: Result<Self>)
        ensures
            match r {
                Ok(a) => ambient_spec(bsp@) == Ok::<AmbientLightingView, Error>(a@),
                Err(e) => ambient_spec(bsp@) == Err::<AmbientLightingView, Error>(e),
            },
    {
        let hdr_lighting = lump_or_empty(bsp, LUMP_LEAF_AMBIENT_LIGHTING_HDR);
        let hdr_index = lump_or_empty(bsp, LUMP_LEAF_AMBIENT_INDEX_HDR);
        if hdr_lighting.len() != 0 && hdr_index.len() != 0 {
            return Self::from_lumps(hdr_lighting, hdr_index, true);
        }
        let lighting = lump_or_empty(bsp, LUMP_LEAF_AMBIENT_LIGHTING);
        let index = lump_or_empty(bsp, LUMP_LEAF_AMBIENT_INDEX);
        if lighting.len() != 0 && index.len() != 0 {
            return Self::from_lumps(lighting, index, false);
        }
        if bsp.header().lumps[LUMP_LEAVES].version == 0 {
            return Self::from_leaves(lump_or_empty(bsp, LUMP_LEAVES));
        }
        Ok(Self::empty())
    }

    /// One sample per leaf, taken from the cube each version-0 leaf record carries,
    /// placed at the middle of the leaf because that record says nothing about where in
    /// the leaf it was measured.
    fn from_leaves(bytes: &[u8]) -> (r: Result<Self>)
        ensures
            match r {
                Ok(a) => ambient_from_leaves(bytes@) == Ok::<AmbientLightingView, Error>(a@),
                Err(e) => ambient_from_leaves(bytes@) == Err::<AmbientLightingView, Error>(e),
            },
    {
        let len = bytes.len();
        if len % LEAF_V0_SIZE != 0 {
            return Err(Error::InvalidLumpLength { lump: LUMP_LEAVES, length: len });
        }
        let n = len / LEAF_V0_SIZE;
        let mut samples: Vec<AmbientSample> = Vec::new();
        let mut index: Vec<(usize, usize)> = Vec::new();
        let mut k: usize = 0;
        let mut at: usize = 0;
        while k < n
            invariant
                len == bytes@.len(),
                len % LEAF_V0_SIZE == 0,
                n == len / LEAF_V0_SIZE,
                k <= n,
                at == LEAF_V0_SIZE * k,
                samples@ == Seq::new(
                    k as nat,
                    |j: int| AmbientSample { cube: cube_at(bytes@, LEAF_V0_SIZE * j + LEAF_V0_CUBE_OFFSET), position: None },
                ),
                index@ == Seq::new(k as nat, |j: int| (j as usize, 1usize)),
            decreases n - k,
        {
            proof {
                lemma_whole_records(len as nat, LEAF_V0_SIZE as nat, k as nat);
            }
            let cube = cube_from(bytes, at + LEAF_V0_CUBE_OFFSET);
            samples.push(AmbientSample { cube, position: None });
            index.push((k, 1));
            proof {
                assert(samples@ =~= Seq::new(
                    (k + 1) as nat,
                    |j: int| AmbientSample { cube: cube_at(bytes@, LEAF_V0_SIZE * j + LEAF_V0_CUBE_OFFSET), position: None },
                ));
                assert(index@ =~= Seq::new((k + 1) as nat, |j: int| (j as usize, 1usize)));
            }
            k = k + 1;
            at = at + LEAF_V0_SIZE;
        }
        Ok(AmbientLighting { samples, index, hdr: false })
    }

    fn from_lumps(lighting: &[u8], index: &[u8], hdr: bool) -> (r: Result<Self>)
        ensures
            match r {
                Ok(a) => ambient_from_lumps(lighting@, index@, hdr) == Ok::<AmbientLightingView, Error>(a@),
                Err(e) => ambient_from_lumps(lighting@, index@, hdr) == Err::<AmbientLightingView, Error>(e),
            },
    {
        let len = lighting.len();
        if len % AMBIENT_SAMPLE_SIZE != 0 {
            return Err(Error::InvalidLumpLength { lump: LUMP_LEAF_AMBIENT_LIGHTING, length: len });
        }
        let index_len = index.len();
        if index_len % AMBIENT_INDEX_SIZE != 0 {
            return Err(Error::InvalidLumpLength { lump: LUMP_LEAF_AMBIENT_INDEX, length: index_len });
        }
        let n = len / AMBIENT_SAMPLE_SIZE;
        let mut samples: Vec<AmbientSample> = Vec::new();
        let mut k: usize = 0;
        let mut at: usize = 0;
        while k < n
            invariant
                len == lighting@.len(),
                len % AMBIENT_SAMPLE_SIZE == 0,
                n == len / AMBIENT_SAMPLE_SIZE,
                k <= n,
                at == AMBIENT_SAMPLE_SIZE * k,
                samples@ == Seq::new(k as nat, |j: int| sample_at(lighting@, AMBIENT_SAMPLE_SIZE * j)),
            decreases n - k,
        {
            proof {
                lemma_whole_records(len as nat, AMBIENT_SAMPLE_SIZE as nat, k as nat);
            }
            let cube = cube_from(lighting, at);
            let position = [lighting[at + 24], lighting[at + 25], lighting[at + 26]];
            samples.push(AmbientSample { cube, position: Some(position) });
            proof {
                assert(samples@ =~= Seq::new((k + 1) as nat, |j: int| sample_at(lighting@, AMBIENT_SAMPLE_SIZE * j)));
            }
            k = k + 1;
            at = at + AMBIENT_SAMPLE_SIZE;
        }
        let count = samples.len();
        let m = index_len / AMBIENT_INDEX_SIZE;
        let ghost goal = entries_upto(index@, count as nat, m as nat);
        let mut entries: Vec<(usize, usize)> = Vec::new();
        let mut e: usize = 0;
        let mut pos: usize = 0;
        while e < m
            invariant
                index_len == index@.len(),
                index_len % AMBIENT_INDEX_SIZE == 0,
                m == index_len / AMBIENT_INDEX_SIZE,
                e <= m,
                pos == AMBIENT_INDEX_SIZE * e,
                goal == entries_upto(index@, count as nat, m as nat),
                len == lighting@.len(),
                len % AMBIENT_SAMPLE_SIZE == 0,
                count == len / AMBIENT_SAMPLE_SIZE,
                samples@ == Seq::new(count as nat, |j: int| sample_at(lighting@, AMBIENT_SAMPLE_SIZE * j)),
                entries_upto(index@, count as nat, e as nat) == Ok::<Seq<(usize, usize)>, Error>(entries@),
            decreases m - e,
        {
            proof {
                lemma_whole_records(index_len as nat, AMBIENT_INDEX_SIZE as nat, e as nat);
            }
            let entry_count = u16_from(index, pos) as usize;
            let first = u16_from(index, pos + 2) as usize;
            if first + entry_count > count {
                proof {
                    assert(entries_upto(index@, count as nat, (e + 1) as nat) == Err::<Seq<(usize, usize)>, Error>(
                        Error::InvalidAmbientRange { first, count: entry_count, samples: count },
                    ));
                    lemma_entries_fail(index@, count as nat, (e + 1) as nat, m as nat);
                }
                return Err(Error::InvalidAmbientRange { first, count: entry_count, samples: count });
            }
            entries.push((first, entry_count));
            e = e + 1;
            pos = pos + AMBIENT_INDEX_SIZE;
        }
        proof {
            lemma_entries_within(index@, count as nat, m as nat);
        }
        Ok(AmbientLighting { samples, index: entries, hdr })
    }

    pub fn is_empty(&self) -> (r: bool)
        ensures
            r == (self@.samples.len() == 0),
    {
        self.samples.len() == 0
    }

    pub fn sample_count(&self) -> (r: usize)
        ensures
            r == self@.samples.len(),
    {
        self.samples.len()
    }

    /// Whether this came from the high-range lumps.
    pub fn is_hdr(&self) -> (r: bool)
        ensures
            r == self@.hdr,
    {
        self.hdr
    }

    /// The samples measured in a leaf: none for a leaf the index does not list.
    pub fn samples_in(&self, leaf: usize) -> (r: &[AmbientSample])
        ensures
            r@ == if leaf < self@.index.len() {
                let (first, count) = self@.index[leaf as int];
                self@.samples.subrange(first as int, first + count)
            } else {
                Seq::empty()
            },
    {
        proof {
            use_type_invariant(self);
        }
        if leaf < self.index.len() {
            let (first, count) = self.index[leaf];
            let _n = self.samples.len();
            vstd::slice::slice_subrange(self.samples.as_slice(), first, first + count)
        } else {
            vstd::slice::slice_subrange(self.samples.as_slice(), 0, 0)
        }
    }
}

fn copied<T: Copy>(v: &Vec<T>) -> (r: Vec<T>)
    ensures
        r@ == v@,
{
    let mut out: Vec<T> = Vec::new();
    let mut i: usize = 0;
    while i < v.len()
        invariant
            i <= v@.len(),
            out@ == v@.subrange(0, i as int),
        decreases v@.len() - i,
    {
        out.push(v[i]);
        i = i + 1;
        proof {
            assert(out@ =~= v@.subrange(0, i as int));
        }
    }
    proof {
        assert(v@.subrange(0, v@.len() as int) =~= v@);
    }
    out
}

impl Clone for AmbientLighting {
    fn clone(&self) -> (r: Self)
        ensures
            r@ == self@,
    {
        proof {
            use_type_invariant(self);
        }
        AmbientLighting { samples: copied(&self.samples), index: copied(&self.index), hdr: self.hdr }
    }
}

impl Default for AmbientLighting {
    fn default() -> (r: Self)
        ensures
            r@ == no_ambient(),
    {
        Self::empty()
    }
}

/// A lump's bytes, or none.
fn lump_or_empty<'a>(bsp: &Bsp<'a>, index: usize) -> (r: &'a [u8])
    requires
        index < 64,
    ensures
        r@ == lump_bytes(bsp@.header, bsp@.bytes, index as int),
{
    match bsp.lump(index) {
        Some(b) => b,
        None => vstd::slice::slice_subrange(bsp.pakfile(), 0, 0),
    }
}

fn u16_from(bytes: &[u8], at: usize) -> (r: u16)
    requires
        at + 2 <= bytes@.len(),
    ensures
        r == u16_at(bytes@, at as int),
{
    match crate::binary::Reader::with_position(bytes, at) {
        Ok(mut reader) => crate::bsp::records::take_u16(&mut reader),
        Err(_) => 0,
    }
}


} // verus!
