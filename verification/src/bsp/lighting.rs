//! The baked lighting a map stores for its world surfaces, and the image the drawn
//! surfaces' lightmaps are packed into.
//!
//! Each sample is three bytes of colour and a shared exponent, so its linear value is
//! the byte scaled by two to that power. That is how the format holds light brighter
//! than white in a byte, and why a sample cannot simply be copied into a texture.
use vstd::prelude::*;
use crate::bsp::{Bsp, BspView, Error, Result, LUMP_LIGHTING, LUMP_LIGHTING_HDR, lump_bytes};
use crate::bsp::records::{Face, lightmap_samples, style_run};
use crate::bsp::layout::{Drawn, gather, gather_drawn, lemma_gather_writable, writable};
use crate::bsp::materials::{Materials, MaterialsView};
use crate::bsp::surfaces::{Surfaces, SurfacesView};

verus! {

/// Bytes per stored lightmap sample: red, green, blue, exponent.
pub const LIGHTMAP_SAMPLE_SIZE: usize = 4;

/// A map's baked lighting.
#[derive(Debug, Clone)]
pub struct Lightmaps<'a> {
    samples: &'a [u8],
    high_range: bool,
}

pub struct LightmapsView {
    pub samples: Seq<u8>,
    pub high_range: bool,
}

impl<'a> View for Lightmaps<'a> {
    type V = LightmapsView;

    closed spec fn view(&self) -> LightmapsView {
        LightmapsView { samples: self.samples@, high_range: self.high_range }
    }
}

/// What a map's lighting reads as: the high-range lump where the map carries one, the
/// standard one otherwise, refused where it is not whole samples.
pub open spec fn lightmaps_spec(b: BspView) -> core::result::Result<LightmapsView, Error> {
    let high = lump_bytes(b.header, b.bytes, LUMP_LIGHTING_HDR as int);
    let view = if high.len() == 0 {
        LightmapsView { samples: lump_bytes(b.header, b.bytes, LUMP_LIGHTING as int), high_range: false }
    } else {
        LightmapsView { samples: high, high_range: true }
    };
    if view.samples.len() % 4 != 0 {
        Err(Error::InvalidLightingLump(view.samples.len() as usize))
    } else {
        Ok(view)
    }
}

/// One face's samples for its first light style: none for a face without a lightmap.
pub open spec fn face_samples_spec(samples: Seq<u8>, face: Face) -> core::result::Result<Option<Seq<u8>>, Error> {
    if !(face.light_offset >= 0 && style_run(face.styles@, 4) != 0) {
        Ok(None)
    } else {
        match lightmap_samples(face.lightmap_size) {
            None => Err(Error::InvalidLightmapExtent { size: face.lightmap_size }),
            Some(count) => {
                let start = face.light_offset as int;
                let length = count * 4;
                if start % 4 != 0 {
                    Err(Error::InvalidLightOffset(face.light_offset))
                } else if length > usize::MAX || start + length > usize::MAX {
                    Err(Error::SizeOverflow)
                } else if start + length > samples.len() {
                    Err(Error::LightmapOutOfRange { offset: face.light_offset, length: length as usize })
                } else {
                    Ok(Some(samples.subrange(start, start + length)))
                }
            },
        }
    }
}

impl<'a> Lightmaps<'a> {
    /// Reads a map's baked lighting, preferring the high-range lump where the map
    /// carries one.
    ///
    /// A map compiled for high range stores both, and the two disagree: the
    /// standard-range lump of such a map is the fallback the original hardware used,
    /// so taking it would light the world dimmer than the map was authored to be.
    pub fn parse(bsp: &Bsp<'a>) -> (r: Result<Self>)
        ensures
            match r {
                Ok(l) => lightmaps_spec(bsp@) == Ok::<LightmapsView, Error>(l@),
                Err(e) => lightmaps_spec(bsp@) == Err::<LightmapsView, Error>(e),
            },
    {
        let empty: &'a [u8] = &[];
        let high = match bsp.lump(LUMP_LIGHTING_HDR) {
            Some(b) => b,
            None => empty,
        };
        let (samples, high_range) = if high.len() == 0 {
            let standard = match bsp.lump(LUMP_LIGHTING) {
                Some(b) => b,
                None => empty,
            };
            (standard, false)
        } else {
            (high, true)
        };
        if samples.len() % LIGHTMAP_SAMPLE_SIZE != 0 {
            return Err(Error::InvalidLightingLump(samples.len()));
        }
        Ok(Lightmaps { samples, high_range })
    }

    /// Whether these came from the high-range lump.
    pub fn is_high_range(&self) -> (r: bool)
        ensures
            r == self@.high_range,
    {
        self.high_range
    }

    pub fn sample_count(&self) -> (r: usize)
        ensures
            r == self@.samples.len() / 4,
    {
        self.samples.len() / LIGHTMAP_SAMPLE_SIZE
    }

    pub fn is_empty(&self) -> (r: bool)
        ensures
            r == (self@.samples.len() == 0),
    {
        self.samples.len() == 0
    }

    /// One face's samples for its first light style.
    ///
    /// The later styles belong to lights that switch or flicker and need the runtime
    /// to animate them, so only the static layer is read here. A face with no
    /// lightmap at all yields `None`.
    pub fn face_samples(&self, face: &Face) -> (r: Result<Option<&'a [u8]>>)
        ensures
            match r {
                Ok(Some(s)) => face_samples_spec(self@.samples, *face) == Ok::<Option<Seq<u8>>, Error>(Some(s@)),
                Ok(None) => face_samples_spec(self@.samples, *face) == Ok::<Option<Seq<u8>>, Error>(None),
                Err(e) => face_samples_spec(self@.samples, *face) == Err::<Option<Seq<u8>>, Error>(e),
            },
    {
        if !face.has_lightmap() {
            return Ok(None);
        }
        let count = match face.lightmap_sample_count() {
            Some(c) => c,
            None => return Err(Error::InvalidLightmapExtent { size: face.lightmap_size }),
        };
        let start = face.light_offset as usize;
        // The offset is in bytes rather than samples, which is why a face whose offset
        // is not a whole sample is refused rather than read at a shifted alignment.
        if start % LIGHTMAP_SAMPLE_SIZE != 0 {
            return Err(Error::InvalidLightOffset(face.light_offset));
        }
        let length = match count.checked_mul(LIGHTMAP_SAMPLE_SIZE) {
            Some(l) => l,
            None => return Err(Error::SizeOverflow),
        };
        let end = match start.checked_add(length) {
            Some(e) => e,
            None => return Err(Error::SizeOverflow),
        };
        if end > self.samples.len() {
            return Err(Error::LightmapOutOfRange { offset: face.light_offset, length });
        }
        Ok(Some(vstd::slice::slice_subrange(self.samples, start, end)))
    }
}

/// One face's block of samples within a packed lightmap.
#[derive(Debug, Clone, Copy, PartialEq, Eq)]
pub struct LightmapPlacement {
    /// Where the block's first sample sits in the packed image.
    pub origin: [u32; 2],
    /// How many samples the block holds along each axis.
    pub extent: [u32; 2],
}

// ---------------------------------------------------------------------------
// The packed image
// ---------------------------------------------------------------------------

/// The packed image's width. Wide enough that a map's surfaces pack into a few hundred
/// rows, and within the size every device accepts.
pub const LIGHTMAP_ATLAS_WIDTH: u32 = 2048;
/// The tallest image that will be built before packing is refused.
pub const LIGHTMAP_ATLAS_MAX_HEIGHT: u32 = 8192;
/// Samples left between neighbouring blocks, so that filtering across a block's edge
/// cannot reach into an unrelated surface's lighting.
pub const LIGHTMAP_ATLAS_PADDING: u32 = 1;

/// One face's block to place: the face, and how many samples wide and tall it is.
pub type Block = (usize, u32, u32);

/// `a` is packed no later than `b`: taller first, then wider, then the lower face.
pub open spec fn goes_before(a: Block, b: Block) -> bool {
    a.2 > b.2 || (a.2 == b.2 && (a.1 > b.1 || (a.1 == b.1 && a.0 <= b.0)))
}

pub open spec fn packing_order(s: Seq<Block>) -> bool {
    forall|i: int, j: int| 0 <= i < j < s.len() ==> goes_before(#[trigger] s[i], #[trigger] s[j])
}

/// Blocks whose width leaves room for the padding within a row, and whose height the
/// format can state.
pub open spec fn blocks_fit(s: Seq<Block>) -> bool {
    forall|i: int| 0 <= i < s.len() ==> #[trigger] s[i].1 + LIGHTMAP_ATLAS_PADDING <= LIGHTMAP_ATLAS_WIDTH
        && s[i].2 <= 0x8000_0000u32
}

fn goes_before_exec(a: Block, b: Block) -> (r: bool)
    ensures
        r == goes_before(a, b),
{
    a.2 > b.2 || (a.2 == b.2 && (a.1 > b.1 || (a.1 == b.1 && a.0 <= b.0)))
}

/// The blocks in packing order.
fn sort_blocks(blocks: &Vec<Block>) -> (r: Vec<Block>)
    ensures
        r@.to_multiset() == blocks@.to_multiset(),
        packing_order(r@),
{
    broadcast use vstd::seq_lib::group_to_multiset_ensures;
    let mut out: Vec<Block> = Vec::new();
    let mut i: usize = 0;
    proof {
        assert(blocks@.subrange(0, 0) =~= Seq::<Block>::empty());
    }
    while i < blocks.len()
        invariant
            i <= blocks@.len(),
            out@.to_multiset() == blocks@.subrange(0, i as int).to_multiset(),
            packing_order(out@),
        decreases blocks@.len() - i,
    {
        let b = blocks[i];
        let mut j: usize = 0;
        while j < out.len() && goes_before_exec(out[j], b)
            invariant
                j <= out@.len(),
                forall|k: int| 0 <= k < j ==> goes_before(#[trigger] out@[k], b),
            decreases out@.len() - j,
        {
            j = j + 1;
        }
        let ghost before = out@;
        out.insert(j, b);
        proof {
            vstd::seq_lib::to_multiset_insert(before, j as int, b);
            assert(blocks@.subrange(0, i + 1) =~= blocks@.subrange(0, i as int).push(b));
            vstd::seq_lib::to_multiset_build(blocks@.subrange(0, i as int), b);
            assert forall|p: int, q: int| 0 <= p < q < out@.len() implies goes_before(#[trigger] out@[p], #[trigger] out@[q]) by {
                if q < j {
                } else if q == j {
                } else if p < j {
                    assert(goes_before(before[p], b));
                    assert(!goes_before(before[j as int], b) || j == before.len());
                } else if p == j {
                    assert(!goes_before(before[j as int], b));
                    if q - 1 > j {
                        assert(goes_before(before[j as int], before[q - 1]));
                    }
                } else {
                    assert(goes_before(before[p - 1], before[q - 1]));
                }
            }
        }
        i = i + 1;
    }
    proof {
        assert(blocks@.subrange(0, blocks@.len() as int) =~= blocks@);
    }
    out
}

/// Where the rest of the blocks go, with the pen at `(x, y)` in a row `row` samples tall
/// so far: a block that does not fit the row's width starts a new row below it, padded,
/// and a block that would pass the tallest image refuses the whole packing. Gives the
/// placements and where the last row ends.
pub open spec fn place_rows(blocks: Seq<Block>, x: int, y: int, row: int) -> Option<(Seq<(usize, LightmapPlacement)>, int)>
    decreases blocks.len(),
{
    if blocks.len() == 0 {
        Some((Seq::empty(), y + row))
    } else {
        let (face, w, h) = blocks[0];
        let wraps = x + w > LIGHTMAP_ATLAS_WIDTH;
        let px = if wraps { 0 } else { x };
        let py = if wraps { y + row + LIGHTMAP_ATLAS_PADDING } else { y };
        let prow = if wraps { 0 } else { row };
        if py + h > LIGHTMAP_ATLAS_MAX_HEIGHT {
            None
        } else {
            let placed = (face, LightmapPlacement { origin: [px as u32, py as u32], extent: [w, h] });
            match place_rows(blocks.drop_first(), px + w + LIGHTMAP_ATLAS_PADDING, py, if h > prow { h as int } else { prow }) {
                None => None,
                Some((rest, end)) => Some((seq![placed] + rest, end)),
            }
        }
    }
}

/// The faces and extents a run of placements holds, as blocks.
pub open spec fn placed_blocks(placements: Seq<(usize, LightmapPlacement)>) -> Seq<Block> {
    placements.map_values(|p: (usize, LightmapPlacement)| (p.0, p.1.extent[0], p.1.extent[1]))
}

/// Where every block goes, packed tallest-first into rows, which leaves far less waste
/// than taking them in face order.
fn place_blocks(sorted: &Vec<Block>) -> (r: Option<(Vec<(usize, LightmapPlacement)>, u32)>)
    requires
        blocks_fit(sorted@),
    ensures
        match r {
            Some((placements, end)) => place_rows(sorted@, 0, 0, 0) == Some((placements@, end as int))
                && end <= LIGHTMAP_ATLAS_MAX_HEIGHT,
            None => place_rows(sorted@, 0, 0, 0) is None,
        },
{
    let mut placements: Vec<(usize, LightmapPlacement)> = Vec::new();
    let mut x: u32 = 0;
    let mut y: u32 = 0;
    let mut row: u32 = 0;
    let mut i: usize = 0;
    proof {
        assert(sorted@.subrange(0, sorted@.len() as int) =~= sorted@);
        assert(placements@ + Seq::<(usize, LightmapPlacement)>::empty() =~= placements@);
    }
    while i < sorted.len()
        invariant
            i <= sorted@.len(),
            blocks_fit(sorted@),
            x <= LIGHTMAP_ATLAS_WIDTH + LIGHTMAP_ATLAS_PADDING,
            y <= LIGHTMAP_ATLAS_MAX_HEIGHT,
            row <= LIGHTMAP_ATLAS_MAX_HEIGHT,
            y + row <= LIGHTMAP_ATLAS_MAX_HEIGHT,
            place_rows(sorted@, 0, 0, 0) == match place_rows(sorted@.subrange(i as int, sorted@.len() as int), x as int, y as int, row as int) {
                None => None,
                Some((rest, end)) => Some((placements@ + rest, end)),
            },
        decreases sorted@.len() - i,
    {
        let ghost rest = sorted@.subrange(i as int, sorted@.len() as int);
        proof {
            assert(rest[0] == sorted@[i as int]);
            assert(rest.drop_first() =~= sorted@.subrange(i + 1, sorted@.len() as int));
        }
        let (face, width, height) = sorted[i];
        if x + width > LIGHTMAP_ATLAS_WIDTH {
            x = 0;
            y = y + row + LIGHTMAP_ATLAS_PADDING;
            row = 0;
        }
        if y + height > LIGHTMAP_ATLAS_MAX_HEIGHT {
            return None;
        }
        let placed = (face, LightmapPlacement { origin: [x, y], extent: [width, height] });
        let ghost before = placements@;
        placements.push(placed);
        proof {
            let tail = place_rows(rest.drop_first(), x + width + LIGHTMAP_ATLAS_PADDING, y as int, if height > row { height as int } else { row as int });
            if let Some((more, end)) = tail {
                assert(before + (seq![placed] + more) =~= placements@ + more);
            }
        }
        x = x + width + LIGHTMAP_ATLAS_PADDING;
        if height > row {
            row = height;
        }
        i = i + 1;
    }
    proof {
        assert(placements@ + Seq::<(usize, LightmapPlacement)>::empty() =~= placements@);
    }
    Some((placements, y + row))
}

/// A packing gives back the blocks it was handed, in the order it took them.
pub proof fn lemma_place_rows_blocks(blocks: Seq<Block>, x: int, y: int, row: int)
    ensures
        place_rows(blocks, x, y, row) matches Some((placements, end)) ==> placed_blocks(placements) == blocks,
    decreases blocks.len(),
{
    if blocks.len() > 0 {
        let (face, w, h) = blocks[0];
        let wraps = x + w > LIGHTMAP_ATLAS_WIDTH;
        let px = if wraps { 0 } else { x };
        let py = if wraps { y + row + LIGHTMAP_ATLAS_PADDING } else { y };
        let prow = if wraps { 0 } else { row };
        let next_row = if h > prow { h as int } else { prow };
        lemma_place_rows_blocks(blocks.drop_first(), px + w + LIGHTMAP_ATLAS_PADDING, py, next_row);
        if let Some((placements, end)) = place_rows(blocks, x, y, row) {
            let rest = place_rows(blocks.drop_first(), px + w + LIGHTMAP_ATLAS_PADDING, py, next_row)->Some_0.0;
            assert(placements == seq![placements[0]] + rest);
            assert(placed_blocks(placements) =~= seq![blocks[0]] + placed_blocks(rest));
            assert(blocks =~= seq![blocks[0]] + blocks.drop_first());
        }
    }
}

/// Block `b` starts at or after the pen at `(x, y)` in its row, or in a later row.
pub open spec fn placed_after(b: LightmapPlacement, x: int, y: int, row: int) -> bool {
    (b.origin[1] == y && b.origin[0] >= x) || b.origin[1] >= y + row + LIGHTMAP_ATLAS_PADDING
}

/// Block `b` lies past block `a` with the padding between them, across or down.
pub open spec fn padded_apart(a: LightmapPlacement, b: LightmapPlacement) -> bool {
    a.origin[0] + a.extent[0] + LIGHTMAP_ATLAS_PADDING <= b.origin[0] || a.origin[1] + a.extent[1]
        + LIGHTMAP_ATLAS_PADDING <= b.origin[1]
}

/// Block `b` lies within an image `width` samples wide and `height` tall.
pub open spec fn placed_within(b: LightmapPlacement, width: int, height: int) -> bool {
    b.origin[0] + b.extent[0] <= width && b.origin[1] + b.extent[1] <= height
}

proof fn lemma_place_rows_apart(blocks: Seq<Block>, x: int, y: int, row: int)
    requires
        blocks_fit(blocks),
        x >= 0,
        y >= 0,
        row >= 0,
    ensures
        place_rows(blocks, x, y, row) matches Some((ps, end)) ==> {
            &&& end >= y + row
            &&& forall|i: int| 0 <= i < ps.len() ==> placed_after(#[trigger] ps[i].1, x, y, row)
                && placed_within(ps[i].1, LIGHTMAP_ATLAS_WIDTH as int, end)
            &&& forall|i: int, j: int| 0 <= i < j < ps.len() ==> padded_apart(#[trigger] ps[i].1, #[trigger] ps[j].1)
        },
    decreases blocks.len(),
{
    if blocks.len() > 0 {
        let (face, w, h) = blocks[0];
        let wraps = x + w > LIGHTMAP_ATLAS_WIDTH;
        let px = if wraps { 0 } else { x };
        let py = if wraps { y + row + LIGHTMAP_ATLAS_PADDING } else { y };
        let prow = if wraps { 0 } else { row };
        let next_row = if h > prow { h as int } else { prow };
        let tail = blocks.drop_first();
        assert(blocks_fit(tail)) by {
            assert forall|i: int| 0 <= i < tail.len() implies #[trigger] tail[i].1 + LIGHTMAP_ATLAS_PADDING
                <= LIGHTMAP_ATLAS_WIDTH && tail[i].2 <= 0x8000_0000u32 by {
                assert(tail[i] == blocks[i + 1]);
            }
        }
        assert(blocks[0].1 + LIGHTMAP_ATLAS_PADDING <= LIGHTMAP_ATLAS_WIDTH);
        lemma_place_rows_apart(tail, px + w + LIGHTMAP_ATLAS_PADDING, py, next_row);
        if let Some((ps, end)) = place_rows(blocks, x, y, row) {
            let rest = place_rows(tail, px + w + LIGHTMAP_ATLAS_PADDING, py, next_row)->Some_0.0;
            let head = LightmapPlacement { origin: [px as u32, py as u32], extent: [w, h] };
            assert(ps == seq![(face, head)] + rest);
            assert(head.origin[0] == px && head.origin[1] == py);
            assert forall|i: int| 0 <= i < ps.len() implies placed_after(#[trigger] ps[i].1, x, y, row) && placed_within(
                ps[i].1,
                LIGHTMAP_ATLAS_WIDTH as int,
                end,
            ) by {
                if i > 0 {
                    assert(ps[i] == rest[i - 1]);
                }
            }
            assert forall|i: int, j: int| 0 <= i < j < ps.len() implies padded_apart(#[trigger] ps[i].1, #[trigger] ps[j].1) by {
                assert(ps[j] == rest[j - 1]);
                if i > 0 {
                    assert(ps[i] == rest[i - 1]);
                } else {
                    assert(placed_after(rest[j - 1].1, px + w + LIGHTMAP_ATLAS_PADDING, py, next_row));
                }
            }
        }
    }
}

/// The face-to-placement map a run of placements leaves, a later placement of a face
/// taking the place of an earlier one.
pub open spec fn placement_map(p: Seq<(usize, LightmapPlacement)>) -> Map<usize, LightmapPlacement>
    decreases p.len(),
{
    if p.len() == 0 {
        Map::empty()
    } else {
        placement_map(p.drop_last()).insert(p.last().0, p.last().1)
    }
}

proof fn lemma_placement_map_from(p: Seq<(usize, LightmapPlacement)>, face: usize)
    requires
        placement_map(p).contains_key(face),
    ensures
        exists|i: int| 0 <= i < p.len() && #[trigger] p[i].0 == face && p[i].1 == placement_map(p)[face],
    decreases p.len(),
{
    if p.last().0 != face {
        lemma_placement_map_from(p.drop_last(), face);
        let i = choose|i: int| 0 <= i < p.drop_last().len() && #[trigger] p.drop_last()[i].0 == face
            && p.drop_last()[i].1 == placement_map(p.drop_last())[face];
        assert(p[i] == p.drop_last()[i]);
    } else {
        assert(p[p.len() - 1].0 == face);
    }
}

/// Packed blocks lie inside the image and keep the padding between any two of them, so
/// that filtering across one block's edge cannot reach another surface's lighting.
pub proof fn lemma_atlas_blocks_apart(blocks: Seq<Block>, a: LightmapAtlasView)
    requires
        blocks_fit(blocks),
        laid_out(blocks, a),
    ensures
        forall|f: usize| #[trigger] a.placements.contains_key(f) ==> placed_within(
            a.placements[f],
            a.width as int,
            a.height as int,
        ),
        forall|f: usize, g: usize|
            #[trigger] a.placements.contains_key(f) && #[trigger] a.placements.contains_key(g) && f != g
                ==> padded_apart(a.placements[f], a.placements[g]) || padded_apart(a.placements[g], a.placements[f]),
{
    let p = choose|p: Seq<(usize, LightmapPlacement)>| laid_out_as(blocks, a, p);
    let placed = placed_blocks(p);
    assert forall|i: int| 0 <= i < placed.len() implies #[trigger] placed[i].1 + LIGHTMAP_ATLAS_PADDING <= LIGHTMAP_ATLAS_WIDTH
        && placed[i].2 <= 0x8000_0000u32 by {
        broadcast use vstd::seq_lib::group_to_multiset_ensures;
        assert(placed.to_multiset().count(placed[i]) > 0);
        assert(blocks.contains(placed[i]));
    }
    lemma_place_rows_apart(placed, 0, 0, 0);
    assert forall|f: usize| #[trigger] a.placements.contains_key(f) implies placed_within(
        a.placements[f],
        a.width as int,
        a.height as int,
    ) by {
        lemma_placement_map_from(p, f);
    }
    assert forall|f: usize, g: usize|
        #[trigger] a.placements.contains_key(f) && #[trigger] a.placements.contains_key(g) && f != g implies padded_apart(
        a.placements[f],
        a.placements[g],
    ) || padded_apart(a.placements[g], a.placements[f]) by {
        lemma_placement_map_from(p, f);
        lemma_placement_map_from(p, g);
        let i = choose|i: int| 0 <= i < p.len() && #[trigger] p[i].0 == f && p[i].1 == placement_map(p)[f];
        let j = choose|j: int| 0 <= j < p.len() && #[trigger] p[j].0 == g && p[j].1 == placement_map(p)[g];
        assert(i != j);
        if i < j {
            assert(padded_apart(p[i].1, p[j].1));
        } else {
            assert(padded_apart(p[j].1, p[i].1));
        }
    }
}

/// Every drawn surface's lightmap gathered into one image.
///
/// A map's surfaces each carry a handful of samples, and binding thousands of tiny
/// textures would cost more than drawing the world. Packing them into one image
/// instead means a surface's lighting is reached by a coordinate.
#[derive(Debug, Clone)]
pub struct LightmapAtlas {
    width: u32,
    height: u32,
    /// Blue-green-red-alpha, which is the one uncompressed layout the renderer takes.
    pixels: Vec<u8>,
    placements: std::collections::HashMap<usize, LightmapPlacement>,
}

pub struct LightmapAtlasView {
    pub width: u32,
    pub height: u32,
    pub pixels: Seq<u8>,
    /// Where each face's block sits.
    pub placements: Map<usize, LightmapPlacement>,
}

impl View for LightmapAtlas {
    type V = LightmapAtlasView;

    closed spec fn view(&self) -> LightmapAtlasView {
        LightmapAtlasView { width: self.width, height: self.height, pixels: self.pixels@, placements: self.placements@ }
    }
}

/// The layout blocks are packed into along the placements `p`: the blocks in packing
/// order, placed row by row, each face at its block, and an image tall enough for the
/// last row and never empty.
pub open spec fn laid_out_as(blocks: Seq<Block>, a: LightmapAtlasView, p: Seq<(usize, LightmapPlacement)>) -> bool {
    let placed = placed_blocks(p);
    &&& a.width == LIGHTMAP_ATLAS_WIDTH
    &&& placed.to_multiset() == blocks.to_multiset()
    &&& packing_order(placed)
    &&& place_rows(placed, 0, 0, 0) matches Some((q, end)) && q == p && a.height == if end < 1 {
        1
    } else {
        end
    }
    &&& a.placements == placement_map(p)
    &&& a.pixels.len() == a.width * a.height * 4
}

/// The layout blocks are packed into, along some run of placements.
pub open spec fn laid_out(blocks: Seq<Block>, a: LightmapAtlasView) -> bool {
    exists|p: Seq<(usize, LightmapPlacement)>| laid_out_as(blocks, a, p)
}

fn blank_image(n: usize) -> (r: Vec<u8>)
    ensures
        r@ == Seq::new(n as nat, |i: int| 0u8),
{
    let mut out: Vec<u8> = Vec::new();
    while out.len() < n
        invariant
            out@.len() <= n,
            out@ == Seq::new(out@.len(), |i: int| 0u8),
        decreases n - out@.len(),
    {
        out.push(0);
        proof {
            assert(out@ =~= Seq::new(out@.len(), |i: int| 0u8));
        }
    }
    out
}

/// Each face's placement, the later where a face was placed more than once.
fn placement_table(p: &Vec<(usize, LightmapPlacement)>) -> (r: std::collections::HashMap<usize, LightmapPlacement>)
    ensures
        r@ == placement_map(p@),
{
    broadcast use vstd::std_specs::hash::group_hash_axioms;
    let mut table: std::collections::HashMap<usize, LightmapPlacement> = std::collections::HashMap::new();
    let mut i: usize = 0;
    while i < p.len()
        invariant
            i <= p@.len(),
            table@ == placement_map(p@.subrange(0, i as int)),
        decreases p@.len() - i,
    {
        let (face, placement) = p[i];
        table.insert(face, placement);
        i = i + 1;
        proof {
            assert(p@.subrange(0, i as int).drop_last() =~= p@.subrange(0, i - 1));
        }
    }
    proof {
        assert(p@.subrange(0, i as int) =~= p@);
    }
    table
}

impl LightmapAtlas {
    /// Packs blocks tallest-first into rows of the image, refusing a packing that would
    /// need a taller image than any device is asked to take. The image starts black.
    pub fn lay_out(blocks: &Vec<Block>) -> (r: Result<Self>)
        requires
            blocks_fit(blocks@),
        ensures
            match r {
                Ok(a) => laid_out(blocks@, a@) && a@.pixels == Seq::new(a@.pixels.len(), |i: int| 0u8),
                Err(e) => e == (Error::LightmapAtlasTooLarge { blocks: blocks@.len() as usize, limit: LIGHTMAP_ATLAS_MAX_HEIGHT })
                    && exists|s: Seq<Block>| s.to_multiset() == blocks@.to_multiset() && packing_order(s) && place_rows(s, 0, 0, 0) is None,
            },
    {
        let sorted = sort_blocks(blocks);
        proof {
            assert forall|i: int| 0 <= i < sorted@.len() implies #[trigger] sorted@[i].1 + LIGHTMAP_ATLAS_PADDING <= LIGHTMAP_ATLAS_WIDTH
                && sorted@[i].2 <= 0x8000_0000u32 by {
                broadcast use vstd::seq_lib::group_to_multiset_ensures;
                assert(sorted@.to_multiset().count(sorted@[i]) > 0);
                assert(blocks@.contains(sorted@[i]));
            }
        }
        match place_blocks(&sorted) {
            None => Err(Error::LightmapAtlasTooLarge { blocks: blocks.len(), limit: LIGHTMAP_ATLAS_MAX_HEIGHT }),
            Some((placements, end)) => {
                proof {
                    lemma_place_rows_blocks(sorted@, 0, 0, 0);
                }
                let height: u32 = if end < 1 { 1 } else { end };
                assert(LIGHTMAP_ATLAS_WIDTH as usize * height as usize * 4 <= 0x400_0000) by (nonlinear_arith)
                    requires
                        height <= 8192,
                {
                }
                let pixels = blank_image(LIGHTMAP_ATLAS_WIDTH as usize * height as usize * 4);
                let map = placement_table(&placements);
                let a = LightmapAtlas { width: LIGHTMAP_ATLAS_WIDTH, height, pixels, placements: map };
                proof {
                    assert(laid_out_as(blocks@, a@, placements@));
                }
                Ok(a)
            },
        }
    }

    /// The same atlas with its image replaced by one of the same size.
    pub fn with_pixels(self, pixels: Vec<u8>) -> (r: Self)
        requires
            pixels@.len() == self@.pixels.len(),
        ensures
            r@.width == self@.width,
            r@.height == self@.height,
            r@.placements == self@.placements,
            r@.pixels == pixels@,
    {
        LightmapAtlas { width: self.width, height: self.height, pixels, placements: self.placements }
    }

    pub fn width(&self) -> (r: u32)
        ensures
            r == self@.width,
    {
        self.width
    }

    pub fn height(&self) -> (r: u32)
        ensures
            r == self@.height,
    {
        self.height
    }

    pub fn pixels(&self) -> (r: &[u8])
        ensures
            r@ == self@.pixels,
    {
        self.pixels.as_slice()
    }

    /// How many faces have a block.
    pub fn len(&self) -> (r: usize)
        ensures
            r == self@.placements.len(),
    {
        broadcast use vstd::std_specs::hash::group_hash_axioms;
        self.placements.len()
    }

    pub fn is_empty(&self) -> (r: bool)
        ensures
            r == (self@.placements.len() == 0),
    {
        broadcast use vstd::std_specs::hash::group_hash_axioms;
        self.placements.len() == 0
    }

    /// Where a face's block sits, the last placed where a face was given more than once.
    pub fn placement(&self, face: usize) -> (r: Option<LightmapPlacement>)
        ensures
            r == if self@.placements.contains_key(face) {
                Some(self@.placements[face])
            } else {
                None
            },
    {
        broadcast use vstd::std_specs::hash::group_hash_axioms;
        match self.placements.get(&face) {
            Some(p) => Some(*p),
            None => None,
        }
    }
}

// ---------------------------------------------------------------------------
// Which blocks a draw packs
// ---------------------------------------------------------------------------

/// The block a drawn face's lightmap takes, none for a face without one: its samples
/// sit at the corners of its luxels, so the block is one wider and one taller than the
/// extent the face states, and it has to leave room for the padding within a row.
pub open spec fn face_block(samples: Seq<u8>, f: Face, face: usize) -> core::result::Result<Option<Block>, Error> {
    match face_samples_spec(samples, f) {
        Err(e) => Err(e),
        Ok(None) => Ok(None),
        Ok(Some(_)) => {
            let width = f.lightmap_size[0] + 1;
            let height = f.lightmap_size[1] + 1;
            if width + LIGHTMAP_ATLAS_PADDING > LIGHTMAP_ATLAS_WIDTH {
                Err(Error::InvalidLightmapExtent { size: f.lightmap_size })
            } else {
                Ok(Some((face, width as u32, height as u32)))
            }
        },
    }
}

/// The blocks of the first `n` drawn surfaces, in the order drawn.
pub open spec fn blocks_upto(v: SurfacesView, samples: Seq<u8>, drawn: Seq<Drawn>, n: nat) -> core::result::Result<
    Seq<Block>,
    Error,
>
    decreases n,
{
    if n == 0 {
        Ok(Seq::empty())
    } else {
        match blocks_upto(v, samples, drawn, (n - 1) as nat) {
            Err(e) => Err(e),
            Ok(blocks) => {
                let face = drawn[n - 1].2;
                match face_block(samples, v.faces[face as int], face) {
                    Err(e) => Err(e),
                    Ok(None) => Ok(blocks),
                    Ok(Some(b)) => Ok(blocks.push(b)),
                }
            },
        }
    }
}

/// The blocks a world draw of `faces` packs: one for each surface the draw shows that
/// has a lightmap, so each drawn surface has a placement and nothing is packed that
/// is never drawn.
pub open spec fn lightmap_blocks_spec(v: SurfacesView, m: MaterialsView, samples: Seq<u8>, faces: Seq<usize>) -> core::result::Result<
    Seq<Block>,
    Error,
> {
    match gather(v, m, seq![faces], 1) {
        Err(e) => Err(e),
        Ok(drawn) => blocks_upto(v, samples, drawn, drawn.len()),
    }
}

proof fn lemma_blocks_fail(v: SurfacesView, samples: Seq<u8>, drawn: Seq<Drawn>, k: nat, n: nat)
    requires
        k <= n,
        blocks_upto(v, samples, drawn, k) is Err,
    ensures
        blocks_upto(v, samples, drawn, n) == blocks_upto(v, samples, drawn, k),
    decreases n - k,
{
    if k < n {
        lemma_blocks_fail(v, samples, drawn, k, (n - 1) as nat);
    }
}

proof fn lemma_blocks_fit(v: SurfacesView, samples: Seq<u8>, drawn: Seq<Drawn>, n: nat)
    ensures
        blocks_upto(v, samples, drawn, n) matches Ok(blocks) ==> blocks_fit(blocks),
    decreases n,
{
    if n > 0 {
        lemma_blocks_fit(v, samples, drawn, (n - 1) as nat);
        if let Ok(blocks) = blocks_upto(v, samples, drawn, n) {
            let prev = blocks_upto(v, samples, drawn, (n - 1) as nat)->Ok_0;
            assert forall|i: int| 0 <= i < blocks.len() implies #[trigger] blocks[i].1 + LIGHTMAP_ATLAS_PADDING
                <= LIGHTMAP_ATLAS_WIDTH && blocks[i].2 <= 0x8000_0000u32 by {
                if i < prev.len() {
                    assert(blocks[i] == prev[i]);
                }
            }
        }
    }
}

/// Face `face` of `v` has a lightmap in `samples`.
pub open spec fn has_lightmap(v: SurfacesView, samples: Seq<u8>, face: usize) -> bool {
    face_samples_spec(samples, v.faces[face as int]) matches Ok(Some(_))
}

/// Every block of the first `n` drawn surfaces is a lit one of them, and every lit one
/// of them has a block.
pub open spec fn blocks_follow(v: SurfacesView, samples: Seq<u8>, drawn: Seq<Drawn>, n: nat, blocks: Seq<Block>) -> bool {
    &&& forall|i: int| 0 <= i < blocks.len() ==> has_lightmap(v, samples, #[trigger] blocks[i].0) && exists|j: int|
        0 <= j < n && #[trigger] drawn[j].2 == blocks[i].0
    &&& forall|j: int| 0 <= j < n && has_lightmap(v, samples, #[trigger] drawn[j].2) ==> exists|i: int|
        0 <= i < blocks.len() && #[trigger] blocks[i].0 == drawn[j].2
}

proof fn lemma_blocks_upto_follow(v: SurfacesView, samples: Seq<u8>, drawn: Seq<Drawn>, n: nat)
    requires
        n <= drawn.len(),
        blocks_upto(v, samples, drawn, n) is Ok,
    ensures
        blocks_follow(v, samples, drawn, n, blocks_upto(v, samples, drawn, n)->Ok_0),
    decreases n,
{
    if n > 0 {
        let k = (n - 1) as nat;
        lemma_blocks_upto_follow(v, samples, drawn, k);
        let prev = blocks_upto(v, samples, drawn, k)->Ok_0;
        let blocks = blocks_upto(v, samples, drawn, n)->Ok_0;
        let face = drawn[k as int].2;
        match face_block(samples, v.faces[face as int], face) {
            Ok(None) => {
                assert(!has_lightmap(v, samples, face));
                assert forall|j: int| 0 <= j < n && has_lightmap(v, samples, #[trigger] drawn[j].2) implies exists|i: int|
                    0 <= i < blocks.len() && #[trigger] blocks[i].0 == drawn[j].2 by {
                    assert(j < k);
                }
                assert forall|i: int| 0 <= i < blocks.len() implies has_lightmap(v, samples, #[trigger] blocks[i].0) && exists|j: int|
                    0 <= j < n && #[trigger] drawn[j].2 == blocks[i].0 by {
                    let j = choose|j: int| 0 <= j < k && #[trigger] drawn[j].2 == prev[i].0;
                    assert(drawn[j].2 == blocks[i].0);
                }
            },
            Ok(Some(b)) => {
                assert(blocks == prev.push(b));
                assert(b.0 == face);
                assert(has_lightmap(v, samples, face));
                assert forall|i: int| 0 <= i < blocks.len() implies has_lightmap(v, samples, #[trigger] blocks[i].0) && exists|j: int|
                    0 <= j < n && #[trigger] drawn[j].2 == blocks[i].0 by {
                    if i < prev.len() {
                        assert(blocks[i] == prev[i]);
                        let j = choose|j: int| 0 <= j < k && #[trigger] drawn[j].2 == prev[i].0;
                        assert(drawn[j].2 == blocks[i].0);
                    } else {
                        assert(drawn[k as int].2 == blocks[i].0);
                    }
                }
                assert forall|j: int| 0 <= j < n && has_lightmap(v, samples, #[trigger] drawn[j].2) implies exists|i: int|
                    0 <= i < blocks.len() && #[trigger] blocks[i].0 == drawn[j].2 by {
                    if j < k {
                        let i = choose|i: int| 0 <= i < prev.len() && #[trigger] prev[i].0 == drawn[j].2;
                        assert(blocks[i] == prev[i]);
                    } else {
                        assert(blocks[prev.len() as int].0 == drawn[j].2);
                    }
                }
            },
            Err(_) => {},
        }
    }
}

/// The lightmap atlas of a world draw of `faces` holds a block for each surface the
/// draw shows that has a lightmap, and for no other: the surfaces are picked by the
/// same gathering that lays out the draw's triangles.
pub proof fn lemma_blocks_are_the_drawn_lit_surfaces(
    v: SurfacesView,
    m: MaterialsView,
    samples: Seq<u8>,
    faces: Seq<usize>,
)
    requires
        lightmap_blocks_spec(v, m, samples, faces) is Ok,
    ensures
        gather(v, m, seq![faces], 1) is Ok,
        blocks_follow(
            v,
            samples,
            gather(v, m, seq![faces], 1)->Ok_0,
            gather(v, m, seq![faces], 1)->Ok_0.len(),
            lightmap_blocks_spec(v, m, samples, faces)->Ok_0,
        ),
{
    let drawn = gather(v, m, seq![faces], 1)->Ok_0;
    lemma_blocks_upto_follow(v, samples, drawn, drawn.len());
}

/// The blocks a world draw of `faces` packs, in the order the surfaces are drawn.
pub fn lightmap_blocks(surfaces: &Surfaces, materials: &Materials, lighting: &Lightmaps, faces: &[usize]) -> (r: Result<
    Vec<Block>,
>)
    ensures
        match r {
            Ok(blocks) => lightmap_blocks_spec(surfaces@, materials@, lighting@.samples, faces@) == Ok::<Seq<Block>, Error>(
                blocks@,
            ) && blocks_fit(blocks@),
            Err(e) => lightmap_blocks_spec(surfaces@, materials@, lighting@.samples, faces@) == Err::<Seq<Block>, Error>(e),
        },
{
    let mut listed: Vec<usize> = Vec::new();
    let mut i: usize = 0;
    while i < faces.len()
        invariant
            i <= faces@.len(),
            listed@ == faces@.subrange(0, i as int),
        decreases faces@.len() - i,
    {
        listed.push(faces[i]);
        i = i + 1;
        proof {
            assert(listed@ =~= faces@.subrange(0, i as int));
        }
    }
    proof {
        assert(listed@ =~= faces@);
    }
    let groups = vec![listed];
    proof {
        assert(groups@.map_values(|g: Vec<usize>| g@) =~= seq![faces@]);
    }
    let drawn = match gather_drawn(surfaces, materials, &groups) {
        Ok(d) => d,
        Err(e) => return Err(e),
    };
    proof {
        lemma_gather_writable(surfaces@, materials@, seq![faces@], 1);
        lemma_blocks_fit(surfaces@, lighting@.samples, drawn@, drawn@.len());
    }
    let ghost v = surfaces@;
    let all = surfaces.faces();
    let mut blocks: Vec<Block> = Vec::new();
    let mut n: usize = 0;
    while n < drawn.len()
        invariant
            n <= drawn@.len(),
            v == surfaces@,
            all@ == v.faces,
            writable(v, drawn@),
            lightmap_blocks_spec(surfaces@, materials@, lighting@.samples, faces@) == blocks_upto(
                v,
                lighting@.samples,
                drawn@,
                drawn@.len(),
            ),
            blocks_upto(v, lighting@.samples, drawn@, n as nat) == Ok::<Seq<Block>, Error>(blocks@),
        decreases drawn@.len() - n,
    {
        let face = drawn[n].2;
        let entry = &all[face];
        let found = match lighting.face_samples(entry) {
            Ok(f) => f,
            Err(e) => {
                proof {
                    lemma_blocks_fail(v, lighting@.samples, drawn@, (n + 1) as nat, drawn@.len());
                }
                return Err(e);
            },
        };
        if found.is_some() {
            let width = entry.lightmap_size[0] + 1;
            let height = entry.lightmap_size[1] + 1;
            if width as i64 + LIGHTMAP_ATLAS_PADDING as i64 > LIGHTMAP_ATLAS_WIDTH as i64 {
                proof {
                    lemma_blocks_fail(v, lighting@.samples, drawn@, (n + 1) as nat, drawn@.len());
                }
                return Err(Error::InvalidLightmapExtent { size: entry.lightmap_size });
            }
            blocks.push((face, width as u32, height as u32));
        }
        n = n + 1;
    }
    Ok(blocks)
}

impl LightmapAtlas {
    /// Places the lightmap of every surface a world draw of `faces` shows, tallest
    /// first into padded rows, with the image still black: the faces are filtered
    /// exactly as the draw filters them, so each drawn surface has a placement and
    /// nothing is placed that is never drawn.
    pub fn place(surfaces: &Surfaces, materials: &Materials, lighting: &Lightmaps, faces: &[usize]) -> (r: Result<Self>)
        ensures
            match r {
                Ok(a) => lightmap_blocks_spec(surfaces@, materials@, lighting@.samples, faces@) matches Ok(blocks) && laid_out(
                    blocks,
                    a@,
                ) && a@.pixels == Seq::new(a@.pixels.len(), |i: int| 0u8),
                Err(e) => match lightmap_blocks_spec(surfaces@, materials@, lighting@.samples, faces@) {
                    Err(refused) => e == refused,
                    Ok(blocks) => e == (Error::LightmapAtlasTooLarge {
                        blocks: blocks.len() as usize,
                        limit: LIGHTMAP_ATLAS_MAX_HEIGHT,
                    }) && exists|s: Seq<Block>| s.to_multiset() == blocks.to_multiset() && packing_order(s) && place_rows(s, 0, 0, 0) is None,
                },
            },
    {
        let blocks = match lightmap_blocks(surfaces, materials, lighting, faces) {
            Ok(b) => b,
            Err(e) => return Err(e),
        };
        Self::lay_out(&blocks)
    }
}

} // verus!
