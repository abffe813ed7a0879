//! The fixed-size records of the lumps the world is built from, each lump read as a run
//! of equal records after checking that they divide it exactly.
use vstd::prelude::*;
use crate::binary::{Reader, le_value, signed_value, lemma_pow256_values};
use crate::bsp::{
    Bsp, Error, Result, BSP_LUMP_COUNT, LUMP_EDGES, LUMP_SURFEDGES, LUMP_FACES, LUMP_LEAFFACES,
    LUMP_NODES, LUMP_LEAVES, LUMP_TEXDATA_STRING_TABLE, LUMP_VERTEXES, lump_bytes, u32_at, i32_at,
};

verus! {

pub const VERTEX_SIZE: usize = 12;
pub const NODE_SIZE: usize = 32;
pub const LEAF_V0_SIZE: usize = 56;
pub const LEAF_V1_SIZE: usize = 32;
pub const EDGE_SIZE: usize = 4;
pub const SURFEDGE_SIZE: usize = 4;
pub const FACE_SIZE: usize = 56;
pub const LEAFFACE_SIZE: usize = 2;
pub const TEXDATA_STRING_TABLE_SIZE: usize = 4;

/// The style value marking a lightmap layer that is not stored.
pub const LIGHT_STYLE_NONE: u8 = 255;

/// The little-endian `u16` at `off`.
pub open spec fn u16_at(s: Seq<u8>, off: int) -> u16 {
    le_value(s.subrange(off, off + 2)) as u16
}

/// The little-endian two's complement `i16` at `off`.
pub open spec fn i16_at(s: Seq<u8>, off: int) -> i16 {
    signed_value(le_value(s.subrange(off, off + 2)), 2) as i16
}

#[derive(Debug, Clone, Copy, PartialEq, Eq)]
pub struct Node {
    pub plane: i32,
    pub children: [i32; 2],
    pub mins: [i16; 3],
    pub maxs: [i16; 3],
    pub first_face: u16,
    pub face_count: u16,
    pub area: i16,
}

#[derive(Debug, Clone, Copy, PartialEq, Eq)]
pub struct Leaf {
    pub contents: i32,
    pub cluster: i16,
    pub area: u16,
    pub flags: u8,
    pub mins: [i16; 3],
    pub maxs: [i16; 3],
    pub first_leaf_face: u16,
    pub leaf_face_count: u16,
    pub first_leaf_brush: u16,
    pub leaf_brush_count: u16,
    pub water_data_id: i16,
}

/// One world surface, as the format stores it.
///
/// A face does not hold its own vertices: it names a run of surface edges,
/// each of which names an edge, each of which names two vertices. The run is
/// walked in order so the polygon comes out wound the way the map compiler
/// wound it, which is what decides which side of the surface faces out.
#[derive(Debug, Clone, Copy, PartialEq, Eq)]
pub struct Face {
    pub plane: u16,
    /// Which side of the plane the surface faces, as the format's flag.
    pub side: u8,
    pub first_surfedge: i32,
    pub surfedge_count: u16,
    pub texinfo: i16,
    /// The displacement this face is the boundary of, or negative for none.
    /// This is sixteen bits wide and is followed by a second sixteen-bit
    /// field, so reading the pair as one number leaves a real displacement
    /// looking like a negative one.
    pub displacement: i16,
    /// Which light style each of the face's lightmap layers belongs to.
    /// `0` is the static lighting every lit surface has, and `255` marks a
    /// layer that is not present.
    pub styles: [u8; 4],
    /// Where this face's lightmap samples begin in the lighting lump, or
    /// negative for a face with no lightmap at all.
    pub light_offset: i32,
    /// The lightmap's origin on the surface, in luxels.
    pub lightmap_mins: [i32; 2],
    /// The lightmap's extent, in luxels, one less than the samples stored:
    /// a size of zero still has one sample, because the samples are at the
    /// corners of the luxel grid rather than inside it.
    pub lightmap_size: [i32; 2],
}

/// How many of the leading styles are present, stopping at the first absent one.
pub open spec fn style_run(styles: Seq<u8>, n: nat) -> nat
    decreases n,
{
    if n == 0 {
        0
    } else if n > styles.len() || styles[0] == LIGHT_STYLE_NONE {
        0
    } else {
        1 + style_run(styles.drop_first(), (n - 1) as nat)
    }
}

/// Samples per style: one more than the extent along each axis, where that is a `usize`.
pub open spec fn lightmap_samples(size: [i32; 2]) -> Option<usize> {
    let w = size[0] + 1;
    let h = size[1] + 1;
    if size[0] == i32::MAX || size[1] == i32::MAX || w < 0 || h < 0 || w * h > usize::MAX {
        None
    } else {
        Some((w * h) as usize)
    }
}

impl Face {
    /// Whether this surface is the visible side of a displacement, whose
    /// geometry lives in a separate lump rather than in this face's edges.
    pub fn is_displacement(&self) -> (r: bool)
        ensures
            r == (self.displacement >= 0),
    {
        self.displacement >= 0
    }

    /// How many lightmap samples this face stores per style.
    ///
    /// The grid is one wider and one taller than the extent, because the
    /// samples sit at the corners of the luxels rather than in their middles.
    pub fn lightmap_sample_count(&self) -> (r: Option<usize>)
        ensures
            r == lightmap_samples(self.lightmap_size),
    {
        let width = match self.lightmap_size[0].checked_add(1) {
            Some(w) => w,
            None => return None,
        };
        let height = match self.lightmap_size[1].checked_add(1) {
            Some(h) => h,
            None => return None,
        };
        if width < 0 || height < 0 {
            return None;
        }
        (width as usize).checked_mul(height as usize)
    }

    /// How many light styles this face stores a layer for.
    ///
    /// A lit surface always has the static layer, and may have up to three
    /// more for lights that switch or flicker.
    pub fn light_style_count(&self) -> (r: usize)
        ensures
            r == style_run(self.styles@, 4),
    {
        let mut count: usize = 0;
        proof {
            assert(self.styles@.subrange(0, 4) =~= self.styles@);
        }
        while count < 4 && self.styles[count] != LIGHT_STYLE_NONE
            invariant
                count <= 4,
                style_run(self.styles@, 4) == count + style_run(self.styles@.subrange(count as int, 4), (4 - count) as nat),
            decreases 4 - count,
        {
            proof {
                assert(self.styles@.subrange(count as int, 4).drop_first() =~= self.styles@.subrange(count + 1, 4));
            }
            count = count + 1;
        }
        proof {
            if count < 4 {
                assert(self.styles@.subrange(count as int, 4)[0] == self.styles@[count as int]);
            }
        }
        count
    }

    pub fn has_lightmap(&self) -> (r: bool)
        ensures
            r == (self.light_offset >= 0 && style_run(self.styles@, 4) != 0),
    {
        self.light_offset >= 0 && self.light_style_count() != 0
    }
}

// ---------------------------------------------------------------------------
// Reading records
// ---------------------------------------------------------------------------

/// The bytes a core lump holds, refusing one stored compressed.
pub open spec fn core_lump_spec(h: crate::bsp::HeaderView, s: Seq<u8>, index: int) -> core::result::Result<Seq<u8>, Error> {
    if h.lumps[index].uncompressed_size != 0 {
        Err(Error::CompressedCoreLump(index as usize))
    } else {
        Ok(lump_bytes(h, s, index))
    }
}

/// The bytes of a lump the world is read from, which must be stored uncompressed.
pub fn core_lump<'a>(bsp: &Bsp<'a>, index: usize) -> (r: Result<&'a [u8]>)
    requires
        index < BSP_LUMP_COUNT,
    ensures
        match r {
            Ok(b) => core_lump_spec(bsp@.header, bsp@.bytes, index as int) == Ok::<Seq<u8>, Error>(b@),
            Err(e) => core_lump_spec(bsp@.header, bsp@.bytes, index as int) == Err::<Seq<u8>, Error>(e),
        },
{
    if bsp.header().lumps[index].uncompressed_size != 0 {
        return Err(Error::CompressedCoreLump(index));
    }
    match bsp.lump(index) {
        Some(b) => Ok(b),
        None => Err(Error::CompressedCoreLump(index)),
    }
}

/// The refusal of a lump whose length the record size does not divide.
pub open spec fn record_size_error(len: nat, lump: usize, size: usize) -> Error {
    Error::InvalidRecordSize { lump, length: len as usize, record_size: size }
}

/// A reader over a lump of `size`-byte records, refusing one they do not divide.
pub fn record_reader(bytes: &[u8], lump: usize, size: usize) -> (r: Result<Reader<'_>>)
    ensures
        match r {
            Ok(reader) => {
                &&& size > 0
                &&& bytes@.len() % (size as nat) == 0
                &&& reader.data() == bytes@
                &&& reader.pos() == 0
                &&& reader.wf()
            },
            Err(e) => (size == 0 || bytes@.len() % (size as nat) != 0) && e == record_size_error(bytes@.len(), lump, size),
        },
{
    if size == 0 || bytes.len() % size != 0 {
        return Err(Error::InvalidRecordSize { lump, length: bytes.len(), record_size: size });
    }
    Ok(Reader::new(bytes))
}

/// Where `count` records of `size` bytes end, in a lump they divide.
pub proof fn lemma_record_room(len: nat, count: nat, size: nat)
    requires
        size > 0,
        len % size == 0,
        count * size < len,
    ensures
        count * size + size <= len,
{
    assert(count * size + size <= len) by (nonlinear_arith)
        requires
            size > 0,
            len % size == 0,
            count * size < len,
    {
        let q = len / size;
        assert(len == q * size);
        assert(count < q);
        assert(count + 1 <= q);
        assert((count + 1) * size <= q * size);
    }
}

pub proof fn lemma_record_count(len: nat, count: nat, size: nat)
    requires
        size > 0,
        count * size == len,
    ensures
        count == len / size,
{
    assert(count == len / size) by (nonlinear_arith)
        requires
            size > 0,
            count * size == len,
    {
    }
}

fn take_u8(reader: &mut Reader) -> (r: u8)
    requires
        old(reader).wf(),
        old(reader).rest() >= 1,
    ensures
        old(reader).advanced(final(reader), 1),
        r == old(reader).data()[old(reader).pos() as int],
{
    match reader.read_u8() {
        Ok(v) => v,
        Err(_) => 0,
    }
}

pub(crate) fn take_u16(reader: &mut Reader) -> (r: u16)
    requires
        old(reader).wf(),
        old(reader).rest() >= 2,
    ensures
        old(reader).advanced(final(reader), 2),
        r == u16_at(old(reader).data(), old(reader).pos() as int),
{
    match reader.read_u16_le() {
        Ok(v) => v,
        Err(_) => 0,
    }
}

fn take_i16(reader: &mut Reader) -> (r: i16)
    requires
        old(reader).wf(),
        old(reader).rest() >= 2,
    ensures
        old(reader).advanced(final(reader), 2),
        r == i16_at(old(reader).data(), old(reader).pos() as int),
{
    match reader.read_i16_le() {
        Ok(v) => v,
        Err(_) => 0,
    }
}

pub fn take_i32(reader: &mut Reader) -> (r: i32)
    requires
        old(reader).wf(),
        old(reader).rest() >= 4,
    ensures
        old(reader).advanced(final(reader), 4),
        r == i32_at(old(reader).data(), old(reader).pos() as int),
{
    match reader.read_i32_le() {
        Ok(v) => v,
        Err(_) => 0,
    }
}

fn take_skip(reader: &mut Reader, count: usize)
    requires
        old(reader).wf(),
        old(reader).rest() >= count,
    ensures
        old(reader).advanced(final(reader), count as nat),
{
    match reader.skip(count) {
        Ok(_) => {},
        Err(_) => {},
    }
}

/// `n` records of a lump, each read from where it starts.
pub open spec fn records<T>(s: Seq<u8>, size: nat, f: spec_fn(Seq<u8>, int) -> T) -> Seq<T> {
    Seq::new(s.len() / size, |k: int| f(s, k * size))
}

/// What a lump of `size`-byte records parses to, or the refusal of its length.
pub open spec fn parse_records<T>(s: Seq<u8>, lump: usize, size: usize, f: spec_fn(Seq<u8>, int) -> T) -> core::result::Result<Seq<T>, Error> {
    if s.len() % (size as nat) != 0 {
        Err(record_size_error(s.len(), lump, size))
    } else {
        Ok(records(s, size as nat, f))
    }
}

pub open spec fn edge_at(s: Seq<u8>, b: int) -> [u16; 2] {
    [u16_at(s, b), u16_at(s, b + 2)]
}

pub open spec fn surfedge_at(s: Seq<u8>, b: int) -> i32 {
    i32_at(s, b)
}

pub open spec fn leaf_face_at(s: Seq<u8>, b: int) -> u16 {
    u16_at(s, b)
}

pub open spec fn face_at(s: Seq<u8>, b: int) -> Face {
    Face {
        plane: u16_at(s, b),
        side: s[b + 2],
        first_surfedge: i32_at(s, b + 4),
        surfedge_count: u16_at(s, b + 8),
        texinfo: i16_at(s, b + 10),
        displacement: i16_at(s, b + 12),
        styles: [s[b + 16], s[b + 17], s[b + 18], s[b + 19]],
        light_offset: i32_at(s, b + 20),
        lightmap_mins: [i32_at(s, b + 28), i32_at(s, b + 32)],
        lightmap_size: [i32_at(s, b + 36), i32_at(s, b + 40)],
    }
}

pub open spec fn node_at(s: Seq<u8>, b: int) -> Node {
    Node {
        plane: i32_at(s, b),
        children: [i32_at(s, b + 4), i32_at(s, b + 8)],
        mins: [i16_at(s, b + 12), i16_at(s, b + 14), i16_at(s, b + 16)],
        maxs: [i16_at(s, b + 18), i16_at(s, b + 20), i16_at(s, b + 22)],
        first_face: u16_at(s, b + 24),
        face_count: u16_at(s, b + 26),
        area: i16_at(s, b + 28),
    }
}

pub open spec fn leaf_at(s: Seq<u8>, b: int) -> Leaf {
    let area_and_flags = u16_at(s, b + 6);
    Leaf {
        contents: i32_at(s, b),
        cluster: i16_at(s, b + 4),
        area: area_and_flags & 0x01ff,
        flags: (area_and_flags >> 9) as u8,
        mins: [i16_at(s, b + 8), i16_at(s, b + 10), i16_at(s, b + 12)],
        maxs: [i16_at(s, b + 14), i16_at(s, b + 16), i16_at(s, b + 18)],
        first_leaf_face: u16_at(s, b + 20),
        leaf_face_count: u16_at(s, b + 22),
        first_leaf_brush: u16_at(s, b + 24),
        leaf_brush_count: u16_at(s, b + 26),
        water_data_id: i16_at(s, b + 28),
    }
}

pub fn parse_edges(bytes: &[u8]) -> (r: Result<Vec<[u16; 2]>>)
    ensures
        match r {
            Ok(v) => parse_records(bytes@, LUMP_EDGES, EDGE_SIZE, |s: Seq<u8>, b: int| edge_at(s, b)) == Ok::<Seq<[u16; 2]>, Error>(v@),
            Err(e) => parse_records(bytes@, LUMP_EDGES, EDGE_SIZE, |s: Seq<u8>, b: int| edge_at(s, b)) == Err::<Seq<[u16; 2]>, Error>(e),
        },
{
    let mut reader = record_reader(bytes, LUMP_EDGES, EDGE_SIZE)?;
    let mut edges: Vec<[u16; 2]> = Vec::new();
    while reader.remaining() != 0
        invariant
            reader.wf(),
            reader.data() == bytes@,
            bytes@.len() % 4 == 0,
            reader.pos() == edges@.len() * 4,
            forall|j: int| 0 <= j < edges@.len() ==> #[trigger] edges@[j] == edge_at(bytes@, j * 4),
        decreases reader.rest(),
    {
        proof {
            lemma_record_room(bytes@.len(), edges@.len(), 4);
        }
        let first = take_u16(&mut reader);
        let second = take_u16(&mut reader);
        edges.push([first, second]);
    }
    proof {
        lemma_record_count(bytes@.len(), edges@.len(), 4);
        assert(edges@ =~= records(bytes@, 4, |s: Seq<u8>, b: int| edge_at(s, b)));
    }
    Ok(edges)
}

pub fn parse_surfedges(bytes: &[u8]) -> (r: Result<Vec<i32>>)
    ensures
        match r {
            Ok(v) => parse_records(bytes@, LUMP_SURFEDGES, SURFEDGE_SIZE, |s: Seq<u8>, b: int| surfedge_at(s, b)) == Ok::<Seq<i32>, Error>(v@),
            Err(e) => parse_records(bytes@, LUMP_SURFEDGES, SURFEDGE_SIZE, |s: Seq<u8>, b: int| surfedge_at(s, b)) == Err::<Seq<i32>, Error>(e),
        },
{
    let mut reader = record_reader(bytes, LUMP_SURFEDGES, SURFEDGE_SIZE)?;
    let mut surfedges: Vec<i32> = Vec::new();
    while reader.remaining() != 0
        invariant
            reader.wf(),
            reader.data() == bytes@,
            bytes@.len() % 4 == 0,
            reader.pos() == surfedges@.len() * 4,
            forall|j: int| 0 <= j < surfedges@.len() ==> #[trigger] surfedges@[j] == surfedge_at(bytes@, j * 4),
        decreases reader.rest(),
    {
        proof {
            lemma_record_room(bytes@.len(), surfedges@.len(), 4);
        }
        surfedges.push(take_i32(&mut reader));
    }
    proof {
        lemma_record_count(bytes@.len(), surfedges@.len(), 4);
        assert(surfedges@ =~= records(bytes@, 4, |s: Seq<u8>, b: int| surfedge_at(s, b)));
    }
    Ok(surfedges)
}

pub fn parse_leaf_faces(bytes: &[u8]) -> (r: Result<Vec<u16>>)
    ensures
        match r {
            Ok(v) => parse_records(bytes@, LUMP_LEAFFACES, LEAFFACE_SIZE, |s: Seq<u8>, b: int| leaf_face_at(s, b)) == Ok::<Seq<u16>, Error>(v@),
            Err(e) => parse_records(bytes@, LUMP_LEAFFACES, LEAFFACE_SIZE, |s: Seq<u8>, b: int| leaf_face_at(s, b)) == Err::<Seq<u16>, Error>(e),
        },
{
    let mut reader = record_reader(bytes, LUMP_LEAFFACES, LEAFFACE_SIZE)?;
    let mut leaf_faces: Vec<u16> = Vec::new();
    while reader.remaining() != 0
        invariant
            reader.wf(),
            reader.data() == bytes@,
            bytes@.len() % 2 == 0,
            reader.pos() == leaf_faces@.len() * 2,
            forall|j: int| 0 <= j < leaf_faces@.len() ==> #[trigger] leaf_faces@[j] == leaf_face_at(bytes@, j * 2),
        decreases reader.rest(),
    {
        proof {
            lemma_record_room(bytes@.len(), leaf_faces@.len(), 2);
        }
        leaf_faces.push(take_u16(&mut reader));
    }
    proof {
        lemma_record_count(bytes@.len(), leaf_faces@.len(), 2);
        assert(leaf_faces@ =~= records(bytes@, 2, |s: Seq<u8>, b: int| leaf_face_at(s, b)));
    }
    Ok(leaf_faces)
}

/// Reads one face record, which must be wholly present.
fn read_face(reader: &mut Reader) -> (r: Face)
    requires
        old(reader).wf(),
        old(reader).rest() >= FACE_SIZE,
    ensures
        old(reader).advanced(final(reader), FACE_SIZE as nat),
        r == face_at(old(reader).data(), old(reader).pos() as int),
{
    let plane = take_u16(reader);
    let side = take_u8(reader);
    // `onNode`, which only matters to the compiler.
    take_skip(reader, 1);
    let first_surfedge = take_i32(reader);
    let surfedge_count = take_u16(reader);
    let texinfo = take_i16(reader);
    let displacement = take_i16(reader);
    // The fog volume a water surface bounds, which every other surface reads from its leaf.
    take_skip(reader, 2);
    let s0 = take_u8(reader);
    let s1 = take_u8(reader);
    let s2 = take_u8(reader);
    let s3 = take_u8(reader);
    let light_offset = take_i32(reader);
    // The surface's area, which only the compiler uses.
    take_skip(reader, 4);
    let min_s = take_i32(reader);
    let min_t = take_i32(reader);
    let size_s = take_i32(reader);
    let size_t = take_i32(reader);
    // The original face this was split from, and the primitive and smoothing-group fields.
    take_skip(reader, 12);
    Face {
        plane,
        side,
        first_surfedge,
        surfedge_count,
        texinfo,
        displacement,
        styles: [s0, s1, s2, s3],
        light_offset,
        lightmap_mins: [min_s, min_t],
        lightmap_size: [size_s, size_t],
    }
}

pub fn parse_faces(bytes: &[u8]) -> (r: Result<Vec<Face>>)
    ensures
        match r {
            Ok(v) => parse_records(bytes@, LUMP_FACES, FACE_SIZE, |s: Seq<u8>, b: int| face_at(s, b)) == Ok::<Seq<Face>, Error>(v@),
            Err(e) => parse_records(bytes@, LUMP_FACES, FACE_SIZE, |s: Seq<u8>, b: int| face_at(s, b)) == Err::<Seq<Face>, Error>(e),
        },
{
    let mut reader = record_reader(bytes, LUMP_FACES, FACE_SIZE)?;
    let mut faces: Vec<Face> = Vec::new();
    while reader.remaining() != 0
        invariant
            reader.wf(),
            reader.data() == bytes@,
            bytes@.len() % 56 == 0,
            reader.pos() == faces@.len() * 56,
            forall|j: int| 0 <= j < faces@.len() ==> #[trigger] faces@[j] == face_at(bytes@, j * 56),
        decreases reader.rest(),
    {
        proof {
            lemma_record_room(bytes@.len(), faces@.len(), 56);
        }
        faces.push(read_face(&mut reader));
    }
    proof {
        lemma_record_count(bytes@.len(), faces@.len(), 56);
        assert(faces@ =~= records(bytes@, 56, |s: Seq<u8>, b: int| face_at(s, b)));
    }
    Ok(faces)
}

fn read_node(reader: &mut Reader) -> (r: Node)
    requires
        old(reader).wf(),
        old(reader).rest() >= NODE_SIZE,
    ensures
        old(reader).advanced(final(reader), NODE_SIZE as nat),
        r == node_at(old(reader).data(), old(reader).pos() as int),
{
    let plane = take_i32(reader);
    let front = take_i32(reader);
    let back = take_i32(reader);
    let min_x = take_i16(reader);
    let min_y = take_i16(reader);
    let min_z = take_i16(reader);
    let max_x = take_i16(reader);
    let max_y = take_i16(reader);
    let max_z = take_i16(reader);
    let first_face = take_u16(reader);
    let face_count = take_u16(reader);
    let area = take_i16(reader);
    take_skip(reader, 2);
    Node {
        plane,
        children: [front, back],
        mins: [min_x, min_y, min_z],
        maxs: [max_x, max_y, max_z],
        first_face,
        face_count,
        area,
    }
}

pub fn parse_nodes(bytes: &[u8]) -> (r: Result<Vec<Node>>)
    ensures
        match r {
            Ok(v) => parse_records(bytes@, LUMP_NODES, NODE_SIZE, |s: Seq<u8>, b: int| node_at(s, b)) == Ok::<Seq<Node>, Error>(v@),
            Err(e) => parse_records(bytes@, LUMP_NODES, NODE_SIZE, |s: Seq<u8>, b: int| node_at(s, b)) == Err::<Seq<Node>, Error>(e),
        },
{
    let mut reader = record_reader(bytes, LUMP_NODES, NODE_SIZE)?;
    let mut nodes: Vec<Node> = Vec::new();
    while reader.remaining() != 0
        invariant
            reader.wf(),
            reader.data() == bytes@,
            bytes@.len() % 32 == 0,
            reader.pos() == nodes@.len() * 32,
            forall|j: int| 0 <= j < nodes@.len() ==> #[trigger] nodes@[j] == node_at(bytes@, j * 32),
        decreases reader.rest(),
    {
        proof {
            lemma_record_room(bytes@.len(), nodes@.len(), 32);
        }
        nodes.push(read_node(&mut reader));
    }
    proof {
        lemma_record_count(bytes@.len(), nodes@.len(), 32);
        assert(nodes@ =~= records(bytes@, 32, |s: Seq<u8>, b: int| node_at(s, b)));
    }
    Ok(nodes)
}

fn read_leaf(reader: &mut Reader) -> (r: Leaf)
    requires
        old(reader).wf(),
        old(reader).rest() >= LEAF_V1_SIZE,
    ensures
        old(reader).advanced(final(reader), LEAF_V1_SIZE as nat),
        r == leaf_at(old(reader).data(), old(reader).pos() as int),
{
    let contents = take_i32(reader);
    let cluster = take_i16(reader);
    let area_and_flags = take_u16(reader);
    let min_x = take_i16(reader);
    let min_y = take_i16(reader);
    let min_z = take_i16(reader);
    let max_x = take_i16(reader);
    let max_y = take_i16(reader);
    let max_z = take_i16(reader);
    let first_leaf_face = take_u16(reader);
    let leaf_face_count = take_u16(reader);
    let first_leaf_brush = take_u16(reader);
    let leaf_brush_count = take_u16(reader);
    let water_data_id = take_i16(reader);
    take_skip(reader, 2);
    Leaf {
        contents,
        cluster,
        area: area_and_flags & 0x01ff,
        flags: (area_and_flags >> 9) as u8,
        mins: [min_x, min_y, min_z],
        maxs: [max_x, max_y, max_z],
        first_leaf_face,
        leaf_face_count,
        first_leaf_brush,
        leaf_brush_count,
        water_data_id,
    }
}

/// The record size of a leaf lump's version: the first version carries the ambient
/// lighting inline, the second moved it to lumps of its own.
pub open spec fn leaf_record_size(version: i32) -> Option<usize> {
    if version == 0 {
        Some(LEAF_V0_SIZE)
    } else if version == 1 {
        Some(LEAF_V1_SIZE)
    } else {
        None
    }
}

/// What a leaf lump of the given version parses to.
pub open spec fn leaves_spec(s: Seq<u8>, version: i32) -> core::result::Result<Seq<Leaf>, Error> {
    match leaf_record_size(version) {
        None => Err(Error::UnsupportedLumpVersion { lump: LUMP_LEAVES, version }),
        Some(size) => parse_records(s, LUMP_LEAVES, size, |s: Seq<u8>, b: int| leaf_at(s, b)),
    }
}

pub fn parse_leaves(bytes: &[u8], version: i32) -> (r: Result<Vec<Leaf>>)
    ensures
        match r {
            Ok(v) => leaves_spec(bytes@, version) == Ok::<Seq<Leaf>, Error>(v@),
            Err(e) => leaves_spec(bytes@, version) == Err::<Seq<Leaf>, Error>(e),
        },
{
    let record_size = if version == 0 {
        LEAF_V0_SIZE
    } else if version == 1 {
        LEAF_V1_SIZE
    } else {
        return Err(Error::UnsupportedLumpVersion { lump: LUMP_LEAVES, version });
    };
    let mut reader = record_reader(bytes, LUMP_LEAVES, record_size)?;
    let mut leaves: Vec<Leaf> = Vec::new();
    while reader.remaining() != 0
        invariant
            record_size == LEAF_V0_SIZE || record_size == LEAF_V1_SIZE,
            leaf_record_size(version) == Some(record_size),
            reader.wf(),
            reader.data() == bytes@,
            bytes@.len() % (record_size as nat) == 0,
            reader.pos() == leaves@.len() * record_size,
            forall|j: int| 0 <= j < leaves@.len() ==> #[trigger] leaves@[j] == leaf_at(bytes@, j * record_size),
        decreases reader.rest(),
    {
        proof {
            lemma_record_room(bytes@.len(), leaves@.len(), record_size as nat);
        }
        let ghost count = leaves@.len();
        leaves.push(read_leaf(&mut reader));
        if version == 0 {
            take_skip(&mut reader, 24);
        }
        proof {
            let p = reader.pos();
            assert(p == (count + 1) * record_size) by (nonlinear_arith)
                requires
                    p == count * record_size + record_size,
            {
            }
        }
    }
    proof {
        lemma_record_count(bytes@.len(), leaves@.len(), record_size as nat);
        assert(leaves@ =~= records(bytes@, record_size as nat, |s: Seq<u8>, b: int| leaf_at(s, b)));
    }
    Ok(leaves)
}

/// The index of the first negative offset in the table's records from `k` on.
pub open spec fn first_negative_offset(s: Seq<u8>, k: nat) -> Option<i32>
    decreases s.len() - 4 * k,
{
    if 4 * k + 4 > s.len() {
        None
    } else if i32_at(s, 4 * k as int) < 0 {
        Some(i32_at(s, 4 * k as int))
    } else {
        first_negative_offset(s, k + 1)
    }
}

/// What the material name table parses to: every offset, none of which may be negative.
pub open spec fn string_table_spec(s: Seq<u8>) -> core::result::Result<Seq<u32>, Error> {
    if s.len() % 4 != 0 {
        Err(record_size_error(s.len(), LUMP_TEXDATA_STRING_TABLE, TEXDATA_STRING_TABLE_SIZE))
    } else {
        match first_negative_offset(s, 0) {
            Some(offset) => Err(Error::InvalidMaterialName(offset as u32)),
            None => Ok(Seq::new(s.len() / 4, |k: int| i32_at(s, 4 * k) as u32)),
        }
    }
}

pub fn parse_texdata_string_table(bytes: &[u8]) -> (r: Result<Vec<u32>>)
    ensures
        match r {
            Ok(v) => string_table_spec(bytes@) == Ok::<Seq<u32>, Error>(v@),
            Err(e) => string_table_spec(bytes@) == Err::<Seq<u32>, Error>(e),
        },
{
    let mut reader = record_reader(bytes, LUMP_TEXDATA_STRING_TABLE, TEXDATA_STRING_TABLE_SIZE)?;
    let mut offsets: Vec<u32> = Vec::new();
    while reader.remaining() != 0
        invariant
            reader.wf(),
            reader.data() == bytes@,
            bytes@.len() % 4 == 0,
            reader.pos() == offsets@.len() * 4,
            first_negative_offset(bytes@, 0) == first_negative_offset(bytes@, offsets@.len()),
            forall|j: int| 0 <= j < offsets@.len() ==> #[trigger] offsets@[j] == i32_at(bytes@, 4 * j) as u32,
        decreases reader.rest(),
    {
        proof {
            lemma_record_room(bytes@.len(), offsets@.len(), 4);
        }
        let offset = take_i32(&mut reader);
        if offset < 0 {
            return Err(Error::InvalidMaterialName(offset as u32));
        }
        offsets.push(offset as u32);
    }
    proof {
        lemma_record_count(bytes@.len(), offsets@.len(), 4);
        assert(offsets@ =~= Seq::new(bytes@.len() / 4, |k: int| i32_at(bytes@, 4 * k) as u32));
    }
    Ok(offsets)
}

pub fn take_u32(reader: &mut Reader) -> (r: u32)
    requires
        old(reader).wf(),
        old(reader).rest() >= 4,
    ensures
        old(reader).advanced(final(reader), 4),
        r == u32_at(old(reader).data(), old(reader).pos() as int),
{
    match reader.read_u32_le() {
        Ok(v) => v,
        Err(_) => 0,
    }
}

/// A vertex as the bit patterns of its three 32-bit floats.
pub open spec fn vertex_at(s: Seq<u8>, b: int) -> [u32; 3] {
    [u32_at(s, b), u32_at(s, b + 4), u32_at(s, b + 8)]
}

/// Reads the vertex lump, each coordinate kept as the bit pattern of the float it is.
pub fn parse_vertices(bytes: &[u8]) -> (r: Result<Vec<[u32; 3]>>)
    ensures
        match r {
            Ok(v) => parse_records(bytes@, LUMP_VERTEXES, VERTEX_SIZE, |s: Seq<u8>, b: int| vertex_at(s, b)) == Ok::<Seq<[u32; 3]>, Error>(v@),
            Err(e) => parse_records(bytes@, LUMP_VERTEXES, VERTEX_SIZE, |s: Seq<u8>, b: int| vertex_at(s, b)) == Err::<Seq<[u32; 3]>, Error>(e),
        },
{
    let mut reader = record_reader(bytes, LUMP_VERTEXES, VERTEX_SIZE)?;
    let mut vertices: Vec<[u32; 3]> = Vec::new();
    while reader.remaining() != 0
        invariant
            reader.wf(),
            reader.data() == bytes@,
            bytes@.len() % 12 == 0,
            reader.pos() == vertices@.len() * 12,
            forall|j: int| 0 <= j < vertices@.len() ==> #[trigger] vertices@[j] == vertex_at(bytes@, j * 12),
        decreases reader.rest(),
    {
        proof {
            lemma_record_room(bytes@.len(), vertices@.len(), 12);
        }
        let x = take_u32(&mut reader);
        let y = take_u32(&mut reader);
        let z = take_u32(&mut reader);
        vertices.push([x, y, z]);
    }
    proof {
        lemma_record_count(bytes@.len(), vertices@.len(), 12);
        assert(vertices@ =~= records(bytes@, 12, |s: Seq<u8>, b: int| vertex_at(s, b)));
    }
    Ok(vertices)
}

} // verus!
