//! Bounds-checked Source BSP header and lump parser, and the deterministic repacker.
//!
//! A map is a fixed header naming sixty-four lumps by offset and length, followed by the
//! lumps themselves. Parsing checks every range against the file before anything is read
//! out of it; building lays the lumps out in index order, each on a four-byte boundary.
use vstd::prelude::*;
use crate::text::{decimal, hex_digits, push_decimal, push_hex, push_signed, push_str, signed_decimal};
use crate::binary::{
    self, Reader, Writer, le_value, le_bytes, signed_value, unsigned_value, pow256,
    lemma_pow256_values, lemma_le_value_of_bytes, lemma_le_value_bound,
};

pub mod records;
pub mod entities;
pub mod lighting;
pub mod visible;
pub mod surfaces;
pub mod world;
pub mod materials;
pub mod draws;
pub mod props;
pub mod ambient;
pub mod layout;

verus! {

pub const BSP_IDENT: u32 = 0x5053_4256;
pub const BSP_LUMP_COUNT: usize = 64;
pub const BSP_HEADER_SIZE: usize = 4 + 4 + BSP_LUMP_COUNT * 16 + 4;
pub const LUMP_PLANES: usize = 1;
pub const LUMP_VERTEXES: usize = 3;
pub const LUMP_VISIBILITY: usize = 4;
pub const LUMP_NODES: usize = 5;
pub const LUMP_TEXDATA: usize = 2;
pub const LUMP_TEXINFO: usize = 6;
pub const LUMP_TEXDATA_STRING_DATA: usize = 43;
pub const LUMP_TEXDATA_STRING_TABLE: usize = 44;
pub const LUMP_FACES: usize = 7;
pub const LUMP_LEAVES: usize = 10;
pub const LUMP_EDGES: usize = 12;
pub const LUMP_SURFEDGES: usize = 13;
pub const LUMP_LEAFFACES: usize = 16;
pub const LUMP_ENTITIES: usize = 0;
pub const LUMP_MODELS: usize = 14;
/// The ZIP archive a map carries its own content in, chiefly the cubemap
/// materials the compiler generates per surface position.
pub const LUMP_PAKFILE: usize = 40;
/// The lump holding lumps of its own, one per thing the game rather than
/// the compiler put in the map. The static props are one of them.
pub const LUMP_GAME_LUMP: usize = 35;
/// The baked lighting of the world's surfaces.
pub const LUMP_LIGHTING: usize = 8;
/// The same, as compiled for high dynamic range. A map built for it carries
/// both lumps, and this one is what it was authored against.
pub const LUMP_LIGHTING_HDR: usize = 53;
/// Which of the ambient samples belong to each leaf.
pub const LUMP_LEAF_AMBIENT_INDEX: usize = 52;
pub const LUMP_LEAF_AMBIENT_INDEX_HDR: usize = 51;
/// The light arriving at points inside the map's open leaves, from every direction.
pub const LUMP_LEAF_AMBIENT_LIGHTING: usize = 56;
pub const LUMP_LEAF_AMBIENT_LIGHTING_HDR: usize = 55;

/// The largest file and the largest single lump a parse accepts.
#[derive(Debug, Clone, Copy)]
pub struct Limits {
    pub max_file_size: usize,
    pub max_lump_size: usize,
}

pub open spec fn default_limits() -> Limits {
    Limits { max_file_size: 0x8000_0000, max_lump_size: 0x4000_0000 }
}

impl Default for Limits {
    fn default() -> (r: Self)
        ensures
            r == default_limits(),
    {
        Limits { max_file_size: 2 * 1024 * 1024 * 1024usize, max_lump_size: 1024 * 1024 * 1024 }
    }
}

/// Why a map, or one of its lumps, was refused.
#[derive(Debug)]
pub enum Error {
    Binary(binary::Error),
    InvalidIdent(u32),
    UnsupportedVersion(i32),
    FileTooLarge(usize),
    InvalidLump { index: usize, offset: i32, length: i32 },
    LumpTooLarge { index: usize, length: usize },
    CompressedCoreLump(usize),
    InvalidRecordSize { lump: usize, length: usize, record_size: usize },
    UnsupportedLumpVersion { lump: usize, version: i32 },
    InvalidPlaneIndex { node: usize, plane: i32 },
    InvalidChildIndex { node: usize, child: i32 },
    InvalidCluster(i32),
    InvalidVisibilityHeader,
    InvalidVisibilityOffset(i32),
    InvalidVisibilityRun,
    MissingWorldTree,
    TraversalCycle,
    NonFinitePoint,
    SizeOverflow,
    /// A face names a run of surface edges that is not inside the lump.
    InvalidFaceRange { face: usize, first: i32, count: u16 },
    InvalidSurfedge { surfedge: usize, edge: i32 },
    InvalidEdgeVertex { edge: usize, vertex: u16 },
    InvalidFaceIndex(usize),
    /// Fewer than three edges cannot enclose a surface.
    DegenerateFace { face: usize, edges: u16 },
    NonFiniteVertex(usize),
    /// A face names a texinfo the lump does not hold.
    InvalidTexInfo(i16),
    /// A texinfo names a texdata the lump does not hold.
    InvalidTexData(i32),
    /// The lighting lump's length is not a whole number of samples.
    InvalidLightingLump(usize),
    /// A face's lightmap starts at an offset that is not a whole sample.
    InvalidLightOffset(i32),
    /// A face states a lightmap extent that cannot be stored.
    InvalidLightmapExtent { size: [i32; 2] },
    /// A face's lightmap runs past the end of the lighting lump.
    LightmapOutOfRange { offset: i32, length: usize },
    /// The map's lightmaps do not fit the packed image.
    LightmapAtlasTooLarge { blocks: usize, limit: u32 },
    /// The entity lump is not the brace-delimited key and value text the format states.
    InvalidEntityText,
    /// A game lump points outside the file it is part of.
    InvalidGameLumpRange { offset: usize, length: usize },
    /// A lump's records do not divide the bytes it holds.
    InvalidLumpLength { lump: usize, length: usize },
    /// A leaf points at ambient samples the lump does not hold.
    InvalidAmbientRange { first: usize, count: usize, samples: usize },
    /// The static prop records do not divide the bytes the lump holds for them.
    InvalidStaticPropStride { version: i32, stride: usize, count: usize, length: usize },
    /// A static prop names a model the dictionary does not hold.
    InvalidStaticPropModel { index: usize, model: usize },
    /// A static prop names a run of the shared leaf table that is not there.
    InvalidStaticPropLeaves { index: usize, first: usize, count: usize },
    /// A leaf names a run of the leaf-face lump that the lump does not hold.
    InvalidLeafFaceRun { first: usize, end: usize },
    /// A texdata names a string the table does not hold, or one that runs off the end.
    InvalidMaterialName(u32),
    /// A texture projection that yields no usable texture coordinate.
    UnusableProjection(usize),
}

pub type Result<T> = core::result::Result<T, Error>;

/// Where one lump lies in the file, and how it is stored.
#[derive(Debug, Clone, Copy, Default, PartialEq, Eq)]
pub struct LumpHeader {
    pub offset: i32,
    pub length: i32,
    pub version: i32,
    /// Original byte size for a compressed lump, or zero when uncompressed.
    pub uncompressed_size: i32,
}

#[derive(Debug, Clone, PartialEq, Eq)]
pub struct Header {
    pub version: i32,
    pub lumps: [LumpHeader; BSP_LUMP_COUNT],
    pub map_revision: i32,
}

/// A header with its lump directory as a sequence.
pub struct HeaderView {
    pub version: i32,
    pub lumps: Seq<LumpHeader>,
    pub map_revision: i32,
}

impl View for Header {
    type V = HeaderView;

    open spec fn view(&self) -> HeaderView {
        HeaderView { version: self.version, lumps: self.lumps@, map_revision: self.map_revision }
    }
}

// ---------------------------------------------------------------------------
// What a header says
// ---------------------------------------------------------------------------

/// The little-endian `u32` at `off`.
pub open spec fn u32_at(s: Seq<u8>, off: int) -> u32 {
    le_value(s.subrange(off, off + 4)) as u32
}

/// The little-endian two's complement `i32` at `off`.
pub open spec fn i32_at(s: Seq<u8>, off: int) -> i32 {
    signed_value(le_value(s.subrange(off, off + 4)), 4) as i32
}

/// The directory entry of lump `i`.
pub open spec fn lump_at(s: Seq<u8>, i: int) -> LumpHeader {
    let base = 8 + 16 * i;
    LumpHeader {
        offset: i32_at(s, base),
        length: i32_at(s, base + 4),
        version: i32_at(s, base + 8),
        uncompressed_size: i32_at(s, base + 12),
    }
}

/// The refusal met by a run of four-byte reads from `base` when the data ends inside it.
pub open spec fn short_read(s: Seq<u8>, base: int) -> Error {
    let off = base + (s.len() - base) / 4 * 4;
    Error::Binary(
        binary::Error::UnexpectedEof { offset: off as usize, requested: 4, remaining: (s.len() - off) as usize },
    )
}

/// Why lump `index` cannot be read out of a file of `len` bytes, if it cannot.
pub open spec fn lump_refusal(len: nat, limits: Limits, index: nat, lump: LumpHeader) -> Option<Error> {
    let bad = Error::InvalidLump { index: index as usize, offset: lump.offset, length: lump.length };
    if lump.offset < 0 || lump.length < 0 {
        Some(bad)
    } else if lump.length > limits.max_lump_size {
        Some(Error::LumpTooLarge { index: index as usize, length: lump.length as usize })
    } else if lump.length == 0 {
        None
    } else if lump.offset + lump.length > usize::MAX {
        Some(bad)
    } else if lump.offset < BSP_HEADER_SIZE || lump.offset + lump.length > len {
        Some(bad)
    } else {
        None
    }
}

/// The first refusal among the directory entries from `i` on.
pub open spec fn directory_refusal(s: Seq<u8>, limits: Limits, i: nat) -> Option<Error>
    decreases BSP_LUMP_COUNT - i,
{
    if i >= BSP_LUMP_COUNT {
        None
    } else if s.len() < 8 + 16 * i + 16 {
        Some(short_read(s, 8 + 16 * i as int))
    } else {
        match lump_refusal(s.len(), limits, i, lump_at(s, i as int)) {
            Some(e) => Some(e),
            None => directory_refusal(s, limits, i + 1),
        }
    }
}

/// What a file's header parses to under `limits`, or why it is refused.
pub open spec fn header_spec(s: Seq<u8>, limits: Limits) -> core::result::Result<HeaderView, Error> {
    if s.len() > limits.max_file_size {
        Err(Error::FileTooLarge(s.len() as usize))
    } else if s.len() < 4 {
        Err(short_read(s, 0))
    } else if u32_at(s, 0) != BSP_IDENT {
        Err(Error::InvalidIdent(u32_at(s, 0)))
    } else if s.len() < 8 {
        Err(short_read(s, 4))
    } else if !(19 <= i32_at(s, 4) <= 21) {
        Err(Error::UnsupportedVersion(i32_at(s, 4)))
    } else {
        match directory_refusal(s, limits, 0) {
            Some(e) => Err(e),
            None => if s.len() < BSP_HEADER_SIZE {
                Err(short_read(s, 8 + 16 * BSP_LUMP_COUNT))
            } else {
                Ok(
                    HeaderView {
                        version: i32_at(s, 4),
                        lumps: Seq::new(BSP_LUMP_COUNT as nat, |i: int| lump_at(s, i)),
                        map_revision: i32_at(s, 8 + 16 * BSP_LUMP_COUNT),
                    },
                )
            },
        }
    }
}

/// Every lump lies inside a file of `len` bytes.
pub open spec fn lumps_placed(lumps: Seq<LumpHeader>, len: nat) -> bool {
    &&& lumps.len() == BSP_LUMP_COUNT
    &&& forall|i: int| 0 <= i < lumps.len() ==> #[trigger] lump_placed(lumps[i], len)
}

pub open spec fn lump_placed(lump: LumpHeader, len: nat) -> bool {
    &&& lump.length >= 0
    &&& lump.length > 0 ==> 0 <= lump.offset && lump.offset + lump.length <= len
}

/// The bytes lump `i` holds: none where its length is zero.
pub open spec fn lump_bytes(h: HeaderView, s: Seq<u8>, i: int) -> Seq<u8> {
    let l = h.lumps[i];
    if l.length == 0 {
        Seq::empty()
    } else {
        s.subrange(l.offset as int, l.offset + l.length)
    }
}

/// What a parsed map gives a builder: its version, revision, and each lump's version,
/// stored size and bytes.
pub open spec fn repacked(b: BspView) -> BuilderView {
    BuilderView {
        version: b.header.version,
        map_revision: b.header.map_revision,
        lumps: Seq::new(
            BSP_LUMP_COUNT as nat,
            |i: int|
                LumpView {
                    version: b.header.lumps[i].version,
                    uncompressed_size: b.header.lumps[i].uncompressed_size,
                    bytes: lump_bytes(b.header, b.bytes, i),
                },
        ),
    }
}

/// A parsed map: its header and the bytes it was read from.
pub struct BspView {
    pub header: HeaderView,
    pub bytes: Seq<u8>,
}

/// A parsed map, borrowing the file it was read from.
#[derive(Debug)]
pub struct Bsp<'a> {
    header: Header,
    bytes: &'a [u8],
}

impl<'a> View for Bsp<'a> {
    type V = BspView;

    closed spec fn view(&self) -> BspView {
        BspView { header: self.header@, bytes: self.bytes@ }
    }
}

fn read_u32(reader: &mut Reader) -> (r: Result<u32>)
    requires
        old(reader).wf(),
    ensures
        match r {
            Ok(v) => old(reader).advanced(final(reader), 4) && v == le_value(old(reader).window(4)),
            Err(e) => 4 > old(reader).rest() && *final(reader) == *old(reader) && e == Error::Binary(old(reader).eof_error(4)),
        },
{
    match reader.read_u32_le() {
        Ok(v) => Ok(v),
        Err(e) => Err(Error::Binary(e)),
    }
}

fn read_i32(reader: &mut Reader) -> (r: Result<i32>)
    requires
        old(reader).wf(),
    ensures
        match r {
            Ok(v) => old(reader).advanced(final(reader), 4) && v == signed_value(le_value(old(reader).window(4)), 4),
            Err(e) => 4 > old(reader).rest() && *final(reader) == *old(reader) && e == Error::Binary(old(reader).eof_error(4)),
        },
{
    match reader.read_i32_le() {
        Ok(v) => Ok(v),
        Err(e) => Err(Error::Binary(e)),
    }
}

/// Checks that a directory entry names a range the file holds.
fn validate_lump(bytes: &[u8], limits: Limits, index: usize, lump: LumpHeader) -> (r: Result<()>)
    ensures
        match r {
            Ok(_) => lump_refusal(bytes@.len(), limits, index as nat, lump) is None,
            Err(e) => lump_refusal(bytes@.len(), limits, index as nat, lump) == Some(e),
        },
{
    if lump.offset < 0 || lump.length < 0 {
        return Err(Error::InvalidLump { index, offset: lump.offset, length: lump.length });
    }
    let offset = lump.offset as usize;
    let length = lump.length as usize;
    if length > limits.max_lump_size {
        return Err(Error::LumpTooLarge { index, length });
    }
    if length == 0 {
        return Ok(());
    }
    let end = match offset.checked_add(length) {
        Some(end) => end,
        None => return Err(Error::InvalidLump { index, offset: lump.offset, length: lump.length }),
    };
    if offset < BSP_HEADER_SIZE || end > bytes.len() {
        return Err(Error::InvalidLump { index, offset: lump.offset, length: lump.length });
    }
    Ok(())
}

proof fn lemma_short_read(s: Seq<u8>, base: int, k: int)
    requires
        0 <= k,
        0 <= base,
        base + 4 * k <= s.len() < base + 4 * k + 4,
    ensures
        short_read(s, base) == Error::Binary(
            binary::Error::UnexpectedEof {
                offset: (base + 4 * k) as usize,
                requested: 4,
                remaining: (s.len() - (base + 4 * k)) as usize,
            },
        ),
{
    assert((s.len() - base) / 4 == k);
}

/// Reads directory entry `index`, the four fields of which start where the reader stands.
fn read_entry(reader: &mut Reader, Ghost(s): Ghost<Seq<u8>>, index: usize) -> (r: Result<LumpHeader>)
    requires
        old(reader).wf(),
        old(reader).data() == s,
        index < BSP_LUMP_COUNT,
        old(reader).pos() == 8 + 16 * index,
    ensures
        match r {
            Ok(l) => {
                &&& s.len() >= 8 + 16 * index + 16
                &&& l == lump_at(s, index as int)
                &&& old(reader).advanced(final(reader), 16)
            },
            Err(e) => s.len() < 8 + 16 * index + 16 && e == short_read(s, 8 + 16 * index as int),
        },
{
    let ghost base = 8 + 16 * index as int;
    let offset = match read_i32(reader) {
        Ok(v) => v,
        Err(e) => {
            proof {
                lemma_short_read(s, base, 0);
            }
            return Err(e);
        },
    };
    let length = match read_i32(reader) {
        Ok(v) => v,
        Err(e) => {
            proof {
                lemma_short_read(s, base, 1);
            }
            return Err(e);
        },
    };
    let version = match read_i32(reader) {
        Ok(v) => v,
        Err(e) => {
            proof {
                lemma_short_read(s, base, 2);
            }
            return Err(e);
        },
    };
    let uncompressed_size = match read_i32(reader) {
        Ok(v) => v,
        Err(e) => {
            proof {
                lemma_short_read(s, base, 3);
            }
            return Err(e);
        },
    };
    Ok(LumpHeader { offset, length, version, uncompressed_size })
}

impl<'a> Bsp<'a> {
    #[verifier::type_invariant]
    closed spec fn inv(&self) -> bool {
        lumps_placed(self.header.lumps@, self.bytes@.len())
    }

    pub fn parse(bytes: &'a [u8]) -> (r: Result<Self>)
        ensures
            match r {
                Ok(b) => header_spec(bytes@, default_limits()) == Ok::<HeaderView, Error>(b@.header) && b@.bytes == bytes@,
                Err(e) => header_spec(bytes@, default_limits()) == Err::<HeaderView, Error>(e),
            },
    {
        Self::parse_with_limits(bytes, Limits::default())
    }

    pub fn parse_with_limits(bytes: &'a [u8], limits: Limits) -> (r: Result<Self>)
        ensures
            match r {
                Ok(b) => header_spec(bytes@, limits) == Ok::<HeaderView, Error>(b@.header) && b@.bytes == bytes@,
                Err(e) => header_spec(bytes@, limits) == Err::<HeaderView, Error>(e),
            },
    {
        let ghost s = bytes@;
        if bytes.len() > limits.max_file_size {
            return Err(Error::FileTooLarge(bytes.len()));
        }
        let mut reader = Reader::new(bytes);
        let ident = match read_u32(&mut reader) {
            Ok(v) => v,
            Err(e) => {
                proof {
                    lemma_short_read(s, 0, 0);
                }
                return Err(e);
            },
        };
        proof {
            lemma_pow256_values();
            lemma_le_value_bound(s.subrange(0, 4));
        }
        if ident != BSP_IDENT {
            return Err(Error::InvalidIdent(ident));
        }
        let version = match read_i32(&mut reader) {
            Ok(v) => v,
            Err(e) => {
                proof {
                    lemma_short_read(s, 4, 0);
                }
                return Err(e);
            },
        };
        if !(19 <= version && version <= 21) {
            return Err(Error::UnsupportedVersion(version));
        }
        let mut lumps = [LumpHeader { offset: 0, length: 0, version: 0, uncompressed_size: 0 }; 64];
        let mut index: usize = 0;
        while index < BSP_LUMP_COUNT
            invariant
                index <= BSP_LUMP_COUNT,
                s == bytes@,
                s.len() <= limits.max_file_size,
                s.len() >= 8,
                u32_at(s, 0) == BSP_IDENT,
                version == i32_at(s, 4),
                19 <= version <= 21,
                reader.wf(),
                reader.data() == s,
                reader.pos() == 8 + 16 * index,
                directory_refusal(s, limits, 0) == directory_refusal(s, limits, index as nat),
                forall|j: int| 0 <= j < index ==> #[trigger] lumps@[j] == lump_at(s, j),
                forall|j: int| 0 <= j < index ==> lump_placed(#[trigger] lumps@[j], s.len()),
            decreases BSP_LUMP_COUNT - index,
        {
            let lump = match read_entry(&mut reader, Ghost(s), index) {
                Ok(l) => l,
                Err(e) => return Err(e),
            };
            match validate_lump(bytes, limits, index, lump) {
                Ok(_) => {},
                Err(e) => return Err(e),
            }
            lumps[index] = lump;
            index = index + 1;
        }
        let map_revision = match read_i32(&mut reader) {
            Ok(v) => v,
            Err(e) => {
                proof {
                    lemma_short_read(s, 8 + 16 * 64int, 0);
                }
                return Err(e);
            },
        };
        let header = Header { version, lumps, map_revision };
        proof {
            assert(header@.lumps =~= Seq::new(BSP_LUMP_COUNT as nat, |i: int| lump_at(s, i)));
        }
        Ok(Bsp { header, bytes })
    }

    pub fn header(&self) -> (r: &Header)
        ensures
            r@ == self@.header,
    {
        &self.header
    }

    /// The bytes of lump `index`: none past the directory, and an empty run for an empty lump.
    pub fn lump(&self, index: usize) -> (r: Option<&'a [u8]>)
        ensures
            match r {
                Some(b) => index < BSP_LUMP_COUNT && b@ == lump_bytes(self@.header, self@.bytes, index as int),
                None => index >= BSP_LUMP_COUNT,
            },
    {
        proof {
            use_type_invariant(self);
        }
        if index >= BSP_LUMP_COUNT {
            return None;
        }
        let lump = self.header.lumps[index];
        proof {
            assert(lump_placed(self.header.lumps@[index as int], self.bytes@.len()));
        }
        if lump.length == 0 {
            return Some(vstd::slice::slice_subrange(self.bytes, 0, 0));
        }
        let start = lump.offset as usize;
        Some(vstd::slice::slice_subrange(self.bytes, start, start + lump.length as usize))
    }

    /// A builder holding this map's version, revision and every lump as stored, so that
    /// building it writes the map out again.
    pub fn to_builder(&self) -> (r: Builder)
        ensures
            r.wf(),
            r@ == repacked(self@),
    {
        let mut builder = Builder::new(self.header.version, self.header.map_revision);
        let mut index: usize = 0;
        while index < BSP_LUMP_COUNT
            invariant
                index <= BSP_LUMP_COUNT,
                builder.wf(),
                builder@.version == self@.header.version,
                builder@.map_revision == self@.header.map_revision,
                self@.header.lumps.len() == BSP_LUMP_COUNT,
                forall|j: int| 0 <= j < index ==> #[trigger] builder@.lumps[j] == repacked(self@).lumps[j],
            decreases BSP_LUMP_COUNT - index,
        {
            let header = self.header.lumps[index];
            let bytes = match self.lump(index) {
                Some(b) => vstd::slice::slice_to_vec(b),
                None => Vec::new(),
            };
            builder.set_lump(index, header.version, header.uncompressed_size, bytes);
            index = index + 1;
        }
        proof {
            assert(builder@.lumps =~= repacked(self@).lumps);
        }
        builder
    }

    /// The whole file the map was read from, which the game lump's own directory
    /// points into.
    pub(crate) fn file_bytes(&self) -> (r: &'a [u8])
        ensures
            r@ == self@.bytes,
    {
        self.bytes
    }

    /// The bytes of the archive the map embeds, empty where it embeds nothing.
    ///
    /// A map's own materials live only here, so its world cannot be textured
    /// without reading this and searching it ahead of the game's archives.
    pub fn pakfile(&self) -> (r: &'a [u8])
        ensures
            r@ == lump_bytes(self@.header, self@.bytes, LUMP_PAKFILE as int),
    {
        match self.lump(LUMP_PAKFILE) {
            Some(b) => b,
            None => vstd::slice::slice_subrange(self.bytes, 0, 0),
        }
    }
}


// ---------------------------------------------------------------------------
// Building
// ---------------------------------------------------------------------------

/// One lump as a builder holds it.
#[derive(Debug, Clone)]
struct LumpData {
    version: i32,
    uncompressed_size: i32,
    bytes: Vec<u8>,
}

/// A lump's version, stored size and bytes.
pub struct LumpView {
    pub version: i32,
    pub uncompressed_size: i32,
    pub bytes: Seq<u8>,
}

impl View for LumpData {
    type V = LumpView;

    closed spec fn view(&self) -> LumpView {
        LumpView { version: self.version, uncompressed_size: self.uncompressed_size, bytes: self.bytes@ }
    }
}

/// What a builder will write: the map's version and revision, and its sixty-four lumps.
pub struct BuilderView {
    pub version: i32,
    pub map_revision: i32,
    pub lumps: Seq<LumpView>,
}

/// `n` zero bytes.
pub open spec fn zeros(n: nat) -> Seq<u8> {
    Seq::new(n, |i: int| 0u8)
}

/// The bytes after the header that hold the first `n` lumps: each non-empty lump in index
/// order, preceded by the zeros that bring it to a four-byte boundary.
pub open spec fn body(lumps: Seq<LumpView>, n: nat) -> Seq<u8>
    decreases n,
{
    if n == 0 {
        Seq::empty()
    } else {
        let prev = body(lumps, (n - 1) as nat);
        let l = lumps[n - 1];
        if l.bytes.len() == 0 {
            prev
        } else {
            prev + zeros(binary::align_padding((BSP_HEADER_SIZE + prev.len()) as nat, 4)) + l.bytes
        }
    }
}

/// Where lump `i` starts in the built file, were it non-empty.
pub open spec fn placed_offset(lumps: Seq<LumpView>, i: nat) -> nat {
    let end = (BSP_HEADER_SIZE + body(lumps, i).len()) as nat;
    end + binary::align_padding(end, 4)
}

/// The offset the directory states for lump `i`: zero for an empty lump.
pub open spec fn directory_offset(lumps: Seq<LumpView>, i: nat) -> nat {
    if lumps[i as int].bytes.len() == 0 {
        0
    } else {
        placed_offset(lumps, i)
    }
}

/// The sixteen directory bytes of lump `i`.
pub open spec fn entry(lumps: Seq<LumpView>, i: nat) -> Seq<u8> {
    let l = lumps[i as int];
    le_bytes(directory_offset(lumps, i), 4) + le_bytes(l.bytes.len(), 4) + le_bytes(
        unsigned_value(l.version as int, 4),
        4,
    ) + le_bytes(unsigned_value(l.uncompressed_size as int, 4), 4)
}

/// The directory bytes of the first `n` lumps.
pub open spec fn entries(lumps: Seq<LumpView>, n: nat) -> Seq<u8>
    decreases n,
{
    if n == 0 {
        Seq::empty()
    } else {
        entries(lumps, (n - 1) as nat) + entry(lumps, (n - 1) as nat)
    }
}

/// The bytes of the header as the builder writes it.
pub open spec fn header_image(v: BuilderView) -> Seq<u8> {
    le_bytes(BSP_IDENT as nat, 4) + le_bytes(unsigned_value(v.version as int, 4), 4) + entries(
        v.lumps,
        BSP_LUMP_COUNT as nat,
    ) + le_bytes(unsigned_value(v.map_revision as int, 4), 4)
}

/// The whole file a builder writes.
pub open spec fn image(v: BuilderView) -> Seq<u8> {
    header_image(v) + body(v.lumps, BSP_LUMP_COUNT as nat)
}

/// Every non-empty lump's offset and length fit the directory's unsigned 32-bit fields.
pub open spec fn fits_directory(lumps: Seq<LumpView>) -> bool {
    forall|i: nat| i < BSP_LUMP_COUNT && #[trigger] lumps[i as int].bytes.len() > 0 ==> placed_offset(lumps, i)
        <= u32::MAX && lumps[i as int].bytes.len() <= u32::MAX
}

/// What building gives: the file, or why it cannot be written.
pub open spec fn build_spec(v: BuilderView) -> core::result::Result<Seq<u8>, Error> {
    if !(19 <= v.version <= 21) {
        Err(Error::UnsupportedVersion(v.version))
    } else if !fits_directory(v.lumps) {
        Err(Error::SizeOverflow)
    } else {
        Ok(image(v))
    }
}

/// Assembles a map from lumps, laying them out deterministically.
#[derive(Debug, Clone)]
pub struct Builder {
    version: i32,
    map_revision: i32,
    lumps: Vec<LumpData>,
}

impl View for Builder {
    type V = BuilderView;

    closed spec fn view(&self) -> BuilderView {
        BuilderView {
            version: self.version,
            map_revision: self.map_revision,
            lumps: self.lumps@.map_values(|d: LumpData| d@),
        }
    }
}

fn write_zeros(output: &mut Writer, n: usize)
    ensures
        final(output).data() == old(output).data() + zeros(n as nat),
{
    let mut i: usize = 0;
    while i < n
        invariant
            i <= n,
            output.data() == old(output).data() + zeros(i as nat),
        decreases n - i,
    {
        output.write_u8(0);
        i = i + 1;
        proof {
            assert(output.data() =~= old(output).data() + zeros(i as nat));
        }
    }
}

impl Builder {
    /// A builder holds one entry per lump of the directory.
    pub open spec fn wf(&self) -> bool {
        self@.lumps.len() == BSP_LUMP_COUNT
    }

    pub fn new(version: i32, map_revision: i32) -> (r: Self)
        ensures
            r.wf(),
            r@.version == version,
            r@.map_revision == map_revision,
            r@.lumps.len() == BSP_LUMP_COUNT,
            forall|i: int| 0 <= i < BSP_LUMP_COUNT ==> #[trigger] r@.lumps[i] == (LumpView {
                version: 0,
                uncompressed_size: 0,
                bytes: Seq::empty(),
            }),
    {
        let mut lumps: Vec<LumpData> = Vec::new();
        let mut i: usize = 0;
        while i < BSP_LUMP_COUNT
            invariant
                i <= BSP_LUMP_COUNT,
                lumps@.len() == i,
                forall|j: int| 0 <= j < i ==> #[trigger] lumps@[j]@ == (LumpView {
                    version: 0,
                    uncompressed_size: 0,
                    bytes: Seq::empty(),
                }),
            decreases BSP_LUMP_COUNT - i,
        {
            lumps.push(LumpData { version: 0, uncompressed_size: 0, bytes: Vec::new() });
            i = i + 1;
        }
        Builder { version, map_revision, lumps }
    }

    pub fn set_lump(&mut self, index: usize, version: i32, uncompressed_size: i32, bytes: Vec<u8>)
        requires
            old(self).wf(),
            index < BSP_LUMP_COUNT,
        ensures
            final(self).wf(),
            final(self)@.version == old(self)@.version,
            final(self)@.map_revision == old(self)@.map_revision,
            final(self)@.lumps == old(self)@.lumps.update(
                index as int,
                LumpView { version, uncompressed_size, bytes: bytes@ },
            ),
    {
        self.lumps.set(index, LumpData { version, uncompressed_size, bytes });
        proof {
            assert(self@.lumps =~= old(self)@.lumps.update(
                index as int,
                LumpView { version, uncompressed_size, bytes: bytes@ },
            ));
        }
    }

    /// Where each lump will start, after checking that every offset and length fits.
    #[verifier::spinoff_prover]
    #[verifier::rlimit(30)]
    fn placement(&self) -> (r: Result<Vec<u32>>)
        requires
            self.wf(),
        ensures
            match r {
                Ok(offsets) => {
                    &&& fits_directory(self@.lumps)
                    &&& offsets@.len() == BSP_LUMP_COUNT
                    &&& forall|i: int| 0 <= i < BSP_LUMP_COUNT ==> #[trigger] offsets@[i] == directory_offset(self@.lumps, i as nat)
                },
                Err(e) => !fits_directory(self@.lumps) && e == Error::SizeOverflow,
            },
    {
        let ghost lumps = self@.lumps;
        let mut offsets: Vec<u32> = Vec::new();
        let mut end: u64 = BSP_HEADER_SIZE as u64;
        let mut i: usize = 0;
        while i < BSP_LUMP_COUNT
            invariant
                i <= BSP_LUMP_COUNT,
                lumps == self@.lumps,
                self.lumps@.len() == BSP_LUMP_COUNT,
                offsets@.len() == i,
                end == BSP_HEADER_SIZE + body(lumps, i as nat).len(),
                end <= 2 * 0xffff_ffffu64,
                forall|j: int| 0 <= j < i ==> #[trigger] offsets@[j] == directory_offset(lumps, j as nat),
                forall|j: nat| j < i && #[trigger] lumps[j as int].bytes.len() > 0 ==> placed_offset(lumps, j) <= u32::MAX
                    && lumps[j as int].bytes.len() <= u32::MAX,
            decreases BSP_LUMP_COUNT - i,
        {
            let length = self.lumps[i].bytes.len();
            proof {
                assert(lumps[i as int].bytes.len() == length);
            }
            if length == 0 {
                offsets.push(0);
            } else {
                let offset = end + (if end % 4 == 0 { 0 } else { 4 - end % 4 });
                if offset > 0xffff_ffff || length as u64 > 0xffff_ffff {
                    proof {
                        assert(lumps[i as int].bytes.len() > 0);
                    }
                    return Err(Error::SizeOverflow);
                }
                offsets.push(offset as u32);
                end = offset + length as u64;
            }
            i = i + 1;
        }
        Ok(offsets)
    }

    pub fn build(&self) -> (r: Result<Vec<u8>>)
        requires
            self.wf(),
        ensures
            match r {
                Ok(b) => build_spec(self@) == Ok::<Seq<u8>, Error>(b@),
                Err(e) => build_spec(self@) == Err::<Seq<u8>, Error>(e),
            },
    {
        if !(19 <= self.version && self.version <= 21) {
            return Err(Error::UnsupportedVersion(self.version));
        }
        let offsets = self.placement()?;
        let ghost v = self@;
        let mut output = Writer::with_capacity(BSP_HEADER_SIZE);
        output.write_u32_le(BSP_IDENT);
        output.write_i32_le(self.version);
        let ghost start = output.data();
        let mut i: usize = 0;
        while i < BSP_LUMP_COUNT
            invariant
                i <= BSP_LUMP_COUNT,
                v == self@,
                self.lumps@.len() == BSP_LUMP_COUNT,
                fits_directory(v.lumps),
                offsets@.len() == BSP_LUMP_COUNT,
                forall|j: int| 0 <= j < BSP_LUMP_COUNT ==> #[trigger] offsets@[j] == directory_offset(v.lumps, j as nat),
                output.data() == start + entries(v.lumps, i as nat),
            decreases BSP_LUMP_COUNT - i,
        {
            let lump = &self.lumps[i];
            proof {
                assert(v.lumps[i as int] == lump@);
                if lump.bytes@.len() > 0 {
                    assert(v.lumps[i as int].bytes.len() > 0);
                }
            }
            output.write_u32_le(offsets[i]);
            output.write_u32_le(lump.bytes.len() as u32);
            output.write_i32_le(lump.version);
            output.write_i32_le(lump.uncompressed_size);
            i = i + 1;
            proof {
                assert(output.data() =~= start + entries(v.lumps, i as nat));
            }
        }
        output.write_i32_le(self.map_revision);
        proof {
            assert(output.data() =~= header_image(v));
        }
        let mut i: usize = 0;
        while i < BSP_LUMP_COUNT
            invariant
                i <= BSP_LUMP_COUNT,
                v == self@,
                self.lumps@.len() == BSP_LUMP_COUNT,
                fits_directory(v.lumps),
                offsets@.len() == BSP_LUMP_COUNT,
                forall|j: int| 0 <= j < BSP_LUMP_COUNT ==> #[trigger] offsets@[j] == directory_offset(v.lumps, j as nat),
                output.data() == header_image(v) + body(v.lumps, i as nat),
            decreases BSP_LUMP_COUNT - i,
        {
            let lump = &self.lumps[i];
            proof {
                assert(v.lumps[i as int] == lump@);
            }
            if lump.bytes.len() != 0 {
                proof {
                    assert(v.lumps[i as int].bytes.len() > 0);
                    assert(header_image(v).len() == BSP_HEADER_SIZE) by {
                        lemma_entries_len(v.lumps, BSP_LUMP_COUNT as nat);
                    }
                }
                let pad = offsets[i] as usize - output.position();
                write_zeros(&mut output, pad);
                output.write_bytes(lump.bytes.as_slice());
            }
            i = i + 1;
            proof {
                assert(output.data() =~= header_image(v) + body(v.lumps, i as nat));
            }
        }
        Ok(output.into_inner())
    }
}

/// The directory of `n` lumps is sixteen bytes per lump.
pub proof fn lemma_entries_len(lumps: Seq<LumpView>, n: nat)
    ensures
        entries(lumps, n).len() == 16 * n,
    decreases n,
{
    if n > 0 {
        lemma_entries_len(lumps, (n - 1) as nat);
    }
}


// ---------------------------------------------------------------------------
// What building and parsing have to do with each other
// ---------------------------------------------------------------------------

/// A prefix of the lumps lays out as a prefix of the body.
pub proof fn lemma_body_prefix(lumps: Seq<LumpView>, m: nat, n: nat)
    requires
        m <= n,
    ensures
        body(lumps, m).len() <= body(lumps, n).len(),
        body(lumps, n).subrange(0, body(lumps, m).len() as int) == body(lumps, m),
    decreases n,
{
    if m < n {
        lemma_body_prefix(lumps, m, (n - 1) as nat);
        let prev = body(lumps, (n - 1) as nat);
        let part = body(lumps, m);
        assert(body(lumps, n).subrange(0, part.len() as int) =~= prev.subrange(0, part.len() as int));
    } else {
        assert(body(lumps, n).subrange(0, body(lumps, n).len() as int) =~= body(lumps, n));
    }
}

/// A non-empty lump's bytes sit in the body where the directory says.
pub proof fn lemma_body_holds(lumps: Seq<LumpView>, i: nat, n: nat)
    requires
        i < n,
        lumps[i as int].bytes.len() > 0,
    ensures
        BSP_HEADER_SIZE <= placed_offset(lumps, i),
        placed_offset(lumps, i) + lumps[i as int].bytes.len() <= BSP_HEADER_SIZE + body(lumps, n).len(),
        body(lumps, n).subrange(
            placed_offset(lumps, i) - BSP_HEADER_SIZE,
            placed_offset(lumps, i) - BSP_HEADER_SIZE + lumps[i as int].bytes.len(),
        ) == lumps[i as int].bytes,
{
    let next = body(lumps, i + 1);
    let start = placed_offset(lumps, i) - BSP_HEADER_SIZE;
    let len = lumps[i as int].bytes.len();
    assert(next == body(lumps, i) + zeros(binary::align_padding((BSP_HEADER_SIZE + body(lumps, i).len()) as nat, 4)) + lumps[i as int].bytes);
    assert(start + len == next.len());
    lemma_body_prefix(lumps, i + 1, n);
    assert(body(lumps, n).subrange(start, start + len) =~= next.subrange(start, start + len));
    assert(next.subrange(start, start + len) =~= lumps[i as int].bytes);
}

/// The directory's sixteen bytes for lump `i` sit at `16 * i`.
pub proof fn lemma_entries_index(lumps: Seq<LumpView>, n: nat, i: nat)
    requires
        i < n,
    ensures
        entries(lumps, n).subrange(16 * (i as int), 16 * (i as int) + 16) == entry(lumps, i),
    decreases n,
{
    lemma_entries_len(lumps, (n - 1) as nat);
    let prev = entries(lumps, (n - 1) as nat);
    if i == n - 1 {
        assert(entries(lumps, n).subrange(16 * (i as int), 16 * (i as int) + 16) =~= entry(lumps, i));
    } else {
        lemma_entries_index(lumps, (n - 1) as nat, i);
        assert(entries(lumps, n).subrange(16 * (i as int), 16 * (i as int) + 16) =~= prev.subrange(16 * (i as int), 16 * (i as int) + 16));
    }
}

/// A 32-bit two's complement value survives being spelled unsigned and read back signed.
pub proof fn lemma_signed_round_trip(v: int)
    requires
        -0x8000_0000 <= v < 0x8000_0000,
    ensures
        unsigned_value(v, 4) < pow256(4),
        le_value(le_bytes(unsigned_value(v, 4), 4)) == unsigned_value(v, 4),
        signed_value(unsigned_value(v, 4), 4) == v,
{
    lemma_pow256_values();
    lemma_le_value_of_bytes(unsigned_value(v, 4), 4);
}

/// Reading four bytes spelled for a value below `2^31` gives the value, signed or not.
proof fn lemma_field(s: Seq<u8>, off: int, v: nat)
    requires
        0 <= off,
        off + 4 <= s.len(),
        v < 0x8000_0000,
        s.subrange(off, off + 4) == le_bytes(v, 4),
    ensures
        i32_at(s, off) == v,
        u32_at(s, off) == v,
{
    lemma_pow256_values();
    lemma_le_value_of_bytes(v, 4);
}

/// Where the directory entry of lump `i` and the fields after it sit in a built file.
proof fn lemma_image_entry(v: BuilderView, i: nat)
    requires
        i < BSP_LUMP_COUNT,
    ensures
        image(v).len() == BSP_HEADER_SIZE + body(v.lumps, BSP_LUMP_COUNT as nat).len(),
        image(v).subrange(8 + 16 * (i as int), 8 + 16 * (i as int) + 4) == le_bytes(directory_offset(v.lumps, i), 4),
        image(v).subrange(8 + 16 * (i as int) + 4, 8 + 16 * (i as int) + 8) == le_bytes(v.lumps[i as int].bytes.len(), 4),
        image(v).subrange(8 + 16 * (i as int) + 8, 8 + 16 * (i as int) + 12) == le_bytes(
            unsigned_value(v.lumps[i as int].version as int, 4),
            4,
        ),
        image(v).subrange(8 + 16 * (i as int) + 12, 8 + 16 * (i as int) + 16) == le_bytes(
            unsigned_value(v.lumps[i as int].uncompressed_size as int, 4),
            4,
        ),
{
    let s = image(v);
    let lumps = v.lumps;
    lemma_entries_len(lumps, BSP_LUMP_COUNT as nat);
    lemma_entries_index(lumps, BSP_LUMP_COUNT as nat, i);
    let dir = entries(lumps, BSP_LUMP_COUNT as nat);
    let e = entry(lumps, i);
    let base = 8 + 16 * (i as int);
    assert(s.subrange(base, base + 16) =~= dir.subrange(16 * (i as int), 16 * (i as int) + 16));
    assert(s.subrange(base, base + 4) =~= e.subrange(0, 4));
    assert(s.subrange(base + 4, base + 8) =~= e.subrange(4, 8));
    assert(s.subrange(base + 8, base + 12) =~= e.subrange(8, 12));
    assert(s.subrange(base + 12, base + 16) =~= e.subrange(12, 16));
}

/// Every directory field a builder writes reads back as itself: each lump's offset and
/// length fit in a signed 32-bit field.
pub open spec fn fields_fit(v: BuilderView) -> bool {
    forall|i: int| 0 <= i < BSP_LUMP_COUNT ==> directory_offset(v.lumps, i as nat) < 0x8000_0000
        && #[trigger] v.lumps[i].bytes.len() < 0x8000_0000
}

proof fn lemma_repack(v: BuilderView, limits: Limits)
    requires
        v.lumps.len() == BSP_LUMP_COUNT,
        build_spec(v) is Ok,
        image(v).len() <= limits.max_file_size,
        fields_fit(v),
        forall|i: int| 0 <= i < BSP_LUMP_COUNT ==> #[trigger] v.lumps[i].bytes.len() <= limits.max_lump_size,
    ensures
        header_spec(image(v), limits) is Ok,
        repacked(BspView { header: header_spec(image(v), limits)->Ok_0, bytes: image(v) }) == v,
        build_spec(repacked(BspView { header: header_spec(image(v), limits)->Ok_0, bytes: image(v) }))
            == Ok::<Seq<u8>, Error>(image(v)),
{
    let s = image(v);
    let lumps = v.lumps;
    let n = BSP_LUMP_COUNT as nat;
    lemma_entries_len(lumps, n);
    lemma_pow256_values();
    assert(s.subrange(0, 4) =~= le_bytes(BSP_IDENT as nat, 4));
    lemma_le_value_of_bytes(BSP_IDENT as nat, 4);
    assert(s.subrange(4, 8) =~= le_bytes(unsigned_value(v.version as int, 4), 4));
    lemma_signed_round_trip(v.version as int);
    assert(s.subrange(1032, 1036) =~= le_bytes(unsigned_value(v.map_revision as int, 4), 4));
    lemma_signed_round_trip(v.map_revision as int);
    let expected = |i: int|
        LumpHeader {
            offset: directory_offset(lumps, i as nat) as i32,
            length: lumps[i].bytes.len() as i32,
            version: lumps[i].version,
            uncompressed_size: lumps[i].uncompressed_size,
        };
    assert forall|i: int| 0 <= i < BSP_LUMP_COUNT implies #[trigger] lump_at(s, i) == expected(i) && lump_refusal(
        s.len(),
        limits,
        i as nat,
        lump_at(s, i),
    ) is None by {
        lemma_image_entry(v, i as nat);
        if lumps[i].bytes.len() > 0 {
            lemma_body_holds(lumps, i as nat, n);
        }
        lemma_field(s, 8 + 16 * i, directory_offset(lumps, i as nat));
        lemma_field(s, 8 + 16 * i + 4, lumps[i].bytes.len());
        lemma_signed_round_trip(lumps[i].version as int);
        lemma_signed_round_trip(lumps[i].uncompressed_size as int);
    }
    lemma_directory_clear(s, limits, 0);
    let h = header_spec(s, limits)->Ok_0;
    assert(h.lumps =~= Seq::new(n, |i: int| lump_at(s, i)));
    let back = repacked(BspView { header: h, bytes: s });
    assert forall|i: int| 0 <= i < BSP_LUMP_COUNT implies #[trigger] back.lumps[i] == lumps[i] by {
        assert(h.lumps[i] == lump_at(s, i));
        assert(lump_at(s, i) == expected(i));
        if lumps[i].bytes.len() > 0 {
            lemma_body_holds(lumps, i as nat, n);
            let off = placed_offset(lumps, i as nat);
            assert(s.subrange(off as int, off + lumps[i].bytes.len() as int) =~= body(lumps, n).subrange(
                off - BSP_HEADER_SIZE,
                off - BSP_HEADER_SIZE + lumps[i].bytes.len(),
            ));
        } else {
            assert(lumps[i].bytes =~= Seq::<u8>::empty());
        }
    }
    assert(back.lumps =~= lumps);
}

/// A built file whose lumps the limits admit parses, and what it parses to gives the
/// builder back: so the lumps read out of it are those written, and building from a
/// parsed map rewrites it byte for byte.
pub proof fn lemma_build_then_parse(v: BuilderView, limits: Limits)
    requires
        v.lumps.len() == BSP_LUMP_COUNT,
        build_spec(v) is Ok,
        image(v).len() <= limits.max_file_size,
        image(v).len() <= 0x8000_0000,
        forall|i: int| 0 <= i < BSP_LUMP_COUNT ==> #[trigger] v.lumps[i].bytes.len() <= limits.max_lump_size,
    ensures
        header_spec(image(v), limits) is Ok,
        repacked(BspView { header: header_spec(image(v), limits)->Ok_0, bytes: image(v) }) == v,
        build_spec(repacked(BspView { header: header_spec(image(v), limits)->Ok_0, bytes: image(v) }))
            == Ok::<Seq<u8>, Error>(image(v)),
{
    assert forall|i: int| 0 <= i < BSP_LUMP_COUNT implies directory_offset(v.lumps, i as nat) < 0x8000_0000
        && #[trigger] v.lumps[i].bytes.len() < 0x8000_0000 by {
        lemma_image_entry(v, i as nat);
        if v.lumps[i].bytes.len() > 0 {
            lemma_body_holds(v.lumps, i as nat, BSP_LUMP_COUNT as nat);
        }
    }
    lemma_repack(v, limits);
}

/// Each directory entry of a file that parses is one its lumps are read by.
proof fn lemma_directory_entries_clear(s: Seq<u8>, limits: Limits, i: nat, j: nat)
    requires
        i <= j < BSP_LUMP_COUNT,
        directory_refusal(s, limits, i) is None,
    ensures
        s.len() >= 8 + 16 * j + 16,
        lump_refusal(s.len(), limits, j, lump_at(s, j as int)) is None,
    decreases j - i,
{
    if i < j {
        lemma_directory_entries_clear(s, limits, i + 1, j);
    }
}

/// A directory field spelled for a value that a signed read finds non-negative holds a
/// value below `2^31`.
proof fn lemma_nonnegative_field(s: Seq<u8>, off: int, d: nat)
    requires
        0 <= off,
        off + 4 <= s.len(),
        d <= u32::MAX,
        s.subrange(off, off + 4) == le_bytes(d, 4),
        i32_at(s, off) >= 0,
    ensures
        d < 0x8000_0000,
{
    lemma_pow256_values();
    lemma_le_value_of_bytes(d, 4);
    if d >= 0x8000_0000 {
        assert(signed_value(d, 4) == d - 0x1_0000_0000);
        assert(i32_at(s, off) < 0);
    }
}

/// Whatever the limits, a built file that parses gives the builder back: the lumps read
/// out of it are those written, and building from the parsed map rewrites it byte for
/// byte.
pub proof fn lemma_parsed_build_repacks(v: BuilderView, limits: Limits)
    requires
        v.lumps.len() == BSP_LUMP_COUNT,
        build_spec(v) is Ok,
        header_spec(image(v), limits) is Ok,
    ensures
        repacked(BspView { header: header_spec(image(v), limits)->Ok_0, bytes: image(v) }) == v,
        build_spec(repacked(BspView { header: header_spec(image(v), limits)->Ok_0, bytes: image(v) }))
            == Ok::<Seq<u8>, Error>(image(v)),
{
    let s = image(v);
    assert forall|i: int| 0 <= i < BSP_LUMP_COUNT implies directory_offset(v.lumps, i as nat) < 0x8000_0000
        && #[trigger] v.lumps[i].bytes.len() < 0x8000_0000 && v.lumps[i].bytes.len() <= limits.max_lump_size by {
        lemma_image_entry(v, i as nat);
        lemma_directory_entries_clear(s, limits, 0, i as nat);
        let base = 8 + 16 * i;
        assert(v.lumps[i].bytes.len() > 0 ==> directory_offset(v.lumps, i as nat) <= u32::MAX
            && v.lumps[i].bytes.len() <= u32::MAX);
        if v.lumps[i].bytes.len() > 0 {
            lemma_nonnegative_field(s, base, directory_offset(v.lumps, i as nat));
            lemma_nonnegative_field(s, base + 4, v.lumps[i].bytes.len());
        } else {
            assert(directory_offset(v.lumps, i as nat) == 0);
        }
        lemma_field(s, base + 4, v.lumps[i].bytes.len());
    }
    lemma_repack(v, limits);
}

/// The directory entries from `i` on are all in order.
proof fn lemma_directory_clear(s: Seq<u8>, limits: Limits, i: nat)
    requires
        s.len() >= BSP_HEADER_SIZE,
        forall|j: int| i <= j < BSP_LUMP_COUNT ==> lump_refusal(s.len(), limits, j as nat, #[trigger] lump_at(s, j)) is None,
    ensures
        directory_refusal(s, limits, i) is None,
    decreases BSP_LUMP_COUNT - i,
{
    if i < BSP_LUMP_COUNT {
        assert(lump_refusal(s.len(), limits, i, lump_at(s, i as int)) is None);
        lemma_directory_clear(s, limits, i + 1);
    }
}

// ---------------------------------------------------------------------------
// Messages
// ---------------------------------------------------------------------------

/// What an error says.
pub open spec fn error_text(e: Error) -> Seq<char> {
    match e {
        Error::Binary(inner) => binary::error_text(inner),
        Error::InvalidIdent(value) => "invalid BSP identifier 0x"@ + hex_digits(value as nat, 8),
        Error::UnsupportedVersion(version) => "unsupported BSP version "@ + signed_decimal(version as int),
        Error::FileTooLarge(size) => "BSP is larger than the configured limit: "@ + decimal(size as nat),
        Error::InvalidLump { index, offset, length } => "BSP lump "@ + decimal(index as nat) + " has invalid range "@ + signed_decimal(offset as int) + "+"@ + signed_decimal(length as int),
        Error::LumpTooLarge { index, length } => "BSP lump "@ + decimal(index as nat) + " is larger than the configured limit: "@ + decimal(length as nat),
        Error::CompressedCoreLump(index) => "BSP core lump "@ + decimal(index as nat) + " is compressed"@,
        Error::InvalidRecordSize { lump, length, record_size } => "BSP lump "@ + decimal(lump as nat) + " length "@ + decimal(length as nat) + " is not a multiple of "@ + decimal(record_size as nat),
        Error::UnsupportedLumpVersion { lump, version } => "BSP lump "@ + decimal(lump as nat) + " has unsupported version "@ + signed_decimal(version as int),
        Error::InvalidPlaneIndex { node, plane } => "BSP node "@ + decimal(node as nat) + " references invalid plane "@ + signed_decimal(plane as int),
        Error::InvalidChildIndex { node, child } => "BSP node "@ + decimal(node as nat) + " references invalid child "@ + signed_decimal(child as int),
        Error::InvalidCluster(cluster) => "invalid BSP cluster "@ + signed_decimal(cluster as int),
        Error::InvalidVisibilityHeader => "invalid BSP visibility header"@,
        Error::InvalidVisibilityOffset(offset) => "invalid BSP visibility offset "@ + signed_decimal(offset as int),
        Error::InvalidVisibilityRun => "invalid BSP visibility RLE run"@,
        Error::MissingWorldTree => "BSP has no world tree"@,
        Error::TraversalCycle => "BSP world tree contains a cycle"@,
        Error::NonFinitePoint => "BSP query point must be finite"@,
        Error::SizeOverflow => "BSP size cannot be represented by the format"@,
        Error::InvalidFaceRange { face, first, count } => "BSP face "@ + decimal(face as nat) + " names surface edges "@ + signed_decimal(first as int) + "+"@ + decimal(count as nat) + ", which is outside the lump"@,
        Error::InvalidSurfedge { surfedge, edge } => "BSP surface edge "@ + decimal(surfedge as nat) + " references invalid edge "@ + signed_decimal(edge as int),
        Error::InvalidEdgeVertex { edge, vertex } => "BSP edge "@ + decimal(edge as nat) + " references invalid vertex "@ + decimal(vertex as nat),
        Error::InvalidFaceIndex(face) => "invalid BSP face index "@ + decimal(face as nat),
        Error::DegenerateFace { face, edges } => "BSP face "@ + decimal(face as nat) + " has only "@ + decimal(edges as nat) + " edges"@,
        Error::NonFiniteVertex(index) => "BSP vertex "@ + decimal(index as nat) + " is not finite"@,
        Error::InvalidTexInfo(index) => "invalid BSP texinfo index "@ + signed_decimal(index as int),
        Error::InvalidTexData(index) => "invalid BSP texdata index "@ + signed_decimal(index as int),
        Error::InvalidLightingLump(length) => "BSP lighting lump of "@ + decimal(length as nat) + " bytes is not whole samples"@,
        Error::InvalidLightOffset(offset) => "BSP face has an unusable lightmap offset "@ + signed_decimal(offset as int),
        Error::InvalidLightmapExtent { size } => "BSP face has an unusable lightmap extent "@ + signed_decimal(size[0] as int) + "x"@ + signed_decimal(size[1] as int),
        Error::LightmapOutOfRange { offset, length } => "BSP face's "@ + decimal(length as nat) + " lightmap bytes at "@ + signed_decimal(offset as int) + " run past the lighting lump"@,
        Error::LightmapAtlasTooLarge { blocks, limit } => decimal(blocks as nat) + " lightmap blocks do not pack within "@ + decimal(limit as nat) + " rows"@,
        Error::InvalidEntityText => "invalid BSP entity text"@,
        Error::InvalidGameLumpRange { offset, length } => "game lump at "@ + decimal(offset as nat) + " for "@ + decimal(length as nat) + " bytes runs past the map"@,
        Error::InvalidLumpLength { lump, length } => "lump "@ + decimal(lump as nat) + " holds "@ + decimal(length as nat) + " bytes, which its records do not divide"@,
        Error::InvalidAmbientRange { first, count, samples } => "a leaf claims "@ + decimal(count as nat) + " ambient samples from "@ + decimal(first as nat) + ", past the "@ + decimal(samples as nat) + " stored"@,
        Error::InvalidStaticPropStride { version, stride, count, length } => "static prop lump version "@ + signed_decimal(version as int) + " implies a "@ + decimal(stride as nat) + "-byte record, which does not divide "@ + decimal(length as nat) + " bytes over "@ + decimal(count as nat) + " props"@,
        Error::InvalidStaticPropModel { index, model } => "static prop "@ + decimal(index as nat) + " names model "@ + decimal(model as nat) + ", which the dictionary does not hold"@,
        Error::InvalidStaticPropLeaves { index, first, count } => "static prop "@ + decimal(index as nat) + " names leaves "@ + decimal(first as nat) + ".."@ + decimal((first + count) as nat) + ", which the lump does not hold"@,
        Error::InvalidLeafFaceRun { first, end } => "BSP leaf names leaf faces "@ + decimal(first as nat) + ".."@ + decimal(end as nat) + ", which the lump does not hold"@,
        Error::InvalidMaterialName(offset) => "invalid BSP material name at offset "@ + decimal(offset as nat),
        Error::UnusableProjection(index) => "BSP texinfo "@ + decimal(index as nat) + " has no usable texture projection"@,
    }
}

impl Error {
    /// The error as a sentence. A static prop's run of leaves is stated by where it
    /// ends, which has to be a number there is.
    pub fn message(&self) -> (r: String)
        requires
            *self matches Error::InvalidStaticPropLeaves { first, count, .. } ==> first + count <= usize::MAX,
        ensures
            r@ == error_text(*self),
    {
        let mut s = String::new();
        match self {
            Error::Binary(inner) => {
                return inner.message();
            },
            Error::InvalidIdent(value) => {
                push_str(&mut s, "invalid BSP identifier 0x");
                push_hex(&mut s, *value as u64, 8);
            },
            Error::UnsupportedVersion(version) => {
                push_str(&mut s, "unsupported BSP version ");
                push_signed(&mut s, *version as i64);
            },
            Error::FileTooLarge(size) => {
                push_str(&mut s, "BSP is larger than the configured limit: ");
                push_decimal(&mut s, *size as u64);
            },
            Error::InvalidLump { index, offset, length } => {
                push_str(&mut s, "BSP lump ");
                push_decimal(&mut s, *index as u64);
                push_str(&mut s, " has invalid range ");
                push_signed(&mut s, *offset as i64);
                push_str(&mut s, "+");
                push_signed(&mut s, *length as i64);
            },
            Error::LumpTooLarge { index, length } => {
                push_str(&mut s, "BSP lump ");
                push_decimal(&mut s, *index as u64);
                push_str(&mut s, " is larger than the configured limit: ");
                push_decimal(&mut s, *length as u64);
            },
            Error::CompressedCoreLump(index) => {
                push_str(&mut s, "BSP core lump ");
                push_decimal(&mut s, *index as u64);
                push_str(&mut s, " is compressed");
            },
            Error::InvalidRecordSize { lump, length, record_size } => {
                push_str(&mut s, "BSP lump ");
                push_decimal(&mut s, *lump as u64);
                push_str(&mut s, " length ");
                push_decimal(&mut s, *length as u64);
                push_str(&mut s, " is not a multiple of ");
                push_decimal(&mut s, *record_size as u64);
            },
            Error::UnsupportedLumpVersion { lump, version } => {
                push_str(&mut s, "BSP lump ");
                push_decimal(&mut s, *lump as u64);
                push_str(&mut s, " has unsupported version ");
                push_signed(&mut s, *version as i64);
            },
            Error::InvalidPlaneIndex { node, plane } => {
                push_str(&mut s, "BSP node ");
                push_decimal(&mut s, *node as u64);
                push_str(&mut s, " references invalid plane ");
                push_signed(&mut s, *plane as i64);
            },
            Error::InvalidChildIndex { node, child } => {
                push_str(&mut s, "BSP node ");
                push_decimal(&mut s, *node as u64);
                push_str(&mut s, " references invalid child ");
                push_signed(&mut s, *child as i64);
            },
            Error::InvalidCluster(cluster) => {
                push_str(&mut s, "invalid BSP cluster ");
                push_signed(&mut s, *cluster as i64);
            },
            Error::InvalidVisibilityHeader => {
                push_str(&mut s, "invalid BSP visibility header");
            },
            Error::InvalidVisibilityOffset(offset) => {
                push_str(&mut s, "invalid BSP visibility offset ");
                push_signed(&mut s, *offset as i64);
            },
            Error::InvalidVisibilityRun => {
                push_str(&mut s, "invalid BSP visibility RLE run");
            },
            Error::MissingWorldTree => {
                push_str(&mut s, "BSP has no world tree");
            },
            Error::TraversalCycle => {
                push_str(&mut s, "BSP world tree contains a cycle");
            },
            Error::NonFinitePoint => {
                push_str(&mut s, "BSP query point must be finite");
            },
            Error::SizeOverflow => {
                push_str(&mut s, "BSP size cannot be represented by the format");
            },
            Error::InvalidFaceRange { face, first, count } => {
                push_str(&mut s, "BSP face ");
                push_decimal(&mut s, *face as u64);
                push_str(&mut s, " names surface edges ");
                push_signed(&mut s, *first as i64);
                push_str(&mut s, "+");
                push_decimal(&mut s, *count as u64);
                push_str(&mut s, ", which is outside the lump");
            },
            Error::InvalidSurfedge { surfedge, edge } => {
                push_str(&mut s, "BSP surface edge ");
                push_decimal(&mut s, *surfedge as u64);
                push_str(&mut s, " references invalid edge ");
                push_signed(&mut s, *edge as i64);
            },
            Error::InvalidEdgeVertex { edge, vertex } => {
                push_str(&mut s, "BSP edge ");
                push_decimal(&mut s, *edge as u64);
                push_str(&mut s, " references invalid vertex ");
                push_decimal(&mut s, *vertex as u64);
            },
            Error::InvalidFaceIndex(face) => {
                push_str(&mut s, "invalid BSP face index ");
                push_decimal(&mut s, *face as u64);
            },
            Error::DegenerateFace { face, edges } => {
                push_str(&mut s, "BSP face ");
                push_decimal(&mut s, *face as u64);
                push_str(&mut s, " has only ");
                push_decimal(&mut s, *edges as u64);
                push_str(&mut s, " edges");
            },
            Error::NonFiniteVertex(index) => {
                push_str(&mut s, "BSP vertex ");
                push_decimal(&mut s, *index as u64);
                push_str(&mut s, " is not finite");
            },
            Error::InvalidTexInfo(index) => {
                push_str(&mut s, "invalid BSP texinfo index ");
                push_signed(&mut s, *index as i64);
            },
            Error::InvalidTexData(index) => {
                push_str(&mut s, "invalid BSP texdata index ");
                push_signed(&mut s, *index as i64);
            },
            Error::InvalidLightingLump(length) => {
                push_str(&mut s, "BSP lighting lump of ");
                push_decimal(&mut s, *length as u64);
                push_str(&mut s, " bytes is not whole samples");
            },
            Error::InvalidLightOffset(offset) => {
                push_str(&mut s, "BSP face has an unusable lightmap offset ");
                push_signed(&mut s, *offset as i64);
            },
            Error::InvalidLightmapExtent { size } => {
                push_str(&mut s, "BSP face has an unusable lightmap extent ");
                push_signed(&mut s, size[0] as i64);
                push_str(&mut s, "x");
                push_signed(&mut s, size[1] as i64);
            },
            Error::LightmapOutOfRange { offset, length } => {
                push_str(&mut s, "BSP face's ");
                push_decimal(&mut s, *length as u64);
                push_str(&mut s, " lightmap bytes at ");
                push_signed(&mut s, *offset as i64);
                push_str(&mut s, " run past the lighting lump");
            },
            Error::LightmapAtlasTooLarge { blocks, limit } => {
                push_decimal(&mut s, *blocks as u64);
                push_str(&mut s, " lightmap blocks do not pack within ");
                push_decimal(&mut s, *limit as u64);
                push_str(&mut s, " rows");
            },
            Error::InvalidEntityText => {
                push_str(&mut s, "invalid BSP entity text");
            },
            Error::InvalidGameLumpRange { offset, length } => {
                push_str(&mut s, "game lump at ");
                push_decimal(&mut s, *offset as u64);
                push_str(&mut s, " for ");
                push_decimal(&mut s, *length as u64);
                push_str(&mut s, " bytes runs past the map");
            },
            Error::InvalidLumpLength { lump, length } => {
                push_str(&mut s, "lump ");
                push_decimal(&mut s, *lump as u64);
                push_str(&mut s, " holds ");
                push_decimal(&mut s, *length as u64);
                push_str(&mut s, " bytes, which its records do not divide");
            },
            Error::InvalidAmbientRange { first, count, samples } => {
                push_str(&mut s, "a leaf claims ");
                push_decimal(&mut s, *count as u64);
                push_str(&mut s, " ambient samples from ");
                push_decimal(&mut s, *first as u64);
                push_str(&mut s, ", past the ");
                push_decimal(&mut s, *samples as u64);
                push_str(&mut s, " stored");
            },
            Error::InvalidStaticPropStride { version, stride, count, length } => {
                push_str(&mut s, "static prop lump version ");
                push_signed(&mut s, *version as i64);
                push_str(&mut s, " implies a ");
                push_decimal(&mut s, *stride as u64);
                push_str(&mut s, "-byte record, which does not divide ");
                push_decimal(&mut s, *length as u64);
                push_str(&mut s, " bytes over ");
                push_decimal(&mut s, *count as u64);
                push_str(&mut s, " props");
            },
            Error::InvalidStaticPropModel { index, model } => {
                push_str(&mut s, "static prop ");
                push_decimal(&mut s, *index as u64);
                push_str(&mut s, " names model ");
                push_decimal(&mut s, *model as u64);
                push_str(&mut s, ", which the dictionary does not hold");
            },
            Error::InvalidStaticPropLeaves { index, first, count } => {
                push_str(&mut s, "static prop ");
                push_decimal(&mut s, *index as u64);
                push_str(&mut s, " names leaves ");
                push_decimal(&mut s, *first as u64);
                push_str(&mut s, "..");
                push_decimal(&mut s, (*first + *count) as u64);
                push_str(&mut s, ", which the lump does not hold");
            },
            Error::InvalidLeafFaceRun { first, end } => {
                push_str(&mut s, "BSP leaf names leaf faces ");
                push_decimal(&mut s, *first as u64);
                push_str(&mut s, "..");
                push_decimal(&mut s, *end as u64);
                push_str(&mut s, ", which the lump does not hold");
            },
            Error::InvalidMaterialName(offset) => {
                push_str(&mut s, "invalid BSP material name at offset ");
                push_decimal(&mut s, *offset as u64);
            },
            Error::UnusableProjection(index) => {
                push_str(&mut s, "BSP texinfo ");
                push_decimal(&mut s, *index as u64);
                push_str(&mut s, " has no usable texture projection");
            },
        }
        s
    }
}

} // verus!
