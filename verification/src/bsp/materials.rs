//! The materials a map's surfaces are drawn with.
//!
//! Three lumps have to agree for a surface to name a material: a texinfo points at a
//! texdata, which points into a table of offsets, which point into one run of
//! concatenated names. Each of those is checked here rather than while drawing, because
//! a map that fails them cannot be drawn at all. The projections and reflectivity are
//! floats, kept as the bit patterns they are stored as.
use vstd::prelude::*;
use vstd::utf8::{valid_utf8, encode_utf8};
use vstd::string::StringSliceAdditionalSpecFns;
use crate::binary::Reader;
use crate::bsp::{
    Bsp, BspView, Error, Result, LUMP_TEXINFO, LUMP_TEXDATA, LUMP_TEXDATA_STRING_TABLE,
    LUMP_TEXDATA_STRING_DATA, u32_at, i32_at,
};
use crate::bsp::records::{
    Face, core_lump, core_lump_spec, parse_records, record_reader, records, lemma_record_room,
    lemma_record_count, take_u32, take_i32, parse_texdata_string_table, string_table_spec,
};
use crate::bsp::surfaces::lump_records;
use crate::bsp::entities::utf8_text;

verus! {

pub const TEXINFO_SIZE: usize = 72;
pub const TEXDATA_SIZE: usize = 32;

/// `SURF_SKY`, `SURF_NODRAW`, `SURF_HINT` and `SURF_SKIP`: surfaces the compiler leaves
/// in the lump but that are never drawn as world geometry.
pub const SURF_SKY: i32 = 0x0004;
pub const SURF_NODRAW: i32 = 0x0080;
pub const SURF_HINT: i32 = 0x0100;
pub const SURF_SKIP: i32 = 0x0200;

/// How a surface's texture is laid across it, and which material that is.
///
/// The projection is stated as two planes, `[s, t][x, y, z, offset]`, in texels per
/// world unit, and the lightmap's the same way in luxels; each value is the bit
/// pattern of its float.
#[derive(Debug, Clone, Copy, PartialEq, Eq)]
pub struct TexInfo {
    pub texture_vectors: [[u32; 4]; 2],
    pub lightmap_vectors: [[u32; 4]; 2],
    pub flags: i32,
    pub texdata: i32,
}

/// The material a group of surfaces is drawn with, and the size the texture coordinates
/// are stated against. The reflectivity is the bit patterns of its floats.
#[derive(Debug, Clone, Copy, PartialEq, Eq)]
pub struct TexData {
    pub reflectivity: [u32; 3],
    pub name: u32,
    pub width: i32,
    pub height: i32,
    pub view_width: i32,
    pub view_height: i32,
}

pub open spec fn drawn(flags: i32) -> bool {
    flags & (SURF_SKY | SURF_NODRAW | SURF_HINT | SURF_SKIP) == 0
}

/// A 32-bit float's bit pattern is a finite number: its exponent is not all ones.
pub open spec fn finite_bits(b: u32) -> bool {
    (b >> 23u32) & 0xff != 0xff
}

impl TexInfo {
    /// Whether this surface is one the renderer draws at all. The sky is drawn by the
    /// sky box rather than as a surface, and the rest are compiler annotations that
    /// exist only in the map source.
    pub fn is_drawn(&self) -> (r: bool)
        ensures
            r == drawn(self.flags),
    {
        self.flags & (SURF_SKY | SURF_NODRAW | SURF_HINT | SURF_SKIP) == 0
    }
}

pub open spec fn texinfo_at(s: Seq<u8>, b: int) -> TexInfo {
    TexInfo {
        texture_vectors: [
            [u32_at(s, b), u32_at(s, b + 4), u32_at(s, b + 8), u32_at(s, b + 12)],
            [u32_at(s, b + 16), u32_at(s, b + 20), u32_at(s, b + 24), u32_at(s, b + 28)],
        ],
        lightmap_vectors: [
            [u32_at(s, b + 32), u32_at(s, b + 36), u32_at(s, b + 40), u32_at(s, b + 44)],
            [u32_at(s, b + 48), u32_at(s, b + 52), u32_at(s, b + 56), u32_at(s, b + 60)],
        ],
        flags: i32_at(s, b + 64),
        texdata: i32_at(s, b + 68),
    }
}

pub open spec fn texdata_at(s: Seq<u8>, b: int) -> TexData {
    TexData {
        reflectivity: [u32_at(s, b), u32_at(s, b + 4), u32_at(s, b + 8)],
        name: i32_at(s, b + 12) as u32,
        width: i32_at(s, b + 16),
        height: i32_at(s, b + 20),
        view_width: i32_at(s, b + 24),
        view_height: i32_at(s, b + 28),
    }
}

fn read_plane(reader: &mut Reader) -> (r: [u32; 4])
    requires
        old(reader).wf(),
        old(reader).rest() >= 16,
    ensures
        old(reader).advanced(final(reader), 16),
        ({
            let s = old(reader).data();
            let b = old(reader).pos() as int;
            r == [u32_at(s, b), u32_at(s, b + 4), u32_at(s, b + 8), u32_at(s, b + 12)]
        }),
{
    let x = take_u32(reader);
    let y = take_u32(reader);
    let z = take_u32(reader);
    let w = take_u32(reader);
    [x, y, z, w]
}

pub fn parse_texinfos(bytes: &[u8]) -> (r: Result<Vec<TexInfo>>)
    ensures
        match r {
            Ok(v) => parse_records(bytes@, LUMP_TEXINFO, TEXINFO_SIZE, |s: Seq<u8>, b: int| texinfo_at(s, b)) == Ok::<Seq<TexInfo>, Error>(v@),
            Err(e) => parse_records(bytes@, LUMP_TEXINFO, TEXINFO_SIZE, |s: Seq<u8>, b: int| texinfo_at(s, b)) == Err::<Seq<TexInfo>, Error>(e),
        },
{
    let mut reader = record_reader(bytes, LUMP_TEXINFO, TEXINFO_SIZE)?;
    let mut texinfos: Vec<TexInfo> = Vec::new();
    while reader.remaining() != 0
        invariant
            reader.wf(),
            reader.data() == bytes@,
            bytes@.len() % 72 == 0,
            reader.pos() == texinfos@.len() * 72,
            forall|j: int| 0 <= j < texinfos@.len() ==> #[trigger] texinfos@[j] == texinfo_at(bytes@, j * 72),
        decreases reader.rest(),
    {
        proof {
            lemma_record_room(bytes@.len(), texinfos@.len(), 72);
        }
        let s_axis = read_plane(&mut reader);
        let t_axis = read_plane(&mut reader);
        let s_luxel = read_plane(&mut reader);
        let t_luxel = read_plane(&mut reader);
        let flags = take_i32(&mut reader);
        let texdata = take_i32(&mut reader);
        texinfos.push(TexInfo { texture_vectors: [s_axis, t_axis], lightmap_vectors: [s_luxel, t_luxel], flags, texdata });
    }
    proof {
        lemma_record_count(bytes@.len(), texinfos@.len(), 72);
        assert(texinfos@ =~= records(bytes@, 72, |s: Seq<u8>, b: int| texinfo_at(s, b)));
    }
    Ok(texinfos)
}

/// The first texdata from `k` on whose name offset is negative.
pub open spec fn first_negative_name(s: Seq<u8>, k: nat) -> Option<i32>
    decreases s.len() - 32 * k,
{
    if 32 * k + 32 > s.len() {
        None
    } else if i32_at(s, 32 * k as int + 12) < 0 {
        Some(i32_at(s, 32 * k as int + 12))
    } else {
        first_negative_name(s, k + 1)
    }
}

/// What the texdata lump reads as: every record, none naming a negative offset.
pub open spec fn texdatas_spec(s: Seq<u8>) -> core::result::Result<Seq<TexData>, Error> {
    match parse_records(s, LUMP_TEXDATA, TEXDATA_SIZE, |s: Seq<u8>, b: int| texdata_at(s, b)) {
        Err(e) => Err(e),
        Ok(v) => match first_negative_name(s, 0) {
            Some(name) => Err(Error::InvalidMaterialName(name as u32)),
            None => Ok(v),
        },
    }
}

pub fn parse_texdatas(bytes: &[u8]) -> (r: Result<Vec<TexData>>)
    ensures
        match r {
            Ok(v) => texdatas_spec(bytes@) == Ok::<Seq<TexData>, Error>(v@),
            Err(e) => texdatas_spec(bytes@) == Err::<Seq<TexData>, Error>(e),
        },
{
    let mut reader = record_reader(bytes, LUMP_TEXDATA, TEXDATA_SIZE)?;
    let mut texdatas: Vec<TexData> = Vec::new();
    while reader.remaining() != 0
        invariant
            reader.wf(),
            reader.data() == bytes@,
            bytes@.len() % 32 == 0,
            reader.pos() == texdatas@.len() * 32,
            first_negative_name(bytes@, 0) == first_negative_name(bytes@, texdatas@.len()),
            forall|j: int| 0 <= j < texdatas@.len() ==> #[trigger] texdatas@[j] == texdata_at(bytes@, j * 32),
        decreases reader.rest(),
    {
        proof {
            lemma_record_room(bytes@.len(), texdatas@.len(), 32);
        }
        let r = take_u32(&mut reader);
        let g = take_u32(&mut reader);
        let b = take_u32(&mut reader);
        let name = take_i32(&mut reader);
        if name < 0 {
            return Err(Error::InvalidMaterialName(name as u32));
        }
        let width = take_i32(&mut reader);
        let height = take_i32(&mut reader);
        let view_width = take_i32(&mut reader);
        let view_height = take_i32(&mut reader);
        texdatas.push(TexData { reflectivity: [r, g, b], name: name as u32, width, height, view_width, view_height });
    }
    proof {
        lemma_record_count(bytes@.len(), texdatas@.len(), 32);
        assert(texdatas@ =~= records(bytes@, 32, |s: Seq<u8>, b: int| texdata_at(s, b)));
    }
    Ok(texdatas)
}

/// The first nul at or after `i`.
pub open spec fn next_nul(s: Seq<u8>, i: int) -> Option<int>
    decreases s.len() - i,
{
    if i < 0 || i >= s.len() {
        None
    } else if s[i] == 0 {
        Some(i)
    } else {
        next_nul(s, i + 1)
    }
}

/// The name starting at `offset`: the bytes up to the next nul, which must be UTF-8.
pub open spec fn material_name_spec(s: Seq<u8>, offset: u32) -> Option<Seq<u8>> {
    if offset > s.len() {
        None
    } else {
        match next_nul(s, offset as int) {
            None => None,
            Some(end) => if valid_utf8(s.subrange(offset as int, end)) {
                Some(s.subrange(offset as int, end))
            } else {
                None
            },
        }
    }
}

/// One nul-terminated name out of the run of concatenated material paths.
fn read_material_name(bytes: &[u8], offset: u32) -> (r: Result<String>)
    ensures
        match r {
            Ok(name) => material_name_spec(bytes@, offset) == Some(encode_utf8(name@)),
            Err(e) => material_name_spec(bytes@, offset) is None && e == Error::InvalidMaterialName(offset),
        },
{
    let start = offset as usize;
    if start > bytes.len() {
        return Err(Error::InvalidMaterialName(offset));
    }
    let mut end = start;
    while end < bytes.len() && bytes[end] != 0
        invariant
            start <= end <= bytes@.len(),
            next_nul(bytes@, start as int) == next_nul(bytes@, end as int),
        decreases bytes@.len() - end,
    {
        end = end + 1;
    }
    if end == bytes.len() {
        return Err(Error::InvalidMaterialName(offset));
    }
    // Material paths are ASCII in every shipped map, and anything else is a corrupt
    // lump rather than a name to guess at.
    match utf8_text(vstd::slice::slice_subrange(bytes, start, end)) {
        Some(text) => Ok(text.to_owned()),
        None => Err(Error::InvalidMaterialName(offset)),
    }
}

/// The names every offset of the table points at, or the first offset that points at none.
pub open spec fn names_spec(s: Seq<u8>, offsets: Seq<u32>) -> core::result::Result<Seq<Seq<u8>>, Error>
    decreases offsets.len(),
{
    if offsets.len() == 0 {
        Ok(Seq::empty())
    } else {
        match names_spec(s, offsets.drop_last()) {
            Err(e) => Err(e),
            Ok(names) => match material_name_spec(s, offsets.last()) {
                None => Err(Error::InvalidMaterialName(offsets.last())),
                Some(name) => Ok(names.push(name)),
            },
        }
    }
}

/// Why the first texinfo from `k` on cannot be drawn with, if one cannot: a negative
/// texdata is how the format spells no material, which only surfaces that are never
/// drawn may carry, and a drawn surface needs a finite projection onto a material of
/// some size.
pub open spec fn bad_texinfo(texinfos: Seq<TexInfo>, texdatas: Seq<TexData>, k: nat) -> Option<Error>
    decreases texinfos.len() - k,
{
    if k >= texinfos.len() {
        None
    } else {
        let t = texinfos[k as int];
        if t.texdata < 0 {
            if drawn(t.flags) {
                Some(Error::InvalidTexData(t.texdata))
            } else {
                bad_texinfo(texinfos, texdatas, k + 1)
            }
        } else if t.texdata >= texdatas.len() {
            Some(Error::InvalidTexData(t.texdata))
        } else if !drawn(t.flags) {
            bad_texinfo(texinfos, texdatas, k + 1)
        } else {
            let d = texdatas[t.texdata as int];
            let finite = forall|a: int, c: int| 0 <= a < 2 && 0 <= c < 4 ==> finite_bits(#[trigger] t.texture_vectors[a][c]);
            if !finite || d.width <= 0 || d.height <= 0 {
                Some(Error::UnusableProjection(k as usize))
            } else {
                bad_texinfo(texinfos, texdatas, k + 1)
            }
        }
    }
}

/// The first texdata from `k` on naming a string the table does not hold.
pub open spec fn bad_texdata_name(texdatas: Seq<TexData>, name_count: nat, k: nat) -> Option<u32>
    decreases texdatas.len() - k,
{
    if k >= texdatas.len() {
        None
    } else if texdatas[k as int].name >= name_count {
        Some(texdatas[k as int].name)
    } else {
        bad_texdata_name(texdatas, name_count, k + 1)
    }
}

pub struct MaterialsView {
    pub texinfos: Seq<TexInfo>,
    pub texdatas: Seq<TexData>,
    pub names: Seq<Seq<u8>>,
}

/// What a map's materials read as.
pub open spec fn materials_spec(b: BspView) -> core::result::Result<MaterialsView, Error> {
    match lump_records(b, LUMP_TEXINFO, TEXINFO_SIZE, |s: Seq<u8>, o: int| texinfo_at(s, o)) {
        Err(e) => Err(e),
        Ok(texinfos) => match core_lump_spec(b.header, b.bytes, LUMP_TEXDATA as int) {
            Err(e) => Err(e),
            Ok(texdata_bytes) => match texdatas_spec(texdata_bytes) {
                Err(e) => Err(e),
                Ok(texdatas) => match core_lump_spec(b.header, b.bytes, LUMP_TEXDATA_STRING_TABLE as int) {
                    Err(e) => Err(e),
                    Ok(table_bytes) => match string_table_spec(table_bytes) {
                        Err(e) => Err(e),
                        Ok(offsets) => match core_lump_spec(b.header, b.bytes, LUMP_TEXDATA_STRING_DATA as int) {
                            Err(e) => Err(e),
                            Ok(name_bytes) => match names_spec(name_bytes, offsets) {
                                Err(e) => Err(e),
                                Ok(names) => match bad_texinfo(texinfos, texdatas, 0) {
                                    Some(e) => Err(e),
                                    None => match bad_texdata_name(texdatas, names.len(), 0) {
                                        Some(name) => Err(Error::InvalidMaterialName(name)),
                                        None => Ok(MaterialsView { texinfos, texdatas, names }),
                                    },
                                },
                            },
                        },
                    },
                },
            },
        },
    }
}

/// The bytes a name spells.
pub open spec fn name_bytes(n: String) -> Seq<u8> {
    encode_utf8(n@)
}

/// The materials a map's surfaces are drawn with.
#[derive(Debug, Clone)]
pub struct Materials {
    texinfos: Vec<TexInfo>,
    texdatas: Vec<TexData>,
    names: Vec<String>,
}

impl View for Materials {
    type V = MaterialsView;

    closed spec fn view(&self) -> MaterialsView {
        MaterialsView {
            texinfos: self.texinfos@,
            texdatas: self.texdatas@,
            names: self.names@.map_values(|n: String| name_bytes(n)),
        }
    }
}

fn finite_projection(t: &TexInfo) -> (r: bool)
    ensures
        r == forall|a: int, c: int| 0 <= a < 2 && 0 <= c < 4 ==> finite_bits(#[trigger] t.texture_vectors[a][c]),
{
    let mut a: usize = 0;
    while a < 2
        invariant
            a <= 2,
            forall|i: int, c: int| 0 <= i < a && 0 <= c < 4 ==> finite_bits(#[trigger] t.texture_vectors[i][c]),
        decreases 2 - a,
    {
        let mut c: usize = 0;
        while c < 4
            invariant
                a < 2,
                c <= 4,
                forall|i: int, j: int| 0 <= i < a && 0 <= j < 4 ==> finite_bits(#[trigger] t.texture_vectors[i][j]),
                forall|j: int| 0 <= j < c ==> finite_bits(#[trigger] t.texture_vectors[a as int][j]),
            decreases 4 - c,
        {
            let bits = t.texture_vectors[a][c];
            if (bits >> 23u32) & 0xff == 0xff {
                return false;
            }
            c = c + 1;
        }
        a = a + 1;
    }
    true
}

fn check_texinfos(texinfos: &Vec<TexInfo>, texdatas: &Vec<TexData>) -> (r: Result<()>)
    ensures
        match r {
            Ok(_) => bad_texinfo(texinfos@, texdatas@, 0) is None,
            Err(e) => bad_texinfo(texinfos@, texdatas@, 0) == Some(e),
        },
{
    let mut k: usize = 0;
    while k < texinfos.len()
        invariant
            k <= texinfos@.len(),
            bad_texinfo(texinfos@, texdatas@, 0) == bad_texinfo(texinfos@, texdatas@, k as nat),
        decreases texinfos@.len() - k,
    {
        let texinfo = &texinfos[k];
        if texinfo.texdata < 0 {
            if texinfo.is_drawn() {
                return Err(Error::InvalidTexData(texinfo.texdata));
            }
        } else if texinfo.texdata as usize >= texdatas.len() {
            return Err(Error::InvalidTexData(texinfo.texdata));
        } else if texinfo.is_drawn() {
            // Only the surfaces that are drawn need a usable projection; the rest are
            // allowed to carry whatever the compiler left behind.
            let texdata = &texdatas[texinfo.texdata as usize];
            if !finite_projection(texinfo) || texdata.width <= 0 || texdata.height <= 0 {
                return Err(Error::UnusableProjection(k));
            }
        }
        k = k + 1;
    }
    Ok(())
}

fn check_texdata_names(texdatas: &Vec<TexData>, name_count: usize) -> (r: Result<()>)
    ensures
        match r {
            Ok(_) => bad_texdata_name(texdatas@, name_count as nat, 0) is None,
            Err(e) => bad_texdata_name(texdatas@, name_count as nat, 0) matches Some(n) && e == Error::InvalidMaterialName(n),
        },
{
    let mut k: usize = 0;
    while k < texdatas.len()
        invariant
            k <= texdatas@.len(),
            bad_texdata_name(texdatas@, name_count as nat, 0) == bad_texdata_name(texdatas@, name_count as nat, k as nat),
        decreases texdatas@.len() - k,
    {
        if texdatas[k].name as usize >= name_count {
            return Err(Error::InvalidMaterialName(texdatas[k].name));
        }
        k = k + 1;
    }
    Ok(())
}

/// A name that cannot be read refuses every longer table too.
proof fn lemma_names_fail(s: Seq<u8>, offsets: Seq<u32>, m: nat, n: nat)
    requires
        m <= n <= offsets.len(),
        names_spec(s, offsets.subrange(0, m as int)) is Err,
    ensures
        names_spec(s, offsets.subrange(0, n as int)) == names_spec(s, offsets.subrange(0, m as int)),
    decreases n,
{
    if n > m {
        lemma_names_fail(s, offsets, m, (n - 1) as nat);
        assert(offsets.subrange(0, n as int).drop_last() =~= offsets.subrange(0, n - 1));
    }
}

fn read_names(data: &[u8], offsets: &Vec<u32>) -> (r: Result<Vec<String>>)
    ensures
        match r {
            Ok(names) => names_spec(data@, offsets@) == Ok::<Seq<Seq<u8>>, Error>(names@.map_values(|n: String| name_bytes(n))),
            Err(e) => names_spec(data@, offsets@) == Err::<Seq<Seq<u8>>, Error>(e),
        },
{
    let mut names: Vec<String> = Vec::new();
    let mut k: usize = 0;
    proof {
        assert(names@.map_values(|n: String| name_bytes(n)) =~= Seq::<Seq<u8>>::empty());
        assert(offsets@.subrange(0, 0) =~= Seq::<u32>::empty());
    }
    while k < offsets.len()
        invariant
            k <= offsets@.len(),
            names_spec(data@, offsets@.subrange(0, k as int)) == Ok::<Seq<Seq<u8>>, Error>(names@.map_values(|n: String| name_bytes(n))),
        decreases offsets@.len() - k,
    {
        proof {
            assert(offsets@.subrange(0, k + 1).drop_last() =~= offsets@.subrange(0, k as int));
        }
        let ghost before = names@.map_values(|n: String| name_bytes(n));
        let name = match read_material_name(data, offsets[k]) {
            Ok(name) => name,
            Err(e) => {
                proof {
                    lemma_names_fail(data@, offsets@, (k + 1) as nat, offsets@.len());
                    assert(offsets@.subrange(0, offsets@.len() as int) =~= offsets@);
                }
                return Err(e);
            },
        };
        names.push(name);
        proof {
            assert(names@.map_values(|n: String| name_bytes(n)) =~= before.push(encode_utf8(name@)));
        }
        k = k + 1;
    }
    proof {
        assert(offsets@.subrange(0, offsets@.len() as int) =~= offsets@);
    }
    Ok(names)
}

impl Materials {
    pub fn parse(bsp: &Bsp<'_>) -> (r: Result<Self>)
        ensures
            match r {
                Ok(m) => materials_spec(bsp@) == Ok::<MaterialsView, Error>(m@),
                Err(e) => materials_spec(bsp@) == Err::<MaterialsView, Error>(e),
            },
    {
        let texinfos = parse_texinfos(core_lump(bsp, LUMP_TEXINFO)?)?;
        let texdatas = parse_texdatas(core_lump(bsp, LUMP_TEXDATA)?)?;
        let offsets = parse_texdata_string_table(core_lump(bsp, LUMP_TEXDATA_STRING_TABLE)?)?;
        let name_bytes = core_lump(bsp, LUMP_TEXDATA_STRING_DATA)?;
        let names = read_names(name_bytes, &offsets)?;
        check_texinfos(&texinfos, &texdatas)?;
        check_texdata_names(&texdatas, names.len())?;
        Ok(Materials { texinfos, texdatas, names })
    }

    pub fn texinfos(&self) -> (r: &[TexInfo])
        ensures
            r@ == self@.texinfos,
    {
        self.texinfos.as_slice()
    }

    pub fn texdatas(&self) -> (r: &[TexData])
        ensures
            r@ == self@.texdatas,
    {
        self.texdatas.as_slice()
    }

    /// The material path a texdata names, as it appears in the map, which is what the
    /// filesystem resolves under `materials/` with a `.vmt` suffix.
    pub fn name(&self, texdata: usize) -> (r: Option<&str>)
        ensures
            match r {
                Some(n) => texdata < self@.texdatas.len() && self@.texdatas[texdata as int].name < self@.names.len()
                    && n.spec_bytes() == self@.names[self@.texdatas[texdata as int].name as int],
                None => texdata >= self@.texdatas.len() || self@.texdatas[texdata as int].name >= self@.names.len(),
            },
    {
        if texdata >= self.texdatas.len() {
            return None;
        }
        let name = self.texdatas[texdata].name as usize;
        if name >= self.names.len() {
            return None;
        }
        proof {
            assert(self@.names[name as int] == name_bytes(self.names@[name as int]));
        }
        Some(self.names[name].as_str())
    }

    /// The texinfo a face uses, or none where it names none.
    pub fn face_texinfo(&self, face: &Face) -> (r: Result<Option<(usize, TexInfo)>>)
        ensures
            match r {
                Ok(None) => face.texinfo < 0,
                Ok(Some((index, t))) => face.texinfo >= 0 && index == face.texinfo && index < self@.texinfos.len()
                    && t == self@.texinfos[index as int],
                Err(e) => face.texinfo >= self@.texinfos.len() && e == Error::InvalidTexInfo(face.texinfo),
            },
    {
        if face.texinfo < 0 {
            return Ok(None);
        }
        let index = face.texinfo as usize;
        if index >= self.texinfos.len() {
            return Err(Error::InvalidTexInfo(face.texinfo));
        }
        Ok(Some((index, self.texinfos[index])))
    }
}

} // verus!
