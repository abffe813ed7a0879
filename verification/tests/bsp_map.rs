use lib::binary::Writer;
use lib::bsp::entities::Entities;
use lib::bsp::lighting::{LightmapAtlas, Lightmaps, LIGHTMAP_SAMPLE_SIZE};
use lib::bsp::records::{parse_faces, Face, LIGHT_STYLE_NONE};
use lib::bsp::draws::{visible_batches_by, Batch};
use lib::bsp::layout::Layout;
use lib::bsp::materials::Materials;
use lib::bsp::surfaces::Surfaces;
use lib::bsp::visible::{VisibilityKind, VisibleFaces};
use lib::bsp::world::World;
use lib::bsp::{
    Bsp, Builder, Error, Limits, BSP_HEADER_SIZE, LUMP_EDGES, LUMP_ENTITIES, LUMP_FACES,
    LUMP_LEAFFACES, LUMP_LEAVES, LUMP_LIGHTING, LUMP_LIGHTING_HDR, LUMP_MODELS, LUMP_NODES,
    LUMP_PAKFILE, LUMP_PLANES, LUMP_SURFEDGES, LUMP_TEXDATA, LUMP_TEXDATA_STRING_DATA,
    LUMP_TEXDATA_STRING_TABLE, LUMP_TEXINFO, LUMP_VERTEXES, LUMP_VISIBILITY,
};

const FACE_SIZE: usize = 56;

fn write_f32(writer: &mut Writer, value: f32) {
    writer.write_u32_le(value.to_bits());
}

/// One face as the format stores it, so a test can state only the fields it is about.
#[derive(Debug, Clone, Copy)]
struct FaceFields {
    plane: u16,
    first_surfedge: i32,
    surfedge_count: u16,
    texinfo: i16,
    displacement: i16,
    surface_fog_volume: i16,
    styles: [u8; 4],
    light_offset: i32,
    lightmap_mins: [i32; 2],
    lightmap_size: [i32; 2],
}

impl Default for FaceFields {
    fn default() -> Self {
        Self {
            plane: 0,
            first_surfedge: 0,
            surfedge_count: 4,
            texinfo: 0,
            displacement: -1,
            surface_fog_volume: -1,
            styles: [LIGHT_STYLE_NONE; 4],
            light_offset: -1,
            lightmap_mins: [0, 0],
            lightmap_size: [0, 0],
        }
    }
}

fn write_face_fields(writer: &mut Writer, face: FaceFields) {
    writer.write_u16_le(face.plane);
    writer.write_u8(0);
    writer.write_u8(0);
    writer.write_i32_le(face.first_surfedge);
    writer.write_u16_le(face.surfedge_count);
    writer.write_i16_le(face.texinfo);
    writer.write_i16_le(face.displacement);
    writer.write_i16_le(face.surface_fog_volume);
    for style in face.styles {
        writer.write_u8(style);
    }
    writer.write_i32_le(face.light_offset);
    write_f32(writer, 0.0);
    for axis in face.lightmap_mins {
        writer.write_i32_le(axis);
    }
    for axis in face.lightmap_size {
        writer.write_i32_le(axis);
    }
    for _ in 0..FACE_SIZE - 44 {
        writer.write_u8(0);
    }
}

fn write_face(writer: &mut Writer, plane: u16, first_surfedge: i32, surfedge_count: u16, displacement: i16) {
    write_face_fields(
        writer,
        FaceFields {
            plane,
            first_surfedge,
            surfedge_count,
            displacement,
            ..FaceFields::default()
        },
    );
}

/// A square: four shared corners, four edges, and a run of surface edges walking them.
fn synthetic_surfaces(
    surfedge_overrides: Option<Vec<i32>>,
    faces_bytes: Option<Vec<u8>>,
    leaf_faces: Option<Vec<u16>>,
) -> Vec<u8> {
    let mut vertices = Writer::new();
    for corner in [[0.0f32, 0.0, 0.0], [1.0, 0.0, 0.0], [1.0, 1.0, 0.0], [0.0, 1.0, 0.0]] {
        for value in corner {
            write_f32(&mut vertices, value);
        }
    }
    let mut edges = Writer::new();
    for edge in [[0u16, 1u16], [1, 2], [2, 3], [0, 3]] {
        edges.write_u16_le(edge[0]);
        edges.write_u16_le(edge[1]);
    }
    let mut surfedges = Writer::new();
    for surfedge in surfedge_overrides.unwrap_or_else(|| vec![0, 1, 2, -3]) {
        surfedges.write_i32_le(surfedge);
    }
    let faces = faces_bytes.unwrap_or_else(|| {
        let mut writer = Writer::new();
        write_face(&mut writer, 0, 0, 4, -1);
        writer.into_inner()
    });
    let mut leaf_face_bytes = Writer::new();
    for leaf_face in leaf_faces.unwrap_or_else(|| vec![0]) {
        leaf_face_bytes.write_u16_le(leaf_face);
    }
    let mut builder = Builder::new(20, 1);
    builder.set_lump(LUMP_VERTEXES, 0, 0, vertices.into_inner());
    builder.set_lump(LUMP_EDGES, 0, 0, edges.into_inner());
    builder.set_lump(LUMP_SURFEDGES, 0, 0, surfedges.into_inner());
    builder.set_lump(LUMP_FACES, 0, 0, faces);
    builder.set_lump(LUMP_LEAFFACES, 0, 0, leaf_face_bytes.into_inner());
    builder.build().unwrap()
}

fn write_texinfo_with_lightmap(writer: &mut Writer, scale: f32, luxel_scale: f32, flags: i32, texdata: i32) {
    for projection in [scale, luxel_scale] {
        for axis in [[projection, 0.0, 0.0, 0.0], [0.0, projection, 0.0, 0.0]] {
            for value in axis {
                write_f32(writer, value);
            }
        }
    }
    writer.write_i32_le(flags);
    writer.write_i32_le(texdata);
}

fn write_texdata(writer: &mut Writer, name: i32, width: i32, height: i32) {
    for value in [0.5f32, 0.5, 0.5] {
        write_f32(writer, value);
    }
    writer.write_i32_le(name);
    writer.write_i32_le(width);
    writer.write_i32_le(height);
    writer.write_i32_le(width);
    writer.write_i32_le(height);
}

fn write_texinfo(writer: &mut Writer, scale: f32, flags: i32, texdata: i32) {
    write_texinfo_with_lightmap(writer, scale, 0.0, flags, texdata);
}

/// A map whose surfaces name materials, built from the same square the geometry tests use.
fn synthetic_materials(
    faces_bytes: Option<Vec<u8>>,
    texinfos: Option<Vec<u8>>,
    texdatas: Option<Vec<u8>>,
    names: Option<(Vec<i32>, Vec<u8>)>,
) -> Vec<u8> {
    let surfaces = synthetic_surfaces(None, faces_bytes, None);
    let bsp = Bsp::parse(&surfaces).unwrap();
    let texinfos = texinfos.unwrap_or_else(|| {
        let mut writer = Writer::new();
        write_texinfo(&mut writer, 1.0, 0, 0);
        writer.into_inner()
    });
    let texdatas = texdatas.unwrap_or_else(|| {
        let mut writer = Writer::new();
        write_texdata(&mut writer, 0, 64, 64);
        writer.into_inner()
    });
    let (offsets, name_bytes) = names.unwrap_or_else(|| (vec![0], b"brick/brickwall001a\0".to_vec()));
    let mut table = Writer::new();
    for offset in offsets {
        table.write_i32_le(offset);
    }
    let mut builder = Builder::new(20, 1);
    for lump in [LUMP_VERTEXES, LUMP_EDGES, LUMP_SURFEDGES, LUMP_FACES, LUMP_LEAFFACES] {
        builder.set_lump(lump, 0, 0, bsp.lump(lump).unwrap().to_vec());
    }
    builder.set_lump(LUMP_TEXINFO, 0, 0, texinfos);
    builder.set_lump(LUMP_TEXDATA, 0, 0, texdatas);
    builder.set_lump(LUMP_TEXDATA_STRING_TABLE, 0, 0, table.into_inner());
    builder.set_lump(LUMP_TEXDATA_STRING_DATA, 0, 0, name_bytes);
    builder.build().unwrap()
}

/// A map whose lit surfaces carry the given samples.
fn synthetic_lit(faces: Vec<FaceFields>, lighting: Vec<u8>, high_range: bool) -> Vec<u8> {
    let mut face_bytes = Writer::new();
    for face in faces {
        write_face_fields(&mut face_bytes, face);
    }
    let mut texinfos = Writer::new();
    write_texinfo_with_lightmap(&mut texinfos, 1.0, 2.0, 0, 0);
    let map = synthetic_materials(Some(face_bytes.into_inner()), Some(texinfos.into_inner()), None, None);
    let bsp = Bsp::parse(&map).unwrap();
    let mut builder = Builder::new(20, 1);
    for lump in [
        LUMP_VERTEXES,
        LUMP_EDGES,
        LUMP_SURFEDGES,
        LUMP_FACES,
        LUMP_LEAFFACES,
        LUMP_TEXINFO,
        LUMP_TEXDATA,
        LUMP_TEXDATA_STRING_TABLE,
        LUMP_TEXDATA_STRING_DATA,
    ] {
        if let Some(bytes) = bsp.lump(lump) {
            builder.set_lump(lump, 0, 0, bytes.to_vec());
        }
    }
    let which = if high_range { LUMP_LIGHTING_HDR } else { LUMP_LIGHTING };
    builder.set_lump(which, 0, 0, lighting);
    builder.build().unwrap()
}

fn sample(colour: [u8; 3], exponent: i8) -> [u8; 4] {
    [colour[0], colour[1], colour[2], exponent as u8]
}

fn samples(of: &[[u8; 4]]) -> Vec<u8> {
    of.iter().flatten().copied().collect()
}

fn lit_face(light_offset: i32, size: [i32; 2]) -> FaceFields {
    FaceFields {
        styles: [0, LIGHT_STYLE_NONE, LIGHT_STYLE_NONE, LIGHT_STYLE_NONE],
        light_offset,
        lightmap_size: size,
        ..FaceFields::default()
    }
}

fn faces_of(map: &[u8]) -> Vec<Face> {
    let bsp = Bsp::parse(map).unwrap();
    parse_faces(bsp.lump(LUMP_FACES).unwrap()).unwrap()
}

fn entities_of(text: &str) -> Entities {
    let mut builder = Builder::new(20, 1);
    let mut bytes = text.as_bytes().to_vec();
    bytes.push(0);
    builder.set_lump(LUMP_ENTITIES, 0, 0, bytes);
    let bytes = builder.build().unwrap();
    let bsp = Bsp::parse(&bytes).unwrap();
    Entities::parse(&bsp).unwrap()
}

#[test]
fn takes_the_high_range_lighting_where_a_map_carries_it() {
    let lighting = samples(&[sample([90, 90, 90], 1)]);
    let map = synthetic_lit(vec![lit_face(0, [0, 0])], lighting.clone(), true);
    let bsp = Bsp::parse(&map).unwrap();
    let read = Lightmaps::parse(&bsp).unwrap();

    assert!(read.is_high_range());
    assert_eq!(read.sample_count(), 1);
}

#[test]
fn refuses_a_lighting_lump_that_is_not_whole_samples() {
    let map = synthetic_lit(vec![lit_face(0, [0, 0])], vec![1, 2, 3], false);
    let bsp = Bsp::parse(&map).unwrap();

    assert!(
        matches!(Lightmaps::parse(&bsp), Err(Error::InvalidLightingLump(3))),
        "a partial sample is refused, got {:?}",
        Lightmaps::parse(&bsp).map(|read| read.sample_count())
    );
}

#[test]
fn reads_only_the_static_layer_of_a_face_with_several_light_styles() {
    let lighting = samples(&[
        sample([10, 20, 30], 0),
        sample([40, 50, 60], 0),
        sample([200, 200, 200], 0),
        sample([201, 201, 201], 0),
    ]);
    let mut face = lit_face(0, [1, 0]);
    face.styles = [0, 3, LIGHT_STYLE_NONE, LIGHT_STYLE_NONE];
    let map = synthetic_lit(vec![face], lighting, false);
    let bsp = Bsp::parse(&map).unwrap();
    let faces = faces_of(&map);
    let lighting = Lightmaps::parse(&bsp).unwrap();

    let read = lighting.face_samples(&faces[0]).unwrap().unwrap();
    assert_eq!(read, &samples(&[sample([10, 20, 30], 0), sample([40, 50, 60], 0)])[..]);
}

#[test]
fn reports_a_face_with_no_lightmap_rather_than_reading_one() {
    let map = synthetic_lit(vec![FaceFields::default()], samples(&[sample([1, 2, 3], 0)]), false);
    let bsp = Bsp::parse(&map).unwrap();
    let faces = faces_of(&map);
    let lighting = Lightmaps::parse(&bsp).unwrap();

    assert_eq!(lighting.face_samples(&faces[0]).unwrap(), None);
}

#[test]
fn refuses_a_face_whose_lightmap_runs_past_the_lighting_lump() {
    let map = synthetic_lit(vec![lit_face(0, [8, 8])], samples(&[sample([1, 2, 3], 0)]), false);
    let bsp = Bsp::parse(&map).unwrap();
    let faces = faces_of(&map);
    let lighting = Lightmaps::parse(&bsp).unwrap();

    assert!(matches!(
        lighting.face_samples(&faces[0]),
        Err(Error::LightmapOutOfRange { offset: 0, length }) if length == 81 * LIGHTMAP_SAMPLE_SIZE
    ));
}

#[test]
fn refuses_a_lightmap_offset_that_is_not_a_whole_sample() {
    let map = synthetic_lit(vec![lit_face(2, [0, 0])], samples(&[sample([1, 2, 3], 0)]), false);
    let bsp = Bsp::parse(&map).unwrap();
    let faces = faces_of(&map);
    let lighting = Lightmaps::parse(&bsp).unwrap();
    assert!(matches!(lighting.face_samples(&faces[0]), Err(Error::InvalidLightOffset(2))));
}

#[test]
fn reads_a_faces_lightmap_extent_and_styles() {
    let mut faces = Writer::new();
    write_face_fields(
        &mut faces,
        FaceFields {
            styles: [0, 2, LIGHT_STYLE_NONE, LIGHT_STYLE_NONE],
            light_offset: 64,
            lightmap_mins: [-3, 7],
            lightmap_size: [4, 2],
            ..FaceFields::default()
        },
    );
    let map = synthetic_surfaces(None, Some(faces.into_inner()), None);
    let faces = faces_of(&map);
    let face = &faces[0];

    assert_eq!(face.light_offset, 64);
    assert_eq!(face.lightmap_mins, [-3, 7]);
    assert_eq!(face.lightmap_size, [4, 2]);
    assert_eq!(face.light_style_count(), 2);
    assert!(face.has_lightmap());
    assert_eq!(face.lightmap_sample_count(), Some(15));
}

#[test]
fn a_lightmap_extent_that_cannot_be_stored_has_no_sample_count() {
    let mut face = faces_of(&synthetic_surfaces(None, None, None))[0];
    face.lightmap_size = [-2, 0];
    assert_eq!(face.lightmap_sample_count(), None);
    face.lightmap_size = [i32::MAX, 0];
    assert_eq!(face.lightmap_sample_count(), None);
    face.lightmap_size = [-1, 5];
    assert_eq!(face.lightmap_sample_count(), Some(0));
    face.styles = [LIGHT_STYLE_NONE, 0, 0, 0];
    face.light_offset = 0;
    assert_eq!(face.light_style_count(), 0);
    assert!(!face.has_lightmap());
}

#[test]
fn deterministic_lump_round_trip() {
    let mut builder = Builder::new(20, 7);
    builder.set_lump(0, 1, 0, b"{\"classname\" \"worldspawn\"}\0".to_vec());
    builder.set_lump(40, 3, 1234, vec![1, 2, 3, 4, 5]);
    let first = builder.build().unwrap();
    let second = builder.build().unwrap();
    assert_eq!(first, second);

    let bsp = Bsp::parse(&first).unwrap();
    assert_eq!(bsp.header().version, 20);
    assert_eq!(bsp.header().map_revision, 7);
    assert_eq!(bsp.lump(0).unwrap(), b"{\"classname\" \"worldspawn\"}\0");
    assert_eq!(bsp.lump(40).unwrap(), &[1, 2, 3, 4, 5]);

    let repacked = bsp.to_builder().build().unwrap();
    assert_eq!(first, repacked);
}

#[test]
fn golden_empty_header() {
    let bytes = Builder::new(19, 42).build().unwrap();
    assert_eq!(bytes.len(), BSP_HEADER_SIZE);
    assert_eq!(&bytes[0..8], &[b'V', b'B', b'S', b'P', 19, 0, 0, 0]);
    assert_eq!(&bytes[BSP_HEADER_SIZE - 4..], &42i32.to_le_bytes());
    let bsp = Bsp::parse(&bytes).unwrap();
    assert!(bsp.header().lumps.iter().all(|lump| lump.length == 0));
}

#[test]
fn rejects_bad_ranges_and_versions() {
    let mut bytes = Builder::new(20, 0).build().unwrap();
    bytes[4..8].copy_from_slice(&22i32.to_le_bytes());
    assert!(matches!(Bsp::parse(&bytes), Err(Error::UnsupportedVersion(22))));

    bytes[4..8].copy_from_slice(&20i32.to_le_bytes());
    bytes[8..12].copy_from_slice(&(-1i32).to_le_bytes());
    bytes[12..16].copy_from_slice(&4i32.to_le_bytes());
    assert!(matches!(Bsp::parse(&bytes), Err(Error::InvalidLump { index: 0, .. })));
}

#[test]
fn lumps_are_laid_out_on_four_byte_boundaries() {
    let mut builder = Builder::new(21, 3);
    builder.set_lump(1, 0, 0, vec![9, 9, 9]);
    builder.set_lump(2, 0, 0, vec![]);
    builder.set_lump(5, 0, 0, vec![7]);
    let bytes = builder.build().unwrap();
    assert_eq!(bytes.len(), BSP_HEADER_SIZE + 4 + 1);
    let bsp = Bsp::parse(&bytes).unwrap();
    let lumps = bsp.header().lumps;
    assert_eq!((lumps[1].offset, lumps[1].length), (BSP_HEADER_SIZE as i32, 3));
    assert_eq!((lumps[2].offset, lumps[2].length), (0, 0));
    assert_eq!((lumps[5].offset, lumps[5].length), (BSP_HEADER_SIZE as i32 + 4, 1));
    assert_eq!(&bytes[BSP_HEADER_SIZE + 3..], &[0, 7]);
    assert_eq!(bsp.lump(2).unwrap(), &[] as &[u8]);
    assert_eq!(bsp.lump(64), None);
    assert_eq!(bsp.pakfile(), &[] as &[u8]);
}

#[test]
fn carries_the_embedded_archive() {
    let mut builder = Builder::new(20, 1);
    builder.set_lump(LUMP_PAKFILE, 0, 0, b"PK\x05\x06".to_vec());
    let bytes = builder.build().unwrap();
    let bsp = Bsp::parse(&bytes).unwrap();
    assert_eq!(bsp.pakfile(), b"PK\x05\x06");
}

#[test]
fn refuses_a_builder_version_it_cannot_write() {
    assert!(matches!(Builder::new(18, 0).build(), Err(Error::UnsupportedVersion(18))));
}

#[test]
fn refuses_what_is_not_a_map_or_not_all_of_one() {
    let bytes = Builder::new(20, 0).build().unwrap();
    let mut wrong = bytes.clone();
    wrong[0] = b'X';
    assert!(matches!(Bsp::parse(&wrong), Err(Error::InvalidIdent(_))));
    assert!(matches!(Bsp::parse(&bytes[..BSP_HEADER_SIZE - 2]), Err(Error::Binary(_))));
    let limits = Limits { max_file_size: 100, max_lump_size: 1 };
    assert!(matches!(Bsp::parse_with_limits(&bytes, limits), Err(Error::FileTooLarge(1036))));

    let mut builder = Builder::new(20, 0);
    builder.set_lump(3, 0, 0, vec![1, 2]);
    let bytes = builder.build().unwrap();
    let limits = Limits { max_file_size: 1 << 20, max_lump_size: 1 };
    assert!(matches!(
        Bsp::parse_with_limits(&bytes, limits),
        Err(Error::LumpTooLarge { index: 3, length: 2 })
    ));
    let mut past_end = bytes.clone();
    past_end.truncate(bytes.len() - 1);
    assert!(matches!(Bsp::parse(&past_end), Err(Error::InvalidLump { index: 3, .. })));
}

#[test]
fn reads_what_the_map_places_in_itself() {
    let entities = entities_of(
        "{\n\"classname\" \"worldspawn\"\n\"skyname\" \"sky_day01_01\"\n}\n\
         {\n\"classname\" \"info_player_start\"\n\"origin\" \"-4690 -1186 -27\"\n\
         \"angles\" \"0 90 0\"\n}\n\
         {\n\"classname\" \"func_door\"\n\"model\" \"*12\"\n\"origin\" \"8 0 0\"\n}\n",
    );

    assert_eq!(entities.len(), 3);
    assert_eq!(entities.worldspawn().and_then(|spawn| spawn.get("skyname")), Some("sky_day01_01"));

    let start = *entities
        .by_classname("info_player_start")
        .first()
        .expect("the map starts the player somewhere");
    assert_eq!(start.get("origin"), Some("-4690 -1186 -27"));
    assert_eq!(start.get("angles"), Some("0 90 0"));
    assert_eq!(start.brush_model(), None, "a start is a point, not a brush");

    let door = entities.iter().last().expect("three entities were read");
    assert_eq!(door.brush_model(), Some(12), "a door names one of the map's own brush models");
}

#[test]
fn keeps_the_keys_a_map_states_more_than_once() {
    let entities = entities_of(
        "{\n\"classname\" \"trigger_multiple\"\n\
         \"OnStartTouch\" \"door,Open,,0,-1\"\n\
         \"OnStartTouch\" \"light,TurnOn,,0,-1\"\n}\n",
    );

    let trigger = entities.iter().next().unwrap();
    assert_eq!(trigger.all("OnStartTouch"), ["door,Open,,0,-1", "light,TurnOn,,0,-1"]);
    assert_eq!(trigger.get("OnStartTouch"), Some("door,Open,,0,-1"));
    assert_eq!(trigger.get("OnEndTouch"), None);
}

#[test]
fn looks_a_key_up_as_the_first_of_its_values() {
    let entities = entities_of(
        "{\n\"classname\" \"logic_relay\"\n\"OnTrigger\" \"a,Fire\"\n\"targetname\" \"r\"\n\"OnTrigger\" \"b,Fire\"\n}\n",
    );
    let relay = entities.iter().next().unwrap();
    for key in ["OnTrigger", "targetname", "classname", "missing"] {
        assert_eq!(relay.get(key), relay.all(key).first().copied(), "{key}");
    }
}

#[test]
fn reads_a_value_holding_a_content_path() {
    let entities = entities_of(
        "{\n\"classname\" \"prop_static\"\n\
         \"model\" \"models\\props_c17\\door01a.mdl\"\n}\n",
    );

    let prop = entities.iter().next().unwrap();
    assert_eq!(prop.get("model"), Some("models\\props_c17\\door01a.mdl"));
    assert_eq!(prop.brush_model(), None, "a model file is not a brush");
}

#[test]
fn ignores_what_the_lump_is_padded_with() {
    let mut builder = Builder::new(20, 1);
    let mut bytes = b"{\n\"classname\" \"worldspawn\"\n}\n\0".to_vec();
    bytes.extend_from_slice(b"\xff\xff\xff\xff");
    builder.set_lump(LUMP_ENTITIES, 0, 0, bytes);
    let bytes = builder.build().unwrap();
    let bsp = Bsp::parse(&bytes).unwrap();

    let entities = Entities::parse(&bsp).unwrap();

    assert_eq!(entities.len(), 1);
    assert!(entities.worldspawn().is_some());
}

#[test]
fn rejects_entity_text_the_format_does_not_allow() {
    for broken in [
        "{\n\"classname\" \"worldspawn\"\n",
        "\"classname\" \"worldspawn\"\n",
        "{\n{\n}\n",
        "{\n\"classname\"\n}\n",
        "}\n",
    ] {
        let mut builder = Builder::new(20, 1);
        let mut bytes = broken.as_bytes().to_vec();
        bytes.push(0);
        builder.set_lump(LUMP_ENTITIES, 0, 0, bytes);
        let bytes = builder.build().unwrap();
        let bsp = Bsp::parse(&bytes).unwrap();
        assert!(
            matches!(Entities::parse(&bsp), Err(Error::InvalidEntityText)),
            "{broken:?} is not entity text"
        );
    }
}

#[test]
fn skips_unicode_white_space_and_keeps_unicode_values() {
    let entities = entities_of("\u{3000}{\u{a0}\"name\"\u{2003}\"caf\u{e9}\"\u{85}}\u{2029}");
    assert_eq!(entities.len(), 1);
    let entity = entities.iter().next().unwrap();
    assert_eq!(entity.get("name"), Some("caf\u{e9}"));
    assert_eq!(entity.pairs().len(), 1);
}

#[test]
fn refuses_entity_text_that_is_not_utf8() {
    let mut builder = Builder::new(20, 1);
    builder.set_lump(LUMP_ENTITIES, 0, 0, b"{\"a\" \"\xff\"}\0".to_vec());
    let bytes = builder.build().unwrap();
    let bsp = Bsp::parse(&bytes).unwrap();
    assert!(matches!(Entities::parse(&bsp), Err(Error::InvalidEntityText)));
}

#[test]
fn a_brush_model_is_a_star_and_a_decimal() {
    let entities = entities_of(
        "{\"model\" \"*+7\"}{\"model\" \"*\"}{\"model\" \"*-1\"}{\"model\" \"*99999999999999999999999\"}{}",
    );
    let models: Vec<Option<usize>> = entities.iter().map(|e| e.brush_model()).collect();
    assert_eq!(models, vec![Some(7), None, None, None, None]);
    assert!(entities.worldspawn().is_none());
    assert!(entities.by_classname("worldspawn").is_empty());
}

#[test]
fn a_compressed_entity_lump_is_refused() {
    let mut builder = Builder::new(20, 1);
    builder.set_lump(LUMP_ENTITIES, 0, 64, b"{}\0".to_vec());
    let bytes = builder.build().unwrap();
    let bsp = Bsp::parse(&bytes).unwrap();
    assert!(matches!(Entities::parse(&bsp), Err(Error::CompressedCoreLump(0))));
}

/// One leaf as the format stores it, so a test can state only the fields it is about.
#[derive(Debug, Clone, Copy, Default)]
struct LeafFields {
    cluster: i16,
    mins: [i16; 3],
    maxs: [i16; 3],
    first_leaf_face: u16,
    leaf_face_count: u16,
}

fn write_leaf(writer: &mut Writer, leaf: LeafFields) {
    writer.write_i32_le(0);
    writer.write_i16_le(leaf.cluster);
    writer.write_u16_le(0);
    for value in leaf.mins.into_iter().chain(leaf.maxs) {
        writer.write_i16_le(value);
    }
    writer.write_u16_le(leaf.first_leaf_face);
    writer.write_u16_le(leaf.leaf_face_count);
    for _ in 0..2 {
        writer.write_u16_le(0);
    }
    writer.write_i16_le(-1);
    writer.write_u16_le(0);
}

fn synthetic_world(visibility_bytes: Option<&[u8]>) -> Vec<u8> {
    let mut planes = Writer::new();
    for value in [1.0f32, 0.0, 0.0, 0.0] {
        write_f32(&mut planes, value);
    }
    planes.write_i32_le(0);

    let mut nodes = Writer::new();
    nodes.write_i32_le(0);
    nodes.write_i32_le(-1);
    nodes.write_i32_le(-2);
    for _ in 0..6 {
        nodes.write_i16_le(0);
    }
    nodes.write_u16_le(0);
    nodes.write_u16_le(0);
    nodes.write_i16_le(0);
    nodes.write_u16_le(0);

    let mut leaves = Writer::new();
    write_leaf(&mut leaves, LeafFields { cluster: 0, ..Default::default() });
    write_leaf(&mut leaves, LeafFields { cluster: 1, ..Default::default() });

    let mut builder = Builder::new(20, 1);
    builder.set_lump(LUMP_PLANES, 0, 0, planes.into_inner());
    builder.set_lump(LUMP_NODES, 0, 0, nodes.into_inner());
    builder.set_lump(LUMP_LEAVES, 1, 0, leaves.into_inner());
    if let Some(bytes) = visibility_bytes {
        builder.set_lump(LUMP_VISIBILITY, 0, 0, bytes.to_vec());
    }
    builder.build().unwrap()
}

/// Two rooms either side of the `x` plane, with a door that sits in no leaf.
fn synthetic_rooms() -> Vec<u8> {
    let squares = [[0.0f32, 0.0], [0.0, 64.0], [-64.0, 0.0], [-64.0, 64.0]];
    let mut vertices = Writer::new();
    let mut edges = Writer::new();
    let mut surfedges = Writer::new();
    let mut faces = Writer::new();
    for (square, [x, y]) in squares.into_iter().enumerate() {
        for corner in [[x, y], [x + 64.0, y], [x + 64.0, y + 64.0], [x, y + 64.0]] {
            for value in [corner[0], corner[1], 0.0] {
                write_f32(&mut vertices, value);
            }
        }
        let base = square as u16 * 4;
        for edge in [[base, base + 1], [base + 1, base + 2], [base + 2, base + 3], [base, base + 3]] {
            edges.write_u16_le(edge[0]);
            edges.write_u16_le(edge[1]);
        }
        let base = square as i32 * 4;
        for surfedge in [base, base + 1, base + 2, -(base + 3)] {
            surfedges.write_i32_le(surfedge);
        }
        write_face_fields(&mut faces, FaceFields { first_surfedge: base, ..Default::default() });
    }

    let mut planes = Writer::new();
    for value in [1.0f32, 0.0, 0.0, 0.0] {
        write_f32(&mut planes, value);
    }
    planes.write_i32_le(0);

    let mut nodes = Writer::new();
    nodes.write_i32_le(0);
    nodes.write_i32_le(-1);
    nodes.write_i32_le(-2);
    for _ in 0..6 {
        nodes.write_i16_le(0);
    }
    for _ in 0..2 {
        nodes.write_u16_le(0);
    }
    nodes.write_i16_le(0);
    nodes.write_u16_le(0);

    let mut leaves = Writer::new();
    write_leaf(
        &mut leaves,
        LeafFields { cluster: 0, mins: [0, 0, -1], maxs: [64, 128, 1], first_leaf_face: 0, leaf_face_count: 2 },
    );
    write_leaf(
        &mut leaves,
        LeafFields { cluster: 1, mins: [-64, 0, -1], maxs: [0, 64, 1], first_leaf_face: 2, leaf_face_count: 1 },
    );

    let mut leaf_faces = Writer::new();
    for face in [0u16, 1, 2] {
        leaf_faces.write_u16_le(face);
    }

    let mut visibility = Writer::new();
    visibility.write_i32_le(2);
    for offset in [20, 21, 22, 23] {
        visibility.write_i32_le(offset);
    }
    visibility.write_bytes(&[0b01, 0b11, 0b11, 0b11]);

    let mut models = Writer::new();
    for (first_face, face_count) in [(0, 3), (3, 1)] {
        for value in [-64.0f32, 0.0, -1.0, 64.0, 128.0, 1.0, 0.0, 0.0, 0.0] {
            write_f32(&mut models, value);
        }
        models.write_i32_le(0);
        models.write_i32_le(first_face);
        models.write_i32_le(face_count);
    }

    let mut builder = Builder::new(20, 1);
    builder.set_lump(LUMP_MODELS, 0, 0, models.into_inner());
    builder.set_lump(LUMP_VERTEXES, 0, 0, vertices.into_inner());
    builder.set_lump(LUMP_EDGES, 0, 0, edges.into_inner());
    builder.set_lump(LUMP_SURFEDGES, 0, 0, surfedges.into_inner());
    builder.set_lump(LUMP_FACES, 0, 0, faces.into_inner());
    builder.set_lump(LUMP_LEAFFACES, 0, 0, leaf_faces.into_inner());
    builder.set_lump(LUMP_PLANES, 0, 0, planes.into_inner());
    builder.set_lump(LUMP_NODES, 0, 0, nodes.into_inner());
    builder.set_lump(LUMP_LEAVES, 1, 0, leaves.into_inner());
    builder.set_lump(LUMP_VISIBILITY, 0, 0, visibility.into_inner());
    let mut texinfos = Writer::new();
    write_texinfo(&mut texinfos, 1.0, 0, 0);
    let mut texdatas = Writer::new();
    write_texdata(&mut texdatas, 0, 64, 64);
    let mut table = Writer::new();
    table.write_i32_le(0);
    builder.set_lump(LUMP_TEXINFO, 0, 0, texinfos.into_inner());
    builder.set_lump(LUMP_TEXDATA, 0, 0, texdatas.into_inner());
    builder.set_lump(LUMP_TEXDATA_STRING_TABLE, 0, 0, table.into_inner());
    builder.set_lump(LUMP_TEXDATA_STRING_DATA, 0, 0, b"brick/brickwall001a\0".to_vec());
    builder.build().unwrap()
}

/// Which side of each plane a point lies on, and the leaf that puts it in.
fn point_leaf(world: &World, point: [f32; 3]) -> Result<usize, Error> {
    if point.iter().any(|component| !component.is_finite()) {
        return Err(Error::NonFinitePoint);
    }
    let behind: Vec<bool> = world
        .planes()
        .iter()
        .map(|plane| {
            let normal = plane.normal.map(f32::from_bits);
            let distance = point[0] * normal[0] + point[1] * normal[1] + point[2] * normal[2]
                - f32::from_bits(plane.distance);
            distance < 0.0
        })
        .collect();
    world.point_leaf_by(&behind)
}

fn select(world: &World, surfaces: &Surfaces, from: [f32; 3]) -> Result<VisibleFaces, Error> {
    let leaf = point_leaf(world, from)?;
    VisibleFaces::select_at_leaf(world, surfaces, leaf)
}

#[test]
fn reads_a_displacement_without_the_field_stored_beside_it() {
    let mut faces = Writer::new();
    write_face_fields(&mut faces, FaceFields { displacement: -1, surface_fog_volume: 0, ..FaceFields::default() });
    write_face_fields(&mut faces, FaceFields { displacement: 3, surface_fog_volume: -1, ..FaceFields::default() });
    let map = synthetic_surfaces(None, Some(faces.into_inner()), None);
    let bsp = Bsp::parse(&map).unwrap();
    let surfaces = Surfaces::parse(&bsp).unwrap();

    assert_eq!(surfaces.faces()[0].displacement, -1);
    assert!(!surfaces.faces()[0].is_displacement());
    assert_eq!(surfaces.faces()[1].displacement, 3);
    assert!(surfaces.faces()[1].is_displacement());
}

#[test]
fn refuses_surface_lumps_that_point_outside_themselves() {
    let bytes = synthetic_surfaces(Some(vec![0, 1, 2, 9]), None, None);
    let bsp = Bsp::parse(&bytes).unwrap();
    assert!(matches!(Surfaces::parse(&bsp), Err(Error::InvalidSurfedge { surfedge: 3, edge: 9 })));

    let mut faces = Writer::new();
    write_face(&mut faces, 0, 2, 4, -1);
    let bytes = synthetic_surfaces(None, Some(faces.into_inner()), None);
    let bsp = Bsp::parse(&bytes).unwrap();
    assert!(matches!(Surfaces::parse(&bsp), Err(Error::InvalidFaceRange { face: 0, first: 2, count: 4 })));

    let bytes = synthetic_surfaces(None, None, Some(vec![5]));
    let bsp = Bsp::parse(&bytes).unwrap();
    assert!(matches!(Surfaces::parse(&bsp), Err(Error::InvalidFaceIndex(5))));

    let mut faces = Writer::new();
    write_face(&mut faces, 0, 0, 2, -1);
    let bytes = synthetic_surfaces(None, Some(faces.into_inner()), None);
    let bsp = Bsp::parse(&bytes).unwrap();
    let surfaces = Surfaces::parse(&bsp).unwrap();
    assert!(matches!(surfaces.triangulate(&[0]), Err(Error::DegenerateFace { face: 0, edges: 2 })));
    assert!(matches!(surfaces.triangulate(&[1]), Err(Error::InvalidFaceIndex(1))));
    assert!(matches!(surfaces.face_loop(0), Err(Error::DegenerateFace { face: 0, edges: 2 })));
}

#[test]
fn triangulates_a_world_surface_into_shared_indexed_corners() {
    let bytes = synthetic_surfaces(None, None, None);
    let bsp = Bsp::parse(&bytes).unwrap();
    let surfaces = Surfaces::parse(&bsp).unwrap();

    assert_eq!(surfaces.faces().len(), 1);
    assert_eq!(surfaces.leaf_faces(), &[0]);
    assert!(!surfaces.faces()[0].is_displacement());

    // Walking the loop has to recover the square in order, including the corner
    // reached through the reversed edge.
    assert_eq!(surfaces.face_loop(0).unwrap(), vec![0, 1, 2, 3]);

    let geometry = surfaces.triangulate(&[0]).unwrap();
    // Four corners, not six: the two triangles of the fan share the diagonal, which is
    // the whole point of indexing them.
    let positions: Vec<[f32; 3]> = geometry.positions.iter().map(|p| p.map(f32::from_bits)).collect();
    assert_eq!(
        positions,
        vec![[0.0, 0.0, 0.0], [1.0, 0.0, 0.0], [1.0, 1.0, 0.0], [0.0, 1.0, 0.0]]
    );
    assert_eq!(geometry.indices, vec![0, 1, 2, 0, 2, 3]);
    assert_eq!(geometry.triangle_count(), 2);
    assert!(!geometry.is_empty());
}

#[test]
fn shares_positions_between_faces_that_meet() {
    // Two faces over the same four corners: the second must reuse the positions the
    // first emitted rather than appending its own copies.
    let mut faces = Writer::new();
    write_face(&mut faces, 0, 0, 4, -1);
    write_face(&mut faces, 0, 0, 4, -1);
    let bytes = synthetic_surfaces(None, Some(faces.into_inner()), Some(vec![0, 1]));
    let bsp = Bsp::parse(&bytes).unwrap();
    let surfaces = Surfaces::parse(&bsp).unwrap();

    let geometry = surfaces.triangulate(&[0, 1]).unwrap();
    assert_eq!(geometry.positions.len(), 4);
    assert_eq!(geometry.indices, vec![0, 1, 2, 0, 2, 3, 0, 1, 2, 0, 2, 3]);
}

#[test]
fn skips_displacement_faces_whose_geometry_lives_elsewhere() {
    let mut faces = Writer::new();
    write_face(&mut faces, 0, 0, 4, 7);
    let bytes = synthetic_surfaces(None, Some(faces.into_inner()), Some(vec![0]));
    let bsp = Bsp::parse(&bytes).unwrap();
    let surfaces = Surfaces::parse(&bsp).unwrap();

    assert!(surfaces.faces()[0].is_displacement());
    let geometry = surfaces.triangulate(&[0]).unwrap();
    assert!(geometry.is_empty());
    assert!(geometry.positions.is_empty());
}

#[test]
fn refuses_a_corner_that_is_not_a_number() {
    let bytes = synthetic_surfaces(None, None, None);
    let bsp = Bsp::parse(&bytes).unwrap();
    let mut vertices = Writer::new();
    for corner in [[0.0f32, 0.0, 0.0], [1.0, 0.0, 0.0], [1.0, f32::NAN, 0.0], [0.0, 1.0, 0.0]] {
        for value in corner {
            write_f32(&mut vertices, value);
        }
    }
    let mut builder = bsp.to_builder();
    builder.set_lump(LUMP_VERTEXES, 0, 0, vertices.into_inner());
    let bytes = builder.build().unwrap();
    let surfaces = Surfaces::parse(&Bsp::parse(&bytes).unwrap()).unwrap();
    assert!(matches!(surfaces.triangulate(&[0]), Err(Error::NonFiniteVertex(2))));
}

#[test]
fn walks_a_face_loop_the_way_the_compiler_wound_it() {
    let bytes = synthetic_surfaces(None, None, None);
    let bsp = Bsp::parse(&bytes).unwrap();
    let surfaces = Surfaces::parse(&bsp).unwrap();
    assert_eq!(surfaces.face_loop(0).unwrap(), vec![0, 1, 2, 3]);
    assert_eq!(surfaces.vertices().len(), 4);
    assert_eq!(f32::from_bits(surfaces.vertices()[2][1]), 1.0);
    assert_eq!(surfaces.leaf_faces(), &[0]);

    let bytes = synthetic_surfaces(None, None, Some(vec![0, 0]));
    let bsp = Bsp::parse(&bytes).unwrap();
    assert!(Surfaces::parse(&bsp).is_ok());
}

#[test]
fn refuses_an_edge_naming_a_vertex_the_map_does_not_hold() {
    let mut edges = Writer::new();
    for edge in [[0u16, 1u16], [1, 7]] {
        edges.write_u16_le(edge[0]);
        edges.write_u16_le(edge[1]);
    }
    let bytes = synthetic_surfaces(Some(vec![0, 1]), None, None);
    let bsp = Bsp::parse(&bytes).unwrap();
    let mut builder = bsp.to_builder();
    builder.set_lump(LUMP_EDGES, 0, 0, edges.into_inner());
    let bytes = builder.build().unwrap();
    let bsp = Bsp::parse(&bytes).unwrap();
    assert!(matches!(Surfaces::parse(&bsp), Err(Error::InvalidEdgeVertex { edge: 1, vertex: 7 })));
}

#[test]
fn draws_only_what_the_visibility_set_reaches() {
    let bytes = synthetic_rooms();
    let bsp = Bsp::parse(&bytes).unwrap();
    let surfaces = Surfaces::parse(&bsp).unwrap();
    let world = World::parse(&bsp).unwrap();

    let near = select(&world, &surfaces, [32.0, 32.0, 0.0]).unwrap();
    assert_eq!(near.faces(), [0, 1]);
    assert_eq!(near.total(), 4);
    assert_eq!(near.visible_leaves(), 1);

    let far = select(&world, &surfaces, [-32.0, 32.0, 0.0]).unwrap();
    assert_eq!(far.faces(), [0, 1, 2]);
    assert_eq!(far.visible_leaves(), 2);
}

#[test]
fn leaves_out_the_surfaces_the_world_tree_does_not_speak_for() {
    let bytes = synthetic_rooms();
    let bsp = Bsp::parse(&bytes).unwrap();
    let surfaces = Surfaces::parse(&bsp).unwrap();
    let world = World::parse(&bsp).unwrap();

    assert_eq!(world.models().len(), 2);
    assert_eq!(world.world_faces(), 0..3);
    assert_eq!(world.models()[1].faces(), 3..4);

    for standing in [[32.0, 32.0, 0.0], [-32.0, 32.0, 0.0]] {
        let visible = select(&world, &surfaces, standing).unwrap();
        assert!(!visible.contains(3), "the door is not the world tree's to place, standing at {standing:?}");
    }
}

#[test]
fn draws_the_whole_map_from_a_point_with_no_visibility_row() {
    let bytes = synthetic_surfaces(None, None, None);
    let bsp = Bsp::parse(&bytes).unwrap();
    let surfaces = Surfaces::parse(&bsp).unwrap();

    let visible = VisibleFaces::everything(&surfaces);

    assert_eq!(visible.len(), surfaces.faces().len());
    assert!(visible.contains(0));
    assert!(!visible.contains(1));
    assert!(!visible.is_empty());
    assert!(visible.admits(5));
}

#[test]
fn rejects_a_leaf_naming_surfaces_the_map_does_not_hold() {
    let bytes = synthetic_rooms();
    let mut bsp_bytes = bytes.clone();
    let bsp = Bsp::parse(&bytes).unwrap();
    let leaves = bsp.header().lumps[LUMP_LEAVES];
    let count = leaves.offset as usize + 20;
    bsp_bytes[count..count + 2].copy_from_slice(&99u16.to_le_bytes());

    let bsp = Bsp::parse(&bsp_bytes).unwrap();
    let surfaces = Surfaces::parse(&bsp).unwrap();
    let world = World::parse(&bsp).unwrap();

    assert!(matches!(
        select(&world, &surfaces, [32.0, 32.0, 0.0]),
        Err(Error::InvalidLeafFaceRun { .. })
    ));
}

#[test]
fn owns_world_tree_and_visibility_queries() {
    let mut visibility = Writer::new();
    visibility.write_i32_le(2);
    visibility.write_i32_le(20);
    visibility.write_i32_le(21);
    visibility.write_i32_le(22);
    visibility.write_i32_le(23);
    visibility.write_bytes(&[0b01, 0b11, 0b10, 0b11]);
    let bytes = synthetic_world(Some(&visibility.into_inner()));
    let bsp = Bsp::parse(&bytes).unwrap();
    let world = World::parse(&bsp).unwrap();

    assert_eq!(world.planes().len(), 1);
    assert_eq!(world.nodes().len(), 1);
    assert_eq!(world.leaves().len(), 2);
    assert_eq!(world.cluster_count(), 2);
    assert_eq!(point_leaf(&world, [1.0, 0.0, 0.0]).unwrap(), 0);
    assert_eq!(point_leaf(&world, [-1.0, 0.0, 0.0]).unwrap(), 1);
    assert_eq!(world.visibility(0, VisibilityKind::PotentiallyVisible).unwrap(), [0b01]);
    assert!(world.cluster_visible(0, 0).unwrap());
    assert!(!world.cluster_visible(0, 1).unwrap());
    assert!(world.cluster_visible(1, 1).unwrap());
}

#[test]
fn no_visibility_means_all_clusters_visible() {
    let bytes = synthetic_world(None);
    let bsp = Bsp::parse(&bytes).unwrap();
    let world = World::parse(&bsp).unwrap();
    assert_eq!(world.cluster_count(), 2);
    assert_eq!(world.visibility(0, VisibilityKind::PotentiallyVisible).unwrap(), [0xff]);
    assert!(world.cluster_visible(0, 1).unwrap());
}

#[test]
fn rejects_invalid_visibility_runs() {
    let mut visibility = Writer::new();
    visibility.write_i32_le(2);
    for _ in 0..4 {
        visibility.write_i32_le(20);
    }
    visibility.write_bytes(&[0, 0]);
    let bytes = synthetic_world(Some(&visibility.into_inner()));
    let bsp = Bsp::parse(&bytes).unwrap();
    assert!(matches!(World::parse(&bsp), Err(Error::InvalidVisibilityRun)));
}

#[test]
fn decodes_a_run_of_zero_bytes() {
    let mut visibility = Writer::new();
    visibility.write_i32_le(20);
    for _ in 0..40 {
        visibility.write_i32_le(164);
    }
    visibility.write_bytes(&[0x05, 0x00, 0x01, 0x07]);
    let bytes = synthetic_world(Some(&visibility.into_inner()));
    let bsp = Bsp::parse(&bytes).unwrap();
    let world = World::parse(&bsp).unwrap();
    assert_eq!(world.cluster_count(), 20);
    assert_eq!(world.visibility(3, VisibilityKind::PotentiallyAudible).unwrap(), [0x05, 0x00, 0x07]);
    assert!(matches!(world.visibility(20, VisibilityKind::PotentiallyVisible), Err(Error::InvalidCluster(20))));
    assert!(matches!(world.cluster_visible(0, 25), Err(Error::InvalidCluster(25))));
}

#[test]
fn refuses_a_tree_that_points_outside_itself() {
    let bytes = synthetic_world(None);
    let bsp = Bsp::parse(&bytes).unwrap();
    let nodes = bsp.header().lumps[LUMP_NODES];
    let mut broken = bytes.clone();
    let at = nodes.offset as usize + 8;
    broken[at..at + 4].copy_from_slice(&(-3i32).to_le_bytes());
    let bsp = Bsp::parse(&broken).unwrap();
    assert!(matches!(World::parse(&bsp), Err(Error::InvalidChildIndex { node: 0, child: -3 })));

    let mut broken = bytes.clone();
    let at = nodes.offset as usize;
    broken[at..at + 4].copy_from_slice(&1i32.to_le_bytes());
    let bsp = Bsp::parse(&broken).unwrap();
    assert!(matches!(World::parse(&bsp), Err(Error::InvalidPlaneIndex { node: 0, plane: 1 })));

    assert!(matches!(World::parse(&Bsp::parse(&Builder::new(20, 0).build().unwrap()).unwrap()), Err(Error::MissingWorldTree)));
}

#[test]
fn reports_a_cycle_in_the_tree() {
    let bytes = synthetic_world(None);
    let bsp = Bsp::parse(&bytes).unwrap();
    let nodes = bsp.header().lumps[LUMP_NODES];
    let mut looped = bytes.clone();
    let at = nodes.offset as usize + 4;
    looped[at..at + 4].copy_from_slice(&0i32.to_le_bytes());
    let bsp = Bsp::parse(&looped).unwrap();
    let world = World::parse(&bsp).unwrap();
    assert!(matches!(world.point_leaf_by(&[false]), Err(Error::TraversalCycle)));
    assert_eq!(world.point_leaf_by(&[true]).unwrap(), 1);
}

#[test]
fn packs_blocks_tallest_first_into_padded_rows() {
    let blocks = vec![(0usize, 2u32, 2u32), (1, 1, 1), (2, 3, 2), (3, 2047, 1)];
    let atlas = LightmapAtlas::lay_out(&blocks).unwrap();
    assert_eq!(atlas.width(), 2048);
    assert_eq!(atlas.len(), 4);
    assert!(!atlas.is_empty());
    // Taller first, then wider: face 2 then face 0 share the first row.
    assert_eq!(atlas.placement(2).unwrap().origin, [0, 0]);
    assert_eq!(atlas.placement(0).unwrap().origin, [4, 0]);
    // The wide block does not fit the rest of the row, so it opens the next one,
    // padded below the first row's tallest block.
    assert_eq!(atlas.placement(3).unwrap().origin, [0, 3]);
    assert_eq!(atlas.placement(1).unwrap().origin, [0, 5]);
    assert_eq!(atlas.placement(1).unwrap().extent, [1, 1]);
    assert_eq!(atlas.placement(9), None);
    assert_eq!(atlas.height(), 6);
    assert_eq!(atlas.pixels().len(), 2048 * 6 * 4);
    assert!(atlas.pixels().iter().all(|byte| *byte == 0));
}

#[test]
fn refuses_blocks_that_do_not_fit_the_tallest_image() {
    let blocks = vec![(0usize, 10u32, 5000u32), (1, 2040, 5000)];
    assert!(matches!(
        LightmapAtlas::lay_out(&blocks),
        Err(Error::LightmapAtlasTooLarge { blocks: 2, limit: 8192 })
    ));
    let empty = LightmapAtlas::lay_out(&Vec::new()).unwrap();
    assert!(empty.is_empty());
    assert_eq!(empty.height(), 1);
}

#[test]
fn names_the_material_a_surface_is_drawn_with() {
    let bytes = synthetic_materials(None, None, None, None);
    let bsp = Bsp::parse(&bytes).unwrap();
    let materials = Materials::parse(&bsp).unwrap();

    assert_eq!(materials.name(0), Some("brick/brickwall001a"));
    assert_eq!(materials.texinfos().len(), 1);
    assert_eq!(materials.texdatas()[0].width, 64);
    assert_eq!(materials.name(1), None);
}

#[test]
fn refuses_material_lumps_that_do_not_agree_with_each_other() {
    let mut texinfos = Writer::new();
    write_texinfo(&mut texinfos, 1.0, 0, 7);
    let bytes = synthetic_materials(None, Some(texinfos.into_inner()), None, None);
    let bsp = Bsp::parse(&bytes).unwrap();
    assert!(matches!(Materials::parse(&bsp), Err(Error::InvalidTexData(7))));

    let mut texinfos = Writer::new();
    write_texinfo(&mut texinfos, 1.0, 0, -1);
    let bytes = synthetic_materials(None, Some(texinfos.into_inner()), None, None);
    let bsp = Bsp::parse(&bytes).unwrap();
    assert!(matches!(Materials::parse(&bsp), Err(Error::InvalidTexData(-1))));

    let mut texdatas = Writer::new();
    write_texdata(&mut texdatas, 5, 64, 64);
    let bytes = synthetic_materials(None, None, Some(texdatas.into_inner()), None);
    let bsp = Bsp::parse(&bytes).unwrap();
    assert!(matches!(Materials::parse(&bsp), Err(Error::InvalidMaterialName(5))));

    for names in [(vec![64], b"brick/brickwall001a\0".to_vec()), (vec![0], b"brick".to_vec())] {
        let offset = names.0[0] as u32;
        let bytes = synthetic_materials(None, None, None, Some(names));
        let bsp = Bsp::parse(&bytes).unwrap();
        assert!(
            matches!(Materials::parse(&bsp), Err(Error::InvalidMaterialName(seen)) if seen == offset),
            "an unreadable name at {offset} is refused"
        );
    }

    let mut texdatas = Writer::new();
    write_texdata(&mut texdatas, 0, 0, 64);
    let bytes = synthetic_materials(None, None, Some(texdatas.into_inner()), None);
    let bsp = Bsp::parse(&bytes).unwrap();
    assert!(matches!(Materials::parse(&bsp), Err(Error::UnusableProjection(0))));

    let mut texinfos = Writer::new();
    write_texinfo(&mut texinfos, f32::NAN, 0, 0);
    let bytes = synthetic_materials(None, Some(texinfos.into_inner()), None, None);
    let bsp = Bsp::parse(&bytes).unwrap();
    assert!(matches!(Materials::parse(&bsp), Err(Error::UnusableProjection(0))));
}

#[test]
fn a_surface_never_drawn_may_name_no_material() {
    let mut texinfos = Writer::new();
    write_texinfo(&mut texinfos, f32::INFINITY, 0x0080, -1);
    let bytes = synthetic_materials(None, Some(texinfos.into_inner()), None, None);
    let bsp = Bsp::parse(&bytes).unwrap();
    let materials = Materials::parse(&bsp).unwrap();
    assert!(!materials.texinfos()[0].is_drawn());
    assert_eq!(f32::from_bits(materials.texinfos()[0].texture_vectors[0][0]), f32::INFINITY);
}

#[test]
fn refuses_a_surface_naming_a_texinfo_that_is_not_there() {
    let mut faces = Writer::new();
    write_face_fields(&mut faces, FaceFields { texinfo: 9, ..FaceFields::default() });
    let bytes = synthetic_materials(Some(faces.into_inner()), None, None, None);
    let bsp = Bsp::parse(&bytes).unwrap();
    let surfaces = Surfaces::parse(&bsp).unwrap();
    let materials = Materials::parse(&bsp).unwrap();

    assert!(matches!(materials.face_texinfo(&surfaces.faces()[0]), Err(Error::InvalidTexInfo(9))));
}

fn write_face_with_texinfo(writer: &mut Writer, first_surfedge: i32, texinfo: i16) {
    write_face_fields(writer, FaceFields { first_surfedge, texinfo, ..FaceFields::default() });
}

/// The texture coordinate a laid-out corner is drawn with: its stored vertex projected
/// through its texinfo, in units of its material's size.
fn texcoord(surfaces: &Surfaces, materials: &Materials, layout: &Layout, corner: usize) -> [f32; 2] {
    let (vertex, texinfo, _, _) = layout.corners[corner];
    let point = surfaces.vertices()[vertex as usize].map(f32::from_bits);
    let info = materials.texinfos()[texinfo];
    let size = materials.texdatas()[info.texdata as usize];
    let project = |vector: [u32; 4]| {
        let v = vector.map(f32::from_bits);
        point[0] * v[0] + point[1] * v[1] + point[2] * v[2] + v[3]
    };
    [
        project(info.texture_vectors[0]) / size.width as f32,
        project(info.texture_vectors[1]) / size.height as f32,
    ]
}

#[test]
fn lays_a_texture_across_a_surface_in_the_units_a_sampler_takes() {
    let bytes = synthetic_materials(None, None, None, None);
    let bsp = Bsp::parse(&bytes).unwrap();
    let surfaces = Surfaces::parse(&bsp).unwrap();
    let materials = Materials::parse(&bsp).unwrap();

    let layout = surfaces.lay_out(&materials, &[vec![0]], false).unwrap();

    // The square runs one unit each way and the texture is laid on at a texel per unit
    // across a 64 texel material, so its far corner is a sixty-fourth of the way across.
    assert_eq!(layout.corners.len(), 4);
    assert_eq!(texcoord(&surfaces, &materials, &layout, 0), [0.0, 0.0]);
    assert_eq!(texcoord(&surfaces, &materials, &layout, 2), [1.0 / 64.0, 1.0 / 64.0]);
    assert_eq!(layout.indices.len() / 3, 2);
    assert_eq!(layout.batches, vec![Batch { texdata: 0, first_index: 0, index_count: 6 }]);
}

#[test]
fn groups_surfaces_into_one_run_per_material() {
    // Two squares, the second using a different material.
    let mut faces = Writer::new();
    write_face_with_texinfo(&mut faces, 0, 0);
    write_face_with_texinfo(&mut faces, 0, 1);
    write_face_with_texinfo(&mut faces, 0, 0);

    let mut texinfos = Writer::new();
    write_texinfo(&mut texinfos, 1.0, 0, 0);
    write_texinfo(&mut texinfos, 2.0, 0, 1);

    let mut texdatas = Writer::new();
    write_texdata(&mut texdatas, 0, 64, 64);
    // The second entry of the string table, which is where the second name begins; the
    // table holds the offsets, not the texdata.
    write_texdata(&mut texdatas, 1, 32, 32);

    let bytes = synthetic_materials(
        Some(faces.into_inner()),
        Some(texinfos.into_inner()),
        Some(texdatas.into_inner()),
        Some((vec![0, 20], b"brick/brickwall001a\0metal/metalwall001a\0".to_vec())),
    );
    let bsp = Bsp::parse(&bytes).unwrap();
    let surfaces = Surfaces::parse(&bsp).unwrap();
    let materials = Materials::parse(&bsp).unwrap();

    let layout = surfaces.lay_out(&materials, &[vec![0, 1, 2]], false).unwrap();

    // The two surfaces sharing a material are drawn in one run even though another
    // surface sits between them in the lump.
    assert_eq!(
        layout.batches,
        vec![
            Batch { texdata: 0, first_index: 0, index_count: 12 },
            Batch { texdata: 1, first_index: 12, index_count: 6 },
        ]
    );
    assert_eq!(materials.name(1), Some("metal/metalwall001a"));

    // The two surfaces under one material share their corners, and the third does not
    // share with them because it projects its texture differently.
    assert_eq!(layout.corners.len(), 8);
    assert_eq!(texcoord(&surfaces, &materials, &layout, 4), [0.0, 0.0]);
    assert_eq!(texcoord(&surfaces, &materials, &layout, 6), [2.0 / 32.0, 2.0 / 32.0]);
}

#[test]
fn leaves_out_the_surfaces_a_world_draw_never_shows() {
    let mut faces = Writer::new();
    write_face_with_texinfo(&mut faces, 0, 0);
    write_face_with_texinfo(&mut faces, 0, 1);
    // A face naming no texinfo at all, which the format allows.
    write_face_with_texinfo(&mut faces, 0, -1);

    let mut texinfos = Writer::new();
    write_texinfo(&mut texinfos, 1.0, 0x0004, 0);
    write_texinfo(&mut texinfos, 1.0, 0x0080, 0);

    let bytes = synthetic_materials(Some(faces.into_inner()), Some(texinfos.into_inner()), None, None);
    let bsp = Bsp::parse(&bytes).unwrap();
    let surfaces = Surfaces::parse(&bsp).unwrap();
    let materials = Materials::parse(&bsp).unwrap();

    let layout = surfaces.lay_out(&materials, &[vec![0, 1, 2]], false).unwrap();

    assert!(layout.indices.is_empty(), "the sky and the compiler's own annotations are not world surfaces");
    assert!(layout.batches.is_empty());
}

#[test]
fn stops_sharing_a_corner_between_surfaces_once_they_are_lit() {
    // Two surfaces over the same square sharing a texture projection. Without lighting
    // they share their corners; with it they cannot, because a corner's lighting comes
    // from the surface it is part of.
    let lighting = samples(&[sample([200, 200, 200], 0), sample([8, 8, 8], 0)]);
    let faces = vec![lit_face(0, [0, 0]), lit_face(LIGHTMAP_SAMPLE_SIZE as i32, [0, 0])];
    let map = synthetic_lit(faces, lighting, false);
    let bsp = Bsp::parse(&map).unwrap();
    let surfaces = Surfaces::parse(&bsp).unwrap();
    let materials = Materials::parse(&bsp).unwrap();

    let shared = surfaces.lay_out(&materials, &[vec![0, 1]], false).unwrap();
    let lit = surfaces.lay_out(&materials, &[vec![0, 1]], true).unwrap();

    assert_eq!(shared.corners.len(), 4, "the corners are shared");
    assert_eq!(lit.corners.len(), 8, "each surface keeps its own");
    assert_eq!(shared.indices.len(), lit.indices.len());
}

#[test]
fn draws_the_same_triangles_in_the_same_order_when_nothing_is_culled() {
    // The runs a frame selects are the geometry's own batches when every surface is
    // visible. If they were not, culling would change what a frame draws rather than
    // only how much of it.
    let bytes = synthetic_rooms();
    let bsp = Bsp::parse(&bytes).unwrap();
    let surfaces = Surfaces::parse(&bsp).unwrap();
    let materials = Materials::parse(&bsp).unwrap();
    let all: Vec<usize> = (0..surfaces.faces().len()).collect();
    let layout = surfaces.lay_out(&materials, &[all], false).unwrap();

    let everything = VisibleFaces::everything(&surfaces);
    let runs = visible_batches_by(&layout.runs, &layout.batches, &everything, &vec![false; layout.runs.len()]);

    assert_eq!(runs, layout.batches);
    assert_eq!(layout.runs.len(), 4, "one run per surface");
    assert_eq!(runs.iter().map(|run| run.index_count).sum::<usize>(), layout.indices.len());
}

#[test]
fn joins_neighbouring_surfaces_and_splits_where_one_is_dropped() {
    let bytes = synthetic_rooms();
    let bsp = Bsp::parse(&bytes).unwrap();
    let surfaces = Surfaces::parse(&bsp).unwrap();
    let materials = Materials::parse(&bsp).unwrap();
    let world = World::parse(&bsp).unwrap();
    let all: Vec<usize> = (0..surfaces.faces().len()).collect();
    let layout = surfaces.lay_out(&materials, &[all], false).unwrap();
    let none = vec![false; layout.runs.len()];

    // The near room's two surfaces sit next to each other in one material, so they
    // draw as one run rather than two.
    let near = select(&world, &surfaces, [32.0, 32.0, 0.0]).unwrap();
    let joined = visible_batches_by(&layout.runs, &layout.batches, &near, &none);
    assert_eq!(joined.len(), 1);
    assert_eq!(joined[0].first_index, 0);
    assert_eq!(joined[0].index_count, 12, "two squares, two triangles each");

    // Dropping the surface between two visible ones splits the run, because the indices
    // left out sit between them in the buffer.
    let everything = VisibleFaces::everything(&surfaces);
    let dropped: Vec<bool> = layout.runs.iter().map(|run| run.face == 1).collect();
    let split = visible_batches_by(&layout.runs, &layout.batches, &everything, &dropped);
    assert_eq!(split.len(), 2);
    assert_eq!(split[0].index_count, 6);
    assert_eq!(split[1].first_index, 12);
    assert_eq!(split[1].index_count, 12, "the two surfaces after the gap are still joined to each other");
    assert!(
        split.iter().all(|run| run.texdata == joined[0].texdata),
        "every run still draws with the material its surfaces name"
    );
}

#[test]
fn refuses_to_lay_out_what_the_map_does_not_hold() {
    let bytes = synthetic_materials(None, None, None, None);
    let bsp = Bsp::parse(&bytes).unwrap();
    let surfaces = Surfaces::parse(&bsp).unwrap();
    let materials = Materials::parse(&bsp).unwrap();
    assert!(matches!(surfaces.lay_out(&materials, &[vec![0], vec![4]], false), Err(Error::InvalidFaceIndex(4))));

    let mut faces = Writer::new();
    write_face_with_texinfo(&mut faces, 0, 3);
    let bytes = synthetic_materials(Some(faces.into_inner()), None, None, None);
    let bsp = Bsp::parse(&bytes).unwrap();
    let surfaces = Surfaces::parse(&bsp).unwrap();
    let materials = Materials::parse(&bsp).unwrap();
    assert!(matches!(surfaces.lay_out(&materials, &[vec![0]], false), Err(Error::InvalidTexInfo(3))));
}

#[test]
fn gives_each_placement_group_its_own_corners_and_runs() {
    let bytes = synthetic_materials(None, None, None, None);
    let bsp = Bsp::parse(&bytes).unwrap();
    let surfaces = Surfaces::parse(&bsp).unwrap();
    let materials = Materials::parse(&bsp).unwrap();
    let layout = surfaces.lay_out(&materials, &[vec![0], vec![0]], false).unwrap();
    // The same stored square lands somewhere different under each placement.
    assert_eq!(layout.corners.len(), 8);
    assert_eq!(layout.runs.len(), 2);
    assert_eq!((layout.runs[0].group, layout.runs[1].group), (0, 1));
    assert_eq!(layout.runs[1].first_index, 6);
    assert_eq!(layout.batches, vec![Batch { texdata: 0, first_index: 0, index_count: 12 }]);
}

#[test]
fn packs_each_lit_surface_into_its_own_block() {
    let lighting = samples(&[
        // A 2x1 extent, so four samples.
        sample([255, 255, 255], 0),
        sample([255, 255, 255], 0),
        sample([0, 0, 0], 0),
        sample([0, 0, 0], 0),
        // Then a single sample for the second surface.
        sample([255, 255, 255], 1),
    ]);
    let faces = vec![lit_face(0, [1, 1]), lit_face(4 * LIGHTMAP_SAMPLE_SIZE as i32, [0, 0]), FaceFields::default()];
    let map = synthetic_lit(faces, lighting, false);
    let bsp = Bsp::parse(&map).unwrap();
    let surfaces = Surfaces::parse(&bsp).unwrap();
    let materials = Materials::parse(&bsp).unwrap();
    let lighting = Lightmaps::parse(&bsp).unwrap();
    let atlas = LightmapAtlas::place(&surfaces, &materials, &lighting, &[0, 1, 2]).unwrap();

    assert_eq!(atlas.len(), 2, "the unlit surface is not packed");
    let first = atlas.placement(0).expect("the lit surface is placed");
    let second = atlas.placement(1).expect("the lit surface is placed");
    assert_eq!(first.extent, [2, 2]);
    assert_eq!(second.extent, [1, 1]);
    assert_eq!(atlas.placement(2), None);
    // Padded apart, so that filtering across one block's edge cannot reach the other
    // surface's lighting.
    assert!(
        second.origin[0] > first.origin[0] + first.extent[0] || second.origin[1] > first.origin[1] + first.extent[1],
        "the blocks are separated, got {first:?} and {second:?}"
    );
}

#[test]
fn packs_no_lightmap_the_world_draw_does_not_show() {
    let lighting = samples(&[sample([255, 255, 255], 0), sample([10, 20, 30], 0)]);
    // The second surface is lit but has no texinfo, so no world draw shows it.
    let hidden = FaceFields { texinfo: -1, ..lit_face(LIGHTMAP_SAMPLE_SIZE as i32, [0, 0]) };
    let map = synthetic_lit(vec![lit_face(0, [0, 0]), hidden], lighting, false);
    let bsp = Bsp::parse(&map).unwrap();
    let surfaces = Surfaces::parse(&bsp).unwrap();
    let materials = Materials::parse(&bsp).unwrap();
    let lighting = Lightmaps::parse(&bsp).unwrap();
    let atlas = LightmapAtlas::place(&surfaces, &materials, &lighting, &[0, 1]).unwrap();

    assert_eq!(atlas.len(), 1);
    assert_eq!(atlas.placement(0).map(|p| p.extent), Some([1, 1]));
    assert_eq!(atlas.placement(1), None);
}

#[test]
fn refuses_to_pack_a_lightmap_wider_than_the_image() {
    let lighting = vec![0u8; 2048 * 4];
    let map = synthetic_lit(vec![lit_face(0, [2047, 0])], lighting, false);
    let bsp = Bsp::parse(&map).unwrap();
    let surfaces = Surfaces::parse(&bsp).unwrap();
    let materials = Materials::parse(&bsp).unwrap();
    let lighting = Lightmaps::parse(&bsp).unwrap();
    assert!(matches!(
        LightmapAtlas::place(&surfaces, &materials, &lighting, &[0]),
        Err(Error::InvalidLightmapExtent { size: [2047, 0] })
    ));
    assert!(matches!(
        LightmapAtlas::place(&surfaces, &materials, &lighting, &[3]),
        Err(Error::InvalidFaceIndex(3))
    ));
}

#[test]
fn places_each_brush_model_once_in_model_order() {
    let entities = entities_of(
        "{\n\"classname\" \"worldspawn\"\n\"model\" \"*0\"\n}\n\
         {\n\"classname\" \"func_door\"\n\"model\" \"*2\"\n\"origin\" \"8 0 0\"\n}\n\
         {\n\"classname\" \"prop_static\"\n\"model\" \"models/crate.mdl\"\n}\n\
         {\n\"classname\" \"func_brush\"\n\"model\" \"*1\"\n}\n\
         {\n\"classname\" \"func_door\"\n\"model\" \"*2\"\n\"origin\" \"9 0 0\"\n}\n",
    );
    // The world is not placed, a model file is not a brush, and a model two entities
    // claim is placed by the first.
    assert_eq!(entities.brush_models(), vec![(1, 3), (2, 1)]);
    assert!(entities_of("{\n\"classname\" \"worldspawn\"\n}\n").brush_models().is_empty());
}
