use lib::binary::{Error as BinaryError, Writer};
use lib::bsp::ambient::AmbientLighting;
use lib::bsp::draws::{visible_batches_by, Batch, FaceRun};
use lib::bsp::lighting::LightmapAtlas;
use lib::bsp::props::StaticProps;
use lib::bsp::records::Leaf;
use lib::bsp::visible::VisibleFaces;
use lib::bsp::{
    Bsp, Builder, Error, LUMP_GAME_LUMP, LUMP_LEAF_AMBIENT_INDEX, LUMP_LEAF_AMBIENT_INDEX_HDR,
    LUMP_LEAF_AMBIENT_LIGHTING, LUMP_LEAF_AMBIENT_LIGHTING_HDR, LUMP_LEAVES,
};

const SPRP: i32 = 0x7370_7270;

struct PropFields {
    model: u16,
    first_leaf: u16,
    leaf_count: u16,
    origin: [f32; 3],
    angles: [f32; 3],
    skin: i32,
}

fn prop(model: u16, first_leaf: u16, leaf_count: u16) -> PropFields {
    PropFields { model, first_leaf, leaf_count, origin: [1.0, -2.5, 64.0], angles: [0.0, 90.0, 0.0], skin: 2 }
}

fn props_body(names: &[&str], leaves: &[u16], props: &[PropFields], stride: usize) -> Vec<u8> {
    let mut body = Writer::new();
    body.write_i32_le(names.len() as i32);
    for name in names {
        let mut slot = name.as_bytes().to_vec();
        slot.resize(128, 0);
        body.write_bytes(&slot);
    }
    body.write_i32_le(leaves.len() as i32);
    for leaf in leaves {
        body.write_u16_le(*leaf);
    }
    body.write_i32_le(props.len() as i32);
    for p in props {
        for value in p.origin.iter().chain(p.angles.iter()) {
            body.write_u32_le(value.to_bits());
        }
        body.write_u16_le(p.model);
        body.write_u16_le(p.first_leaf);
        body.write_u16_le(p.leaf_count);
        body.write_u8(0);
        body.write_u8(0);
        body.write_i32_le(p.skin);
        for _ in 36..stride {
            body.write_u8(0);
        }
    }
    body.into_inner()
}

fn game_lump(version: u16, offset: i32, body: &[u8]) -> Vec<u8> {
    let mut lump = Writer::new();
    lump.write_i32_le(2);
    // An entry for something else first, which is passed over.
    lump.write_i32_le(0x7072_7064);
    lump.write_u16_le(0);
    lump.write_u16_le(1);
    lump.write_i32_le(0);
    lump.write_i32_le(0);
    lump.write_i32_le(SPRP);
    lump.write_u16_le(0);
    lump.write_u16_le(version);
    lump.write_i32_le(offset);
    lump.write_i32_le(body.len() as i32);
    lump.write_bytes(body);
    lump.into_inner()
}

/// A map whose game lump holds a static prop lump, its entry pointing at where the
/// built file puts it.
fn synthetic_props(version: u16, body: Vec<u8>) -> Vec<u8> {
    let build = |offset: i32| {
        let mut builder = Builder::new(20, 1);
        builder.set_lump(LUMP_GAME_LUMP, 0, 0, game_lump(version, offset, &body));
        builder.build().unwrap()
    };
    let first = build(0);
    let lump_offset = Bsp::parse(&first).unwrap().header().lumps[LUMP_GAME_LUMP].offset;
    build(lump_offset + 4 + 2 * 16)
}

#[test]
fn reads_the_static_props_a_map_is_dressed_with() {
    let body = props_body(
        &["models/props_c17/oildrum001.mdl", "models/props_junk/wood_crate001a.mdl"],
        &[3, 4, 5],
        &[prop(1, 0, 2), prop(0, 2, 1)],
        72,
    );
    let map = synthetic_props(10, body);
    let bsp = Bsp::parse(&map).unwrap();
    let props = StaticProps::parse(&bsp).unwrap();

    assert_eq!(props.version(), 10);
    assert_eq!(props.names().len(), 2);
    assert_eq!(props.names()[0], "models/props_c17/oildrum001.mdl");
    assert!(!props.is_empty());
    let first = props.props()[0];
    assert_eq!(first.model, 1);
    assert_eq!(props.name(&first), Some("models/props_junk/wood_crate001a.mdl"));
    assert_eq!(props.leaves(&first), &[3, 4]);
    assert_eq!(f32::from_bits(first.origin[1]), -2.5);
    assert_eq!(f32::from_bits(first.angles[1]), 90.0);
    assert_eq!(first.skin, 2);
    let second = props.props()[1];
    assert_eq!(props.leaves(&second), &[5]);
    assert_eq!(props.name(&second), Some("models/props_c17/oildrum001.mdl"));
}

#[test]
fn a_map_without_a_static_prop_lump_has_no_props() {
    let map = Builder::new(20, 1).build().unwrap();
    let bsp = Bsp::parse(&map).unwrap();
    let props = StaticProps::parse(&bsp).unwrap();
    assert!(props.is_empty());
    assert_eq!(props.version(), 0);
    assert!(props.names().is_empty());

    let mut lump = Writer::new();
    lump.write_i32_le(0);
    let mut builder = Builder::new(20, 1);
    builder.set_lump(LUMP_GAME_LUMP, 0, 0, lump.into_inner());
    let map = builder.build().unwrap();
    let props = StaticProps::parse(&Bsp::parse(&map).unwrap()).unwrap();
    assert!(props.is_empty());
}

#[test]
fn guesses_the_stride_of_a_version_it_does_not_know_only_where_it_divides() {
    let body = props_body(&["a.mdl"], &[0], &[prop(0, 0, 1), prop(0, 0, 0)], 80);
    let props = StaticProps::parse(&Bsp::parse(&synthetic_props(9, body)).unwrap()).unwrap();
    assert_eq!(props.props().len(), 2);
    assert_eq!(props.version(), 9);

    let mut body = props_body(&["a.mdl"], &[0], &[prop(0, 0, 1), prop(0, 0, 0)], 80);
    body.push(0);
    let refused = StaticProps::parse(&Bsp::parse(&synthetic_props(9, body)).unwrap());
    assert!(matches!(
        refused,
        Err(Error::InvalidStaticPropStride { version: 9, stride: 80, count: 2, length: 161 })
    ));

    // A known version's stride has to match the bytes exactly.
    let body = props_body(&["a.mdl"], &[0], &[prop(0, 0, 1)], 60);
    let refused = StaticProps::parse(&Bsp::parse(&synthetic_props(4, body)).unwrap());
    assert!(matches!(
        refused,
        Err(Error::InvalidStaticPropStride { version: 4, stride: 56, count: 1, length: 60 })
    ));
}

#[test]
fn refuses_a_prop_naming_what_the_lump_does_not_hold() {
    let body = props_body(&["a.mdl"], &[0, 1], &[prop(0, 0, 1), prop(5, 0, 1)], 56);
    let refused = StaticProps::parse(&Bsp::parse(&synthetic_props(4, body)).unwrap());
    assert!(matches!(refused, Err(Error::InvalidStaticPropModel { index: 1, model: 5 })));

    let body = props_body(&["a.mdl"], &[0, 1], &[prop(0, 1, 2)], 56);
    let refused = StaticProps::parse(&Bsp::parse(&synthetic_props(4, body)).unwrap());
    assert!(matches!(refused, Err(Error::InvalidStaticPropLeaves { index: 0, first: 1, count: 2 })));
}

#[test]
fn refuses_a_static_prop_lump_outside_the_file() {
    let body = props_body(&["a.mdl"], &[], &[], 56);
    let mut builder = Builder::new(20, 1);
    builder.set_lump(LUMP_GAME_LUMP, 0, 0, game_lump(4, 0x7000_0000, &body));
    let map = builder.build().unwrap();
    let refused = StaticProps::parse(&Bsp::parse(&map).unwrap());
    assert!(matches!(refused, Err(Error::InvalidGameLumpRange { offset: 0x7000_0000, .. })));

    let mut builder = Builder::new(20, 1);
    builder.set_lump(LUMP_GAME_LUMP, 0, 0, game_lump(4, -1, &body));
    let map = builder.build().unwrap();
    assert!(matches!(StaticProps::parse(&Bsp::parse(&map).unwrap()), Err(Error::SizeOverflow)));
}

#[test]
fn refuses_a_game_lump_cut_short() {
    let mut lump = Writer::new();
    lump.write_i32_le(1);
    lump.write_i32_le(SPRP);
    lump.write_u16_le(0);
    let mut builder = Builder::new(20, 1);
    builder.set_lump(LUMP_GAME_LUMP, 0, 0, lump.into_inner());
    let map = builder.build().unwrap();
    let refused = StaticProps::parse(&Bsp::parse(&map).unwrap());
    assert!(matches!(
        refused,
        Err(Error::Binary(BinaryError::UnexpectedEof { offset: 10, requested: 2, remaining: 0 }))
    ));

    let mut builder = Builder::new(20, 1);
    builder.set_lump(LUMP_GAME_LUMP, 0, 0, vec![1, 0]);
    let map = builder.build().unwrap();
    let refused = StaticProps::parse(&Bsp::parse(&map).unwrap());
    assert!(matches!(
        refused,
        Err(Error::Binary(BinaryError::UnexpectedEof { offset: 0, requested: 4, remaining: 2 }))
    ));

    // A dictionary name cut off by the end of the lump.
    let mut body = props_body(&["a.mdl"], &[], &[], 56);
    body.truncate(100);
    let refused = StaticProps::parse(&Bsp::parse(&synthetic_props(4, body)).unwrap());
    assert!(matches!(
        refused,
        Err(Error::Binary(BinaryError::UnexpectedEof { offset: 4, requested: 128, remaining: 96 }))
    ));
}

fn ambient_sample(colour: [u8; 3], exponent: i8, position: [u8; 3]) -> Vec<u8> {
    let mut out = Vec::new();
    for face in 0..6u8 {
        out.extend_from_slice(&[colour[0].wrapping_add(face), colour[1], colour[2], exponent as u8]);
    }
    out.extend_from_slice(&position);
    out.push(0);
    out
}

fn ambient_index(entries: &[(u16, u16)]) -> Vec<u8> {
    let mut out = Writer::new();
    for (count, first) in entries {
        out.write_u16_le(*count);
        out.write_u16_le(*first);
    }
    out.into_inner()
}

#[test]
fn reads_the_light_measured_in_each_leaf() {
    let mut lighting = ambient_sample([10, 20, 30], 0, [0, 128, 255]);
    lighting.extend(ambient_sample([40, 50, 60], -2, [255, 0, 0]));
    let mut builder = Builder::new(20, 1);
    builder.set_lump(LUMP_LEAF_AMBIENT_LIGHTING, 1, 0, lighting);
    builder.set_lump(LUMP_LEAF_AMBIENT_INDEX, 1, 0, ambient_index(&[(0, 0), (2, 0), (1, 1)]));
    let map = builder.build().unwrap();
    let ambient = AmbientLighting::parse(&Bsp::parse(&map).unwrap()).unwrap();

    assert_eq!(ambient.sample_count(), 2);
    assert!(!ambient.is_hdr());
    assert!(ambient.samples_in(0).is_empty());
    assert_eq!(ambient.samples_in(1).len(), 2);
    let last = ambient.samples_in(2)[0];
    assert_eq!(last.cube[0], [40, 50, 60, 0xfe]);
    assert_eq!(last.cube[5], [45, 50, 60, 0xfe]);
    assert_eq!(last.position, Some([255, 0, 0]));
    assert!(ambient.samples_in(3).is_empty());
}

#[test]
fn prefers_the_high_range_ambient_lumps() {
    let mut builder = Builder::new(20, 1);
    builder.set_lump(LUMP_LEAF_AMBIENT_LIGHTING, 1, 0, ambient_sample([1, 1, 1], 0, [0, 0, 0]));
    builder.set_lump(LUMP_LEAF_AMBIENT_INDEX, 1, 0, ambient_index(&[(1, 0)]));
    let mut high = ambient_sample([90, 90, 90], 1, [0, 0, 0]);
    high.extend(ambient_sample([91, 91, 91], 1, [0, 0, 0]));
    builder.set_lump(LUMP_LEAF_AMBIENT_LIGHTING_HDR, 1, 0, high);
    builder.set_lump(LUMP_LEAF_AMBIENT_INDEX_HDR, 1, 0, ambient_index(&[(2, 0)]));
    let map = builder.build().unwrap();
    let ambient = AmbientLighting::parse(&Bsp::parse(&map).unwrap()).unwrap();
    assert!(ambient.is_hdr());
    assert_eq!(ambient.sample_count(), 2);
    assert_eq!(ambient.samples_in(0)[1].cube[0][0], 91);
}

#[test]
fn refuses_ambient_lumps_that_do_not_agree() {
    let mut builder = Builder::new(20, 1);
    builder.set_lump(LUMP_LEAF_AMBIENT_LIGHTING, 1, 0, ambient_sample([1, 1, 1], 0, [0, 0, 0]));
    builder.set_lump(LUMP_LEAF_AMBIENT_INDEX, 1, 0, ambient_index(&[(1, 0), (2, 0)]));
    let map = builder.build().unwrap();
    assert!(matches!(
        AmbientLighting::parse(&Bsp::parse(&map).unwrap()),
        Err(Error::InvalidAmbientRange { first: 0, count: 2, samples: 1 })
    ));

    // A partial sample is refused under the standard lump's number, whichever pair it is.
    let mut builder = Builder::new(20, 1);
    builder.set_lump(LUMP_LEAF_AMBIENT_LIGHTING_HDR, 1, 0, vec![0; 27]);
    builder.set_lump(LUMP_LEAF_AMBIENT_INDEX_HDR, 1, 0, ambient_index(&[(0, 0)]));
    let map = builder.build().unwrap();
    assert!(matches!(
        AmbientLighting::parse(&Bsp::parse(&map).unwrap()),
        Err(Error::InvalidLumpLength { lump: 56, length: 27 })
    ));

    let mut builder = Builder::new(20, 1);
    builder.set_lump(LUMP_LEAF_AMBIENT_LIGHTING, 1, 0, ambient_sample([1, 1, 1], 0, [0, 0, 0]));
    builder.set_lump(LUMP_LEAF_AMBIENT_INDEX, 1, 0, vec![0; 3]);
    let map = builder.build().unwrap();
    assert!(matches!(
        AmbientLighting::parse(&Bsp::parse(&map).unwrap()),
        Err(Error::InvalidLumpLength { lump: 52, length: 3 })
    ));
}

#[test]
fn lights_an_old_map_from_the_cube_inside_each_leaf() {
    let mut leaves = vec![0u8; 2 * 56];
    for (i, byte) in leaves[56 + 30..56 + 54].iter_mut().enumerate() {
        *byte = i as u8;
    }
    let mut builder = Builder::new(19, 1);
    builder.set_lump(LUMP_LEAVES, 0, 0, leaves);
    let map = builder.build().unwrap();
    let ambient = AmbientLighting::parse(&Bsp::parse(&map).unwrap()).unwrap();
    assert_eq!(ambient.sample_count(), 2);
    assert!(!ambient.is_hdr());
    let second = ambient.samples_in(1)[0];
    assert_eq!(second.cube[0], [0, 1, 2, 3]);
    assert_eq!(second.cube[5], [20, 21, 22, 23]);
    assert_eq!(second.position, None);

    let mut builder = Builder::new(19, 1);
    builder.set_lump(LUMP_LEAVES, 0, 0, vec![0; 57]);
    let map = builder.build().unwrap();
    assert!(matches!(
        AmbientLighting::parse(&Bsp::parse(&map).unwrap()),
        Err(Error::InvalidLumpLength { lump: 10, length: 57 })
    ));

    // Version-1 leaves carry no cube, and without the separate lumps there is no light.
    let mut builder = Builder::new(20, 1);
    builder.set_lump(LUMP_LEAVES, 1, 0, vec![0; 32]);
    let map = builder.build().unwrap();
    assert!(AmbientLighting::parse(&Bsp::parse(&map).unwrap()).unwrap().is_empty());
}

fn run(face: usize, group: usize, batch: usize, first_index: usize, index_count: usize) -> FaceRun {
    FaceRun { face, group, batch, first_index, index_count }
}

#[test]
fn merges_neighbouring_runs_of_one_material_into_one_draw() {
    let batches = vec![
        Batch { texdata: 7, first_index: 0, index_count: 12 },
        Batch { texdata: 9, first_index: 12, index_count: 6 },
    ];
    let runs = vec![run(0, 0, 0, 0, 6), run(1, 0, 0, 6, 6), run(2, 0, 1, 12, 6)];
    let everything = VisibleFaces::everything_of(3);
    let draws = visible_batches_by(&runs, &batches, &everything, &[false; 3]);
    assert_eq!(
        draws,
        vec![
            Batch { texdata: 7, first_index: 0, index_count: 12 },
            Batch { texdata: 9, first_index: 12, index_count: 6 },
        ]
    );

    // Culling the middle of a material's run splits it, and the order stays.
    let runs = vec![run(0, 0, 0, 0, 3), run(1, 0, 0, 3, 3), run(2, 0, 0, 6, 6), run(3, 0, 1, 12, 6)];
    let everything = VisibleFaces::everything_of(4);
    let draws = visible_batches_by(&runs, &batches, &everything, &[false, true, false, false]);
    assert_eq!(
        draws,
        vec![
            Batch { texdata: 7, first_index: 0, index_count: 3 },
            Batch { texdata: 7, first_index: 6, index_count: 6 },
            Batch { texdata: 9, first_index: 12, index_count: 6 },
        ]
    );
    let total: usize = draws.iter().map(|b| b.index_count).sum();
    assert_eq!(total, 15, "the draws cover exactly the drawn runs");
}

#[test]
fn a_placed_run_is_drawn_by_the_group_it_was_placed_under() {
    let batches = vec![Batch { texdata: 1, first_index: 0, index_count: 9 }];
    let runs = vec![run(0, 0, 0, 0, 3), run(0, 1, 0, 3, 3), run(5, 2, 0, 6, 3), run(1, 0, 0, 9, 0)];
    let view = VisibleFaces::everything_of(2).with_groups(vec![true, false, true]);
    let draws = visible_batches_by(&runs, &batches, &view, &[false; 4]);
    assert_eq!(
        draws,
        vec![
            Batch { texdata: 1, first_index: 0, index_count: 3 },
            Batch { texdata: 1, first_index: 6, index_count: 3 },
        ]
    );
    // A group the view was never told about is drawn, and an empty run never is.
    let view = VisibleFaces::everything_of(2);
    let draws = visible_batches_by(&runs, &batches, &view, &[false; 4]);
    assert_eq!(draws, vec![Batch { texdata: 1, first_index: 0, index_count: 9 }]);
}

#[test]
fn packed_blocks_keep_their_padding_and_stay_inside_the_image() {
    let mut blocks = Vec::new();
    for face in 0..200usize {
        blocks.push((face, 1 + (face as u32 * 37) % 300, 1 + (face as u32 * 11) % 40));
    }
    let atlas = LightmapAtlas::lay_out(&blocks).unwrap();
    assert_eq!(atlas.len(), 200);
    let placed: Vec<_> = (0..200).map(|face| atlas.placement(face).unwrap()).collect();
    for (i, a) in placed.iter().enumerate() {
        assert!(a.origin[0] + a.extent[0] <= atlas.width());
        assert!(a.origin[1] + a.extent[1] <= atlas.height());
        for b in &placed[i + 1..] {
            let apart = a.origin[0] + a.extent[0] < b.origin[0]
                || b.origin[0] + b.extent[0] < a.origin[0]
                || a.origin[1] + a.extent[1] < b.origin[1]
                || b.origin[1] + b.extent[1] < a.origin[1];
            assert!(apart, "{a:?} and {b:?} are padded apart");
        }
    }
}

fn leaf_in(cluster: i16, first_leaf_face: u16, leaf_face_count: u16) -> Leaf {
    Leaf {
        contents: 0,
        cluster,
        area: 0,
        flags: 0,
        mins: [0; 3],
        maxs: [0; 3],
        first_leaf_face,
        leaf_face_count,
        first_leaf_brush: 0,
        leaf_brush_count: 0,
        water_data_id: -1,
    }
}

#[test]
fn admits_a_placed_model_by_the_cluster_it_lands_in() {
    // Clusters 0 and 2 are visible from the viewpoint, cluster 1 is not.
    let leaves = [leaf_in(0, 0, 1), leaf_in(1, 1, 1)];
    let view = VisibleFaces::select_with_row(&leaves, &[0, 1], 2, Some(vec![0b101])).unwrap();
    // Before anything is placed, every group is admitted.
    assert!((0..5).all(|g| view.admits(g)));
    let placed = view.placing_by(&[Some(1), Some(2), None, Some(-1)]);
    assert!(placed.admits(0), "the world is always admitted");
    assert!(!placed.admits(1), "a model landing in a hidden cluster is not");
    assert!(placed.admits(2));
    assert!(placed.admits(3), "a model whose landing is unknown is drawn");
    assert!(placed.admits(4), "a model landing in solid is drawn");
    assert!(placed.admits(9), "a group past the placed ones is admitted");
    assert_eq!(placed.faces(), vec![0]);

    // Without a row every placed model is admitted.
    let placed = VisibleFaces::everything_of(2).placing_by(&[Some(1), Some(7)]);
    assert!((0..4).all(|g| placed.admits(g)));
}

#[test]
fn lists_the_selected_faces_ascending_and_counts_them() {
    let leaves = [leaf_in(0, 0, 2), leaf_in(1, 2, 1), leaf_in(0, 3, 1)];
    let view = VisibleFaces::select_with_row(&leaves, &[4, 1, 2, 1], 6, Some(vec![0b01])).unwrap();
    assert_eq!(view.faces(), vec![1, 4]);
    assert_eq!(view.len(), 2);
    assert!(!view.is_empty());
    assert!(view.contains(1) && view.contains(4) && !view.contains(2) && !view.contains(6));
    let everything = VisibleFaces::everything_of(3);
    assert_eq!(everything.faces(), vec![0, 1, 2]);
    assert_eq!(everything.len(), everything.total());
}

#[test]
fn draws_in_index_order_whatever_the_view_culls() {
    let batches = vec![
        Batch { texdata: 1, first_index: 0, index_count: 9 },
        Batch { texdata: 2, first_index: 9, index_count: 6 },
    ];
    let runs = vec![run(0, 0, 0, 0, 3), run(1, 0, 0, 3, 3), run(2, 0, 0, 6, 3), run(3, 0, 1, 9, 6)];
    let view = VisibleFaces::everything_of(4);
    for mask in 0..16u32 {
        let culled: Vec<bool> = (0..4).map(|i| mask & (1 << i) != 0).collect();
        let draws = visible_batches_by(&runs, &batches, &view, &culled);
        for pair in draws.windows(2) {
            assert!(pair[0].first_index + pair[0].index_count <= pair[1].first_index);
        }
        let drawn: usize = runs.iter().zip(&culled).filter(|(_, c)| !**c).map(|(r, _)| r.index_count).sum();
        assert_eq!(draws.iter().map(|b| b.index_count).sum::<usize>(), drawn);
    }
}
