//! The collision world: the tree of planes that splits the map into leaves, the
//! leaves' clusters, the map's brush models, and the visibility set over the clusters.
//!
//! The planes and the models' bounds are floats. Nothing here computes with them, so
//! they are kept as the bit patterns they are stored as; which side of a plane a point
//! lies on is decided by the caller and handed in.
use vstd::prelude::*;
use core::ops::Range;
use crate::binary::Reader;
use crate::bsp::{
    Bsp, BspView, Error, Result, LUMP_PLANES, LUMP_NODES, LUMP_LEAVES, LUMP_MODELS, LUMP_VISIBILITY,
    u32_at, i32_at,
};
use crate::bsp::records::{
    Node, Leaf, core_lump, core_lump_spec, parse_records, parse_nodes, parse_leaves, leaves_spec,
    node_at, NODE_SIZE, records, record_reader, lemma_record_room, lemma_record_count, take_u32, take_i32,
};
use crate::bsp::surfaces::lump_records;
use crate::bsp::visible::{
    Visibility, VisibilityView, VisibilityKind, VisibleFaces, parse_visibility, visibility_spec, row_spec,
    cluster_row, lemma_row_len, select_spec, none_set, all_set, row_covers, opt_view,
};
use crate::bsp::surfaces::{Surfaces, SurfacesView};

verus! {

pub const PLANE_SIZE: usize = 20;
pub const MODEL_SIZE: usize = 48;

/// A splitting plane: its normal and distance as the bit patterns of their floats.
#[derive(Debug, Clone, Copy, PartialEq, Eq)]
pub struct Plane {
    pub normal: [u32; 3],
    pub distance: u32,
    pub kind: i32,
}

/// One of the map's brush models.
///
/// The first is the world itself, the one the visibility set and the tree are about.
/// The rest are the map's brushwork that moves or is switched: doors, lifts, breakable
/// walls. Each is a range of surfaces and its own subtree, positioned by whichever
/// entity owns it. The bounds and origin are the bit patterns of their floats.
#[derive(Debug, Clone, Copy, PartialEq, Eq)]
pub struct Model {
    pub mins: [u32; 3],
    pub maxs: [u32; 3],
    pub origin: [u32; 3],
    pub head_node: i32,
    pub first_face: i32,
    pub face_count: i32,
}

/// The surfaces a model's range names, negative bounds read as zero.
pub open spec fn model_faces(m: Model) -> (nat, nat) {
    let first: nat = if m.first_face < 0 { 0 } else { m.first_face as nat };
    let count: nat = if m.face_count < 0 { 0 } else { m.face_count as nat };
    (first, first + count)
}

impl Model {
    /// The surfaces this model holds.
    pub fn faces(&self) -> (r: Range<usize>)
        ensures
            (r.start as nat, r.end as nat) == model_faces(*self),
    {
        let first: usize = if self.first_face < 0 { 0 } else { self.first_face as usize };
        let count: usize = if self.face_count < 0 { 0 } else { self.face_count as usize };
        Range { start: first, end: first + count }
    }
}

pub open spec fn plane_at(s: Seq<u8>, b: int) -> Plane {
    Plane { normal: [u32_at(s, b), u32_at(s, b + 4), u32_at(s, b + 8)], distance: u32_at(s, b + 12), kind: i32_at(s, b + 16) }
}

pub open spec fn model_at(s: Seq<u8>, b: int) -> Model {
    Model {
        mins: [u32_at(s, b), u32_at(s, b + 4), u32_at(s, b + 8)],
        maxs: [u32_at(s, b + 12), u32_at(s, b + 16), u32_at(s, b + 20)],
        origin: [u32_at(s, b + 24), u32_at(s, b + 28), u32_at(s, b + 32)],
        head_node: i32_at(s, b + 36),
        first_face: i32_at(s, b + 40),
        face_count: i32_at(s, b + 44),
    }
}

pub fn parse_planes(bytes: &[u8]) -> (r: Result<Vec<Plane>>)
    ensures
        match r {
            Ok(v) => parse_records(bytes@, LUMP_PLANES, PLANE_SIZE, |s: Seq<u8>, b: int| plane_at(s, b)) == Ok::<Seq<Plane>, Error>(v@),
            Err(e) => parse_records(bytes@, LUMP_PLANES, PLANE_SIZE, |s: Seq<u8>, b: int| plane_at(s, b)) == Err::<Seq<Plane>, Error>(e),
        },
{
    let mut reader = record_reader(bytes, LUMP_PLANES, PLANE_SIZE)?;
    let mut planes: Vec<Plane> = Vec::new();
    while reader.remaining() != 0
        invariant
            reader.wf(),
            reader.data() == bytes@,
            bytes@.len() % 20 == 0,
            reader.pos() == planes@.len() * 20,
            forall|j: int| 0 <= j < planes@.len() ==> #[trigger] planes@[j] == plane_at(bytes@, j * 20),
        decreases reader.rest(),
    {
        proof {
            lemma_record_room(bytes@.len(), planes@.len(), 20);
        }
        let x = take_u32(&mut reader);
        let y = take_u32(&mut reader);
        let z = take_u32(&mut reader);
        let distance = take_u32(&mut reader);
        let kind = take_i32(&mut reader);
        planes.push(Plane { normal: [x, y, z], distance, kind });
    }
    proof {
        lemma_record_count(bytes@.len(), planes@.len(), 20);
        assert(planes@ =~= records(bytes@, 20, |s: Seq<u8>, b: int| plane_at(s, b)));
    }
    Ok(planes)
}

pub fn parse_models(bytes: &[u8]) -> (r: Result<Vec<Model>>)
    ensures
        match r {
            Ok(v) => parse_records(bytes@, LUMP_MODELS, MODEL_SIZE, |s: Seq<u8>, b: int| model_at(s, b)) == Ok::<Seq<Model>, Error>(v@),
            Err(e) => parse_records(bytes@, LUMP_MODELS, MODEL_SIZE, |s: Seq<u8>, b: int| model_at(s, b)) == Err::<Seq<Model>, Error>(e),
        },
{
    let mut reader = record_reader(bytes, LUMP_MODELS, MODEL_SIZE)?;
    let mut models: Vec<Model> = Vec::new();
    while reader.remaining() != 0
        invariant
            reader.wf(),
            reader.data() == bytes@,
            bytes@.len() % 48 == 0,
            reader.pos() == models@.len() * 48,
            forall|j: int| 0 <= j < models@.len() ==> #[trigger] models@[j] == model_at(bytes@, j * 48),
        decreases reader.rest(),
    {
        proof {
            lemma_record_room(bytes@.len(), models@.len(), 48);
        }
        let a = take_u32(&mut reader);
        let b = take_u32(&mut reader);
        let c = take_u32(&mut reader);
        let d = take_u32(&mut reader);
        let e = take_u32(&mut reader);
        let f = take_u32(&mut reader);
        let g = take_u32(&mut reader);
        let h = take_u32(&mut reader);
        let i = take_u32(&mut reader);
        let head_node = take_i32(&mut reader);
        let first_face = take_i32(&mut reader);
        let face_count = take_i32(&mut reader);
        models.push(Model { mins: [a, b, c], maxs: [d, e, f], origin: [g, h, i], head_node, first_face, face_count });
    }
    proof {
        lemma_record_count(bytes@.len(), models@.len(), 48);
        assert(models@ =~= records(bytes@, 48, |s: Seq<u8>, b: int| model_at(s, b)));
    }
    Ok(models)
}

// ---------------------------------------------------------------------------
// The world
// ---------------------------------------------------------------------------

/// A child names a node the lump holds, or, negated and less one, a leaf.
pub open spec fn child_ok(child: i32, node_count: nat, leaf_count: nat) -> bool {
    if child >= 0 {
        child < node_count
    } else {
        -child - 1 < leaf_count
    }
}

/// Why the first node from `k` on cannot be walked, if one cannot.
pub open spec fn bad_node(nodes: Seq<Node>, plane_count: nat, leaf_count: nat, k: nat) -> Option<Error>
    decreases nodes.len() - k,
{
    if k >= nodes.len() {
        None
    } else {
        let n = nodes[k as int];
        if n.plane < 0 || n.plane >= plane_count {
            Some(Error::InvalidPlaneIndex { node: k as usize, plane: n.plane })
        } else if !child_ok(n.children[0], nodes.len(), leaf_count) {
            Some(Error::InvalidChildIndex { node: k as usize, child: n.children[0] })
        } else if !child_ok(n.children[1], nodes.len(), leaf_count) {
            Some(Error::InvalidChildIndex { node: k as usize, child: n.children[1] })
        } else {
            bad_node(nodes, plane_count, leaf_count, k + 1)
        }
    }
}

/// One more than the largest cluster a leaf names, or none.
pub open spec fn clusters_named(leaves: Seq<Leaf>) -> nat
    decreases leaves.len(),
{
    if leaves.len() == 0 {
        0
    } else {
        let rest = clusters_named(leaves.drop_last());
        let c = leaves.last().cluster;
        if c >= 0 && c + 1 > rest {
            (c + 1) as nat
        } else {
            rest
        }
    }
}

/// The first cluster from leaf `k` on that the map does not have.
pub open spec fn bad_cluster(leaves: Seq<Leaf>, count: nat, k: nat) -> Option<i16>
    decreases leaves.len() - k,
{
    if k >= leaves.len() {
        None
    } else if leaves[k as int].cluster >= 0 && leaves[k as int].cluster >= count {
        Some(leaves[k as int].cluster)
    } else {
        bad_cluster(leaves, count, k + 1)
    }
}

/// The refusal of the first of the rows of clusters `c` on that does not decode.
pub open spec fn bad_row(v: VisibilityView, count: nat, c: nat) -> Option<Error>
    decreases count - c,
{
    if c >= count {
        None
    } else {
        match row_spec(Some(v), count, c, VisibilityKind::PotentiallyVisible) {
            Err(e) => Some(e),
            Ok(_) => match row_spec(Some(v), count, c, VisibilityKind::PotentiallyAudible) {
                Err(e) => Some(e),
                Ok(_) => bad_row(v, count, c + 1),
            },
        }
    }
}

pub struct WorldView {
    pub planes: Seq<Plane>,
    pub nodes: Seq<Node>,
    pub leaves: Seq<Leaf>,
    pub cluster_count: nat,
    pub models: Seq<Model>,
    pub visibility: Option<VisibilityView>,
}

/// What the world reads as: the tree, the leaves and the models, every index among
/// them inside what it indexes, and every stored visibility row decodable.
pub open spec fn world_spec(b: BspView) -> core::result::Result<WorldView, Error> {
    match lump_records(b, LUMP_PLANES, PLANE_SIZE, |s: Seq<u8>, o: int| plane_at(s, o)) {
        Err(e) => Err(e),
        Ok(planes) => match lump_records(b, LUMP_NODES, NODE_SIZE, |s: Seq<u8>, o: int| node_at(s, o)) {
            Err(e) => Err(e),
            Ok(nodes) => match core_lump_spec(b.header, b.bytes, LUMP_LEAVES as int) {
                Err(e) => Err(e),
                Ok(leaf_bytes) => match leaves_spec(leaf_bytes, b.header.lumps[LUMP_LEAVES as int].version) {
                    Err(e) => Err(e),
                    Ok(leaves) => if planes.len() == 0 || leaves.len() == 0 {
                        Err(Error::MissingWorldTree)
                    } else {
                        match bad_node(nodes, planes.len(), leaves.len(), 0) {
                            Some(e) => Err(e),
                            None => match core_lump_spec(b.header, b.bytes, LUMP_VISIBILITY as int) {
                                Err(e) => Err(e),
                                Ok(vis_bytes) => match visibility_spec(vis_bytes) {
                                    Err(e) => Err(e),
                                    Ok(visibility) => {
                                        let count = match visibility {
                                            Some(v) => v.offsets.len(),
                                            None => clusters_named(leaves),
                                        };
                                        match bad_cluster(leaves, count, 0) {
                                            Some(c) => Err(Error::InvalidCluster(c as i32)),
                                            None => match lump_records(b, LUMP_MODELS, MODEL_SIZE, |s: Seq<u8>, o: int| model_at(s, o)) {
                                                Err(e) => Err(e),
                                                Ok(models) => match visibility {
                                                    Some(v) if bad_row(v, count, 0) is Some => Err(bad_row(v, count, 0)->Some_0),
                                                    _ => Ok(WorldView { planes, nodes, leaves, cluster_count: count, models, visibility }),
                                                },
                                            },
                                        }
                                    },
                                },
                            },
                        }
                    },
                },
            },
        },
    }
}

/// The tree can be walked and every leaf's cluster has a row.
pub open spec fn world_consistent(v: WorldView) -> bool {
    &&& bad_node(v.nodes, v.planes.len(), v.leaves.len(), 0) is None
    &&& bad_cluster(v.leaves, v.cluster_count, 0) is None
    &&& v.visibility matches Some(vis) ==> vis.offsets.len() == v.cluster_count
}

/// The leaf a walk down the tree reaches from node `node`, given on which side of each
/// plane the point lies, within `steps` steps.
pub open spec fn walk(nodes: Seq<Node>, behind: Seq<bool>, node: nat, steps: nat) -> core::result::Result<usize, Error>
    decreases steps,
{
    if steps == 0 {
        Err(Error::TraversalCycle)
    } else if node >= nodes.len() {
        Err(Error::InvalidChildIndex { node: node as usize, child: node as i32 })
    } else {
        let n = nodes[node as int];
        let child = n.children[if behind[n.plane as int] { 1int } else { 0int }];
        if child >= 0 {
            walk(nodes, behind, child as nat, (steps - 1) as nat)
        } else {
            Ok((-child - 1) as usize)
        }
    }
}

/// The leaf holding a point, given on which side of each plane it lies.
pub open spec fn point_leaf_spec(v: WorldView, behind: Seq<bool>) -> core::result::Result<usize, Error> {
    if v.nodes.len() == 0 {
        if v.leaves.len() == 1 {
            Ok(0)
        } else {
            Err(Error::MissingWorldTree)
        }
    } else {
        walk(v.nodes, behind, 0, v.nodes.len() + 1)
    }
}

/// Owned collision-world subset used by point and visibility queries.
#[derive(Debug)]
pub struct World {
    planes: Vec<Plane>,
    nodes: Vec<Node>,
    leaves: Vec<Leaf>,
    cluster_count: usize,
    models: Vec<Model>,
    visibility: Option<Visibility>,
}

pub open spec fn opt_visibility(v: Option<Visibility>) -> Option<VisibilityView> {
    match v {
        Some(vis) => Some(vis@),
        None => None,
    }
}

impl View for World {
    type V = WorldView;

    closed spec fn view(&self) -> WorldView {
        WorldView {
            planes: self.planes@,
            nodes: self.nodes@,
            leaves: self.leaves@,
            cluster_count: self.cluster_count as nat,
            models: self.models@,
            visibility: opt_visibility(self.visibility),
        }
    }
}

fn child_ok_exec(child: i32, node_count: usize, leaf_count: usize) -> (r: bool)
    ensures
        r == child_ok(child, node_count as nat, leaf_count as nat),
{
    if child >= 0 {
        (child as usize) < node_count
    } else {
        let leaf = -(child as i64) - 1;
        (leaf as usize) < leaf_count
    }
}

fn check_nodes(nodes: &Vec<Node>, plane_count: usize, leaf_count: usize) -> (r: Result<()>)
    ensures
        match r {
            Ok(_) => bad_node(nodes@, plane_count as nat, leaf_count as nat, 0) is None,
            Err(e) => bad_node(nodes@, plane_count as nat, leaf_count as nat, 0) == Some(e),
        },
{
    let mut k: usize = 0;
    while k < nodes.len()
        invariant
            k <= nodes@.len(),
            bad_node(nodes@, plane_count as nat, leaf_count as nat, 0) == bad_node(nodes@, plane_count as nat, leaf_count as nat, k as nat),
        decreases nodes@.len() - k,
    {
        let node = nodes[k];
        if node.plane < 0 || node.plane as usize >= plane_count {
            return Err(Error::InvalidPlaneIndex { node: k, plane: node.plane });
        }
        let front = node.children[0];
        if !child_ok_exec(front, nodes.len(), leaf_count) {
            return Err(Error::InvalidChildIndex { node: k, child: front });
        }
        let back = node.children[1];
        if !child_ok_exec(back, nodes.len(), leaf_count) {
            return Err(Error::InvalidChildIndex { node: k, child: back });
        }
        k = k + 1;
    }
    Ok(())
}

fn count_clusters(leaves: &Vec<Leaf>) -> (r: usize)
    ensures
        r == clusters_named(leaves@),
{
    let mut count: usize = 0;
    let mut k: usize = 0;
    while k < leaves.len()
        invariant
            k <= leaves@.len(),
            count == clusters_named(leaves@.subrange(0, k as int)),
            count <= 0x8000,
        decreases leaves@.len() - k,
    {
        proof {
            assert(leaves@.subrange(0, k + 1).drop_last() =~= leaves@.subrange(0, k as int));
        }
        let cluster = leaves[k].cluster;
        if cluster >= 0 && cluster as usize + 1 > count {
            count = cluster as usize + 1;
        }
        k = k + 1;
    }
    proof {
        assert(leaves@.subrange(0, leaves@.len() as int) =~= leaves@);
    }
    count
}

fn check_clusters(leaves: &Vec<Leaf>, count: usize) -> (r: Result<()>)
    ensures
        match r {
            Ok(_) => bad_cluster(leaves@, count as nat, 0) is None,
            Err(e) => bad_cluster(leaves@, count as nat, 0) matches Some(c) && e == Error::InvalidCluster(c as i32),
        },
{
    let mut k: usize = 0;
    while k < leaves.len()
        invariant
            k <= leaves@.len(),
            bad_cluster(leaves@, count as nat, 0) == bad_cluster(leaves@, count as nat, k as nat),
        decreases leaves@.len() - k,
    {
        let cluster = leaves[k].cluster;
        if cluster >= 0 && cluster as usize >= count {
            return Err(Error::InvalidCluster(cluster as i32));
        }
        k = k + 1;
    }
    Ok(())
}

fn check_rows(visibility: &Visibility, count: usize) -> (r: Result<()>)
    requires
        visibility@.offsets.len() == count,
    ensures
        match r {
            Ok(_) => bad_row(visibility@, count as nat, 0) is None,
            Err(e) => bad_row(visibility@, count as nat, 0) == Some(e),
        },
{
    let mut c: usize = 0;
    while c < count
        invariant
            c <= count,
            visibility@.offsets.len() == count,
            bad_row(visibility@, count as nat, 0) == bad_row(visibility@, count as nat, c as nat),
        decreases count - c,
    {
        cluster_row(Some(visibility), count, c, VisibilityKind::PotentiallyVisible)?;
        cluster_row(Some(visibility), count, c, VisibilityKind::PotentiallyAudible)?;
        c = c + 1;
    }
    Ok(())
}

impl World {
    #[verifier::type_invariant]
    closed spec fn inv(&self) -> bool {
        world_consistent(self@)
    }

    pub fn parse(bsp: &Bsp<'_>) -> (r: Result<Self>)
        ensures
            match r {
                Ok(w) => world_spec(bsp@) == Ok::<WorldView, Error>(w@),
                Err(e) => world_spec(bsp@) == Err::<WorldView, Error>(e),
            },
    {
        let planes = parse_planes(core_lump(bsp, LUMP_PLANES)?)?;
        let nodes = parse_nodes(core_lump(bsp, LUMP_NODES)?)?;
        let leaf_version = bsp.header().lumps[LUMP_LEAVES].version;
        let leaves = parse_leaves(core_lump(bsp, LUMP_LEAVES)?, leaf_version)?;
        if planes.len() == 0 || leaves.len() == 0 {
            return Err(Error::MissingWorldTree);
        }
        check_nodes(&nodes, planes.len(), leaves.len())?;
        let derived_cluster_count = count_clusters(&leaves);
        let visibility = parse_visibility(core_lump(bsp, LUMP_VISIBILITY)?)?;
        let cluster_count = match &visibility {
            Some(vis) => vis.cluster_count(),
            None => derived_cluster_count,
        };
        check_clusters(&leaves, cluster_count)?;
        let models = parse_models(core_lump(bsp, LUMP_MODELS)?)?;
        if let Some(vis) = &visibility {
            check_rows(vis, cluster_count)?;
        }
        Ok(World { planes, nodes, leaves, cluster_count, models, visibility })
    }

    /// The splitting planes, as the bit patterns of their floats.
    pub fn planes(&self) -> (r: &[Plane])
        ensures
            r@ == self@.planes,
    {
        self.planes.as_slice()
    }

    pub fn nodes(&self) -> (r: &[Node])
        ensures
            r@ == self@.nodes,
    {
        self.nodes.as_slice()
    }

    pub fn leaves(&self) -> (r: &[Leaf])
        ensures
            r@ == self@.leaves,
    {
        self.leaves.as_slice()
    }

    pub fn models(&self) -> (r: &[Model])
        ensures
            r@ == self@.models,
    {
        self.models.as_slice()
    }

    /// The surfaces the world's own tree accounts for.
    ///
    /// Everything outside this belongs to a brush model an entity places, which the
    /// tree says nothing about.
    pub fn world_faces(&self) -> (r: Range<usize>)
        ensures
            (r.start as nat, r.end as nat) == if self@.models.len() == 0 {
                (0nat, 0nat)
            } else {
                model_faces(self@.models[0])
            },
    {
        if self.models.len() == 0 {
            Range { start: 0, end: 0 }
        } else {
            self.models[0].faces()
        }
    }

    pub fn cluster_count(&self) -> (r: usize)
        ensures
            r == self@.cluster_count,
    {
        self.cluster_count
    }

    /// The leaf holding a point, given for each plane whether the point lies behind it.
    ///
    /// A map with no nodes is a single leaf or no tree at all. Otherwise the walk
    /// starts at the first node and is cut off after more steps than there are nodes,
    /// which only a cycle in the tree can take.
    pub fn point_leaf_by(&self, behind: &[bool]) -> (r: Result<usize>)
        requires
            behind@.len() == self@.planes.len(),
        ensures
            match r {
                Ok(leaf) => point_leaf_spec(self@, behind@) == Ok::<usize, Error>(leaf),
                Err(e) => point_leaf_spec(self@, behind@) == Err::<usize, Error>(e),
            },
    {
        proof {
            use_type_invariant(self);
            lemma_nodes_ok(self@.nodes, self@.planes.len(), self@.leaves.len(), 0);
        }
        if self.nodes.len() == 0 {
            return if self.leaves.len() == 1 {
                Ok(0)
            } else {
                Err(Error::MissingWorldTree)
            };
        }
        let mut node_index: usize = 0;
        let mut steps: usize = 0;
        let ghost limit = self@.nodes.len() + 1;
        loop
            invariant
                steps <= self@.nodes.len(),
                node_index < self@.nodes.len(),
                limit == self@.nodes.len() + 1,
                behind@.len() == self@.planes.len(),
                forall|j: int| 0 <= j < self@.nodes.len() ==> 0 <= #[trigger] self@.nodes[j].plane < self@.planes.len()
                    && child_ok(self@.nodes[j].children[0], self@.nodes.len(), self@.leaves.len())
                    && child_ok(self@.nodes[j].children[1], self@.nodes.len(), self@.leaves.len()),
                walk(self@.nodes, behind@, 0, limit as nat) == walk(self@.nodes, behind@, node_index as nat, (limit - steps) as nat),
            decreases self@.nodes.len() - steps,
        {
            let node = self.nodes[node_index];
            let plane = node.plane as usize;
            let child = node.children[if behind[plane] { 1 } else { 0 }];
            if child < 0 {
                return Ok((-(child as i64) - 1) as usize);
            }
            node_index = child as usize;
            if steps == self.nodes.len() {
                proof {
                    assert(walk(self@.nodes, behind@, node_index as nat, 0) == Err::<usize, Error>(Error::TraversalCycle));
                }
                return Err(Error::TraversalCycle);
            }
            steps = steps + 1;
        }
    }

    /// A cluster's row of the visibility set: which clusters can be seen, or heard, from it.
    pub fn visibility(&self, cluster: usize, kind: VisibilityKind) -> (r: Result<Vec<u8>>)
        ensures
            match r {
                Ok(row) => row_spec(self@.visibility, self@.cluster_count, cluster as nat, kind) == Ok::<Seq<u8>, Error>(row@),
                Err(e) => row_spec(self@.visibility, self@.cluster_count, cluster as nat, kind) == Err::<Seq<u8>, Error>(e),
            },
    {
        proof {
            use_type_invariant(self);
        }
        cluster_row(self.visibility.as_ref(), self.cluster_count, cluster, kind)
    }

    /// Whether anything in cluster `to` can be seen from cluster `from`.
    pub fn cluster_visible(&self, from: usize, to: usize) -> (r: Result<bool>)
        ensures
            match r {
                Ok(seen) => {
                    &&& to < self@.cluster_count
                    &&& row_spec(self@.visibility, self@.cluster_count, from as nat, VisibilityKind::PotentiallyVisible) matches Ok(row)
                    &&& seen == (row[(to / 8) as int] & (1u8 << ((to % 8) as u8)) != 0)
                },
                Err(e) => if to >= self@.cluster_count {
                    e == Error::InvalidCluster(if to > i32::MAX { i32::MAX } else { to as i32 })
                } else {
                    row_spec(self@.visibility, self@.cluster_count, from as nat, VisibilityKind::PotentiallyVisible) == Err::<Seq<u8>, Error>(e)
                },
            },
    {
        if to >= self.cluster_count {
            let reported: i32 = if to > i32::MAX as usize { i32::MAX } else { to as i32 };
            return Err(Error::InvalidCluster(reported));
        }
        let row = self.visibility(from, VisibilityKind::PotentiallyVisible)?;
        proof {
            lemma_row_len(self@.visibility, self@.cluster_count, from as nat, VisibilityKind::PotentiallyVisible);
        }
        Ok(row[to / 8] & (1u8 << ((to % 8) as u8)) != 0)
    }
}

proof fn lemma_nodes_ok(nodes: Seq<Node>, plane_count: nat, leaf_count: nat, k: nat)
    requires
        bad_node(nodes, plane_count, leaf_count, k) is None,
    ensures
        forall|j: int| k <= j < nodes.len() ==> 0 <= #[trigger] nodes[j].plane < plane_count
            && child_ok(nodes[j].children[0], nodes.len(), leaf_count)
            && child_ok(nodes[j].children[1], nodes.len(), leaf_count),
    decreases nodes.len() - k,
{
    if k < nodes.len() {
        lemma_nodes_ok(nodes, plane_count, leaf_count, k + 1);
    }
}

/// The surfaces the visibility set reaches from a leaf: from a leaf without a cluster,
/// every leaf's; otherwise those of the leaves the leaf's row admits.
pub open spec fn select_at_spec(w: WorldView, s: SurfacesView, leaf: int) -> core::result::Result<(Seq<bool>, nat), Error> {
    let cluster = w.leaves[leaf].cluster;
    if cluster < 0 {
        select_spec(w.leaves, s.leaf_faces, None, none_set(s.faces.len()), 0)
    } else {
        match row_spec(w.visibility, w.cluster_count, cluster as nat, VisibilityKind::PotentiallyVisible) {
            Err(e) => Err(e),
            Ok(row) => select_spec(w.leaves, s.leaf_faces, Some(row), none_set(s.faces.len()), 0),
        }
    }
}

proof fn lemma_clusters_ok(leaves: Seq<Leaf>, count: nat, k: nat)
    requires
        bad_cluster(leaves, count, k) is None,
    ensures
        forall|j: int| k <= j < leaves.len() && #[trigger] leaves[j].cluster >= 0 ==> leaves[j].cluster < count,
    decreases leaves.len() - k,
{
    if k < leaves.len() {
        lemma_clusters_ok(leaves, count, k + 1);
    }
}

impl VisibleFaces {
    /// Selects the surfaces of the world model reachable from a leaf.
    ///
    /// This speaks for the world model alone, which is what the tree and the
    /// visibility set are built over. A leaf the compiler gave no cluster, which is
    /// where a viewpoint that has left the map ends up, yields everything rather than
    /// nothing: that is where the engine falls back too.
    pub fn select_at_leaf(world: &World, surfaces: &Surfaces, leaf: usize) -> (r: Result<Self>)
        requires
            leaf < world@.leaves.len(),
        ensures
            match r {
                Ok(v) => select_at_spec(world@, surfaces@, leaf as int) == Ok::<(Seq<bool>, nat), Error>((v@.seen, v@.visible_leaves))
                    && v@.groups.len() == 0,
                Err(e) => select_at_spec(world@, surfaces@, leaf as int) == Err::<(Seq<bool>, nat), Error>(e),
            },
    {
        proof {
            use_type_invariant(world);
            lemma_clusters_ok(world@.leaves, world@.cluster_count, 0);
        }
        let leaves = world.leaves();
        let cluster = leaves[leaf].cluster;
        let row = if cluster < 0 {
            None
        } else {
            let bits = world.visibility(cluster as usize, VisibilityKind::PotentiallyVisible)?;
            proof {
                lemma_row_len(world@.visibility, world@.cluster_count, cluster as nat, VisibilityKind::PotentiallyVisible);
                assert forall|i: int| 0 <= i < leaves@.len() && #[trigger] leaves@[i].cluster >= 0 implies leaves@[i].cluster / 8 < bits@.len() by {
                    assert(leaves@[i].cluster < world@.cluster_count);
                }
            }
            Some(bits)
        };
        VisibleFaces::select_with_row(leaves, surfaces.leaf_faces(), surfaces.faces().len(), row)
    }

    /// Every surface in the map, for drawing without culling.
    pub fn everything(surfaces: &Surfaces) -> (r: Self)
        ensures
            r@.seen == all_set(surfaces@.faces.len()),
            r@.visible_leaves == 0,
            r@.row is None,
            r@.groups.len() == 0,
    {
        VisibleFaces::everything_of(surfaces.faces().len())
    }
}

} // verus!
