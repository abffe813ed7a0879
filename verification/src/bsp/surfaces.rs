//! Owned world surface geometry, parsed and cross-checked once so a draw can index it
//! without revalidating.
//!
//! Every index the format stores is checked against the lump it points into at parse
//! time. The alternative is checking during traversal, which is the hot path, and a map
//! that fails those checks is not renderable at all. A vertex is kept as the bit
//! patterns of its three floats: nothing here computes with them.
use vstd::prelude::*;
use crate::bsp::{
    Bsp, BspView, Error, Result, LUMP_VERTEXES, LUMP_EDGES, LUMP_SURFEDGES, LUMP_FACES, LUMP_LEAFFACES,
};
use crate::bsp::materials::finite_bits;
use crate::bsp::records::{
    Face, core_lump, core_lump_spec, parse_records, parse_vertices, parse_edges, parse_surfedges,
    parse_faces, parse_leaf_faces, vertex_at, edge_at, surfedge_at, face_at, leaf_face_at,
    VERTEX_SIZE, EDGE_SIZE, SURFEDGE_SIZE, FACE_SIZE, LEAFFACE_SIZE,
};

verus! {

/// What a core lump of records reads as.
pub open spec fn lump_records<T>(
    b: BspView,
    index: usize,
    size: usize,
    f: spec_fn(Seq<u8>, int) -> T,
) -> core::result::Result<Seq<T>, Error> {
    match core_lump_spec(b.header, b.bytes, index as int) {
        Err(e) => Err(e),
        Ok(s) => parse_records(s, index, size, f),
    }
}

/// How far along its edge a signed surface edge points, whichever way it is walked.
pub open spec fn magnitude(s: i32) -> nat {
    if s < 0 {
        (-s) as nat
    } else {
        s as nat
    }
}

/// The first edge from `k` on naming a vertex the lump does not hold, with that vertex.
pub open spec fn bad_edge(edges: Seq<[u16; 2]>, vertex_count: nat, k: nat) -> Option<(usize, u16)>
    decreases edges.len() - k,
{
    if k >= edges.len() {
        None
    } else if edges[k as int][0] >= vertex_count {
        Some((k as usize, edges[k as int][0]))
    } else if edges[k as int][1] >= vertex_count {
        Some((k as usize, edges[k as int][1]))
    } else {
        bad_edge(edges, vertex_count, k + 1)
    }
}

/// The first surface edge from `k` on naming an edge the lump does not hold.
pub open spec fn bad_surfedge(surfedges: Seq<i32>, edge_count: nat, k: nat) -> Option<usize>
    decreases surfedges.len() - k,
{
    if k >= surfedges.len() {
        None
    } else if magnitude(surfedges[k as int]) >= edge_count {
        Some(k as usize)
    } else {
        bad_surfedge(surfedges, edge_count, k + 1)
    }
}

/// A face's run of surface edges lies inside the lump.
pub open spec fn face_range_ok(f: Face, surfedge_count: nat) -> bool {
    f.first_surfedge >= 0 && f.first_surfedge + f.surfedge_count <= surfedge_count
}

/// The first face from `k` on, other than a displacement, whose run is not in the lump.
pub open spec fn bad_face(faces: Seq<Face>, surfedge_count: nat, k: nat) -> Option<usize>
    decreases faces.len() - k,
{
    if k >= faces.len() {
        None
    } else if faces[k as int].displacement < 0 && !face_range_ok(faces[k as int], surfedge_count) {
        Some(k as usize)
    } else {
        bad_face(faces, surfedge_count, k + 1)
    }
}

/// The first leaf face from `k` on naming a face the lump does not hold.
pub open spec fn bad_leaf_face(leaf_faces: Seq<u16>, face_count: nat, k: nat) -> Option<u16>
    decreases leaf_faces.len() - k,
{
    if k >= leaf_faces.len() {
        None
    } else if leaf_faces[k as int] >= face_count {
        Some(leaf_faces[k as int])
    } else {
        bad_leaf_face(leaf_faces, face_count, k + 1)
    }
}

pub struct SurfacesView {
    pub vertices: Seq<[u32; 3]>,
    pub edges: Seq<[u16; 2]>,
    pub surfedges: Seq<i32>,
    pub faces: Seq<Face>,
    pub leaf_faces: Seq<u16>,
}

/// The refusal of lumps that do not agree with each other, if they do not.
pub open spec fn cross_check(v: SurfacesView) -> Option<Error> {
    match bad_edge(v.edges, v.vertices.len(), 0) {
        Some((edge, vertex)) => Some(Error::InvalidEdgeVertex { edge, vertex }),
        None => match bad_surfedge(v.surfedges, v.edges.len(), 0) {
            Some(k) => Some(Error::InvalidSurfedge { surfedge: k, edge: v.surfedges[k as int] }),
            None => match bad_face(v.faces, v.surfedges.len(), 0) {
                Some(k) => Some(
                    Error::InvalidFaceRange {
                        face: k,
                        first: v.faces[k as int].first_surfedge,
                        count: v.faces[k as int].surfedge_count,
                    },
                ),
                None => match bad_leaf_face(v.leaf_faces, v.faces.len(), 0) {
                    Some(f) => Some(Error::InvalidFaceIndex(f as usize)),
                    None => None,
                },
            },
        },
    }
}

/// What a map's surfaces read as: its five surface lumps, agreeing with each other.
pub open spec fn surfaces_spec(b: BspView) -> core::result::Result<SurfacesView, Error> {
    match lump_records(b, LUMP_VERTEXES, VERTEX_SIZE, |s: Seq<u8>, o: int| vertex_at(s, o)) {
        Err(e) => Err(e),
        Ok(vertices) => match lump_records(b, LUMP_EDGES, EDGE_SIZE, |s: Seq<u8>, o: int| edge_at(s, o)) {
            Err(e) => Err(e),
            Ok(edges) => match lump_records(b, LUMP_SURFEDGES, SURFEDGE_SIZE, |s: Seq<u8>, o: int| surfedge_at(s, o)) {
                Err(e) => Err(e),
                Ok(surfedges) => match lump_records(b, LUMP_FACES, FACE_SIZE, |s: Seq<u8>, o: int| face_at(s, o)) {
                    Err(e) => Err(e),
                    Ok(faces) => match lump_records(b, LUMP_LEAFFACES, LEAFFACE_SIZE, |s: Seq<u8>, o: int| leaf_face_at(s, o)) {
                        Err(e) => Err(e),
                        Ok(leaf_faces) => {
                            let v = SurfacesView { vertices, edges, surfedges, faces, leaf_faces };
                            match cross_check(v) {
                                Some(e) => Err(e),
                                None => Ok(v),
                            }
                        },
                    },
                },
            },
        },
    }
}

/// Every index the surface lumps hold is inside the lump it names.
pub open spec fn consistent(v: SurfacesView) -> bool {
    &&& forall|k: int| 0 <= k < v.edges.len() ==> #[trigger] v.edges[k][0] < v.vertices.len() && v.edges[k][1] < v.vertices.len()
    &&& forall|k: int| 0 <= k < v.surfedges.len() ==> magnitude(#[trigger] v.surfedges[k]) < v.edges.len()
    &&& forall|k: int| 0 <= k < v.faces.len() && #[trigger] v.faces[k].displacement < 0 ==> face_range_ok(v.faces[k], v.surfedges.len())
    &&& forall|k: int| 0 <= k < v.leaf_faces.len() ==> #[trigger] v.leaf_faces[k] < v.faces.len()
}

/// The vertex indices around a face, walking its surface edges in order: a negative one
/// is walked backwards, so its second vertex is the one the step arrives at.
pub open spec fn face_loop_spec(v: SurfacesView, face: int) -> Seq<u16> {
    let f = v.faces[face];
    Seq::new(
        f.surfedge_count as nat,
        |o: int|
            {
                let s = v.surfedges[f.first_surfedge + o];
                let e = v.edges[magnitude(s) as int];
                if s >= 0 {
                    e[0]
                } else {
                    e[1]
                }
            },
    )
}

/// A map's world surfaces, cross-checked.
#[derive(Debug)]
pub struct Surfaces {
    vertices: Vec<[u32; 3]>,
    edges: Vec<[u16; 2]>,
    surfedges: Vec<i32>,
    faces: Vec<Face>,
    leaf_faces: Vec<u16>,
}

impl View for Surfaces {
    type V = SurfacesView;

    closed spec fn view(&self) -> SurfacesView {
        SurfacesView {
            vertices: self.vertices@,
            edges: self.edges@,
            surfedges: self.surfedges@,
            faces: self.faces@,
            leaf_faces: self.leaf_faces@,
        }
    }
}

fn check_edges(edges: &Vec<[u16; 2]>, vertex_count: usize) -> (r: Result<()>)
    ensures
        match r {
            Ok(_) => bad_edge(edges@, vertex_count as nat, 0) is None,
            Err(e) => bad_edge(edges@, vertex_count as nat, 0) matches Some((edge, vertex)) && e == Error::InvalidEdgeVertex { edge, vertex },
        },
{
    let mut k: usize = 0;
    while k < edges.len()
        invariant
            k <= edges@.len(),
            bad_edge(edges@, vertex_count as nat, 0) == bad_edge(edges@, vertex_count as nat, k as nat),
        decreases edges@.len() - k,
    {
        let edge = edges[k];
        if edge[0] as usize >= vertex_count {
            return Err(Error::InvalidEdgeVertex { edge: k, vertex: edge[0] });
        }
        if edge[1] as usize >= vertex_count {
            return Err(Error::InvalidEdgeVertex { edge: k, vertex: edge[1] });
        }
        k = k + 1;
    }
    Ok(())
}

fn magnitude_of(s: i32) -> (r: usize)
    ensures
        r == magnitude(s),
{
    if s < 0 {
        (-(s as i64)) as usize
    } else {
        s as usize
    }
}

fn check_surfedges(surfedges: &Vec<i32>, edge_count: usize) -> (r: Result<()>)
    ensures
        match r {
            Ok(_) => bad_surfedge(surfedges@, edge_count as nat, 0) is None,
            Err(e) => bad_surfedge(surfedges@, edge_count as nat, 0) matches Some(k) && e == Error::InvalidSurfedge {
                surfedge: k,
                edge: surfedges@[k as int],
            },
        },
{
    let mut k: usize = 0;
    while k < surfedges.len()
        invariant
            k <= surfedges@.len(),
            bad_surfedge(surfedges@, edge_count as nat, 0) == bad_surfedge(surfedges@, edge_count as nat, k as nat),
        decreases surfedges@.len() - k,
    {
        if magnitude_of(surfedges[k]) >= edge_count {
            return Err(Error::InvalidSurfedge { surfedge: k, edge: surfedges[k] });
        }
        k = k + 1;
    }
    Ok(())
}

fn check_faces(faces: &Vec<Face>, surfedge_count: usize) -> (r: Result<()>)
    ensures
        match r {
            Ok(_) => bad_face(faces@, surfedge_count as nat, 0) is None,
            Err(e) => bad_face(faces@, surfedge_count as nat, 0) matches Some(k) && e == Error::InvalidFaceRange {
                face: k,
                first: faces@[k as int].first_surfedge,
                count: faces@[k as int].surfedge_count,
            },
        },
{
    let mut k: usize = 0;
    while k < faces.len()
        invariant
            k <= faces@.len(),
            bad_face(faces@, surfedge_count as nat, 0) == bad_face(faces@, surfedge_count as nat, k as nat),
        decreases faces@.len() - k,
    {
        let face = &faces[k];
        if !face.is_displacement() {
            let bad = Error::InvalidFaceRange { face: k, first: face.first_surfedge, count: face.surfedge_count };
            if face.first_surfedge < 0 {
                return Err(bad);
            }
            let first = face.first_surfedge as usize;
            let end = first + face.surfedge_count as usize;
            if end > surfedge_count {
                return Err(bad);
            }
        }
        k = k + 1;
    }
    Ok(())
}

fn check_leaf_faces(leaf_faces: &Vec<u16>, face_count: usize) -> (r: Result<()>)
    ensures
        match r {
            Ok(_) => bad_leaf_face(leaf_faces@, face_count as nat, 0) is None,
            Err(e) => bad_leaf_face(leaf_faces@, face_count as nat, 0) matches Some(f) && e == Error::InvalidFaceIndex(f as usize),
        },
{
    let mut k: usize = 0;
    while k < leaf_faces.len()
        invariant
            k <= leaf_faces@.len(),
            bad_leaf_face(leaf_faces@, face_count as nat, 0) == bad_leaf_face(leaf_faces@, face_count as nat, k as nat),
        decreases leaf_faces@.len() - k,
    {
        if leaf_faces[k] as usize >= face_count {
            return Err(Error::InvalidFaceIndex(leaf_faces[k] as usize));
        }
        k = k + 1;
    }
    Ok(())
}

proof fn lemma_bad_edge_none(edges: Seq<[u16; 2]>, vertex_count: nat, k: nat)
    requires
        bad_edge(edges, vertex_count, k) is None,
    ensures
        forall|j: int| k <= j < edges.len() ==> #[trigger] edges[j][0] < vertex_count && edges[j][1] < vertex_count,
    decreases edges.len() - k,
{
    if k < edges.len() {
        lemma_bad_edge_none(edges, vertex_count, k + 1);
    }
}

proof fn lemma_bad_surfedge_none(surfedges: Seq<i32>, edge_count: nat, k: nat)
    requires
        bad_surfedge(surfedges, edge_count, k) is None,
    ensures
        forall|j: int| k <= j < surfedges.len() ==> magnitude(#[trigger] surfedges[j]) < edge_count,
    decreases surfedges.len() - k,
{
    if k < surfedges.len() {
        lemma_bad_surfedge_none(surfedges, edge_count, k + 1);
    }
}

proof fn lemma_bad_face_none(faces: Seq<Face>, surfedge_count: nat, k: nat)
    requires
        bad_face(faces, surfedge_count, k) is None,
    ensures
        forall|j: int| k <= j < faces.len() && #[trigger] faces[j].displacement < 0 ==> face_range_ok(faces[j], surfedge_count),
    decreases faces.len() - k,
{
    if k < faces.len() {
        lemma_bad_face_none(faces, surfedge_count, k + 1);
    }
}

proof fn lemma_bad_leaf_face_none(leaf_faces: Seq<u16>, face_count: nat, k: nat)
    requires
        bad_leaf_face(leaf_faces, face_count, k) is None,
    ensures
        forall|j: int| k <= j < leaf_faces.len() ==> #[trigger] leaf_faces[j] < face_count,
    decreases leaf_faces.len() - k,
{
    if k < leaf_faces.len() {
        lemma_bad_leaf_face_none(leaf_faces, face_count, k + 1);
    }
}

/// A cross-checked view is consistent.
pub proof fn lemma_cross_checked(v: SurfacesView)
    requires
        cross_check(v) is None,
    ensures
        consistent(v),
{
    lemma_bad_edge_none(v.edges, v.vertices.len(), 0);
    lemma_bad_surfedge_none(v.surfedges, v.edges.len(), 0);
    lemma_bad_face_none(v.faces, v.surfedges.len(), 0);
    lemma_bad_leaf_face_none(v.leaf_faces, v.faces.len(), 0);
}

fn copied<T: Copy>(v: &Vec<T>) -> (r: Vec<T>)
    ensures
        r@ == v@,
{
    let mut out: Vec<T> = Vec::new();
    let mut i: usize = 0;
    while i < v.len()
        invariant
            i <= v@.len(),
            out@ == v@.subrange(0, i as int),
        decreases v@.len() - i,
    {
        out.push(v[i]);
        i = i + 1;
        proof {
            assert(out@ =~= v@.subrange(0, i as int));
        }
    }
    proof {
        assert(v@.subrange(0, v@.len() as int) =~= v@);
    }
    out
}

impl Clone for Surfaces {
    fn clone(&self) -> (r: Self)
        ensures
            r@ == self@,
    {
        proof {
            use_type_invariant(self);
        }
        Surfaces {
            vertices: copied(&self.vertices),
            edges: copied(&self.edges),
            surfedges: copied(&self.surfedges),
            faces: copied(&self.faces),
            leaf_faces: copied(&self.leaf_faces),
        }
    }
}

impl Surfaces {
    #[verifier::type_invariant]
    closed spec fn inv(&self) -> bool {
        consistent(self@)
    }

    pub fn parse(bsp: &Bsp<'_>) -> (r: Result<Self>)
        ensures
            match r {
                Ok(s) => surfaces_spec(bsp@) == Ok::<SurfacesView, Error>(s@),
                Err(e) => surfaces_spec(bsp@) == Err::<SurfacesView, Error>(e),
            },
    {
        let vertices = parse_vertices(core_lump(bsp, LUMP_VERTEXES)?)?;
        let edges = parse_edges(core_lump(bsp, LUMP_EDGES)?)?;
        let surfedges = parse_surfedges(core_lump(bsp, LUMP_SURFEDGES)?)?;
        let faces = parse_faces(core_lump(bsp, LUMP_FACES)?)?;
        let leaf_faces = parse_leaf_faces(core_lump(bsp, LUMP_LEAFFACES)?)?;
        check_edges(&edges, vertices.len())?;
        // A surface edge is a signed edge index: the sign carries the direction the
        // edge is walked, so the magnitude is what has to be in range.
        check_surfedges(&surfedges, edges.len())?;
        check_faces(&faces, surfedges.len())?;
        check_leaf_faces(&leaf_faces, faces.len())?;
        proof {
            lemma_cross_checked(SurfacesView {
                vertices: vertices@,
                edges: edges@,
                surfedges: surfedges@,
                faces: faces@,
                leaf_faces: leaf_faces@,
            });
        }
        Ok(Surfaces { vertices, edges, surfedges, faces, leaf_faces })
    }

    /// The vertices, each as the bit patterns of its three floats.
    pub fn vertices(&self) -> (r: &[[u32; 3]])
        ensures
            r@ == self@.vertices,
    {
        self.vertices.as_slice()
    }

    pub fn faces(&self) -> (r: &[Face])
        ensures
            r@ == self@.faces,
    {
        self.faces.as_slice()
    }

    pub fn leaf_faces(&self) -> (r: &[u16])
        ensures
            r@ == self@.leaf_faces,
    {
        self.leaf_faces.as_slice()
    }

    /// The vertex indices around `face`, in the order the compiler wound them.
    ///
    /// A displacement's run of surface edges is not checked when the map is read,
    /// since its geometry lives elsewhere, so its loop is only asked for where the run
    /// is in the lump.
    pub fn face_loop(&self, face: usize) -> (r: Result<Vec<u16>>)
        requires
            face < self@.faces.len() ==> face_range_ok(self@.faces[face as int], self@.surfedges.len()),
        ensures
            match r {
                Ok(l) => face < self@.faces.len() && self@.faces[face as int].surfedge_count >= 3
                    && l@ == face_loop_spec(self@, face as int),
                Err(e) => if face >= self@.faces.len() {
                    e == Error::InvalidFaceIndex(face)
                } else {
                    self@.faces[face as int].surfedge_count < 3 && e == Error::DegenerateFace {
                        face,
                        edges: self@.faces[face as int].surfedge_count,
                    }
                },
            },
    {
        proof {
            use_type_invariant(self);
        }
        if face >= self.faces.len() {
            return Err(Error::InvalidFaceIndex(face));
        }
        let entry = &self.faces[face];
        if entry.surfedge_count < 3 {
            return Err(Error::DegenerateFace { face, edges: entry.surfedge_count });
        }
        let first = entry.first_surfedge as usize;
        let count = entry.surfedge_count as usize;
        let mut loop_vertices: Vec<u16> = Vec::new();
        let mut offset: usize = 0;
        while offset < count
            invariant
                consistent(self@),
                face < self@.faces.len(),
                face_range_ok(self@.faces[face as int], self@.surfedges.len()),
                first == self@.faces[face as int].first_surfedge,
                count == self@.faces[face as int].surfedge_count,
                offset <= count,
                loop_vertices@ == face_loop_spec(self@, face as int).subrange(0, offset as int),
            decreases count - offset,
        {
            let surfedge = self.surfedges[first + offset];
            proof {
                assert(magnitude(self@.surfedges[first + offset]) < self@.edges.len());
            }
            let edge = self.edges[magnitude_of(surfedge)];
            // A negative surface edge means the edge is traversed backwards, so its
            // second vertex is the one this step arrives at.
            loop_vertices.push(if surfedge >= 0 { edge[0] } else { edge[1] });
            offset = offset + 1;
            proof {
                assert(loop_vertices@ =~= face_loop_spec(self@, face as int).subrange(0, offset as int));
            }
        }
        proof {
            assert(face_loop_spec(self@, face as int).subrange(0, count as int) =~= face_loop_spec(self@, face as int));
        }
        Ok(loop_vertices)
    }
}

// ---------------------------------------------------------------------------
// Triangulating
// ---------------------------------------------------------------------------

/// Indexed triangles for a set of world surfaces, each position the bit patterns of the
/// stored vertex it was taken from.
///
/// The positions are shared between the triangles that meet at them, which is how the
/// format stores them and why this is worth building as an indexed draw rather than an
/// expanded vertex list.
#[derive(Debug, Clone, Default, PartialEq, Eq)]
pub struct Geometry {
    pub positions: Vec<[u32; 3]>,
    pub indices: Vec<u32>,
}

impl Geometry {
    pub fn triangle_count(&self) -> (r: usize)
        ensures
            r == self.indices@.len() / 3,
    {
        self.indices.len() / 3
    }

    pub fn is_empty(&self) -> (r: bool)
        ensures
            r == (self.indices@.len() == 0),
    {
        self.indices.len() == 0
    }
}

/// Triangulation so far: the positions emitted, the indices written, and for every
/// stored vertex the position it was emitted as, `u32::MAX` where it has not been.
pub struct TriState {
    pub positions: Seq<[u32; 3]>,
    pub indices: Seq<u32>,
    pub remap: Seq<u32>,
}

/// All three of a stored vertex's coordinates are finite.
pub open spec fn finite_vertex(p: [u32; 3]) -> bool {
    finite_bits(p[0]) && finite_bits(p[1]) && finite_bits(p[2])
}

/// The first `k` corners of a face's loop placed: each stored vertex is emitted the
/// first time a corner reaches it and reused after, giving the fan of positions.
pub open spec fn corners_upto(v: SurfacesView, t: TriState, corners: Seq<u16>, k: nat) -> core::result::Result<
    (TriState, Seq<u32>),
    Error,
>
    decreases k,
{
    if k == 0 {
        Ok((t, Seq::empty()))
    } else {
        match corners_upto(v, t, corners, (k - 1) as nat) {
            Err(e) => Err(e),
            Ok((u, fan)) => {
                let slot = corners[k - 1] as int;
                if u.remap[slot] == u32::MAX {
                    if !finite_vertex(v.vertices[slot]) {
                        Err(Error::NonFiniteVertex(slot as usize))
                    } else if u.positions.len() > u32::MAX {
                        Err(Error::SizeOverflow)
                    } else {
                        let index = u.positions.len() as u32;
                        Ok(
                            (
                                TriState {
                                    positions: u.positions.push(v.vertices[slot]),
                                    indices: u.indices,
                                    remap: u.remap.update(slot, index),
                                },
                                fan.push(index),
                            ),
                        )
                    }
                } else {
                    Ok((u, fan.push(u.remap[slot])))
                }
            },
        }
    }
}

/// The triangles of a fan from its first corner, for its first `m` triangles.
pub open spec fn fan_upto(fan: Seq<u32>, m: nat) -> Seq<u32>
    decreases m,
{
    if m == 0 {
        Seq::empty()
    } else {
        fan_upto(fan, (m - 1) as nat) + seq![fan[0], fan[m as int], fan[m as int + 1]]
    }
}

/// One face added to the triangulation: a displacement is passed over, because its
/// geometry lives in a lump of its own, and every other face is fanned from its first
/// corner, which is valid because the compiler emits convex faces.
pub open spec fn face_step(v: SurfacesView, t: TriState, face: usize) -> core::result::Result<TriState, Error> {
    if face >= v.faces.len() {
        Err(Error::InvalidFaceIndex(face))
    } else if v.faces[face as int].displacement >= 0 {
        Ok(t)
    } else if v.faces[face as int].surfedge_count < 3 {
        Err(Error::DegenerateFace { face, edges: v.faces[face as int].surfedge_count })
    } else {
        let corners = face_loop_spec(v, face as int);
        match corners_upto(v, t, corners, corners.len()) {
            Err(e) => Err(e),
            Ok((u, fan)) => Ok(
                TriState { positions: u.positions, indices: u.indices + fan_upto(fan, (fan.len() - 2) as nat), remap: u.remap },
            ),
        }
    }
}

/// Nothing emitted yet.
pub open spec fn tri_start(v: SurfacesView) -> TriState {
    TriState { positions: Seq::empty(), indices: Seq::empty(), remap: Seq::new(v.vertices.len(), |i: int| u32::MAX) }
}

/// The triangulation of the first `n` faces listed.
pub open spec fn triangulation(v: SurfacesView, faces: Seq<usize>, n: nat) -> core::result::Result<TriState, Error>
    decreases n,
{
    if n == 0 {
        Ok(tri_start(v))
    } else {
        match triangulation(v, faces, (n - 1) as nat) {
            Err(e) => Err(e),
            Ok(t) => face_step(v, t, faces[n - 1]),
        }
    }
}

proof fn lemma_triangulation_fail(v: SurfacesView, faces: Seq<usize>, k: nat, m: nat)
    requires
        k <= m,
        triangulation(v, faces, k) is Err,
    ensures
        triangulation(v, faces, m) == triangulation(v, faces, k),
    decreases m - k,
{
    if k < m {
        lemma_triangulation_fail(v, faces, k, (m - 1) as nat);
    }
}

proof fn lemma_corners_fail(v: SurfacesView, t: TriState, corners: Seq<u16>, k: nat, m: nat)
    requires
        k <= m,
        corners_upto(v, t, corners, k) is Err,
    ensures
        corners_upto(v, t, corners, m) == corners_upto(v, t, corners, k),
    decreases m - k,
{
    if k < m {
        lemma_corners_fail(v, t, corners, k, (m - 1) as nat);
    }
}

proof fn lemma_corners_fan(v: SurfacesView, t: TriState, corners: Seq<u16>, k: nat)
    requires
        corners_upto(v, t, corners, k) is Ok,
    ensures
        corners_upto(v, t, corners, k)->Ok_0.1.len() == k,
        corners_upto(v, t, corners, k)->Ok_0.0.indices == t.indices,
    decreases k,
{
    if k > 0 {
        lemma_corners_fan(v, t, corners, (k - 1) as nat);
    }
}

proof fn lemma_fan_shape(fan: Seq<u32>, m: nat)
    ensures
        fan_upto(fan, m).len() == 3 * m,
        forall|k: int|
            1 <= k <= m ==> {
                &&& #[trigger] fan_upto(fan, m)[3 * (k - 1)] == fan[0]
                &&& fan_upto(fan, m)[3 * (k - 1) + 1] == fan[k]
                &&& fan_upto(fan, m)[3 * (k - 1) + 2] == fan[k + 1]
            },
    decreases m,
{
    if m > 0 {
        let p = (m - 1) as nat;
        lemma_fan_shape(fan, p);
        let before = fan_upto(fan, p);
        let cur = fan_upto(fan, m);
        assert forall|k: int| 1 <= k <= m implies {
            &&& #[trigger] cur[3 * (k - 1)] == fan[0]
            &&& cur[3 * (k - 1) + 1] == fan[k]
            &&& cur[3 * (k - 1) + 2] == fan[k + 1]
        } by {
            if k < m {
                assert(cur[3 * (k - 1)] == before[3 * (k - 1)]);
                assert(cur[3 * (k - 1) + 1] == before[3 * (k - 1) + 1]);
                assert(cur[3 * (k - 1) + 2] == before[3 * (k - 1) + 2]);
            }
        }
    }
}

/// A surface that is not a displacement, of `n` corners, adds exactly `n - 2`
/// triangles after those already written: triangle `k`, for `k` from one to `n - 2`,
/// joins the loop's first corner to its corners `k` and `k + 1`, as the positions the
/// corners were placed at.
pub proof fn lemma_face_fans(v: SurfacesView, t: TriState, face: usize)
    requires
        face < v.faces.len(),
        v.faces[face as int].displacement < 0,
        face_step(v, t, face) is Ok,
    ensures
        ({
            let n = v.faces[face as int].surfedge_count as int;
            let fan = corners_upto(v, t, face_loop_spec(v, face as int), n as nat)->Ok_0.1;
            let after = face_step(v, t, face)->Ok_0.indices;
            let m = t.indices.len() as int;
            &&& n >= 3
            &&& fan.len() == n
            &&& after.len() == m + 3 * (n - 2)
            &&& after.subrange(0, m) == t.indices
            &&& forall|k: int|
                1 <= k <= n - 2 ==> {
                    &&& #[trigger] after[m + 3 * (k - 1)] == fan[0]
                    &&& after[m + 3 * (k - 1) + 1] == fan[k]
                    &&& after[m + 3 * (k - 1) + 2] == fan[k + 1]
                }
        }),
{
    let n = v.faces[face as int].surfedge_count as nat;
    let corners = face_loop_spec(v, face as int);
    lemma_corners_fan(v, t, corners, n);
    let fan = corners_upto(v, t, corners, n)->Ok_0.1;
    let m = (fan.len() - 2) as nat;
    lemma_fan_shape(fan, m);
    let after = face_step(v, t, face)->Ok_0.indices;
    let base = t.indices.len() as int;
    assert(after.subrange(0, base) =~= t.indices);
    assert forall|k: int| 1 <= k <= n - 2 implies {
        &&& #[trigger] after[base + 3 * (k - 1)] == fan[0]
        &&& after[base + 3 * (k - 1) + 1] == fan[k]
        &&& after[base + 3 * (k - 1) + 2] == fan[k + 1]
    } by {
        assert(fan_upto(fan, m)[3 * (k - 1)] == fan[0]);
    }
}

/// The indices a listed surface adds: three for each of its triangles, none for a
/// displacement.
pub open spec fn face_index_count(v: SurfacesView, face: usize) -> int {
    if v.faces[face as int].displacement >= 0 {
        0
    } else {
        3 * (v.faces[face as int].surfedge_count - 2)
    }
}

/// The indices the first `n` listed surfaces add.
pub open spec fn listed_index_count(v: SurfacesView, faces: Seq<usize>, n: nat) -> int
    decreases n,
{
    if n == 0 {
        0
    } else {
        listed_index_count(v, faces, (n - 1) as nat) + face_index_count(v, faces[n - 1])
    }
}

/// A triangulation holds three indices for each triangle of each listed surface that
/// is not a displacement: a surface of `n` corners is `n - 2` triangles.
pub proof fn lemma_triangulation_index_count(v: SurfacesView, faces: Seq<usize>, n: nat)
    requires
        n <= faces.len(),
        triangulation(v, faces, n) is Ok,
    ensures
        triangulation(v, faces, n)->Ok_0.indices.len() == listed_index_count(v, faces, n),
    decreases n,
{
    if n > 0 {
        let k = (n - 1) as nat;
        if triangulation(v, faces, k) is Err {
            lemma_triangulation_fail(v, faces, k, n);
        }
        lemma_triangulation_index_count(v, faces, k);
        let t = triangulation(v, faces, k)->Ok_0;
        let face = faces[k as int];
        if v.faces[face as int].displacement < 0 {
            lemma_face_fans(v, t, face);
        }
    }
}

/// Every index written names a position emitted, in whole triangles, and every stored
/// vertex already emitted names a position too.
pub open spec fn tri_sound(v: SurfacesView, t: TriState) -> bool {
    &&& t.remap.len() == v.vertices.len()
    &&& t.indices.len() % 3 == 0
    &&& forall|i: int| 0 <= i < t.indices.len() ==> #[trigger] t.indices[i] < t.positions.len()
    &&& forall|s: int| 0 <= s < t.remap.len() && #[trigger] t.remap[s] != u32::MAX ==> t.remap[s] < t.positions.len()
}

proof fn lemma_corners_sound(v: SurfacesView, t: TriState, corners: Seq<u16>, k: nat)
    requires
        tri_sound(v, t),
        k <= corners.len(),
        forall|j: int| 0 <= j < corners.len() ==> #[trigger] corners[j] < v.vertices.len(),
    ensures
        corners_upto(v, t, corners, k) matches Ok((u, fan)) ==> {
            &&& tri_sound(v, u)
            &&& u.indices == t.indices
            &&& u.positions.len() >= t.positions.len()
            &&& fan.len() == k
            &&& forall|j: int| 0 <= j < fan.len() ==> #[trigger] fan[j] < u.positions.len()
        },
    decreases k,
{
    if k > 0 {
        lemma_corners_sound(v, t, corners, (k - 1) as nat);
        if let Ok((u, fan)) = corners_upto(v, t, corners, (k - 1) as nat) {
            let slot = corners[k - 1] as int;
            if let Ok((w, next)) = corners_upto(v, t, corners, k) {
                if u.remap[slot] == u32::MAX {
                    assert forall|s: int| 0 <= s < w.remap.len() && #[trigger] w.remap[s] != u32::MAX implies w.remap[s]
                        < w.positions.len() by {
                        if s != slot {
                            assert(w.remap[s] == u.remap[s]);
                        }
                    }
                    assert forall|j: int| 0 <= j < next.len() implies #[trigger] next[j] < w.positions.len() by {
                        if j < fan.len() {
                            assert(next[j] == fan[j]);
                        }
                    }
                } else {
                    assert forall|j: int| 0 <= j < next.len() implies #[trigger] next[j] < w.positions.len() by {
                        if j < fan.len() {
                            assert(next[j] == fan[j]);
                        }
                    }
                }
            }
        }
    }
}

proof fn lemma_fan_sound(fan: Seq<u32>, m: nat, bound: nat)
    requires
        m + 2 <= fan.len(),
        forall|j: int| 0 <= j < fan.len() ==> #[trigger] fan[j] < bound,
    ensures
        fan_upto(fan, m).len() == 3 * m,
        forall|i: int| 0 <= i < fan_upto(fan, m).len() ==> #[trigger] fan_upto(fan, m)[i] < bound,
    decreases m,
{
    if m > 0 {
        lemma_fan_sound(fan, (m - 1) as nat, bound);
        let before = fan_upto(fan, (m - 1) as nat);
        let tail = seq![fan[0], fan[m as int], fan[m as int + 1]];
        assert forall|i: int| 0 <= i < fan_upto(fan, m).len() implies #[trigger] fan_upto(fan, m)[i] < bound by {
            if i < before.len() {
                assert(fan_upto(fan, m)[i] == before[i]);
            } else {
                assert(fan_upto(fan, m)[i] == tail[i - before.len()]);
            }
        }
    }
}

proof fn lemma_triangulation_sound(v: SurfacesView, faces: Seq<usize>, n: nat)
    requires
        consistent(v),
        n <= faces.len(),
    ensures
        triangulation(v, faces, n) matches Ok(t) ==> tri_sound(v, t),
    decreases n,
{
    if n == 0 {
        let t = tri_start(v);
        assert forall|s: int| 0 <= s < t.remap.len() && #[trigger] t.remap[s] != u32::MAX implies t.remap[s] < t.positions.len() by {
        }
    } else {
        lemma_triangulation_sound(v, faces, (n - 1) as nat);
        if let Ok(t) = triangulation(v, faces, (n - 1) as nat) {
            let face = faces[n - 1];
            if face < v.faces.len() && v.faces[face as int].displacement < 0 && v.faces[face as int].surfedge_count >= 3 {
                let f = v.faces[face as int];
                let corners = face_loop_spec(v, face as int);
                assert(face_range_ok(f, v.surfedges.len()));
                assert forall|j: int| 0 <= j < corners.len() implies #[trigger] corners[j] < v.vertices.len() by {
                    let sedge = v.surfedges[f.first_surfedge + j];
                    assert(magnitude(sedge) < v.edges.len());
                    assert(v.edges[magnitude(sedge) as int][0] < v.vertices.len());
                }
                lemma_corners_sound(v, t, corners, corners.len());
                if let Ok((u, fan)) = corners_upto(v, t, corners, corners.len()) {
                    lemma_fan_sound(fan, (fan.len() - 2) as nat, u.positions.len());
                    let added = fan_upto(fan, (fan.len() - 2) as nat);
                    let all = u.indices + added;
                    assert forall|i: int| 0 <= i < all.len() implies #[trigger] all[i] < u.positions.len() by {
                        if i >= u.indices.len() {
                            assert(all[i] == added[i - u.indices.len()]);
                        }
                    }
                }
            }
        }
    }
}

/// A triangulation is whole triangles, and every index in it names one of the positions
/// it emitted.
pub proof fn lemma_triangles_name_positions(v: SurfacesView, faces: Seq<usize>)
    requires
        consistent(v),
    ensures
        triangulation(v, faces, faces.len()) matches Ok(t) ==> t.indices.len() % 3 == 0 && forall|i: int|
            0 <= i < t.indices.len() ==> #[trigger] t.indices[i] < t.positions.len(),
{
    lemma_triangulation_sound(v, faces, faces.len());
}

pub(crate) fn finite_vertex_exec(p: [u32; 3]) -> (r: bool)
    ensures
        r == finite_vertex(p),
{
    (p[0] >> 23u32) & 0xff != 0xff && (p[1] >> 23u32) & 0xff != 0xff && (p[2] >> 23u32) & 0xff != 0xff
}

impl Surfaces {
    /// States, for the proofs of code that walks the surfaces, that they agree with
    /// each other.
    pub(crate) fn agreeing(&self)
        ensures
            consistent(self@),
    {
        proof {
            use_type_invariant(self);
        }
    }

    /// Indexed triangles for `faces`, in the order listed, sharing one position list.
    pub fn triangulate(&self, faces: &[usize]) -> (r: Result<Geometry>)
        ensures
            match r {
                Ok(g) => triangulation(self@, faces@, faces@.len()) matches Ok(t) && t.positions == g.positions@
                    && t.indices == g.indices@,
                Err(e) => triangulation(self@, faces@, faces@.len()) == Err::<TriState, Error>(e),
            },
    {
        proof {
            use_type_invariant(self);
        }
        let ghost v = self@;
        let mut positions: Vec<[u32; 3]> = Vec::new();
        let mut indices: Vec<u32> = Vec::new();
        let mut remapped: Vec<u32> = Vec::new();
        while remapped.len() < self.vertices.len()
            invariant
                remapped@.len() <= v.vertices.len(),
                v == self@,
                remapped@ == Seq::new(remapped@.len(), |i: int| u32::MAX),
            decreases v.vertices.len() - remapped@.len(),
        {
            remapped.push(u32::MAX);
            proof {
                assert(remapped@ =~= Seq::new(remapped@.len(), |i: int| u32::MAX));
            }
        }
        proof {
            assert(remapped@ =~= tri_start(v).remap);
            assert(positions@ =~= tri_start(v).positions);
            assert(indices@ =~= tri_start(v).indices);
        }
        let mut i: usize = 0;
        while i < faces.len()
            invariant
                i <= faces@.len(),
                v == self@,
                consistent(v),
                triangulation(v, faces@, i as nat) == Ok::<TriState, Error>(
                    TriState { positions: positions@, indices: indices@, remap: remapped@ },
                ),
                remapped@.len() == v.vertices.len(),
            decreases faces@.len() - i,
        {
            let face = faces[i];
            let ghost before = TriState { positions: positions@, indices: indices@, remap: remapped@ };
            if face >= self.faces.len() {
                proof {
                    lemma_triangulation_fail(v, faces@, (i + 1) as nat, faces@.len());
                }
                return Err(Error::InvalidFaceIndex(face));
            }
            if self.faces[face].is_displacement() {
                i = i + 1;
                continue;
            }
            proof {
                assert(face_range_ok(v.faces[face as int], v.surfedges.len()));
            }
            let corners = match self.face_loop(face) {
                Ok(c) => c,
                Err(e) => {
                    proof {
                        lemma_triangulation_fail(v, faces@, (i + 1) as nat, faces@.len());
                    }
                    return Err(e);
                },
            };
            let ghost goal = corners_upto(v, before, corners@, corners@.len());
            let mut fan: Vec<u32> = Vec::new();
            let mut k: usize = 0;
            while k < corners.len()
                invariant
                    k <= corners@.len(),
                    v == self@,
                    consistent(v),
                    corners@ == face_loop_spec(v, face as int),
                    face < v.faces.len(),
                    face_range_ok(v.faces[face as int], v.surfedges.len()),
                    remapped@.len() == v.vertices.len(),
                    goal == corners_upto(v, before, corners@, corners@.len()),
                    i < faces@.len(),
                    faces@[i as int] == face,
                    v.faces[face as int].displacement < 0,
                    v.faces[face as int].surfedge_count >= 3,
                    triangulation(v, faces@, i as nat) == Ok::<TriState, Error>(before),
                    fan@.len() == k,
                    corners_upto(v, before, corners@, k as nat) == Ok::<(TriState, Seq<u32>), Error>(
                        (TriState { positions: positions@, indices: indices@, remap: remapped@ }, fan@),
                    ),
                decreases corners@.len() - k,
            {
                let ghost f = v.faces[face as int];
                let ghost sedge = v.surfedges[f.first_surfedge + k];
                proof {
                    assert(magnitude(sedge) < v.edges.len());
                    assert(v.edges[magnitude(sedge) as int][0] < v.vertices.len());
                }
                let slot = corners[k] as usize;
                if remapped[slot] == u32::MAX {
                    let position = self.vertices[slot];
                    if !finite_vertex_exec(position) {
                        proof {
                            lemma_corners_fail(v, before, corners@, (k + 1) as nat, corners@.len());
                            lemma_triangulation_fail(v, faces@, (i + 1) as nat, faces@.len());
                        }
                        return Err(Error::NonFiniteVertex(slot));
                    }
                    if positions.len() > 0xffff_ffff {
                        proof {
                            lemma_corners_fail(v, before, corners@, (k + 1) as nat, corners@.len());
                            lemma_triangulation_fail(v, faces@, (i + 1) as nat, faces@.len());
                        }
                        return Err(Error::SizeOverflow);
                    }
                    let index = positions.len() as u32;
                    remapped.set(slot, index);
                    positions.push(position);
                }
                fan.push(remapped[slot]);
                k = k + 1;
            }
            let n = fan.len();
            let mut c: usize = 1;
            let ghost base = indices@;
            while c + 1 < n
                invariant
                    1 <= c,
                    n == fan@.len(),
                    n >= 3,
                    c <= n - 1,
                    indices@ == base + fan_upto(fan@, (c - 1) as nat),
                decreases n - c,
            {
                indices.push(fan[0]);
                indices.push(fan[c]);
                indices.push(fan[c + 1]);
                proof {
                    assert(indices@ =~= base + fan_upto(fan@, c as nat));
                }
                c = c + 1;
            }
            i = i + 1;
        }
        Ok(Geometry { positions, indices })
    }
}


} // verus!
