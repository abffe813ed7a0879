//! How textured world geometry is laid out: which surfaces a draw shows, the order
//! they are written in, which corners they share, and the runs a frame selects from.
//!
//! A draw binds one texture, so the surfaces are grouped a material at a time and every
//! material's indices come out in one run. Two surfaces share a corner only where they
//! also share a texture projection and a placement, and, once lightmaps are in play,
//! the surface itself, because a corner's lighting comes from the surface it is drawn
//! as part of. What a corner's position, texture coordinate and lightmap coordinate are
//! is worked out from the key it is laid out under, by whoever does the arithmetic.
use vstd::prelude::*;
use crate::bsp::{Error, Result};
use crate::bsp::draws::{
    Batch, FaceRun, draws_upto, run_drawn, run_draw, extend_draws, runs_fit, runs_in_order, draws_in_order,
    draw_total, drawn_total, lemma_draws_in_order, lemma_draws_cover_drawn_runs,
};
use crate::bsp::visible::VisibleFacesView;
use crate::bsp::materials::{Materials, MaterialsView, drawn};
use crate::bsp::surfaces::{
    Surfaces, SurfacesView, consistent, face_loop_spec, face_range_ok, fan_upto, finite_vertex, finite_vertex_exec, magnitude,
};

verus! {

/// One surface a draw shows: its material's texdata, the placement group it was given
/// under, the face, and the texinfo it is projected through. Surfaces are written in
/// this order.
pub type Drawn = (usize, usize, usize, usize);

/// Whether face `face`, listed under group `group`, is drawn, and as what: a
/// displacement is drawn from a lump of its own, and a surface with no texinfo or a
/// texinfo the renderer does not draw (sky, compiler annotations) is not drawn at all.
pub open spec fn gather_face(v: SurfacesView, m: MaterialsView, group: usize, face: usize) -> core::result::Result<
    Option<Drawn>,
    Error,
> {
    if face >= v.faces.len() {
        Err(Error::InvalidFaceIndex(face))
    } else {
        let f = v.faces[face as int];
        if f.displacement >= 0 || f.texinfo < 0 {
            Ok(None)
        } else if f.texinfo >= m.texinfos.len() {
            Err(Error::InvalidTexInfo(f.texinfo))
        } else {
            let t = m.texinfos[f.texinfo as int];
            if !drawn(t.flags) {
                Ok(None)
            } else {
                Ok(Some((t.texdata as usize, group, face, f.texinfo as usize)))
            }
        }
    }
}

/// The drawn surfaces among the first `n` faces of a group, in the order listed.
pub open spec fn gather_group(v: SurfacesView, m: MaterialsView, group: usize, faces: Seq<usize>, n: nat) -> core::result::Result<
    Seq<Drawn>,
    Error,
>
    decreases n,
{
    if n == 0 {
        Ok(Seq::empty())
    } else {
        match gather_group(v, m, group, faces, (n - 1) as nat) {
            Err(e) => Err(e),
            Ok(d) => match gather_face(v, m, group, faces[n - 1]) {
                Err(e) => Err(e),
                Ok(None) => Ok(d),
                Ok(Some(x)) => Ok(d.push(x)),
            },
        }
    }
}

/// The drawn surfaces of the first `n` groups, group by group.
pub open spec fn gather(v: SurfacesView, m: MaterialsView, groups: Seq<Seq<usize>>, n: nat) -> core::result::Result<
    Seq<Drawn>,
    Error,
>
    decreases n,
{
    if n == 0 {
        Ok(Seq::empty())
    } else {
        match gather(v, m, groups, (n - 1) as nat) {
            Err(e) => Err(e),
            Ok(d) => match gather_group(v, m, (n - 1) as usize, groups[n - 1], groups[n - 1].len()) {
                Err(e) => Err(e),
                Ok(g) => Ok(d + g),
            },
        }
    }
}

/// `a` is written no later than `b`: by material, then group, then face, then texinfo.
pub open spec fn drawn_le(a: Drawn, b: Drawn) -> bool {
    a.0 < b.0 || (a.0 == b.0 && (a.1 < b.1 || (a.1 == b.1 && (a.2 < b.2 || (a.2 == b.2 && a.3 <= b.3)))))
}

pub open spec fn drawn_sorted(s: Seq<Drawn>) -> bool {
    forall|i: int, j: int| 0 <= i < j < s.len() ==> drawn_le(#[trigger] s[i], #[trigger] s[j])
}

/// The drawn surfaces in the order they are written.
pub open spec fn written_order(d: Seq<Drawn>) -> Seq<Drawn> {
    choose|s: Seq<Drawn>| s.to_multiset() == d.to_multiset() && drawn_sorted(s)
}

proof fn lemma_gather_group_fail(v: SurfacesView, m: MaterialsView, group: usize, faces: Seq<usize>, k: nat, n: nat)
    requires
        k <= n,
        gather_group(v, m, group, faces, k) is Err,
    ensures
        gather_group(v, m, group, faces, n) == gather_group(v, m, group, faces, k),
    decreases n - k,
{
    if k < n {
        lemma_gather_group_fail(v, m, group, faces, k, (n - 1) as nat);
    }
}

proof fn lemma_gather_fail(v: SurfacesView, m: MaterialsView, groups: Seq<Seq<usize>>, k: nat, n: nat)
    requires
        k <= n,
        gather(v, m, groups, k) is Err,
    ensures
        gather(v, m, groups, n) == gather(v, m, groups, k),
    decreases n - k,
{
    if k < n {
        lemma_gather_fail(v, m, groups, k, (n - 1) as nat);
    }
}

/// The surfaces a draw of `groups` shows, group by group and in the order each group
/// lists them.
pub(crate) fn gather_drawn(surfaces: &Surfaces, materials: &Materials, groups: &[Vec<usize>]) -> (r: Result<Vec<Drawn>>)
    ensures
        match r {
            Ok(d) => gather(surfaces@, materials@, groups@.map_values(|g: Vec<usize>| g@), groups@.len())
                == Ok::<Seq<Drawn>, Error>(d@),
            Err(e) => gather(surfaces@, materials@, groups@.map_values(|g: Vec<usize>| g@), groups@.len())
                == Err::<Seq<Drawn>, Error>(e),
        },
{
    let ghost v = surfaces@;
    let ghost m = materials@;
    let ghost gs = groups@.map_values(|g: Vec<usize>| g@);
    let faces = surfaces.faces();
    let texinfos = materials.texinfos();
    let mut out: Vec<Drawn> = Vec::new();
    let mut g: usize = 0;
    while g < groups.len()
        invariant
            g <= groups@.len(),
            gs == groups@.map_values(|x: Vec<usize>| x@),
            faces@ == v.faces,
            texinfos@ == m.texinfos,
            v == surfaces@,
            m == materials@,
            gather(v, m, gs, g as nat) == Ok::<Seq<Drawn>, Error>(out@),
        decreases groups@.len() - g,
    {
        let list = &groups[g];
        let ghost base = out@;
        let mut k: usize = 0;
        proof {
            assert(gs[g as int] == list@);
            assert(base + Seq::<Drawn>::empty() =~= base);
        }
        while k < list.len()
            invariant
                k <= list@.len(),
                g < groups@.len(),
                gs == groups@.map_values(|x: Vec<usize>| x@),
                gs[g as int] == list@,
                gs.len() == groups@.len(),
                v == surfaces@,
                m == materials@,
                faces@ == v.faces,
                texinfos@ == m.texinfos,
                gather(v, m, gs, g as nat) == Ok::<Seq<Drawn>, Error>(base),
                gather_group(v, m, g, list@, k as nat) matches Ok(d) && out@ == base + d,
            decreases list@.len() - k,
        {
            let ghost d = gather_group(v, m, g, list@, k as nat)->Ok_0;
            let face = list[k];
            if face >= faces.len() {
                proof {
                    lemma_gather_group_fail(v, m, g, list@, (k + 1) as nat, list@.len());
                    lemma_gather_fail(v, m, gs, (g + 1) as nat, gs.len());
                }
                return Err(Error::InvalidFaceIndex(face));
            }
            let entry = &faces[face];
            if entry.displacement < 0 && entry.texinfo >= 0 {
                let index = entry.texinfo as usize;
                if index >= texinfos.len() {
                    proof {
                        lemma_gather_group_fail(v, m, g, list@, (k + 1) as nat, list@.len());
                        lemma_gather_fail(v, m, gs, (g + 1) as nat, gs.len());
                    }
                    return Err(Error::InvalidTexInfo(entry.texinfo));
                }
                let t = &texinfos[index];
                if t.is_drawn() {
                    out.push((t.texdata as usize, g, face, index));
                    proof {
                        assert(out@ =~= base + d.push((t.texdata as usize, g, face, index)));
                    }
                }
            }
            k = k + 1;
        }
        proof {
            assert(gather(v, m, gs, (g + 1) as nat) == Ok::<Seq<Drawn>, Error>(out@));
        }
        g = g + 1;
    }
    proof {
        assert(gs.len() == groups@.len());
    }
    Ok(out)
}

proof fn lemma_drawn_le_total(a: Drawn, b: Drawn)
    ensures
        drawn_le(a, b) || drawn_le(b, a),
        drawn_le(a, b) && drawn_le(b, a) ==> a == b,
        drawn_le(a, a),
{
}

/// Two arrangements of the same surfaces in the written order are the same: the order
/// leaves nothing to chance.
pub proof fn lemma_written_order_unique(a: Seq<Drawn>, b: Seq<Drawn>)
    requires
        a.to_multiset() == b.to_multiset(),
        drawn_sorted(a),
        drawn_sorted(b),
    ensures
        a == b,
    decreases a.len(),
{
    broadcast use vstd::seq_lib::group_to_multiset_ensures;

    assert(a.len() == a.to_multiset().len());
    assert(b.len() == b.to_multiset().len());
    if a.len() > 0 {
        assert(a.to_multiset().count(a[0]) > 0);
        assert(b.contains(a[0]));
        let j = choose|j: int| 0 <= j < b.len() && b[j] == a[0];
        if j > 0 {
            assert(drawn_le(b[0], b[j]));
        }
        assert(b.to_multiset().count(b[0]) > 0);
        assert(a.contains(b[0]));
        let i = choose|i: int| 0 <= i < a.len() && a[i] == b[0];
        if i > 0 {
            assert(drawn_le(a[0], a[i]));
        }
        lemma_drawn_le_total(a[0], a[0]);
        lemma_drawn_le_total(b[0], b[0]);
        lemma_drawn_le_total(a[0], b[0]);
        assert(a[0] == b[0]);
        assert(a.remove(0) =~= a.drop_first());
        assert(b.remove(0) =~= b.drop_first());
        assert(a.remove(0).to_multiset() == a.to_multiset().remove(a[0]));
        assert(b.remove(0).to_multiset() == b.to_multiset().remove(b[0]));
        lemma_written_order_unique(a.drop_first(), b.drop_first());
        assert(a =~= seq![a[0]] + a.drop_first());
        assert(b =~= seq![b[0]] + b.drop_first());
    }
}

fn drawn_le_exec(a: Drawn, b: Drawn) -> (r: bool)
    ensures
        r == drawn_le(a, b),
{
    a.0 < b.0 || (a.0 == b.0 && (a.1 < b.1 || (a.1 == b.1 && (a.2 < b.2 || (a.2 == b.2 && a.3 <= b.3)))))
}

/// The drawn surfaces in the written order.
fn sort_drawn(d: &Vec<Drawn>) -> (r: Vec<Drawn>)
    ensures
        r@ == written_order(d@),
        r@.to_multiset() == d@.to_multiset(),
        drawn_sorted(r@),
{
    broadcast use vstd::seq_lib::group_to_multiset_ensures;
    let mut out: Vec<Drawn> = Vec::new();
    let mut i: usize = 0;
    proof {
        assert(d@.subrange(0, 0) =~= Seq::<Drawn>::empty());
    }
    while i < d.len()
        invariant
            i <= d@.len(),
            out@.to_multiset() == d@.subrange(0, i as int).to_multiset(),
            drawn_sorted(out@),
        decreases d@.len() - i,
    {
        let x = d[i];
        let mut j: usize = 0;
        while j < out.len() && drawn_le_exec(out[j], x)
            invariant
                j <= out@.len(),
                forall|k: int| 0 <= k < j ==> drawn_le(#[trigger] out@[k], x),
            decreases out@.len() - j,
        {
            j = j + 1;
        }
        let ghost before = out@;
        out.insert(j, x);
        proof {
            vstd::seq_lib::to_multiset_insert(before, j as int, x);
            assert(d@.subrange(0, i + 1) =~= d@.subrange(0, i as int).push(x));
            vstd::seq_lib::to_multiset_build(d@.subrange(0, i as int), x);
            assert forall|p: int, q: int| 0 <= p < q < out@.len() implies drawn_le(#[trigger] out@[p], #[trigger] out@[q]) by {
                if q < j {
                } else if q == j {
                } else if p < j {
                    assert(drawn_le(before[p], x));
                    assert(!drawn_le(before[j as int], x) || j == before.len());
                    lemma_drawn_le_total(before[j as int], x);
                    if q - 1 > j {
                        assert(drawn_le(before[j as int], before[q - 1]));
                    }
                } else if p == j {
                    assert(!drawn_le(before[j as int], x));
                    lemma_drawn_le_total(before[j as int], x);
                    if q - 1 > j {
                        assert(drawn_le(before[j as int], before[q - 1]));
                    }
                } else {
                    assert(drawn_le(before[p - 1], before[q - 1]));
                }
            }
        }
        i = i + 1;
    }
    proof {
        assert(d@.subrange(0, d@.len() as int) =~= d@);
        let w = written_order(d@);
        assert(w.to_multiset() == d@.to_multiset() && drawn_sorted(w));
        lemma_written_order_unique(out@, w);
    }
    out
}

// ---------------------------------------------------------------------------
// Laying the corners out
// ---------------------------------------------------------------------------

/// A corner as it is laid out: the stored vertex, the texinfo it is projected through,
/// the face it is lit as part of (zero where no lightmaps are in play), and the group
/// it was placed under. Corners with the same key are one corner.
pub type CornerKey = (u16, usize, usize, usize);

/// Laying out so far: the corners emitted, the indices written, the finished material
/// batches and the one still open, and each surface's run.
pub struct LayoutView {
    pub corners: Seq<CornerKey>,
    pub indices: Seq<u32>,
    pub batches: Seq<Batch>,
    pub open: Option<Batch>,
    pub runs: Seq<FaceRun>,
}

pub open spec fn layout_start() -> LayoutView {
    LayoutView { corners: Seq::empty(), indices: Seq::empty(), batches: Seq::empty(), open: None, runs: Seq::empty() }
}

/// The first `k` corners of a loop placed: a corner already emitted under the same key
/// is reused, and any other is emitted, which its stored vertex has to be finite for.
pub open spec fn lay_corners(
    v: SurfacesView,
    corners: Seq<CornerKey>,
    lp: Seq<u16>,
    texinfo: usize,
    lit_face: usize,
    group: usize,
    k: nat,
) -> core::result::Result<(Seq<CornerKey>, Seq<u32>), Error>
    decreases k,
{
    if k == 0 {
        Ok((corners, Seq::empty()))
    } else {
        match lay_corners(v, corners, lp, texinfo, lit_face, group, (k - 1) as nat) {
            Err(e) => Err(e),
            Ok((c, fan)) => {
                let key = (lp[k - 1], texinfo, lit_face, group);
                if c.contains(key) {
                    Ok((c, fan.push(c.index_of(key) as u32)))
                } else if !finite_vertex(v.vertices[lp[k - 1] as int]) {
                    Err(Error::NonFiniteVertex(lp[k - 1] as usize))
                } else if c.len() > u32::MAX {
                    Err(Error::SizeOverflow)
                } else {
                    Ok((c.push(key), fan.push(c.len() as u32)))
                }
            },
        }
    }
}

/// The batches once one more surface of material `texdata` is written: the open batch
/// carries on where it is of that material, and otherwise is finished and a new one
/// opened where the indices stand.
pub open spec fn switch_batch(st: LayoutView, texdata: usize) -> (Seq<Batch>, Batch) {
    match st.open {
        Some(o) => if o.texdata == texdata {
            (st.batches, o)
        } else {
            (st.batches.push(o), Batch { texdata, first_index: st.indices.len() as usize, index_count: 0 })
        },
        None => (st.batches, Batch { texdata, first_index: st.indices.len() as usize, index_count: 0 }),
    }
}

/// One more surface written: its corners laid out, its fan of triangles written, its
/// run noted, and the open batch grown to cover it.
pub open spec fn lay_surface(v: SurfacesView, st: LayoutView, d: Drawn, lit: bool) -> core::result::Result<LayoutView, Error> {
    let (texdata, group, face, texinfo) = d;
    let (batches, open) = switch_batch(st, texdata);
    let f = v.faces[face as int];
    if f.surfedge_count < 3 {
        Err(Error::DegenerateFace { face, edges: f.surfedge_count })
    } else {
        let lp = face_loop_spec(v, face as int);
        match lay_corners(v, st.corners, lp, texinfo, if lit { face } else { 0 }, group, lp.len()) {
            Err(e) => Err(e),
            Ok((corners, fan)) => {
                let indices = st.indices + fan_upto(fan, (fan.len() - 2) as nat);
                Ok(
                    LayoutView {
                        corners,
                        indices,
                        batches,
                        open: Some(
                            Batch {
                                texdata: open.texdata,
                                first_index: open.first_index,
                                index_count: (indices.len() - open.first_index) as usize,
                            },
                        ),
                        runs: st.runs.push(
                            FaceRun {
                                face,
                                group,
                                batch: batches.len() as usize,
                                first_index: st.indices.len() as usize,
                                index_count: (indices.len() - st.indices.len()) as usize,
                            },
                        ),
                    },
                )
            },
        }
    }
}

/// The first `n` surfaces of the written order laid out.
pub open spec fn layout_upto(v: SurfacesView, written: Seq<Drawn>, lit: bool, n: nat) -> core::result::Result<LayoutView, Error>
    decreases n,
{
    if n == 0 {
        Ok(layout_start())
    } else {
        match layout_upto(v, written, lit, (n - 1) as nat) {
            Err(e) => Err(e),
            Ok(st) => lay_surface(v, st, written[n - 1], lit),
        }
    }
}

/// The batches once the last one is finished.
pub open spec fn finished_batches(st: LayoutView) -> Seq<Batch> {
    match st.open {
        Some(o) => st.batches.push(o),
        None => st.batches,
    }
}

/// What laying out the surfaces `groups` list comes to, or why it is refused.
pub open spec fn layout_spec(v: SurfacesView, m: MaterialsView, groups: Seq<Seq<usize>>, lit: bool) -> core::result::Result<
    LayoutView,
    Error,
> {
    match gather(v, m, groups, groups.len()) {
        Err(e) => Err(e),
        Ok(d) => {
            let written = written_order(d);
            match layout_upto(v, written, lit, written.len()) {
                Err(e) => Err(e),
                Ok(st) => Ok(
                    LayoutView {
                        corners: st.corners,
                        indices: st.indices,
                        batches: finished_batches(st),
                        open: None,
                        runs: st.runs,
                    },
                ),
            }
        },
    }
}

/// Geometry laid out for drawing a material at a time: the corners, the indices into
/// them, one batch per material's run, and the run each surface wrote.
#[derive(Debug, Clone, Default)]
pub struct Layout {
    pub corners: Vec<CornerKey>,
    pub indices: Vec<u32>,
    pub batches: Vec<Batch>,
    pub runs: Vec<FaceRun>,
}

/// One emitted corner as its stored vertex's list remembers it: texinfo, lit face,
/// group and the corner's index.
pub type SlotEntry = (usize, usize, usize, u32);

/// Every entry of a vertex's list names the emitted corner it stands for.
pub open spec fn entries_name_corners(slots: Seq<Vec<SlotEntry>>, corners: Seq<CornerKey>, n: nat) -> bool {
    forall|s: int, j: int|
        #![trigger slots[s]@[j]]
        0 <= s < n && 0 <= j < slots[s]@.len() ==> slots[s]@[j].3 < corners.len() && corners[slots[s]@[j].3 as int]
            == (s as u16, slots[s]@[j].0, slots[s]@[j].1, slots[s]@[j].2)
}

/// Every emitted corner is in its vertex's list.
pub open spec fn corners_listed(slots: Seq<Vec<SlotEntry>>, corners: Seq<CornerKey>, n: nat) -> bool {
    forall|i: int|
        #![trigger corners[i]]
        0 <= i < corners.len() ==> corners[i].0 < n && exists|j: int|
            #![trigger slots[corners[i].0 as int]@[j]]
            0 <= j < slots[corners[i].0 as int]@.len() && slots[corners[i].0 as int]@[j] == (
                corners[i].1,
                corners[i].2,
                corners[i].3,
                i as u32,
            )
}

/// The per-vertex lists hold exactly the emitted corners, each under its own vertex.
pub open spec fn slots_model(slots: Seq<Vec<SlotEntry>>, corners: Seq<CornerKey>, n: nat) -> bool {
    &&& slots.len() == n
    &&& corners.len() <= u32::MAX + 1
    &&& corners.no_duplicates()
    &&& entries_name_corners(slots, corners, n)
    &&& corners_listed(slots, corners, n)
}

fn find_corner(
    slots: &Vec<Vec<SlotEntry>>,
    slot: usize,
    texinfo: usize,
    lit_face: usize,
    group: usize,
    Ghost(corners): Ghost<Seq<CornerKey>>,
) -> (r: Option<u32>)
    requires
        slots_model(slots@, corners, slots@.len()),
        slot < slots@.len(),
        slot < 0x10000,
    ensures
        match r {
            Some(index) => corners.contains((slot as u16, texinfo, lit_face, group)) && index == corners.index_of(
                (slot as u16, texinfo, lit_face, group),
            ),
            None => !corners.contains((slot as u16, texinfo, lit_face, group)),
        },
{
    let list = &slots[slot];
    let ghost key = (slot as u16, texinfo, lit_face, group);
    let mut j: usize = 0;
    while j < list.len()
        invariant
            j <= list@.len(),
            list@ == slots@[slot as int]@,
            slots_model(slots@, corners, slots@.len()),
            slot < slots@.len(),
            slot < 0x10000,
            key == (slot as u16, texinfo, lit_face, group),
            forall|q: int| 0 <= q < j ==> !(#[trigger] list@[q].0 == texinfo && list@[q].1 == lit_face && list@[q].2 == group),
        decreases list@.len() - j,
    {
        let e = list[j];
        if e.0 == texinfo && e.1 == lit_face && e.2 == group {
            proof {
                assert(corners[e.3 as int] == key);
                assert(corners.contains(key));
                let c = corners.index_of(key);
                assert(corners[c] == key);
            }
            return Some(e.3);
        }
        j = j + 1;
    }
    proof {
        if corners.contains(key) {
            let i = choose|i: int| 0 <= i < corners.len() && corners[i] == key;
            let c0 = corners[i].0;
            assert(c0 == slot as u16);
            assert(c0 as int == slot as int) by (bit_vector)
                requires
                    c0 == slot as u16,
                    slot < 0x10000,
            ;
            let q = choose|q: int|
                #![trigger slots@[corners[i].0 as int]@[q]]
                0 <= q < slots@[corners[i].0 as int]@.len() && slots@[corners[i].0 as int]@[q] == (
                    corners[i].1,
                    corners[i].2,
                    corners[i].3,
                    i as u32,
                );
            assert(list@[q].0 == texinfo && list@[q].1 == lit_face && list@[q].2 == group);
        }
    }
    None
}

proof fn lemma_slots_insert(
    slots: Seq<Vec<SlotEntry>>,
    new_slots: Seq<Vec<SlotEntry>>,
    corners: Seq<CornerKey>,
    key: CornerKey,
    n: nat,
)
    requires
        slots_model(slots, corners, n),
        !corners.contains(key),
        (key.0 as int) < n,
        (key.0 as int) < 0x10000,
        corners.len() <= u32::MAX,
        new_slots.len() == slots.len(),
        forall|s: int| 0 <= s < slots.len() && s != key.0 as int ==> #[trigger] new_slots[s]@ == slots[s]@,
        new_slots[key.0 as int]@ == slots[key.0 as int]@.push((key.1, key.2, key.3, corners.len() as u32)),
    ensures
        slots_model(new_slots, corners.push(key), n),
{
    let c = corners.push(key);
    assert forall|i: int, j: int| 0 <= i < c.len() && 0 <= j < c.len() && i != j implies c[i] != c[j] by {
        if i < corners.len() && j < corners.len() {
        } else if i < corners.len() {
            assert(c[i] == corners[i]);
        } else {
            assert(c[j] == corners[j]);
        }
    }
    assert(entries_name_corners(new_slots, c, n)) by {
        assert forall|s: int, j: int|
            #![trigger new_slots[s]@[j]]
            0 <= s < n && 0 <= j < new_slots[s]@.len() implies new_slots[s]@[j].3
            < c.len() && c[new_slots[s]@[j].3 as int] == (s as u16, new_slots[s]@[j].0, new_slots[s]@[j].1, new_slots[s]@[j].2) by {
            if s != key.0 as int {
                assert(new_slots[s]@[j] == slots[s]@[j]);
            } else if j < slots[s]@.len() {
                assert(new_slots[s]@[j] == slots[s]@[j]);
            } else {
                let k0 = key.0;
                assert((k0 as int) as u16 == k0) by (bit_vector);
            }
        }
    }
    assert(corners_listed(new_slots, c, n)) by {
        assert forall|i: int| 0 <= i < c.len() implies c[i].0 < n && exists|j: int|
            #![trigger new_slots[c[i].0 as int]@[j]]
            0 <= j < new_slots[c[i].0 as int]@.len() && new_slots[c[i].0 as int]@[j] == (c[i].1, c[i].2, c[i].3, i as u32) by {
            if i < corners.len() {
                assert(c[i] == corners[i]);
                let j = choose|j: int|
                    #![trigger slots[corners[i].0 as int]@[j]]
                    0 <= j < slots[corners[i].0 as int]@.len() && slots[corners[i].0 as int]@[j] == (
                        corners[i].1,
                        corners[i].2,
                        corners[i].3,
                        i as u32,
                    );
                assert(new_slots[c[i].0 as int]@[j] == slots[corners[i].0 as int]@[j]);
            } else {
                let j = slots[key.0 as int]@.len() as int;
                assert(c[i] == key);
                assert(new_slots[c[i].0 as int]@[j] == (c[i].1, c[i].2, c[i].3, i as u32));
            }
        }
    }
}

proof fn lemma_layout_fail(v: SurfacesView, written: Seq<Drawn>, lit: bool, k: nat, n: nat)
    requires
        k <= n,
        layout_upto(v, written, lit, k) is Err,
    ensures
        layout_upto(v, written, lit, n) == layout_upto(v, written, lit, k),
    decreases n - k,
{
    if k < n {
        lemma_layout_fail(v, written, lit, k, (n - 1) as nat);
    }
}

proof fn lemma_lay_corners_fail(
    v: SurfacesView,
    corners: Seq<CornerKey>,
    lp: Seq<u16>,
    texinfo: usize,
    lit_face: usize,
    group: usize,
    k: nat,
    n: nat,
)
    requires
        k <= n,
        lay_corners(v, corners, lp, texinfo, lit_face, group, k) is Err,
    ensures
        lay_corners(v, corners, lp, texinfo, lit_face, group, n) == lay_corners(v, corners, lp, texinfo, lit_face, group, k),
    decreases n - k,
{
    if k < n {
        lemma_lay_corners_fail(v, corners, lp, texinfo, lit_face, group, k, (n - 1) as nat);
    }
}

fn copy_entries(list: &Vec<SlotEntry>) -> (r: Vec<SlotEntry>)
    ensures
        r@ == list@,
{
    let mut out: Vec<SlotEntry> = Vec::new();
    let mut i: usize = 0;
    while i < list.len()
        invariant
            i <= list@.len(),
            out@ == list@.subrange(0, i as int),
        decreases list@.len() - i,
    {
        out.push(list[i]);
        i = i + 1;
        proof {
            assert(out@ =~= list@.subrange(0, i as int));
        }
    }
    proof {
        assert(list@.subrange(0, list@.len() as int) =~= list@);
    }
    out
}

/// Every surface of a written order is a face the map holds that is not a displacement.
pub open spec fn writable(v: SurfacesView, written: Seq<Drawn>) -> bool {
    forall|i: int| 0 <= i < written.len() ==> #[trigger] written[i].2 < v.faces.len() && v.faces[written[i].2 as int].displacement < 0
}

fn lay_out_written(surfaces: &Surfaces, written: &Vec<Drawn>, lit: bool) -> (r: Result<Layout>)
    requires
        writable(surfaces@, written@),
    ensures
        match r {
            Ok(l) => layout_upto(surfaces@, written@, lit, written@.len()) matches Ok(st) && l.corners@ == st.corners
                && l.indices@ == st.indices && l.batches@ == finished_batches(st) && l.runs@ == st.runs,
            Err(e) => layout_upto(surfaces@, written@, lit, written@.len()) == Err::<LayoutView, Error>(e),
        },
{
    surfaces.agreeing();
    let ghost v = surfaces@;
    let vertices = surfaces.vertices();
    let faces = surfaces.faces();
    let nverts = vertices.len();
    let mut slots: Vec<Vec<SlotEntry>> = Vec::new();
    while slots.len() < nverts
        invariant
            slots@.len() <= nverts,
            forall|s: int| 0 <= s < slots@.len() ==> (#[trigger] slots@[s])@.len() == 0,
        decreases nverts - slots@.len(),
    {
        slots.push(Vec::new());
    }
    let mut corners: Vec<CornerKey> = Vec::new();
    let mut indices: Vec<u32> = Vec::new();
    let mut batches: Vec<Batch> = Vec::new();
    let mut runs: Vec<FaceRun> = Vec::new();
    let mut open: Option<Batch> = None;
    proof {
        assert(corners@ =~= layout_start().corners);
        assert(indices@ =~= layout_start().indices);
        assert(batches@ =~= layout_start().batches);
        assert(runs@ =~= layout_start().runs);
    }
    let mut n: usize = 0;
    while n < written.len()
        invariant
            n <= written@.len(),
            v == surfaces@,
            consistent(v),
            writable(v, written@),
            vertices@ == v.vertices,
            faces@ == v.faces,
            nverts == v.vertices.len(),
            slots_model(slots@, corners@, nverts as nat),
            open matches Some(o) ==> o.first_index <= indices@.len(),
            layout_upto(v, written@, lit, n as nat) == Ok::<LayoutView, Error>(
                LayoutView { corners: corners@, indices: indices@, batches: batches@, open, runs: runs@ },
            ),
        decreases written@.len() - n,
    {
        let ghost st = LayoutView { corners: corners@, indices: indices@, batches: batches@, open, runs: runs@ };
        let (texdata, group, face, texinfo) = written[n];
        let ghost switched = switch_batch(st, texdata);
        let carry = match open {
            Some(o) => o.texdata == texdata,
            None => false,
        };
        if !carry {
            if let Some(o) = open {
                batches.push(o);
            }
            open = Some(Batch { texdata, first_index: indices.len(), index_count: 0 });
        }
        proof {
            assert(batches@ == switched.0);
            assert(open == Some(switched.1));
            assert(face_range_ok(v.faces[face as int], v.surfedges.len()));
        }
        let lp = match surfaces.face_loop(face) {
            Ok(c) => c,
            Err(e) => {
                proof {
                    lemma_layout_fail(v, written@, lit, (n + 1) as nat, written@.len());
                }
                return Err(e);
            },
        };
        let lit_face = if lit {
            face
        } else {
            0
        };
        let ghost goal = lay_corners(v, st.corners, lp@, texinfo, lit_face, group, lp@.len());
        let mut fan: Vec<u32> = Vec::new();
        let mut k: usize = 0;
        while k < lp.len()
            invariant
                k <= lp@.len(),
                v == surfaces@,
                consistent(v),
                vertices@ == v.vertices,
                nverts == v.vertices.len(),
                face < v.faces.len(),
                v.faces[face as int].displacement < 0,
                face_range_ok(v.faces[face as int], v.surfedges.len()),
                lp@ == face_loop_spec(v, face as int),
                lp@.len() >= 3,
                n < written@.len(),
                written@[n as int] == (texdata, group, face, texinfo),
                layout_upto(v, written@, lit, n as nat) == Ok::<LayoutView, Error>(st),
                goal == lay_corners(v, st.corners, lp@, texinfo, lit_face, group, lp@.len()),
                lit_face == if lit {
                    face
                } else {
                    0
                },
                slots_model(slots@, corners@, nverts as nat),
                fan@.len() == k,
                lay_corners(v, st.corners, lp@, texinfo, lit_face, group, k as nat) == Ok::<(Seq<CornerKey>, Seq<u32>), Error>(
                    (corners@, fan@),
                ),
            decreases lp@.len() - k,
        {
            let ghost f = v.faces[face as int];
            let ghost sedge = v.surfedges[f.first_surfedge + k];
            proof {
                assert(magnitude(sedge) < v.edges.len());
                assert(v.edges[magnitude(sedge) as int][0] < v.vertices.len());
            }
            let vertex = lp[k];
            let slot = vertex as usize;
            proof {
                assert(slot < 0x10000);
                assert(slot as u16 == vertex);
            }
            match find_corner(&slots, slot, texinfo, lit_face, group, Ghost(corners@)) {
                Some(index) => {
                    fan.push(index);
                },
                None => {
                    let position = vertices[slot];
                    if !finite_vertex_exec(position) {
                        proof {
                            lemma_lay_corners_fail(v, st.corners, lp@, texinfo, lit_face, group, (k + 1) as nat, lp@.len());
                            assert(layout_upto(v, written@, lit, (n + 1) as nat) == lay_surface(v, st, written@[n as int], lit));
                            lemma_layout_fail(v, written@, lit, (n + 1) as nat, written@.len());
                        }
                        return Err(Error::NonFiniteVertex(slot));
                    }
                    if corners.len() > 0xffff_ffff {
                        proof {
                            lemma_lay_corners_fail(v, st.corners, lp@, texinfo, lit_face, group, (k + 1) as nat, lp@.len());
                            assert(layout_upto(v, written@, lit, (n + 1) as nat) == lay_surface(v, st, written@[n as int], lit));
                            lemma_layout_fail(v, written@, lit, (n + 1) as nat, written@.len());
                        }
                        return Err(Error::SizeOverflow);
                    }
                    let index = corners.len() as u32;
                    let ghost old_slots = slots@;
                    let ghost old_corners = corners@;
                    let key = (vertex, texinfo, lit_face, group);
                    corners.push(key);
                    let mut list = copy_entries(&slots[slot]);
                    list.push((texinfo, lit_face, group, index));
                    slots.set(slot, list);
                    proof {
                        lemma_slots_insert(old_slots, slots@, old_corners, key, nverts as nat);
                    }
                    fan.push(index);
                },
            }
            k = k + 1;
        }
        let first_index = indices.len();
        let count = fan.len();
        let mut c: usize = 1;
        let ghost base = indices@;
        while c + 1 < count
            invariant
                1 <= c,
                count == fan@.len(),
                count >= 3,
                c <= count - 1,
                indices@ == base + fan_upto(fan@, (c - 1) as nat),
            decreases count - c,
        {
            indices.push(fan[0]);
            indices.push(fan[c]);
            indices.push(fan[c + 1]);
            proof {
                assert(indices@ =~= base + fan_upto(fan@, c as nat));
            }
            c = c + 1;
        }
        runs.push(FaceRun { face, group, batch: batches.len(), first_index, index_count: indices.len() - first_index });
        if let Some(o) = open {
            open = Some(Batch { texdata: o.texdata, first_index: o.first_index, index_count: indices.len() - o.first_index });
        }
        n = n + 1;
    }
    if let Some(o) = open {
        batches.push(o);
    }
    Ok(Layout { corners, indices, batches, runs })
}

proof fn lemma_gather_group_writable(v: SurfacesView, m: MaterialsView, group: usize, faces: Seq<usize>, n: nat)
    ensures
        gather_group(v, m, group, faces, n) matches Ok(d) ==> writable(v, d),
    decreases n,
{
    if n > 0 {
        lemma_gather_group_writable(v, m, group, faces, (n - 1) as nat);
        if let Ok(d) = gather_group(v, m, group, faces, n) {
            if let Ok(prev) = gather_group(v, m, group, faces, (n - 1) as nat) {
                assert forall|i: int| 0 <= i < d.len() implies #[trigger] d[i].2 < v.faces.len()
                    && v.faces[d[i].2 as int].displacement < 0 by {
                    if i < prev.len() {
                        assert(d[i] == prev[i]);
                    }
                }
            }
        }
    }
}

pub(crate) proof fn lemma_gather_writable(v: SurfacesView, m: MaterialsView, groups: Seq<Seq<usize>>, n: nat)
    ensures
        gather(v, m, groups, n) matches Ok(d) ==> writable(v, d),
    decreases n,
{
    if n > 0 {
        lemma_gather_writable(v, m, groups, (n - 1) as nat);
        lemma_gather_group_writable(v, m, (n - 1) as usize, groups[n - 1], groups[n - 1].len());
        if let Ok(d) = gather(v, m, groups, n) {
            if let Ok(prev) = gather(v, m, groups, (n - 1) as nat) {
                let g = gather_group(v, m, (n - 1) as usize, groups[n - 1], groups[n - 1].len())->Ok_0;
                assert forall|i: int| 0 <= i < d.len() implies #[trigger] d[i].2 < v.faces.len()
                    && v.faces[d[i].2 as int].displacement < 0 by {
                    if i < prev.len() {
                        assert(d[i] == prev[i]);
                    } else {
                        assert(d[i] == g[i - prev.len()]);
                    }
                }
            }
        }
    }
}

proof fn lemma_written_writable(v: SurfacesView, d: Seq<Drawn>, w: Seq<Drawn>)
    requires
        writable(v, d),
        w.to_multiset() == d.to_multiset(),
    ensures
        writable(v, w),
{
    broadcast use vstd::seq_lib::group_to_multiset_ensures;
    assert forall|i: int| 0 <= i < w.len() implies #[trigger] w[i].2 < v.faces.len() && v.faces[w[i].2 as int].displacement < 0 by {
        assert(w.to_multiset().count(w[i]) > 0);
        assert(d.contains(w[i]));
        let k = choose|k: int| 0 <= k < d.len() && d[k] == w[i];
        assert(d[k].2 < v.faces.len());
    }
}

impl Surfaces {
    /// Lays out the surfaces `groups` list for drawing a material at a time, with one
    /// corner per stored vertex, texture projection and group, and per surface as well
    /// where the corners carry lightmap coordinates (`lit`).
    ///
    /// The first group is the world, which the visibility set describes; every group
    /// after it is a brush model standing wherever its entity says. Surfaces are
    /// written by material, then group, then face, so each material's indices come out
    /// in one run.
    pub fn lay_out(&self, materials: &Materials, groups: &[Vec<usize>], lit: bool) -> (r: Result<Layout>)
        ensures
            match r {
                Ok(l) => layout_spec(self@, materials@, groups@.map_values(|g: Vec<usize>| g@), lit) == Ok::<LayoutView, Error>(
                    LayoutView {
                        corners: l.corners@,
                        indices: l.indices@,
                        batches: l.batches@,
                        open: None,
                        runs: l.runs@,
                    },
                ),
                Err(e) => layout_spec(self@, materials@, groups@.map_values(|g: Vec<usize>| g@), lit) == Err::<LayoutView, Error>(e),
            },
    {
        let drawn = match gather_drawn(self, materials, groups) {
            Ok(d) => d,
            Err(e) => return Err(e),
        };
        let written = sort_drawn(&drawn);
        proof {
            let gs = groups@.map_values(|g: Vec<usize>| g@);
            lemma_gather_writable(self@, materials@, gs, gs.len());
            lemma_written_writable(self@, drawn@, written@);
        }
        lay_out_written(self, &written, lit)
    }
}

// ---------------------------------------------------------------------------
// What every layout keeps
// ---------------------------------------------------------------------------

spec fn insert_drawn(s: Seq<Drawn>, x: Drawn) -> Seq<Drawn>
    decreases s.len(),
{
    if s.len() == 0 {
        seq![x]
    } else if drawn_le(x, s[0]) {
        seq![x] + s
    } else {
        seq![s[0]] + insert_drawn(s.drop_first(), x)
    }
}

spec fn sort_spec(s: Seq<Drawn>) -> Seq<Drawn>
    decreases s.len(),
{
    if s.len() == 0 {
        s
    } else {
        insert_drawn(sort_spec(s.drop_last()), s.last())
    }
}

proof fn lemma_insert_drawn(s: Seq<Drawn>, x: Drawn)
    requires
        drawn_sorted(s),
    ensures
        drawn_sorted(insert_drawn(s, x)),
        exists|p: int| 0 <= p <= s.len() && insert_drawn(s, x) == s.insert(p, x),
    decreases s.len(),
{
    let r = insert_drawn(s, x);
    if s.len() == 0 {
        assert(r =~= s.insert(0, x));
    } else if drawn_le(x, s[0]) {
        assert(r =~= s.insert(0, x));
        assert forall|i: int, j: int| 0 <= i < j < r.len() implies drawn_le(#[trigger] r[i], #[trigger] r[j]) by {
            if i == 0 {
                if j > 1 {
                    assert(drawn_le(s[0], s[j - 1]));
                }
            } else {
                assert(drawn_le(s[i - 1], s[j - 1]));
            }
        }
    } else {
        let t = s.drop_first();
        assert(drawn_sorted(t)) by {
            assert forall|i: int, j: int| 0 <= i < j < t.len() implies drawn_le(#[trigger] t[i], #[trigger] t[j]) by {
                assert(drawn_le(s[i + 1], s[j + 1]));
            }
        }
        lemma_insert_drawn(t, x);
        let u = insert_drawn(t, x);
        let p = choose|p: int| 0 <= p <= t.len() && u == t.insert(p, x);
        assert(r =~= s.insert(p + 1, x));
        lemma_drawn_le_total(x, s[0]);
        assert forall|i: int, j: int| 0 <= i < j < r.len() implies drawn_le(#[trigger] r[i], #[trigger] r[j]) by {
            if i == 0 {
                assert(r[j] == u[j - 1]);
                if j - 1 == p {
                } else if j - 1 < p {
                    assert(drawn_le(s[0], s[j]));
                } else {
                    assert(drawn_le(s[0], s[j - 1]));
                }
            } else {
                assert(r[i] == u[i - 1]);
                assert(r[j] == u[j - 1]);
            }
        }
    }
}

proof fn lemma_sort_spec(s: Seq<Drawn>)
    ensures
        drawn_sorted(sort_spec(s)),
        sort_spec(s).to_multiset() == s.to_multiset(),
    decreases s.len(),
{
    broadcast use vstd::seq_lib::group_to_multiset_ensures;
    if s.len() == 0 {
    } else {
        lemma_sort_spec(s.drop_last());
        let prev = sort_spec(s.drop_last());
        lemma_insert_drawn(prev, s.last());
        let p = choose|p: int| 0 <= p <= prev.len() && insert_drawn(prev, s.last()) == prev.insert(p, s.last());
        vstd::seq_lib::to_multiset_insert(prev, p, s.last());
        assert(s =~= s.drop_last().push(s.last()));
    }
}

/// The written order is a sorted arrangement of the surfaces.
proof fn lemma_written_order(d: Seq<Drawn>)
    ensures
        written_order(d).to_multiset() == d.to_multiset(),
        drawn_sorted(written_order(d)),
{
    lemma_sort_spec(d);
}

/// Batches laid end to end from the start of the indices to `end`.
pub open spec fn tiles(batches: Seq<Batch>, end: int) -> bool
    decreases batches.len(),
{
    if batches.len() == 0 {
        end == 0
    } else {
        tiles(batches.drop_last(), batches.last().first_index as int) && batches.last().first_index
            + batches.last().index_count == end
    }
}

/// Later batches are of later materials, so each material has one.
pub open spec fn one_per_material(batches: Seq<Batch>) -> bool {
    forall|j: int, k: int| 0 <= j < k < batches.len() ==> #[trigger] batches[j].texdata < #[trigger] batches[k].texdata
}

/// What a layout keeps after each surface it writes.
pub open spec fn layout_sound(st: LayoutView, last: Option<usize>) -> bool {
    &&& forall|i: int| 0 <= i < st.indices.len() ==> #[trigger] st.indices[i] < st.corners.len()
    &&& st.indices.len() % 3 == 0
    &&& st.batches.len() <= st.indices.len()
    &&& forall|k: int| 0 <= k < st.runs.len() ==> #[trigger] st.runs[k].batch <= st.batches.len()
        && st.runs[k].first_index + st.runs[k].index_count <= st.indices.len()
    &&& match st.open {
        None => st.batches.len() == 0 && st.indices.len() == 0 && st.runs.len() == 0 && last is None,
        Some(o) => {
            &&& tiles(st.batches, o.first_index as int)
            &&& o.first_index + o.index_count == st.indices.len()
            &&& one_per_material(st.batches.push(o))
            &&& last == Some(o.texdata)
        },
    }
}

proof fn lemma_fan_bound(fan: Seq<u32>, m: nat, bound: nat)
    requires
        m + 2 <= fan.len(),
        forall|j: int| 0 <= j < fan.len() ==> #[trigger] fan[j] < bound,
    ensures
        fan_upto(fan, m).len() == 3 * m,
        forall|i: int| 0 <= i < fan_upto(fan, m).len() ==> #[trigger] fan_upto(fan, m)[i] < bound,
    decreases m,
{
    if m > 0 {
        lemma_fan_bound(fan, (m - 1) as nat, bound);
        let before = fan_upto(fan, (m - 1) as nat);
        let tail = seq![fan[0], fan[m as int], fan[m as int + 1]];
        assert forall|i: int| 0 <= i < fan_upto(fan, m).len() implies #[trigger] fan_upto(fan, m)[i] < bound by {
            if i < before.len() {
                assert(fan_upto(fan, m)[i] == before[i]);
            } else {
                assert(fan_upto(fan, m)[i] == tail[i - before.len()]);
            }
        }
    }
}

proof fn lemma_lay_corners_bound(
    v: SurfacesView,
    corners: Seq<CornerKey>,
    lp: Seq<u16>,
    texinfo: usize,
    lit_face: usize,
    group: usize,
    k: nat,
)
    requires
        k <= lp.len(),
    ensures
        lay_corners(v, corners, lp, texinfo, lit_face, group, k) matches Ok((c, fan)) ==> c.len() >= corners.len() && fan.len()
            == k && forall|j: int| 0 <= j < fan.len() ==> #[trigger] fan[j] < c.len(),
    decreases k,
{
    if k > 0 {
        lemma_lay_corners_bound(v, corners, lp, texinfo, lit_face, group, (k - 1) as nat);
        if let Ok((c, fan)) = lay_corners(v, corners, lp, texinfo, lit_face, group, (k - 1) as nat) {
            let key = (lp[k - 1], texinfo, lit_face, group);
            if let Ok((c2, fan2)) = lay_corners(v, corners, lp, texinfo, lit_face, group, k) {
                if c.contains(key) {
                    let i = c.index_of(key);
                    assert(0 <= i < c.len());
                }
                assert forall|j: int| 0 <= j < fan2.len() implies #[trigger] fan2[j] < c2.len() by {
                    if j < fan.len() {
                        assert(fan2[j] == fan[j]);
                    }
                }
            }
        }
    }
}

proof fn lemma_runs_bound(st: LayoutView, next: LayoutView, run: FaceRun)
    requires
        forall|k: int| 0 <= k < st.runs.len() ==> #[trigger] st.runs[k].batch <= st.batches.len()
            && st.runs[k].first_index + st.runs[k].index_count <= st.indices.len(),
        next.runs == st.runs.push(run),
        next.batches.len() >= st.batches.len(),
        next.indices.len() >= st.indices.len(),
        run.batch <= next.batches.len(),
        run.first_index + run.index_count <= next.indices.len(),
    ensures
        forall|k: int| 0 <= k < next.runs.len() ==> #[trigger] next.runs[k].batch <= next.batches.len()
            && next.runs[k].first_index + next.runs[k].index_count <= next.indices.len(),
{
    assert forall|k: int| 0 <= k < next.runs.len() implies #[trigger] next.runs[k].batch <= next.batches.len()
        && next.runs[k].first_index + next.runs[k].index_count <= next.indices.len() by {
        if k < st.runs.len() {
            assert(next.runs[k] == st.runs[k]);
        }
    }
}

#[verifier::spinoff_prover]
#[verifier::rlimit(80)]
proof fn lemma_layout_sound(v: SurfacesView, written: Seq<Drawn>, lit: bool, n: nat)
    requires
        n <= written.len(),
        drawn_sorted(written),
        layout_upto(v, written, lit, n) matches Ok(st) ==> st.indices.len() <= usize::MAX,
    ensures
        layout_upto(v, written, lit, n) matches Ok(st) ==> layout_sound(
            st,
            if n == 0 {
                None
            } else {
                Some(written[n - 1].0)
            },
        ),
    decreases n,
{
    if n > 0 && layout_upto(v, written, lit, n) is Ok {
        let st = layout_upto(v, written, lit, (n - 1) as nat)->Ok_0;
        let next = layout_upto(v, written, lit, n)->Ok_0;
        assert(next.indices.len() >= st.indices.len());
        lemma_layout_sound(v, written, lit, (n - 1) as nat);
        {
            let d = written[n - 1];
            let (texdata, group, face, texinfo) = d;
            let lp = face_loop_spec(v, face as int);
            let lit_face = if lit { face } else { 0 };
            lemma_lay_corners_bound(v, st.corners, lp, texinfo, lit_face, group, lp.len());
            {
                let (batches, open) = switch_batch(st, texdata);
                let (corners, fan) = lay_corners(v, st.corners, lp, texinfo, lit_face, group, lp.len())->Ok_0;
                lemma_fan_bound(fan, (fan.len() - 2) as nat, corners.len());
                let added = fan_upto(fan, (fan.len() - 2) as nat);
                assert(next.indices.len() >= st.indices.len() + 3);
                assert(next.batches.len() <= st.batches.len() + 1);
                assert forall|i: int| 0 <= i < next.indices.len() implies #[trigger] next.indices[i] < next.corners.len() by {
                    if i < st.indices.len() {
                        assert(next.indices[i] == st.indices[i]);
                    } else {
                        assert(next.indices[i] == added[i - st.indices.len()]);
                    }
                }
                let run = FaceRun {
                    face,
                    group,
                    batch: batches.len() as usize,
                    first_index: st.indices.len() as usize,
                    index_count: (next.indices.len() - st.indices.len()) as usize,
                };
                assert(next.runs == st.runs.push(run));
                assert(next.batches == batches);
                lemma_runs_bound(st, next, run);
                if n >= 2 {
                    assert(drawn_le(written[n - 2], written[n - 1]));
                }
                let o2 = next.open->Some_0;
                match st.open {
                    None => {
                        assert(next.batches =~= Seq::<Batch>::empty());
                        assert(next.batches.push(o2) =~= seq![o2]);
                    },
                    Some(o) => {
                        if o.texdata == texdata {
                            assert(next.batches.push(o2).drop_last() =~= st.batches);
                            assert forall|j: int, k: int| 0 <= j < k < next.batches.push(o2).len() implies #[trigger] next.batches.push(
                                o2,
                            )[j].texdata < #[trigger] next.batches.push(o2)[k].texdata by {
                                let b = next.batches.push(o2);
                                let a = st.batches.push(o);
                                assert(b[j].texdata == a[j].texdata);
                                assert(b[k].texdata == a[k].texdata);
                            }
                        } else {
                            assert(o.texdata < texdata);
                            let b = next.batches.push(o2);
                            let a = st.batches.push(o);
                            assert(next.batches == a);
                            assert(b.drop_last() =~= a);
                            assert(a.drop_last() =~= st.batches);
                            assert forall|j: int, k: int| 0 <= j < k < b.len() implies #[trigger] b[j].texdata < #[trigger] b[k].texdata by {
                                if k == b.len() - 1 {
                                    if j < a.len() - 1 {
                                        assert(a[j].texdata < a[a.len() - 1].texdata);
                                    }
                                } else {
                                    assert(b[j] == a[j]);
                                    assert(b[k] == a[k]);
                                }
                            }
                        }
                    },
                }
            }
        }
    }
}

/// A layout's indices name the corners it laid out, in whole triangles; its batches
/// lie end to end across the indices, one per material in order; and every surface's
/// run lies inside the indices and names a batch there is.
pub proof fn lemma_layout_draws_whole_materials(
    v: SurfacesView,
    m: MaterialsView,
    groups: Seq<Seq<usize>>,
    lit: bool,
    l: LayoutView,
)
    requires
        layout_spec(v, m, groups, lit) == Ok::<LayoutView, Error>(l),
        l.indices.len() <= usize::MAX,
    ensures
        forall|i: int| 0 <= i < l.indices.len() ==> #[trigger] l.indices[i] < l.corners.len(),
        l.indices.len() % 3 == 0,
        tiles(l.batches, l.indices.len() as int),
        one_per_material(l.batches),
        forall|k: int| 0 <= k < l.runs.len() ==> #[trigger] l.runs[k].batch < l.batches.len() && l.runs[k].first_index
            + l.runs[k].index_count <= l.indices.len(),
{
    if let Ok(d) = gather(v, m, groups, groups.len()) {
        let written = written_order(d);
        lemma_written_order(d);
        lemma_layout_sound(v, written, lit, written.len());
        if let Ok(st) = layout_upto(v, written, lit, written.len()) {
            if let Some(o) = st.open {
                let b = st.batches.push(o);
                assert(b.drop_last() =~= st.batches);
            }
        }
    }
}

// ---------------------------------------------------------------------------
// A frame that sees everything
// ---------------------------------------------------------------------------

pub open spec fn run_end(r: FaceRun) -> int {
    r.first_index + r.index_count
}

/// The runs lie end to end across the indices, each inside the batch it names, and a
/// run starts a new batch exactly where the one before it ended.
pub open spec fn runs_follow(runs: Seq<FaceRun>, all: Seq<Batch>, end: int) -> bool {
    &&& runs.len() == 0 ==> all.len() == 0 && end == 0
    &&& runs.len() > 0 ==> {
        &&& runs[0].first_index == 0
        &&& runs[0].batch == 0
        &&& all.len() > 0
        &&& all[0].first_index == 0
        &&& runs.last().batch == all.len() - 1
        &&& run_end(runs.last()) == end
        &&& all.last().first_index + all.last().index_count == end
    }
    &&& forall|k: int| 0 <= k < runs.len() ==> (#[trigger] runs[k]).index_count > 0 && runs[k].batch < all.len()
    &&& forall|k: int|
        0 <= k < runs.len() - 1 ==> {
            &&& (#[trigger] runs[k + 1]).first_index == run_end(runs[k])
            &&& (runs[k + 1].batch == runs[k].batch || (runs[k + 1].batch == runs[k].batch + 1 && all[runs[k].batch as int].first_index
                + all[runs[k].batch as int].index_count == run_end(runs[k]) && all[runs[k + 1].batch as int].first_index
                == runs[k + 1].first_index))
        }
}

/// Every run is of a face the map holds.
pub open spec fn runs_of_faces(runs: Seq<FaceRun>, face_count: nat) -> bool {
    forall|k: int| 0 <= k < runs.len() ==> (#[trigger] runs[k]).face < face_count
}

#[verifier::spinoff_prover]
#[verifier::rlimit(80)]
proof fn lemma_layout_runs(v: SurfacesView, written: Seq<Drawn>, lit: bool, n: nat)
    requires
        n <= written.len(),
        drawn_sorted(written),
        writable(v, written),
        layout_upto(v, written, lit, n) matches Ok(st) ==> st.indices.len() <= usize::MAX,
    ensures
        layout_upto(v, written, lit, n) matches Ok(st) ==> runs_follow(st.runs, finished_batches(st), st.indices.len() as int)
            && runs_of_faces(st.runs, v.faces.len()),
    decreases n,
{
    if n > 0 && layout_upto(v, written, lit, n) is Ok {
        let st = layout_upto(v, written, lit, (n - 1) as nat)->Ok_0;
        let next = layout_upto(v, written, lit, n)->Ok_0;
        assert(next.indices.len() >= st.indices.len());
        lemma_layout_runs(v, written, lit, (n - 1) as nat);
        lemma_layout_sound(v, written, lit, (n - 1) as nat);
        lemma_layout_sound(v, written, lit, n);
        let d = written[n - 1];
        let (texdata, group, face, texinfo) = d;
        let lp = face_loop_spec(v, face as int);
        let lit_face = if lit { face } else { 0 };
        lemma_lay_corners_bound(v, st.corners, lp, texinfo, lit_face, group, lp.len());
        let (corners, fan) = lay_corners(v, st.corners, lp, texinfo, lit_face, group, lp.len())->Ok_0;
        lemma_fan_bound(fan, (fan.len() - 2) as nat, corners.len());
        assert(next.indices.len() >= st.indices.len() + 3);
        let (batches, open) = switch_batch(st, texdata);
        let run = FaceRun {
            face,
            group,
            batch: batches.len() as usize,
            first_index: st.indices.len() as usize,
            index_count: (next.indices.len() - st.indices.len()) as usize,
        };
        assert(next.runs == st.runs.push(run));
        assert(next.batches == batches);
        assert(batches.len() <= next.indices.len());
        let a = finished_batches(st);
        let a2 = finished_batches(next);
        let o2 = next.open->Some_0;
        assert(a2 == batches.push(o2));
        assert(run.batch == batches.len());
        assert(run.first_index == st.indices.len());
        assert(run_end(run) == next.indices.len());
        assert(o2.first_index + o2.index_count == next.indices.len());
        assert(face < v.faces.len()) by {
            assert(written[n - 1].2 < v.faces.len());
        }
        let runs = st.runs;
        let runs2 = next.runs;
        assert(runs_of_faces(runs2, v.faces.len())) by {
            assert forall|k: int| 0 <= k < runs2.len() implies (#[trigger] runs2[k]).face < v.faces.len() by {
                if k < runs.len() {
                    assert(runs2[k] == runs[k]);
                }
            }
        }
        match st.open {
            None => {
                assert(runs.len() == 0);
                assert(batches.len() == 0);
                assert(runs2 =~= seq![run]);
                assert(a2 =~= seq![o2]);
            },
            Some(o) => {
                assert(runs.len() > 0);
                assert(a == st.batches.push(o));
                if o.texdata == texdata {
                    assert(batches == st.batches);
                    assert(a2 =~= a.update(a.len() - 1, o2));
                    assert forall|k: int| 0 <= k < runs2.len() implies (#[trigger] runs2[k]).index_count > 0 && runs2[k].batch
                        < a2.len() by {
                        if k < runs.len() {
                            assert(runs2[k] == runs[k]);
                        }
                    }
                    assert forall|k: int| 0 <= k < runs2.len() - 1 implies {
                        &&& (#[trigger] runs2[k + 1]).first_index == run_end(runs2[k])
                        &&& (runs2[k + 1].batch == runs2[k].batch || (runs2[k + 1].batch == runs2[k].batch + 1
                            && a2[runs2[k].batch as int].first_index + a2[runs2[k].batch as int].index_count == run_end(runs2[k])
                            && a2[runs2[k + 1].batch as int].first_index == runs2[k + 1].first_index))
                    } by {
                        assert(runs2[k] == runs[k]);
                        if k + 1 < runs.len() {
                            assert(runs2[k + 1] == runs[k + 1]);
                            if runs[k + 1].batch != runs[k].batch {
                                assert(runs[k].batch < a.len() - 1);
                                assert(a2[runs[k].batch as int] == a[runs[k].batch as int]);
                                assert(runs[k + 1].batch < a.len());
                                if runs[k + 1].batch < a.len() - 1 {
                                    assert(a2[runs[k + 1].batch as int] == a[runs[k + 1].batch as int]);
                                } else {
                                    assert(a2[runs[k + 1].batch as int].first_index == o.first_index);
                                }
                            }
                        } else {
                            assert(runs2[k + 1] == run);
                        }
                    }
                } else {
                    assert(batches == st.batches.push(o));
                    assert(a2 =~= a.push(o2));
                    assert forall|k: int| 0 <= k < runs2.len() implies (#[trigger] runs2[k]).index_count > 0 && runs2[k].batch
                        < a2.len() by {
                        if k < runs.len() {
                            assert(runs2[k] == runs[k]);
                        }
                    }
                    assert forall|k: int| 0 <= k < runs2.len() - 1 implies {
                        &&& (#[trigger] runs2[k + 1]).first_index == run_end(runs2[k])
                        &&& (runs2[k + 1].batch == runs2[k].batch || (runs2[k + 1].batch == runs2[k].batch + 1
                            && a2[runs2[k].batch as int].first_index + a2[runs2[k].batch as int].index_count == run_end(runs2[k])
                            && a2[runs2[k + 1].batch as int].first_index == runs2[k + 1].first_index))
                    } by {
                        assert(runs2[k] == runs[k]);
                        assert(a2[runs[k].batch as int] == a[runs[k].batch as int]);
                        if k + 1 < runs.len() {
                            assert(runs2[k + 1] == runs[k + 1]);
                            assert(a2[runs[k + 1].batch as int] == a[runs[k + 1].batch as int]);
                        } else {
                            assert(runs2[k + 1] == run);
                        }
                    }
                }
            },
        }
    }
}

/// With every run drawn, the draws over the first `k` runs are the batches before the
/// last run's, then that batch as far as the last run reaches.
proof fn lemma_draws_rebuild(runs: Seq<FaceRun>, all: Seq<Batch>, w: VisibleFacesView, culled: Seq<bool>, k: nat)
    requires
        1 <= k <= runs.len(),
        runs_follow(runs, all, run_end(runs.last())),
        one_per_material(all),
        forall|j: int| 0 <= j < runs.len() ==> run_drawn(w, #[trigger] runs[j], culled[j]),
        forall|j: int| 0 <= j < all.len() ==> (#[trigger] all[j]).first_index + all[j].index_count <= usize::MAX,
        culled.len() == runs.len(),
    ensures
        ({
            let b = runs[k - 1].batch as int;
            draws_upto(runs, all, w, culled, k) == all.subrange(0, b).push(
                Batch {
                    texdata: all[b].texdata,
                    first_index: all[b].first_index,
                    index_count: (run_end(runs[k - 1]) - all[b].first_index) as usize,
                },
            )
        }),
        all[runs[k - 1].batch as int].first_index <= runs[k - 1].first_index,
    decreases k,
{
    assert(run_drawn(w, runs[k - 1], culled[k - 1]));
    if k == 1 {
        assert(all.subrange(0, 0) =~= Seq::<Batch>::empty());
        assert(draws_upto(runs, all, w, culled, 0) =~= Seq::<Batch>::empty());
    } else {
        lemma_draws_rebuild(runs, all, w, culled, (k - 1) as nat);
        let prev = draws_upto(runs, all, w, culled, (k - 1) as nat);
        let b = runs[k - 2].batch as int;
        let b2 = runs[k - 1].batch as int;
        let k0 = k - 2;
        assert(runs[k0 + 1].first_index == run_end(runs[k0]));
        assert(runs[k0 + 1] == runs[k - 1]);
        let d = run_draw(all, runs[k - 1]);
        if b2 == b {
            assert(prev.last().texdata == d.texdata);
            assert(extend_draws(prev, d) =~= all.subrange(0, b).push(
                Batch {
                    texdata: all[b].texdata,
                    first_index: all[b].first_index,
                    index_count: (run_end(runs[k - 1]) - all[b].first_index) as usize,
                },
            ));
        } else {
            assert(b2 == b + 1);
            assert(all[b].texdata < all[b2].texdata);
            assert(all[b].first_index + all[b].index_count == run_end(runs[k - 2]));
            assert(all[b2].first_index == runs[k - 1].first_index);
            let cur = prev.last();
            assert(cur == all[b]);
            assert(all.subrange(0, b).push(all[b]) =~= all.subrange(0, b2));
            assert(extend_draws(prev, d) =~= all.subrange(0, b2).push(
                Batch {
                    texdata: all[b2].texdata,
                    first_index: all[b2].first_index,
                    index_count: (run_end(runs[k - 1]) - all[b2].first_index) as usize,
                },
            ));
        }
    }
}

/// A frame whose view reaches every surface and every placement, and culls nothing,
/// draws exactly the batches the geometry was grouped into, in the same order: culling
/// changes only how much a frame draws, never what or in which order.
pub proof fn lemma_whole_view_draws_the_batches(
    v: SurfacesView,
    m: MaterialsView,
    groups: Seq<Seq<usize>>,
    lit: bool,
    l: LayoutView,
    w: VisibleFacesView,
    culled: Seq<bool>,
)
    requires
        layout_spec(v, m, groups, lit) == Ok::<LayoutView, Error>(l),
        l.indices.len() <= usize::MAX,
        w.seen.len() == v.faces.len(),
        forall|i: int| 0 <= i < w.seen.len() ==> #[trigger] w.seen[i],
        forall|g: int| 0 <= g < w.groups.len() ==> #[trigger] w.groups[g],
        culled.len() == l.runs.len(),
        forall|i: int| 0 <= i < culled.len() ==> !#[trigger] culled[i],
    ensures
        draws_upto(l.runs, l.batches, w, culled, l.runs.len()) == l.batches,
{
    let d = gather(v, m, groups, groups.len())->Ok_0;
    let written = written_order(d);
    lemma_written_order(d);
    lemma_gather_writable(v, m, groups, groups.len());
    lemma_written_writable(v, d, written);
    lemma_layout_sound(v, written, lit, written.len());
    lemma_layout_runs(v, written, lit, written.len());
    lemma_layout_draws_whole_materials(v, m, groups, lit, l);
    let st = layout_upto(v, written, lit, written.len())->Ok_0;
    assert(l.batches == finished_batches(st));
    assert(l.runs == st.runs);
    if l.runs.len() > 0 {
        assert forall|j: int| 0 <= j < l.runs.len() implies run_drawn(w, #[trigger] l.runs[j], culled[j]) by {
            assert(l.runs[j].face < v.faces.len());
        }
        assert forall|j: int| 0 <= j < l.batches.len() implies (#[trigger] l.batches[j]).first_index + l.batches[j].index_count
            <= usize::MAX by {
            lemma_tiles_bound(l.batches, l.indices.len() as int, j);
        }
        lemma_draws_rebuild(l.runs, l.batches, w, culled, l.runs.len());
        let b = l.runs.last().batch as int;
        assert(b == l.batches.len() - 1);
        assert(l.batches.subrange(0, b).push(l.batches[b]) =~= l.batches);
    } else {
        assert(l.batches.len() == 0);
        assert(draws_upto(l.runs, l.batches, w, culled, 0) =~= l.batches);
    }
}

proof fn lemma_follow_order(runs: Seq<FaceRun>, all: Seq<Batch>, end: int, i: int, j: int)
    requires
        runs_follow(runs, all, end),
        0 <= i < j < runs.len(),
    ensures
        run_end(runs[i]) <= runs[j].first_index,
    decreases j - i,
{
    let k = j - 1;
    assert(runs[k + 1].first_index == run_end(runs[k]));
    if i < k {
        lemma_follow_order(runs, all, end, i, k);
    }
}

/// Whatever a frame's view reaches and whatever it culls, it draws a layout's runs in
/// index order, with no draw overlapping another, and its draws cover exactly the
/// indices of the runs it draws.
pub proof fn lemma_every_view_draws_in_order(
    v: SurfacesView,
    m: MaterialsView,
    groups: Seq<Seq<usize>>,
    lit: bool,
    l: LayoutView,
    w: VisibleFacesView,
    culled: Seq<bool>,
)
    requires
        layout_spec(v, m, groups, lit) == Ok::<LayoutView, Error>(l),
        l.indices.len() <= usize::MAX,
        culled.len() == l.runs.len(),
    ensures
        runs_fit(l.runs, l.batches),
        draws_in_order(draws_upto(l.runs, l.batches, w, culled, l.runs.len())),
        draw_total(draws_upto(l.runs, l.batches, w, culled, l.runs.len())) == drawn_total(
            l.runs,
            w,
            culled,
            l.runs.len(),
        ),
{
    let d = gather(v, m, groups, groups.len())->Ok_0;
    let written = written_order(d);
    lemma_written_order(d);
    lemma_gather_writable(v, m, groups, groups.len());
    lemma_written_writable(v, d, written);
    lemma_layout_sound(v, written, lit, written.len());
    lemma_layout_runs(v, written, lit, written.len());
    let st = layout_upto(v, written, lit, written.len())->Ok_0;
    assert(l.batches == finished_batches(st));
    assert(l.runs == st.runs);
    let end = l.indices.len() as int;
    assert(runs_follow(l.runs, l.batches, end));
    assert forall|i: int, j: int| 0 <= i < j < l.runs.len() implies #[trigger] l.runs[i].first_index
        + l.runs[i].index_count <= #[trigger] l.runs[j].first_index by {
        lemma_follow_order(l.runs, l.batches, end, i, j);
    }
    assert forall|i: int| 0 <= i < l.runs.len() implies #[trigger] l.runs[i].batch < l.batches.len()
        && l.runs[i].first_index + l.runs[i].index_count <= usize::MAX by {
        let last = l.runs.len() - 1;
        if i < last {
            lemma_follow_order(l.runs, l.batches, end, i, last);
        }
    }
    lemma_draws_in_order(l.runs, l.batches, w, culled);
    lemma_draws_cover_drawn_runs(l.runs, l.batches, w, culled);
}

proof fn lemma_tiles_bound(batches: Seq<Batch>, end: int, j: int)
    requires
        tiles(batches, end),
        0 <= j < batches.len(),
    ensures
        batches[j].first_index + batches[j].index_count <= end,
    decreases batches.len(),
{
    if j < batches.len() - 1 {
        lemma_tiles_bound(batches.drop_last(), batches.last().first_index as int, j);
        assert(batches.drop_last()[j] == batches[j]);
    }
}

} // verus!
