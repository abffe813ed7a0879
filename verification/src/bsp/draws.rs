//! Choosing what a frame draws out of geometry built once for the whole world.
//!
//! The world's triangles are uploaded once, grouped a material at a time, and each
//! surface keeps a note of its run of the shared index buffer. A frame then draws the
//! runs its view reaches, merging neighbouring runs of one material into one draw.
use vstd::prelude::*;
use crate::bsp::visible::{VisibleFaces, VisibleFacesView};

verus! {

/// One material's run of indices.
#[derive(Debug, Clone, Copy, PartialEq, Eq)]
pub struct Batch {
    pub texdata: usize,
    pub first_index: usize,
    pub index_count: usize,
}

/// One surface's run of the shared index buffer.
///
/// The box the run's vertices fall in, which a view culls by, is kept beside it by
/// whoever does the culling: what the culling decided reaches [`visible_batches_by`]
/// as one verdict per run.
#[derive(Debug, Clone, Copy, PartialEq, Eq)]
pub struct FaceRun {
    pub face: usize,
    /// Which placement group this run was built under: zero for the world, and one
    /// per brush model after it, in the order they were given.
    pub group: usize,
    /// Which of the geometry's batches this run belongs to, and so which material it
    /// is drawn with.
    pub batch: usize,
    pub first_index: usize,
    pub index_count: usize,
}

/// Whether the view reaches a run: a world surface by its own mark, a placed one by
/// the group it was placed under.
pub open spec fn reaches(v: VisibleFacesView, run: FaceRun) -> bool {
    if run.group == 0 {
        run.face < v.seen.len() && v.seen[run.face as int]
    } else if run.group < v.groups.len() {
        v.groups[run.group as int]
    } else {
        true
    }
}

/// Whether a run is drawn: it has indices, the view reaches it, and it was not culled.
pub open spec fn run_drawn(v: VisibleFacesView, run: FaceRun, culled: bool) -> bool {
    run.index_count != 0 && reaches(v, run) && !culled
}

/// The draws so far with one more run of a material added: merged into the last draw
/// where it carries on where that one ends in the same material, else a draw of its own.
pub open spec fn extend_draws(out: Seq<Batch>, b: Batch) -> Seq<Batch> {
    if out.len() > 0 && out.last().texdata == b.texdata && out.last().first_index + out.last().index_count
        == b.first_index {
        out.update(
            out.len() - 1,
            Batch {
                texdata: b.texdata,
                first_index: out.last().first_index,
                index_count: (out.last().index_count + b.index_count) as usize,
            },
        )
    } else {
        out.push(b)
    }
}

/// The run's own draw, in the material of the batch it belongs to.
pub open spec fn run_draw(batches: Seq<Batch>, run: FaceRun) -> Batch {
    Batch { texdata: batches[run.batch as int].texdata, first_index: run.first_index, index_count: run.index_count }
}

/// The draws made of the first `n` runs, in order.
pub open spec fn draws_upto(
    runs: Seq<FaceRun>,
    batches: Seq<Batch>,
    v: VisibleFacesView,
    culled: Seq<bool>,
    n: nat,
) -> Seq<Batch>
    decreases n,
{
    if n == 0 {
        Seq::empty()
    } else {
        let before = draws_upto(runs, batches, v, culled, (n - 1) as nat);
        let run = runs[n - 1];
        if run_drawn(v, run, culled[n - 1]) {
            extend_draws(before, run_draw(batches, run))
        } else {
            before
        }
    }
}

/// Runs that index the batches they name and whose ends can be counted.
pub open spec fn runs_fit(runs: Seq<FaceRun>, batches: Seq<Batch>) -> bool {
    forall|i: int|
        0 <= i < runs.len() ==> #[trigger] runs[i].batch < batches.len() && runs[i].first_index + runs[i].index_count
            <= usize::MAX
}

/// How many indices a run of draws covers.
pub open spec fn draw_total(s: Seq<Batch>) -> int
    decreases s.len(),
{
    if s.len() == 0 {
        0
    } else {
        draw_total(s.drop_last()) + s.last().index_count
    }
}

/// How many indices the drawn runs among the first `n` hold.
pub open spec fn drawn_total(runs: Seq<FaceRun>, v: VisibleFacesView, culled: Seq<bool>, n: nat) -> int
    decreases n,
{
    if n == 0 {
        0
    } else {
        drawn_total(runs, v, culled, (n - 1) as nat) + if run_drawn(v, runs[n - 1], culled[n - 1]) {
            runs[n - 1].index_count as int
        } else {
            0
        }
    }
}

/// Every draw ends where it can be counted.
pub open spec fn draws_fit(s: Seq<Batch>) -> bool {
    forall|i: int| 0 <= i < s.len() ==> #[trigger] s[i].first_index + s[i].index_count <= usize::MAX
}

proof fn lemma_extend_fits(out: Seq<Batch>, b: Batch)
    requires
        draws_fit(out),
        b.first_index + b.index_count <= usize::MAX,
    ensures
        draws_fit(extend_draws(out, b)),
        draw_total(extend_draws(out, b)) == draw_total(out) + b.index_count,
{
    let e = extend_draws(out, b);
    if out.len() > 0 && out.last().texdata == b.texdata && out.last().first_index + out.last().index_count
        == b.first_index {
        assert(e.drop_last() =~= out.drop_last());
        assert forall|i: int| 0 <= i < e.len() implies #[trigger] e[i].first_index + e[i].index_count <= usize::MAX by {
            if i < e.len() - 1 {
                assert(e[i] == out[i]);
            }
        }
    } else {
        assert(e.drop_last() =~= out);
        assert forall|i: int| 0 <= i < e.len() implies #[trigger] e[i].first_index + e[i].index_count <= usize::MAX by {
            if i < e.len() - 1 {
                assert(e[i] == out[i]);
            }
        }
    }
}

proof fn lemma_draws_fit(runs: Seq<FaceRun>, batches: Seq<Batch>, v: VisibleFacesView, culled: Seq<bool>, n: nat)
    requires
        runs_fit(runs, batches),
        n <= runs.len(),
        culled.len() == runs.len(),
    ensures
        draws_fit(draws_upto(runs, batches, v, culled, n)),
        draw_total(draws_upto(runs, batches, v, culled, n)) == drawn_total(runs, v, culled, n),
    decreases n,
{
    if n > 0 {
        lemma_draws_fit(runs, batches, v, culled, (n - 1) as nat);
        let run = runs[n - 1];
        if run_drawn(v, run, culled[n - 1]) {
            lemma_extend_fits(draws_upto(runs, batches, v, culled, (n - 1) as nat), run_draw(batches, run));
        }
    }
}

/// The draws a frame makes cover exactly the indices of the runs it draws: merging
/// neighbouring runs loses and repeats nothing.
pub proof fn lemma_draws_cover_drawn_runs(
    runs: Seq<FaceRun>,
    batches: Seq<Batch>,
    v: VisibleFacesView,
    culled: Seq<bool>,
)
    requires
        runs_fit(runs, batches),
        culled.len() == runs.len(),
    ensures
        draw_total(draws_upto(runs, batches, v, culled, runs.len())) == drawn_total(runs, v, culled, runs.len()),
{
    lemma_draws_fit(runs, batches, v, culled, runs.len());
}

/// Runs written one after another: each ends at or before the start of every later one.
pub open spec fn runs_in_order(runs: Seq<FaceRun>) -> bool {
    forall|i: int, j: int|
        0 <= i < j < runs.len() ==> #[trigger] runs[i].first_index + runs[i].index_count
            <= #[trigger] runs[j].first_index
}

/// Draws in index order, none reaching into the next.
pub open spec fn draws_in_order(s: Seq<Batch>) -> bool {
    forall|i: int, j: int|
        0 <= i < j < s.len() ==> #[trigger] s[i].first_index + s[i].index_count <= #[trigger] s[j].first_index
}

/// Every draw ends at or before the start of each run from `n` on.
pub open spec fn draws_before_runs(s: Seq<Batch>, runs: Seq<FaceRun>, n: nat) -> bool {
    forall|i: int, k: int|
        0 <= i < s.len() && n <= k < runs.len() ==> #[trigger] s[i].first_index + s[i].index_count
            <= #[trigger] runs[k].first_index
}

proof fn lemma_draws_upto_in_order(
    runs: Seq<FaceRun>,
    batches: Seq<Batch>,
    v: VisibleFacesView,
    culled: Seq<bool>,
    n: nat,
)
    requires
        n <= runs.len(),
        culled.len() == runs.len(),
        runs_in_order(runs),
    ensures
        draws_in_order(draws_upto(runs, batches, v, culled, n)),
        draws_before_runs(draws_upto(runs, batches, v, culled, n), runs, n),
    decreases n,
{
    if n > 0 {
        let k = (n - 1) as nat;
        lemma_draws_upto_in_order(runs, batches, v, culled, k);
        let out = draws_upto(runs, batches, v, culled, k);
        let run = runs[k as int];
        if run_drawn(v, run, culled[k as int]) {
            let b = run_draw(batches, run);
            let e = extend_draws(out, b);
            assert forall|i: int| 0 <= i < out.len() implies #[trigger] out[i].first_index + out[i].index_count
                <= b.first_index by {
                assert(out[i].first_index + out[i].index_count <= runs[k as int].first_index);
            }
            if out.len() > 0 && out.last().texdata == b.texdata && out.last().first_index + out.last().index_count
                == b.first_index {
                let last = out.len() - 1;
                assert forall|i: int, j: int| 0 <= i < j < e.len() implies #[trigger] e[i].first_index
                    + e[i].index_count <= #[trigger] e[j].first_index by {
                    assert(e[i] == out[i]);
                    assert(e[j].first_index == out[j].first_index);
                }
                assert forall|i: int, m: int| 0 <= i < e.len() && n <= m < runs.len() implies #[trigger] e[i].first_index
                    + e[i].index_count <= #[trigger] runs[m].first_index by {
                    assert(runs[k as int].first_index + runs[k as int].index_count <= runs[m].first_index);
                    if i < last {
                        assert(e[i] == out[i]);
                        assert(out[i].first_index + out[i].index_count <= runs[k as int].first_index);
                    }
                }
            } else {
                assert forall|i: int, j: int| 0 <= i < j < e.len() implies #[trigger] e[i].first_index
                    + e[i].index_count <= #[trigger] e[j].first_index by {
                    assert(e[i] == out[i]);
                    if j < out.len() {
                        assert(e[j] == out[j]);
                    }
                }
                assert forall|i: int, m: int| 0 <= i < e.len() && n <= m < runs.len() implies #[trigger] e[i].first_index
                    + e[i].index_count <= #[trigger] runs[m].first_index by {
                    assert(runs[k as int].first_index + runs[k as int].index_count <= runs[m].first_index);
                    if i < out.len() {
                        assert(e[i] == out[i]);
                        assert(out[i].first_index + out[i].index_count <= runs[k as int].first_index);
                    }
                }
            }
        } else {
            assert forall|i: int, m: int| 0 <= i < out.len() && n <= m < runs.len() implies #[trigger] out[i].first_index
                + out[i].index_count <= #[trigger] runs[m].first_index by {
                assert(out[i].first_index + out[i].index_count <= runs[m].first_index);
            }
        }
    }
}

/// Whatever a view reaches and whatever it culls, the draws it makes of runs written one
/// after another come in index order, and none overlaps another.
pub proof fn lemma_draws_in_order(runs: Seq<FaceRun>, batches: Seq<Batch>, v: VisibleFacesView, culled: Seq<bool>)
    requires
        culled.len() == runs.len(),
        runs_in_order(runs),
    ensures
        draws_in_order(draws_upto(runs, batches, v, culled, runs.len())),
{
    lemma_draws_upto_in_order(runs, batches, v, culled, runs.len());
}

/// The runs a view reaches that survived culling, with neighbouring runs of one
/// material merged into one draw, in the order the indices were written.
///
/// The order matters: the depth buffer settles which surface is in front, but two
/// coplanar surfaces are settled by which was drawn last. `culled` holds the culling's
/// verdict on each run, all `false` where the frame culls nothing.
pub fn visible_batches_by(runs: &[FaceRun], batches: &[Batch], visible: &VisibleFaces, culled: &[bool]) -> (r: Vec<
    Batch,
>)
    requires
        runs_fit(runs@, batches@),
        culled@.len() == runs@.len(),
    ensures
        r@ == draws_upto(runs@, batches@, visible@, culled@, runs@.len()),
{
    let mut out: Vec<Batch> = Vec::new();
    let mut i: usize = 0;
    while i < runs.len()
        invariant
            i <= runs@.len(),
            runs_fit(runs@, batches@),
            culled@.len() == runs@.len(),
            out@ == draws_upto(runs@, batches@, visible@, culled@, i as nat),
        decreases runs@.len() - i,
    {
        proof {
            lemma_draws_fit(runs@, batches@, visible@, culled@, i as nat);
        }
        let run = runs[i];
        let reachable = if run.group == 0 {
            visible.contains(run.face)
        } else {
            visible.admits(run.group)
        };
        if run.index_count == 0 || !reachable || culled[i] {
            i = i + 1;
            continue;
        }
        let texdata = batches[run.batch].texdata;
        let n = out.len();
        if n > 0 && out[n - 1].texdata == texdata && out[n - 1].first_index + out[n - 1].index_count == run.first_index {
            let open = out[n - 1];
            out.set(n - 1, Batch { texdata, first_index: open.first_index, index_count: open.index_count + run.index_count });
        } else {
            out.push(Batch { texdata, first_index: run.first_index, index_count: run.index_count });
        }
        i = i + 1;
    }
    out
}

} // verus!
