//! The map's visibility set, and the surfaces it reaches from somewhere in the map.
//!
//! The compiler works out ahead of time which clusters of leaves can be seen from
//! which, and stores each cluster's row as a run-length coded bit set. A row says,
//! for every cluster, whether anything in it can be seen from the row's own cluster.
use vstd::prelude::*;
use crate::binary::{Reader, le_value, signed_value};
use crate::bsp::{Error, Result, i32_at, short_read};
use crate::bsp::records::Leaf;

verus! {

/// Which of a cluster's two rows to read: what it can see, or what it can hear.
#[derive(Debug, Clone, Copy, PartialEq, Eq)]
pub enum VisibilityKind {
    PotentiallyVisible,
    PotentiallyAudible,
}

/// The row index a stored kind number names.
pub open spec fn kind_index(kind: VisibilityKind) -> int {
    match kind {
        VisibilityKind::PotentiallyVisible => 0,
        VisibilityKind::PotentiallyAudible => 1,
    }
}

impl VisibilityKind {
    /// The kind a stored number names: `0` for sight and `1` for sound.
    pub fn from_u32(value: u32) -> (r: Result<Self>)
        ensures
            match r {
                Ok(kind) => value < 2 && kind_index(kind) == value,
                Err(e) => value >= 2 && e == Error::InvalidVisibilityHeader,
            },
    {
        match value {
            0 => Ok(VisibilityKind::PotentiallyVisible),
            1 => Ok(VisibilityKind::PotentiallyAudible),
            _ => Err(Error::InvalidVisibilityHeader),
        }
    }
}

// ---------------------------------------------------------------------------
// Run-length coded rows
// ---------------------------------------------------------------------------

/// `n` zero bytes.
pub open spec fn zero_run(n: nat) -> Seq<u8> {
    Seq::new(n, |i: int| 0u8)
}

/// The rest of a row decoded from `pos`, `done` of its `row` bytes already out: a
/// non-zero byte stands for itself, and a zero byte is followed by how many zero bytes
/// it stands for, which may be neither zero nor more than the row has left.
pub open spec fn decode_run(b: Seq<u8>, pos: int, row: nat, done: nat) -> Option<Seq<u8>>
    decreases row - done,
{
    if done >= row {
        Some(Seq::empty())
    } else if pos < 0 || pos >= b.len() {
        None
    } else if b[pos] != 0 {
        match decode_run(b, pos + 1, row, done + 1) {
            Some(t) => Some(seq![b[pos]] + t),
            None => None,
        }
    } else if pos + 1 >= b.len() {
        None
    } else {
        let count = b[pos + 1] as nat;
        if count == 0 || count > row - done {
            None
        } else {
            match decode_run(b, pos + 2, row, done + count) {
                Some(t) => Some(zero_run(count) + t),
                None => None,
            }
        }
    }
}

/// How a row decodes: a non-zero byte is that byte of the row, and a zero byte followed
/// by a count `n` is `n` zero bytes of the row, after which decoding carries on two
/// bytes further in.
pub proof fn lemma_decode_runs(b: Seq<u8>, pos: int, row: nat, done: nat)
    requires
        done < row,
        decode_run(b, pos, row, done) is Some,
    ensures
        ({
            let t = decode_run(b, pos, row, done)->Some_0;
            &&& 0 <= pos < b.len()
            &&& b[pos] != 0 ==> t[0] == b[pos] && decode_run(b, pos + 1, row, done + 1) == Some(t.drop_first())
            &&& b[pos] == 0 ==> {
                let n = b[pos + 1] as int;
                &&& pos + 1 < b.len()
                &&& 0 < n <= t.len()
                &&& forall|i: int| 0 <= i < n ==> #[trigger] t[i] == 0u8
                &&& decode_run(b, pos + 2, row, done + n as nat) == Some(t.subrange(n, t.len() as int))
            }
        }),
{
    let t = decode_run(b, pos, row, done)->Some_0;
    if b[pos] != 0 {
        let rest = decode_run(b, pos + 1, row, done + 1)->Some_0;
        assert(t.drop_first() =~= rest);
    } else {
        let n = b[pos + 1] as int;
        let rest = decode_run(b, pos + 2, row, done + n as nat)->Some_0;
        assert(t.subrange(n, t.len() as int) =~= rest);
    }
}

/// What decoding the row at `offset` gives.
pub open spec fn decode_spec(b: Seq<u8>, offset: i32, row: nat) -> core::result::Result<Seq<u8>, Error> {
    if offset < 0 {
        Err(Error::InvalidVisibilityOffset(offset))
    } else {
        match decode_run(b, offset as int, row, 0) {
            Some(r) => Ok(r),
            None => Err(Error::InvalidVisibilityRun),
        }
    }
}

/// `prefix` followed by what `rest` decodes to, if it decodes.
pub open spec fn after(prefix: Seq<u8>, rest: Option<Seq<u8>>) -> Option<Seq<u8>> {
    match rest {
        Some(t) => Some(prefix + t),
        None => None,
    }
}

/// Decodes `row_bytes` bytes of a row starting at `offset`.
pub fn decode_visibility(bytes: &[u8], offset: i32, row_bytes: usize) -> (r: Result<Vec<u8>>)
    ensures
        match r {
            Ok(v) => decode_spec(bytes@, offset, row_bytes as nat) == Ok::<Seq<u8>, Error>(v@),
            Err(e) => decode_spec(bytes@, offset, row_bytes as nat) == Err::<Seq<u8>, Error>(e),
        },
{
    if offset < 0 {
        return Err(Error::InvalidVisibilityOffset(offset));
    }
    let ghost b = bytes@;
    let mut position = offset as usize;
    let mut output: Vec<u8> = Vec::new();
    proof {
        assert(output@ + Seq::<u8>::empty() =~= output@);
    }
    while output.len() < row_bytes
        invariant
            b == bytes@,
            offset >= 0,
            output@.len() <= row_bytes,
            decode_run(b, offset as int, row_bytes as nat, 0) == after(
                output@,
                decode_run(b, position as int, row_bytes as nat, output@.len()),
            ),
        decreases row_bytes - output@.len(),
    {
        if position >= bytes.len() {
            return Err(Error::InvalidVisibilityRun);
        }
        let byte = bytes[position];
        position = position + 1;
        if byte != 0 {
            proof {
                assert(output@.push(byte) =~= output@ + seq![byte]);
                let rest = decode_run(b, position as int, row_bytes as nat, output@.len() + 1);
                if rest is Some {
                    assert(output@ + (seq![byte] + rest->Some_0) =~= output@.push(byte) + rest->Some_0);
                }
            }
            output.push(byte);
            continue;
        }
        if position >= bytes.len() {
            return Err(Error::InvalidVisibilityRun);
        }
        let count = bytes[position] as usize;
        position = position + 1;
        if count == 0 || count > row_bytes - output.len() {
            return Err(Error::InvalidVisibilityRun);
        }
        let ghost before = output@;
        let target = output.len() + count;
        while output.len() < target
            invariant
                before.len() <= output@.len() <= target,
                target == before.len() + count,
                output@ == before + zero_run((output@.len() - before.len()) as nat),
            decreases target - output@.len(),
        {
            output.push(0);
            proof {
                assert(output@ =~= before + zero_run((output@.len() - before.len()) as nat));
            }
        }
        proof {
            let rest = decode_run(b, position as int, row_bytes as nat, output@.len());
            if rest is Some {
                assert(before + (zero_run(count as nat) + rest->Some_0) =~= output@ + rest->Some_0);
            }
        }
    }
    proof {
        assert(output@ + Seq::<u8>::empty() =~= output@);
    }
    Ok(output)
}

// ---------------------------------------------------------------------------
// The visibility lump
// ---------------------------------------------------------------------------

/// The visibility lump: each cluster's two row offsets, and the bytes they point into.
#[derive(Debug, Clone)]
pub struct Visibility {
    offsets: Vec<[i32; 2]>,
    bytes: Vec<u8>,
}

pub struct VisibilityView {
    pub offsets: Seq<[i32; 2]>,
    pub bytes: Seq<u8>,
}

impl View for Visibility {
    type V = VisibilityView;

    closed spec fn view(&self) -> VisibilityView {
        VisibilityView { offsets: self.offsets@, bytes: self.bytes@ }
    }
}

/// A row offset is either absent (`-1`) or points past the table and into the lump.
pub open spec fn offset_ok(offset: i32, table: int, len: nat) -> bool {
    offset == -1 || (offset >= 0 && offset >= table && offset < len)
}

/// The first of the row offsets from entry `k` on that is not usable, of `2 * n` entries.
pub open spec fn first_bad_offset(s: Seq<u8>, table: int, k: nat, n: nat) -> Option<i32>
    decreases 2 * n - k,
{
    if k >= 2 * n {
        None
    } else if !offset_ok(i32_at(s, 4 + 4 * k as int), table, s.len()) {
        Some(i32_at(s, 4 + 4 * k as int))
    } else {
        first_bad_offset(s, table, k + 1, n)
    }
}

/// What a visibility lump parses to: nothing for an empty lump.
pub open spec fn visibility_spec(s: Seq<u8>) -> core::result::Result<Option<VisibilityView>, Error> {
    if s.len() == 0 {
        Ok(None)
    } else if s.len() < 4 {
        Err(short_read(s, 0))
    } else {
        let count = i32_at(s, 0) as int;
        let table = count * 8 + 4;
        if count < 0 || table > usize::MAX || table > s.len() {
            Err(Error::InvalidVisibilityHeader)
        } else {
            match first_bad_offset(s, table, 0, count as nat) {
                Some(offset) => Err(Error::InvalidVisibilityOffset(offset)),
                None => Ok(
                    Some(
                        VisibilityView {
                            offsets: Seq::new(count as nat, |k: int| [i32_at(s, 4 + 8 * k), i32_at(s, 8 + 8 * k)]),
                            bytes: s,
                        },
                    ),
                ),
            }
        }
    }
}

fn check_offset(offset: i32, table_size: usize, len: usize) -> (r: Result<()>)
    ensures
        match r {
            Ok(_) => offset_ok(offset, table_size as int, len as nat),
            Err(e) => !offset_ok(offset, table_size as int, len as nat) && e == Error::InvalidVisibilityOffset(offset),
        },
{
    if offset != -1 && (offset < 0 || (offset as usize) < table_size || (offset as usize) >= len) {
        return Err(Error::InvalidVisibilityOffset(offset));
    }
    Ok(())
}

pub fn parse_visibility(bytes: &[u8]) -> (r: Result<Option<Visibility>>)
    ensures
        match r {
            Ok(None) => visibility_spec(bytes@) == Ok::<Option<VisibilityView>, Error>(None),
            Ok(Some(v)) => visibility_spec(bytes@) == Ok::<Option<VisibilityView>, Error>(Some(v@)),
            Err(e) => visibility_spec(bytes@) == Err::<Option<VisibilityView>, Error>(e),
        },
{
    let ghost s = bytes@;
    if bytes.len() == 0 {
        return Ok(None);
    }
    let mut reader = Reader::new(bytes);
    let cluster_count = match reader.read_i32_le() {
        Ok(v) => v,
        Err(e) => {
            proof {
                assert((s.len() - 0) / 4 == 0);
            }
            return Err(Error::Binary(e));
        },
    };
    if cluster_count < 0 {
        return Err(Error::InvalidVisibilityHeader);
    }
    let count = cluster_count as usize;
    let table_size = match count.checked_mul(8) {
        Some(size) => match size.checked_add(4) {
            Some(size) => size,
            None => return Err(Error::InvalidVisibilityHeader),
        },
        None => return Err(Error::InvalidVisibilityHeader),
    };
    if table_size > bytes.len() {
        return Err(Error::InvalidVisibilityHeader);
    }
    let mut offsets: Vec<[i32; 2]> = Vec::new();
    let mut k: usize = 0;
    while k < count
        invariant
            s == bytes@,
            count == i32_at(s, 0),
            table_size == count * 8 + 4,
            table_size <= s.len(),
            k <= count,
            offsets@.len() == k,
            reader.wf(),
            reader.data() == s,
            reader.pos() == 4 + 8 * k,
            first_bad_offset(s, table_size as int, 0, count as nat) == first_bad_offset(s, table_size as int, 2 * k as nat, count as nat),
            forall|j: int| 0 <= j < k ==> #[trigger] offsets@[j] == [i32_at(s, 4 + 8 * j), i32_at(s, 8 + 8 * j)],
        decreases count - k,
    {
        let first = match reader.read_i32_le() {
            Ok(v) => v,
            Err(e) => return Err(Error::Binary(e)),
        };
        let second = match reader.read_i32_le() {
            Ok(v) => v,
            Err(e) => return Err(Error::Binary(e)),
        };
        proof {
            assert(4 + 4 * (2 * k) == 4 + 8 * k);
            assert(4 + 4 * (2 * k + 1) == 8 + 8 * k);
        }
        let ghost table = table_size as int;
        let ghost n = count as nat;
        assert(first == i32_at(s, 4 + 4 * (2 * k) as int));
        assert(second == i32_at(s, 4 + 4 * (2 * k + 1) as int));
        check_offset(first, table_size, bytes.len())?;
        assert(first_bad_offset(s, table, (2 * k) as nat, n) == first_bad_offset(s, table, (2 * k + 1) as nat, n));
        check_offset(second, table_size, bytes.len())?;
        assert(first_bad_offset(s, table, (2 * k + 1) as nat, n) == first_bad_offset(s, table, (2 * k + 2) as nat, n));
        offsets.push([first, second]);
        k = k + 1;
    }
    proof {
        assert(offsets@ =~= Seq::new(count as nat, |k: int| [i32_at(s, 4 + 8 * k), i32_at(s, 8 + 8 * k)]));
    }
    Ok(Some(Visibility { offsets, bytes: vstd::slice::slice_to_vec(bytes) }))
}

/// `n` bytes of all ones: every cluster visible.
pub open spec fn all_visible(n: nat) -> Seq<u8> {
    Seq::new(n, |i: int| 0xffu8)
}

fn all_visible_row(n: usize) -> (r: Vec<u8>)
    ensures
        r@ == all_visible(n as nat),
{
    let mut row: Vec<u8> = Vec::new();
    while row.len() < n
        invariant
            row@.len() <= n,
            row@ == all_visible(row@.len()),
        decreases n - row@.len(),
    {
        row.push(0xff);
        proof {
            assert(row@ =~= all_visible(row@.len()));
        }
    }
    row
}

/// What a cluster's row is: refused for a cluster the map does not have, every cluster
/// where the map has no visibility set or no row for it, and otherwise the stored row.
pub open spec fn row_spec(v: Option<VisibilityView>, cluster_count: nat, cluster: nat, kind: VisibilityKind) -> core::result::Result<Seq<u8>, Error> {
    let row_bytes = (cluster_count + 7) / 8;
    if cluster >= cluster_count {
        Err(Error::InvalidCluster(if cluster > i32::MAX { i32::MAX } else { cluster as i32 }))
    } else {
        match v {
            None => Ok(all_visible(row_bytes)),
            Some(vis) => {
                let offset = vis.offsets[cluster as int][kind_index(kind)];
                if offset == -1 {
                    Ok(all_visible(row_bytes))
                } else {
                    decode_spec(vis.bytes, offset, row_bytes)
                }
            },
        }
    }
}

/// The row of `cluster`: which of the map's clusters can be seen, or heard, from it.
pub fn cluster_row(visibility: Option<&Visibility>, cluster_count: usize, cluster: usize, kind: VisibilityKind) -> (r: Result<Vec<u8>>)
    requires
        visibility matches Some(v) ==> v@.offsets.len() == cluster_count,
    ensures
        match r {
            Ok(row) => row_spec(match visibility { Some(v) => Some(v@), None => None }, cluster_count as nat, cluster as nat, kind) == Ok::<Seq<u8>, Error>(row@),
            Err(e) => row_spec(match visibility { Some(v) => Some(v@), None => None }, cluster_count as nat, cluster as nat, kind) == Err::<Seq<u8>, Error>(e),
        },
{
    if cluster >= cluster_count {
        let reported: i32 = if cluster > i32::MAX as usize { i32::MAX } else { cluster as i32 };
        return Err(Error::InvalidCluster(reported));
    }
    let row_bytes = cluster_count / 8 + if cluster_count % 8 == 0 { 0 } else { 1 };
    proof {
        assert(row_bytes == (cluster_count + 7) / 8);
    }
    match visibility {
        None => Ok(all_visible_row(row_bytes)),
        Some(vis) => {
            let pair = vis.offsets[cluster];
            let offset = match kind {
                VisibilityKind::PotentiallyVisible => pair[0],
                VisibilityKind::PotentiallyAudible => pair[1],
            };
            if offset == -1 {
                return Ok(all_visible_row(row_bytes));
            }
            decode_visibility(&vis.bytes, offset, row_bytes)
        },
    }
}

impl Visibility {
    /// How many clusters the set has a row for.
    pub fn cluster_count(&self) -> (r: usize)
        ensures
            r == self@.offsets.len(),
    {
        self.offsets.len()
    }
}

// ---------------------------------------------------------------------------
// The surfaces a view reaches
// ---------------------------------------------------------------------------

/// How many entries are set.
pub open spec fn count_set(s: Seq<bool>) -> nat
    decreases s.len(),
{
    if s.len() == 0 {
        0
    } else {
        count_set(s.drop_last()) + if s.last() { 1nat } else { 0nat }
    }
}

/// Setting an unset entry counts one more.
pub proof fn lemma_count_set_update(s: Seq<bool>, i: int)
    requires
        0 <= i < s.len(),
        !s[i],
    ensures
        count_set(s.update(i, true)) == count_set(s) + 1,
        count_set(s) < s.len(),
    decreases s.len(),
{
    let t = s.update(i, true);
    if i == s.len() - 1 {
        assert(t.drop_last() =~= s.drop_last());
        lemma_count_set_bound(s.drop_last());
    } else {
        assert(t.drop_last() =~= s.drop_last().update(i, true));
        lemma_count_set_update(s.drop_last(), i);
    }
}

pub proof fn lemma_count_set_bound(s: Seq<bool>)
    ensures
        count_set(s) <= s.len(),
    decreases s.len(),
{
    if s.len() > 0 {
        lemma_count_set_bound(s.drop_last());
    }
}

/// `n` unset entries.
pub open spec fn none_set(n: nat) -> Seq<bool> {
    Seq::new(n, |i: int| false)
}

/// `n` set entries.
pub open spec fn all_set(n: nat) -> Seq<bool> {
    Seq::new(n, |i: int| true)
}

pub proof fn lemma_count_uniform(n: nat)
    ensures
        count_set(none_set(n)) == 0,
        count_set(all_set(n)) == n,
    decreases n,
{
    if n > 0 {
        assert(none_set(n).drop_last() =~= none_set((n - 1) as nat));
        assert(all_set(n).drop_last() =~= all_set((n - 1) as nat));
        lemma_count_uniform((n - 1) as nat);
    }
}

/// The indices of the set entries among the first `n`, ascending.
pub open spec fn set_indices(s: Seq<bool>, n: nat) -> Seq<usize>
    decreases n,
{
    if n == 0 {
        Seq::empty()
    } else {
        let prev = set_indices(s, (n - 1) as nat);
        if s[n - 1] {
            prev.push((n - 1) as usize)
        } else {
            prev
        }
    }
}

/// Whether a leaf is one the row admits: every leaf without a row; with one, a leaf
/// whose cluster's bit is set, never a leaf with no cluster, which is solid.
pub open spec fn admitted(row: Option<Seq<u8>>, leaf: Leaf) -> bool {
    match row {
        None => true,
        Some(r) => leaf.cluster >= 0 && r[leaf.cluster / 8] & (1u8 << ((leaf.cluster % 8) as u8)) != 0,
    }
}

/// `seen` with each listed face marked, or the first listed face it does not have.
pub open spec fn mark_faces(seen: Seq<bool>, listed: Seq<u16>) -> core::result::Result<Seq<bool>, usize>
    decreases listed.len(),
{
    if listed.len() == 0 {
        Ok(seen)
    } else if listed[0] >= seen.len() {
        Err(listed[0] as usize)
    } else {
        mark_faces(seen.update(listed[0] as int, true), listed.drop_first())
    }
}

/// The faces marked and leaves admitted after walking the rest of the leaves.
pub open spec fn select_spec(
    leaves: Seq<Leaf>,
    leaf_faces: Seq<u16>,
    row: Option<Seq<u8>>,
    seen: Seq<bool>,
    visible: nat,
) -> core::result::Result<(Seq<bool>, nat), Error>
    decreases leaves.len(),
{
    if leaves.len() == 0 {
        Ok((seen, visible))
    } else {
        let leaf = leaves[0];
        if !admitted(row, leaf) {
            select_spec(leaves.drop_first(), leaf_faces, row, seen, visible)
        } else {
            let first = leaf.first_leaf_face as int;
            let end = first + leaf.leaf_face_count;
            if end > leaf_faces.len() {
                Err(Error::InvalidLeafFaceRun { first: first as usize, end: end as usize })
            } else {
                match mark_faces(seen, leaf_faces.subrange(first, end)) {
                    Err(face) => Err(Error::InvalidFaceIndex(face)),
                    Ok(marked) => select_spec(leaves.drop_first(), leaf_faces, row, marked, visible + 1),
                }
            }
        }
    }
}

proof fn lemma_set_indices_prefix(s: Seq<bool>, n: nat)
    requires
        n <= s.len(),
        s.len() <= usize::MAX,
    ensures
        set_indices(s, n).len() == count_set(s.subrange(0, n as int)),
        forall|i: int, j: int| 0 <= i < j < set_indices(s, n).len() ==> #[trigger] set_indices(s, n)[i]
            < #[trigger] set_indices(s, n)[j],
        forall|i: int| 0 <= i < set_indices(s, n).len() ==> #[trigger] set_indices(s, n)[i] < n && s[set_indices(
            s,
            n,
        )[i] as int],
        forall|x: int| 0 <= x < n && #[trigger] s[x] ==> set_indices(s, n).contains(x as usize),
    decreases n,
{
    if n > 0 {
        let k = (n - 1) as nat;
        lemma_set_indices_prefix(s, k);
        assert(s.subrange(0, n as int).drop_last() =~= s.subrange(0, k as int));
        let prev = set_indices(s, k);
        let cur = set_indices(s, n);
        if s[k as int] {
            assert(cur == prev.push(k as usize));
            assert forall|i: int| 0 <= i < cur.len() implies #[trigger] cur[i] < n && s[cur[i] as int] by {
                if i < prev.len() {
                    assert(cur[i] == prev[i]);
                }
            }
            assert forall|i: int, j: int| 0 <= i < j < cur.len() implies #[trigger] cur[i] < #[trigger] cur[j] by {
                assert(cur[i] == prev[i]);
                if j < prev.len() {
                    assert(cur[j] == prev[j]);
                }
            }
        } else {
            assert(cur == prev);
        }
        assert forall|x: int| 0 <= x < n && #[trigger] s[x] implies cur.contains(x as usize) by {
            if x < k {
                let i = choose|i: int| 0 <= i < prev.len() && prev[i] == x as usize;
                if s[k as int] {
                    assert(cur[i] == prev[i]);
                }
            } else {
                assert(cur[prev.len() as int] == x as usize);
            }
        }
    }
}

/// A set's surfaces are listed ascending, each once: exactly those it holds, as many as
/// it counts.
pub proof fn lemma_faces_are_the_selected(seen: Seq<bool>)
    requires
        seen.len() <= usize::MAX,
    ensures
        set_indices(seen, seen.len()).len() == count_set(seen),
        forall|i: int, j: int| 0 <= i < j < set_indices(seen, seen.len()).len() ==> #[trigger] set_indices(
            seen,
            seen.len(),
        )[i] < #[trigger] set_indices(seen, seen.len())[j],
        forall|x: usize| set_indices(seen, seen.len()).contains(x) <==> (x < seen.len() && seen[x as int]),
{
    lemma_set_indices_prefix(seen, seen.len());
    assert(seen.subrange(0, seen.len() as int) =~= seen);
    let f = set_indices(seen, seen.len());
    assert forall|x: usize| f.contains(x) <==> (x < seen.len() && seen[x as int]) by {
        if f.contains(x) {
            let i = choose|i: int| 0 <= i < f.len() && f[i] == x;
            assert(f[i] < seen.len() && seen[f[i] as int]);
        }
        if x < seen.len() && seen[x as int] {
            assert(seen[x as int]);
        }
    }
}

/// Whether a view admits placement group `group`: every group until the view has been
/// told what was placed.
pub open spec fn group_admitted(v: VisibleFacesView, group: int) -> bool {
    if 0 <= group < v.groups.len() {
        v.groups[group]
    } else {
        true
    }
}

/// Whether a view admits a model whose middle, once placed, lands in a leaf of cluster
/// `landing`: every model where the view has no row, or where the landing is unknown or
/// in solid, which is most likely a door in its own frame; otherwise by its cluster's
/// bit in the row.
pub open spec fn landing_admitted(row: Option<Seq<u8>>, landing: Option<i16>) -> bool {
    match row {
        None => true,
        Some(r) => match landing {
            Some(c) => c < 0 || r[c / 8] & (1u8 << ((c % 8) as u8)) != 0,
            None => true,
        },
    }
}

/// The groups a view admits once `landings.len()` models are placed: the world, then
/// each placed model by where it lands.
pub open spec fn placed_groups(row: Option<Seq<u8>>, landings: Seq<Option<i16>>) -> Seq<bool> {
    Seq::new(landings.len() + 1, |g: int| g == 0 || landing_admitted(row, landings[g - 1]))
}

/// A row long enough to hold the bit of a landing's cluster, where it has one.
pub open spec fn landing_fits(r: Seq<u8>, landing: Option<i16>) -> bool {
    match landing {
        Some(c) => c < 0 || c / 8 < r.len(),
        None => true,
    }
}

/// A row long enough to hold the bit of every cluster a model lands in.
pub open spec fn landings_covered(row: Option<Seq<u8>>, landings: Seq<Option<i16>>) -> bool {
    row matches Some(r) ==> forall|i: int| 0 <= i < landings.len() ==> landing_fits(r, #[trigger] landings[i])
}

/// Before anything is placed a view admits every group; once models are placed it
/// admits the world, every group past the placed ones, and, where it has no row of the
/// visibility set, every group.
pub proof fn lemma_placing_admits(v: VisibleFacesView, landings: Seq<Option<i16>>)
    ensures
        v.groups.len() == 0 ==> forall|g: int| #[trigger] group_admitted(v, g),
        ({
            let w = VisibleFacesView { groups: placed_groups(v.row, landings), ..v };
            &&& group_admitted(w, 0)
            &&& forall|g: int| g > landings.len() ==> #[trigger] group_admitted(w, g)
            &&& v.row is None ==> forall|g: int| #[trigger] group_admitted(w, g)
        }),
{
}

/// A row long enough to hold the bit of every leaf's cluster.
pub open spec fn row_covers(row: Option<Seq<u8>>, leaves: Seq<Leaf>) -> bool {
    row matches Some(r) ==> forall|i: int| 0 <= i < leaves.len() && #[trigger] leaves[i].cluster >= 0 ==> leaves[i].cluster / 8 < r.len()
}

/// The bytes an optional row holds.
pub open spec fn opt_view(row: Option<Vec<u8>>) -> Option<Seq<u8>> {
    match row {
        Some(v) => Some(v@),
        None => None,
    }
}

/// The surfaces the map's visibility set reaches from somewhere in it.
#[derive(Debug)]
pub struct VisibleFaces {
    seen: Vec<bool>,
    faces: usize,
    /// How many leaves the visibility set admitted.
    visible_leaves: usize,
    /// The viewpoint's own row of the visibility set, kept so brush models can be tested against it.
    row: Option<Vec<u8>>,
    /// Which placement groups the view admits, empty until a caller says what it placed.
    groups: Vec<bool>,
}

pub struct VisibleFacesView {
    pub seen: Seq<bool>,
    pub visible_leaves: nat,
    pub row: Option<Seq<u8>>,
    pub groups: Seq<bool>,
}

impl View for VisibleFaces {
    type V = VisibleFacesView;

    closed spec fn view(&self) -> VisibleFacesView {
        VisibleFacesView {
            seen: self.seen@,
            visible_leaves: self.visible_leaves as nat,
            row: opt_view(self.row),
            groups: self.groups@,
        }
    }
}

fn uniform(n: usize, value: bool) -> (r: Vec<bool>)
    ensures
        r@ == Seq::new(n as nat, |i: int| value),
{
    let mut out: Vec<bool> = Vec::new();
    while out.len() < n
        invariant
            out@.len() <= n,
            out@ == Seq::new(out@.len(), |i: int| value),
        decreases n - out@.len(),
    {
        out.push(value);
        proof {
            assert(out@ =~= Seq::new(out@.len(), |i: int| value));
        }
    }
    out
}

impl Clone for VisibleFaces {
    fn clone(&self) -> (r: Self)
        ensures
            r@ == self@,
    {
        proof {
            use_type_invariant(self);
        }
        let row = match &self.row {
            Some(v) => Some(v.clone()),
            None => None,
        };
        VisibleFaces {
            seen: self.seen.clone(),
            faces: self.faces,
            visible_leaves: self.visible_leaves,
            row,
            groups: self.groups.clone(),
        }
    }
}

impl VisibleFaces {
    #[verifier::type_invariant]
    closed spec fn inv(&self) -> bool {
        self.faces == count_set(self.seen@)
    }

    /// Selects the surfaces reachable through a viewpoint's row of the visibility set,
    /// `face_count` of them in all.
    ///
    /// Without a row, which is where the viewpoint has left the map and its leaf has no
    /// cluster, every leaf is admitted: drawing nothing would be worse than drawing too
    /// much. With one, a leaf is admitted where its cluster's bit is set.
    pub fn select_with_row(leaves: &[Leaf], leaf_faces: &[u16], face_count: usize, row: Option<Vec<u8>>) -> (r: Result<Self>)
        requires
            row_covers(opt_view(row), leaves@),
        ensures
            ({
                let row_view = opt_view(row);
                match r {
                    Ok(v) => select_spec(leaves@, leaf_faces@, row_view, none_set(face_count as nat), 0) == Ok::<(Seq<bool>, nat), Error>((v@.seen, v@.visible_leaves))
                        && v@.row == row_view && v@.groups.len() == 0,
                    Err(e) => select_spec(leaves@, leaf_faces@, row_view, none_set(face_count as nat), 0) == Err::<(Seq<bool>, nat), Error>(e),
                }
            }),
    {
        let ghost row_view = opt_view(row);
        let mut seen = uniform(face_count, false);
        let mut count: usize = 0;
        let mut visible_leaves: usize = 0;
        proof {
            lemma_count_uniform(face_count as nat);
            assert(seen@ =~= none_set(face_count as nat));
            assert(leaves@.subrange(0, leaves@.len() as int) =~= leaves@);
        }
        let mut i: usize = 0;
        while i < leaves.len()
            invariant
                i <= leaves@.len(),
                row_view == opt_view(row),
                row_covers(row_view, leaves@),
                seen@.len() == face_count,
                count == count_set(seen@),
                visible_leaves <= i,
                select_spec(leaves@, leaf_faces@, row_view, none_set(face_count as nat), 0) == select_spec(
                    leaves@.subrange(i as int, leaves@.len() as int),
                    leaf_faces@,
                    row_view,
                    seen@,
                    visible_leaves as nat,
                ),
            decreases leaves@.len() - i,
        {
            let ghost rest = leaves@.subrange(i as int, leaves@.len() as int);
            proof {
                assert(rest[0] == leaves@[i as int]);
                assert(rest.drop_first() =~= leaves@.subrange(i + 1, leaves@.len() as int));
            }
            let entry = &leaves[i];
            let reachable = match &row {
                Some(bits) => {
                    if entry.cluster >= 0 {
                        let cluster = entry.cluster as usize;
                        proof {
                            assert(leaves@[i as int].cluster >= 0);
                        }
                        bits[cluster / 8] & (1u8 << ((cluster % 8) as u8)) != 0
                    } else {
                        false
                    }
                },
                None => true,
            };
            proof {
                assert(reachable == admitted(row_view, leaves@[i as int]));
            }
            if !reachable {
                i = i + 1;
                continue;
            }
            visible_leaves = visible_leaves + 1;
            let first = entry.first_leaf_face as usize;
            let end = first + entry.leaf_face_count as usize;
            if end > leaf_faces.len() {
                return Err(Error::InvalidLeafFaceRun { first, end });
            }
            let ghost listed = leaf_faces@.subrange(first as int, end as int);
            let ghost before = seen@;
            let ghost goal = select_spec(leaves@, leaf_faces@, row_view, none_set(face_count as nat), 0);
            let ghost next = leaves@.subrange(i + 1, leaves@.len() as int);
            proof {
                assert(listed.subrange(0, listed.len() as int) =~= listed);
                assert(goal == match mark_faces(before, listed) {
                    Err(face) => Err(Error::InvalidFaceIndex(face)),
                    Ok(marked) => select_spec(next, leaf_faces@, row_view, marked, visible_leaves as nat),
                });
            }
            let mut j: usize = first;
            while j < end
                invariant
                    goal == match mark_faces(before, listed) {
                        Err(face) => Err(Error::InvalidFaceIndex(face)),
                        Ok(marked) => select_spec(next, leaf_faces@, row_view, marked, visible_leaves as nat),
                    },
                    row_view == opt_view(row),
                    goal == select_spec(leaves@, leaf_faces@, row_view, none_set(face_count as nat), 0),
                    first <= j <= end <= leaf_faces@.len(),
                    listed == leaf_faces@.subrange(first as int, end as int),
                    seen@.len() == face_count,
                    count == count_set(seen@),
                    mark_faces(before, listed) == mark_faces(seen@, listed.subrange(j - first, listed.len() as int)),
                decreases end - j,
            {
                let ghost tail = listed.subrange(j - first, listed.len() as int);
                proof {
                    assert(tail[0] == leaf_faces@[j as int]);
                    assert(tail.drop_first() =~= listed.subrange(j + 1 - first, listed.len() as int));
                }
                let face = leaf_faces[j] as usize;
                if face >= seen.len() {
                    proof {
                        assert(mark_faces(seen@, tail) == Err::<Seq<bool>, usize>(face));
                    }
                    return Err(Error::InvalidFaceIndex(face));
                }
                if !seen[face] {
                    proof {
                        lemma_count_set_update(seen@, face as int);
                    }
                    seen.set(face, true);
                    count = count + 1;
                } else {
                    proof {
                        assert(seen@.update(face as int, true) =~= seen@);
                    }
                }
                j = j + 1;
            }
            proof {
                assert(listed.subrange(listed.len() as int, listed.len() as int).len() == 0);
            }
            i = i + 1;
        }
        Ok(VisibleFaces { seen, faces: count, visible_leaves, row, groups: Vec::new() })
    }

    /// Every one of `face_count` surfaces, for drawing without culling.
    pub fn everything_of(face_count: usize) -> (r: Self)
        ensures
            r@.seen == all_set(face_count as nat),
            r@.visible_leaves == 0,
            r@.row is None,
            r@.groups.len() == 0,
    {
        let seen = uniform(face_count, true);
        proof {
            lemma_count_uniform(face_count as nat);
            assert(seen@ =~= all_set(face_count as nat));
        }
        VisibleFaces { seen, faces: face_count, visible_leaves: 0, row: None, groups: Vec::new() }
    }

    /// Whether a placement group has anything to draw in this view: every group does
    /// until the view has been told what was placed.
    pub fn admits(&self, group: usize) -> (r: bool)
        ensures
            r == group_admitted(self@, group as int),
    {
        if group < self.groups.len() {
            self.groups[group]
        } else {
            true
        }
    }

    pub fn contains(&self, face: usize) -> (r: bool)
        ensures
            r == (face < self@.seen.len() && self@.seen[face as int]),
    {
        if face < self.seen.len() {
            self.seen[face]
        } else {
            false
        }
    }

    /// How many surfaces were selected.
    pub fn len(&self) -> (r: usize)
        ensures
            r == count_set(self@.seen),
    {
        proof {
            use_type_invariant(self);
        }
        self.faces
    }

    pub fn is_empty(&self) -> (r: bool)
        ensures
            r == (count_set(self@.seen) == 0),
    {
        proof {
            use_type_invariant(self);
        }
        self.faces == 0
    }

    /// How many surfaces the map holds, selected or not.
    pub fn total(&self) -> (r: usize)
        ensures
            r == self@.seen.len(),
    {
        self.seen.len()
    }

    /// How many leaves the visibility set admitted.
    pub fn visible_leaves(&self) -> (r: usize)
        ensures
            r == self@.visible_leaves,
    {
        self.visible_leaves
    }

    /// The viewpoint's row of the visibility set, where it had one.
    pub fn row(&self) -> (r: Option<&Vec<u8>>)
        ensures
            match r {
                Some(v) => self@.row == Some(v@),
                None => self@.row is None,
            },
    {
        match &self.row {
            Some(v) => Some(v),
            None => None,
        }
    }

    /// Records which placement groups the view admits, group zero being the world.
    pub fn with_groups(self, groups: Vec<bool>) -> (r: Self)
        ensures
            r@.seen == self@.seen,
            r@.visible_leaves == self@.visible_leaves,
            r@.row == self@.row,
            r@.groups == groups@,
    {
        proof {
            use_type_invariant(&self);
        }
        VisibleFaces { seen: self.seen, faces: self.faces, visible_leaves: self.visible_leaves, row: self.row, groups }
    }

    /// Records which placement groups the view admits, given for each placed model the
    /// cluster its middle lands in once placed, `None` where that is unknown.
    pub fn placing_by(self, landings: &[Option<i16>]) -> (r: Self)
        requires
            landings_covered(self@.row, landings@),
            landings@.len() < usize::MAX,
        ensures
            r@.seen == self@.seen,
            r@.visible_leaves == self@.visible_leaves,
            r@.row == self@.row,
            r@.groups == placed_groups(self@.row, landings@),
    {
        let ghost row_view = self@.row;
        let mut groups: Vec<bool> = Vec::new();
        groups.push(true);
        let mut i: usize = 0;
        while i < landings.len()
            invariant
                i <= landings@.len(),
                row_view == self@.row,
                landings_covered(row_view, landings@),
                groups@ == placed_groups(row_view, landings@.subrange(0, i as int)),
            decreases landings@.len() - i,
        {
            let admitted = match &self.row {
                Some(bits) => match landings[i] {
                    Some(c) => if c < 0 {
                        true
                    } else {
                        let cluster = c as usize;
                        proof {
                            assert(landing_fits(bits@, landings@[i as int]));
                        }
                        bits[cluster / 8] & (1u8 << ((cluster % 8) as u8)) != 0
                    },
                    None => true,
                },
                None => true,
            };
            proof {
                assert(admitted == landing_admitted(row_view, landings@[i as int]));
            }
            groups.push(admitted);
            i = i + 1;
            proof {
                assert(groups@ =~= placed_groups(row_view, landings@.subrange(0, i as int)));
            }
        }
        proof {
            assert(landings@.subrange(0, i as int) =~= landings@);
        }
        self.with_groups(groups)
    }

    /// The selected surfaces, ascending.
    pub fn faces(&self) -> (r: Vec<usize>)
        ensures
            r@ == set_indices(self@.seen, self@.seen.len()),
    {
        let mut out: Vec<usize> = Vec::new();
        let mut i: usize = 0;
        while i < self.seen.len()
            invariant
                i <= self@.seen.len(),
                out@ == set_indices(self@.seen, i as nat),
            decreases self@.seen.len() - i,
        {
            if self.seen[i] {
                out.push(i);
            }
            i = i + 1;
        }
        out
    }
}

/// A decoded row is as long as the row asked for.
pub proof fn lemma_decode_run_len(b: Seq<u8>, pos: int, row: nat, done: nat)
    ensures
        decode_run(b, pos, row, done) matches Some(t) ==> t.len() == if done >= row { 0 } else { row - done },
    decreases row - done,
{
    if done < row && 0 <= pos < b.len() {
        if b[pos] != 0 {
            lemma_decode_run_len(b, pos + 1, row, done + 1);
        } else if pos + 1 < b.len() {
            let count = b[pos + 1] as nat;
            if count != 0 && count <= row - done {
                lemma_decode_run_len(b, pos + 2, row, done + count);
            }
        }
    }
}

/// A row of a cluster the map has is one bit per cluster, rounded up to whole bytes.
pub proof fn lemma_row_len(v: Option<VisibilityView>, cluster_count: nat, cluster: nat, kind: VisibilityKind)
    ensures
        row_spec(v, cluster_count, cluster, kind) matches Ok(row) ==> row.len() == (cluster_count + 7) / 8,
{
    if let Some(vis) = v {
        let offset = vis.offsets[cluster as int][kind_index(kind)];
        if offset >= 0 {
            lemma_decode_run_len(vis.bytes, offset as int, (cluster_count + 7) / 8, 0);
        }
    }
}

/// Some leaf the row admits lists face `f` among its faces.
pub open spec fn listed_by(leaves: Seq<Leaf>, leaf_faces: Seq<u16>, row: Option<Seq<u8>>, f: int) -> bool {
    exists|l: int, k: int|
        0 <= l < leaves.len() && admitted(row, #[trigger] leaves[l]) && leaves[l].first_leaf_face <= k
            < leaves[l].first_leaf_face + leaves[l].leaf_face_count && 0 <= k < leaf_faces.len() && #[trigger] leaf_faces[k] == f
}

/// How many of the leaves the row admits.
pub open spec fn admitted_count(leaves: Seq<Leaf>, row: Option<Seq<u8>>) -> nat
    decreases leaves.len(),
{
    if leaves.len() == 0 {
        0
    } else {
        admitted_count(leaves.drop_first(), row) + if admitted(row, leaves[0]) { 1nat } else { 0nat }
    }
}

/// Whether `listed` names face `f`.
pub open spec fn names_face(listed: Seq<u16>, f: int) -> bool {
    exists|k: int| 0 <= k < listed.len() && #[trigger] listed[k] as int == f
}

proof fn lemma_mark_faces(seen: Seq<bool>, listed: Seq<u16>)
    ensures
        mark_faces(seen, listed) matches Ok(marked) ==> marked.len() == seen.len() && forall|f: int|
            0 <= f < seen.len() ==> (#[trigger] marked[f] <==> seen[f] || names_face(listed, f)),
    decreases listed.len(),
{
    if listed.len() > 0 && listed[0] < seen.len() {
        let next = seen.update(listed[0] as int, true);
        let tail = listed.drop_first();
        lemma_mark_faces(next, tail);
        if let Ok(marked) = mark_faces(seen, listed) {
            assert forall|f: int| 0 <= f < seen.len() implies (#[trigger] marked[f] <==> seen[f] || names_face(listed, f)) by {
                if names_face(listed, f) {
                    let k = choose|k: int| 0 <= k < listed.len() && #[trigger] listed[k] as int == f;
                    if k > 0 {
                        assert(tail[k - 1] as int == f);
                    }
                }
                if names_face(tail, f) {
                    let k = choose|k: int| 0 <= k < tail.len() && #[trigger] tail[k] as int == f;
                    assert(listed[k + 1] as int == f);
                }
                if f == listed[0] as int {
                    assert(listed[0] as int == f);
                }
            }
        }
    }
}

/// Selecting from a row marks exactly the faces the admitted leaves list, and counts
/// the leaves it admitted.
pub proof fn lemma_select_marks_listed(
    leaves: Seq<Leaf>,
    leaf_faces: Seq<u16>,
    row: Option<Seq<u8>>,
    seen: Seq<bool>,
    visible: nat,
)
    ensures
        select_spec(leaves, leaf_faces, row, seen, visible) matches Ok((marked, count)) ==> {
            &&& marked.len() == seen.len()
            &&& count == visible + admitted_count(leaves, row)
            &&& forall|f: int| 0 <= f < seen.len() ==> (#[trigger] marked[f] <==> seen[f] || listed_by(leaves, leaf_faces, row, f))
        },
    decreases leaves.len(),
{
    if leaves.len() > 0 {
        let leaf = leaves[0];
        let rest = leaves.drop_first();
        if !admitted(row, leaf) {
            lemma_select_marks_listed(rest, leaf_faces, row, seen, visible);
            if let Ok((marked, count)) = select_spec(leaves, leaf_faces, row, seen, visible) {
                assert forall|f: int| 0 <= f < seen.len() implies (#[trigger] marked[f] <==> seen[f] || listed_by(leaves, leaf_faces, row, f)) by {
                    if listed_by(leaves, leaf_faces, row, f) {
                        let (l, k) = choose|l: int, k: int|
                            0 <= l < leaves.len() && admitted(row, #[trigger] leaves[l]) && leaves[l].first_leaf_face <= k
                                < leaves[l].first_leaf_face + leaves[l].leaf_face_count && 0 <= k < leaf_faces.len()
                                && #[trigger] leaf_faces[k] == f;
                        assert(rest[l - 1] == leaves[l]);
                    }
                    if listed_by(rest, leaf_faces, row, f) {
                        let (l, k) = choose|l: int, k: int|
                            0 <= l < rest.len() && admitted(row, #[trigger] rest[l]) && rest[l].first_leaf_face <= k
                                < rest[l].first_leaf_face + rest[l].leaf_face_count && 0 <= k < leaf_faces.len()
                                && #[trigger] leaf_faces[k] == f;
                        assert(leaves[l + 1] == rest[l]);
                    }
                }
            }
        } else {
            let first = leaf.first_leaf_face as int;
            let end = first + leaf.leaf_face_count;
            if end <= leaf_faces.len() {
                let listed = leaf_faces.subrange(first, end);
                lemma_mark_faces(seen, listed);
                if let Ok(next) = mark_faces(seen, listed) {
                    lemma_select_marks_listed(rest, leaf_faces, row, next, visible + 1);
                    if let Ok((marked, count)) = select_spec(leaves, leaf_faces, row, seen, visible) {
                        assert forall|f: int| 0 <= f < seen.len() implies (#[trigger] marked[f] <==> seen[f] || listed_by(leaves, leaf_faces, row, f)) by {
                            if names_face(listed, f) {
                                let j = choose|j: int| 0 <= j < listed.len() && #[trigger] listed[j] as int == f;
                                assert(leaf_faces[first + j] == listed[j]);
                                assert(leaves[0] == leaf);
                            }
                            if listed_by(leaves, leaf_faces, row, f) {
                                let (l, k) = choose|l: int, k: int|
                                    0 <= l < leaves.len() && admitted(row, #[trigger] leaves[l]) && leaves[l].first_leaf_face <= k
                                        < leaves[l].first_leaf_face + leaves[l].leaf_face_count && 0 <= k < leaf_faces.len()
                                        && #[trigger] leaf_faces[k] == f;
                                if l == 0 {
                                    assert(listed[k - first] as int == f);
                                } else {
                                    assert(rest[l - 1] == leaves[l]);
                                }
                            }
                            if listed_by(rest, leaf_faces, row, f) {
                                let (l, k) = choose|l: int, k: int|
                                    0 <= l < rest.len() && admitted(row, #[trigger] rest[l]) && rest[l].first_leaf_face <= k
                                        < rest[l].first_leaf_face + rest[l].leaf_face_count && 0 <= k < leaf_faces.len()
                                        && #[trigger] leaf_faces[k] == f;
                                assert(leaves[l + 1] == rest[l]);
                            }
                        }
                    }
                }
            }
        }
    }
}

} // verus!
