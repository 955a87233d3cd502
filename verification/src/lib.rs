//! An in-memory approximate nearest-neighbour index over a hierarchical
//! navigable small-world (HNSW) graph.
//!
//! Points are vectors of bounded integer coordinates; distances are exact
//! squared Euclidean distances carried as `u64` keys, so every comparison
//! made by the graph algorithms is verified against the mathematical
//! distance [`contiguous::sq_dist`].
#![verifier::loop_isolation(false)]

pub mod contiguous;
pub mod contiguous_types;

use vstd::prelude::*;

use crate::contiguous::{coords_bounded, sq_dist, ContiguousStorage};
use crate::contiguous_types::{
    cand_le, cand_less, cand_lt, spec_stride, Candidate, LayerSlice, PointId, INVALID_ID,
};

verus! {

/// The parameter `M` from the HNSW paper: links per node on the sparse
/// layers. The base layer uses `2 * M`.
pub const M: usize = 32;

/// Parameters of the diversity-aware neighbour selection.
#[derive(Copy, Clone, Debug, PartialEq, Eq, Structural)]
pub struct Heuristic {
    pub extend_candidates: bool,
    pub keep_pruned: bool,
}

impl Default for Heuristic {
    /// Keep pruned candidates, do not extend the candidate set.
    fn default() -> (r: Heuristic)
        ensures
            r.extend_candidates == false,
            r.keep_pruned == true,
    {
        Heuristic { extend_candidates: false, keep_pruned: true }
    }
}

/// Strictly ascending by `(distance, pid)`.
pub open spec fn cands_sorted_asc(s: Seq<Candidate>) -> bool {
    forall|i: int, j: int| 0 <= i < j < s.len() ==> cand_lt(#[trigger] s[i], #[trigger] s[j])
}

/// Strictly descending by `(distance, pid)`.
pub open spec fn cands_sorted_desc(s: Seq<Candidate>) -> bool {
    forall|i: int, j: int| 0 <= i < j < s.len() ==> cand_lt(#[trigger] s[j], #[trigger] s[i])
}

/// A candidate records an id below `bound` together with its true
/// squared distance from the query.
pub open spec fn cand_good(
    c: Candidate,
    st: ContiguousStorage,
    q: Seq<i64>,
    bound: int,
) -> bool {
    &&& c.pid.0 < bound
    &&& c.distance == sq_dist(q, st.point(c.pid.0 as int))
}

pub open spec fn cands_good(
    s: Seq<Candidate>,
    st: ContiguousStorage,
    q: Seq<i64>,
    bound: int,
) -> bool {
    forall|i: int| 0 <= i < s.len() ==> cand_good(#[trigger] s[i], st, q, bound)
}

/// The candidate that `pid` contributes to a search for `q`.
pub open spec fn cand_of(st: ContiguousStorage, q: Seq<i64>, pid: u32) -> Candidate {
    Candidate { distance: sq_dist(q, st.point(pid as int)) as u64, pid: PointId(pid) }
}

/// Length of the strictly-below prefix: in an ascending list, the
/// position where `c` belongs.
pub open spec fn spec_lower_idx(s: Seq<Candidate>, c: Candidate) -> int
    decreases s.len(),
{
    if s.len() == 0 {
        0
    } else if cand_lt(s[0], c) {
        1 + spec_lower_idx(s.drop_first(), c)
    } else {
        0
    }
}

/// Length of the strictly-above prefix: in a descending list, the
/// position where `c` belongs.
pub open spec fn spec_desc_idx(s: Seq<Candidate>, c: Candidate) -> int
    decreases s.len(),
{
    if s.len() == 0 {
        0
    } else if cand_lt(c, s[0]) {
        1 + spec_desc_idx(s.drop_first(), c)
    } else {
        0
    }
}

/// The strictly-below prefix is never longer than the list.
proof fn lemma_lower_idx_bounds(s: Seq<Candidate>, c: Candidate)
    ensures
        0 <= spec_lower_idx(s, c) <= s.len(),
    decreases s.len(),
{
    if s.len() > 0 {
        lemma_lower_idx_bounds(s.drop_first(), c);
    }
}

/// In an ascending list, any position with smaller entries before it
/// and no smaller entry from it on is the strictly-below prefix length.
proof fn lemma_lower_idx_unique(s: Seq<Candidate>, c: Candidate, i: int)
    requires
        cands_sorted_asc(s),
        0 <= i <= s.len(),
        forall|k: int| 0 <= k < i ==> cand_lt(#[trigger] s[k], c),
        forall|k: int| i <= k < s.len() ==> !cand_lt(#[trigger] s[k], c),
    ensures
        i == spec_lower_idx(s, c),
    decreases s.len(),
{
    if s.len() > 0 && i > 0 {
        let t = s.drop_first();
        assert(forall|a: int, b: int|
            0 <= a < b < t.len() ==> cand_lt(#[trigger] t[a], #[trigger] t[b]));
        assert(forall|k: int| 0 <= k < i - 1 ==> cand_lt(#[trigger] t[k], c));
        assert(forall|k: int| i - 1 <= k < t.len() ==> !cand_lt(#[trigger] t[k], c));
        lemma_lower_idx_unique(t, c, i - 1);
    }
}

/// The descending twin of `lemma_lower_idx_unique`.
proof fn lemma_desc_idx_unique(s: Seq<Candidate>, c: Candidate, i: int)
    requires
        cands_sorted_desc(s),
        0 <= i <= s.len(),
        forall|k: int| 0 <= k < i ==> cand_lt(c, #[trigger] s[k]),
        forall|k: int| i <= k < s.len() ==> !cand_lt(c, #[trigger] s[k]),
    ensures
        i == spec_desc_idx(s, c),
    decreases s.len(),
{
    if s.len() > 0 && i > 0 {
        let t = s.drop_first();
        assert(forall|a: int, b: int|
            0 <= a < b < t.len() ==> cand_lt(#[trigger] t[b], #[trigger] t[a]));
        assert(forall|k: int| 0 <= k < i - 1 ==> cand_lt(c, #[trigger] t[k]));
        assert(forall|k: int| i - 1 <= k < t.len() ==> !cand_lt(c, #[trigger] t[k]));
        lemma_desc_idx_unique(t, c, i - 1);
    }
}

/// Number of unvisited slots, the potential of the search loop.
pub open spec fn count_false(s: Seq<bool>) -> nat
    decreases s.len(),
{
    if s.len() == 0 {
        0
    } else {
        count_false(s.drop_last()) + (if s.last() {
            0nat
        } else {
            1nat
        })
    }
}

proof fn lemma_count_false_update(s: Seq<bool>, p: int)
    requires
        0 <= p < s.len(),
        !s[p],
    ensures
        count_false(s.update(p, true)) == count_false(s) - 1,
    decreases s.len(),
{
    let t = s.update(p, true);
    if p == s.len() - 1 {
        assert(t.drop_last() =~= s.drop_last());
    } else {
        assert(t.drop_last() =~= s.drop_last().update(p, true));
        lemma_count_false_update(s.drop_last(), p);
    }
}

/// The region of `layer` fits in `neigh` and every filled slot points
/// below `bound`.
pub open spec fn layer_rows_wf(neigh: Seq<PointId>, layer: LayerSlice, bound: int) -> bool {
    &&& layer.start + layer.total * layer.stride <= neigh.len()
    &&& 1 <= layer.stride <= 64
    &&& forall|p: int, k: int|
        0 <= p < layer.total && 0 <= k < layer.stride && (#[trigger] neigh[layer.start + p
            * layer.stride + k]).spec_valid() ==> neigh[layer.start + p * layer.stride + k].0
            < bound
}

/// First position of an ascending list whose entry is not below `c`.
fn lower_bound_asc(v: &Vec<Candidate>, c: &Candidate) -> (idx: usize)
    requires
        cands_sorted_asc(v@),
    ensures
        idx <= v@.len(),
        forall|k: int| 0 <= k < idx ==> cand_lt(#[trigger] v@[k], *c),
        forall|k: int| idx <= k < v@.len() ==> !cand_lt(#[trigger] v@[k], *c),
{
    let mut lo: usize = 0;
    let mut hi: usize = v.len();
    while lo < hi
        invariant
            lo <= hi <= v@.len(),
            forall|k: int| 0 <= k < lo ==> cand_lt(#[trigger] v@[k], *c),
            forall|k: int| hi <= k < v@.len() ==> !cand_lt(#[trigger] v@[k], *c),
        decreases hi - lo,
    {
        let mid = lo + (hi - lo) / 2;
        if cand_less(&v[mid], c) {
            proof {
                assert forall|k: int| 0 <= k < mid + 1 implies cand_lt(#[trigger] v@[k], *c) by {
                    if k < mid {
                        assert(cand_lt(v@[k], v@[mid as int]));
                    }
                }
            }
            lo = mid + 1;
        } else {
            proof {
                assert forall|k: int| mid <= k < v@.len() implies !cand_lt(#[trigger] v@[k], *c) by {
                    if k > mid {
                        assert(cand_lt(v@[mid as int], v@[k]));
                    }
                }
            }
            hi = mid;
        }
    }
    lo
}

/// First position of a descending list whose entry is not above `c`.
fn lower_bound_desc(v: &Vec<Candidate>, c: &Candidate) -> (idx: usize)
    requires
        cands_sorted_desc(v@),
    ensures
        idx <= v@.len(),
        forall|k: int| 0 <= k < idx ==> cand_lt(*c, #[trigger] v@[k]),
        forall|k: int| idx <= k < v@.len() ==> !cand_lt(*c, #[trigger] v@[k]),
{
    let mut lo: usize = 0;
    let mut hi: usize = v.len();
    while lo < hi
        invariant
            lo <= hi <= v@.len(),
            forall|k: int| 0 <= k < lo ==> cand_lt(*c, #[trigger] v@[k]),
            forall|k: int| hi <= k < v@.len() ==> !cand_lt(*c, #[trigger] v@[k]),
        decreases hi - lo,
    {
        let mid = lo + (hi - lo) / 2;
        if cand_less(c, &v[mid]) {
            proof {
                assert forall|k: int| 0 <= k < mid + 1 implies cand_lt(*c, #[trigger] v@[k]) by {
                    if k < mid {
                        assert(cand_lt(v@[mid as int], v@[k]));
                    }
                }
            }
            lo = mid + 1;
        } else {
            proof {
                assert forall|k: int| mid <= k < v@.len() implies !cand_lt(*c, #[trigger] v@[k]) by {
                    if k > mid {
                        assert(cand_lt(v@[k], v@[mid as int]));
                    }
                }
            }
            hi = mid;
        }
    }
    lo
}

/// Every filled base-layer slot of the rows `[0, n)` names an id below
/// `frontier` other than its own row; rows from `frontier` on are still
/// empty, and each row keeps its filled slots as a prefix.
pub open spec fn zero_rows_wf(neigh: Seq<PointId>, n: int, frontier: int) -> bool {
    &&& forall|p: int, k: int|
        0 <= p < n && 0 <= k < 64 && (#[trigger] neigh[64 * p + k]).spec_valid() ==> neigh[64 * p
            + k].0 < frontier && neigh[64 * p + k].0 != p
    &&& forall|p: int, k1: int, k2: int|
        0 <= p < n && 0 <= k1 < k2 < 64 && (#[trigger] neigh[64 * p + k2]).spec_valid() ==> (
        #[trigger] neigh[64 * p + k1]).spec_valid()
    &&& forall|p: int, k: int|
        frontier <= p < n && 0 <= k < 64 ==> !(#[trigger] neigh[64 * p + k]).spec_valid()
}

/// Each base-layer row lists its neighbours in order of distance from
/// the row's own point, nearest first.
pub open spec fn zero_rows_sorted(neigh: Seq<PointId>, n: int, st: ContiguousStorage) -> bool {
    forall|p: int, k1: int, k2: int|
        0 <= p < n && 0 <= k1 < k2 < 64 && (#[trigger] neigh[64 * p + k1]).spec_valid() && (
        #[trigger] neigh[64 * p + k2]).spec_valid() ==> sq_dist(
            st.point(p),
            st.point(neigh[64 * p + k1].0 as int),
        ) <= sq_dist(st.point(p), st.point(neigh[64 * p + k2].0 as int))
}

/// A snapshotted upper layer: every filled slot names an id inside the
/// layer other than its own row.
pub open spec fn upper_rows_wf(neigh: Seq<PointId>, layer: LayerSlice) -> bool {
    forall|p: int, k: int|
        0 <= p < layer.total && 0 <= k < layer.stride && (#[trigger] neigh[layer.start + p
            * layer.stride + k]).spec_valid() ==> neigh[layer.start + p * layer.stride + k].0
            < layer.total && neigh[layer.start + p * layer.stride + k].0 != p
}

/// The base layer seen as a layer descriptor satisfies the generic
/// row condition whenever the base rows do.
proof fn lemma_zero_layer_rows_wf(neigh: Seq<PointId>, zs: LayerSlice, frontier: int)
    requires
        zs.start == 0,
        zs.stride == 64,
        zero_rows_wf(neigh, zs.total as int, frontier),
        zs.total * 64 <= neigh.len(),
    ensures
        layer_rows_wf(neigh, zs, frontier),
{
    assert forall|p: int, k: int|
        0 <= p < zs.total && 0 <= k < zs.stride && (#[trigger] neigh[zs.start + p * zs.stride
            + k]).spec_valid() implies neigh[zs.start + p * zs.stride + k].0 < frontier by {
        assert(zs.start + p * zs.stride + k == 64 * p + k);
        assert(neigh[64 * p + k].spec_valid());
    }
}

/// `idx` is a sorted position for a neighbour at distance `d` in the
/// base row of `owner`: every earlier slot is filled and at most `d`
/// away, and every later filled slot is at least `d` away.
pub open spec fn row_insert_pos(
    neigh: Seq<PointId>,
    owner: u32,
    idx: int,
    d: u64,
    st: ContiguousStorage,
) -> bool {
    &&& 0 <= idx <= 64
    &&& forall|k: int|
        0 <= k < idx ==> (#[trigger] neigh[64 * (owner as int) + k]).spec_valid() && sq_dist(
            st.point(owner as int),
            st.point(neigh[64 * (owner as int) + k].0 as int),
        ) <= d
    &&& forall|k: int|
        idx <= k < 64 && (#[trigger] neigh[64 * (owner as int) + k]).spec_valid() ==> sq_dist(
            st.point(owner as int),
            st.point(neigh[64 * (owner as int) + k].0 as int),
        ) >= d
}

/// The base row of `owner` in `after` is its row in `before` with `pid`
/// shift-inserted at `idx` (the last slot dropped), or unchanged when
/// `idx` lies past the row.
pub open spec fn row_shift_inserted(
    before: Seq<PointId>,
    after: Seq<PointId>,
    owner: u32,
    idx: int,
    pid: PointId,
) -> bool {
    let cb = 64 * (owner as int);
    if idx >= 64 {
        forall|k: int| 0 <= k < 64 ==> #[trigger] after[cb + k] == before[cb + k]
    } else {
        &&& forall|k: int| 0 <= k < idx ==> #[trigger] after[cb + k] == before[cb + k]
        &&& after[cb + idx] == pid
        &&& (before[cb + idx].spec_valid() ==> forall|k: int|
            idx < k < 64 ==> #[trigger] after[cb + k] == before[cb + k - 1])
        &&& (!before[cb + idx].spec_valid() ==> forall|k: int|
            idx < k < 64 ==> #[trigger] after[cb + k] == before[cb + k])
    }
}

/// Both row predicates read only the owner's 64 slots, so they carry
/// over between states that agree on that row.
proof fn lemma_row_preds_stable(
    b1: Seq<PointId>,
    b2: Seq<PointId>,
    a1: Seq<PointId>,
    a2: Seq<PointId>,
    owner: u32,
    pos: int,
    d: u64,
    pid: PointId,
    st: ContiguousStorage,
)
    requires
        row_insert_pos(b1, owner, pos, d, st),
        row_shift_inserted(b1, a1, owner, pos, pid),
        forall|k: int|
            0 <= k < 64 ==> #[trigger] b2[64 * (owner as int) + k] == b1[64 * (owner as int) + k],
        forall|k: int|
            0 <= k < 64 ==> #[trigger] a2[64 * (owner as int) + k] == a1[64 * (owner as int) + k],
    ensures
        row_insert_pos(b2, owner, pos, d, st),
        row_shift_inserted(b2, a2, owner, pos, pid),
{
    let cb = 64 * (owner as int);
    assert forall|k: int|
        0 <= k < pos implies (#[trigger] b2[cb + k]).spec_valid() && sq_dist(
        st.point(owner as int),
        st.point(b2[cb + k].0 as int),
    ) <= d by {
        assert(b2[cb + k] == b1[cb + k]);
    }
    assert forall|k: int|
        pos <= k < 64 && (#[trigger] b2[cb + k]).spec_valid() implies sq_dist(
        st.point(owner as int),
        st.point(b2[cb + k].0 as int),
    ) >= d by {
        assert(b2[cb + k] == b1[cb + k]);
    }
    if pos >= 64 {
        assert forall|k: int| 0 <= k < 64 implies #[trigger] a2[cb + k] == b2[cb + k] by {
            assert(a1[cb + k] == b1[cb + k]);
        }
    } else {
        assert forall|k: int| 0 <= k < pos implies #[trigger] a2[cb + k] == b2[cb + k] by {
            assert(a1[cb + k] == b1[cb + k]);
        }
        assert(a2[cb + pos] == a1[cb + pos]);
        assert(b2[cb + pos] == b1[cb + pos]);
        if b2[cb + pos].spec_valid() {
            assert forall|k: int| pos < k < 64 implies #[trigger] a2[cb + k] == b2[cb + k - 1] by {
                assert(a1[cb + k] == b1[cb + k - 1]);
                let kp = k - 1;
                assert(b2[cb + kp] == b1[cb + kp]);
            }
        } else {
            assert forall|k: int| pos < k < 64 implies #[trigger] a2[cb + k] == b2[cb + k] by {
                assert(a1[cb + k] == b1[cb + k]);
            }
        }
    }
}

/// Position at which a new neighbour at distance `d` from node `c`
/// belongs in `c`'s base-layer row, found by binary search.
fn zero_row_lower_bound(
    neighbors: &Vec<PointId>,
    c: u32,
    d: u64,
    st: &ContiguousStorage,
) -> (idx: usize)
    requires
        st.wf(),
        (c as int) < st.spec_len(),
        64 * st.spec_len() <= neighbors@.len(),
        forall|k: int|
            0 <= k < 64 && (#[trigger] neighbors@[64 * (c as int) + k]).spec_valid()
                ==> neighbors@[64 * (c as int) + k].0 < st.spec_len(),
        forall|k1: int, k2: int|
            0 <= k1 < k2 < 64 && (#[trigger] neighbors@[64 * (c as int) + k2]).spec_valid() ==> (
            #[trigger] neighbors@[64 * (c as int) + k1]).spec_valid(),
        forall|k1: int, k2: int|
            0 <= k1 < k2 < 64 && (#[trigger] neighbors@[64 * (c as int) + k1]).spec_valid() && (
            #[trigger] neighbors@[64 * (c as int) + k2]).spec_valid() ==> sq_dist(
                st.point(c as int),
                st.point(neighbors@[64 * (c as int) + k1].0 as int),
            ) <= sq_dist(st.point(c as int), st.point(neighbors@[64 * (c as int) + k2].0 as int)),
    ensures
        idx <= 64,
        forall|k: int|
            0 <= k < idx ==> (#[trigger] neighbors@[64 * (c as int) + k]).spec_valid() && sq_dist(
                st.point(c as int),
                st.point(neighbors@[64 * (c as int) + k].0 as int),
            ) <= d,
        forall|k: int|
            idx <= k < 64 && (#[trigger] neighbors@[64 * (c as int) + k]).spec_valid() ==> sq_dist(
                st.point(c as int),
                st.point(neighbors@[64 * (c as int) + k].0 as int),
            ) >= d,
{
    let _nlen = neighbors.len();
    proof {
        assert(64 * (c as int) + 64 <= 64 * st.spec_len()) by (nonlinear_arith)
            requires
                0 <= (c as int) < st.spec_len(),
        ;
    }
    let base = 64 * (c as usize);
    let mut lo: usize = 0;
    let mut hi: usize = 64;
    while lo < hi
        invariant
            lo <= hi <= 64,
            forall|k: int|
                0 <= k < lo ==> (#[trigger] neighbors@[64 * (c as int) + k]).spec_valid()
                    && sq_dist(
                    st.point(c as int),
                    st.point(neighbors@[64 * (c as int) + k].0 as int),
                ) <= d,
            forall|k: int|
                hi <= k < 64 && (#[trigger] neighbors@[64 * (c as int) + k]).spec_valid()
                    ==> sq_dist(
                    st.point(c as int),
                    st.point(neighbors@[64 * (c as int) + k].0 as int),
                ) >= d,
        decreases hi - lo,
    {
        let mid = lo + (hi - lo) / 2;
        let e = neighbors[base + mid];
        let mut go_right = false;
        if e.is_valid() {
            let dm = st.stored_distance(c, e.0);
            if dm < d {
                go_right = true;
            }
        }
        if go_right {
            proof {
                assert forall|k: int|
                    0 <= k < mid + 1 implies (#[trigger] neighbors@[64 * (c as int)
                        + k]).spec_valid() && sq_dist(
                        st.point(c as int),
                        st.point(neighbors@[64 * (c as int) + k].0 as int),
                    ) <= d by {
                    if k < mid {
                        assert(neighbors@[64 * (c as int) + mid as int].spec_valid());
                        assert(neighbors@[64 * (c as int) + k].spec_valid());
                    }
                }
            }
            lo = mid + 1;
        } else {
            proof {
                assert forall|k: int|
                    mid <= k < 64 && (#[trigger] neighbors@[64 * (c as int) + k]).spec_valid()
                        implies sq_dist(
                        st.point(c as int),
                        st.point(neighbors@[64 * (c as int) + k].0 as int),
                    ) >= d by {
                    if k > mid {
                        assert(neighbors@[64 * (c as int) + mid as int].spec_valid());
                    }
                }
            }
            hi = mid;
        }
    }
    lo
}

/// Layer `l`'s region of the neighbour array as a read descriptor.
pub open spec fn spec_layer_slice(meta: crate::contiguous_types::Meta, l: int) -> LayerSlice {
    LayerSlice {
        start: meta.layers()[l].start,
        total: meta.layers()[l].total,
        stride: if l == 0 {
            64
        } else {
            32
        },
    }
}

/// Rewriting a single base-layer row keeps the graph condition, as
/// long as the row's new content satisfies it locally.
proof fn lemma_row_update_wf(
    before: Seq<PointId>,
    after: Seq<PointId>,
    n: int,
    frontier: int,
    row: int,
)
    requires
        zero_rows_wf(before, n, frontier),
        0 <= row < n,
        row < frontier,
        after.len() == before.len(),
        64 * n <= before.len(),
        forall|j: int|
            0 <= j < before.len() && !(64 * row <= j < 64 * row + 64) ==> #[trigger] after[j]
                == before[j],
        forall|k: int|
            0 <= k < 64 && (#[trigger] after[64 * row + k]).spec_valid() ==> after[64 * row + k].0
                < frontier && after[64 * row + k].0 != row,
        forall|k1: int, k2: int|
            0 <= k1 < k2 < 64 && (#[trigger] after[64 * row + k2]).spec_valid() ==> (
            #[trigger] after[64 * row + k1]).spec_valid(),
    ensures
        zero_rows_wf(after, n, frontier),
{
    assert forall|p: int, k: int|
        0 <= p < n && 0 <= k < 64 && (#[trigger] after[64 * p + k]).spec_valid() implies after[64
        * p + k].0 < frontier && after[64 * p + k].0 != p by {
        if p != row {
            assert(64 * p + k < 64 * n) by (nonlinear_arith)
                requires
                    0 <= p < n,
                    0 <= k < 64,
            ;
            assert(64 * p + k < 64 * row || 64 * row + 64 <= 64 * p + k) by (nonlinear_arith)
                requires
                    0 <= p,
                    0 <= k < 64,
                    p != row,
            ;
            assert(after[64 * p + k] == before[64 * p + k]);
            assert(before[64 * p + k].spec_valid());
        }
    }
    assert forall|p: int, k1: int, k2: int|
        0 <= p < n && 0 <= k1 < k2 < 64 && (#[trigger] after[64 * p + k2]).spec_valid() implies (
    #[trigger] after[64 * p + k1]).spec_valid() by {
        if p != row {
            assert(64 * p + k1 < 64 * n && 64 * p + k2 < 64 * n) by (nonlinear_arith)
                requires
                    0 <= p < n,
                    0 <= k1 < 64,
                    0 <= k2 < 64,
            ;
            assert((64 * p + k1 < 64 * row || 64 * row + 64 <= 64 * p + k1) && (64 * p + k2 < 64
                * row || 64 * row + 64 <= 64 * p + k2)) by (nonlinear_arith)
                requires
                    0 <= p,
                    0 <= k1 < 64,
                    0 <= k2 < 64,
                    p != row,
            ;
            assert(after[64 * p + k1] == before[64 * p + k1]);
            assert(after[64 * p + k2] == before[64 * p + k2]);
            assert(before[64 * p + k2].spec_valid());
        }
    }
    assert forall|p: int, k: int|
        frontier <= p < n && 0 <= k < 64 implies !(#[trigger] after[64 * p + k]).spec_valid() by {
            assert(64 * p + k < 64 * n) by (nonlinear_arith)
                requires
                    0 <= p < n,
                    0 <= k < 64,
            ;
            assert(64 * p + k < 64 * row || 64 * row + 64 <= 64 * p + k) by (nonlinear_arith)
                requires
                    0 <= p,
                    0 <= k < 64,
                    p != row,
            ;
        assert(after[64 * p + k] == before[64 * p + k]);
        assert(!before[64 * p + k].spec_valid());
    }
}

/// Rewriting a single row whose new content is in distance order keeps
/// every row in distance order.
proof fn lemma_row_update_sorted(
    before: Seq<PointId>,
    after: Seq<PointId>,
    n: int,
    st: ContiguousStorage,
    row: int,
)
    requires
        zero_rows_sorted(before, n, st),
        0 <= row < n,
        after.len() == before.len(),
        64 * n <= before.len(),
        forall|j: int|
            0 <= j < before.len() && !(64 * row <= j < 64 * row + 64) ==> #[trigger] after[j]
                == before[j],
        forall|k1: int, k2: int|
            0 <= k1 < k2 < 64 && (#[trigger] after[64 * row + k1]).spec_valid() && (
            #[trigger] after[64 * row + k2]).spec_valid() ==> sq_dist(
                st.point(row),
                st.point(after[64 * row + k1].0 as int),
            ) <= sq_dist(st.point(row), st.point(after[64 * row + k2].0 as int)),
    ensures
        zero_rows_sorted(after, n, st),
{
    assert forall|p: int, k1: int, k2: int|
        0 <= p < n && 0 <= k1 < k2 < 64 && (#[trigger] after[64 * p + k1]).spec_valid() && (
        #[trigger] after[64 * p + k2]).spec_valid() implies sq_dist(
        st.point(p),
        st.point(after[64 * p + k1].0 as int),
    ) <= sq_dist(st.point(p), st.point(after[64 * p + k2].0 as int)) by {
        if p != row {
            assert(64 * p + k1 < 64 * n && 64 * p + k2 < 64 * n) by (nonlinear_arith)
                requires
                    0 <= p < n,
                    0 <= k1 < 64,
                    0 <= k2 < 64,
            ;
            assert((64 * p + k1 < 64 * row || 64 * row + 64 <= 64 * p + k1) && (64 * p + k2 < 64
                * row || 64 * row + 64 <= 64 * p + k2)) by (nonlinear_arith)
                requires
                    0 <= p,
                    0 <= k1 < 64,
                    0 <= k2 < 64,
                    p != row,
            ;
            assert(after[64 * p + k1] == before[64 * p + k1]);
            assert(after[64 * p + k2] == before[64 * p + k2]);
            assert(before[64 * p + k1].spec_valid() && before[64 * p + k2].spec_valid());
        }
    }
}

/// Effect of a shift-insert at the position the binary search chose:
/// the row stays a valid, self-free, distance-ordered prefix.
proof fn lemma_shift_insert_row(
    before: Seq<PointId>,
    after: Seq<PointId>,
    cb: int,
    idx: int,
    new: u32,
    c: u32,
    d: u64,
    st: ContiguousStorage,
)
    requires
        st.wf(),
        (c as int) < st.spec_len(),
        (new as int) < st.spec_len(),
        (c as int) < new,
        st.spec_len() <= 0x4000_0000,
        cb == 64 * (c as int),
        cb + 64 <= before.len(),
        after.len() == before.len(),
        d == sq_dist(st.point(c as int), st.point(new as int)),
        0 <= idx < 64,
        forall|k: int|
            0 <= k < 64 && (#[trigger] before[cb + k]).spec_valid() ==> before[cb + k].0 < new
                as int + 1 && before[cb + k].0 != c,
        forall|k1: int, k2: int|
            0 <= k1 < k2 < 64 && (#[trigger] before[cb + k2]).spec_valid() ==> (
            #[trigger] before[cb + k1]).spec_valid(),
        forall|k1: int, k2: int|
            0 <= k1 < k2 < 64 && (#[trigger] before[cb + k1]).spec_valid() && (
            #[trigger] before[cb + k2]).spec_valid() ==> sq_dist(
                st.point(c as int),
                st.point(before[cb + k1].0 as int),
            ) <= sq_dist(st.point(c as int), st.point(before[cb + k2].0 as int)),
        forall|k: int|
            0 <= k < idx ==> (#[trigger] before[cb + k]).spec_valid() && sq_dist(
                st.point(c as int),
                st.point(before[cb + k].0 as int),
            ) <= d,
        forall|k: int|
            idx <= k < 64 && (#[trigger] before[cb + k]).spec_valid() ==> sq_dist(
                st.point(c as int),
                st.point(before[cb + k].0 as int),
            ) >= d,
        after[cb + idx] == PointId(new),
        forall|k: int| 0 <= k < idx ==> #[trigger] after[cb + k] == before[cb + k],
        before[cb + idx].spec_valid() ==> forall|k: int|
            idx < k < 64 ==> #[trigger] after[cb + k] == before[cb + k - 1],
        !before[cb + idx].spec_valid() ==> forall|k: int|
            idx < k < 64 ==> #[trigger] after[cb + k] == before[cb + k],
    ensures
        forall|k: int|
            0 <= k < 64 && (#[trigger] after[cb + k]).spec_valid() ==> after[cb + k].0 < new as int
                + 1 && after[cb + k].0 != c as int,
        forall|k1: int, k2: int|
            0 <= k1 < k2 < 64 && (#[trigger] after[cb + k2]).spec_valid() ==> (#[trigger] after[cb
                + k1]).spec_valid(),
        forall|k1: int, k2: int|
            0 <= k1 < k2 < 64 && (#[trigger] after[cb + k1]).spec_valid() && (#[trigger] after[cb
                + k2]).spec_valid() ==> sq_dist(
                st.point(c as int),
                st.point(after[cb + k1].0 as int),
            ) <= sq_dist(st.point(c as int), st.point(after[cb + k2].0 as int)),
{
    let cpt = st.point(c as int);
    assert(PointId(new).spec_valid());
    assert forall|k: int|
        0 <= k < 64 && (#[trigger] after[cb + k]).spec_valid() implies after[cb + k].0 < new as int
        + 1 && after[cb + k].0 != c as int by {
        if k < idx {
            assert(after[cb + k] == before[cb + k]);
            assert(before[cb + k].spec_valid());
            assert(after[cb + k].0 < new as int + 1);
            assert(after[cb + k].0 != c as int);
        } else if k == idx {
            assert(after[cb + k] == PointId(new));
            assert(after[cb + k].0 == new);
            assert(after[cb + k].0 < new as int + 1);
            assert(after[cb + k].0 != c as int);
        } else if before[cb + idx].spec_valid() {
            let kp = k - 1;
            assert(after[cb + k] == before[cb + kp]);
            assert(before[cb + kp].spec_valid());
            assert(after[cb + k].0 < new as int + 1);
            assert(after[cb + k].0 != c as int);
        } else {
            assert(after[cb + k] == before[cb + k]);
            assert(before[cb + k].spec_valid());
            assert(after[cb + k].0 < new as int + 1);
            assert(after[cb + k].0 != c as int);
        }
    }
    assert forall|k1: int, k2: int|
        0 <= k1 < k2 < 64 && (#[trigger] after[cb + k2]).spec_valid() implies (#[trigger] after[cb
        + k1]).spec_valid() by {
        if k1 < idx {
            assert(after[cb + k1] == before[cb + k1]);
            assert(before[cb + k1].spec_valid());
        } else if k1 == idx {
        } else {
            if before[cb + idx].spec_valid() {
                let k2p = k2 - 1;
                let k1p = k1 - 1;
                assert(after[cb + k2] == before[cb + k2p]);
                assert(before[cb + k2p].spec_valid());
                assert(before[cb + k1p].spec_valid());
                assert(after[cb + k1] == before[cb + k1p]);
            } else {
                assert(after[cb + k2] == before[cb + k2]);
                assert(before[cb + k2].spec_valid());
                assert(before[cb + k1].spec_valid());
                assert(after[cb + k1] == before[cb + k1]);
            }
        }
    }
    assert forall|k1: int, k2: int|
        0 <= k1 < k2 < 64 && (#[trigger] after[cb + k1]).spec_valid() && (#[trigger] after[cb
        + k2]).spec_valid() implies sq_dist(cpt, st.point(after[cb + k1].0 as int)) <= sq_dist(
        cpt,
        st.point(after[cb + k2].0 as int),
    ) by {
        if k1 < idx {
            assert(after[cb + k1] == before[cb + k1]);
            assert(sq_dist(cpt, st.point(before[cb + k1].0 as int)) <= d);
            if k2 < idx {
                assert(after[cb + k2] == before[cb + k2]);
                assert(before[cb + k2].spec_valid());
            } else if k2 == idx {
            } else if before[cb + idx].spec_valid() {
                let k2p = k2 - 1;
                assert(after[cb + k2] == before[cb + k2p]);
                assert(before[cb + k2p].spec_valid());
                if k2p >= idx {
                    assert(sq_dist(cpt, st.point(before[cb + k2p].0 as int)) >= d);
                } else {
                    if k2p > k1 {
                        assert(sq_dist(cpt, st.point(before[cb + k1].0 as int)) <= sq_dist(
                            cpt,
                            st.point(before[cb + k2p].0 as int),
                        ));
                    }
                }
            } else {
                assert(after[cb + k2] == before[cb + k2]);
                assert(sq_dist(cpt, st.point(before[cb + k2].0 as int)) >= d);
            }
        } else if k1 == idx {
            if before[cb + idx].spec_valid() {
                let k2p = k2 - 1;
                assert(after[cb + k2] == before[cb + k2p]);
                assert(before[cb + k2p].spec_valid());
                assert(sq_dist(cpt, st.point(before[cb + k2p].0 as int)) >= d);
            } else {
                assert(after[cb + k2] == before[cb + k2]);
                assert(sq_dist(cpt, st.point(before[cb + k2].0 as int)) >= d);
            }
        } else {
            if before[cb + idx].spec_valid() {
                let k1p = k1 - 1;
                let k2p = k2 - 1;
                assert(after[cb + k1] == before[cb + k1p]);
                assert(after[cb + k2] == before[cb + k2p]);
                assert(before[cb + k1p].spec_valid());
                assert(before[cb + k2p].spec_valid());
                assert(sq_dist(cpt, st.point(before[cb + k1p].0 as int)) <= sq_dist(
                    cpt,
                    st.point(before[cb + k2p].0 as int),
                ));
            } else {
                assert(after[cb + k1] == before[cb + k1]);
                assert(after[cb + k2] == before[cb + k2]);
                assert(before[cb + k1].spec_valid());
                assert(before[cb + k2].spec_valid());
            }
        }
    }
}

/// Simple connection: places `new` into `c`'s base-layer row at the
/// position its distance dictates, keeping the row ordered.
#[verifier::rlimit(100)]
fn connect_simple(
    neighbors: &mut Vec<PointId>,
    new: u32,
    c: Candidate,
    q: &Vec<i64>,
    st: &ContiguousStorage,
) -> (pos: Ghost<int>)
    requires
        st.wf(),
        1 <= new < st.spec_len(),
        q@ == st.point(new as int),
        cand_good(c, *st, q@, new as int),
        64 * st.spec_len() <= old(neighbors)@.len(),
        zero_rows_wf(old(neighbors)@, st.spec_len() as int, new as int + 1),
        zero_rows_sorted(old(neighbors)@, st.spec_len() as int, *st),
    ensures
        final(neighbors)@.len() == old(neighbors)@.len(),
        zero_rows_wf(final(neighbors)@, st.spec_len() as int, new as int + 1),
        zero_rows_sorted(final(neighbors)@, st.spec_len() as int, *st),
        forall|j: int|
            0 <= j < old(neighbors)@.len() && !(64 * (c.pid.0 as int) <= j < 64 * (c.pid.0 as int)
                + 64) ==> #[trigger] final(neighbors)@[j] == old(neighbors)@[j],
        row_insert_pos(old(neighbors)@, c.pid.0, pos@, c.distance, *st),
        row_shift_inserted(old(neighbors)@, final(neighbors)@, c.pid.0, pos@, PointId(new)),
        final(neighbors)@[64 * (c.pid.0 as int)].spec_valid(),
{
    let _nlen = neighbors.len();
    let ghost n_i = st.spec_len() as int;
    proof {
        st.lemma_point_wf(new as int);
        st.lemma_point_wf(c.pid.0 as int);
        st.lemma_len_bound();
    }
    let idx = zero_row_lower_bound(neighbors, c.pid.0, c.distance, st);
    let cnode = crate::contiguous_types::ZeroNode { base: 64 * (c.pid.0 as usize) };
    proof {
        assert(64 * (c.pid.0 as int) + 64 <= 64 * n_i) by (nonlinear_arith)
            requires
                0 <= (c.pid.0 as int) < n_i,
        ;
    }
    let ghost before_ins = neighbors@;
    cnode.insert(neighbors, idx, PointId(new));
    proof {
        let cb: int = 64 * (c.pid.0 as int);
        assert(cnode.base == cb);
        let cpt = st.point(c.pid.0 as int);
        crate::contiguous::lemma_sq_dist_sym(q@, cpt);
        assert(sq_dist(cpt, st.point(new as int)) == c.distance);
        if idx >= 64 {
            assert(neighbors@ =~= before_ins);
        } else {
            assert(neighbors@[cb + idx] == PointId(new));
            assert forall|k: int|
                0 <= k < idx implies #[trigger] neighbors@[cb + k] == before_ins[cb + k] by {
                assert(!(cb + idx <= cb + k < cb + 64));
            }
            lemma_shift_insert_row(
                before_ins,
                neighbors@,
                64 * (c.pid.0 as int),
                idx as int,
                new,
                c.pid.0,
                c.distance,
                *st,
            );
            lemma_row_update_wf(before_ins, neighbors@, n_i, new as int + 1, c.pid.0 as int);
            lemma_row_update_sorted(before_ins, neighbors@, n_i, *st, c.pid.0 as int);
        }
        // the row stays non-empty: either its first slot was already
        // filled, or the new id just landed there
        if idx >= 64 {
            assert(before_ins[64 * (c.pid.0 as int) + 0].spec_valid());
            assert(neighbors@[64 * (c.pid.0 as int) + 0] == before_ins[64 * (c.pid.0 as int)
                + 0]);
        } else if idx > 0 {
            assert(before_ins[64 * (c.pid.0 as int) + 0].spec_valid());
            assert(neighbors@[64 * (c.pid.0 as int) + 0] == before_ins[64 * (c.pid.0 as int)
                + 0]);
        }
        assert(64 * (c.pid.0 as int) + 0 == 64 * (c.pid.0 as int));
    }
    Ghost(idx as int)
}

/// Heuristic connection: re-selects the whole neighbour row of `c`
/// from its current neighbours plus `new`, and writes the picks back in
/// pick order.
fn connect_heuristic(
    neighbors: &mut Vec<PointId>,
    new: u32,
    c: Candidate,
    st: &ContiguousStorage,
    h: Heuristic,
    insertion: &mut Search,
) -> (sel: Ghost<Seq<Candidate>>)
    requires
        st.wf(),
        1 <= new < st.spec_len(),
        (c.pid.0 as int) < new,
        64 * st.spec_len() <= old(neighbors)@.len(),
        zero_rows_wf(old(neighbors)@, st.spec_len() as int, new as int + 1),
        old(insertion).visited_view().len() >= st.spec_len(),
        old(insertion).spec_ef() >= 1,
    ensures
        final(neighbors)@.len() == old(neighbors)@.len(),
        zero_rows_wf(final(neighbors)@, st.spec_len() as int, new as int + 1),
        forall|j: int|
            0 <= j < old(neighbors)@.len() && !(64 * (c.pid.0 as int) <= j < 64 * (c.pid.0 as int)
                + 64) ==> #[trigger] final(neighbors)@[j] == old(neighbors)@[j],
        // the new row is exactly the re-selected picks, in pick order
        1 <= sel@.len() <= 64,
        forall|i: int|
            0 <= i < sel@.len() ==> cand_good(
                #[trigger] sel@[i],
                *st,
                st.point(c.pid.0 as int),
                new as int + 1,
            ),
        forall|i: int, j: int|
            0 <= i < j < sel@.len() ==> (#[trigger] sel@[i]).pid != (#[trigger] sel@[j]).pid,
        forall|i: int|
            0 <= i < sel@.len() ==> (#[trigger] sel@[i]).pid.0 == new || (exists|k: int|
                0 <= k < 64 && #[trigger] old(neighbors)@[64 * (c.pid.0 as int) + k] == sel@[
                    i].pid) || (h.extend_candidates && exists|p: int, k: int|
                0 <= p < st.spec_len() && 0 <= k < 64 && #[trigger] old(neighbors)@[64 * p + k]
                    == sel@[i].pid),
        forall|k: int|
            0 <= k < 64 && k < crate::contiguous_types::row_pids(sel@, c.pid.0).len()
                ==> #[trigger] final(neighbors)@[64 * (c.pid.0 as int) + k]
                == crate::contiguous_types::row_pids(sel@, c.pid.0)[k],
        forall|k: int|
            crate::contiguous_types::row_pids(sel@, c.pid.0).len() <= k < 64 ==> !(
            #[trigger] final(neighbors)@[64 * (c.pid.0 as int) + k]).spec_valid(),
        // without the extension pass no pick can be the row's own id, so
        // the rewritten row keeps at least one neighbour
        !h.extend_candidates ==> final(neighbors)@[64 * (c.pid.0 as int)].spec_valid(),
        final(insertion).visited_view().len() == old(insertion).visited_view().len(),
        final(insertion).spec_ef() == old(insertion).spec_ef(),
{
    let _nlen = neighbors.len();
    let n = st.len();
    let ghost n_i = st.spec_len() as int;
    let zero_slice = LayerSlice { start: 0, total: n, stride: 64 };
    let cq = match st.get(c.pid.0 as usize) {
        Some(v) => v,
        None => {
            proof {
                assert(false);
            }
            Vec::new()
        },
    };
    proof {
        st.lemma_point_wf(c.pid.0 as int);
        lemma_zero_layer_rows_wf(neighbors@, zero_slice, new as int + 1);
    }
    let found2 = insertion.add_neighbor_heuristic(
        new,
        c.pid.0,
        &cq,
        neighbors,
        zero_slice,
        st,
        h,
        Ghost(new as int + 1),
    ).0;
    let cnode = crate::contiguous_types::ZeroNode { base: 64 * (c.pid.0 as usize) };
    proof {
        assert(64 * (c.pid.0 as int) + 64 <= 64 * n_i) by (nonlinear_arith)
            requires
                0 <= (c.pid.0 as int) < n_i,
        ;
        st.lemma_len_bound();
        assert forall|k: int| 0 <= k < found2@.len() implies (
        #[trigger] found2@[k].pid).spec_valid() by {
            assert(cand_good(found2@[k], *st, cq@, new as int + 1));
            assert(found2@[k].pid.0 < 0x4000_0001);
        }
    }
    let ghost before_rw = neighbors@;
    cnode.rewrite(neighbors, &found2, c.pid.0);
    proof {
        let cb = 64 * (c.pid.0 as int);
        assert(cnode.base == cb);
        assert forall|k: int|
            0 <= k < 64 && (#[trigger] neighbors@[cb + k]).spec_valid() implies neighbors@[cb
            + k].0 < new as int + 1 && neighbors@[cb + k].0 != c.pid.0 as int by {
            let e = neighbors@[cb + k];
            let w = choose|w: int|
                0 <= w < found2@.len() && (#[trigger] found2@[w]).pid == e && found2@[w].pid.0
                    != c.pid.0;
            assert(cand_good(found2@[w], *st, cq@, new as int + 1));
        }
        lemma_row_update_wf(before_rw, neighbors@, n_i, new as int + 1, c.pid.0 as int);
        if !h.extend_candidates {
            // every pick is `new` or one of the old neighbours, none of
            // which is the row's own id
            assert forall|i: int|
                0 <= i < found2@.len() implies (#[trigger] found2@[i]).pid.0 != c.pid.0 by {
                if found2@[i].pid.0 != new {
                    let k = choose|k: int|
                        0 <= k < zero_slice.stride && #[trigger] before_rw[zero_slice.start + (
                        c.pid.0 as int) * zero_slice.stride + k] == found2@[i].pid;
                    assert(before_rw[64 * (c.pid.0 as int) + k] == found2@[i].pid);
                    assert(before_rw[64 * (c.pid.0 as int) + k].spec_valid());
                }
            }
            assert(crate::contiguous_types::row_pids(found2@, c.pid.0) =~= found2@.map_values(
                |cc: Candidate| cc.pid,
            )) by {
                assert(found2@.filter(|cc: Candidate| cc.pid.0 != c.pid.0) =~= found2@) by {
                    lemma_filter_all(found2@, |cc: Candidate| cc.pid.0 != c.pid.0);
                }
            }
            assert(crate::contiguous_types::row_pids(found2@, c.pid.0).len() >= 1);
            assert(neighbors@[cb + 0] == crate::contiguous_types::row_pids(found2@, c.pid.0)[0]);
            assert(neighbors@[cb + 0].spec_valid()) by {
                assert(found2@[0].pid.spec_valid());
                assert(crate::contiguous_types::row_pids(found2@, c.pid.0)[0] == found2@.map_values(
                    |cc: Candidate| cc.pid,
                )[0]);
            }
            assert(cb + 0 == cb);
        }
        assert forall|i: int|
            0 <= i < found2@.len() implies (#[trigger] found2@[i]).pid.0 == new || (exists|k: int|
                0 <= k < 64 && #[trigger] before_rw[64 * (c.pid.0 as int) + k] == found2@[i].pid)
            || (h.extend_candidates && exists|p: int, k: int|
            0 <= p < st.spec_len() && 0 <= k < 64 && #[trigger] before_rw[64 * p + k] == found2@[
                i].pid) by {
            if found2@[i].pid.0 != new {
                if exists|k: int|
                    0 <= k < zero_slice.stride && #[trigger] before_rw[zero_slice.start + (
                    c.pid.0 as int) * zero_slice.stride + k] == found2@[i].pid {
                    let k = choose|k: int|
                        0 <= k < zero_slice.stride && #[trigger] before_rw[zero_slice.start + (
                        c.pid.0 as int) * zero_slice.stride + k] == found2@[i].pid;
                    assert(before_rw[64 * (c.pid.0 as int) + k] == found2@[i].pid);
                } else {
                    let (p, k): (int, int) = choose|p: int, k: int|
                        0 <= p < zero_slice.total && 0 <= k < zero_slice.stride
                            && #[trigger] before_rw[zero_slice.start + p * zero_slice.stride + k]
                            == found2@[i].pid;
                    assert(before_rw[64 * p + k] == found2@[i].pid);
                }
            }
        }
    }
    Ghost(found2@)
}

/// Every element satisfying the predicate means filtering drops nothing.
proof fn lemma_filter_all(s: Seq<Candidate>, pred: spec_fn(Candidate) -> bool)
    requires
        forall|i: int| 0 <= i < s.len() ==> pred(#[trigger] s[i]),
    ensures
        s.filter(pred) == s,
    decreases s.len(),
{
    reveal(Seq::filter);
    if s.len() > 0 {
        lemma_filter_all(s.drop_last(), pred);
    }
}

/// The greedy descent that finds the neighbour candidates for a new
/// node: width 1 down to the node's own layer, `ef_construction` on the
/// live base layer.
#[verifier::rlimit(100)]
fn descend_for_insert(
    new: u32,
    layer: usize,
    neighbors: &Vec<PointId>,
    meta: &crate::contiguous_types::Meta,
    st: &ContiguousStorage,
    q: &Vec<i64>,
    ef_construction: usize,
    search: &mut Search,
)
    requires
        st.wf(),
        meta.wf(),
        1 <= meta.spec_len(),
        layer < meta.spec_len(),
        meta.layers()[0].total == st.spec_len(),
        meta.layers()[0].start == 0,
        1 <= new < st.spec_len(),
        ef_construction >= 1,
        q@ == st.point(new as int),
        forall|l: int|
            0 <= l < meta.spec_len() ==> (#[trigger] meta.layers()[l]).end <= neighbors@.len(),
        forall|l: int|
            0 <= l < meta.spec_len() ==> (#[trigger] meta.layers()[l]).total <= st.spec_len(),
        forall|l: int|
            (layer as int) < l < meta.spec_len() ==> (#[trigger] meta.layers()[l]).total <= new,
        zero_rows_wf(neighbors@, st.spec_len() as int, new as int),
        forall|l: int|
            (layer as int) < l < meta.spec_len() ==> upper_rows_wf(
                neighbors@,
                #[trigger] spec_layer_slice(*meta, l),
            ),
        old(search).visited_view().len() >= st.spec_len(),
        old(search).spec_ef() >= 1,
    ensures
        final(search).inv(*st, q@, new as int),
        final(search).visited_view().len() == old(search).visited_view().len(),
        final(search).spec_ef() == ef_construction,
        final(search).nearest_view().len() >= 1,
{
    let n = st.len();
    let ghost n_i = st.spec_len() as int;
    proof {
        st.lemma_point_wf(new as int);
        assert(64 * n_i == meta.layers()[0].end);
    }
    search.reset();
    proof {
        assert(search.inv(*st, q@, 1));
    }
    search.push(0, q, st, Ghost(1));
    let num = if layer == 0 {
        64
    } else {
        32
    };
    let top = meta.len() - 1;
    let mut cur = top;
    while cur > layer
        invariant
            layer <= cur <= top,
            search.inv(
                *st,
                q@,
                if cur == top {
                    1int
                } else {
                    meta.layers()[cur + 1].total as int
                },
            ),
            search.visited_view().len() == old(search).visited_view().len(),
            search.nearest_view().len() >= 1,
            search.spec_ef() >= 1,
        decreases cur,
    {
        let ghost bcur: int = if cur == top {
            1int
        } else {
            meta.layers()[cur + 1].total as int
        };
        let ghost tcur: int = meta.layers()[cur as int].total as int;
        proof {
            if cur < top {
                assert(meta.layers()[cur + 1].total == meta.layers()[cur as int].total
                    - meta.layers()[cur as int].max) by {
                    let j = cur + 1;
                    assert(meta.layers()[j].total == meta.layers()[j - 1].total - meta.layers()[j
                        - 1].max);
                }
            }
            search.lemma_inv_widen(*st, q@, bcur, tcur);
        }
        search.set_ef(1);
        let ls = meta.layer(cur);
        proof {
            assert(upper_rows_wf(neighbors@, spec_layer_slice(*meta, cur as int)));
            assert(layer_rows_wf(neighbors@, ls, tcur)) by {
                assert(meta.layers()[cur as int].end == meta.layers()[cur as int].start
                    + meta.layers()[cur as int].total * 32);
            }
        }
        search.search(q, neighbors, ls, st, num, Ghost(tcur));
        search.cull_step(Ghost(*st), Ghost(q@), Ghost(tcur));
        proof {
            if cur - 1 < top {
                assert(meta.layers()[cur as int].total == tcur);
            }
        }
        cur = cur - 1;
    }
    proof {
        let bfin: int = if cur == top {
            1int
        } else {
            meta.layers()[cur + 1].total as int
        };
        search.lemma_inv_widen(*st, q@, bfin, new as int);
    }
    search.set_ef(ef_construction);
    let zero_slice = LayerSlice { start: 0, total: n, stride: 64 };
    proof {
        lemma_zero_layer_rows_wf(neighbors@, zero_slice, new as int);
    }
    search.search(q, neighbors, zero_slice, st, num, Ghost(new as int));
}

/// Connects a new node to its chosen neighbours: writes its own row in
/// pick order and adds it to (or re-selects) each neighbour's row.
#[verifier::rlimit(100)]
fn connect_all(
    new: u32,
    found: &Vec<Candidate>,
    q: &Vec<i64>,
    st: &ContiguousStorage,
    heuristic: Option<Heuristic>,
    neighbors: &mut Vec<PointId>,
    insertion: &mut Search,
) -> (poss_g: Ghost<Seq<int>>)
    requires
        st.wf(),
        1 <= new < st.spec_len(),
        q@ == st.point(new as int),
        64 * st.spec_len() <= old(neighbors)@.len(),
        zero_rows_wf(old(neighbors)@, st.spec_len() as int, new as int),
        heuristic is None ==> zero_rows_sorted(old(neighbors)@, st.spec_len() as int, *st),
        found@.len() <= 64,
        forall|k: int| 0 <= k < found@.len() ==> cand_good(#[trigger] found@[k], *st, q@, new as int),
        forall|i: int, j: int|
            0 <= i < j < found@.len() ==> (#[trigger] found@[i]).pid != (#[trigger] found@[j]).pid,
        heuristic is None ==> cands_sorted_asc(found@),
        old(insertion).visited_view().len() >= st.spec_len(),
        old(insertion).spec_ef() >= 1,
    ensures
        final(neighbors)@.len() == old(neighbors)@.len(),
        zero_rows_wf(final(neighbors)@, st.spec_len() as int, new as int + 1),
        forall|j: int|
            64 * (st.spec_len() as int) <= j < old(neighbors)@.len()
                ==> #[trigger] final(neighbors)@[j] == old(neighbors)@[j],
        heuristic is None ==> zero_rows_sorted(final(neighbors)@, st.spec_len() as int, *st),
        // the new node's row holds exactly the picks, in pick order
        forall|k: int|
            0 <= k < found@.len() ==> #[trigger] final(neighbors)@[64 * (new as int) + k]
                == found@[k].pid,
        forall|k: int|
            found@.len() <= k < 64 ==> !(#[trigger] final(neighbors)@[64 * (new as int)
                + k]).spec_valid(),
        // rows of nodes that are neither `new` nor picked are untouched
        forall|p: int, k: int|
            0 <= p < st.spec_len() && 0 <= k < 64 && p != new as int && (forall|j: int|
                0 <= j < found@.len() ==> (#[trigger] found@[j]).pid.0 != p)
                ==> #[trigger] final(neighbors)@[64 * p + k] == old(neighbors)@[64 * p + k],
        // simple mode: each pick's row received `new` at a position its
        // distance order allows, or kept all 64 strictly closer entries
        // (position `poss_g@[j]` past the row)
        poss_g@.len() == found@.len(),
        heuristic is None ==> forall|j: int|
            0 <= j < found@.len() ==> row_insert_pos(
                old(neighbors)@,
                (#[trigger] found@[j]).pid.0,
                poss_g@[j],
                found@[j].distance,
                *st,
            ) && row_shift_inserted(
                old(neighbors)@,
                final(neighbors)@,
                found@[j].pid.0,
                poss_g@[j],
                PointId(new),
            ),
        final(insertion).visited_view().len() == old(insertion).visited_view().len(),
        final(insertion).spec_ef() == old(insertion).spec_ef(),
{
    let _nlen = neighbors.len();
    let ghost n_i = st.spec_len() as int;
    proof {
        st.lemma_point_wf(new as int);
    }
    let ghost sorted_mode = heuristic is None;
    let node = crate::contiguous_types::ZeroNode { base: 64 * (new as usize) };
    proof {
        assert(64 * (new as int) + 64 <= 64 * n_i) by (nonlinear_arith)
            requires
                0 <= (new as int) < n_i,
        ;
    }
    let fl = found.len();
    let ghost mut poss: Seq<int> = Seq::empty();
    for i in 0..fl
        invariant
            found@.len() == fl,
            fl <= 64,
            neighbors@.len() == old(neighbors)@.len(),
            zero_rows_wf(neighbors@, n_i, new as int + 1),
            forall|j: int|
                64 * n_i <= j < old(neighbors)@.len() ==> #[trigger] neighbors@[j] == old(
                    neighbors,
                )@[j],
            (heuristic is None) ==> zero_rows_sorted(neighbors@, n_i, *st),
            forall|k: int|
                0 <= k < i ==> #[trigger] neighbors@[64 * (new as int) + k] == found@[k].pid,
            forall|k: int|
                i <= k < 64 ==> !(#[trigger] neighbors@[64 * (new as int) + k]).spec_valid(),
            forall|p: int, k: int|
                0 <= p < n_i && 0 <= k < 64 && p != new as int && (forall|j: int|
                    0 <= j < i ==> (#[trigger] found@[j]).pid.0 != p) ==> #[trigger] neighbors@[64
                    * p + k] == old(neighbors)@[64 * p + k],
            poss.len() == i,
            heuristic is None ==> forall|j: int|
                0 <= j < i ==> row_insert_pos(
                    old(neighbors)@,
                    (#[trigger] found@[j]).pid.0,
                    poss[j],
                    found@[j].distance,
                    *st,
                ) && row_shift_inserted(
                    old(neighbors)@,
                    neighbors@,
                    found@[j].pid.0,
                    poss[j],
                    PointId(new),
                ),
            insertion.visited_view().len() == old(insertion).visited_view().len(),
            insertion.spec_ef() == old(insertion).spec_ef(),
        decreases fl - i,
    {
        let c = found[i];
        proof {
            assert(cand_good(found@[i as int], *st, q@, new as int));
            // this pick's row is still as the call found it
            assert forall|k: int|
                0 <= k < 64 implies #[trigger] neighbors@[64 * (c.pid.0 as int) + k] == old(
                    neighbors,
                )@[64 * (c.pid.0 as int) + k] by {
                assert forall|j: int|
                    0 <= j < i implies (#[trigger] found@[j]).pid.0 != c.pid.0 by {
                    assert(found@[j].pid != found@[i as int].pid);
                }
            }
        }
        let ghost before_conn = neighbors@;
        let ghost ipos: int = 0;
        if let Some(h) = heuristic {
            let _sel = connect_heuristic(neighbors, new, c, st, h, insertion);
        } else {
            let pos = connect_simple(neighbors, new, c, q, st);
            proof {
                ipos = pos@;
            }
        }
        proof {
            let cb = 64 * (c.pid.0 as int);
            let nb = 64 * (new as int);
            assert forall|k: int| 0 <= k < 64 implies #[trigger] neighbors@[nb + k]
                == before_conn[nb + k] by {
                assert(nb + k < cb || cb + 64 <= nb + k) by (nonlinear_arith)
                    requires
                        0 <= k < 64,
                        new as int != c.pid.0 as int,
                        cb == 64 * (c.pid.0 as int),
                        nb == 64 * (new as int),
                ;
            }
            assert forall|j: int|
                64 * n_i <= j < old(neighbors)@.len() implies #[trigger] neighbors@[j] == old(
                    neighbors,
                )@[j] by {
                assert(cb + 64 <= 64 * n_i) by (nonlinear_arith)
                    requires
                        0 <= (c.pid.0 as int) < n_i,
                        cb == 64 * (c.pid.0 as int),
                ;
                assert(neighbors@[j] == before_conn[j]);
            }
        }
        let ghost before_set = neighbors@;
        node.set(neighbors, i, c.pid);
        proof {
            let nb = 64 * (new as int);
            assert(node.base == nb);
            assert forall|k: int|
                0 <= k < 64 && (#[trigger] neighbors@[nb + k]).spec_valid() implies neighbors@[nb
                + k].0 < new as int + 1 && neighbors@[nb + k].0 != new as int by {
                if k < i {
                    assert(neighbors@[nb + k] == before_set[nb + k]);
                    assert(before_set[nb + k] == found@[k].pid);
                    assert(cand_good(found@[k], *st, q@, new as int));
                } else if k == i {
                    assert(neighbors@[nb + k] == c.pid);
                } else {
                    assert(neighbors@[nb + k] == before_set[nb + k]);
                    assert(!before_set[nb + k].spec_valid());
                }
            }
            assert forall|k1: int, k2: int|
                0 <= k1 < k2 < 64 && (#[trigger] neighbors@[nb + k2]).spec_valid() implies (
            #[trigger] neighbors@[nb + k1]).spec_valid() by {
                if k2 > i {
                    assert(neighbors@[nb + k2] == before_set[nb + k2]);
                    assert(!before_set[nb + k2].spec_valid());
                } else {
                    if k1 < i {
                        assert(neighbors@[nb + k1] == before_set[nb + k1]);
                        assert(before_set[nb + k1] == found@[k1].pid);
                        assert(cand_good(found@[k1], *st, q@, new as int));
                    } else {
                        assert(neighbors@[nb + k1] == c.pid);
                    }
                }
            }
            if heuristic is None {
                assert forall|k1: int, k2: int|
                    0 <= k1 < k2 < 64 && (#[trigger] neighbors@[nb + k1]).spec_valid() && (
                #[trigger] neighbors@[nb + k2]).spec_valid() implies sq_dist(
                    st.point(new as int),
                    st.point(neighbors@[nb + k1].0 as int),
                ) <= sq_dist(st.point(new as int), st.point(neighbors@[nb + k2].0 as int)) by {
                    assert(k2 <= i);
                    assert(neighbors@[nb + k1] == found@[k1].pid);
                    assert(neighbors@[nb + k2] == found@[k2].pid);
                    assert(cand_lt(found@[k1], found@[k2]));
                    assert(cand_good(found@[k1], *st, q@, new as int));
                    assert(cand_good(found@[k2], *st, q@, new as int));
                    assert(q@ == st.point(new as int));
                }
                lemma_row_update_sorted(before_set, neighbors@, n_i, *st, new as int);
            }
            lemma_row_update_wf(before_set, neighbors@, n_i, new as int + 1, new as int);
            assert forall|j: int|
                64 * n_i <= j < old(neighbors)@.len() implies #[trigger] neighbors@[j] == old(
                    neighbors,
                )@[j] by {
                assert(nb + 64 <= 64 * n_i);
                assert(neighbors@[j] == before_set[j]);
            }
            // untouched rows stay equal to the pre-call state
            let cb = 64 * (c.pid.0 as int);
            assert forall|p: int, k: int|
                0 <= p < n_i && 0 <= k < 64 && p != new as int && (forall|j: int|
                    0 <= j < i + 1 ==> (#[trigger] found@[j]).pid.0 != p) implies
                #[trigger] neighbors@[64 * p + k] == old(neighbors)@[64 * p + k] by {
                assert(found@[i as int].pid.0 != p);
                assert(64 * p + k < cb || cb + 64 <= 64 * p + k) by (nonlinear_arith)
                    requires
                        0 <= p < n_i,
                        0 <= k < 64,
                        p != c.pid.0 as int,
                        cb == 64 * (c.pid.0 as int),
                ;
                assert(64 * p + k < nb || nb + 64 <= 64 * p + k) by (nonlinear_arith)
                    requires
                        0 <= p < n_i,
                        0 <= k < 64,
                        p != new as int,
                        nb == 64 * (new as int),
                ;
                assert(before_conn[64 * p + k] == old(neighbors)@[64 * p + k]);
                assert(before_set[64 * p + k] == before_conn[64 * p + k]);
            }
            // the shift-insert record of every pick handled so far still
            // holds of the current state
            if heuristic is None {
                poss = poss.push(ipos);
                assert forall|j: int| 0 <= j < i + 1 implies row_insert_pos(
                    old(neighbors)@,
                    (#[trigger] found@[j]).pid.0,
                    poss[j],
                    found@[j].distance,
                    *st,
                ) && row_shift_inserted(
                    old(neighbors)@,
                    neighbors@,
                    found@[j].pid.0,
                    poss[j],
                    PointId(new),
                ) by {
                    let fb = 64 * (found@[j].pid.0 as int);
                    assert forall|k: int|
                        0 <= k < 64 implies #[trigger] neighbors@[fb + k] == before_set[fb
                        + k] by {
                        assert(fb + k < nb || nb + 64 <= fb + k) by (nonlinear_arith)
                            requires
                                0 <= k < 64,
                                found@[j].pid.0 as int != new as int,
                                fb == 64 * (found@[j].pid.0 as int),
                                nb == 64 * (new as int),
                        ;
                    }
                    if j < i {
                        assert(poss[j] == poss.drop_last()[j]);
                        assert forall|k: int|
                            0 <= k < 64 implies #[trigger] before_set[fb + k] == before_conn[fb
                            + k] by {
                            assert(found@[j].pid != found@[i as int].pid);
                            assert(fb + k < cb || cb + 64 <= fb + k) by (nonlinear_arith)
                                requires
                                    0 <= k < 64,
                                    found@[j].pid.0 as int != c.pid.0 as int,
                                    fb == 64 * (found@[j].pid.0 as int),
                                    cb == 64 * (c.pid.0 as int),
                            ;
                        }
                        lemma_row_preds_stable(
                            old(neighbors)@,
                            old(neighbors)@,
                            before_conn,
                            neighbors@,
                            found@[j].pid.0,
                            poss[j],
                            found@[j].distance,
                            PointId(new),
                            *st,
                        );
                    } else {
                        // this iteration's pick: its record comes from the
                        // connect call, shifted to the pre-call row state
                        assert(poss[j] == ipos);
                        assert forall|k: int|
                            0 <= k < 64 implies #[trigger] before_conn[64 * (c.pid.0 as int)
                            + k] == old(neighbors)@[64 * (c.pid.0 as int) + k] by {}
                        lemma_row_preds_stable(
                            before_conn,
                            old(neighbors)@,
                            before_set,
                            neighbors@,
                            c.pid.0,
                            ipos,
                            c.distance,
                            PointId(new),
                            *st,
                        );
                    }
                }
            } else {
                poss = poss.push(0);
            }
        }
    }
    Ghost(poss)
}

/// Inserts node `new`, whose highest layer is `layer`, into the graph:
/// a greedy descent finds its neighbours, the chosen selection strategy
/// picks up to `2 * M` of them, `new`'s row is written and each chosen
/// neighbour's row is updated in turn.
fn insert_point(
    new: u32,
    layer: usize,
    neighbors: &mut Vec<PointId>,
    meta: &crate::contiguous_types::Meta,
    st: &ContiguousStorage,
    heuristic: Option<Heuristic>,
    ef_construction: usize,
    search: &mut Search,
    insertion: &mut Search,
) -> (found_g: Ghost<(Seq<Candidate>, Seq<int>)>)
    requires
        st.wf(),
        meta.wf(),
        1 <= meta.spec_len(),
        layer < meta.spec_len(),
        meta.layers()[0].total == st.spec_len(),
        meta.layers()[0].start == 0,
        1 <= new < st.spec_len(),
        ef_construction >= 1,
        forall|l: int|
            0 <= l < meta.spec_len() ==> (#[trigger] meta.layers()[l]).end <= old(
                neighbors,
            )@.len(),
        forall|l: int|
            0 <= l < meta.spec_len() ==> (#[trigger] meta.layers()[l]).total <= st.spec_len(),
        forall|l: int|
            (layer as int) < l < meta.spec_len() ==> (#[trigger] meta.layers()[l]).total <= new,
        zero_rows_wf(old(neighbors)@, st.spec_len() as int, new as int),
        forall|l: int|
            (layer as int) < l < meta.spec_len() ==> upper_rows_wf(
                old(neighbors)@,
                #[trigger] spec_layer_slice(*meta, l),
            ),
        old(search).visited_view().len() >= st.spec_len(),
        old(search).spec_ef() >= 1,
        old(insertion).visited_view().len() >= st.spec_len(),
        old(insertion).spec_ef() >= 1,
        heuristic is None ==> zero_rows_sorted(old(neighbors)@, st.spec_len() as int, *st),
    ensures
        final(neighbors)@.len() == old(neighbors)@.len(),
        zero_rows_wf(final(neighbors)@, st.spec_len() as int, new as int + 1),
        forall|j: int|
            64 * (st.spec_len() as int) <= j < old(neighbors)@.len() ==> final(neighbors)@[j]
                == old(neighbors)@[j],
        (heuristic is None && zero_rows_sorted(old(neighbors)@, st.spec_len() as int, *st))
            ==> zero_rows_sorted(final(neighbors)@, st.spec_len() as int, *st),
        // `found_g@.0` is the pick list: at least one true-distance
        // neighbour below `new`, each picked once
        1 <= found_g@.0.len() <= 64,
        forall|k: int|
            0 <= k < found_g@.0.len() ==> cand_good(
                #[trigger] found_g@.0[k],
                *st,
                st.point(new as int),
                new as int,
            ),
        forall|i: int, j: int|
            0 <= i < j < found_g@.0.len() ==> (#[trigger] found_g@.0[i]).pid != (
            #[trigger] found_g@.0[j]).pid,
        // the new node's row holds exactly the picks, in pick order
        forall|k: int|
            0 <= k < found_g@.0.len() ==> #[trigger] final(neighbors)@[64 * (new as int) + k]
                == found_g@.0[k].pid,
        forall|k: int|
            found_g@.0.len() <= k < 64 ==> !(#[trigger] final(neighbors)@[64 * (new as int)
                + k]).spec_valid(),
        // simple mode: the picks are the nearest search results in
        // order, and each pick's row received `new` at the recorded
        // sorted position (or kept its 64 strictly closer entries)
        heuristic is None ==> cands_sorted_asc(found_g@.0) && found_g@.0
            == final(search).nearest_view().take(found_g@.0.len() as int)
            && found_g@.1.len() == found_g@.0.len() && forall|j: int|
            0 <= j < found_g@.0.len() ==> row_insert_pos(
                old(neighbors)@,
                (#[trigger] found_g@.0[j]).pid.0,
                found_g@.1[j],
                found_g@.0[j].distance,
                *st,
            ) && row_shift_inserted(
                old(neighbors)@,
                final(neighbors)@,
                found_g@.0[j].pid.0,
                found_g@.1[j],
                PointId(new),
            ),
        final(search).visited_view().len() == old(search).visited_view().len(),
        final(insertion).visited_view().len() == old(insertion).visited_view().len(),
        final(search).spec_ef() >= 1,
        final(insertion).spec_ef() >= 1,
{
    let n = st.len();
    let ghost n_i = st.spec_len() as int;
    proof {
        assert(64 * n_i == meta.layers()[0].end);
    }
    let q = match st.get(new as usize) {
        Some(v) => v,
        None => {
            proof {
                assert(false);
            }
            Vec::new()
        },
    };
    insertion.set_ef(ef_construction);
    descend_for_insert(new, layer, neighbors, meta, st, &q, ef_construction, search);
    let zero_slice = LayerSlice { start: 0, total: n, stride: 64 };
    let found: Vec<Candidate> = match heuristic {
        None => {
            let src = search.select_simple();
            let fl = if src.len() < 64 {
                src.len()
            } else {
                64
            };
            let mut f: Vec<Candidate> = Vec::new();
            for i in 0..fl
                invariant
                    fl <= src@.len(),
                    f@.len() == i,
                    forall|j: int| 0 <= j < i ==> #[trigger] f@[j] == src@[j],
                decreases fl - i,
            {
                f.push(src[i]);
            }
            proof {
                assert(f@ =~= search.nearest_view().take(fl as int));
                assert forall|i: int, j: int|
                    0 <= i < j < f@.len() implies (#[trigger] f@[i]).pid != (
                #[trigger] f@[j]).pid by {
                    assert(cand_lt(search.nearest_view()[i], search.nearest_view()[j]));
                    assert(cand_good(search.nearest_view()[i], *st, q@, new as int));
                    assert(cand_good(search.nearest_view()[j], *st, q@, new as int));
                }
            }
            f
        },
        Some(h) => {
            proof {
                lemma_zero_layer_rows_wf(neighbors@, zero_slice, new as int);
                st.lemma_point_wf(new as int);
            }
            search.select_heuristic(&q, neighbors, zero_slice, st, h, Ghost(new as int)).0
        },
    };
    let poss = connect_all(new, &found, &q, st, heuristic, neighbors, insertion);
    Ghost((found@, poss@))
}

/// Layer totals shrink as the layer index grows.
proof fn lemma_meta_totals_decreasing(meta: crate::contiguous_types::Meta, i: int, j: int)
    requires
        meta.wf(),
        0 <= i <= j < meta.spec_len(),
    ensures
        meta.layers()[j].total <= meta.layers()[i].total,
    decreases j - i,
{
    if i < j {
        lemma_meta_totals_decreasing(meta, i + 1, j);
        let k = i + 1;
        assert(meta.layers()[k].total == meta.layers()[k - 1].total - meta.layers()[k - 1].max);
    }
}

/// Every upper layer's region begins at or after the base layer's end,
/// and every region ends within the last layer's end.
proof fn lemma_meta_region_bounds(meta: crate::contiguous_types::Meta, l: int)
    requires
        meta.wf(),
        0 <= l < meta.spec_len(),
    ensures
        meta.layers()[l].start >= meta.layers()[0].end || l == 0,
        meta.layers()[l].end <= meta.layers()[meta.spec_len() - 1].end,
        meta.layers()[l].start <= meta.layers()[l].end,
    decreases meta.spec_len() - l,
{
    assert(meta.layers()[l].end == meta.layers()[l].start + meta.layers()[l].total
        * spec_stride(l));
    assert(meta.layers()[l].total * spec_stride(l) >= 0) by (nonlinear_arith)
        requires
            meta.layers()[l].total >= 0,
            spec_stride(l) >= 0,
    ;
    if l < meta.spec_len() - 1 {
        lemma_meta_region_bounds(meta, l + 1);
        let k = l + 1;
        assert(meta.layers()[k].start == meta.layers()[k - 1].end);
    }
    if l >= 1 {
        lemma_meta_starts_after(meta, l);
    }
}

/// The start of layer `l >= 1` lies at or after the base layer's end.
proof fn lemma_meta_starts_after(meta: crate::contiguous_types::Meta, l: int)
    requires
        meta.wf(),
        1 <= l < meta.spec_len(),
    ensures
        meta.layers()[l].start >= meta.layers()[0].end,
    decreases l,
{
    if l == 1 {
        assert(meta.layers()[1].start == meta.layers()[1 - 1].end);
    } else {
        lemma_meta_starts_after(meta, l - 1);
        assert(meta.layers()[l].start == meta.layers()[l - 1].end);
        assert(meta.layers()[l - 1].end == meta.layers()[l - 1].start + meta.layers()[l
            - 1].total * spec_stride(l - 1));
        assert(meta.layers()[l - 1].total * spec_stride(l - 1) >= 0) by (nonlinear_arith)
            requires
                meta.layers()[l - 1].total >= 0,
                spec_stride(l - 1) >= 0,
        ;
    }
}

/// Regions of later layers begin at or after the end of an earlier one.
proof fn lemma_meta_start_after_end(meta: crate::contiguous_types::Meta, a: int, b: int)
    requires
        meta.wf(),
        0 <= a < b < meta.spec_len(),
    ensures
        meta.layers()[b].start >= meta.layers()[a].end,
    decreases b - a,
{
    if b == a + 1 {
        assert(meta.layers()[b].start == meta.layers()[b - 1].end);
    } else {
        lemma_meta_start_after_end(meta, a + 1, b);
        let k = a + 1;
        assert(meta.layers()[k].start == meta.layers()[k - 1].end);
        assert(meta.layers()[k].end == meta.layers()[k].start + meta.layers()[k].total
            * spec_stride(k));
        assert(meta.layers()[k].total * spec_stride(k) >= 0) by (nonlinear_arith)
            requires
                meta.layers()[k].total >= 0,
                spec_stride(k) >= 0,
        ;
    }
}

/// Membership of a candidate in a list.
pub open spec fn in_cands(c: Candidate, s: Seq<Candidate>) -> bool {
    exists|j: int| 0 <= j < s.len() && #[trigger] s[j] == c
}

/// `c` occurs among the first `n` entries of `s`.
pub open spec fn in_prefix(c: Candidate, s: Seq<Candidate>, n: int) -> bool {
    exists|j: int| 0 <= j < n && #[trigger] s[j] == c
}

proof fn lemma_in_prefix_mono(c: Candidate, s: Seq<Candidate>, n1: int, n2: int)
    requires
        in_prefix(c, s, n1),
        n1 <= n2,
    ensures
        in_prefix(c, s, n2),
{
    let j = choose|j: int| 0 <= j < n1 && #[trigger] s[j] == c;
    assert(0 <= j < n2 && s[j] == c);
}

/// Some pick among the first `n` of `adm` lies closer to `c` than the
/// query does: the diversity rule's ground for pruning `c`.
pub open spec fn pruned_by(c: Candidate, adm: Seq<Candidate>, n: int, st: ContiguousStorage) -> bool {
    exists|i: int|
        0 <= i < n && sq_dist(
            st.point(c.pid.0 as int),
            st.point((#[trigger] adm[i]).pid.0 as int),
        ) < c.distance
}

proof fn lemma_pruned_by_grow(
    c: Candidate,
    adm1: Seq<Candidate>,
    adm2: Seq<Candidate>,
    n: int,
    st: ContiguousStorage,
)
    requires
        pruned_by(c, adm1, n, st),
        n <= adm2.len(),
        forall|i: int| 0 <= i < n ==> #[trigger] adm2[i] == adm1[i],
    ensures
        pruned_by(c, adm2, n, st),
{
    let i = choose|i: int|
        0 <= i < n && sq_dist(st.point(c.pid.0 as int), st.point((#[trigger] adm1[i]).pid.0 as int))
            < c.distance;
    assert(0 <= i < n && sq_dist(
        st.point(c.pid.0 as int),
        st.point((adm2[i]).pid.0 as int),
    ) < c.distance);
}

proof fn lemma_pruned_by_mono_bound(
    c: Candidate,
    adm: Seq<Candidate>,
    n1: int,
    n2: int,
    st: ContiguousStorage,
)
    requires
        pruned_by(c, adm, n1, st),
        n1 <= n2,
    ensures
        pruned_by(c, adm, n2, st),
{
    let i = choose|i: int|
        0 <= i < n1 && sq_dist(st.point(c.pid.0 as int), st.point((#[trigger] adm[i]).pid.0 as int))
            < c.distance;
    assert(0 <= i < n2 && sq_dist(
        st.point(c.pid.0 as int),
        st.point((adm[i]).pid.0 as int),
    ) < c.distance);
}

/// Insertion sort, nearest first; the result holds exactly the input's
/// entries.
fn sort_cands(src: &Vec<Candidate>) -> (r: Vec<Candidate>)
    ensures
        r@.len() == src@.len(),
        forall|i: int, j: int| 0 <= i < j < r@.len() ==> cand_le(#[trigger] r@[i], #[trigger] r@[j]),
        forall|i: int| 0 <= i < r@.len() ==> in_cands(#[trigger] r@[i], src@),
        r@.to_multiset() == src@.to_multiset(),
{
    let mut out: Vec<Candidate> = Vec::new();
    let n = src.len();
    proof {
        assert(out@ =~= src@.take(0));
    }
    for i in 0..n
        invariant
            out@.len() == i,
            forall|a: int, b: int|
                0 <= a < b < out@.len() ==> cand_le(#[trigger] out@[a], #[trigger] out@[b]),
            forall|a: int| 0 <= a < out@.len() ==> in_cands(#[trigger] out@[a], src@),
            out@.to_multiset() == src@.take(i as int).to_multiset(),
        decreases n - i,
    {
        let x = src[i];
        let mut j = out.len();
        while j > 0 && cand_less(&x, &out[j - 1])
            invariant
                j <= out@.len(),
                forall|k: int| j <= k < out@.len() ==> cand_lt(x, #[trigger] out@[k]),
            decreases j,
        {
            j = j - 1;
        }
        let ghost before = out@;
        out.insert(j, x);
        proof {
            crate::contiguous::lemma_insert_multiset(before, j as int, x);
            assert(src@.take(i + 1) =~= src@.take(i as int).push(src@[i as int]));
            src@.take(i as int).to_multiset_ensures();
            assert(src@.take(i + 1).to_multiset() == src@.take(i as int).to_multiset().insert(x));
            assert forall|a: int, b: int| 0 <= a < b < out@.len() implies cand_le(
                #[trigger] out@[a],
                #[trigger] out@[b],
            ) by {
                if a < j && b == j {
                    assert(!cand_lt(x, before[j - 1]));
                    assert(cand_le(before[a], before[j - 1]));
                } else if a == j && b > j {
                    assert(cand_lt(x, before[b - 1]));
                }
            }
            assert forall|a: int| 0 <= a < out@.len() implies in_cands(
                #[trigger] out@[a],
                src@,
            ) by {
                if a < j {
                    assert(out@[a] == before[a]);
                    assert(in_cands(before[a], src@));
                } else if a == j {
                    assert(src@[i as int] == out@[a]);
                } else {
                    assert(out@[a] == before[a - 1]);
                    assert(in_cands(before[a - 1], src@));
                }
            }
        }
    }
    proof {
        assert(src@.take(n as int) =~= src@);
    }
    out
}

/// Same entries means same id-distinctness: if the input's ids are
/// pairwise distinct, so are the ids of any permutation of it.
proof fn lemma_pid_distinct_transfer(src: Seq<Candidate>, out: Seq<Candidate>)
    requires
        out.to_multiset() == src.to_multiset(),
        forall|a: int, b: int|
            0 <= a < b < src.len() ==> (#[trigger] src[a]).pid != (#[trigger] src[b]).pid,
    ensures
        forall|i: int, j: int|
            0 <= i < j < out.len() ==> (#[trigger] out[i]).pid != (#[trigger] out[j]).pid,
{
    src.to_multiset_ensures();
    out.to_multiset_ensures();
    assert(src.no_duplicates()) by {
        assert forall|a: int, b: int|
            0 <= a < src.len() && 0 <= b < src.len() && a != b implies src[a] != src[b] by {
            if a < b {
                assert(src[a].pid != src[b].pid);
            } else {
                assert(src[b].pid != src[a].pid);
            }
        }
    }
    src.lemma_multiset_has_no_duplicates();
    out.lemma_multiset_has_no_duplicates_conv();
    assert forall|i: int, j: int|
        0 <= i < j < out.len() implies (#[trigger] out[i]).pid != (#[trigger] out[j]).pid by {
        if out[i].pid == out[j].pid {
            assert(out[i] != out[j]);
            assert(out.contains(out[i]) && out.contains(out[j]));
            assert(src.to_multiset().count(out[i]) > 0 && src.to_multiset().count(out[j]) > 0);
            assert(src.contains(out[i]) && src.contains(out[j]));
            let a = choose|a: int| 0 <= a < src.len() && src[a] == out[i];
            let b = choose|b: int| 0 <= b < src.len() && src[b] == out[j];
            assert(a != b);
            if a < b {
                assert(src[a].pid != src[b].pid);
            } else {
                assert(src[b].pid != src[a].pid);
            }
        }
    }
}

/// A candidate drawn from the running results `pool` or, through the
/// candidate-extension pass, from a neighbour row of `layer`.
pub open spec fn cand_from(
    c: Candidate,
    pool: Seq<Candidate>,
    neigh: Seq<PointId>,
    layer: LayerSlice,
) -> bool {
    in_cands(c, pool) || exists|p: int, k: int|
        0 <= p < layer.total && 0 <= k < layer.stride && #[trigger] neigh[layer.start + p
            * layer.stride + k] == c.pid
}

/// A fast visited set keyed by point id.
pub struct Visited {
    store: Vec<bool>,
}

impl Visited {
    pub closed spec fn view(self) -> Seq<bool> {
        self.store@
    }

    pub fn with_capacity(capacity: usize) -> (r: Visited)
        ensures
            r@.len() == capacity,
            forall|i: int| 0 <= i < capacity ==> !(#[trigger] r@[i]),
    {
        let mut store: Vec<bool> = Vec::new();
        for i in 0..capacity
            invariant
                store@.len() == i,
                forall|j: int| 0 <= j < i ==> !(#[trigger] store@[j]),
            decreases capacity - i,
        {
            store.push(false);
        }
        Visited { store }
    }

    /// Grows the capacity to at least `capacity`, keeping present marks.
    pub fn reserve_capacity(&mut self, capacity: usize)
        ensures
            final(self)@.len() >= capacity,
            final(self)@.len() >= old(self)@.len(),
            forall|i: int| 0 <= i < old(self)@.len() ==> final(self)@[i] == old(self)@[i],
            forall|i: int|
                old(self)@.len() <= i < final(self)@.len() ==> !(#[trigger] final(self)@[i]),
    {
        while self.store.len() < capacity
            invariant
                self.store@.len() >= old(self)@.len(),
                forall|i: int| 0 <= i < old(self)@.len() ==> #[trigger] self.store@[i] == old(
                    self,
                )@[i],
                forall|i: int|
                    old(self)@.len() <= i < self.store@.len() ==> !(#[trigger] self.store@[i]),
            decreases capacity - self.store.len(),
        {
            self.store.push(false);
        }
    }

    /// Marks `p`; reports whether it was unmarked before.
    pub fn insert(&mut self, p: u32) -> (fresh: bool)
        requires
            (p as int) < old(self)@.len(),
        ensures
            fresh == !old(self)@[p as int],
            final(self)@ == old(self)@.update(p as int, true),
    {
        let was = self.store[p as usize];
        self.store.set(p as usize, true);
        proof {
            if was {
                assert(final(self)@ =~= old(self)@.update(p as int, true));
            }
        }
        !was
    }

    /// Unmarks everything.
    pub fn clear(&mut self)
        ensures
            final(self)@.len() == old(self)@.len(),
            forall|i: int| 0 <= i < final(self)@.len() ==> !(#[trigger] final(self)@[i]),
    {
        let n = self.store.len();
        for i in 0..n
            invariant
                self.store@.len() == n,
                forall|j: int| 0 <= j < i ==> !(#[trigger] self.store@[j]),
            decreases n - i,
        {
            self.store.set(i, false);
        }
    }
}

/// Reusable state for one greedy search: the visited set, the candidate
/// frontier (a min-queue kept as a descending vector), and the sorted
/// running result.
pub struct Search {
    visited: Visited,
    candidates: Vec<Candidate>,
    nearest: Vec<Candidate>,
    working: Vec<Candidate>,
    discarded: Vec<Candidate>,
    ef: usize,
}

impl Search {
    pub closed spec fn nearest_view(self) -> Seq<Candidate> {
        self.nearest@
    }

    pub closed spec fn candidates_view(self) -> Seq<Candidate> {
        self.candidates@
    }

    pub closed spec fn visited_view(self) -> Seq<bool> {
        self.visited@
    }

    pub closed spec fn spec_ef(self) -> int {
        self.ef as int
    }

    /// The running state is consistent with storage `st`, query `q` and
    /// id bound `bound`: both candidate lists are strictly ordered, all
    /// their entries carry true distances of ids below `bound`, and all
    /// of them are marked visited.
    pub open spec fn inv(self, st: ContiguousStorage, q: Seq<i64>, bound: int) -> bool {
        &&& self.visited_view().len() >= st.spec_len()
        &&& 0 <= bound <= st.spec_len()
        &&& cands_sorted_asc(self.nearest_view())
        &&& cands_sorted_desc(self.candidates_view())
        &&& cands_good(self.nearest_view(), st, q, bound)
        &&& cands_good(self.candidates_view(), st, q, bound)
        &&& forall|i: int|
            0 <= i < self.nearest_view().len() ==> self.visited_view()[(
            #[trigger] self.nearest_view()[i]).pid.0 as int]
        &&& forall|i: int|
            0 <= i < self.candidates_view().len() ==> self.visited_view()[(
            #[trigger] self.candidates_view()[i]).pid.0 as int]
    }

    /// A widening of the id bound keeps the invariant.
    pub proof fn lemma_inv_widen(self, st: ContiguousStorage, q: Seq<i64>, b1: int, b2: int)
        requires
            self.inv(st, q, b1),
            b1 <= b2 <= st.spec_len(),
        ensures
            self.inv(st, q, b2),
    {
    }

    pub fn new(capacity: usize) -> (r: Search)
        ensures
            r.visited_view().len() == capacity,
            forall|i: int| 0 <= i < capacity ==> !(#[trigger] r.visited_view()[i]),
            r.nearest_view() == Seq::<Candidate>::empty(),
            r.candidates_view() == Seq::<Candidate>::empty(),
            r.spec_ef() == 1,
    {
        Search {
            visited: Visited::with_capacity(capacity),
            candidates: Vec::new(),
            nearest: Vec::new(),
            working: Vec::new(),
            discarded: Vec::new(),
            ef: 1,
        }
    }

    /// Empties every list and unmarks the visited set; the capacity and
    /// `ef` are kept.
    pub fn reset(&mut self)
        ensures
            final(self).visited_view().len() == old(self).visited_view().len(),
            forall|i: int|
                0 <= i < final(self).visited_view().len() ==> !(
                #[trigger] final(self).visited_view()[i]),
            final(self).nearest_view() == Seq::<Candidate>::empty(),
            final(self).candidates_view() == Seq::<Candidate>::empty(),
            final(self).spec_ef() == old(self).spec_ef(),
    {
        self.visited.clear();
        self.candidates.clear();
        self.nearest.clear();
        self.working.clear();
        self.discarded.clear();
        proof {
            assert(self.nearest@ =~= Seq::<Candidate>::empty());
            assert(self.candidates@ =~= Seq::<Candidate>::empty());
        }
    }

    /// Sets the result-set width used by the next layer search.
    pub fn set_ef(&mut self, ef: usize)
        requires
            ef >= 1,
        ensures
            final(self).spec_ef() == ef,
            final(self).nearest_view() == old(self).nearest_view(),
            final(self).candidates_view() == old(self).candidates_view(),
            final(self).visited_view() == old(self).visited_view(),
    {
        self.ef = ef;
    }

    /// The current result set, nearest first.
    pub fn select_simple(&self) -> (r: &Vec<Candidate>)
        ensures
            r@ == self.nearest_view(),
    {
        &self.nearest
    }

    /// Considers `pid` as a result and frontier candidate for query `q`,
    /// unless it was already visited or falls outside the best `ef`.
    fn push(
        &mut self,
        pid: u32,
        q: &Vec<i64>,
        st: &ContiguousStorage,
        Ghost(bound): Ghost<int>,
    )
        requires
            old(self).inv(*st, q@, bound),
            (pid as int) < bound,
            st.wf(),
            q@.len() == st.stride,
            coords_bounded(q@),
        ensures
            final(self).inv(*st, q@, bound),
            final(self).spec_ef() == old(self).spec_ef(),
            final(self).visited_view().len() == old(self).visited_view().len(),
            old(self).visited_view()[pid as int] ==> final(self).nearest_view() == old(
                self,
            ).nearest_view() && final(self).candidates_view() == old(self).candidates_view()
                && final(self).visited_view() == old(self).visited_view(),
            !old(self).visited_view()[pid as int] ==> final(self).visited_view() == old(
                self,
            ).visited_view().update(pid as int, true),
            // the insertion itself: an unvisited id whose sorted position
            // lies below `ef` lands in both lists at its position; any
            // other id changes nothing
            !old(self).visited_view()[pid as int] ==> {
                let cnew = cand_of(*st, q@, pid);
                let pos = spec_lower_idx(old(self).nearest_view(), cnew);
                &&& (pos < old(self).spec_ef() ==> final(self).nearest_view() == old(
                    self,
                ).nearest_view().insert(pos, cnew) && final(self).candidates_view() == old(
                    self,
                ).candidates_view().insert(
                    spec_desc_idx(old(self).candidates_view(), cnew),
                    cnew,
                ))
                &&& (pos >= old(self).spec_ef() ==> final(self).nearest_view() == old(
                    self,
                ).nearest_view() && final(self).candidates_view() == old(
                    self,
                ).candidates_view())
            },
            old(self).nearest_view().len() <= final(self).nearest_view().len() <= old(
                self,
            ).nearest_view().len() + 1,
            old(self).candidates_view().len() <= final(self).candidates_view().len() <= old(
                self,
            ).candidates_view().len() + 1,
            (!old(self).visited_view()[pid as int] && old(self).nearest_view().len() == 0 && old(
                self,
            ).spec_ef() >= 1) ==> final(self).nearest_view().len() == 1
                && final(self).candidates_view().len() == old(self).candidates_view().len() + 1,
            final(self).candidates_view().len() + 2 * count_false(final(self).visited_view())
                <= old(self).candidates_view().len() + 2 * count_false(old(self).visited_view()),
    {
        let ghost oldv = self.visited@;
        if !self.visited.insert(pid) {
            proof {
                assert(self.visited@ =~= oldv);
            }
            return ;
        }
        proof {
            lemma_count_false_update(oldv, pid as int);
        }
        let d = st.query_distance(q, pid);
        let new = Candidate { distance: d, pid: PointId(pid) };
        proof {
            crate::contiguous::lemma_sq_dist_nonneg(q@, st.point(pid as int));
            assert(new == cand_of(*st, q@, pid));
        }
        let idx = lower_bound_asc(&self.nearest, &new);
        proof {
            lemma_lower_idx_unique(self.nearest@, new, idx as int);
            assert forall|i: int| 0 <= i < self.nearest@.len() implies (
            #[trigger] self.nearest@[i]) != new by {
                if self.nearest@[i] == new {
                    assert(oldv[self.nearest@[i].pid.0 as int]);
                }
            }
        }
        if idx < self.ef {
            let ghost oldn = self.nearest@;
            let ghost oldc = self.candidates@;
            self.nearest.insert(idx, new);
            let didx = lower_bound_desc(&self.candidates, &new);
            proof {
                lemma_desc_idx_unique(self.candidates@, new, didx as int);
                assert forall|i: int| 0 <= i < oldc.len() implies (#[trigger] oldc[i]) != new by {
                    if oldc[i] == new {
                        assert(oldv[oldc[i].pid.0 as int]);
                    }
                }
            }
            self.candidates.insert(didx, new);
            proof {
                assert forall|a: int, b: int|
                    0 <= a < b < self.nearest@.len() implies cand_lt(
                    #[trigger] self.nearest@[a],
                    #[trigger] self.nearest@[b],
                ) by {
                    if a < idx && b == idx {
                        assert(!cand_lt(new, oldn[a]) && oldn[a] != new);
                    } else if a == idx && b > idx {
                        assert(!cand_lt(oldn[b - 1], new) && oldn[b - 1] != new);
                    }
                }
                assert forall|a: int, b: int|
                    0 <= a < b < self.candidates@.len() implies cand_lt(
                    #[trigger] self.candidates@[b],
                    #[trigger] self.candidates@[a],
                ) by {
                    if a < didx && b == didx {
                        assert(cand_lt(new, oldc[a]));
                    } else if a == didx && b > didx {
                        assert(!cand_lt(new, oldc[b - 1]) && oldc[b - 1] != new);
                    }
                }
            }
        }
    }

    /// Greedy best-first search of one layer: repeatedly expands the
    /// nearest frontier candidate, following up to `links` slots of its
    /// row, until no candidate can improve the current results.
    fn search(
        &mut self,
        q: &Vec<i64>,
        neighbors: &Vec<PointId>,
        layer: LayerSlice,
        st: &ContiguousStorage,
        links: usize,
        Ghost(bound): Ghost<int>,
    )
        requires
            old(self).inv(*st, q@, bound),
            st.wf(),
            q@.len() == st.stride,
            coords_bounded(q@),
            layer_rows_wf(neighbors@, layer, bound),
            bound <= layer.total,
            old(self).spec_ef() >= 1,
        ensures
            final(self).inv(*st, q@, bound),
            final(self).spec_ef() == old(self).spec_ef(),
            final(self).visited_view().len() == old(self).visited_view().len(),
            final(self).nearest_view().len() <= if old(self).nearest_view().len() > old(
                self,
            ).spec_ef() {
                old(self).nearest_view().len() as int
            } else {
                old(self).spec_ef()
            },
            old(self).nearest_view().len() >= 1 ==> final(self).nearest_view().len() >= 1,
            // the frontier is drained: whatever candidate remains lies
            // strictly beyond the furthest retained result
            forall|i: int|
                0 <= i < final(self).candidates_view().len()
                    ==> final(self).nearest_view().len() >= 1
                    && (#[trigger] final(self).candidates_view()[i]).distance
                    > final(self).nearest_view()[final(self).nearest_view().len() - 1].distance,
            forall|p: int|
                0 <= p < old(self).visited_view().len() && old(self).visited_view()[p]
                    ==> #[trigger] final(self).visited_view()[p],
    {
        let _nlen = neighbors.len();
        let ghost limit: int = if old(self).nearest_view().len() > old(self).spec_ef() {
            old(self).nearest_view().len() as int
        } else {
            old(self).spec_ef()
        };
        let mut finished = false;
        while !finished && self.candidates.len() > 0
            invariant
                self.inv(*st, q@, bound),
                self.ef == old(self).ef,
                self.visited@.len() == old(self).visited@.len(),
                self.nearest@.len() <= limit,
                old(self).nearest@.len() >= 1 ==> self.nearest@.len() >= 1,
                finished ==> self.nearest@.len() >= 1 && forall|i: int|
                    0 <= i < self.candidates@.len() ==> (#[trigger] self.candidates@[i]).distance
                        > self.nearest@[self.nearest@.len() - 1].distance,
                forall|p: int|
                    0 <= p < old(self).visited@.len() && old(self).visited@[p]
                        ==> #[trigger] self.visited@[p],
            decreases self.candidates@.len() + 2 * count_false(self.visited@),
        {
            let ghost measure0 = self.candidates@.len() + 2 * count_false(self.visited@);
            let ghost pre_cands = self.candidates@;
            let c = self.candidates[self.candidates.len() - 1];
            self.candidates.pop();
            let mut stop = false;
            if self.nearest.len() > 0 {
                let furthest = self.nearest[self.nearest.len() - 1];
                if c.distance > furthest.distance {
                    stop = true;
                }
            }
            if stop {
                finished = true;
                proof {
                    assert forall|i: int|
                        0 <= i < self.candidates@.len() implies (#[trigger] self.candidates@[
                    i]).distance > self.nearest@[self.nearest@.len() - 1].distance by {
                        assert(cand_lt(pre_cands[pre_cands.len() - 1], pre_cands[i]));
                    }
                }
            } else {
                let row_len = if links < layer.stride {
                    links
                } else {
                    layer.stride
                };
                proof {
                    assert((c.pid.0 as int) * layer.stride + layer.stride <= layer.total
                        * layer.stride) by (nonlinear_arith)
                        requires
                            0 <= (c.pid.0 as int) < layer.total,
                            layer.stride >= 1,
                    ;
                    assert((c.pid.0 as int) * layer.stride >= 0) by (nonlinear_arith)
                        requires
                            0 <= (c.pid.0 as int),
                            layer.stride >= 1,
                    ;
                }
                let row_base = layer.start + (c.pid.0 as usize) * layer.stride;
                for k in 0..row_len
                    invariant
                        self.inv(*st, q@, bound),
                        self.ef == old(self).ef,
                        self.visited@.len() == old(self).visited@.len(),
                        self.candidates@.len() + 2 * count_false(self.visited@) <= measure0 - 1,
                        old(self).nearest@.len() >= 1 ==> self.nearest@.len() >= 1,
                        forall|p: int|
                            0 <= p < old(self).visited@.len() && old(self).visited@[p]
                                ==> #[trigger] self.visited@[p],
                    decreases row_len - k,
                {
                    let p = neighbors[row_base + k];
                    if p.is_valid() {
                        proof {
                            assert(neighbors@[layer.start + (c.pid.0 as int) * layer.stride
                                + k].spec_valid());
                            assert(p.0 < bound);
                        }
                        self.push(p.0, q, st, Ghost(bound));
                    }
                }
                self.nearest.truncate(self.ef);
            }
        }
    }

    /// Diversity-aware neighbour selection, the spirit of the paper's
    /// fourth algorithm: walk the candidates nearest first, admit one
    /// only if no already-admitted pick lies closer to it than the query
    /// does, and optionally refill from the pruned ones. Returns up to
    /// `2 * M` picks and the count of diversity-admitted ones, leaving
    /// the picks in the result list.
    #[verifier::rlimit(100)]
    fn select_heuristic(
        &mut self,
        q: &Vec<i64>,
        neighbors: &Vec<PointId>,
        layer: LayerSlice,
        st: &ContiguousStorage,
        params: Heuristic,
        Ghost(bound): Ghost<int>,
    ) -> (r: (Vec<Candidate>, Ghost<int>))
        requires
            old(self).inv(*st, q@, bound),
            st.wf(),
            q@.len() == st.stride,
            coords_bounded(q@),
            layer_rows_wf(neighbors@, layer, bound),
            bound <= layer.total,
        ensures
            r.0@.len() <= 64,
            forall|i: int| 0 <= i < r.0@.len() ==> cand_good(#[trigger] r.0@[i], *st, q@, bound),
            old(self).nearest_view().len() >= 1 ==> r.0@.len() >= 1,
            forall|i: int, j: int|
                0 <= i < j < r.0@.len() ==> (#[trigger] r.0@[i]).pid != (#[trigger] r.0@[j]).pid,
            // the picks split into diversity-admitted ones and pruned
            // ones appended after them
            0 <= r.1@ <= r.0@.len(),
            !params.keep_pruned ==> r.1@ == r.0@.len(),
            // each admitted pick is at least as far from every earlier
            // admitted pick as it is from the query
            forall|i: int, j: int|
                0 <= i < j < r.1@ ==> sq_dist(
                    st.point((#[trigger] r.0@[j]).pid.0 as int),
                    st.point((#[trigger] r.0@[i]).pid.0 as int),
                ) >= r.0@[j].distance,
            // each pruned pick was rejected because some admitted pick
            // lies closer to it than the query does
            forall|j: int|
                r.1@ <= j < r.0@.len() ==> pruned_by(#[trigger] r.0@[j], r.0@, r.1@, *st),
            // every pick is one of the given results or, through the
            // extension pass, an id read from a row of `layer`
            forall|i: int|
                0 <= i < r.0@.len() ==> cand_from(
                    #[trigger] r.0@[i],
                    old(self).nearest_view(),
                    neighbors@,
                    layer,
                ),
            !params.extend_candidates ==> forall|i: int|
                0 <= i < r.0@.len() ==> in_cands(#[trigger] r.0@[i], old(self).nearest_view()),
            final(self).visited_view().len() == old(self).visited_view().len(),
            final(self).spec_ef() == old(self).spec_ef(),
    {
        let _nlen = neighbors.len();
        let ghost pool = old(self).nearest_view();
        let ghost v0 = old(self).visited_view();
        proof {
            assert forall|a: int, b: int|
                0 <= a < b < pool.len() implies (#[trigger] pool[a]).pid != (
            #[trigger] pool[b]).pid by {
                if pool[a].pid == pool[b].pid {
                    assert(cand_lt(pool[a], pool[b]));
                }
            }
        }
        self.working.clear();
        let nn = self.nearest.len();
        for ci in 0..nn
            invariant
                self.nearest@ == pool,
                self.visited@.len() == v0.len(),
                forall|p: int| 0 <= p < v0.len() && v0[p] ==> #[trigger] self.visited@[p],
                self.ef == old(self).ef,
                cands_good(self.working@, *st, q@, bound),
                ci >= 1 ==> self.working@.len() >= 1,
                forall|a: int, b: int|
                    0 <= a < b < self.working@.len() ==> (#[trigger] self.working@[a]).pid != (
                    #[trigger] self.working@[b]).pid,
                forall|a: int|
                    0 <= a < self.working@.len() ==> #[trigger] self.visited@[(self.working@[
                        a]).pid.0 as int],
                forall|a: int|
                    0 <= a < self.working@.len() ==> (exists|j: int|
                        0 <= j < ci && pool[j] == #[trigger] self.working@[a]) || (!v0[(
                    self.working@[a]).pid.0 as int] && cand_from(
                        self.working@[a],
                        pool,
                        neighbors@,
                        layer,
                    )),
                !params.extend_candidates ==> forall|a: int|
                    0 <= a < self.working@.len() ==> exists|j: int|
                        0 <= j < ci && pool[j] == #[trigger] self.working@[a],
            decreases nn - ci,
        {
            let c = self.nearest[ci];
            proof {
                assert(self.visited@[c.pid.0 as int]);
                assert forall|a: int|
                    0 <= a < self.working@.len() implies (#[trigger] self.working@[a]).pid
                    != c.pid by {
                    if self.working@[a].pid == c.pid {
                        if exists|j: int| 0 <= j < ci && pool[j] == self.working@[a] {
                            let j = choose|j: int| 0 <= j < ci && pool[j] == self.working@[a];
                            assert(pool[j].pid != pool[ci as int].pid);
                        } else {
                            assert(!v0[self.working@[a].pid.0 as int]);
                            assert(v0[pool[ci as int].pid.0 as int]);
                        }
                    }
                }
            }
            self.working.push(c);
            proof {
                let ghost cii = ci as int;
                assert(pool[cii] == self.working@[self.working@.len() - 1]);
            }
            if params.extend_candidates {
                proof {
                    assert((c.pid.0 as int) * layer.stride + layer.stride <= layer.total
                        * layer.stride) by (nonlinear_arith)
                        requires
                            0 <= (c.pid.0 as int) < layer.total,
                            layer.stride >= 1,
                    ;
                    assert((c.pid.0 as int) * layer.stride >= 0) by (nonlinear_arith)
                        requires
                            0 <= (c.pid.0 as int),
                            layer.stride >= 1,
                    ;
                }
                let row_base = layer.start + (c.pid.0 as usize) * layer.stride;
                for k in 0..layer.stride
                    invariant
                        self.nearest@ == pool,
                        self.visited@.len() == v0.len(),
                        forall|p: int| 0 <= p < v0.len() && v0[p] ==> #[trigger] self.visited@[p],
                        self.ef == old(self).ef,
                        cands_good(self.working@, *st, q@, bound),
                        self.working@.len() >= 1,
                        forall|a: int, b: int|
                            0 <= a < b < self.working@.len() ==> (#[trigger] self.working@[
                            a]).pid != (#[trigger] self.working@[b]).pid,
                        forall|a: int|
                            0 <= a < self.working@.len() ==> #[trigger] self.visited@[(
                            self.working@[a]).pid.0 as int],
                        forall|a: int|
                            0 <= a < self.working@.len() ==> (exists|j: int|
                                0 <= j < ci + 1 && pool[j] == #[trigger] self.working@[a]) || (
                            !v0[(self.working@[a]).pid.0 as int] && cand_from(
                                self.working@[a],
                                pool,
                                neighbors@,
                                layer,
                            )),
                    decreases layer.stride - k,
                {
                    let p = neighbors[row_base + k];
                    if p.is_valid() {
                        proof {
                            assert(neighbors@[layer.start + (c.pid.0 as int) * layer.stride
                                + k].spec_valid());
                        }
                        let ghost prevv = self.visited@;
                        if self.visited.insert(p.0) {
                            let d = st.query_distance(q, p.0);
                            proof {
                                assert forall|a: int|
                                    0 <= a < self.working@.len() implies (
                                #[trigger] self.working@[a]).pid != PointId(p.0) by {
                                    assert(prevv[self.working@[a].pid.0 as int]);
                                    assert(!prevv[p.0 as int]);
                                }
                            }
                            self.working.push(Candidate { distance: d, pid: p });
                            proof {
                                assert(cand_from(
                                    self.working@[self.working@.len() - 1],
                                    pool,
                                    neighbors@,
                                    layer,
                                )) by {
                                    assert(neighbors@[layer.start + (c.pid.0 as int)
                                        * layer.stride + k] == p);
                                }
                                assert(!v0[p.0 as int]);
                            }
                        }
                    }
                }
            }
        }
        if params.extend_candidates {
            let ghost pre_sort = self.working@;
            let sorted = sort_cands(&self.working);
            proof {
                lemma_pid_distinct_transfer(pre_sort, sorted@);
                assert forall|i: int| 0 <= i < sorted@.len() implies cand_good(
                    #[trigger] sorted@[i],
                    *st,
                    q@,
                    bound,
                ) && cand_from(sorted@[i], pool, neighbors@, layer) by {
                    assert(in_cands(sorted@[i], pre_sort));
                    let w = choose|j: int|
                        0 <= j < pre_sort.len() && #[trigger] pre_sort[j] == sorted@[i];
                    assert(cand_good(pre_sort[w], *st, q@, bound));
                    assert((exists|j: int| 0 <= j < nn && pool[j] == pre_sort[w]) || (!v0[(
                    pre_sort[w]).pid.0 as int] && cand_from(pre_sort[w], pool, neighbors@, layer)));
                    if exists|j: int| 0 <= j < nn && pool[j] == pre_sort[w] {
                        let j = choose|j: int| 0 <= j < nn && pool[j] == pre_sort[w];
                        assert(in_cands(pre_sort[w], pool));
                    }
                }
            }
            self.working = sorted;
        } else {
            proof {
                assert forall|a: int|
                    0 <= a < self.working@.len() implies in_cands(
                    #[trigger] self.working@[a],
                    pool,
                ) by {
                    let j = choose|j: int| 0 <= j < nn && pool[j] == self.working@[a];
                    assert(pool[j] == self.working@[a]);
                }
            }
        }
        self.nearest.clear();
        self.discarded.clear();
        let wn = self.working.len();
        for wi in 0..wn
            invariant
                self.working@.len() == wn,
                self.visited@.len() == v0.len(),
                self.ef == old(self).ef,
                cands_good(self.working@, *st, q@, bound),
                cands_good(self.nearest@, *st, q@, bound),
                cands_good(self.discarded@, *st, q@, bound),
                forall|a: int, b: int|
                    0 <= a < b < self.working@.len() ==> (#[trigger] self.working@[a]).pid != (
                    #[trigger] self.working@[b]).pid,
                forall|a: int|
                    0 <= a < self.working@.len() ==> cand_from(
                        #[trigger] self.working@[a],
                        pool,
                        neighbors@,
                        layer,
                    ),
                !params.extend_candidates ==> forall|a: int|
                    0 <= a < self.working@.len() ==> in_cands(#[trigger] self.working@[a], pool),
                self.nearest@.len() <= 64,
                wi >= 1 && wn >= 1 ==> self.nearest@.len() >= 1,
                forall|a: int|
                    0 <= a < self.nearest@.len() ==> in_prefix(
                        #[trigger] self.nearest@[a],
                        self.working@,
                        wi as int,
                    ),
                forall|a: int|
                    0 <= a < self.discarded@.len() ==> in_prefix(
                        #[trigger] self.discarded@[a],
                        self.working@,
                        wi as int,
                    ),
                forall|a: int, b: int|
                    0 <= a < b < self.nearest@.len() ==> (#[trigger] self.nearest@[a]).pid != (
                    #[trigger] self.nearest@[b]).pid,
                forall|a: int, b: int|
                    0 <= a < b < self.discarded@.len() ==> (#[trigger] self.discarded@[a]).pid
                        != (#[trigger] self.discarded@[b]).pid,
                forall|a: int, b: int|
                    0 <= a < self.nearest@.len() && 0 <= b < self.discarded@.len() ==> (
                    #[trigger] self.nearest@[a]).pid != (#[trigger] self.discarded@[b]).pid,
                forall|i: int, j: int|
                    0 <= i < j < self.nearest@.len() ==> sq_dist(
                        st.point((#[trigger] self.nearest@[j]).pid.0 as int),
                        st.point((#[trigger] self.nearest@[i]).pid.0 as int),
                    ) >= self.nearest@[j].distance,
                forall|a: int|
                    0 <= a < self.discarded@.len() ==> pruned_by(
                        #[trigger] self.discarded@[a],
                        self.nearest@,
                        self.nearest@.len() as int,
                        *st,
                    ),
            decreases wn - wi,
        {
            if self.nearest.len() < 64 {
                let c = self.working[wi];
                let mut keep = true;
                let rn = self.nearest.len();
                for ri in 0..rn
                    invariant
                        self.nearest@.len() == rn,
                        cands_good(self.nearest@, *st, q@, bound),
                        keep <==> forall|x: int|
                            0 <= x < ri ==> sq_dist(
                                st.point(c.pid.0 as int),
                                st.point((#[trigger] self.nearest@[x]).pid.0 as int),
                            ) >= c.distance,
                    decreases rn - ri,
                {
                    let r = self.nearest[ri];
                    let d = st.stored_distance(c.pid.0, r.pid.0);
                    if d < c.distance {
                        keep = false;
                    }
                }
                proof {
                    assert forall|a: int|
                        0 <= a < self.nearest@.len() implies (#[trigger] self.nearest@[a]).pid
                        != c.pid by {
                        let j = choose|j: int|
                            0 <= j < wi && #[trigger] self.working@[j] == self.nearest@[a];
                        assert(self.working@[j].pid != self.working@[wi as int].pid);
                    }
                    assert forall|a: int|
                        0 <= a < self.discarded@.len() implies (#[trigger] self.discarded@[
                    a]).pid != c.pid by {
                        let j = choose|j: int|
                            0 <= j < wi && #[trigger] self.working@[j] == self.discarded@[a];
                        assert(self.working@[j].pid != self.working@[wi as int].pid);
                    }
                }
                let ghost pre_n = self.nearest@;
                let ghost pre_d = self.discarded@;
                if keep {
                    self.nearest.push(c);
                } else {
                    self.discarded.push(c);
                }
                proof {
                    let ghost wii = wi as int;
                    assert forall|a: int|
                        0 <= a < self.nearest@.len() implies in_prefix(
                        #[trigger] self.nearest@[a],
                        self.working@,
                        wii + 1,
                    ) by {
                        if a < pre_n.len() {
                            assert(self.nearest@[a] == pre_n[a]);
                            lemma_in_prefix_mono(pre_n[a], self.working@, wii, wii + 1);
                        } else {
                            assert(self.working@[wii] == self.nearest@[a]);
                        }
                    }
                    assert forall|a: int|
                        0 <= a < self.discarded@.len() implies in_prefix(
                        #[trigger] self.discarded@[a],
                        self.working@,
                        wii + 1,
                    ) by {
                        if a < pre_d.len() {
                            assert(self.discarded@[a] == pre_d[a]);
                            lemma_in_prefix_mono(pre_d[a], self.working@, wii, wii + 1);
                        } else {
                            assert(self.working@[wii] == self.discarded@[a]);
                        }
                    }
                    assert forall|a: int|
                        0 <= a < self.discarded@.len() implies pruned_by(
                        #[trigger] self.discarded@[a],
                        self.nearest@,
                        self.nearest@.len() as int,
                        *st,
                    ) by {
                        if a < pre_d.len() {
                            assert(self.discarded@[a] == pre_d[a]);
                            lemma_pruned_by_grow(
                                pre_d[a],
                                pre_n,
                                self.nearest@,
                                pre_n.len() as int,
                                *st,
                            );
                            lemma_pruned_by_mono_bound(
                                pre_d[a],
                                self.nearest@,
                                pre_n.len() as int,
                                self.nearest@.len() as int,
                                *st,
                            );
                        } else {
                            assert(!keep);
                            assert(!(forall|x: int|
                                0 <= x < rn ==> sq_dist(
                                    st.point(c.pid.0 as int),
                                    st.point((#[trigger] pre_n[x]).pid.0 as int),
                                ) >= c.distance));
                            let x = choose|x: int|
                                0 <= x < rn && !(sq_dist(
                                    st.point(c.pid.0 as int),
                                    st.point((#[trigger] pre_n[x]).pid.0 as int),
                                ) >= c.distance);
                            assert(self.nearest@[x] == pre_n[x]);
                            assert(self.discarded@[a] == c);
                            assert(sq_dist(
                                st.point(self.discarded@[a].pid.0 as int),
                                st.point((self.nearest@[x]).pid.0 as int),
                            ) < self.discarded@[a].distance);
                        }
                    }
                }
            }
        }
        let ghost adm: int = self.nearest@.len() as int;
        let ghost admitted = self.nearest@;
        let ghost disc = self.discarded@;
        if params.keep_pruned {
            let dn = self.discarded.len();
            for di in 0..dn
                invariant
                    self.discarded@ == disc,
                    disc.len() == dn,
                    self.visited@.len() == v0.len(),
                    self.ef == old(self).ef,
                    self.nearest@.len() == (if adm + di <= 64 {
                        adm + di
                    } else {
                        64int
                    }),
                    self.nearest@.take(adm) == admitted,
                    forall|a: int|
                        adm <= a < self.nearest@.len() ==> #[trigger] self.nearest@[a] == disc[a
                            - adm],
                decreases dn - di,
            {
                if self.nearest.len() < 64 {
                    let c = self.discarded[di];
                    proof {
                        assert(self.nearest@.len() == adm + di);
                    }
                    self.nearest.push(c);
                    proof {
                        assert(self.nearest@.take(adm) =~= admitted);
                    }
                }
            }
        }
        proof {
            // everything the contract states follows from the admitted
            // prefix and the pruned suffix taken from `disc` in order
            if !params.keep_pruned {
                assert(self.nearest@ == admitted);
                assert(self.nearest@.take(adm) =~= admitted);
            }
            assert forall|a: int| 0 <= a < adm implies #[trigger] self.nearest@[a] == admitted[
                a] by {
                assert(self.nearest@.take(adm)[a] == self.nearest@[a]);
            }
            assert forall|i: int| 0 <= i < self.nearest@.len() implies cand_good(
                #[trigger] self.nearest@[i],
                *st,
                q@,
                bound,
            ) && cand_from(self.nearest@[i], pool, neighbors@, layer) by {
                if i >= adm {
                    assert(self.nearest@[i] == disc[i - adm]);
                }
            }
            if !params.extend_candidates {
                assert forall|i: int| 0 <= i < self.nearest@.len() implies in_cands(
                    #[trigger] self.nearest@[i],
                    pool,
                ) by {
                    if i >= adm {
                        assert(self.nearest@[i] == disc[i - adm]);
                    }
                }
            }
            assert forall|i: int, j: int|
                0 <= i < j < self.nearest@.len() implies (#[trigger] self.nearest@[i]).pid != (
            #[trigger] self.nearest@[j]).pid by {
                if j < adm {
                } else if i < adm {
                    assert(self.nearest@[j] == disc[j - adm]);
                } else {
                    assert(self.nearest@[i] == disc[i - adm]);
                    assert(self.nearest@[j] == disc[j - adm]);
                }
            }
            assert forall|j: int|
                adm <= j < self.nearest@.len() implies pruned_by(
                #[trigger] self.nearest@[j],
                self.nearest@,
                adm,
                *st,
            ) by {
                assert(self.nearest@[j] == disc[j - adm]);
                lemma_pruned_by_grow(disc[j - adm], admitted, self.nearest@, adm, *st);
            }
        }
        let rn = self.nearest.len();
        let mut outv: Vec<Candidate> = Vec::new();
        for i in 0..rn
            invariant
                self.nearest@.len() == rn,
                self.visited@.len() == v0.len(),
                self.ef == old(self).ef,
                outv@.len() == i,
                forall|j: int| 0 <= j < i ==> #[trigger] outv@[j] == self.nearest@[j],
            decreases rn - i,
        {
            outv.push(self.nearest[i]);
        }
        proof {
            assert(outv@ =~= self.nearest@);
        }
        (outv, Ghost(adm))
    }

    /// Re-selects the neighbour row of an existing node after `new`
    /// appears: seeds the scratch with `new` and the node's current
    /// neighbours, measured from the node's own point `cq`, and runs the
    /// heuristic selection over that pool.
    fn add_neighbor_heuristic(
        &mut self,
        new: u32,
        c_pid: u32,
        cq: &Vec<i64>,
        neighbors: &Vec<PointId>,
        layer: LayerSlice,
        st: &ContiguousStorage,
        params: Heuristic,
        Ghost(bound): Ghost<int>,
    ) -> (r: (Vec<Candidate>, Ghost<int>))
        requires
            old(self).visited_view().len() >= st.spec_len(),
            old(self).spec_ef() >= 1,
            st.wf(),
            cq@.len() == st.stride,
            coords_bounded(cq@),
            layer_rows_wf(neighbors@, layer, bound),
            0 <= bound <= layer.total,
            layer.total <= st.spec_len(),
            (new as int) < bound,
            (c_pid as int) < bound,
        ensures
            r.0@.len() <= 64,
            r.0@.len() >= 1,
            forall|i: int| 0 <= i < r.0@.len() ==> cand_good(#[trigger] r.0@[i], *st, cq@, bound),
            forall|i: int, j: int|
                0 <= i < j < r.0@.len() ==> (#[trigger] r.0@[i]).pid != (#[trigger] r.0@[j]).pid,
            // the pool is `new` plus the node's current row; without the
            // extension pass every pick comes from it, with it a pick
            // may also be an id read from a row of `layer`
            forall|i: int|
                0 <= i < r.0@.len() ==> (#[trigger] r.0@[i]).pid.0 == new || (exists|k: int|
                    0 <= k < layer.stride && #[trigger] neighbors@[layer.start + (c_pid as int)
                        * layer.stride + k] == r.0@[i].pid) || (params.extend_candidates
                    && exists|p: int, k: int|
                    0 <= p < layer.total && 0 <= k < layer.stride && #[trigger] neighbors@[
                        layer.start + p * layer.stride + k] == r.0@[i].pid),
            // the diversity split, as in `select_heuristic`
            0 <= r.1@ <= r.0@.len(),
            !params.keep_pruned ==> r.1@ == r.0@.len(),
            forall|i: int, j: int|
                0 <= i < j < r.1@ ==> sq_dist(
                    st.point((#[trigger] r.0@[j]).pid.0 as int),
                    st.point((#[trigger] r.0@[i]).pid.0 as int),
                ) >= r.0@[j].distance,
            forall|j: int|
                r.1@ <= j < r.0@.len() ==> pruned_by(#[trigger] r.0@[j], r.0@, r.1@, *st),
            final(self).visited_view().len() == old(self).visited_view().len(),
            final(self).spec_ef() == old(self).spec_ef(),
    {
        let _nlen = neighbors.len();
        self.reset();
        self.push(new, cq, st, Ghost(bound));
        proof {
            assert((c_pid as int) * layer.stride + layer.stride <= layer.total * layer.stride)
                by (nonlinear_arith)
                requires
                    0 <= (c_pid as int) < layer.total,
                    layer.stride >= 1,
            ;
            assert((c_pid as int) * layer.stride >= 0) by (nonlinear_arith)
                requires
                    0 <= (c_pid as int),
                    layer.stride >= 1,
            ;
        }
        let row_base = layer.start + (c_pid as usize) * layer.stride;
        for k in 0..layer.stride
            invariant
                self.inv(*st, cq@, bound),
                self.visited@.len() == old(self).visited@.len(),
                self.ef == old(self).ef,
                self.nearest@.len() >= 1,
                forall|a: int|
                    0 <= a < self.nearest@.len() ==> (#[trigger] self.nearest@[a]).pid.0 == new
                        || exists|kk: int|
                        0 <= kk < layer.stride && #[trigger] neighbors@[layer.start + (
                        c_pid as int) * layer.stride + kk] == self.nearest@[a].pid,
            decreases layer.stride - k,
        {
            let p = neighbors[row_base + k];
            if p.is_valid() {
                proof {
                    assert(neighbors@[layer.start + (c_pid as int) * layer.stride
                        + k].spec_valid());
                }
                let ghost pre = self.nearest@;
                self.push(p.0, cq, st, Ghost(bound));
                proof {
                    assert forall|a: int|
                        0 <= a < self.nearest@.len() implies (#[trigger] self.nearest@[a]).pid.0
                        == new || exists|kk: int|
                        0 <= kk < layer.stride && #[trigger] neighbors@[layer.start + (
                        c_pid as int) * layer.stride + kk] == self.nearest@[a].pid by {
                        if !in_cands(self.nearest@[a], pre) {
                            assert(self.nearest@[a].pid == PointId(p.0)) by {
                                if self.nearest@[a].pid != PointId(p.0) {
                                    let cnew = cand_of(*st, cq@, p.0);
                                    let pos = spec_lower_idx(pre, cnew);
                                    lemma_lower_idx_bounds(pre, cnew);
                                    if pos < self.spec_ef() {
                                        assert(self.nearest@ == pre.insert(pos, cnew));
                                        if a < pos {
                                            assert(pre.insert(pos, cnew)[a] == pre[a]);
                                            assert(in_cands(self.nearest@[a], pre));
                                        } else if a > pos {
                                            assert(pre.insert(pos, cnew)[a] == pre[a - 1]);
                                            assert(in_cands(self.nearest@[a], pre));
                                        }
                                    } else {
                                        assert(in_cands(self.nearest@[a], pre));
                                    }
                                }
                            }
                            let ghost kk = k as int;
                            assert(neighbors@[layer.start + (c_pid as int) * layer.stride + kk]
                                == self.nearest@[a].pid);
                        } else {
                            let b = choose|b: int|
                                0 <= b < pre.len() && #[trigger] pre[b] == self.nearest@[a];
                            assert(pre[b].pid.0 == new || exists|kk: int|
                                0 <= kk < layer.stride && #[trigger] neighbors@[layer.start + (
                                c_pid as int) * layer.stride + kk] == pre[b].pid);
                        }
                    }
                }
            }
        }
        let ghost pool2 = self.nearest@;
        let picked = self.select_heuristic(cq, neighbors, layer, st, params, Ghost(bound));
        proof {
            assert forall|i: int|
                0 <= i < picked.0@.len() implies (#[trigger] picked.0@[i]).pid.0 == new || (exists|
                k: int,
            |
                0 <= k < layer.stride && #[trigger] neighbors@[layer.start + (c_pid as int)
                    * layer.stride + k] == picked.0@[i].pid) || (params.extend_candidates
                && exists|p: int, k: int|
                0 <= p < layer.total && 0 <= k < layer.stride && #[trigger] neighbors@[layer.start
                    + p * layer.stride + k] == picked.0@[i].pid) by {
                if params.extend_candidates {
                    assert(cand_from(picked.0@[i], pool2, neighbors@, layer));
                    if in_cands(picked.0@[i], pool2) {
                        let b = choose|b: int|
                            0 <= b < pool2.len() && #[trigger] pool2[b] == picked.0@[i];
                        assert(pool2[b].pid.0 == new || exists|kk: int|
                            0 <= kk < layer.stride && #[trigger] neighbors@[layer.start + (
                            c_pid as int) * layer.stride + kk] == pool2[b].pid);
                    }
                } else {
                    assert(in_cands(picked.0@[i], pool2));
                    let b = choose|b: int|
                        0 <= b < pool2.len() && #[trigger] pool2[b] == picked.0@[i];
                    assert(pool2[b].pid.0 == new || exists|kk: int|
                        0 <= kk < layer.stride && #[trigger] neighbors@[layer.start + (
                        c_pid as int) * layer.stride + kk] == pool2[b].pid);
                }
            }
        }
        picked
    }

    /// Lowers the search to the next layer: the current results become
    /// the new frontier and the only visited points.
    pub fn cull(&mut self)
        requires
            forall|i: int|
                0 <= i < old(self).nearest_view().len() ==> (
                #[trigger] old(self).nearest_view()[i]).pid.0 < old(self).visited_view().len(),
        ensures
            final(self).nearest_view() == old(self).nearest_view(),
            final(self).candidates_view() == old(self).nearest_view().reverse(),
            final(self).spec_ef() == old(self).spec_ef(),
            final(self).visited_view().len() == old(self).visited_view().len(),
            forall|p: int|
                0 <= p < final(self).visited_view().len() ==> ((
                #[trigger] final(self).visited_view()[p]) <==> exists|i: int|
                    0 <= i < old(self).nearest_view().len() && (
                    #[trigger] old(self).nearest_view()[i]).pid.0 == p),
    {
        self.candidates.clear();
        let n = self.nearest.len();
        for i in 0..n
            invariant
                self.nearest@ == old(self).nearest@,
                self.visited@ == old(self).visited@,
                self.ef == old(self).ef,
                self.candidates@.len() == i,
                forall|j: int|
                    0 <= j < i ==> #[trigger] self.candidates@[j] == self.nearest@[n - 1 - j],
            decreases n - i,
        {
            let c = self.nearest[n - 1 - i];
            self.candidates.push(c);
        }
        proof {
            assert(self.candidates@ =~= old(self).nearest@.reverse());
        }
        self.visited.clear();
        let ghost cleared = self.visited@;
        for i in 0..n
            invariant
                self.nearest@ == old(self).nearest@,
                self.candidates@ == old(self).nearest@.reverse(),
                self.ef == old(self).ef,
                self.visited@.len() == old(self).visited@.len(),
                forall|p: int|
                    0 <= p < self.visited@.len() ==> ((#[trigger] self.visited@[p]) <==> exists|
                        j: int,
                    |
                        0 <= j < i && (#[trigger] self.nearest@[j]).pid.0 == p),
            decreases n - i,
        {
            let c = self.nearest[i];
            proof {
                assert(old(self).nearest_view()[i as int] == c);
                assert(c.pid.0 < old(self).visited_view().len());
            }
            let ghost prevv = self.visited@;
            self.visited.insert(c.pid.0);
            proof {
                assert(self.visited@ == prevv.update(c.pid.0 as int, true));
                assert forall|p: int| 0 <= p < self.visited@.len() implies ((
                #[trigger] self.visited@[p]) <==> exists|j: int|
                    0 <= j < i + 1 && (#[trigger] self.nearest@[j]).pid.0 == p) by {
                    let ghost ii = i as int;
                    if p == c.pid.0 as int {
                        assert(self.nearest@[ii].pid.0 == p);
                        assert(0 <= ii < i + 1 && self.nearest@[ii].pid.0 == p);
                        assert(self.visited@[p]);
                    } else {
                        assert(self.visited@[p] == prevv[p]);
                        if self.visited@[p] {
                            let j = choose|j: int| 0 <= j < i && (#[trigger] self.nearest@[j]).pid.0
                                == p;
                            assert(0 <= j < i + 1 && self.nearest@[j].pid.0 == p);
                        } else {
                            if exists|j: int|
                                0 <= j < i + 1 && (#[trigger] self.nearest@[j]).pid.0 == p {
                                let j = choose|j: int|
                                    0 <= j < i + 1 && (#[trigger] self.nearest@[j]).pid.0 == p;
                                assert(j != ii);
                                assert(0 <= j < i && self.nearest@[j].pid.0 == p);
                                assert(prevv[p]);
                            }
                        }
                    }
                }
            }
        }
        proof {
            assert forall|p: int| 0 <= p < self.visited@.len() implies ((
            #[trigger] self.visited@[p]) <==> exists|i: int|
                0 <= i < old(self).nearest_view().len() && (
                #[trigger] old(self).nearest_view()[i]).pid.0 == p) by {
                if self.visited@[p] {
                    let j = choose|j: int|
                        0 <= j < self.nearest@.len() && (#[trigger] self.nearest@[j]).pid.0 == p;
                    assert(old(self).nearest_view()[j].pid.0 == p);
                } else {
                    if exists|i: int|
                        0 <= i < old(self).nearest_view().len() && (
                        #[trigger] old(self).nearest_view()[i]).pid.0 == p {
                        let j = choose|j: int|
                            0 <= j < old(self).nearest_view().len() && (
                            #[trigger] old(self).nearest_view()[j]).pid.0 == p;
                        assert(self.nearest@[j].pid.0 == p);
                    }
                }
            }
        }
    }
}

impl Search {
    /// `cull` packaged with the proof that it keeps the search
    /// invariant: the frontier becomes exactly the current results.
    fn cull_step(
        &mut self,
        Ghost(st): Ghost<ContiguousStorage>,
        Ghost(q): Ghost<Seq<i64>>,
        Ghost(bound): Ghost<int>,
    )
        requires
            old(self).inv(st, q, bound),
        ensures
            final(self).inv(st, q, bound),
            final(self).nearest_view() == old(self).nearest_view(),
            final(self).spec_ef() == old(self).spec_ef(),
            final(self).visited_view().len() == old(self).visited_view().len(),
    {
        proof {
            assert forall|i: int|
                0 <= i < self.nearest_view().len() implies (
            #[trigger] self.nearest_view()[i]).pid.0 < self.visited_view().len() by {}
        }
        let ghost pre = *self;
        self.cull();
        proof {
            let nv = pre.nearest_view();
            assert forall|a: int, b: int|
                0 <= a < b < self.candidates_view().len() implies cand_lt(
                #[trigger] self.candidates_view()[b],
                #[trigger] self.candidates_view()[a],
            ) by {
                assert(self.candidates_view()[a] == nv[nv.len() - 1 - a]);
                assert(self.candidates_view()[b] == nv[nv.len() - 1 - b]);
            }
            assert forall|i: int|
                0 <= i < self.candidates_view().len() implies cand_good(
                #[trigger] self.candidates_view()[i],
                st,
                q,
                bound,
            ) && self.visited_view()[self.candidates_view()[i].pid.0 as int] by {
                assert(self.candidates_view()[i] == nv[nv.len() - 1 - i]);
            }
            assert forall|i: int|
                0 <= i < self.nearest_view().len() implies self.visited_view()[(
            #[trigger] self.nearest_view()[i]).pid.0 as int] by {
                let p = self.nearest_view()[i].pid.0 as int;
                assert(self.nearest_view()[i].pid.0 == p);
            }
        }
    }
}

impl Default for Search {
    /// An empty scratch with no visited capacity; `Hnsw::search` grows
    /// it on demand.
    fn default() -> (r: Search)
        ensures
            r.visited_view().len() == 0,
            r.nearest_view() == Seq::<Candidate>::empty(),
            r.candidates_view() == Seq::<Candidate>::empty(),
            r.spec_ef() == 1,
    {
        Search::new(0)
    }
}

/// A free list of scratch pairs reused across insertions.
pub struct SearchPool {
    pool: Vec<(Search, Search)>,
    len: usize,
}

impl SearchPool {
    pub closed spec fn spec_capacity(self) -> int {
        self.len as int
    }

    pub closed spec fn wf(self) -> bool {
        forall|i: int|
            0 <= i < self.pool@.len() ==> (#[trigger] self.pool@[i]).0.visited_view().len()
                == self.len && self.pool@[i].1.visited_view().len() == self.len
    }

    pub fn new(len: usize) -> (r: SearchPool)
        ensures
            r.wf(),
            r.spec_capacity() == len,
    {
        SearchPool { pool: Vec::new(), len }
    }

    /// A scratch pair sized for the pool's point count.
    pub fn pop(&mut self) -> (r: (Search, Search))
        requires
            old(self).wf(),
        ensures
            final(self).wf(),
            final(self).spec_capacity() == old(self).spec_capacity(),
            r.0.visited_view().len() == old(self).spec_capacity(),
            r.1.visited_view().len() == old(self).spec_capacity(),
    {
        match self.pool.pop() {
            Some(pair) => pair,
            None => (Search::new(self.len), Search::new(self.len)),
        }
    }

    pub fn push(&mut self, item: (Search, Search))
        requires
            old(self).wf(),
            item.0.visited_view().len() == old(self).spec_capacity(),
            item.1.visited_view().len() == old(self).spec_capacity(),
        ensures
            final(self).wf(),
            final(self).spec_capacity() == old(self).spec_capacity(),
    {
        self.pool.push(item);
    }
}

/// One query result: the squared distance from the query to the point
/// with id `pid`.
#[derive(Clone, Copy, Debug, PartialEq, Eq, Structural)]
pub struct Item {
    pub distance: u64,
    pub pid: PointId,
}

/// Results are listed nearest first, ties broken by the smaller id.
pub open spec fn items_sorted(s: Seq<Item>) -> bool {
    forall|i: int, j: int|
        0 <= i < j < s.len() ==> ((#[trigger] s[i]).distance < (#[trigger] s[j]).distance || (
        s[i].distance == s[j].distance && s[i].pid.0 < s[j].pid.0))
}

/// Tunable parameters for building an index.
pub struct Builder {
    ef_search: usize,
    ef_construction: usize,
    heuristic: Option<Heuristic>,
    mlb: u64,
    seed: u64,
}

impl Builder {
    pub closed spec fn spec_ef_search(self) -> int {
        self.ef_search as int
    }

    pub closed spec fn spec_ef_construction(self) -> int {
        self.ef_construction as int
    }

    pub closed spec fn spec_heuristic(self) -> Option<Heuristic> {
        self.heuristic
    }

    pub closed spec fn spec_ml(self) -> u64 {
        self.mlb
    }

    pub closed spec fn spec_seed(self) -> u64 {
        self.seed
    }

    pub open spec fn wf(self) -> bool {
        &&& self.spec_ef_search() >= 1
        &&& self.spec_ef_construction() >= 1
        &&& self.spec_ml() <= crate::contiguous_types::ML_MAX
    }

    /// Sets the `efConstruction` parameter from the paper.
    pub fn ef_construction(self, ef_construction: usize) -> (r: Builder)
        requires
            ef_construction >= 1,
        ensures
            r.spec_ef_construction() == ef_construction,
            r.spec_ef_search() == self.spec_ef_search(),
            r.spec_heuristic() == self.spec_heuristic(),
            r.spec_ml() == self.spec_ml(),
            r.spec_seed() == self.spec_seed(),
            self.wf() ==> r.wf(),
    {
        Builder { ef_construction, ..self }
    }

    /// Sets the `ef` parameter from the paper, used while querying.
    pub fn ef_search(self, ef: usize) -> (r: Builder)
        requires
            ef >= 1,
        ensures
            r.spec_ef_search() == ef,
            r.spec_ef_construction() == self.spec_ef_construction(),
            r.spec_heuristic() == self.spec_heuristic(),
            r.spec_ml() == self.spec_ml(),
            r.spec_seed() == self.spec_seed(),
            self.wf() ==> r.wf(),
    {
        Builder { ef_search: ef, ..self }
    }

    /// Chooses the neighbour-selection strategy; `None` keeps the
    /// nearest candidates unchanged.
    pub fn select_heuristic(self, params: Option<Heuristic>) -> (r: Builder)
        ensures
            r.spec_heuristic() == params,
            r.spec_ef_search() == self.spec_ef_search(),
            r.spec_ef_construction() == self.spec_ef_construction(),
            r.spec_ml() == self.spec_ml(),
            r.spec_seed() == self.spec_seed(),
            self.wf() ==> r.wf(),
    {
        Builder { heuristic: params, ..self }
    }

    /// Sets the `mL` layer-decay constant as a numerator over
    /// [`crate::contiguous_types::ML_SCALE`].
    pub fn ml(self, mlb: u64) -> (r: Builder)
        requires
            mlb <= crate::contiguous_types::ML_MAX,
        ensures
            r.spec_ml() == mlb,
            r.spec_ef_search() == self.spec_ef_search(),
            r.spec_ef_construction() == self.spec_ef_construction(),
            r.spec_heuristic() == self.spec_heuristic(),
            r.spec_seed() == self.spec_seed(),
            self.wf() ==> r.wf(),
    {
        Builder { mlb, ..self }
    }

    /// Sets the seed of the generator that draws each point's layer.
    pub fn seed(self, seed: u64) -> (r: Builder)
        ensures
            r.spec_seed() == seed,
            r.spec_ef_search() == self.spec_ef_search(),
            r.spec_ef_construction() == self.spec_ef_construction(),
            r.spec_heuristic() == self.spec_heuristic(),
            r.spec_ml() == self.spec_ml(),
            self.wf() ==> r.wf(),
    {
        Builder { seed, ..self }
    }

    /// The plain configuration values: search and construction widths,
    /// the decay numerator and the seed.
    pub fn into_parts(self) -> (r: (usize, usize, u64, u64))
        ensures
            r.0 == self.spec_ef_search(),
            r.1 == self.spec_ef_construction(),
            r.2 == self.spec_ml(),
            r.3 == self.spec_seed(),
    {
        let Builder { ef_search, ef_construction, heuristic: _, mlb, seed } = self;
        (ef_search, ef_construction, mlb, seed)
    }
}

impl Default for Builder {
    /// The paper's defaults: both widths 100, the heuristic selection
    /// on, `ml = 1 / ln M`, and a seed drawn from entropy.
    fn default() -> (r: Builder)
        ensures
            r.wf(),
            r.spec_ef_search() == 100,
            r.spec_ef_construction() == 100,
            r.spec_heuristic() == Some(
                Heuristic { extend_candidates: false, keep_pruned: true },
            ),
            r.spec_ml() == crate::contiguous_types::ML_DEFAULT,
    {
        Builder {
            ef_search: 100,
            ef_construction: 100,
            heuristic: Some(Heuristic { extend_candidates: false, keep_pruned: true }),
            mlb: crate::contiguous_types::ML_DEFAULT,
            seed: crate::contiguous::entropy_seed(),
        }
    }
}

/// Points acceptable to `build`: a uniform positive dimension, bounded
/// coordinates, and a total size the index can address.
pub open spec fn points_ok(points: Seq<Vec<i64>>) -> bool {
    &&& points.len() <= crate::contiguous_types::MAX_POINTS
    &&& (points.len() > 0 ==> {
        &&& 1 <= points[0]@.len() <= crate::contiguous::MAX_STRIDE
        &&& points.len() * points[0]@.len() <= 0x4000_0000
    })
    &&& forall|i: int| 0 <= i < points.len() ==> (#[trigger] points[i])@.len() == points[0]@.len()
    &&& forall|i: int| 0 <= i < points.len() ==> coords_bounded((#[trigger] points[i])@)
}

/// Builds one layer: inserts every node whose highest layer is `l`
/// (in ascending id order) and, above the base, snapshots the layer.
#[verifier::rlimit(100)]
fn build_layer(
    l: usize,
    meta: &crate::contiguous_types::Meta,
    storage: &ContiguousStorage,
    heuristic: Option<Heuristic>,
    ef_construction: usize,
    neighbors: &mut Vec<PointId>,
    search: &mut Search,
    insertion: &mut Search,
    ls: crate::contiguous_types::LayerSliceMut,
)
    requires
        storage.wf(),
        meta.wf(),
        1 <= meta.spec_len(),
        l < meta.spec_len(),
        ef_construction >= 1,
        meta.layers()[0].total == storage.spec_len(),
        meta.layers()[0].start == 0,
        storage.spec_len() >= 1,
        old(neighbors)@.len() == meta.layers()[meta.spec_len() - 1].end,
        forall|lx: int|
            0 <= lx < meta.spec_len() ==> (#[trigger] meta.layers()[lx]).end <= old(
                neighbors,
            )@.len(),
        forall|lx: int|
            0 <= lx < meta.spec_len() ==> (#[trigger] meta.layers()[lx]).total
                <= storage.spec_len(),
        zero_rows_wf(
            old(neighbors)@,
            storage.spec_len() as int,
            if l + 1 == meta.spec_len() {
                1int
            } else {
                meta.layers()[l as int + 1].total as int
            },
        ),
        heuristic is None ==> zero_rows_sorted(
            old(neighbors)@,
            storage.spec_len() as int,
            *storage,
        ),
        forall|lx: int|
            (l as int) < lx < meta.spec_len() ==> upper_rows_wf(
                old(neighbors)@,
                #[trigger] spec_layer_slice(*meta, lx),
            ),
        old(search).visited_view().len() == storage.spec_len(),
        old(insertion).visited_view().len() == storage.spec_len(),
        old(search).spec_ef() >= 1,
        old(insertion).spec_ef() >= 1,
        ls.start == meta.layers()[l as int].start,
        ls.total == meta.layers()[l as int].total,
        ls.stride == spec_stride(l as int),
    ensures
        final(neighbors)@.len() == old(neighbors)@.len(),
        zero_rows_wf(
            final(neighbors)@,
            storage.spec_len() as int,
            meta.layers()[l as int].total as int,
        ),
        heuristic is None ==> zero_rows_sorted(
            final(neighbors)@,
            storage.spec_len() as int,
            *storage,
        ),
        forall|lx: int|
            (l as int) <= lx < meta.spec_len() && lx >= 1 ==> upper_rows_wf(
                final(neighbors)@,
                #[trigger] spec_layer_slice(*meta, lx),
            ),
        final(search).visited_view().len() == old(search).visited_view().len(),
        final(insertion).visited_view().len() == old(insertion).visited_view().len(),
        final(search).spec_ef() >= 1,
        final(insertion).spec_ef() >= 1,
{
    let n = storage.len();
    let ghost n_i = storage.spec_len() as int;
    let (start, end) = meta.points(l);
    proof {
        if l + 1 == meta.spec_len() {
            assert(meta.layers()[l as int].max == meta.layers()[l as int].total);
            assert(start == 1);
        } else {
            let j = l as int + 1;
            assert(meta.layers()[j].total == meta.layers()[j - 1].total - meta.layers()[j
                - 1].max);
            assert(meta.layers()[j].total >= 1);
            assert(start == meta.layers()[j].total);
        }
        assert(end == meta.layers()[l as int].total);
        lemma_meta_totals_decreasing(*meta, 0, l as int);
        assert(64 * n_i == meta.layers()[0].end);
    }
    let mut pid = start;
    while pid < end
        invariant
            start <= pid <= end,
            neighbors@.len() == old(neighbors)@.len(),
            zero_rows_wf(neighbors@, n_i, pid as int),
            heuristic is None ==> zero_rows_sorted(neighbors@, n_i, *storage),
            forall|lx: int|
                (l as int) < lx < meta.spec_len() ==> upper_rows_wf(
                    neighbors@,
                    #[trigger] spec_layer_slice(*meta, lx),
                ),
            search.visited_view().len() == old(search).visited_view().len(),
            insertion.visited_view().len() == old(insertion).visited_view().len(),
            search.spec_ef() >= 1,
            insertion.spec_ef() >= 1,
        decreases end - pid,
    {
        proof {
            assert forall|lx: int|
                (l as int) < lx < meta.spec_len() implies (#[trigger] meta.layers()[lx]).total
                <= pid as int by {
                lemma_meta_totals_decreasing(*meta, l as int + 1, lx);
            }
        }
        let ghost before_ins = neighbors@;
        let _found = insert_point(
            pid as u32,
            l,
            neighbors,
            meta,
            storage,
            heuristic,
            ef_construction,
            search,
            insertion,
        );
        proof {
            assert forall|lx: int|
                (l as int) < lx < meta.spec_len() implies upper_rows_wf(
                neighbors@,
                #[trigger] spec_layer_slice(*meta, lx),
            ) by {
                lemma_meta_starts_after(*meta, lx);
                let sl = spec_layer_slice(*meta, lx);
                assert forall|p: int, k: int|
                    0 <= p < sl.total && 0 <= k < sl.stride implies #[trigger] neighbors@[sl.start
                    + p * sl.stride + k] == before_ins[sl.start + p * sl.stride + k] by {
                    assert(0 <= p * sl.stride + k < sl.total * sl.stride) by (nonlinear_arith)
                        requires
                            0 <= p < sl.total,
                            0 <= k < sl.stride,
                            sl.stride >= 1,
                    ;
                    lemma_meta_region_bounds(*meta, lx);
                    assert(sl.start + p * sl.stride + k >= 64 * n_i);
                }
            }
        }
        pid = pid + 1;
    }
    if l > 0 {
        proof {
            lemma_meta_starts_after(*meta, l as int);
            lemma_meta_region_bounds(*meta, l as int);
            assert(ls.start + ls.total * ls.stride == meta.layers()[l as int].end);
            assert(ls.total * 64 <= n_i * 64) by (nonlinear_arith)
                requires
                    ls.total <= n_i,
            ;
        }
        let ghost before_copy = neighbors@;
        ls.copy_from_zero(neighbors);
        proof {
            assert forall|j: int|
                0 <= j < 64 * n_i implies #[trigger] neighbors@[j] == before_copy[j] by {
                assert(!(ls.start <= j < ls.start + ls.total * ls.stride));
            }
            assert forall|p: int, k: int|
                0 <= p < n_i && 0 <= k < 64 implies #[trigger] neighbors@[64 * p + k]
                == before_copy[64 * p + k] by {
                assert(0 <= 64 * p + k < 64 * n_i) by (nonlinear_arith)
                    requires
                        0 <= p < n_i,
                        0 <= k < 64,
                ;
            }
            let sl = spec_layer_slice(*meta, l as int);
            assert(upper_rows_wf(neighbors@, sl)) by {
                assert forall|p: int, k: int|
                    0 <= p < sl.total && 0 <= k < sl.stride && (#[trigger] neighbors@[sl.start + p
                        * sl.stride + k]).spec_valid() implies neighbors@[sl.start + p * sl.stride
                    + k].0 < sl.total && neighbors@[sl.start + p * sl.stride + k].0 != p by {
                    assert(neighbors@[sl.start + p * sl.stride + k] == before_copy[64 * p + k]);
                    assert(before_copy[64 * p + k].spec_valid());
                    assert(before_copy[64 * p + k].0 < meta.layers()[l as int].total);
                }
            }
            assert forall|lx: int|
                (l as int) < lx < meta.spec_len() implies upper_rows_wf(
                neighbors@,
                #[trigger] spec_layer_slice(*meta, lx),
            ) by {
                let slx = spec_layer_slice(*meta, lx);
                lemma_meta_start_after_end(*meta, l as int, lx);
                assert forall|p: int, k: int|
                    0 <= p < slx.total && 0 <= k < slx.stride implies #[trigger] neighbors@[
                slx.start + p * slx.stride + k] == before_copy[slx.start + p * slx.stride + k] by {
                    assert(0 <= p * slx.stride + k < slx.total * slx.stride) by (nonlinear_arith)
                        requires
                            0 <= p < slx.total,
                            0 <= k < slx.stride,
                            slx.stride >= 1,
                    ;
                    lemma_meta_region_bounds(*meta, lx);
                    assert(slx.start + p * slx.stride + k >= meta.layers()[l as int].end);
                }
            }
        }
    }
}

/// The built index: the points, the per-layer metadata and the flat
/// neighbour array, queried but never changed after construction.
pub struct Hnsw {
    ef_search: usize,
    pub storage: ContiguousStorage,
    meta: crate::contiguous_types::Meta,
    neighbors: Vec<PointId>,
}

impl Hnsw {
    pub closed spec fn meta_spec(self) -> crate::contiguous_types::Meta {
        self.meta
    }

    pub closed spec fn neighbors_view(self) -> Seq<PointId> {
        self.neighbors@
    }

    pub closed spec fn spec_ef_search(self) -> int {
        self.ef_search as int
    }

    pub closed spec fn storage_spec(self) -> ContiguousStorage {
        self.storage
    }

    pub closed spec fn spec_len(self) -> nat {
        self.storage.spec_len()
    }

    /// The graph invariant: storage and metadata are well formed, every
    /// base-layer slot points at a real other node, rows keep their
    /// filled slots as a prefix, and every snapshotted upper layer does
    /// the same within its own node range.
    pub closed spec fn wf(self) -> bool {
        &&& self.storage.wf()
        &&& self.meta_spec().wf()
        &&& self.spec_ef_search() >= 1
        &&& (self.spec_len() == 0 ==> self.meta_spec().spec_len() == 0)
        &&& (self.spec_len() > 0 ==> {
            &&& self.meta_spec().spec_len() >= 1
            &&& self.meta_spec().layers()[0].total == self.spec_len()
            &&& self.meta_spec().layers()[0].start == 0
            &&& self.neighbors_view().len() == self.meta_spec().layers()[self.meta_spec().spec_len()
                - 1].end
            &&& zero_rows_wf(
                self.neighbors_view(),
                self.spec_len() as int,
                self.spec_len() as int,
            )
            &&& forall|l: int|
                1 <= l < self.meta_spec().spec_len() ==> upper_rows_wf(
                    self.neighbors_view(),
                    #[trigger] spec_layer_slice(self.meta_spec(), l),
                )
        })
    }

    pub fn builder() -> (r: Builder)
        ensures
            r.wf(),
    {
        Builder::default()
    }

    /// The id bound the descent has reached before searching layer
    /// `cur`: 1 above the top layer, the layer total below it.
    pub closed spec fn layer_bound(self, cur: int) -> int {
        if cur >= self.meta_spec().spec_len() {
            1
        } else {
            self.meta_spec().layers()[cur].total as int
        }
    }

    /// Rows of layer `cur` satisfy the generic search condition at the
    /// layer's own node total.
    proof fn lemma_layer_slice_rows(self, cur: int)
        requires
            self.wf(),
            self.spec_len() > 0,
            0 <= cur < self.meta_spec().spec_len(),
        ensures
            layer_rows_wf(
                self.neighbors_view(),
                spec_layer_slice(self.meta_spec(), cur),
                self.meta_spec().layers()[cur].total as int,
            ),
            self.layer_bound(cur + 1) <= self.meta_spec().layers()[cur].total,
            self.meta_spec().layers()[cur].total <= self.spec_len(),
    {
        let n_i = self.spec_len() as int;
        lemma_meta_region_bounds(self.meta_spec(), cur);
        lemma_meta_totals_decreasing(self.meta_spec(), 0, cur);
        let ls = spec_layer_slice(self.meta_spec(), cur);
        if cur == 0 {
            assert(64 * n_i == self.meta_spec().layers()[0].end);
            lemma_zero_layer_rows_wf(self.neighbors_view(), ls, n_i);
        } else {
            assert(upper_rows_wf(self.neighbors_view(), ls));
            assert(self.meta_spec().layers()[cur].end == ls.start + ls.total * 32);
        }
        if cur + 1 < self.meta_spec().spec_len() {
            let j = cur + 1;
            assert(self.meta_spec().layers()[j].total == self.meta_spec().layers()[j - 1].total
                - self.meta_spec().layers()[j - 1].max);
        }
    }

    /// One step of the query descent: searches layer `cur` and, above
    /// the base layer, turns the results into the next frontier.
    #[verifier::rlimit(100)]
    fn query_layer(&self, cur: usize, point: &Vec<i64>, search: &mut Search)
        requires
            self.wf(),
            self.spec_len() > 0,
            point@.len() == self.storage_spec().stride,
            coords_bounded(point@),
            cur < self.meta_spec().spec_len(),
            old(search).inv(self.storage_spec(), point@, self.layer_bound(cur as int + 1)),
            old(search).visited_view().len() >= self.spec_len(),
            1 <= old(search).nearest_view().len(),
            old(search).nearest_view().len() <= self.spec_ef_search(),
            1 <= old(search).spec_ef(),
        ensures
            final(search).inv(self.storage_spec(), point@, self.layer_bound(cur as int)),
            final(search).visited_view().len() == old(search).visited_view().len(),
            1 <= final(search).nearest_view().len(),
            final(search).nearest_view().len() <= self.spec_ef_search(),
            1 <= final(search).spec_ef() <= self.spec_ef_search(),
    {
        let ghost bprev: int = self.layer_bound(cur as int + 1);
        let ghost tcur: int = self.meta_spec().layers()[cur as int].total as int;
        proof {
            self.lemma_layer_slice_rows(cur as int);
            search.lemma_inv_widen(self.storage, point@, bprev, tcur);
        }
        let (ef, num) = if cur == 0 {
            (self.ef_search, 64)
        } else {
            (1, 32)
        };
        search.set_ef(ef);
        let ls = self.meta.layer(cur);
        proof {
            assert(ls == spec_layer_slice(self.meta_spec(), cur as int));
        }
        search.search(point, &self.neighbors, ls, &self.storage, num, Ghost(tcur));
        if cur > 0 {
            search.cull_step(Ghost(self.storage), Ghost(point@), Ghost(tcur));
        }
    }

    /// Builds the index: draws layers, inserts every node from the top
    /// layer down, and snapshots each finished layer. Returns the index
    /// and the remap from caller order to internal ids, a bijection.
    #[verifier::rlimit(100)]
    pub(crate) fn new(points: &Vec<Vec<i64>>, builder: Builder) -> (r: (Hnsw, Vec<PointId>))
        requires
            builder.wf(),
            points_ok(points@),
        ensures
            r.0.wf(),
            r.0.spec_len() == points@.len(),
            r.0.spec_ef_search() == builder.spec_ef_search(),
            points@.len() > 0 ==> r.0.meta_spec().models(builder.spec_ml(), points@.len()),
            r.1@.len() == points@.len(),
            forall|i: int| 0 <= i < points@.len() ==> (#[trigger] r.1@[i]).0 < points@.len(),
            forall|i1: int, i2: int|
                0 <= i1 < points@.len() && 0 <= i2 < points@.len() && i1 != i2 ==> #[trigger] r.1@[
                    i1] != #[trigger] r.1@[i2],
            forall|i: int|
                0 <= i < points@.len() ==> r.0.storage_spec().point((#[trigger] r.1@[i]).0 as int)
                    == points@[i]@,
            forall|i: int|
                0 <= i < points@.len() ==> r.0.storage_spec().order@[(#[trigger] r.1@[i]).0
                    as int] == i,
            zero_rows_wf(r.0.neighbors_view(), points@.len() as int, points@.len() as int),
            builder.spec_heuristic() is None ==> zero_rows_sorted(
                r.0.neighbors_view(),
                points@.len() as int,
                r.0.storage_spec(),
            ),
    {
        let heuristic = builder.heuristic;
        let (ef_search, ef_construction, mlb, seed) = builder.into_parts();
        if points.len() == 0 {
            return (
                Hnsw {
                    ef_search,
                    storage: ContiguousStorage::empty(),
                    meta: crate::contiguous_types::Meta::empty(),
                    neighbors: Vec::new(),
                },
                Vec::new(),
            );
        }
        let meta = crate::contiguous_types::Meta::new(mlb, points.len());
        let (storage, out) = ContiguousStorage::new(points, seed);
        let n = storage.len();
        let ghost n_i = n as int;
        proof {
            assert forall|i: int|
                0 <= i < points@.len() implies storage.point((#[trigger] out@[i]).0 as int)
                == points@[i]@ by {
                assert(storage.point(out@[i].0 as int) == points@[storage.order@[out@[i].0 as int] as int]@);
            }
        }
        let total_slots = meta.neighbors();
        proof {
            lemma_meta_region_bounds(meta, 0);
        }
        let mut neighbors: Vec<PointId> = Vec::new();
        for j in 0..total_slots
            invariant
                neighbors@.len() == j,
                forall|k: int| 0 <= k < j ==> #[trigger] neighbors@[k] == PointId(INVALID_ID),
            decreases total_slots - j,
        {
            neighbors.push(PointId(INVALID_ID));
        }
        proof {
            assert(64 * n_i == meta.layers()[0].end);
            assert forall|l: int|
                0 <= l < meta.spec_len() implies (#[trigger] meta.layers()[l]).end
                <= neighbors@.len() && meta.layers()[l].total <= n_i by {
                lemma_meta_region_bounds(meta, l);
                lemma_meta_totals_decreasing(meta, 0, l);
            }
        }
        let lm = meta.layers_mut();
        let mut pool = SearchPool::new(n);
        let (mut search, mut insertion) = pool.pop();
        search.set_ef(1);
        insertion.set_ef(1);
        let mut l = meta.len();
        while l > 0
            invariant
                l <= meta.spec_len(),
                neighbors@.len() == meta.layers()[meta.spec_len() - 1].end,
                zero_rows_wf(
                    neighbors@,
                    n_i,
                    if l == meta.spec_len() {
                        1int
                    } else {
                        meta.layers()[l as int].total as int
                    },
                ),
                heuristic is None ==> zero_rows_sorted(neighbors@, n_i, storage),
                forall|lx: int|
                    (l as int) <= lx < meta.spec_len() && lx >= 1 ==> upper_rows_wf(
                        neighbors@,
                        #[trigger] spec_layer_slice(meta, lx),
                    ),
                search.visited_view().len() == n_i,
                insertion.visited_view().len() == n_i,
                search.spec_ef() >= 1,
                insertion.spec_ef() >= 1,
            decreases l,
        {
            l = l - 1;
            build_layer(
                l,
                &meta,
                &storage,
                heuristic,
                ef_construction,
                &mut neighbors,
                &mut search,
                &mut insertion,
                lm[l],
            );
            proof {
                if l >= 1 {
                    let j = l as int;
                    assert(meta.layers()[j].total == meta.layers()[j - 1].total - meta.layers()[j
                        - 1].max);
                }
            }
        }
        pool.push((search, insertion));
        let r = Hnsw { ef_search, storage, meta, neighbors };
        proof {
            assert(r.wf());
        }
        (r, out)
    }

    /// Greedy descent from the enter point: width 1 on the upper layers,
    /// `ef_search` on the base layer. Returns up to `ef_search` results,
    /// nearest first, each carrying its true squared distance.
    #[verifier::rlimit(100)]
    pub fn search(&self, point: &Vec<i64>, search: &mut Search) -> (res: Vec<Item>)
        requires
            self.wf(),
            self.spec_len() > 0 ==> point@.len() == self.storage_spec().stride,
            coords_bounded(point@),
        ensures
            res@.len() <= self.spec_ef_search(),
            res@.len() <= self.spec_len(),
            self.spec_len() == 0 ==> res@.len() == 0,
            self.spec_len() >= 1 ==> res@.len() >= 1,
            items_sorted(res@),
            forall|i: int|
                0 <= i < res@.len() ==> (#[trigger] res@[i]).pid.0 < self.spec_len() && res@[i].distance
                    == sq_dist(point@, self.storage_spec().point(res@[i].pid.0 as int)),
            forall|i: int, j: int|
                0 <= i < j < res@.len() ==> (#[trigger] res@[i]).pid != (#[trigger] res@[j]).pid,
            self.spec_len() == 1 ==> res@.len() == 1 && res@[0].pid.0 == 0,
    {
        search.reset();
        if self.storage.is_empty() {
            return Vec::new();
        }
        let n = self.storage.len();
        let ghost n_i = self.storage.spec_len() as int;
        search.visited.reserve_capacity(n);
        search.set_ef(self.ef_search);
        proof {
            assert(search.inv(self.storage, point@, 1));
        }
        search.push(0, point, &self.storage, Ghost(1));
        let mut cur = self.meta.len();
        #[verifier::loop_isolation(true)]
        while cur > 0
            invariant
                self.wf(),
                self.spec_len() > 0,
                point@.len() == self.storage_spec().stride,
                coords_bounded(point@),
                n_i == self.storage_spec().spec_len(),
                cur <= self.meta_spec().spec_len(),
                search.inv(self.storage_spec(), point@, self.layer_bound(cur as int)),
                search.visited_view().len() >= n_i,
                1 <= search.nearest_view().len(),
                search.nearest_view().len() <= self.spec_ef_search(),
                1 <= search.spec_ef(),
            decreases cur,
        {
            cur = cur - 1;
            self.query_layer(cur, point, search);
        }
        proof {
            assert(self.layer_bound(0) == n_i);
        }
        let rn = search.nearest.len();
        let mut res: Vec<Item> = Vec::new();
        for i in 0..rn
            invariant
                search.nearest@.len() == rn,
                search.inv(self.storage, point@, n_i),
                res@.len() == i,
                forall|j: int|
                    0 <= j < i ==> (#[trigger] res@[j]).pid == search.nearest@[j].pid && res@[j].distance
                        == search.nearest@[j].distance,
            decreases rn - i,
        {
            let c = search.nearest[i];
            res.push(Item { distance: c.distance, pid: c.pid });
        }
        proof {
            if self.spec_len() == 1 {
                assert(res@.len() >= 1);
                if res@.len() >= 2 {
                    assert(cand_lt(search.nearest@[0], search.nearest@[1]));
                    assert(search.nearest@[0].pid.0 < 1 && search.nearest@[1].pid.0 < 1);
                    assert(search.nearest@[0].distance == sq_dist(
                        point@,
                        self.storage.point(search.nearest@[0].pid.0 as int),
                    ));
                    assert(false);
                }
            }
            if res@.len() > self.spec_len() {
                assert(cand_lt(search.nearest@[0], search.nearest@[1]));
            }
            lemma_sorted_distinct_bound(search.nearest@, self.storage, point@, n_i);
            assert forall|i: int, j: int|
                0 <= i < j < res@.len() implies (#[trigger] res@[i]).pid != (
            #[trigger] res@[j]).pid by {
                if res@[i].pid == res@[j].pid {
                    assert(search.nearest@[i].distance == sq_dist(
                        point@,
                        self.storage.point(search.nearest@[i].pid.0 as int),
                    ));
                    assert(search.nearest@[j].distance == sq_dist(
                        point@,
                        self.storage.point(search.nearest@[j].pid.0 as int),
                    ));
                    assert(cand_lt(search.nearest@[i], search.nearest@[j]));
                }
            }
        }
        res
    }

    /// The points of the index in id order, each with its coordinates.
    pub fn iter(&self) -> (r: Vec<(PointId, Vec<i64>)>)
        requires
            self.wf(),
        ensures
            r@.len() == self.spec_len(),
            forall|i: int|
                0 <= i < r@.len() ==> (#[trigger] r@[i]).0 == PointId(i as u32) && r@[i].1@
                    == self.storage_spec().point(i),
    {
        let n = self.storage.len();
        let mut r: Vec<(PointId, Vec<i64>)> = Vec::new();
        proof {
            self.storage.lemma_len_bound();
        }
        for i in 0..n
            invariant
                r@.len() == i,
                forall|j: int|
                    0 <= j < i ==> (#[trigger] r@[j]).0 == PointId(j as u32) && r@[j].1@
                        == self.storage_spec().point(j),
            decreases n - i,
        {
            let p = match self.storage.get(i) {
                Some(v) => v,
                None => {
                    proof {
                        assert(false);
                    }
                    Vec::new()
                },
            };
            r.push((PointId(i as u32), p));
        }
        r
    }

    /// A copy of the flat neighbour array, for inspection.
    pub fn neighbors_snapshot(&self) -> (r: Vec<PointId>)
        ensures
            r@ == self.neighbors_view(),
    {
        let n = self.neighbors.len();
        let mut r: Vec<PointId> = Vec::new();
        for i in 0..n
            invariant
                r@.len() == i,
                forall|j: int| 0 <= j < i ==> #[trigger] r@[j] == self.neighbors@[j],
            decreases n - i,
        {
            r.push(self.neighbors[i]);
        }
        proof {
            assert(r@ =~= self.neighbors_view());
        }
        r
    }

    /// A copy of the per-layer metadata, base layer first.
    pub fn layer_metas(&self) -> (r: Vec<crate::contiguous_types::LayerMeta>)
        ensures
            r@ == self.meta_spec().layers(),
    {
        let n = self.meta.len();
        let mut r: Vec<crate::contiguous_types::LayerMeta> = Vec::new();
        for i in 0..n
            invariant
                r@.len() == i,
                forall|j: int| 0 <= j < i ==> #[trigger] r@[j] == self.meta_spec().layers()[j],
            decreases n - i,
        {
            r.push(self.meta.inner[i]);
        }
        proof {
            assert(r@ =~= self.meta_spec().layers());
        }
        r
    }

    /// The `i`-th result held in `search` after a query, if any.
    pub fn get(&self, i: usize, search: &Search) -> (r: Option<Item>)
        ensures
            match r {
                Some(item) => i < search.nearest_view().len() && item.pid
                    == search.nearest_view()[i as int].pid && item.distance
                    == search.nearest_view()[i as int].distance,
                None => i >= search.nearest_view().len(),
            },
    {
        if i < search.nearest.len() {
            let c = search.nearest[i];
            Some(Item { distance: c.distance, pid: c.pid })
        } else {
            None
        }
    }
}

/// A strictly ordered result list over `n` points has at most `n`
/// entries: ids determine distances, so ids cannot repeat.
proof fn lemma_sorted_distinct_bound(
    s: Seq<Candidate>,
    st: ContiguousStorage,
    q: Seq<i64>,
    n: int,
)
    requires
        cands_sorted_asc(s),
        cands_good(s, st, q, n),
        n >= 0,
    ensures
        s.len() <= n,
{
    let pids = s.map_values(|c: Candidate| c.pid.0 as int);
    assert(pids.no_duplicates()) by {
        assert forall|i: int, j: int|
            0 <= i < pids.len() && 0 <= j < pids.len() && i != j implies pids[i] != pids[j] by {
            if s[i].pid.0 == s[j].pid.0 {
                assert(s[i].distance == sq_dist(q, st.point(s[i].pid.0 as int)));
                assert(s[j].distance == sq_dist(q, st.point(s[j].pid.0 as int)));
                if i < j {
                    assert(cand_lt(s[i], s[j]));
                } else {
                    assert(cand_lt(s[j], s[i]));
                }
            }
        }
    }
    pids.unique_seq_to_set();
    vstd::set_lib::lemma_int_range(0, n);
    assert(pids.to_set().subset_of(vstd::set_lib::set_int_range(0, n))) by {
        assert forall|x: int| pids.to_set().contains(x) implies vstd::set_lib::set_int_range(
            0,
            n,
        ).contains(x) by {
            let i = choose|i: int| 0 <= i < pids.len() && pids[i] == x;
            assert(cand_good(s[i], st, q, n));
        }
    }
    vstd::set_lib::lemma_len_subset(pids.to_set(), vstd::set_lib::set_int_range(0, n));
}

/// Reorders caller-supplied values into id order: the value of the
/// point with id `p` ends at position `p`. Consumes the input; no
/// cloning is needed.
fn permute_values<V>(values: Vec<V>, remap: &Vec<PointId>, order: &Vec<usize>) -> (r: Vec<V>)
    requires
        values@.len() == remap@.len(),
        order@.len() == remap@.len(),
        forall|i: int| 0 <= i < remap@.len() ==> (#[trigger] remap@[i]).0 < remap@.len(),
        forall|i: int| 0 <= i < order@.len() ==> #[trigger] order@[i] < order@.len(),
        forall|i: int|
            0 <= i < remap@.len() ==> order@[(#[trigger] remap@[i]).0 as int] == i,
        forall|i1: int, i2: int|
            0 <= i1 < order@.len() && 0 <= i2 < order@.len() && i1 != i2 ==> #[trigger] order@[i1]
                != #[trigger] order@[i2],
    ensures
        r@.len() == values@.len(),
        forall|p: int| 0 <= p < r@.len() ==> #[trigger] r@[p] == values@[order@[p] as int],
{
    let ghost orig = values@;
    let n = remap.len();
    let mut values = values;
    let mut tmp: Vec<Option<V>> = Vec::new();
    for j in 0..n
        invariant
            tmp@.len() == j,
            forall|k: int| 0 <= k < j ==> (#[trigger] tmp@[k]) is None,
        decreases n - j,
    {
        tmp.push(None);
    }
    let mut i = n;
    while i > 0
        invariant
            i <= n,
            values@.len() == i,
            values@ == orig.take(i as int),
            tmp@.len() == n,
            forall|j: int|
                i <= j < n ==> #[trigger] tmp@[(remap@[j].0 as int)] == Some(orig[j]),
            forall|p: int|
                0 <= p < n && (forall|j: int| i <= j < n ==> (#[trigger] remap@[j]).0 != p) ==> (
                #[trigger] tmp@[p]) is None,
        decreases i,
    {
        i = i - 1;
        let v = match values.pop() {
            Some(v) => v,
            None => {
                proof {
                    assert(false);
                }
                unreached()
            },
        };
        proof {
            assert(orig.take(i as int + 1).last() == orig[i as int]);
            assert(orig.take(i as int + 1).drop_last() =~= orig.take(i as int));
        }
        let p = remap[i].0 as usize;
        tmp.set(p, Some(v));
        proof {
            assert forall|j: int|
                i <= j < n implies #[trigger] tmp@[(remap@[j].0 as int)] == Some(orig[j]) by {
                if j != i {
                    assert(remap@[j] != remap@[i as int]);
                    assert(remap@[j].0 != remap@[i as int].0) by {
                        if remap@[j].0 == remap@[i as int].0 {
                            assert(order@[remap@[j].0 as int] == j);
                            assert(order@[remap@[i as int].0 as int] == i as int);
                        }
                    }
                }
            }
        }
    }
    proof {
        assert forall|p: int| 0 <= p < n implies #[trigger] tmp@[p] == Some(
            orig[order@[p] as int],
        ) by {
            let j = order@[p] as int;
            assert(order@[remap@[j].0 as int] == j);
            assert(remap@[j].0 == p) by {
                if remap@[j].0 != p {
                    assert(order@[remap@[j].0 as int] != order@[p as int]);
                }
            }
            assert(tmp@[(remap@[j].0 as int)] == Some(orig[j]));
        }
    }
    let mut rev: Vec<V> = Vec::new();
    let mut k = n;
    while k > 0
        invariant
            k <= n,
            tmp@.len() == k,
            forall|p: int| 0 <= p < k ==> #[trigger] tmp@[p] == Some(orig[order@[p] as int]),
            rev@.len() == n - k,
            forall|j: int|
                0 <= j < rev@.len() ==> #[trigger] rev@[j] == orig[order@[n - 1 - j] as int],
        decreases k,
    {
        k = k - 1;
        match tmp.pop() {
            Some(Some(v)) => {
                rev.push(v);
            },
            _ => {
                proof {
                    assert(tmp@.len() == k + 1);
                    assert(tmp@[k as int] == Some(orig[order@[k as int] as int]));
                    assert(false);
                }
            },
        };
    }
    let mut out: Vec<V> = Vec::new();
    let mut k2 = n;
    while k2 > 0
        invariant
            k2 <= n,
            rev@.len() == k2,
            forall|j: int|
                0 <= j < k2 ==> #[trigger] rev@[j] == orig[order@[n - 1 - j] as int],
            out@.len() == n - k2,
            forall|p: int| 0 <= p < out@.len() ==> #[trigger] out@[p] == orig[order@[p] as int],
        decreases k2,
    {
        k2 = k2 - 1;
        match rev.pop() {
            Some(v) => {
                proof {
                    assert(rev@.len() == k2);
                    assert(v == orig[order@[n - 1 - k2 as int] as int]);
                    assert(n - 1 - (k2 as int) == out@.len());
                }
                out.push(v);
            },
            None => {
                proof {
                    assert(false);
                }
            },
        };
    }
    out
}

/// One result of a map query: the distance and id, with the caller's
/// value for that point.
#[derive(Debug)]
pub struct MapItem<V> {
    pub distance: u64,
    pub pid: PointId,
    pub value: V,
}

/// An index paired with one caller value per point, held in id order.
pub struct HnswMap<V> {
    pub hnsw: Hnsw,
    pub values: Vec<V>,
}

impl<V> HnswMap<V> {
    pub open spec fn wf(self) -> bool {
        &&& self.hnsw.wf()
        &&& self.values@.len() == self.hnsw.spec_len()
    }

    /// Builds the index and reorders `values` so that the value of the
    /// point with id `p` sits at position `p`.
    fn new(points: &Vec<Vec<i64>>, values: Vec<V>, builder: Builder) -> (r: HnswMap<V>)
        requires
            builder.wf(),
            points_ok(points@),
            values@.len() == points@.len(),
        ensures
            r.wf(),
            r.hnsw.spec_len() == points@.len(),
            r.hnsw.spec_ef_search() == builder.spec_ef_search(),
            points@.len() > 0 ==> r.hnsw.meta_spec().models(builder.spec_ml(), points@.len()),
            forall|p: int|
                0 <= p < r.values@.len() ==> #[trigger] r.values@[p] == values@[
                    r.hnsw.storage_spec().order@[p] as int],
            zero_rows_wf(r.hnsw.neighbors_view(), points@.len() as int, points@.len() as int),
            builder.spec_heuristic() is None ==> zero_rows_sorted(
                r.hnsw.neighbors_view(),
                points@.len() as int,
                r.hnsw.storage_spec(),
            ),
    {
        let (hnsw, ids) = Hnsw::new(points, builder);
        let new_values = permute_values(values, &ids, &hnsw.storage.order);
        HnswMap { hnsw, values: new_values }
    }

    /// Queries the index and attaches the stored values to the results.
    pub fn search(&self, point: &Vec<i64>, search: &mut Search) -> (res: Vec<MapItem<V>>) where
        V: Clone,

        requires
            self.wf(),
            self.hnsw.spec_len() > 0 ==> point@.len() == self.hnsw.storage_spec().stride,
            coords_bounded(point@),
        ensures
            res@.len() <= self.hnsw.spec_ef_search(),
            res@.len() <= self.hnsw.spec_len(),
            self.hnsw.spec_len() == 0 ==> res@.len() == 0,
            self.hnsw.spec_len() >= 1 ==> res@.len() >= 1,
            forall|i: int|
                0 <= i < res@.len() ==> (#[trigger] res@[i]).pid.0 < self.hnsw.spec_len() && res@[
                    i].distance == sq_dist(
                    point@,
                    self.hnsw.storage_spec().point(res@[i].pid.0 as int),
                ),
            forall|i: int, j: int|
                0 <= i < j < res@.len() ==> ((#[trigger] res@[i]).distance < (
                #[trigger] res@[j]).distance || (res@[i].distance == res@[j].distance && res@[
                    i].pid.0 < res@[j].pid.0)),
            forall|i: int, j: int|
                0 <= i < j < res@.len() ==> (#[trigger] res@[i]).pid != (#[trigger] res@[j]).pid,
            self.hnsw.spec_len() == 1 ==> res@.len() == 1 && res@[0].pid.0 == 0,
    {
        let items = self.hnsw.search(point, search);
        let n = items.len();
        let mut res: Vec<MapItem<V>> = Vec::new();
        for i in 0..n
            invariant
                items@.len() == n,
                n <= self.values@.len(),
                forall|j: int| 0 <= j < n ==> (#[trigger] items@[j]).pid.0 < self.values@.len(),
                res@.len() == i,
                forall|j: int|
                    0 <= j < i ==> (#[trigger] res@[j]).pid == items@[j].pid && res@[j].distance
                        == items@[j].distance,
            decreases n - i,
        {
            let it = items[i];
            let value = self.values[it.pid.0 as usize].clone();
            res.push(MapItem { distance: it.distance, pid: it.pid, value });
        }
        res
    }

    /// The points of the index in id order, each with its coordinates.
    pub fn iter(&self) -> (r: Vec<(PointId, Vec<i64>)>)
        requires
            self.wf(),
        ensures
            r@.len() == self.hnsw.spec_len(),
            forall|i: int|
                0 <= i < r@.len() ==> (#[trigger] r@[i]).0 == PointId(i as u32) && r@[i].1@
                    == self.hnsw.storage_spec().point(i),
    {
        self.hnsw.iter()
    }

    /// The `i`-th result held in `search` after a query, if any.
    pub fn get(&self, i: usize, search: &Search) -> (r: Option<MapItem<V>>) where V: Clone
        requires
            self.wf(),
            forall|j: int|
                0 <= j < search.nearest_view().len() ==> (
                #[trigger] search.nearest_view()[j]).pid.0 < self.hnsw.spec_len(),
        ensures
            match r {
                Some(item) => i < search.nearest_view().len() && item.pid
                    == search.nearest_view()[i as int].pid && item.distance
                    == search.nearest_view()[i as int].distance,
                None => i >= search.nearest_view().len(),
            },
    {
        match self.hnsw.get(i, search) {
            Some(it) => {
                let value = self.values[it.pid.0 as usize].clone();
                Some(MapItem { distance: it.distance, pid: it.pid, value })
            },
            None => None,
        }
    }
}

impl Builder {
    /// Builds an index over `points` paired with one value per point.
    pub fn build<V>(self, points: &Vec<Vec<i64>>, values: Vec<V>) -> (r: HnswMap<V>)
        requires
            self.wf(),
            points_ok(points@),
            values@.len() == points@.len(),
        ensures
            r.wf(),
            r.hnsw.spec_len() == points@.len(),
            r.hnsw.spec_ef_search() == self.spec_ef_search(),
            points@.len() > 0 ==> r.hnsw.meta_spec().models(self.spec_ml(), points@.len()),
            forall|p: int|
                0 <= p < r.values@.len() ==> #[trigger] r.values@[p] == values@[
                    r.hnsw.storage_spec().order@[p] as int],
            zero_rows_wf(r.hnsw.neighbors_view(), points@.len() as int, points@.len() as int),
            self.spec_heuristic() is None ==> zero_rows_sorted(
                r.hnsw.neighbors_view(),
                points@.len() as int,
                r.hnsw.storage_spec(),
            ),
    {
        HnswMap::new(points, values, self)
    }

    /// Builds a bare index; also returns the remap from caller order to
    /// internal ids, which is a bijection.
    pub fn build_hnsw(self, points: &Vec<Vec<i64>>) -> (r: (Hnsw, Vec<PointId>))
        requires
            self.wf(),
            points_ok(points@),
        ensures
            r.0.wf(),
            r.0.spec_len() == points@.len(),
            r.0.spec_ef_search() == self.spec_ef_search(),
            points@.len() > 0 ==> r.0.meta_spec().models(self.spec_ml(), points@.len()),
            r.1@.len() == points@.len(),
            forall|i: int| 0 <= i < points@.len() ==> (#[trigger] r.1@[i]).0 < points@.len(),
            forall|i1: int, i2: int|
                0 <= i1 < points@.len() && 0 <= i2 < points@.len() && i1 != i2 ==> #[trigger] r.1@[
                    i1] != #[trigger] r.1@[i2],
            forall|i: int|
                0 <= i < points@.len() ==> r.0.storage_spec().point((#[trigger] r.1@[i]).0 as int)
                    == points@[i]@,
            zero_rows_wf(r.0.neighbors_view(), points@.len() as int, points@.len() as int),
            self.spec_heuristic() is None ==> zero_rows_sorted(
                r.0.neighbors_view(),
                points@.len() as int,
                r.0.storage_spec(),
            ),
    {
        Hnsw::new(points, self)
    }
}

} // verus!
