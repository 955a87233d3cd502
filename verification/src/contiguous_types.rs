//! Identifiers, candidates and the per-layer metadata of the graph.

use vstd::prelude::*;

verus! {

/// Sentinel identifier marking an empty neighbour slot.
pub const INVALID_ID: u32 = 0xFFFF_FFFF;

/// Fixed-point scale for the layer-decay constant `ml`: a stored value
/// `mlb` stands for the real number `mlb / ML_SCALE`.
pub const ML_SCALE: u64 = 0x1_0000_0000;

/// Largest accepted `ml` numerator, `floor(0.9 * ML_SCALE)`; keeping
/// `ml <= 0.9` bounds the total neighbour storage by a geometric series.
pub const ML_MAX: u64 = 3_865_470_566;

/// Default `ml` numerator, `floor(ML_SCALE / ln 32)`.
pub const ML_DEFAULT: u64 = 1_239_265_603;

/// Largest number of points an index will hold.
pub const MAX_POINTS: usize = 4_000_000;

/// A dense 32-bit identifier for a point inside the index, assigned in
/// construction order. `INVALID_ID` marks an empty slot.
#[derive(Clone, Copy, Debug, PartialEq, Eq, Hash, Structural)]
pub struct PointId(pub u32);

impl PointId {
    pub open spec fn spec_valid(self) -> bool {
        self.0 != INVALID_ID
    }

    pub fn is_valid(&self) -> (r: bool)
        ensures
            r == self.spec_valid(),
    {
        self.0 != INVALID_ID
    }

}

/// A `(distance, pid)` pair; distances are squared Euclidean distances.
/// Pairs are ordered lexicographically, ties broken by the smaller id.
#[derive(Clone, Copy, Debug, PartialEq, Eq, Structural)]
pub struct Candidate {
    pub distance: u64,
    pub pid: PointId,
}

/// Strict lexicographic order on `(distance, pid)`.
pub open spec fn cand_lt(a: Candidate, b: Candidate) -> bool {
    a.distance < b.distance || (a.distance == b.distance && a.pid.0 < b.pid.0)
}

/// Non-strict lexicographic order on `(distance, pid)`.
pub open spec fn cand_le(a: Candidate, b: Candidate) -> bool {
    a.distance < b.distance || (a.distance == b.distance && a.pid.0 <= b.pid.0)
}

/// Executable comparison deciding `cand_lt`.
pub fn cand_less(a: &Candidate, b: &Candidate) -> (r: bool)
    ensures
        r == cand_lt(*a, *b),
{
    a.distance < b.distance || (a.distance == b.distance && a.pid.0 < b.pid.0)
}

/// Neighbour slots per node on layer `i`: `2 * M` on the base layer,
/// `M` above it.
pub open spec fn spec_stride(i: int) -> int {
    if i == 0 {
        64
    } else {
        32
    }
}

/// Node count of the layer above one of `num` nodes: `floor(num * ml)`,
/// zeroed when it falls under `M`. The `nx >= num` guard only makes the
/// recursion well-founded; it never fires for `mlb <= ML_MAX`.
pub open spec fn spec_next(mlb: u64, num: nat) -> nat {
    let nx = (num * mlb) / (ML_SCALE as int);
    if nx < 32 || nx >= num {
        0
    } else {
        nx as nat
    }
}

/// The per-layer node totals, base layer first.
pub open spec fn spec_totals(mlb: u64, num: nat) -> Seq<nat>
    decreases num,
{
    if num == 0 {
        Seq::empty()
    } else {
        seq![num] + spec_totals(mlb, spec_next(mlb, num))
    }
}

/// Sum of all layer totals.
pub open spec fn spec_sum(mlb: u64, num: nat) -> nat
    decreases num,
{
    if num == 0 {
        0
    } else {
        num + spec_sum(mlb, spec_next(mlb, num))
    }
}

/// With `ml <= 0.9` each layer keeps at most nine tenths of the nodes of
/// the one below it.
pub proof fn lemma_next_decay(mlb: u64, num: nat)
    requires
        mlb <= ML_MAX,
    ensures
        10 * spec_next(mlb, num) <= 9 * num,
{
    let nx = (num * mlb) / (ML_SCALE as int);
    assert(10 * nx <= 9 * num) by (nonlinear_arith)
        requires
            mlb <= ML_MAX,
            ML_MAX == 3_865_470_566,
            ML_SCALE == 0x1_0000_0000,
            nx == (num * mlb) / (ML_SCALE as int),
    ;
}

/// The summed layer totals stay within ten times the base total.
pub proof fn lemma_sum_bound(mlb: u64, num: nat)
    requires
        mlb <= ML_MAX,
    ensures
        spec_sum(mlb, num) <= 10 * num,
        spec_sum(mlb, num) >= num,
    decreases num,
{
    if num > 0 {
        lemma_next_decay(mlb, num);
        lemma_sum_bound(mlb, spec_next(mlb, num));
    }
}

/// Shape of the totals sequence: it starts at `num`, decreases strictly,
/// steps by `spec_next`, and ends where `spec_next` gives zero.
pub proof fn lemma_totals_shape(mlb: u64, num: nat)
    requires
        num > 0,
    ensures
        spec_totals(mlb, num).len() >= 1,
        spec_totals(mlb, num)[0] == num,
        forall|i: int|
            0 <= i < spec_totals(mlb, num).len() ==> 1 <= #[trigger] spec_totals(mlb, num)[i]
                <= num,
        forall|i: int|
            0 <= i < spec_totals(mlb, num).len() - 1 ==> #[trigger] spec_totals(mlb, num)[i + 1]
                == spec_next(mlb, spec_totals(mlb, num)[i]),
        forall|i: int|
            0 <= i < spec_totals(mlb, num).len() - 1 ==> #[trigger] spec_totals(mlb, num)[i + 1]
                < spec_totals(mlb, num)[i],
        spec_next(mlb, spec_totals(mlb, num)[spec_totals(mlb, num).len() - 1]) == 0,
    decreases num,
{
    let ts = spec_totals(mlb, num);
    let nx = spec_next(mlb, num);
    if nx == 0 {
        assert(spec_totals(mlb, 0nat) =~= Seq::<nat>::empty());
        assert(ts == seq![num] + spec_totals(mlb, 0nat));
        assert(ts =~= seq![num]);
    } else {
        lemma_totals_shape(mlb, nx);
        let rest = spec_totals(mlb, nx);
        assert(ts == seq![num] + rest);
        assert(forall|i: int| 0 <= i < rest.len() ==> ts[i + 1] == #[trigger] rest[i]);
        assert(ts[0] == num);
        assert(ts[1] == rest[0]);
        assert forall|i: int| 0 <= i < ts.len() - 1 implies #[trigger] ts[i + 1] == spec_next(
            mlb,
            ts[i],
        ) by {
            if i == 0 {
                assert(ts[1] == rest[0] == nx);
            } else {
                assert(rest[i] == spec_next(mlb, rest[i - 1]));
            }
        }
    }
}

/// Metadata of one layer: `total` nodes in the layer, of which `max`
/// have it as their highest layer, and the slot range `[start, end)` of
/// its neighbour array region.
#[derive(Clone, Copy, Debug, PartialEq, Eq, Structural)]
pub struct LayerMeta {
    pub max: usize,
    pub total: usize,
    pub start: usize,
    pub end: usize,
}

/// Per-layer metadata of the whole graph, base layer first, computed
/// once from the layer-decay constant and the point count.
pub struct Meta {
    pub inner: Vec<LayerMeta>,
}

impl Meta {
    pub open spec fn layers(self) -> Seq<LayerMeta> {
        self.inner@
    }

    pub open spec fn spec_len(self) -> nat {
        self.inner@.len()
    }

    /// Full functional model: the rows follow `spec_totals(mlb, n)`.
    pub open spec fn models(self, mlb: u64, n: nat) -> bool {
        let ts = spec_totals(mlb, n);
        &&& self.inner@.len() == ts.len()
        &&& forall|i: int|
            0 <= i < ts.len() ==> (#[trigger] self.inner@[i]).total == ts[i]
        &&& forall|i: int|
            0 <= i < ts.len() ==> (#[trigger] self.inner@[i]).max == ts[i] - (
            if i + 1 < ts.len() {
                ts[i + 1]
            } else {
                0
            })
        &&& forall|i: int|
            0 <= i < ts.len() ==> (#[trigger] self.inner@[i]).end == self.inner@[i].start + ts[i]
                * spec_stride(i)
        &&& (ts.len() > 0 ==> self.inner@[0].start == 0)
        &&& forall|i: int|
            1 <= i < ts.len() ==> (#[trigger] self.inner@[i]).start == self.inner@[i - 1].end
    }

    /// Structural facts every built `Meta` satisfies, enough for all
    /// later bounds reasoning.
    pub open spec fn wf(self) -> bool {
        &&& forall|i: int|
            0 <= i < self.spec_len() ==> 1 <= (#[trigger] self.inner@[i]).max <= self.inner@[i].total
                <= MAX_POINTS
        &&& forall|i: int|
            0 <= i < self.spec_len() ==> (#[trigger] self.inner@[i]).end == self.inner@[i].start
                + self.inner@[i].total * spec_stride(i)
        &&& forall|i: int|
            0 <= i < self.spec_len() ==> (#[trigger] self.inner@[i]).end <= 0x6000_0000
        &&& forall|i: int|
            1 <= i < self.spec_len() ==> (#[trigger] self.inner@[i]).start == self.inner@[i
                - 1].end
        &&& forall|i: int|
            1 <= i < self.spec_len() ==> (#[trigger] self.inner@[i]).total == self.inner@[i
                - 1].total - self.inner@[i - 1].max
        &&& (self.spec_len() > 0 ==> self.inner@[0].start == 0)
        &&& (self.spec_len() > 0 ==> self.inner@[self.spec_len() - 1].max == self.inner@[
            self.spec_len() - 1].total)
    }

    /// The node total of layer 0.
    pub open spec fn spec_points(self) -> nat {
        if self.spec_len() == 0 {
            0
        } else {
            self.inner@[0].total as nat
        }
    }

    /// An empty metadata table, for the empty index.
    pub fn empty() -> (r: Meta)
        ensures
            r.wf(),
            r.spec_len() == 0,
    {
        Meta { inner: Vec::new() }
    }

    pub fn len(&self) -> (r: usize)
        ensures
            r == self.spec_len(),
    {
        self.inner.len()
    }

    /// Computes the layer table for `num` points under decay `mlb`:
    /// starting from the base total, each higher layer keeps
    /// `floor(total * ml)` nodes until that falls under `M`.
    pub fn new(mlb: u64, num: usize) -> (r: Meta)
        requires
            1 <= num <= MAX_POINTS,
            mlb <= ML_MAX,
        ensures
            r.models(mlb, num as nat),
            r.wf(),
            r.spec_len() >= 1,
            r.spec_points() == num as nat,
    {
        proof {
            lemma_totals_shape(mlb, num as nat);
            lemma_sum_bound(mlb, num as nat);
        }
        let ghost ts = spec_totals(mlb, num as nat);
        let ghost budget: int = 64 * num + 32 * spec_sum(mlb, spec_next(mlb, num as nat));
        let mut inner: Vec<LayerMeta> = Vec::new();
        let mut neighbors_off: usize = 0;
        let mut cur: usize = num;
        #[verifier::loop_isolation(true)]
        loop
            invariant_except_break
                1 <= num <= MAX_POINTS,
                mlb <= ML_MAX,
                ts == spec_totals(mlb, num as nat),
                budget == 64 * num + 32 * spec_sum(mlb, spec_next(mlb, num as nat)),
                inner@.len() < ts.len(),
                cur == ts[inner@.len() as int],
                1 <= cur <= num,
                forall|j: int|
                    0 <= j < inner@.len() ==> (#[trigger] inner@[j]).total == ts[j],
                forall|j: int|
                    0 <= j < inner@.len() ==> (#[trigger] inner@[j]).max == ts[j] - ts[j + 1],
                forall|j: int|
                    0 <= j < inner@.len() ==> (#[trigger] inner@[j]).end == inner@[j].start + ts[j]
                        * spec_stride(j),
                (inner@.len() > 0 ==> inner@[0].start == 0),
                forall|j: int|
                    0 <= j < inner@.len() - 1 ==> (#[trigger] inner@[j + 1]).start == inner@[j].end,
                (inner@.len() == 0 ==> neighbors_off == 0),
                (inner@.len() > 0 ==> neighbors_off == inner@[inner@.len() - 1].end),
                (inner@.len() > 0 ==> neighbors_off + 32 * spec_sum(mlb, cur as nat) == budget),
                budget <= 384 * num,
                neighbors_off <= budget,
            ensures
                inner@.len() == ts.len(),
                forall|j: int|
                    0 <= j < ts.len() ==> (#[trigger] inner@[j]).total == ts[j],
                forall|j: int|
                    0 <= j < ts.len() ==> (#[trigger] inner@[j]).max == ts[j] - (
                    if j + 1 < ts.len() {
                        ts[j + 1]
                    } else {
                        0
                    }),
                forall|j: int|
                    0 <= j < ts.len() ==> (#[trigger] inner@[j]).end == inner@[j].start + ts[j]
                        * spec_stride(j),
                inner@[0].start == 0,
                forall|j: int|
                    0 <= j < ts.len() - 1 ==> (#[trigger] inner@[j + 1]).start == inner@[j].end,
                neighbors_off == inner@[ts.len() - 1].end,
                neighbors_off <= 384 * num,
            decreases cur,
        {
            let ghost i = inner@.len() as int;
            proof {
                lemma_totals_shape(mlb, num as nat);
                lemma_sum_bound(mlb, num as nat);
            }
            proof {
                assert(cur * mlb <= 4_000_000 * 3_865_470_566) by (nonlinear_arith)
                    requires
                        0 <= cur <= 4_000_000,
                        0 <= mlb <= 3_865_470_566,
                ;
            }
            let prod: u64 = (cur as u64) * mlb;
            let nx0: u64 = prod / ML_SCALE;
            proof {
                assert(10 * (prod as int / (ML_SCALE as int)) <= 9 * cur) by (nonlinear_arith)
                    requires
                        mlb <= ML_MAX,
                        ML_MAX == 3_865_470_566u64,
                        ML_SCALE == 0x1_0000_0000u64,
                        prod == cur * mlb,
                        cur >= 0,
                ;
            }
            let mut next: usize = nx0 as usize;
            if next < 32 {
                next = 0;
            }
            assert(next == spec_next(mlb, cur as nat));
            let stride: usize = if inner.len() == 0 {
                64
            } else {
                32
            };
            proof {
                lemma_sum_bound(mlb, cur as nat);
                assert(spec_sum(mlb, cur as nat) == cur + spec_sum(mlb, next as nat));
            }
            let start = neighbors_off;
            neighbors_off = neighbors_off + cur * stride;
            inner.push(
                LayerMeta { max: cur - next, total: cur, start, end: neighbors_off },
            );
            proof {
                if i < ts.len() - 1 {
                    assert(ts[i + 1] == spec_next(mlb, ts[i]));
                } else {
                    assert(spec_next(mlb, ts[ts.len() - 1]) == 0);
                }
            }
            if next == 0 {
                proof {
                    if i < ts.len() - 1 {
                        assert(ts[i + 1] == spec_next(mlb, ts[i]));
                        assert(ts[i + 1] >= 1);
                        assert(false);
                    }
                    assert(inner@.len() == ts.len());
                }
                break;
            }
            cur = next;
        }
        let r = Meta { inner };
        proof {
            assert forall|j: int| 1 <= j < r.spec_len() implies (#[trigger] r.inner@[j]).start
                == r.inner@[j - 1].end by {
                let jp = j - 1;
                assert(r.inner@[jp + 1].start == r.inner@[jp].end);
            }
            assert forall|j: int| 1 <= j < r.spec_len() implies (#[trigger] r.inner@[j]).total
                == r.inner@[j - 1].total - r.inner@[j - 1].max by {
                let jp = j - 1;
                assert(r.inner@[jp].total == ts[jp] && r.inner@[jp].max == ts[jp] - ts[jp + 1]);
                assert(r.inner@[jp + 1].total == ts[jp + 1]);
            }
            assert forall|j: int| 0 <= j < r.spec_len() implies 1 <= (#[trigger] r.inner@[j]).max
                <= r.inner@[j].total <= MAX_POINTS by {
                if j < ts.len() - 1 {
                    assert(ts[j + 1] < ts[j]);
                }
            }
            assert forall|j: int| 0 <= j < r.spec_len() implies (#[trigger] r.inner@[j]).end
                <= 0x6000_0000 by {
                assert(r.inner@[r.spec_len() - 1].end <= 384 * num);
                assert forall|k: int| 0 <= k < r.inner@.len() implies (#[trigger] r.inner@[k]).end
                    >= r.inner@[k].start by {
                    assert(ts[k] * spec_stride(k) >= 0) by (nonlinear_arith)
                        requires
                            ts[k] >= 0,
                            spec_stride(k) >= 0,
                    ;
                }
                lemma_meta_ends_monotone(r.inner@, j, r.spec_len() - 1);
            }
        }
        r
    }
}

impl Meta {
    /// The cursor used while walking construction order: the layer below
    /// `cur` (or the top layer for `None`) paired with its node total.
    pub fn next_lower(&self, cur: Option<usize>) -> (r: Option<(usize, usize)>)
        requires
            match cur {
                Some(l) => l >= 1,
                None => self.spec_len() >= 1,
            },
        ensures
            match cur {
                None => r == Some(
                    ((self.spec_len() - 1) as usize, self.layers()[self.spec_len() - 1].total),
                ),
                Some(l) => if l - 1 < self.spec_len() {
                    r == Some(((l - 1) as usize, self.layers()[l - 1].total))
                } else {
                    r is None
                },
            },
    {
        let idx = match cur {
            Some(l) => l - 1,
            None => self.inner.len() - 1,
        };
        if idx < self.inner.len() {
            Some((idx, self.inner[idx].total))
        } else {
            None
        }
    }

    /// A read descriptor of layer `l`'s region of the neighbour array.
    pub fn layer(&self, l: usize) -> (r: LayerSlice)
        requires
            l < self.spec_len(),
        ensures
            r.start == self.layers()[l as int].start,
            r.total == self.layers()[l as int].total,
            r.stride == spec_stride(l as int),
    {
        let lm = self.inner[l];
        LayerSlice { start: lm.start, total: lm.total, stride: if l == 0 { 64 } else { 32 } }
    }

    /// Write descriptors for every layer's region, base layer first.
    pub fn layers_mut(&self) -> (r: Vec<LayerSliceMut>)
        ensures
            r@.len() == self.spec_len(),
            forall|i: int|
                0 <= i < self.spec_len() ==> (#[trigger] r@[i]).start == self.layers()[i].start
                    && r@[i].total == self.layers()[i].total && r@[i].stride == spec_stride(i),
    {
        let mut out: Vec<LayerSliceMut> = Vec::new();
        let n = self.inner.len();
        for i in 0..n
            invariant
                out@.len() == i,
                forall|j: int|
                    0 <= j < i ==> (#[trigger] out@[j]).start == self.layers()[j].start
                        && out@[j].total == self.layers()[j].total && out@[j].stride
                        == spec_stride(j),
            decreases n - i,
        {
            let lm = self.inner[i];
            out.push(
                LayerSliceMut {
                    start: lm.start,
                    total: lm.total,
                    stride: if i == 0 {
                        64
                    } else {
                        32
                    },
                },
            );
        }
        out
    }

    /// The id range `[start, end)` of the points whose highest layer is
    /// `l`; the enter point 0 is never handed out.
    pub fn points(&self, l: usize) -> (r: (usize, usize))
        requires
            self.wf(),
            l < self.spec_len(),
        ensures
            r.1 == self.layers()[l as int].total,
            r.0 == if self.layers()[l as int].total - self.layers()[l as int].max >= 1 {
                self.layers()[l as int].total - self.layers()[l as int].max
            } else {
                1
            },
            1 <= r.0 <= r.1,
    {
        let lm = self.inner[l];
        let lo = lm.total - lm.max;
        (if lo >= 1 { lo } else { 1 }, lm.total)
    }

    /// Total slot count of the neighbour array.
    pub fn neighbors(&self) -> (r: usize)
        requires
            self.wf(),
            self.spec_len() >= 1,
        ensures
            r == self.layers()[self.spec_len() - 1].end,
    {
        self.inner[self.inner.len() - 1].end
    }
}

/// A read-only descriptor of one layer's region of the neighbour array:
/// `total` rows of `stride` slots beginning at slot `start`.
#[derive(Clone, Copy, Debug, PartialEq, Eq, Structural)]
pub struct LayerSlice {
    pub start: usize,
    pub total: usize,
    pub stride: usize,
}

/// A write descriptor of one layer's region, same layout as
/// [`LayerSlice`].
#[derive(Clone, Copy, Debug, PartialEq, Eq, Structural)]
pub struct LayerSliceMut {
    pub start: usize,
    pub total: usize,
    pub stride: usize,
}

impl LayerSliceMut {
    /// The same region, read-only.
    pub fn as_ref(&self) -> (r: LayerSlice)
        ensures
            r.start == self.start,
            r.total == self.total,
            r.stride == self.stride,
    {
        LayerSlice { start: self.start, total: self.total, stride: self.stride }
    }

    /// Snapshots the first `total` base-layer rows into this region,
    /// truncating each row to this layer's stride.
    pub fn copy_from_zero(&self, neighbors: &mut Vec<PointId>)
        requires
            self.stride <= 64,
            self.stride >= 1,
            self.total * 64 <= self.start,
            self.start + self.total * self.stride <= old(neighbors)@.len(),
        ensures
            final(neighbors)@.len() == old(neighbors)@.len(),
            forall|p: int, k: int|
                0 <= p < self.total && 0 <= k < self.stride
                    ==> #[trigger] final(neighbors)@[self.start + p * self.stride + k]
                    == old(neighbors)@[64 * p + k],
            forall|j: int|
                0 <= j < old(neighbors)@.len() && !(self.start <= j < self.start + self.total
                    * self.stride) ==> final(neighbors)@[j] == old(neighbors)@[j],
    {
        let _nlen = neighbors.len();
        let ghost orig = neighbors@;
        let n = self.total;
        for p in 0..n
            invariant
                neighbors@.len() == orig.len(),
                forall|q: int, k: int|
                    0 <= q < p && 0 <= k < self.stride ==> #[trigger] neighbors@[self.start + q
                        * self.stride + k] == orig[64 * q + k],
                forall|j: int|
                    0 <= j < orig.len() && !(self.start <= j < self.start + p * self.stride)
                        ==> neighbors@[j] == orig[j],
            decreases n - p,
        {
            proof {
                assert(p * self.stride + self.stride <= self.total * self.stride)
                    by (nonlinear_arith)
                    requires
                        0 <= p < self.total,
                        self.stride >= 1,
                ;
                assert(64 * p + 64 <= 64 * self.total) by (nonlinear_arith)
                    requires
                        0 <= p < self.total,
                ;
                assert((p + 1) * self.stride == p * self.stride + self.stride)
                    by (nonlinear_arith);
            }
            let src_base = 64 * p;
            let dst_base = self.start + p * self.stride;
            let ghost before = neighbors@;
            for k in 0..self.stride
                invariant
                    neighbors@.len() == orig.len(),
                    forall|kk: int|
                        0 <= kk < k ==> #[trigger] neighbors@[dst_base + kk] == orig[src_base
                            + kk],
                    forall|j: int|
                        0 <= j < orig.len() && !(dst_base <= j < dst_base + k) ==> neighbors@[j]
                            == before[j],
                decreases self.stride - k,
            {
                let v = neighbors[src_base + k];
                proof {
                    assert(src_base + k < self.start);
                    assert(neighbors@[src_base + k] == orig[src_base + k]);
                }
                neighbors.set(dst_base + k, v);
            }
            proof {
                assert forall|q: int, k: int| 0 <= q < p + 1 && 0 <= k < self.stride implies
                    #[trigger] neighbors@[self.start + q * self.stride + k] == orig[64 * q
                    + k] by {
                    if q < p {
                        assert(q * self.stride + k < p * self.stride) by (nonlinear_arith)
                            requires
                                0 <= q < p,
                                0 <= k < self.stride,
                        ;
                        assert(neighbors@[self.start + q * self.stride + k] == before[self.start
                            + q * self.stride + k]);
                    }
                }
                assert forall|j: int|
                    0 <= j < orig.len() && !(self.start <= j < self.start + (p + 1)
                        * self.stride) implies neighbors@[j] == orig[j] by {
                    assert(!(dst_base <= j < dst_base + self.stride));
                }
            }
        }
    }
}

/// The ids a row rewrite will store: the candidates' ids in order,
/// with the row's own id dropped.
pub open spec fn row_pids(cands: Seq<Candidate>, owner: u32) -> Seq<PointId> {
    cands.filter(|c: Candidate| c.pid.0 != owner).map_values(|c: Candidate| c.pid)
}

/// One base-layer row: 64 neighbour slots starting at slot `base`.
#[derive(Clone, Copy, Debug, PartialEq, Eq, Structural)]
pub struct ZeroNode {
    pub base: usize,
}

impl ZeroNode {
    /// Writes slot `i` of the row.
    pub fn set(&self, neighbors: &mut Vec<PointId>, i: usize, pid: PointId)
        requires
            i < 64,
            self.base + 64 <= old(neighbors)@.len(),
        ensures
            final(neighbors)@ == old(neighbors)@.update(self.base + i, pid),
    {
        let _nlen = neighbors.len();
        neighbors.set(self.base + i, pid);
    }

    /// Shift-inserts `pid` at offset `idx`, dropping the last slot; an
    /// offset past the row leaves it unchanged, and an invalid slot at
    /// `idx` is overwritten in place.
    pub fn insert(&self, neighbors: &mut Vec<PointId>, idx: usize, pid: PointId)
        requires
            self.base + 64 <= old(neighbors)@.len(),
        ensures
            final(neighbors)@.len() == old(neighbors)@.len(),
            idx >= 64 ==> final(neighbors)@ == old(neighbors)@,
            idx < 64 ==> {
                &&& forall|j: int|
                    0 <= j < old(neighbors)@.len() && !(self.base + idx <= j < self.base + 64)
                        ==> final(neighbors)@[j] == old(neighbors)@[j]
                &&& final(neighbors)@[self.base + idx] == pid
                &&& (old(neighbors)@[self.base + idx].spec_valid() ==> forall|k: int|
                    idx < k < 64 ==> #[trigger] final(neighbors)@[self.base + k] == old(
                        neighbors,
                    )@[self.base + k - 1])
                &&& (!old(neighbors)@[self.base + idx].spec_valid() ==> forall|k: int|
                    idx < k < 64 ==> #[trigger] final(neighbors)@[self.base + k] == old(
                        neighbors,
                    )@[self.base + k])
            },
    {
        let _nlen = neighbors.len();
        if idx >= 64 {
            return ;
        }
        let ghost orig = neighbors@;
        if neighbors[self.base + idx].is_valid() {
            let mut k: usize = 63;
            while k > idx
                invariant
                    idx <= k <= 63,
                    neighbors@.len() == orig.len(),
                    forall|j: int|
                        0 <= j < orig.len() && !(self.base + k + 1 <= j < self.base + 64)
                            ==> neighbors@[j] == orig[j],
                    forall|j: int|
                        k < j < 64 ==> #[trigger] neighbors@[self.base + j] == orig[self.base + j
                            - 1],
                decreases k,
            {
                let v = neighbors[self.base + k - 1];
                neighbors.set(self.base + k, v);
                k = k - 1;
            }
        }
        neighbors.set(self.base + idx, pid);
    }

    /// Overwrites the row with the ids of `cands` in order, skipping
    /// `owner` itself, and clears the remaining slots: slot `j` holds
    /// the `j`-th surviving id, sentinels follow.
    pub fn rewrite(&self, neighbors: &mut Vec<PointId>, cands: &Vec<Candidate>, owner: u32)
        requires
            self.base + 64 <= old(neighbors)@.len(),
            forall|i: int| 0 <= i < cands@.len() ==> (#[trigger] cands@[i].pid).spec_valid(),
        ensures
            final(neighbors)@.len() == old(neighbors)@.len(),
            forall|j: int|
                0 <= j < old(neighbors)@.len() && !(self.base <= j < self.base + 64)
                    ==> final(neighbors)@[j] == old(neighbors)@[j],
            forall|k: int|
                0 <= k < 64 && k < row_pids(cands@, owner).len()
                    ==> #[trigger] final(neighbors)@[self.base + k] == row_pids(cands@, owner)[k],
            forall|k: int|
                row_pids(cands@, owner).len() <= k < 64
                    ==> !(#[trigger] final(neighbors)@[self.base + k]).spec_valid(),
            forall|k: int|
                0 <= k < 64 && (#[trigger] final(neighbors)@[self.base + k]).spec_valid()
                    ==> exists|i: int|
                    0 <= i < cands@.len() && (#[trigger] cands@[i]).pid
                        == final(neighbors)@[self.base + k] && cands@[i].pid.0 != owner,
            forall|k1: int, k2: int|
                0 <= k1 < k2 < 64 && (#[trigger] final(neighbors)@[self.base + k2]).spec_valid()
                    ==> (#[trigger] final(neighbors)@[self.base + k1]).spec_valid(),
    {
        let _nlen = neighbors.len();
        let ghost orig = neighbors@;
        let mut w: usize = 0;
        let mut j: usize = 0;
        proof {
            assert(cands@.take(0) =~= Seq::<Candidate>::empty());
            assert(row_pids(cands@.take(0), owner) =~= Seq::<PointId>::empty());
        }
        while j < cands.len() && w < 64
            invariant
                w <= j,
                w <= 64,
                j <= cands@.len(),
                neighbors@.len() == orig.len(),
                w as int == row_pids(cands@.take(j as int), owner).len(),
                forall|jj: int|
                    0 <= jj < orig.len() && !(self.base <= jj < self.base + w) ==> neighbors@[jj]
                        == orig[jj],
                forall|k: int|
                    0 <= k < w ==> #[trigger] neighbors@[self.base + k] == row_pids(
                        cands@.take(j as int),
                        owner,
                    )[k],
                forall|k: int|
                    0 <= k < w ==> (#[trigger] neighbors@[self.base + k]).spec_valid(),
                forall|k: int|
                    0 <= k < w && (#[trigger] neighbors@[self.base + k]).spec_valid()
                        ==> exists|i: int|
                        0 <= i < cands@.len() && (#[trigger] cands@[i]).pid == neighbors@[self.base
                            + k] && cands@[i].pid.0 != owner,
            decreases cands@.len() - j,
        {
            let c = cands[j];
            proof {
                assert(cands@.take(j + 1) =~= cands@.take(j as int).push(cands@[j as int]));
                cands@.take(j as int).lemma_filter_push(
                    cands@[j as int],
                    |cc: Candidate| cc.pid.0 != owner,
                );
                cands@.take(j as int).filter(|cc: Candidate| cc.pid.0 != owner)
                    .lemma_push_map_commute(|cc: Candidate| cc.pid, cands@[j as int]);
            }
            if c.pid.0 != owner {
                neighbors.set(self.base + w, c.pid);
                proof {
                    let ghost jj = j as int;
                    assert(cands@[jj].pid == neighbors@[self.base + w as int]);
                }
                w = w + 1;
            }
            j = j + 1;
        }
        proof {
            let fp = row_pids(cands@, owner);
            if j == cands@.len() {
                assert(cands@.take(j as int) =~= cands@);
                assert(w as int == fp.len());
            } else {
                assert(w == 64);
                assert(cands@ =~= cands@.take(j as int) + cands@.skip(j as int));
                Seq::<Candidate>::filter_distributes_over_add(
                    cands@.take(j as int),
                    cands@.skip(j as int),
                    |cc: Candidate| cc.pid.0 != owner,
                );
                assert forall|k: int| 0 <= k < 64 implies #[trigger] neighbors@[self.base + k]
                    == fp[k] by {
                    let a = cands@.take(j as int).filter(|cc: Candidate| cc.pid.0 != owner);
                    let b = cands@.skip(j as int).filter(|cc: Candidate| cc.pid.0 != owner);
                    assert(fp =~= (a + b).map_values(|cc: Candidate| cc.pid));
                    assert((a + b).map_values(|cc: Candidate| cc.pid) =~= a.map_values(
                        |cc: Candidate| cc.pid,
                    ) + b.map_values(|cc: Candidate| cc.pid));
                    assert(fp[k] == a.map_values(|cc: Candidate| cc.pid)[k]);
                }
            }
        }
        let mut k = w;
        while k < 64
            invariant
                w <= k <= 64,
                neighbors@.len() == orig.len(),
                w as int == row_pids(cands@, owner).len() || (w == 64 && row_pids(
                    cands@,
                    owner,
                ).len() >= 64),
                forall|jj: int|
                    0 <= jj < orig.len() && !(self.base <= jj < self.base + k) ==> neighbors@[jj]
                        == orig[jj],
                forall|kk: int|
                    0 <= kk < w ==> #[trigger] neighbors@[self.base + kk] == row_pids(
                        cands@,
                        owner,
                    )[kk],
                forall|kk: int|
                    0 <= kk < w ==> (#[trigger] neighbors@[self.base + kk]).spec_valid(),
                forall|kk: int|
                    0 <= kk < w && (#[trigger] neighbors@[self.base + kk]).spec_valid()
                        ==> exists|i: int|
                        0 <= i < cands@.len() && (#[trigger] cands@[i]).pid == neighbors@[self.base
                            + kk] && cands@[i].pid.0 != owner,
                forall|kk: int|
                    w <= kk < k ==> !(#[trigger] neighbors@[self.base + kk]).spec_valid(),
            decreases 64 - k,
        {
            neighbors.set(self.base + k, PointId(INVALID_ID));
            k = k + 1;
        }
    }
}

/// Id `p` has `l` as its highest layer: it lies inside layer `l` but
/// not inside the one above it.
pub open spec fn spec_max_layer_is(meta: Meta, p: int, l: int) -> bool {
    &&& 0 <= p < meta.layers()[l].total
    &&& (l + 1 < meta.spec_len() ==> p >= meta.layers()[l + 1].total)
}

/// Layer assignment law: every layer `l` is the highest layer of
/// exactly `meta.layers()[l].max` ids; the base layer holds them all.
pub proof fn lemma_layer_population(meta: Meta, l: int)
    requires
        meta.wf(),
        0 <= l < meta.spec_len(),
    ensures
        Set::new(|p: int| spec_max_layer_is(meta, p, l)).finite(),
        Set::new(|p: int| spec_max_layer_is(meta, p, l)).len() == meta.layers()[l].max,
{
    let s = Set::new(|p: int| spec_max_layer_is(meta, p, l));
    let lo: int = if l + 1 < meta.spec_len() {
        meta.layers()[l + 1].total as int
    } else {
        0
    };
    let hi: int = meta.layers()[l].total as int;
    if l + 1 < meta.spec_len() {
        let j = l + 1;
        assert(meta.layers()[j].total == meta.layers()[j - 1].total - meta.layers()[j - 1].max);
    }
    assert(hi - lo == meta.layers()[l].max);
    assert(s =~= vstd::set_lib::set_int_range(lo, hi));
    vstd::set_lib::lemma_int_range(lo, hi);
}

/// Layer region ends grow with the layer index.
proof fn lemma_meta_ends_monotone(rows: Seq<LayerMeta>, i: int, j: int)
    requires
        0 <= i <= j < rows.len(),
        forall|k: int|
            0 <= k < rows.len() ==> (#[trigger] rows[k]).end >= rows[k].start,
        forall|k: int| 0 <= k < rows.len() - 1 ==> (#[trigger] rows[k + 1]).start == rows[k].end,
    ensures
        rows[i].end <= rows[j].end,
    decreases j - i,
{
    if i < j {
        lemma_meta_ends_monotone(rows, i + 1, j);
        assert(rows[i + 1].start == rows[i].end);
    }
}

} // verus!
