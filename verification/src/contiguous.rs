//! Contiguous point storage and the squared-Euclidean distance it is
//! measured under, together with the seeded layer-assignment shuffle.

use vstd::prelude::*;
use vstd::assert_multisets_equal;

use crate::contiguous_types::{PointId, INVALID_ID, MAX_POINTS};

verus! {

#[verifier::external_type_specification]
#[verifier::external_body]
pub struct ExSmallRng(rand::rngs::SmallRng);

/// Relies on rand's `SeedableRng::seed_from_u64` for `SmallRng`: derives
/// a generator from the seed. Nothing is assumed of the stream it yields.
#[verifier::external_body]
fn rng_from_seed(seed: u64) -> rand::rngs::SmallRng {
    <rand::rngs::SmallRng as rand::SeedableRng>::seed_from_u64(seed)
}

/// Relies on rand's `Rng::gen_range` over `0..n`: the sample lies below
/// `n`. It panics only on an empty range, which `requires` excludes.
#[verifier::external_body]
fn rng_below(rng: &mut rand::rngs::SmallRng, n: u32) -> (r: u32)
    requires
        n > 0,
    ensures
        r < n,
{
    rand::Rng::gen_range(rng, 0..n)
}

/// Relies on rand::random for an entropy-derived default seed.
#[verifier::external_body]
pub(crate) fn entropy_seed() -> u64 {
    rand::random()
}

/// The low 32 bits of a packed `(key, index)` word.
pub open spec fn low32(x: u64) -> int {
    (x as int) % 0x1_0000_0000
}

/// Some position of `s` carries `j` in its low 32 bits.
pub open spec fn low_covered(s: Seq<u64>, j: int) -> bool {
    exists|k: int| 0 <= k < s.len() && low32(#[trigger] s[k]) == j
}

/// Ascending order, duplicates allowed.
pub open spec fn sorted_asc_u64(s: Seq<u64>) -> bool {
    forall|i: int, j: int| 0 <= i < j < s.len() ==> #[trigger] s[i] <= #[trigger] s[j]
}

/// Inserting anywhere adds exactly one occurrence to the multiset.
pub proof fn lemma_insert_multiset<A>(s: Seq<A>, j: int, x: A)
    requires
        0 <= j <= s.len(),
    ensures
        s.insert(j, x).to_multiset() == s.to_multiset().insert(x),
{
    let t = s.insert(j, x);
    t.to_multiset_ensures();
    s.to_multiset_ensures();
    assert(t.remove(j) =~= s);
    assert(t[j] == x);
    assert(s.to_multiset() =~= t.to_multiset().remove(x));
    assert(t.contains(x));
    assert(t.to_multiset().count(x) > 0);
    assert_multisets_equal!(t.to_multiset(), s.to_multiset().insert(x));
}

/// Insertion sort on packed words; the result is ascending and holds the
/// same words.
fn sorted_copy(src: &Vec<u64>) -> (r: Vec<u64>)
    ensures
        r@.len() == src@.len(),
        sorted_asc_u64(r@),
        r@.to_multiset() == src@.to_multiset(),
{
    let mut out: Vec<u64> = Vec::new();
    let n = src.len();
    proof {
        assert(out@ =~= src@.take(0));
    }
    for i in 0..n
        invariant
            out@.len() == i,
            sorted_asc_u64(out@),
            out@.to_multiset() == src@.take(i as int).to_multiset(),
        decreases n - i,
    {
        let x = src[i];
        let mut j = out.len();
        while j > 0 && out[j - 1] > x
            invariant
                j <= out@.len(),
                forall|k: int| j <= k < out@.len() ==> #[trigger] out@[k] > x,
            decreases j,
        {
            j = j - 1;
        }
        let ghost before = out@;
        out.insert(j, x);
        proof {
            lemma_insert_multiset(before, j as int, x);
            assert(src@.take(i + 1) =~= src@.take(i as int).push(src@[i as int]));
            src@.take(i as int).to_multiset_ensures();
            assert(src@.take(i + 1).to_multiset() == src@.take(i as int).to_multiset().insert(x));
            assert forall|a: int, b: int| 0 <= a < b < out@.len() implies #[trigger] out@[a]
                <= #[trigger] out@[b] by {
                if b < j {
                } else if a > j {
                } else if a == j {
                    assert(out@[b] == before[b - 1]);
                } else if b == j {
                    if j > 0 {
                        assert(before[j - 1] <= x);
                        assert(before[a] <= before[j - 1]);
                    }
                } else {
                    assert(out@[a] == before[a] && out@[b] == before[b - 1]);
                    if a <= j - 1 && j - 1 <= b - 1 {
                    }
                }
            }
        }
    }
    proof {
        assert(src@.take(n as int) =~= src@);
    }
    out
}

/// Largest accepted point dimension.
pub const MAX_STRIDE: usize = 4096;

/// Largest accepted coordinate magnitude (`1 << 24`); it keeps every
/// squared distance within `u64`.
pub const COORD_LIMIT: i64 = 16_777_216;

/// Sum of the squared coordinate differences over the first `k` axes.
pub open spec fn sq_dist_upto(a: Seq<i64>, b: Seq<i64>, k: int) -> int
    decreases k,
{
    if k <= 0 {
        0
    } else {
        sq_dist_upto(a, b, k - 1) + (a[k - 1] - b[k - 1]) * (a[k - 1] - b[k - 1])
    }
}

/// The squared Euclidean distance between two points of equal dimension.
pub open spec fn sq_dist(a: Seq<i64>, b: Seq<i64>) -> int {
    sq_dist_upto(a, b, a.len() as int)
}

/// Every coordinate within `COORD_LIMIT` in magnitude.
pub open spec fn coords_bounded(a: Seq<i64>) -> bool {
    forall|k: int| 0 <= k < a.len() ==> -(COORD_LIMIT as int) <= #[trigger] a[k] <= COORD_LIMIT as int
}

/// The squared distance is symmetric in its two points.
pub proof fn lemma_sq_dist_upto_sym(a: Seq<i64>, b: Seq<i64>, k: int)
    ensures
        sq_dist_upto(a, b, k) == sq_dist_upto(b, a, k),
    decreases k,
{
    if k > 0 {
        lemma_sq_dist_upto_sym(a, b, k - 1);
        let x = a[k - 1];
        let y = b[k - 1];
        assert((x - y) * (x - y) == (y - x) * (y - x)) by (nonlinear_arith);
    }
}

/// Distance is symmetric: measuring from either endpoint gives the same
/// value whenever the two points share a dimension.
pub proof fn lemma_sq_dist_sym(a: Seq<i64>, b: Seq<i64>)
    requires
        a.len() == b.len(),
    ensures
        sq_dist(a, b) == sq_dist(b, a),
{
    lemma_sq_dist_upto_sym(a, b, a.len() as int);
}

/// Partial distances are non-negative and grow with the axis count.
pub proof fn lemma_sq_dist_upto_nonneg(a: Seq<i64>, b: Seq<i64>, k: int)
    ensures
        sq_dist_upto(a, b, k) >= 0,
    decreases k,
{
    if k > 0 {
        lemma_sq_dist_upto_nonneg(a, b, k - 1);
        let d = a[k - 1] - b[k - 1];
        assert(d * d >= 0) by (nonlinear_arith);
    }
}

/// Distance is non-negative.
pub proof fn lemma_sq_dist_nonneg(a: Seq<i64>, b: Seq<i64>)
    ensures
        sq_dist(a, b) >= 0,
{
    lemma_sq_dist_upto_nonneg(a, b, a.len() as int);
}

/// A point equals itself at distance zero.
pub proof fn lemma_sq_dist_upto_self(a: Seq<i64>, k: int)
    ensures
        sq_dist_upto(a, a, k) == 0,
    decreases k,
{
    if k > 0 {
        lemma_sq_dist_upto_self(a, k - 1);
    }
}

/// Distance from a point to itself is zero.
pub proof fn lemma_sq_dist_self(a: Seq<i64>)
    ensures
        sq_dist(a, a) == 0,
{
    lemma_sq_dist_upto_self(a, a.len() as int);
}

/// Flat storage of all points of one index: `order[p]` gives the slot of
/// the point with id `p` inside `values`, which holds `stride` coordinates
/// per point in caller order.
pub struct ContiguousStorage {
    pub values: Vec<i64>,
    pub order: Vec<usize>,
    pub stride: usize,
}

impl ContiguousStorage {
    /// Number of points held.
    pub open spec fn spec_len(self) -> nat {
        self.order@.len()
    }

    /// The coordinates of the point with id `p`.
    pub open spec fn point(self, p: int) -> Seq<i64> {
        self.values@.subrange(
            self.order@[p] * self.stride,
            self.order@[p] * self.stride + self.stride,
        )
    }

    /// Well-formed storage: a positive bounded stride, one full row of
    /// bounded coordinates per point, and in-range row slots.
    pub open spec fn wf(self) -> bool {
        &&& 1 <= self.stride <= MAX_STRIDE
        &&& self.values@.len() == self.spec_len() * self.stride
        &&& self.values@.len() <= 0x4000_0000
        &&& coords_bounded(self.values@)
        &&& forall|i: int|
            0 <= i < self.spec_len() ==> #[trigger] self.order@[i] < self.spec_len()
        &&& forall|i1: int, i2: int|
            0 <= i1 < self.spec_len() && 0 <= i2 < self.spec_len() && i1 != i2
                ==> #[trigger] self.order@[i1] != #[trigger] self.order@[i2]
    }

    /// The whole row of point `p` lies inside `values`.
    proof fn lemma_row_in_range(self, p: int)
        requires
            self.wf(),
            0 <= p < self.spec_len(),
        ensures
            self.order@[p] * self.stride + self.stride <= self.values@.len(),
            self.order@[p] * self.stride >= 0,
            forall|k: int|
                0 <= k < self.stride ==> self.point(p)[k] == self.values@[self.order@[p]
                    * self.stride + k],
    {
        assert(self.order@[p] * self.stride + self.stride <= self.spec_len() * self.stride)
            by (nonlinear_arith)
            requires
                self.order@[p] < self.spec_len(),
                self.stride >= 1,
        ;
        assert(self.order@[p] * self.stride >= 0) by (nonlinear_arith)
            requires
                self.order@[p] >= 0,
                self.stride >= 1,
        ;
    }

    /// A stored point has `stride` coordinates, all bounded.
    pub proof fn lemma_point_wf(self, p: int)
        requires
            self.wf(),
            0 <= p < self.spec_len(),
        ensures
            self.point(p).len() == self.stride,
            coords_bounded(self.point(p)),
    {
        self.lemma_row_in_range(p);
        assert forall|k: int|
            0 <= k < self.point(p).len() implies -(COORD_LIMIT as int) <= #[trigger] self.point(
            p,
        )[k] <= COORD_LIMIT as int by {
            assert(self.point(p)[k] == self.values@[self.order@[p] * self.stride + k]);
        }
    }

    /// The point count is bounded by the flat buffer size.
    pub proof fn lemma_len_bound(self)
        requires
            self.wf(),
        ensures
            self.spec_len() <= 0x4000_0000,
    {
        assert(self.spec_len() <= self.spec_len() * self.stride) by (nonlinear_arith)
            requires
                self.stride >= 1,
        ;
    }

    /// Storage holding no points.
    pub fn empty() -> (r: ContiguousStorage)
        ensures
            r.wf(),
            r.spec_len() == 0,
    {
        ContiguousStorage { values: Vec::new(), order: Vec::new(), stride: 1 }
    }

    pub fn len(&self) -> (r: usize)
        ensures
            r == self.spec_len(),
    {
        self.order.len()
    }

    pub fn is_empty(&self) -> (r: bool)
        ensures
            r == (self.spec_len() == 0),
    {
        self.order.len() == 0
    }

    /// A copy of the coordinates of point `index`, or `None` past the end.
    pub fn get(&self, index: usize) -> (r: Option<Vec<i64>>)
        requires
            self.wf(),
        ensures
            match r {
                Some(v) => index < self.spec_len() && v@ == self.point(index as int),
                None => index >= self.spec_len(),
            },
    {
        if index >= self.order.len() {
            return None;
        }
        proof {
            self.lemma_row_in_range(index as int);
        }
        let base = self.order[index] * self.stride;
        let mut out: Vec<i64> = Vec::new();
        let ghost pt = self.point(index as int);
        for k in 0..self.stride
            invariant
                out@.len() == k,
                forall|j: int| 0 <= j < k ==> out@[j] == pt[j],
            decreases self.stride - k,
        {
            out.push(self.values[base + k]);
        }
        assert(out@ =~= pt);
        Some(out)
    }

    /// Copies of all points, in id order.
    pub fn iter(&self) -> (r: Vec<Vec<i64>>)
        requires
            self.wf(),
        ensures
            r@.len() == self.spec_len(),
            forall|i: int| 0 <= i < r@.len() ==> (#[trigger] r@[i])@ == self.point(i),
    {
        let n = self.order.len();
        let mut r: Vec<Vec<i64>> = Vec::new();
        for i in 0..n
            invariant
                r@.len() == i,
                forall|j: int| 0 <= j < i ==> (#[trigger] r@[j])@ == self.point(j),
            decreases n - i,
        {
            let p = match self.get(i) {
                Some(v) => v,
                None => {
                    proof {
                        assert(false);
                    }
                    Vec::new()
                },
            };
            r.push(p);
        }
        r
    }

    /// The squared distance from an external query point to point `p`.
    pub fn query_distance(&self, q: &Vec<i64>, p: u32) -> (d: u64)
        requires
            self.wf(),
            (p as int) < self.spec_len(),
            q@.len() == self.stride,
            coords_bounded(q@),
        ensures
            d == sq_dist(q@, self.point(p as int)),
    {
        proof {
            self.lemma_row_in_range(p as int);
        }
        let base = self.order[p as usize] * self.stride;
        let ghost pt = self.point(p as int);
        let mut acc: u64 = 0;
        for k in 0..self.stride
            invariant
                acc == sq_dist_upto(q@, pt, k as int),
                acc <= (k as int) * 0x4_0000_0000_0000,
            decreases self.stride - k,
        {
            assert(self.values@[base + k] == pt[k as int]);
            let d: i64 = q[k] - self.values[base + k];
            assert(0 <= d * d <= 0x4_0000_0000_0000) by (nonlinear_arith)
                requires
                    -2 * (COORD_LIMIT as int) <= d <= 2 * (COORD_LIMIT as int),
            ;
            let sq: i64 = d * d;
            assert((k + 1) * 0x4_0000_0000_0000 == k * 0x4_0000_0000_0000 + 0x4_0000_0000_0000);
            acc = acc + (sq as u64);
        }
        acc
    }

    /// Assigns every point a random key drawn from the seeded generator,
    /// sorts by `(key, caller index)` to fix the construction order, and
    /// stores the flattened coordinates. Returns the storage and the
    /// remap from caller order to ids, which is a bijection.
    pub fn new(points: &Vec<Vec<i64>>, seed: u64) -> (r: (ContiguousStorage, Vec<PointId>))
        requires
            1 <= points@.len() <= MAX_POINTS,
            1 <= points@[0]@.len() <= MAX_STRIDE,
            forall|i: int|
                0 <= i < points@.len() ==> (#[trigger] points@[i])@.len() == points@[0]@.len(),
            forall|i: int| 0 <= i < points@.len() ==> coords_bounded((#[trigger] points@[i])@),
            points@.len() * points@[0]@.len() <= 0x4000_0000,
        ensures
            r.0.wf(),
            r.0.spec_len() == points@.len(),
            r.0.stride == points@[0]@.len(),
            forall|p: int| 0 <= p < points@.len() ==> r.0.point(p) == (#[trigger] points@[
                r.0.order@[p] as int])@,
            r.1@.len() == points@.len(),
            forall|i: int| 0 <= i < points@.len() ==> (#[trigger] r.1@[i]).0 < points@.len(),
            forall|i1: int, i2: int|
                0 <= i1 < points@.len() && 0 <= i2 < points@.len() && i1 != i2 ==> #[trigger] r.1@[
                    i1] != #[trigger] r.1@[i2],
            forall|i: int|
                0 <= i < points@.len() ==> r.0.order@[(#[trigger] r.1@[i]).0 as int] == i,
    {
        let n = points.len();
        let mut rng = rng_from_seed(seed);
        let mut enc: Vec<u64> = Vec::new();
        for i in 0..n
            invariant
                enc@.len() == i,
                forall|j: int| 0 <= j < i ==> low32(#[trigger] enc@[j]) == j,
            decreases n - i,
        {
            let key = rng_below(&mut rng, n as u32);
            let kw: u64 = key as u64;
            let iw: u64 = i as u64;
            let word: u64 = (kw << 32) | iw;
            proof {
                assert(((kw << 32) | iw) % 0x1_0000_0000u64 == iw) by (bit_vector)
                    requires
                        iw < 0x1_0000_0000u64,
                ;
            }
            enc.push(word);
        }
        let sorted = sorted_copy(&enc);
        proof {
            assert(enc@.no_duplicates()) by {
                assert forall|i1: int, i2: int|
                    0 <= i1 < enc@.len() && 0 <= i2 < enc@.len() && i1 != i2 implies enc@[i1]
                    != enc@[i2] by {
                    assert(low32(enc@[i1]) == i1 && low32(enc@[i2]) == i2);
                }
            }
            enc@.lemma_multiset_has_no_duplicates();
            enc@.to_multiset_ensures();
            sorted@.to_multiset_ensures();
            assert forall|k: int| 0 <= k < sorted@.len() implies exists|i: int|
                0 <= i < enc@.len() && enc@[i] == #[trigger] sorted@[k] by {
                assert(sorted@.contains(sorted@[k]));
                assert(sorted@.to_multiset().count(sorted@[k]) > 0);
                assert(enc@.to_multiset().count(sorted@[k]) > 0);
                assert(enc@.contains(sorted@[k]));
            }
            assert forall|k: int| 0 <= k < sorted@.len() implies 0 <= low32(
                #[trigger] sorted@[k],
            ) < n && sorted@[k] == enc@[low32(sorted@[k])] by {
                let i = choose|i: int| 0 <= i < enc@.len() && enc@[i] == sorted@[k];
                assert(low32(enc@[i]) == i);
            }
            sorted@.lemma_multiset_has_no_duplicates_conv();
            assert forall|k1: int, k2: int|
                0 <= k1 < sorted@.len() && 0 <= k2 < sorted@.len() && k1 != k2 implies low32(
                #[trigger] sorted@[k1],
            ) != low32(#[trigger] sorted@[k2]) by {
                if low32(sorted@[k1]) == low32(sorted@[k2]) {
                    assert(sorted@[k1] == enc@[low32(sorted@[k1])]);
                    assert(sorted@[k2] == enc@[low32(sorted@[k2])]);
                }
            }
            assert forall|j: int| 0 <= j < n implies #[trigger] low_covered(sorted@, j) by {
                assert(enc@.contains(enc@[j]));
                assert(enc@.to_multiset().count(enc@[j]) > 0);
                assert(sorted@.to_multiset().count(enc@[j]) > 0);
                assert(sorted@.contains(enc@[j]));
                let k = choose|k: int| 0 <= k < sorted@.len() && sorted@[k] == enc@[j];
                assert(low32(sorted@[k]) == j);
            }
        }
        let mut order: Vec<usize> = Vec::new();
        let mut out: Vec<PointId> = Vec::new();
        for j in 0..n
            invariant
                out@.len() == j,
                forall|jj: int| 0 <= jj < j ==> #[trigger] out@[jj] == PointId(INVALID_ID),
            decreases n - j,
        {
            out.push(PointId(INVALID_ID));
        }
        for k in 0..n
            invariant
                sorted@.len() == n,
                order@.len() == k,
                out@.len() == n,
                forall|kk: int| 0 <= kk < k ==> #[trigger] order@[kk] == low32(sorted@[kk]),
                forall|kk: int|
                    0 <= kk < k ==> #[trigger] out@[low32(sorted@[kk])] == PointId(kk as u32),
                forall|j: int|
                    0 <= j < n && (forall|kk: int|
                        0 <= kk < k ==> low32(#[trigger] sorted@[kk]) != j) ==> #[trigger] out@[j]
                        == PointId(INVALID_ID),
            decreases n - k,
        {
            let w = sorted[k];
            let lowbits: u64 = w & 0xFFFF_FFFF;
            proof {
                assert((w & 0xFFFF_FFFFu64) == w % 0x1_0000_0000u64) by (bit_vector);
                assert(lowbits == low32(w));
            }
            let idx = lowbits as usize;
            order.push(idx);
            out.set(idx, PointId(k as u32));
            proof {
                assert forall|kk: int|
                    0 <= kk < k + 1 implies #[trigger] out@[low32(sorted@[kk])] == PointId(
                    kk as u32,
                ) by {
                    if kk < k {
                        assert(low32(sorted@[kk]) != low32(sorted@[k as int]));
                    }
                }
            }
        }
        let stride = points[0].len();
        let mut values: Vec<i64> = Vec::new();
        for i in 0..n
            invariant
                stride == points@[0]@.len(),
                values@.len() == i * stride,
                forall|ii: int, kk: int|
                    0 <= ii < i && 0 <= kk < stride ==> #[trigger] values@[ii * stride + kk]
                        == points@[ii]@[kk],
                forall|idx: int|
                    0 <= idx < values@.len() ==> -(COORD_LIMIT as int) <= #[trigger] values@[idx]
                        <= COORD_LIMIT as int,
            decreases n - i,
        {
            proof {
                assert(i * stride + stride <= n * stride) by (nonlinear_arith)
                    requires
                        0 <= i < n,
                        stride >= 1,
                ;
                assert((i + 1) * stride == i * stride + stride) by (nonlinear_arith);
            }
            let row = &points[i];
            for k in 0..stride
                invariant
                    stride == points@[0]@.len(),
                    row@.len() == stride,
                    row@ == points@[i as int]@,
                    values@.len() == i * stride + k,
                    forall|ii: int, kk: int|
                        0 <= ii < i && 0 <= kk < stride ==> #[trigger] values@[ii * stride + kk]
                            == points@[ii]@[kk],
                    forall|kk: int|
                        0 <= kk < k ==> #[trigger] values@[i * stride + kk] == points@[i as int]@[kk],
                    forall|idx: int|
                        0 <= idx < values@.len() ==> -(COORD_LIMIT as int) <= #[trigger] values@[
                            idx] <= COORD_LIMIT as int,
                decreases stride - k,
            {
                values.push(row[k]);
                proof {
                    assert forall|ii: int, kk: int|
                        0 <= ii < i && 0 <= kk < stride implies #[trigger] values@[ii * stride
                        + kk] == points@[ii]@[kk] by {
                        assert(ii * stride + kk < i * stride) by (nonlinear_arith)
                            requires
                                0 <= ii < i,
                                0 <= kk < stride,
                        ;
                    }
                }
            }
            proof {
                assert forall|ii: int, kk: int|
                    0 <= ii < i + 1 && 0 <= kk < stride implies #[trigger] values@[ii * stride
                    + kk] == points@[ii]@[kk] by {
                    if ii == i {
                        assert(values@[i * stride + kk] == points@[i as int]@[kk]);
                    }
                }
            }
        }
        let st = ContiguousStorage { values, order, stride };
        proof {
            assert(st.wf()) by {
                assert(st.values@.len() == n * stride);
                assert forall|i1: int, i2: int|
                    0 <= i1 < st.spec_len() && 0 <= i2 < st.spec_len() && i1 != i2 implies
                    #[trigger] st.order@[i1] != #[trigger] st.order@[i2] by {
                    assert(st.order@[i1] == low32(sorted@[i1]));
                    assert(st.order@[i2] == low32(sorted@[i2]));
                }
            }
            assert forall|p: int| 0 <= p < n implies st.point(p) == (#[trigger] points@[
                st.order@[p] as int])@ by {
                st.lemma_row_in_range(p);
                assert(st.point(p).len() == stride);
                assert forall|k: int| 0 <= k < stride implies st.point(p)[k] == points@[st.order@[
                    p] as int]@[k] by {
                    assert(st.values@[st.order@[p] * stride + k] == points@[st.order@[p] as int]@[
                        k]);
                }
                assert(st.point(p) =~= points@[st.order@[p] as int]@);
            }
            assert forall|i: int| 0 <= i < n implies (#[trigger] out@[i]).0 < n && st.order@[
                out@[i].0 as int] == i by {
                assert(low_covered(sorted@, i));
                let k = choose|k: int| 0 <= k < sorted@.len() && low32(#[trigger] sorted@[k]) == i;
                assert(out@[low32(sorted@[k])] == PointId(k as u32));
                assert(out@[i] == PointId(k as u32));
                assert(order@[k] == low32(sorted@[k]));
            }
            assert forall|i1: int, i2: int|
                0 <= i1 < n && 0 <= i2 < n && i1 != i2 implies #[trigger] out@[i1] != #[trigger] out@[
                i2] by {
                if out@[i1] == out@[i2] {
                    assert(st.order@[out@[i1].0 as int] == i1);
                    assert(st.order@[out@[i2].0 as int] == i2);
                }
            }
        }
        (st, out)
    }

    /// The squared distance between the stored points `a` and `b`.
    pub fn stored_distance(&self, a: u32, b: u32) -> (d: u64)
        requires
            self.wf(),
            (a as int) < self.spec_len(),
            (b as int) < self.spec_len(),
        ensures
            d == sq_dist(self.point(a as int), self.point(b as int)),
    {
        proof {
            self.lemma_row_in_range(a as int);
            self.lemma_row_in_range(b as int);
        }
        let base_a = self.order[a as usize] * self.stride;
        let base_b = self.order[b as usize] * self.stride;
        let ghost pa = self.point(a as int);
        let ghost pb = self.point(b as int);
        let mut acc: u64 = 0;
        for k in 0..self.stride
            invariant
                acc == sq_dist_upto(pa, pb, k as int),
                acc <= (k as int) * 0x4_0000_0000_0000,
            decreases self.stride - k,
        {
            assert(self.values@[base_a + k] == pa[k as int]);
            assert(self.values@[base_b + k] == pb[k as int]);
            let d: i64 = self.values[base_a + k] - self.values[base_b + k];
            assert(0 <= d * d <= 0x4_0000_0000_0000) by (nonlinear_arith)
                requires
                    -2 * (COORD_LIMIT as int) <= d <= 2 * (COORD_LIMIT as int),
            ;
            let sq: i64 = d * d;
            assert((k + 1) * 0x4_0000_0000_0000 == k * 0x4_0000_0000_0000 + 0x4_0000_0000_0000);
            acc = acc + (sq as u64);
        }
        acc
    }
}

} // verus!
