//! What a search finds, said of true distances.
//!
//! The search keeps five vectors. A vector that beats the worst of them takes its
//! place, so that those five are the nearest of all that were looked at; and
//! what a look through all clusters passes over is not nearer.

use vstd::prelude::*;

use crate::fraud::data::{
    lane, IndexTable, IvfIndex, CID_BITS, CID_MASK, IDX_BITS, K_NEIGHBORS, N_DIMS, N_FILES,
    N_PROBE_INITIAL, N_TAGS,
};
use crate::fraud::json::PayloadView;
use crate::fraud::search::{
    answering_slot, difference_squares, distance, gap, gap_squares, label_sum, lane_gap_squares,
    least, lemma_least, lemma_rank, none_found, plain_difference_squares, plain_gap,
    plain_lane_gap_squares, square, worst_place, wrap16, Nearest,
};
use crate::fraud::vector::{
    dimensions_are_in_range, shorts, vector_of, Scaled, ABSENT, ONE,
};

verus! {

/// `x` is a value of 16 bits.
pub open spec fn fits16(x: int) -> bool {
    -0x8000 <= x < 0x8000
}

/// Where every difference fits in 16 bits, the narrow differences are the
/// true ones.
pub proof fn narrow_differences_are_true(v: Seq<i16>, base: int, q: Seq<i16>, n: int)
    requires
        0 <= n,
        forall|i: int| 0 <= i < n ==> fits16(#[trigger] v[base + i] - q[i]),
    ensures
        difference_squares(v, base, q, n) == plain_difference_squares(v, base, q, n),
        0 <= plain_difference_squares(v, base, q, n),
    decreases n,
{
    if n > 0 {
        narrow_differences_are_true(v, base, q, n - 1);
        let d = v[base + n - 1] - q[n - 1];
        assert(fits16(v[base + (n - 1)] - q[n - 1]));
        assert(0 <= d * d) by (nonlinear_arith);
    }
}

/// Where a query lies within 16 bits of both corners of a box, and the corners
/// are the right way round, the narrow gap is the true one.
pub proof fn narrow_gaps_are_true(lo: i16, hi: i16, x: i16)
    requires
        lo <= hi,
        fits16(lo - x),
        fits16(x - hi),
    ensures
        gap(lo, hi, x) == plain_gap(lo as int, hi as int, x as int),
{
}

/// The same of the sums of a lane: the two ways to compute eight lower bounds
/// agree.
pub proof fn narrow_lane_gaps_are_true(lo: Seq<i16>, hi: Seq<i16>, l: int, q: Seq<i16>, n: int)
    requires
        0 <= n,
        forall|d: int|
            0 <= d < n ==> {
                &&& lo[#[trigger] lane(l, d)] <= hi[lane(l, d)]
                &&& fits16(lo[lane(l, d)] - q[d])
                &&& fits16(q[d] - hi[lane(l, d)])
            },
    ensures
        lane_gap_squares(lo, hi, l, q, n) == plain_lane_gap_squares(lo, hi, l, q, n),
    decreases n,
{
    if n > 0 {
        narrow_lane_gaps_are_true(lo, hi, l, q, n - 1);
        narrow_gaps_are_true(lo[lane(l, n - 1)], hi[lane(l, n - 1)], q[n - 1]);
    }
}

/// Whether a point lies in the box of cluster `l` of eight whose corners stand
/// side by side.
pub open spec fn in_lane_box(lo: Seq<i16>, hi: Seq<i16>, l: int, x: Seq<i16>) -> bool {
    forall|d: int| 0 <= d < N_DIMS ==> lo[#[trigger] lane(l, d)] <= x[d] <= hi[lane(l, d)]
}

/// The point of the box that is nearest to the query.
pub open spec fn nearest_in_lane(lo: Seq<i16>, hi: Seq<i16>, l: int, q: Seq<i16>) -> Seq<i16> {
    Seq::new(
        N_DIMS as nat,
        |d: int|
            if q[d] < lo[lane(l, d)] {
                lo[lane(l, d)]
            } else if q[d] > hi[lane(l, d)] {
                hi[lane(l, d)]
            } else {
                q[d]
            },
    )
}

/// A lower bound is the distance to the nearest point of the box: no point of
/// the box is nearer, one is as near, and it is 0 exactly where the query lies in
/// the box.
pub proof fn lane_bounds_are_least(lo: Seq<i16>, hi: Seq<i16>, l: int, q: Seq<i16>)
    requires
        forall|d: int| 0 <= d < N_DIMS ==> lo[#[trigger] lane(l, d)] <= hi[lane(l, d)],
    ensures
        forall|x: Seq<i16>| #[trigger]
            in_lane_box(lo, hi, l, x) ==> plain_lane_gap_squares(lo, hi, l, q, N_DIMS as int)
                <= plain_difference_squares(x, 0, q, N_DIMS as int),
        in_lane_box(lo, hi, l, nearest_in_lane(lo, hi, l, q)),
        plain_lane_gap_squares(lo, hi, l, q, N_DIMS as int) == plain_difference_squares(
            nearest_in_lane(lo, hi, l, q),
            0,
            q,
            N_DIMS as int,
        ),
        plain_lane_gap_squares(lo, hi, l, q, N_DIMS as int) == 0 <==> in_lane_box(lo, hi, l, q),
{
    let n = N_DIMS as int;
    let near = nearest_in_lane(lo, hi, l, q);
    assert forall|x: Seq<i16>| #[trigger] in_lane_box(lo, hi, l, x) implies plain_lane_gap_squares(
        lo,
        hi,
        l,
        q,
        n,
    ) <= plain_difference_squares(x, 0, q, n) by {
        lemma_lane_bound(lo, hi, l, x, q, n);
    }
    lemma_lane_attained(lo, hi, l, q, n);
    if in_lane_box(lo, hi, l, q) {
        lemma_lane_bound(lo, hi, l, q, q, n);
        lemma_lane_bound(lo, hi, l, near, q, n);
        lemma_no_plain_difference(q, n);
    } else if plain_lane_gap_squares(lo, hi, l, q, n) == 0 {
        lemma_zero_sum(near, 0, q, n);
        assert forall|d: int| 0 <= d < N_DIMS implies lo[#[trigger] lane(l, d)] <= q[d]
            <= hi[lane(l, d)] by {
            assert(near[0 + d] == q[d]);
        }
    }
}

proof fn lemma_no_plain_difference(q: Seq<i16>, n: int)
    ensures
        plain_difference_squares(q, 0, q, n) == 0,
    decreases n,
{
    if n > 0 {
        lemma_no_plain_difference(q, n - 1);
        assert(q[0 + n - 1] == q[n - 1]);
        assert(square(0) == 0);
    }
}

proof fn lemma_lane_bound(
    lo: Seq<i16>,
    hi: Seq<i16>,
    l: int,
    x: Seq<i16>,
    q: Seq<i16>,
    n: int,
)
    requires
        0 <= n <= N_DIMS,
        in_lane_box(lo, hi, l, x),
    ensures
        0 <= plain_lane_gap_squares(lo, hi, l, q, n) <= plain_difference_squares(x, 0, q, n),
    decreases n,
{
    if n > 0 {
        let d = n - 1;
        lemma_lane_bound(lo, hi, l, x, q, d);
        assert(lo[lane(l, d)] <= x[d] <= hi[lane(l, d)]);
        let g = plain_gap(lo[lane(l, d)] as int, hi[lane(l, d)] as int, q[d] as int);
        let e = x[0 + d] - q[d];
        assert(0 <= g * g <= e * e) by (nonlinear_arith)
            requires
                0 <= g,
                g <= e || g <= -e,
        ;
    }
}

proof fn lemma_lane_attained(lo: Seq<i16>, hi: Seq<i16>, l: int, q: Seq<i16>, n: int)
    requires
        0 <= n <= N_DIMS,
        forall|d: int| 0 <= d < N_DIMS ==> lo[#[trigger] lane(l, d)] <= hi[lane(l, d)],
    ensures
        in_lane_box(lo, hi, l, nearest_in_lane(lo, hi, l, q)),
        plain_lane_gap_squares(lo, hi, l, q, n) == plain_difference_squares(
            nearest_in_lane(lo, hi, l, q),
            0,
            q,
            n,
        ),
    decreases n,
{
    if n > 0 {
        let d = n - 1;
        lemma_lane_attained(lo, hi, l, q, d);
        let g = plain_gap(lo[lane(l, d)] as int, hi[lane(l, d)] as int, q[d] as int);
        let e = nearest_in_lane(lo, hi, l, q)[0 + d] - q[d];
        assert(lo[lane(l, d)] <= hi[lane(l, d)]);
        assert(g * g == e * e) by (nonlinear_arith)
            requires
                g == e || g == -e,
        ;
    }
}

/// The gap between a query and a box is no more than the distance to a vector
/// in the box.
pub proof fn gaps_bound_distances(
    lo: Seq<i16>,
    hi: Seq<i16>,
    corner: int,
    v: Seq<i16>,
    base: int,
    q: Seq<i16>,
    n: int,
)
    requires
        0 <= n,
        forall|j: int|
            #![trigger v[base + j]]
            0 <= j < n ==> {
                &&& lo[corner + j] <= v[base + j] <= hi[corner + j]
                &&& fits16(lo[corner + j] - q[j])
                &&& fits16(q[j] - hi[corner + j])
            },
    ensures
        0 <= gap_squares(lo, hi, corner, q, n) <= plain_difference_squares(v, base, q, n),
    decreases n,
{
    if n > 0 {
        gaps_bound_distances(lo, hi, corner, v, base, q, n - 1);
        let j = n - 1;
        let x = v[base + j];
        narrow_gaps_are_true(lo[corner + j], hi[corner + j], q[j]);
        let g = plain_gap(lo[corner + j] as int, hi[corner + j] as int, q[j] as int);
        let d = x - q[j];
        assert(g * g <= d * d) by (nonlinear_arith)
            requires
                0 <= g,
                g <= d || g <= -d,
        ;
        assert(0 <= g * g) by (nonlinear_arith);
    }
}

/// A vector that equals the query is at distance 0, and where differences fit
/// in 16 bits and the sum in 31, no other is.
pub proof fn distance_is_zero_for_the_same_vector(v: Seq<i16>, base: int, q: Seq<i16>)
    ensures
        (forall|i: int| 0 <= i < 16 ==> #[trigger] v[base + i] == q[i]) ==> distance(v, base, q)
            == 0,
        (forall|i: int| 0 <= i < 16 ==> fits16(#[trigger] v[base + i] - q[i])) && distance(
            v,
            base,
            q,
        ) == 0 && plain_difference_squares(v, base, q, 16) < 0x8000_0000 ==> forall|i: int|
            0 <= i < 16 ==> #[trigger] v[base + i] == q[i],
{
    if forall|i: int| 0 <= i < 16 ==> #[trigger] v[base + i] == q[i] {
        lemma_no_difference(v, base, q, 16);
    }
    if forall|i: int| 0 <= i < 16 ==> fits16(#[trigger] v[base + i] - q[i]) {
        narrow_differences_are_true(v, base, q, 16);
        if plain_difference_squares(v, base, q, 16) == 0 {
            lemma_zero_sum(v, base, q, 16);
        }
    }
}

/// The true distance between a vector and a query is the sum of the squares of
/// the differences in their sixteen values, and where nothing wraps around, it is
/// what the search takes for their distance.
pub proof fn distances_are_sums_of_squares(v: Seq<i16>, base: int, q: Seq<i16>)
    ensures
        plain_difference_squares(v, base, q, 16) == (v[base + 0] - q[0]) * (v[base + 0] - q[0])
            + (v[base + 1] - q[1]) * (v[base + 1] - q[1])
            + (v[base + 2] - q[2]) * (v[base + 2] - q[2])
            + (v[base + 3] - q[3]) * (v[base + 3] - q[3])
            + (v[base + 4] - q[4]) * (v[base + 4] - q[4])
            + (v[base + 5] - q[5]) * (v[base + 5] - q[5])
            + (v[base + 6] - q[6]) * (v[base + 6] - q[6])
            + (v[base + 7] - q[7]) * (v[base + 7] - q[7])
            + (v[base + 8] - q[8]) * (v[base + 8] - q[8])
            + (v[base + 9] - q[9]) * (v[base + 9] - q[9])
            + (v[base + 10] - q[10]) * (v[base + 10] - q[10])
            + (v[base + 11] - q[11]) * (v[base + 11] - q[11])
            + (v[base + 12] - q[12]) * (v[base + 12] - q[12])
            + (v[base + 13] - q[13]) * (v[base + 13] - q[13])
            + (v[base + 14] - q[14]) * (v[base + 14] - q[14])
            + (v[base + 15] - q[15]) * (v[base + 15] - q[15]),
        (forall|i: int| 0 <= i < 16 ==> fits16(#[trigger] v[base + i] - q[i]))
            && plain_difference_squares(v, base, q, 16) < 0x8000_0000 ==> distance(v, base, q)
            == plain_difference_squares(v, base, q, 16),
{
    lemma_difference_step(v, base, q, 0);
    lemma_difference_step(v, base, q, 1);
    lemma_difference_step(v, base, q, 2);
    lemma_difference_step(v, base, q, 3);
    lemma_difference_step(v, base, q, 4);
    lemma_difference_step(v, base, q, 5);
    lemma_difference_step(v, base, q, 6);
    lemma_difference_step(v, base, q, 7);
    lemma_difference_step(v, base, q, 8);
    lemma_difference_step(v, base, q, 9);
    lemma_difference_step(v, base, q, 10);
    lemma_difference_step(v, base, q, 11);
    lemma_difference_step(v, base, q, 12);
    lemma_difference_step(v, base, q, 13);
    lemma_difference_step(v, base, q, 14);
    lemma_difference_step(v, base, q, 15);
    if forall|i: int| 0 <= i < 16 ==> fits16(#[trigger] v[base + i] - q[i]) {
        narrow_differences_are_true(v, base, q, 16);
    }
}

proof fn lemma_difference_step(v: Seq<i16>, base: int, q: Seq<i16>, d: int)
    requires
        0 <= d,
    ensures
        plain_difference_squares(v, base, q, 0) == 0,
        plain_difference_squares(v, base, q, d + 1) == plain_difference_squares(v, base, q, d) + (
        v[base + d] - q[d]) * (v[base + d] - q[d]),
{
    assert(base + (d + 1) - 1 == base + d);
}

proof fn lemma_no_difference(v: Seq<i16>, base: int, q: Seq<i16>, n: int)
    requires
        forall|i: int| 0 <= i < n ==> #[trigger] v[base + i] == q[i],
    ensures
        difference_squares(v, base, q, n) == 0,
    decreases n,
{
    if n > 0 {
        lemma_no_difference(v, base, q, n - 1);
        assert(v[base + (n - 1)] == q[n - 1]);
        assert(square(wrap16(0)) == 0);
    }
}

proof fn lemma_zero_sum(v: Seq<i16>, base: int, q: Seq<i16>, n: int)
    requires
        0 <= n,
        plain_difference_squares(v, base, q, n) <= 0,
    ensures
        plain_difference_squares(v, base, q, n) == 0,
        forall|i: int| 0 <= i < n ==> #[trigger] v[base + i] == q[i],
    decreases n,
{
    if n > 0 {
        let d = v[base + n - 1] - q[n - 1];
        assert(0 <= d * d) by (nonlinear_arith);
        lemma_zero_sum(v, base, q, n - 1);
        assert(d == 0) by (nonlinear_arith)
            requires
                d * d == 0,
        ;
        assert forall|i: int| 0 <= i < n implies #[trigger] v[base + i] == q[i] by {
            if i == n - 1 {
                assert(base + i == base + n - 1);
            }
        }
    }
}

impl IvfIndex {
    /// The clusters' vectors are all the vectors, one cluster's after the
    /// other's.
    pub open spec fn is_partition(&self) -> bool {
        &&& self.cluster_offsets@[0] == 0
        &&& self.cluster_offsets@[self.n_clusters as int] == self.n_vectors
        &&& forall|i: int, j: int|
            0 <= i <= j <= self.n_clusters ==> self.cluster_offsets@[i] <= self.cluster_offsets@[j]
    }

    /// Whether a vector belongs to a cluster.
    pub open spec fn in_cluster(&self, c: int, vi: int) -> bool {
        self.cluster_offsets@[c] <= vi < self.cluster_offsets@[c + 1]
    }

    /// The boxes hold their clusters' vectors.
    pub open spec fn has_true_boxes(&self) -> bool {
        forall|c: int, vi: int, j: int|
            #![trigger self.in_cluster(c, vi), self.flat_vec@[vi * 16 + j]]
            0 <= c < self.n_clusters && self.in_cluster(c, vi) && 0 <= j < N_DIMS ==> {
                self.bbox_min@[c * 16 + j] <= self.flat_vec@[vi * 16 + j] <= self.bbox_max@[c * 16
                    + j]
            }
    }

    /// The true distance of a vector, squared.
    pub open spec fn true_distance(&self, q: Seq<i16>, vi: int) -> int {
        plain_difference_squares(self.flat_vec@, vi * 16, q, 16)
    }

    /// The query is near enough for nothing to wrap around: differences fit
    /// in 16 bits, and distances in 31. The boxes of empty clusters may lie
    /// anywhere.
    pub open spec fn in_reach(&self, q: Seq<i16>) -> bool {
        &&& forall|vi: int, j: int|
            0 <= vi < self.n_vectors && 0 <= j < 16 ==> fits16(
                #[trigger] self.flat_vec@[vi * 16 + j] - q[j],
            )
        &&& forall|c: int, j: int|
            #![trigger self.bbox_min@[c * 16 + j]]
            #![trigger self.bbox_max@[c * 16 + j]]
            0 <= c < self.n_clusters && self.cluster_offsets@[c] < self.cluster_offsets@[c + 1]
                && 0 <= j < N_DIMS ==> {
                &&& fits16(self.bbox_min@[c * 16 + j] - q[j])
                &&& fits16(q[j] - self.bbox_max@[c * 16 + j])
            }
        &&& forall|vi: int|
            0 <= vi < self.n_vectors ==> #[trigger] self.true_distance(q, vi) < 0x8000_0000
    }

    /// An index whose search can be spoken of in true distances.
    pub open spec fn is_sound_for(&self, q: Seq<i16>) -> bool {
        &&& self.wf()
        &&& q.len() == 16
        &&& self.n_vectors <= 0x40_0000
        &&& self.is_partition()
        &&& self.has_true_boxes()
        &&& self.in_reach(q)
    }

    /// Whether vector `a` is nearer than vector `b`; of two at the same
    /// distance, the one with the lower number is.
    pub open spec fn is_nearer(&self, q: Seq<i16>, a: int, b: int) -> bool {
        self.true_distance(q, a) < self.true_distance(q, b) || (self.true_distance(q, a)
            == self.true_distance(q, b) && a < b)
    }

    /// Whether at least five vectors are nearer than `vi`.
    pub open spec fn five_are_nearer(&self, q: Seq<i16>, vi: int) -> bool {
        exists|a: int, b: int, c: int, d: int, e: int|
            #![trigger self.is_nearer(q, a, vi), self.is_nearer(q, b, vi),
                self.is_nearer(q, c, vi), self.is_nearer(q, d, vi), self.is_nearer(q, e, vi)]
            {
                &&& are_distinct(a, b, c, d, e)
                &&& 0 <= a < self.n_vectors && self.is_nearer(q, a, vi)
                &&& 0 <= b < self.n_vectors && self.is_nearer(q, b, vi)
                &&& 0 <= c < self.n_vectors && self.is_nearer(q, c, vi)
                &&& 0 <= d < self.n_vectors && self.is_nearer(q, d, vi)
                &&& 0 <= e < self.n_vectors && self.is_nearer(q, e, vi)
            }
    }

    /// Place `s` holds the vector `vi`.
    pub open spec fn holds(&self, q: Seq<i16>, f: Nearest, s: int, vi: int) -> bool {
        f.keys[s] == self.key(q, vi) && f.labels[s] == self.labels@[vi]
    }

    /// Whether a vector stands in one of the places.
    pub open spec fn is_placed(&self, q: Seq<i16>, f: Nearest, vi: int) -> bool {
        exists|s: int| 0 <= s < K_NEIGHBORS && #[trigger] self.holds(q, f, s, vi)
    }

    /// The places go to the vectors than which no five are nearer, and to no
    /// others.
    pub open spec fn places_the_five_nearest(&self, q: Seq<i16>, f: Nearest) -> bool {
        forall|vi: int|
            0 <= vi < self.n_vectors ==> (#[trigger] self.is_placed(q, f, vi)
                <==> !self.five_are_nearer(q, vi))
    }

    /// Keys tell vectors apart.
    proof fn lemma_key_number(&self, q: Seq<i16>, vi: int)
        requires
            0 <= vi < 0x40_0000,
        ensures
            0 <= self.key(q, vi) < i64::MAX,
            self.key(q, vi) % 0x40_0000 == vi,
    {
        let d = distance(self.flat_vec@, vi * 16, q) as i32;
        let v = vi as i64;
        assert((((d as u32) as i64) << 22u32) | v == (d as u32) * 0x40_0000 + v) by (bit_vector)
            requires
                0 <= v < 0x40_0000,
        ;
    }

    proof fn lemma_key(&self, q: Seq<i16>, vi: int)
        requires
            self.is_sound_for(q),
            0 <= vi < self.n_vectors,
        ensures
            0 <= self.true_distance(q, vi) < 0x8000_0000,
            self.key(q, vi) == self.true_distance(q, vi) * 0x40_0000 + vi,
            0 <= self.key(q, vi) < i64::MAX,
    {
        narrow_differences_are_true(self.flat_vec@, vi * 16, q, 16);
        let d = distance(self.flat_vec@, vi * 16, q) as i32;
        let v = vi as i64;
        assert(d == self.true_distance(q, vi));
        assert((((d as u32) as i64) << 22u32) | v == d * 0x40_0000 + v) by (bit_vector)
            requires
                0 <= d,
                0 <= v < 0x40_0000,
        ;
    }

    proof fn lemma_bound(&self, q: Seq<i16>, c: int, vi: int)
        requires
            self.is_sound_for(q),
            0 <= c < self.n_clusters,
            0 <= vi < self.n_vectors,
            self.in_cluster(c, vi),
        ensures
            0 <= self.bound(q, c) <= self.true_distance(q, vi),
            self.ranks(q)[c] == self.bound(q, c) * 4096 + c,
    {
        gaps_bound_distances(
            self.bbox_min@,
            self.bbox_max@,
            c * 16,
            self.flat_vec@,
            vi * 16,
            q,
            N_DIMS as int,
        );
        let d14 = self.flat_vec@[vi * 16 + 14] - q[14];
        let d15 = self.flat_vec@[vi * 16 + 15] - q[15];
        assert(0 <= d14 * d14 && 0 <= d15 * d15) by (nonlinear_arith);
        reveal_with_fuel(plain_difference_squares, 3);
        self.lemma_key(q, vi);
        let b = self.bound(q, c) as i64;
        let cc = c as i64;
        assert((b << 12u32) | cc == b * 4096 + cc) by (bit_vector)
            requires
                0 <= b < 0x8000_0000,
                0 <= cc < 4096,
        ;
    }
}

pub open spec fn are_distinct(a: int, b: int, c: int, d: int, e: int) -> bool {
    &&& a != b && a != c && a != d && a != e
    &&& b != c && b != d && b != e
    &&& c != d && c != e
    &&& d != e
}

/// The greatest key stands in the worst place.
proof fn lemma_worst_place(keys: Seq<i64>)
    requires
        keys.len() > 0,
    ensures
        0 <= worst_place(keys) < keys.len(),
        forall|i: int| 0 <= i < keys.len() ==> #[trigger] keys[i] <= keys[worst_place(keys)],
    decreases keys.len(),
{
    if keys.len() > 1 {
        let t = keys.drop_last();
        lemma_worst_place(t);
        assert forall|i: int| 0 <= i < keys.len() implies #[trigger] keys[i]
            <= keys[worst_place(keys)] by {
            if i < t.len() {
                assert(t[i] == keys[i]);
            }
        }
    }
}

/// Five places, of whose keys the worst is the greatest.
pub open spec fn is_ranked(f: Nearest) -> bool {
    &&& f.keys.len() == K_NEIGHBORS
    &&& f.labels.len() == K_NEIGHBORS
    &&& exists|s: int| 0 <= s < K_NEIGHBORS && #[trigger] f.keys[s] == f.worst
    &&& forall|s: int| 0 <= s < K_NEIGHBORS ==> #[trigger] f.keys[s] <= f.worst
}

/// Place `s` has the same vector before and after.
pub open spec fn is_kept(f: Nearest, next: Nearest, s: int) -> bool {
    next.keys[s] == f.keys[s] && next.labels[s] == f.labels[s]
}

impl IvfIndex {
    /// `next` holds the five least keys of what `f` holds and of the vectors
    /// from `start` to `end`: each place has what it had or one of those
    /// vectors, no vector has two places, and what has no place is not below
    /// the worst.
    pub open spec fn keeps_least(
        &self,
        q: Seq<i16>,
        f: Nearest,
        next: Nearest,
        start: int,
        end: int,
    ) -> bool {
        &&& is_ranked(next)
        &&& next.worst <= f.worst
        &&& forall|s: int|
            0 <= s < K_NEIGHBORS ==> #[trigger] is_kept(f, next, s) || exists|vi: int|
                start <= vi < end && #[trigger] self.holds(q, next, s, vi)
        &&& forall|s: int|
            0 <= s < K_NEIGHBORS ==> #[trigger] is_kept(f, next, s) || f.keys[s] >= next.worst
        &&& forall|vi: int|
            start <= vi < end ==> #[trigger] self.is_placed(q, next, vi) || self.key(q, vi)
                >= next.worst
        &&& forall|vi: int, s: int, t: int|
            #![trigger self.holds(q, next, s, vi), self.holds(q, next, t, vi)]
            start <= vi < end && 0 <= s < K_NEIGHBORS && 0 <= t < K_NEIGHBORS && self.holds(
                q,
                next,
                s,
                vi,
            ) && self.holds(q, next, t, vi) ==> s == t
    }

    /// None of the vectors from `start` to `end` has a place yet.
    pub open spec fn are_new(&self, q: Seq<i16>, f: Nearest, start: int, end: int) -> bool {
        forall|vi: int, s: int|
            #![trigger self.key(q, vi), f.keys[s]]
            start <= vi < end && 0 <= s < K_NEIGHBORS ==> f.keys[s] != self.key(q, vi)
    }

    /// The vectors' numbers tell their keys apart, what was found is ranked, and
    /// none of the cluster's vectors has a place yet.
    pub open spec fn can_scan(&self, q: Seq<i16>, c: int, f: Nearest) -> bool {
        &&& self.n_vectors <= 0x40_0000
        &&& is_ranked(f)
        &&& self.are_new(
            q,
            f,
            self.cluster_offsets@[c] as int,
            self.cluster_offsets@[c + 1] as int,
        )
    }

    /// One of the places in `next` holds the least of the keys in `f` and of the
    /// keys of the cluster's vectors.
    pub open spec fn keeps_the_least_of_all(
        &self,
        q: Seq<i16>,
        c: int,
        f: Nearest,
        next: Nearest,
    ) -> bool {
        exists|s: int|
            0 <= s < K_NEIGHBORS && {
                let least = #[trigger] next.keys[s];
                &&& forall|t: int| 0 <= t < K_NEIGHBORS ==> least <= #[trigger] f.keys[t]
                &&& forall|vi: int| #[trigger] self.in_cluster(c, vi) ==> least <= self.key(q, vi)
            }
    }

    /// One more vector takes the place of the worst.
    proof fn lemma_take_place(
        &self,
        q: Seq<i16>,
        f: Nearest,
        before: Nearest,
        start: int,
        x: int,
    )
        requires
            self.are_new(q, f, start, x + 1),
            self.keeps_least(q, f, before, start, x),
            before.worst == before.keys[worst_place(before.keys)],
            0 <= start <= x < 0x40_0000,
            self.key(q, x) < before.worst,
        ensures
            self.keeps_least(
                q,
                f,
                before.replace_worst(self.key(q, x), self.labels@[x]),
                start,
                x + 1,
            ),
    {
        let next = before.replace_worst(self.key(q, x), self.labels@[x]);
        let w = worst_place(before.keys);
        lemma_worst_place(before.keys);
        lemma_worst_place(next.keys);
        assert(next.keys[worst_place(next.keys)] == next.worst);
        assert(before.keys[worst_place(next.keys)] <= before.worst);
        assert(next.worst <= before.worst);
        self.lemma_key_number(q, x);
        assert(self.holds(q, next, w, x));
        assert forall|s: int, vi: int| 0 <= s < K_NEIGHBORS && s != w implies #[trigger] self.holds(
            q,
            next,
            s,
            vi,
        ) == self.holds(q, before, s, vi) by {}
        assert forall|s: int| 0 <= s < K_NEIGHBORS implies #[trigger] is_kept(f, next, s)
            || exists|vi: int| start <= vi < x + 1 && #[trigger] self.holds(q, next, s, vi) by {
            if s != w && !is_kept(f, before, s) {
                let vi = choose|vi: int| start <= vi < x && #[trigger] self.holds(q, before, s, vi);
                assert(self.holds(q, next, s, vi));
            }
        }
        assert forall|s: int| 0 <= s < K_NEIGHBORS implies #[trigger] is_kept(f, next, s)
            || f.keys[s] >= next.worst by {
            assert(is_kept(f, before, s) || f.keys[s] >= before.worst);
        }
        assert forall|vi: int| start <= vi < x + 1 implies #[trigger] self.is_placed(q, next, vi)
            || self.key(q, vi) >= next.worst by {
            if vi < x && self.is_placed(q, before, vi) {
                let s = choose|s: int|
                    0 <= s < K_NEIGHBORS && #[trigger] self.holds(q, before, s, vi);
                if s != w {
                    assert(self.holds(q, next, s, vi));
                }
            }
        }
        assert forall|s: int| 0 <= s < K_NEIGHBORS implies #[trigger] before.keys[s] != self.key(
            q,
            x,
        ) by {
            self.lemma_not_placed(q, f, before, start, x, s);
        }
        assert forall|vi: int, s: int, t: int|
            #![trigger self.holds(q, next, s, vi), self.holds(q, next, t, vi)]
            start <= vi < x + 1 && 0 <= s < K_NEIGHBORS && 0 <= t < K_NEIGHBORS && self.holds(
                q,
                next,
                s,
                vi,
            ) && self.holds(q, next, t, vi) implies s == t by {
            self.lemma_key_number(q, vi);
            if s != w && t != w {
                assert(self.holds(q, before, s, vi) && self.holds(q, before, t, vi));
            }
        }
    }

    /// A vector that comes after those scanned has no place.
    proof fn lemma_not_placed(
        &self,
        q: Seq<i16>,
        f: Nearest,
        before: Nearest,
        start: int,
        x: int,
        s: int,
    )
        requires
            self.are_new(q, f, start, x + 1),
            self.keeps_least(q, f, before, start, x),
            0 <= start <= x < 0x40_0000,
            0 <= s < K_NEIGHBORS,
        ensures
            before.keys[s] != self.key(q, x),
    {
        self.lemma_key_number(q, x);
        if is_kept(f, before, s) {
            assert(f.keys[s] != self.key(q, x));
        } else {
            let vi = choose|vi: int| start <= vi < x && #[trigger] self.holds(q, before, s, vi);
            self.lemma_key_number(q, vi);
        }
    }

    proof fn lemma_scanned(&self, q: Seq<i16>, f: Nearest, start: int, end: int)
        requires
            is_ranked(f),
            self.are_new(q, f, start, end),
            0 <= start,
            start < end ==> end <= 0x40_0000,
        ensures
            self.keeps_least(q, f, self.scanned(q, f, start, end), start, end),
        decreases end - start,
    {
        if start < end {
            self.lemma_scanned(q, f, start, end - 1);
            let before = self.scanned(q, f, start, end - 1);
            lemma_worst_place(before.keys);
            assert(before.worst == before.keys[worst_place(before.keys)]);
            if self.key(q, end - 1) < before.worst {
                self.lemma_take_place(q, f, before, start, end - 1);
            } else {
                assert forall|s: int| 0 <= s < K_NEIGHBORS implies #[trigger] is_kept(f, before, s)
                    || exists|vi: int|
                    start <= vi < end && #[trigger] self.holds(q, before, s, vi) by {
                    if !is_kept(f, before, s) {
                        let vi = choose|vi: int|
                            start <= vi < end - 1 && #[trigger] self.holds(q, before, s, vi);
                        assert(self.holds(q, before, s, vi));
                    }
                }
                assert forall|vi: int, s: int, t: int|
                    #![trigger self.holds(q, before, s, vi), self.holds(q, before, t, vi)]
                    start <= vi < end && 0 <= s < K_NEIGHBORS && 0 <= t < K_NEIGHBORS
                        && self.holds(q, before, s, vi) && self.holds(q, before, t, vi) implies s
                    == t by {
                    self.lemma_not_placed(q, f, before, start, end - 1, s);
                }
            }
        } else {
            assert forall|s: int| 0 <= s < K_NEIGHBORS implies #[trigger] is_kept(f, f, s) by {}
        }
    }
}

/// Scanning a cluster keeps the five least keys of what was found before and of
/// the cluster's vectors. The worst key is then the greatest of them and no
/// more than it was; each place has what it had or a vector of the cluster, none
/// of them twice; and the least key of all is among them.
pub proof fn scanning_a_cluster_keeps_the_least(ix: &IvfIndex, q: Seq<i16>, c: int, f: Nearest)
    requires
        ix.wf(),
        ix.clusters_fit(),
        0 <= c < ix.n_clusters,
        ix.can_scan(q, c, f),
    ensures
        ix.keeps_least(
            q,
            f,
            ix.scanned_cluster(q, c, f),
            ix.cluster_offsets@[c] as int,
            ix.cluster_offsets@[c + 1] as int,
        ),
        ix.keeps_the_least_of_all(q, c, f, ix.scanned_cluster(q, c, f)),
{
    let start = ix.cluster_offsets@[c] as int;
    let end = ix.cluster_offsets@[c + 1] as int;
    let next = ix.scanned_cluster(q, c, f);
    ix.lemma_scanned(q, f, start, end);
    lemma_least(next.keys);
    let s = choose|s: int| 0 <= s < next.keys.len() && next.keys[s] == least(next.keys);
    let least = next.keys[s];
    assert forall|t: int| 0 <= t < K_NEIGHBORS implies least <= #[trigger] f.keys[t] by {
        assert(is_kept(f, next, t) || f.keys[t] >= next.worst);
        assert(least <= next.keys[t]);
    }
    assert forall|vi: int| #[trigger] ix.in_cluster(c, vi) implies least <= ix.key(q, vi) by {
        if ix.is_placed(q, next, vi) {
            let t = choose|t: int| 0 <= t < K_NEIGHBORS && #[trigger] ix.holds(q, next, t, vi);
            assert(least <= next.keys[t]);
        }
    }
}

impl IvfIndex {
    /// What is found are vectors in `seen`, none of them twice, and a free
    /// place has the label 0.
    spec fn is_tidy(&self, q: Seq<i16>, f: Nearest, seen: Set<int>) -> bool {
        &&& is_ranked(f)
        &&& forall|vi: int| #[trigger] seen.contains(vi) ==> 0 <= vi < self.n_vectors
        &&& forall|s: int|
            #![trigger f.keys[s]]
            0 <= s < K_NEIGHBORS && f.keys[s] != i64::MAX ==> exists|vi: int| #[trigger]
                seen.contains(vi) && self.holds(q, f, s, vi)
        &&& forall|s: int|
            #![trigger f.labels[s]]
            0 <= s < K_NEIGHBORS && f.keys[s] == i64::MAX ==> f.labels[s] == 0
        &&& forall|s: int, t: int|
            0 <= s < K_NEIGHBORS && 0 <= t < K_NEIGHBORS && s != t && f.keys[s] != i64::MAX
                ==> #[trigger] f.keys[s] != #[trigger] f.keys[t]
    }

    /// A vector in `seen` is found unless it is not below the worst.
    spec fn covers(&self, q: Seq<i16>, f: Nearest, seen: Set<int>) -> bool {
        forall|vi: int| #[trigger]
            seen.contains(vi) ==> self.is_placed(q, f, vi) || self.key(q, vi) >= f.worst
    }

    spec fn keeps_five(&self, q: Seq<i16>, f: Nearest, seen: Set<int>) -> bool {
        self.is_tidy(q, f, seen) && self.covers(q, f, seen)
    }

    proof fn lemma_are_new(&self, q: Seq<i16>, f: Nearest, seen: Set<int>, start: int, end: int)
        requires
            self.n_vectors <= 0x40_0000,
            self.is_tidy(q, f, seen),
            0 <= start <= end <= self.n_vectors,
            forall|vi: int| start <= vi < end ==> !#[trigger] seen.contains(vi),
        ensures
            self.are_new(q, f, start, end),
    {
        assert forall|vi: int, s: int|
            #![trigger self.key(q, vi), f.keys[s]]
            start <= vi < end && 0 <= s < K_NEIGHBORS implies f.keys[s] != self.key(q, vi) by {
            self.lemma_key_number(q, vi);
            if f.keys[s] == self.key(q, vi) {
                let x = choose|x: int| #[trigger] seen.contains(x) && self.holds(q, f, s, x);
                self.lemma_key_number(q, x);
            }
        }
    }

    /// Scanning vectors keeps the five nearest of those seen.
    proof fn lemma_scanned_keeps_five(
        &self,
        q: Seq<i16>,
        f: Nearest,
        seen: Set<int>,
        start: int,
        end: int,
    )
        requires
            self.n_vectors <= 0x40_0000,
            self.keeps_five(q, f, seen),
            0 <= start <= end <= self.n_vectors,
            forall|vi: int| start <= vi < end ==> !#[trigger] seen.contains(vi),
        ensures
            self.keeps_five(
                q,
                self.scanned(q, f, start, end),
                seen.union(set_of_range(start, end)),
            ),
    {
        let next = self.scanned(q, f, start, end);
        let more = seen.union(set_of_range(start, end));
        self.lemma_are_new(q, f, seen, start, end);
        self.lemma_scanned(q, f, start, end);
        assert forall|s: int|
            #![trigger next.keys[s]]
            0 <= s < K_NEIGHBORS && next.keys[s] != i64::MAX implies exists|vi: int| #[trigger]
            more.contains(vi) && self.holds(q, next, s, vi) by {
            if is_kept(f, next, s) {
                assert(f.keys[s] != i64::MAX);
                let vi = choose|vi: int| #[trigger] seen.contains(vi) && self.holds(q, f, s, vi);
                assert(more.contains(vi) && self.holds(q, next, s, vi));
            } else {
                let vi = choose|vi: int|
                    start <= vi < end && #[trigger] self.holds(q, next, s, vi);
                assert(more.contains(vi));
            }
        }
        assert forall|s: int|
            #![trigger next.labels[s]]
            0 <= s < K_NEIGHBORS && next.keys[s] == i64::MAX implies next.labels[s] == 0 by {
            if is_kept(f, next, s) {
                assert(f.labels[s] == 0);
            } else {
                let vi = choose|vi: int|
                    start <= vi < end && #[trigger] self.holds(q, next, s, vi);
                self.lemma_key_number(q, vi);
            }
        }
        assert forall|s: int, t: int|
            0 <= s < K_NEIGHBORS && 0 <= t < K_NEIGHBORS && s != t && next.keys[s]
                != i64::MAX implies #[trigger] next.keys[s] != #[trigger] next.keys[t] by {
            self.lemma_two_places(q, f, next, seen, start, end, s, t);
        }
        assert forall|vi: int| #[trigger] more.contains(vi) implies self.is_placed(q, next, vi)
            || self.key(q, vi) >= next.worst by {
            if seen.contains(vi) {
                if self.is_placed(q, f, vi) {
                    let s = choose|s: int|
                        0 <= s < K_NEIGHBORS && #[trigger] self.holds(q, f, s, vi);
                    if is_kept(f, next, s) {
                        assert(self.holds(q, next, s, vi));
                    }
                }
            } else {
                assert(start <= vi < end);
            }
        }
    }

    proof fn lemma_two_places(
        &self,
        q: Seq<i16>,
        f: Nearest,
        next: Nearest,
        seen: Set<int>,
        start: int,
        end: int,
        s: int,
        t: int,
    )
        requires
            self.n_vectors <= 0x40_0000,
            self.is_tidy(q, f, seen),
            self.are_new(q, f, start, end),
            0 <= start <= end <= self.n_vectors,
            self.keeps_least(q, f, next, start, end),
            0 <= s < K_NEIGHBORS,
            0 <= t < K_NEIGHBORS,
            s != t,
            next.keys[s] != i64::MAX,
        ensures
            next.keys[s] != next.keys[t],
    {
        if is_kept(f, next, s) && is_kept(f, next, t) {
            assert(f.keys[s] != f.keys[t]);
        } else if is_kept(f, next, s) {
            let vi = choose|vi: int| start <= vi < end && #[trigger] self.holds(q, next, t, vi);
            assert(f.keys[s] != self.key(q, vi));
        } else if is_kept(f, next, t) {
            let vi = choose|vi: int| start <= vi < end && #[trigger] self.holds(q, next, s, vi);
            assert(f.keys[t] != self.key(q, vi));
        } else {
            let a = choose|vi: int| start <= vi < end && #[trigger] self.holds(q, next, s, vi);
            let b = choose|vi: int| start <= vi < end && #[trigger] self.holds(q, next, t, vi);
            self.lemma_key_number(q, a);
            self.lemma_key_number(q, b);
            if next.keys[s] == next.keys[t] {
                assert(a == b);
                assert(self.holds(q, next, t, a));
            }
        }
    }
}

/// The numbers from `start` to `end`.
spec fn set_of_range(start: int, end: int) -> Set<int> {
    Set::new(|i: int| start <= i < end)
}

/// How many clusters were not visited yet.
spec fn open_count(ranks: Seq<i64>) -> int
    decreases ranks.len(),
{
    if ranks.len() == 0 {
        0
    } else {
        open_count(ranks.drop_last()) + (if ranks.last() == i64::MAX {
            0int
        } else {
            1int
        })
    }
}

proof fn lemma_open_count(ranks: Seq<i64>)
    ensures
        0 <= open_count(ranks) <= ranks.len(),
        open_count(ranks) == 0 ==> forall|c: int|
            0 <= c < ranks.len() ==> #[trigger] ranks[c] == i64::MAX,
    decreases ranks.len(),
{
    if ranks.len() > 0 {
        let t = ranks.drop_last();
        lemma_open_count(t);
        if open_count(ranks) == 0 {
            assert forall|c: int| 0 <= c < ranks.len() implies #[trigger] ranks[c] == i64::MAX by {
                if c < t.len() {
                    assert(t[c] == ranks[c]);
                }
            }
        }
    }
}

proof fn lemma_visit_counts(ranks: Seq<i64>, c: int)
    requires
        0 <= c < ranks.len(),
        ranks[c] != i64::MAX,
    ensures
        open_count(ranks.update(c, i64::MAX)) == open_count(ranks) - 1,
    decreases ranks.len(),
{
    let t = ranks.drop_last();
    if c == ranks.len() - 1 {
        assert(ranks.update(c, i64::MAX).drop_last() =~= t);
    } else {
        lemma_visit_counts(t, c);
        assert(ranks.update(c, i64::MAX).drop_last() =~= t.update(c, i64::MAX));
    }
}

impl IvfIndex {
    /// A vector's cluster among the first `hi`.
    proof fn lemma_cluster_of(&self, vi: int, hi: int) -> (c: int)
        requires
            self.wf(),
            self.is_partition(),
            0 < hi <= self.n_clusters,
            0 <= vi < self.cluster_offsets@[hi],
        ensures
            0 <= c < hi,
            self.in_cluster(c, vi),
        decreases hi,
    {
        if self.cluster_offsets@[hi - 1] <= vi {
            hi - 1
        } else {
            self.lemma_cluster_of(vi, hi - 1)
        }
    }

    proof fn lemma_one_cluster(&self, c: int, d: int, vi: int)
        requires
            self.wf(),
            self.is_partition(),
            0 <= c < self.n_clusters,
            0 <= d < self.n_clusters,
            self.in_cluster(c, vi),
            self.in_cluster(d, vi),
        ensures
            c == d,
    {
        if c < d {
            assert(self.cluster_offsets@[c + 1] <= self.cluster_offsets@[d]);
        }
        if d < c {
            assert(self.cluster_offsets@[d + 1] <= self.cluster_offsets@[c]);
        }
    }

    /// `ranks` tells which clusters' vectors are in `seen`.
    spec fn tells_seen(&self, q: Seq<i16>, ranks: Seq<i64>, seen: Set<int>) -> bool {
        &&& ranks.len() == self.n_clusters
        &&& forall|c: int|
            0 <= c < ranks.len() ==> #[trigger] ranks[c] == i64::MAX || ranks[c] == self.ranks(q)[c]
        &&& forall|c: int, vi: int|
            0 <= c < self.n_clusters && #[trigger] self.in_cluster(c, vi) ==> (seen.contains(vi)
                <==> ranks[c] == i64::MAX)
    }

    /// Nothing outside `seen` is nearer than the worst.
    spec fn leaves_nothing(&self, q: Seq<i16>, f: Nearest, seen: Set<int>) -> bool {
        forall|vi: int|
            0 <= vi < self.n_vectors && !#[trigger] seen.contains(vi) ==> self.key(q, vi)
                >= f.worst
    }

    /// `f` keeps the five nearest of some vectors, and if `all` holds, the rest
    /// is not nearer.
    spec fn is_outcome(&self, q: Seq<i16>, f: Nearest, all: bool) -> bool {
        exists|seen: Set<int>| #[trigger]
            self.keeps_five(q, f, seen) && (all ==> self.leaves_nothing(q, f, seen))
    }

    proof fn lemma_all_visited(&self, q: Seq<i16>, ranks: Seq<i64>, f: Nearest, seen: Set<int>)
        requires
            self.is_sound_for(q),
            self.tells_seen(q, ranks, seen),
            forall|c: int| 0 <= c < ranks.len() ==> #[trigger] ranks[c] == i64::MAX,
        ensures
            self.leaves_nothing(q, f, seen),
    {
        assert forall|vi: int| 0 <= vi < self.n_vectors implies #[trigger] seen.contains(vi) by {
            let c = self.lemma_cluster_of(vi, self.n_clusters as int);
            assert(ranks[c] == i64::MAX);
        }
    }

    /// The search may stop at a cluster whose lower bound is over the worst.
    proof fn lemma_prune(
        &self,
        q: Seq<i16>,
        ranks: Seq<i64>,
        f: Nearest,
        seen: Set<int>,
        best: i64,
        cb: int,
    )
        requires
            self.is_sound_for(q),
            self.tells_seen(q, ranks, seen),
            0 <= cb < ranks.len(),
            ranks[cb] == best,
            best != i64::MAX,
            forall|c: int| 0 <= c < ranks.len() ==> best <= #[trigger] ranks[c],
            (best >> CID_BITS) << IDX_BITS >= f.worst,
        ensures
            self.leaves_nothing(q, f, seen),
    {
        assert forall|vi: int| 0 <= vi < self.n_vectors && !#[trigger] seen.contains(vi) implies
            self.key(q, vi) >= f.worst by {
            let c = self.lemma_cluster_of(vi, self.n_clusters as int);
            assert(ranks[c] != i64::MAX);
            self.lemma_bound(q, c, vi);
            self.lemma_key(q, vi);
            let b = self.bound(q, cb);
            let low = cb as i64;
            if b < 0 {
                assert(((0x7fff_ffff_ffff_ffffi64 >> 12u32) << 12u32) | low >= 0x1000_0000_0000_0000)
                    by (bit_vector)
                    requires
                        0 <= low < 4096,
                ;
                assert(false);
            }
            let lb = b as i64;
            assert((lb << 12u32) | low == lb * 4096 + low && ((lb << 12u32) | low) >> 12u32 == lb
                && lb << 22u32 == lb * 0x40_0000) by (bit_vector)
                requires
                    0 <= lb < 0x8000_0000,
                    0 <= low < 4096,
            ;
            assert(b <= self.bound(q, c));
        }
    }

    /// A cluster that is visited adds its vectors to those seen.
    proof fn lemma_visit(&self, q: Seq<i16>, ranks: Seq<i64>, f: Nearest, seen: Set<int>, cb: int)
        requires
            self.is_sound_for(q),
            self.keeps_five(q, f, seen),
            self.tells_seen(q, ranks, seen),
            0 <= cb < ranks.len(),
            ranks[cb] != i64::MAX,
        ensures
            ({
                let start = self.cluster_offsets@[cb] as int;
                let end = self.cluster_offsets@[cb + 1] as int;
                let more = seen.union(set_of_range(start, end));
                &&& self.keeps_five(q, self.scanned_cluster(q, cb, f), more)
                &&& self.tells_seen(q, ranks.update(cb, i64::MAX), more)
            }),
    {
        let start = self.cluster_offsets@[cb] as int;
        let end = self.cluster_offsets@[cb + 1] as int;
        let more = seen.union(set_of_range(start, end));
        let visited = ranks.update(cb, i64::MAX);
        assert forall|vi: int| start <= vi < end implies !#[trigger] seen.contains(vi) by {
            assert(self.in_cluster(cb, vi));
        }
        assert(self.cluster_offsets@[cb + 1] <= self.cluster_offsets@[self.n_clusters as int]);
        self.lemma_scanned_keeps_five(q, f, seen, start, end);
        assert forall|c: int, vi: int|
            0 <= c < self.n_clusters && #[trigger] self.in_cluster(c, vi) implies (more.contains(vi)
            <==> visited[c] == i64::MAX) by {
            if c != cb && start <= vi < end {
                assert(self.in_cluster(cb, vi));
                self.lemma_one_cluster(c, cb, vi);
            }
        }
    }

    proof fn lemma_probed(
        &self,
        q: Seq<i16>,
        ranks: Seq<i64>,
        f: Nearest,
        seen: Set<int>,
        left: int,
    )
        requires
            self.is_sound_for(q),
            self.keeps_five(q, f, seen),
            self.tells_seen(q, ranks, seen),
        ensures
            self.is_outcome(q, self.probed(q, ranks, f, left), left >= open_count(ranks)),
        decreases left,
    {
        let best = least(ranks);
        lemma_least(ranks);
        lemma_open_count(ranks);
        if best == i64::MAX {
            self.lemma_all_visited(q, ranks, f, seen);
        } else {
            let cb = choose|c: int| 0 <= c < ranks.len() && ranks[c] == best;
            self.lemma_low_bits(q, cb);
            assert((best & CID_MASK) as int == cb);
            if (best >> CID_BITS) << IDX_BITS >= f.worst {
                self.lemma_prune(q, ranks, f, seen, best, cb);
            } else {
                let start = self.cluster_offsets@[cb] as int;
                let end = self.cluster_offsets@[cb + 1] as int;
                let next = self.scanned_cluster(q, cb, f);
                let more = seen.union(set_of_range(start, end));
                let visited = ranks.update(cb, i64::MAX);
                self.lemma_visit(q, ranks, f, seen, cb);
                lemma_visit_counts(ranks, cb);
                lemma_open_count(visited);
                if left <= 1 {
                    if left >= open_count(ranks) {
                        self.lemma_all_visited(q, visited, next, more);
                    }
                } else {
                    self.lemma_probed(q, visited, next, more, left - 1);
                }
            }
        }
    }

    proof fn lemma_low_bits(&self, q: Seq<i16>, c: int)
        requires
            self.wf(),
            0 <= c < self.n_clusters,
        ensures
            self.ranks(q)[c] & CID_MASK == c,
    {
        assert(0x7fff_ffff_ffff_ffffi64 >> 12u32 == 0x7_ffff_ffff_ffffi64) by (bit_vector);
        let b = self.bound(q, c);
        let lb = if b < 0 {
            i64::MAX >> CID_BITS
        } else {
            b as i64
        };
        lemma_rank(lb, c as i64);
    }

    /// What a search starts from.
    proof fn lemma_start(&self, q: Seq<i16>)
        requires
            self.is_sound_for(q),
        ensures
            self.keeps_five(q, none_found(), Set::<int>::empty()),
            self.tells_seen(q, self.ranks(q), Set::<int>::empty()),
    {
        let seen = Set::<int>::empty();
        let ranks = self.ranks(q);
        assert(self.keeps_five(q, none_found(), seen)) by {
            lemma_worst_place(none_found().keys);
        }
        assert forall|c: int, vi: int|
            0 <= c < self.n_clusters && #[trigger] self.in_cluster(c, vi) implies ranks[c]
            != i64::MAX by {
            assert(self.cluster_offsets@[c + 1] <= self.cluster_offsets@[self.n_clusters as int]);
            self.lemma_bound(q, c, vi);
            self.lemma_key(q, vi);
        }
    }

    proof fn lemma_outcome(&self, q: Seq<i16>, max_probes: int)
        requires
            self.is_sound_for(q),
        ensures
            self.is_outcome(q, self.found(q, max_probes), max_probes >= self.n_clusters),
    {
        self.lemma_start(q);
        lemma_open_count(self.ranks(q));
        self.lemma_probed(q, self.ranks(q), none_found(), Set::empty(), max_probes);
    }

    /// Whether five of the vectors in `w` are nearer than `vi`.
    spec fn five_in(&self, q: Seq<i16>, w: Set<int>, vi: int) -> bool {
        exists|a: int, b: int, c: int, d: int, e: int|
            #![trigger self.is_nearer(q, a, vi), self.is_nearer(q, b, vi),
                self.is_nearer(q, c, vi), self.is_nearer(q, d, vi), self.is_nearer(q, e, vi)]
            {
                &&& are_distinct(a, b, c, d, e)
                &&& w.contains(a) && self.is_nearer(q, a, vi)
                &&& w.contains(b) && self.is_nearer(q, b, vi)
                &&& w.contains(c) && self.is_nearer(q, c, vi)
                &&& w.contains(d) && self.is_nearer(q, d, vi)
                &&& w.contains(e) && self.is_nearer(q, e, vi)
            }
    }

    /// `f` keeps the five nearest of the vectors in `w`, which are those in
    /// `seen` and some that are not below the worst.
    spec fn settles(&self, q: Seq<i16>, f: Nearest, seen: Set<int>, w: Set<int>) -> bool {
        &&& self.keeps_five(q, f, seen)
        &&& forall|vi: int| #[trigger] w.contains(vi) ==> 0 <= vi < self.n_vectors
        &&& forall|vi: int| #[trigger] seen.contains(vi) ==> w.contains(vi)
        &&& forall|vi: int| #[trigger]
            w.contains(vi) ==> seen.contains(vi) || self.key(q, vi) >= f.worst
    }

    /// What keeps the five nearest of `w` has places for those of its vectors
    /// than which no five of its vectors are nearer, and for no others.
    proof fn lemma_settled(&self, q: Seq<i16>, f: Nearest, seen: Set<int>, w: Set<int>, vi: int)
        requires
            self.is_sound_for(q),
            self.settles(q, f, seen, w),
            0 <= vi < self.n_vectors,
        ensures
            self.is_placed(q, f, vi) <==> w.contains(vi) && !self.five_in(q, w, vi),
    {
        if self.is_placed(q, f, vi) {
            let s = choose|s: int| 0 <= s < K_NEIGHBORS && #[trigger] self.holds(q, f, s, vi);
            self.lemma_key(q, vi);
            let x = choose|x: int| #[trigger] seen.contains(x) && self.holds(q, f, s, x);
            self.lemma_key_number(q, vi);
            self.lemma_key_number(q, x);
            assert(w.contains(vi));
            self.lemma_not_crowded(q, f, seen, w, vi);
        } else if w.contains(vi) {
            self.lemma_crowded_out(q, f, seen, w, vi);
        }
    }

    /// A vector that is nearer than one with a place has a place too.
    proof fn lemma_nearer_is_placed(
        &self,
        q: Seq<i16>,
        f: Nearest,
        seen: Set<int>,
        w: Set<int>,
        vi: int,
        s: int,
        a: int,
    ) -> (t: int)
        requires
            self.is_sound_for(q),
            self.settles(q, f, seen, w),
            0 <= vi < self.n_vectors,
            0 <= s < K_NEIGHBORS,
            self.holds(q, f, s, vi),
            w.contains(a),
            self.is_nearer(q, a, vi),
        ensures
            0 <= t < K_NEIGHBORS,
            t != s,
            f.keys[t] == self.key(q, a),
            self.key(q, a) % 0x40_0000 == a,
    {
        self.lemma_key(q, vi);
        self.lemma_key(q, a);
        self.lemma_key_number(q, a);
        assert(f.keys[s] <= f.worst);
        assert(self.key(q, a) < self.key(q, vi));
        assert(seen.contains(a));
        choose|t: int| 0 <= t < K_NEIGHBORS && #[trigger] self.holds(q, f, t, a)
    }

    /// Five nearer vectors would leave no place.
    proof fn lemma_not_crowded(&self, q: Seq<i16>, f: Nearest, seen: Set<int>, w: Set<int>, vi: int)
        requires
            self.is_sound_for(q),
            self.settles(q, f, seen, w),
            0 <= vi < self.n_vectors,
            self.is_placed(q, f, vi),
        ensures
            !self.five_in(q, w, vi),
    {
        let s = choose|s: int| 0 <= s < K_NEIGHBORS && #[trigger] self.holds(q, f, s, vi);
        if self.five_in(q, w, vi) {
            let (a, b, c, d, e) = choose|a: int, b: int, c: int, d: int, e: int|
                #![trigger self.is_nearer(q, a, vi), self.is_nearer(q, b, vi),
                    self.is_nearer(q, c, vi), self.is_nearer(q, d, vi), self.is_nearer(q, e, vi)]
                {
                    &&& are_distinct(a, b, c, d, e)
                    &&& w.contains(a) && self.is_nearer(q, a, vi)
                    &&& w.contains(b) && self.is_nearer(q, b, vi)
                    &&& w.contains(c) && self.is_nearer(q, c, vi)
                    &&& w.contains(d) && self.is_nearer(q, d, vi)
                    &&& w.contains(e) && self.is_nearer(q, e, vi)
                };
            let sa = self.lemma_nearer_is_placed(q, f, seen, w, vi, s, a);
            let sb = self.lemma_nearer_is_placed(q, f, seen, w, vi, s, b);
            let sc = self.lemma_nearer_is_placed(q, f, seen, w, vi, s, c);
            let sd = self.lemma_nearer_is_placed(q, f, seen, w, vi, s, d);
            let se = self.lemma_nearer_is_placed(q, f, seen, w, vi, s, e);
            assert(are_distinct(sa, sb, sc, sd, se));
        }
    }

    /// The vector in a place is nearer than one without a place that is not
    /// below the worst.
    proof fn lemma_place_is_nearer(
        &self,
        q: Seq<i16>,
        f: Nearest,
        seen: Set<int>,
        vi: int,
        s: int,
    ) -> (a: int)
        requires
            self.is_sound_for(q),
            self.is_tidy(q, f, seen),
            0 <= vi < self.n_vectors,
            !self.is_placed(q, f, vi),
            self.key(q, vi) >= f.worst,
            0 <= s < K_NEIGHBORS,
        ensures
            0 <= a < self.n_vectors,
            seen.contains(a),
            self.is_nearer(q, a, vi),
            self.holds(q, f, s, a),
            f.keys[s] == self.key(q, a),
            f.keys[s] != i64::MAX,
    {
        self.lemma_key(q, vi);
        assert(f.keys[s] <= f.worst);
        let a = choose|a: int| #[trigger] seen.contains(a) && self.holds(q, f, s, a);
        self.lemma_key(q, a);
        assert(a != vi) by {
            assert(self.holds(q, f, s, a));
        }
        assert(self.key(q, a) <= self.key(q, vi));
        a
    }

    proof fn lemma_crowded_out(&self, q: Seq<i16>, f: Nearest, seen: Set<int>, w: Set<int>, vi: int)
        requires
            self.is_sound_for(q),
            self.settles(q, f, seen, w),
            w.contains(vi),
            !self.is_placed(q, f, vi),
        ensures
            self.five_in(q, w, vi),
    {
        assert(seen.contains(vi) || self.key(q, vi) >= f.worst);
        let a = self.lemma_place_is_nearer(q, f, seen, vi, 0);
        let b = self.lemma_place_is_nearer(q, f, seen, vi, 1);
        let c = self.lemma_place_is_nearer(q, f, seen, vi, 2);
        let d = self.lemma_place_is_nearer(q, f, seen, vi, 3);
        let e = self.lemma_place_is_nearer(q, f, seen, vi, 4);
        assert(f.keys[0] != f.keys[1] && f.keys[0] != f.keys[2] && f.keys[0] != f.keys[3]
            && f.keys[0] != f.keys[4] && f.keys[1] != f.keys[2] && f.keys[1] != f.keys[3]
            && f.keys[1] != f.keys[4] && f.keys[2] != f.keys[3] && f.keys[2] != f.keys[4]
            && f.keys[3] != f.keys[4]);
        assert(are_distinct(a, b, c, d, e));
    }

    /// A search through all clusters puts the vectors in places than which no
    /// five are nearer, and no others.
    proof fn lemma_placed(&self, q: Seq<i16>, f: Nearest, seen: Set<int>, vi: int)
        requires
            self.is_sound_for(q),
            self.keeps_five(q, f, seen),
            self.leaves_nothing(q, f, seen),
            0 <= vi < self.n_vectors,
        ensures
            self.is_placed(q, f, vi) <==> !self.five_are_nearer(q, vi),
    {
        let w = set_of_range(0, self.n_vectors as int);
        assert(self.settles(q, f, seen, w));
        self.lemma_settled(q, f, seen, w, vi);
        self.lemma_five_in_all(q, vi);
    }

    proof fn lemma_five_in_all(&self, q: Seq<i16>, vi: int)
        ensures
            self.five_in(q, set_of_range(0, self.n_vectors as int), vi) <==> self.five_are_nearer(
                q,
                vi,
            ),
    {
        let w = set_of_range(0, self.n_vectors as int);
        assert forall|a: int| #[trigger] w.contains(a) <==> 0 <= a < self.n_vectors by {}
    }
}

/// A search through all clusters has places for the vectors than which no five
/// are nearer, and for no others.
pub proof fn the_five_nearest_have_the_places(ix: &IvfIndex, q: Seq<i16>, max_probes: int)
    requires
        ix.is_sound_for(q),
        max_probes >= ix.n_clusters,
    ensures
        ix.places_the_five_nearest(q, ix.found(q, max_probes)),
{
    let f = ix.found(q, max_probes);
    ix.lemma_outcome(q, max_probes);
    let seen = choose|seen: Set<int>| #[trigger]
        ix.keeps_five(q, f, seen) && ix.leaves_nothing(q, f, seen);
    assert forall|vi: int| 0 <= vi < ix.n_vectors implies (#[trigger] ix.is_placed(q, f, vi)
        <==> !ix.five_are_nearer(q, vi)) by {
        ix.lemma_placed(q, f, seen, vi);
    }
}

/// A search through all clusters finds the five nearest vectors: a vector than
/// which no five are nearer is found, with its label, however many clusters
/// were passed over.
pub proof fn the_five_nearest_are_found(ix: &IvfIndex, q: Seq<i16>, max_probes: int, vi: int)
    requires
        ix.is_sound_for(q),
        max_probes >= ix.n_clusters,
        0 <= vi < ix.n_vectors,
        !ix.five_are_nearer(q, vi),
    ensures
        exists|s: int|
            0 <= s < K_NEIGHBORS && #[trigger] ix.found(q, max_probes).keys[s] == ix.key(q, vi)
                && ix.found(q, max_probes).labels[s] == ix.labels@[vi],
{
    let f = ix.found(q, max_probes);
    the_five_nearest_have_the_places(ix, q, max_probes);
    assert(ix.is_placed(q, f, vi));
    let s = choose|s: int| 0 <= s < K_NEIGHBORS && #[trigger] ix.holds(q, f, s, vi);
    assert(f.keys[s] == ix.key(q, vi));
}

/// A search through all clusters finds nothing but the five nearest: a place
/// that is not free holds a vector than which no five are nearer.
pub proof fn only_the_five_nearest_are_found(ix: &IvfIndex, q: Seq<i16>, max_probes: int, s: int)
    requires
        ix.is_sound_for(q),
        max_probes >= ix.n_clusters,
        0 <= s < K_NEIGHBORS,
        ix.found(q, max_probes).keys[s] != i64::MAX,
    ensures
        exists|vi: int|
            0 <= vi < ix.n_vectors && ix.found(q, max_probes).keys[s] == #[trigger] ix.key(q, vi)
                && ix.found(q, max_probes).labels[s] == ix.labels@[vi] && !ix.five_are_nearer(q, vi),
{
    let f = ix.found(q, max_probes);
    ix.lemma_outcome(q, max_probes);
    let seen = choose|seen: Set<int>| #[trigger]
        ix.keeps_five(q, f, seen) && ix.leaves_nothing(q, f, seen);
    let vi = choose|vi: int| #[trigger] seen.contains(vi) && ix.holds(q, f, s, vi);
    ix.lemma_placed(q, f, seen, vi);
    assert(f.keys[s] == ix.key(q, vi));
}

/// Whatever a search finds is a vector of the index with its label, and no
/// vector is found twice; a place that stayed free has the label 0.
pub proof fn what_is_found_is_there(ix: &IvfIndex, q: Seq<i16>, max_probes: int, s: int)
    requires
        ix.is_sound_for(q),
        0 <= s < K_NEIGHBORS,
    ensures
        ix.found(q, max_probes).keys.len() == K_NEIGHBORS,
        ix.found(q, max_probes).labels.len() == K_NEIGHBORS,
        ix.found(q, max_probes).keys[s] == i64::MAX ==> ix.found(q, max_probes).labels[s] == 0,
        ix.found(q, max_probes).keys[s] != i64::MAX ==> exists|vi: int|
            0 <= vi < ix.n_vectors && ix.found(q, max_probes).keys[s] == #[trigger] ix.key(q, vi)
                && ix.found(q, max_probes).labels[s] == ix.labels@[vi],
        forall|t: int|
            0 <= t < K_NEIGHBORS && t != s && ix.found(q, max_probes).keys[s] != i64::MAX
                ==> ix.found(q, max_probes).keys[s] != #[trigger] ix.found(q, max_probes).keys[t],
{
    let f = ix.found(q, max_probes);
    ix.lemma_outcome(q, max_probes);
    let all = max_probes >= ix.n_clusters;
    let seen = choose|seen: Set<int>| #[trigger]
        ix.keeps_five(q, f, seen) && (all ==> ix.leaves_nothing(q, f, seen));
    assert(f.labels[s] == f.labels[s]);
    if f.keys[s] != i64::MAX {
        let vi = choose|vi: int| #[trigger] seen.contains(vi) && ix.holds(q, f, s, vi);
        assert(f.keys[s] == ix.key(q, vi));
    }
}

impl IvfIndex {
    /// The labels of the five nearest vectors, as far as they are among the
    /// first `n`, added up.
    pub open spec fn nearest_label_sum(&self, q: Seq<i16>, n: int) -> int
        decreases n,
    {
        if n <= 0 {
            0
        } else {
            self.nearest_label_sum(q, n - 1) + (if self.five_are_nearer(q, n - 1) {
                0
            } else {
                self.labels@[n - 1] as int
            })
        }
    }

    /// How many of the five nearest vectors carry a fraud label, where labels
    /// are 0 and 1.
    pub open spec fn nearest_votes(&self, q: Seq<i16>) -> int {
        self.nearest_label_sum(q, self.n_vectors as int)
    }
}

/// What place `s` adds to the labels of vectors among the first `n`.
spec fn share(f: Nearest, s: int, n: int) -> int {
    if f.keys[s] != i64::MAX && f.keys[s] % 0x40_0000 < n {
        f.labels[s] as int
    } else {
        0
    }
}

spec fn shares(f: Nearest, n: int) -> int {
    share(f, 0, n) + share(f, 1, n) + share(f, 2, n) + share(f, 3, n) + share(f, 4, n)
}

impl IvfIndex {
    /// One more vector adds its label where it has a place, and nothing
    /// elsewhere.
    proof fn lemma_share(&self, q: Seq<i16>, f: Nearest, seen: Set<int>, vi: int, s: int)
        requires
            self.n_vectors <= 0x40_0000,
            self.is_tidy(q, f, seen),
            0 <= vi < self.n_vectors,
            0 <= s < K_NEIGHBORS,
        ensures
            share(f, s, vi + 1) == share(f, s, vi) + (if self.holds(q, f, s, vi) {
                self.labels@[vi] as int
            } else {
                0
            }),
            self.holds(q, f, s, vi) ==> forall|t: int|
                0 <= t < K_NEIGHBORS && t != s ==> !#[trigger] self.holds(q, f, t, vi),
    {
        self.lemma_key_number(q, vi);
        if f.keys[s] != i64::MAX {
            let x = choose|x: int| #[trigger] seen.contains(x) && self.holds(q, f, s, x);
            self.lemma_key_number(q, x);
        }
        if self.holds(q, f, s, vi) {
            assert forall|t: int| 0 <= t < K_NEIGHBORS && t != s implies !#[trigger] self.holds(
                q,
                f,
                t,
                vi,
            ) by {
                assert(f.keys[s] != f.keys[t]);
            }
        }
    }

    proof fn lemma_shares(&self, q: Seq<i16>, f: Nearest, seen: Set<int>, n: int)
        requires
            self.is_sound_for(q),
            self.keeps_five(q, f, seen),
            self.leaves_nothing(q, f, seen),
            0 <= n <= self.n_vectors,
        ensures
            shares(f, n) == self.nearest_label_sum(q, n),
        decreases n,
    {
        if n > 0 {
            let vi = n - 1;
            self.lemma_shares(q, f, seen, vi);
            self.lemma_placed(q, f, seen, vi);
            self.lemma_share(q, f, seen, vi, 0);
            self.lemma_share(q, f, seen, vi, 1);
            self.lemma_share(q, f, seen, vi, 2);
            self.lemma_share(q, f, seen, vi, 3);
            self.lemma_share(q, f, seen, vi, 4);
            if self.is_placed(q, f, vi) {
                let s = choose|s: int| 0 <= s < K_NEIGHBORS && #[trigger] self.holds(q, f, s, vi);
                assert(s == 0 || s == 1 || s == 2 || s == 3 || s == 4);
            }
        } else {
            assert forall|s: int| 0 <= s < K_NEIGHBORS implies #[trigger] share(f, s, 0) == 0 by {}
        }
    }
}

/// The labels that a search through all clusters finds sum up to those of the
/// five nearest vectors.
pub proof fn the_five_nearest_vote(ix: &IvfIndex, q: Seq<i16>, max_probes: int)
    requires
        ix.is_sound_for(q),
        max_probes >= ix.n_clusters,
    ensures
        label_sum(ix.found(q, max_probes).labels) == ix.nearest_votes(q),
{
    let f = ix.found(q, max_probes);
    let n = ix.n_vectors as int;
    ix.lemma_outcome(q, max_probes);
    let seen = choose|seen: Set<int>| #[trigger]
        ix.keeps_five(q, f, seen) && ix.leaves_nothing(q, f, seen);
    ix.lemma_shares(q, f, seen, n);
    assert forall|s: int| 0 <= s < K_NEIGHBORS implies #[trigger] share(f, s, n) == f.labels[s] by {
        if f.keys[s] != i64::MAX {
            let vi = choose|vi: int| #[trigger] seen.contains(vi) && ix.holds(q, f, s, vi);
            ix.lemma_key_number(q, vi);
        }
    }
    reveal_with_fuel(label_sum, 6);
}

/// How many of some ranks are below `x`.
pub open spec fn lower_count(ranks: Seq<i64>, x: i64) -> int
    decreases ranks.len(),
{
    if ranks.len() == 0 {
        0
    } else {
        lower_count(ranks.drop_last(), x) + (if ranks.last() < x {
            1int
        } else {
            0int
        })
    }
}

proof fn lemma_lower_count(ranks: Seq<i64>, x: i64)
    ensures
        0 <= lower_count(ranks, x),
        (exists|c: int| 0 <= c < ranks.len() && #[trigger] ranks[c] < x) <==> lower_count(ranks, x)
            > 0,
    decreases ranks.len(),
{
    if ranks.len() > 0 {
        let t = ranks.drop_last();
        lemma_lower_count(t, x);
        if lower_count(t, x) > 0 {
            let c = choose|c: int| 0 <= c < t.len() && #[trigger] t[c] < x;
            assert(ranks[c] < x);
        }
        if exists|c: int| 0 <= c < ranks.len() && #[trigger] ranks[c] < x {
            let c = choose|c: int| 0 <= c < ranks.len() && #[trigger] ranks[c] < x;
            if c < t.len() {
                assert(t[c] < x);
            }
        }
        if ranks.last() < x {
            assert(ranks[ranks.len() - 1] < x);
        }
    }
}

/// A cluster that was visited is not below any rank.
proof fn lemma_lower_without(ranks: Seq<i64>, c: int, x: i64)
    requires
        0 <= c < ranks.len(),
        ranks[c] < x,
    ensures
        lower_count(ranks.update(c, i64::MAX), x) == lower_count(ranks, x) - 1,
    decreases ranks.len(),
{
    let t = ranks.drop_last();
    if c == ranks.len() - 1 {
        assert(ranks.update(c, i64::MAX).drop_last() =~= t);
    } else {
        lemma_lower_without(t, c, x);
        assert(ranks.update(c, i64::MAX).drop_last() =~= t.update(c, i64::MAX));
    }
}

impl IvfIndex {
    /// Whether a cluster is one of the first `m` in the order in which a search
    /// looks through them: fewer than `m` have a lower rank.
    pub open spec fn is_among_first(&self, q: Seq<i16>, c: int, m: int) -> bool {
        lower_count(self.ranks(q), self.ranks(q)[c]) < m
    }

    /// Whether a vector belongs to one of the first `m` clusters.
    pub open spec fn in_first(&self, q: Seq<i16>, vi: int, m: int) -> bool {
        exists|c: int|
            0 <= c < self.n_clusters && #[trigger] self.in_cluster(c, vi) && self.is_among_first(
                q,
                c,
                m,
            )
    }

    /// Whether at least five vectors of the first `m` clusters are nearer than
    /// `vi`.
    pub open spec fn five_of_first_are_nearer(&self, q: Seq<i16>, vi: int, m: int) -> bool {
        exists|a: int, b: int, c: int, d: int, e: int|
            #![trigger self.is_nearer(q, a, vi), self.is_nearer(q, b, vi),
                self.is_nearer(q, c, vi), self.is_nearer(q, d, vi), self.is_nearer(q, e, vi)]
            {
                &&& are_distinct(a, b, c, d, e)
                &&& 0 <= a < self.n_vectors && self.in_first(q, a, m) && self.is_nearer(q, a, vi)
                &&& 0 <= b < self.n_vectors && self.in_first(q, b, m) && self.is_nearer(q, b, vi)
                &&& 0 <= c < self.n_vectors && self.in_first(q, c, m) && self.is_nearer(q, c, vi)
                &&& 0 <= d < self.n_vectors && self.in_first(q, d, m) && self.is_nearer(q, d, vi)
                &&& 0 <= e < self.n_vectors && self.in_first(q, e, m) && self.is_nearer(q, e, vi)
            }
    }

    /// A vector is one of the five nearest in the first `m` clusters.
    pub open spec fn is_near_in_first(&self, q: Seq<i16>, vi: int, m: int) -> bool {
        self.in_first(q, vi, m) && !self.five_of_first_are_nearer(q, vi, m)
    }

    /// The labels of the five nearest vectors in the first `m` clusters, as far as
    /// they are among the first `n` vectors, added up.
    pub open spec fn first_label_sum(&self, q: Seq<i16>, m: int, n: int) -> int
        decreases n,
    {
        if n <= 0 {
            0
        } else {
            self.first_label_sum(q, m, n - 1) + (if self.is_near_in_first(q, n - 1, m) {
                self.labels@[n - 1] as int
            } else {
                0
            })
        }
    }

    /// How many of the five nearest vectors in the first `m` clusters carry a
    /// fraud label, where labels are 0 and 1.
    pub open spec fn first_votes(&self, q: Seq<i16>, m: int) -> int {
        self.first_label_sum(q, m, self.n_vectors as int)
    }

    /// Whether a cluster that was not visited is one of the next `left`.
    spec fn is_next(&self, ranks: Seq<i64>, c: int, left: int) -> bool {
        ranks[c] != i64::MAX && lower_count(ranks, ranks[c]) < (if left <= 1 {
            1
        } else {
            left
        })
    }

    /// `w` are the vectors of the clusters that were visited and of the next
    /// `left`.
    spec fn tells_target(&self, ranks: Seq<i64>, left: int, w: Set<int>) -> bool {
        &&& forall|vi: int| #[trigger] w.contains(vi) ==> 0 <= vi < self.n_vectors
        &&& forall|c: int, vi: int|
            0 <= c < self.n_clusters && #[trigger] self.in_cluster(c, vi) ==> (w.contains(vi) <==> (
            ranks[c] == i64::MAX || self.is_next(ranks, c, left)))
    }

    spec fn is_settled(&self, q: Seq<i16>, f: Nearest, w: Set<int>) -> bool {
        exists|seen: Set<int>| #[trigger] self.settles(q, f, seen, w)
    }

    proof fn lemma_seen_is_target(
        &self,
        q: Seq<i16>,
        ranks: Seq<i64>,
        seen: Set<int>,
        left: int,
        w: Set<int>,
    )
        requires
            self.is_sound_for(q),
            self.tells_seen(q, ranks, seen),
            self.tells_target(ranks, left, w),
            forall|vi: int| #[trigger] seen.contains(vi) ==> 0 <= vi < self.n_vectors,
        ensures
            forall|vi: int| #[trigger] seen.contains(vi) ==> w.contains(vi),
    {
        assert forall|vi: int| #[trigger] seen.contains(vi) implies w.contains(vi) by {
            let c = self.lemma_cluster_of(vi, self.n_clusters as int);
            assert(ranks[c] == i64::MAX);
        }
    }

    /// Two clusters that were not visited have different ranks.
    proof fn lemma_ranks_differ(&self, q: Seq<i16>, ranks: Seq<i64>, seen: Set<int>, c: int, d: int)
        requires
            self.wf(),
            self.tells_seen(q, ranks, seen),
            0 <= c < ranks.len(),
            0 <= d < ranks.len(),
            ranks[c] != i64::MAX,
            ranks[c] == ranks[d],
        ensures
            c == d,
    {
        self.lemma_low_bits(q, c);
        self.lemma_low_bits(q, d);
    }

    proof fn lemma_next_is_least(
        &self,
        q: Seq<i16>,
        ranks: Seq<i64>,
        seen: Set<int>,
        cb: int,
        c: int,
        left: int,
    )
        requires
            self.wf(),
            self.tells_seen(q, ranks, seen),
            0 <= cb < ranks.len(),
            0 <= c < ranks.len(),
            ranks[cb] != i64::MAX,
            forall|d: int| 0 <= d < ranks.len() ==> ranks[cb] <= #[trigger] ranks[d],
        ensures
            left <= 1 ==> (self.is_next(ranks, c, left) <==> c == cb),
            left > 1 ==> ((ranks[c] == i64::MAX || self.is_next(ranks, c, left)) <==> (ranks.update(
                cb,
                i64::MAX,
            )[c] == i64::MAX || self.is_next(ranks.update(cb, i64::MAX), c, left - 1))),
    {
        lemma_lower_count(ranks, ranks[c]);
        lemma_lower_count(ranks, ranks[cb]);
        if c != cb && ranks[c] != i64::MAX {
            if ranks[c] == ranks[cb] {
                self.lemma_ranks_differ(q, ranks, seen, c, cb);
            }
            assert(ranks[cb] < ranks[c]);
            lemma_lower_without(ranks, cb, ranks[c]);
        }
    }

    proof fn lemma_probed_settles(
        &self,
        q: Seq<i16>,
        ranks: Seq<i64>,
        f: Nearest,
        seen: Set<int>,
        left: int,
        w: Set<int>,
    )
        requires
            self.is_sound_for(q),
            self.keeps_five(q, f, seen),
            self.tells_seen(q, ranks, seen),
            self.tells_target(ranks, left, w),
        ensures
            self.is_settled(q, self.probed(q, ranks, f, left), w),
        decreases left,
    {
        let best = least(ranks);
        lemma_least(ranks);
        self.lemma_seen_is_target(q, ranks, seen, left, w);
        if best == i64::MAX {
            self.lemma_all_visited(q, ranks, f, seen);
            assert(self.settles(q, f, seen, w));
        } else {
            let cb = choose|c: int| 0 <= c < ranks.len() && ranks[c] == best;
            self.lemma_low_bits(q, cb);
            assert((best & CID_MASK) as int == cb);
            if (best >> CID_BITS) << IDX_BITS >= f.worst {
                self.lemma_prune(q, ranks, f, seen, best, cb);
                assert(self.settles(q, f, seen, w));
            } else {
                let next = self.scanned_cluster(q, cb, f);
                let start = self.cluster_offsets@[cb] as int;
                let end = self.cluster_offsets@[cb + 1] as int;
                let more = seen.union(set_of_range(start, end));
                let visited = ranks.update(cb, i64::MAX);
                self.lemma_visit(q, ranks, f, seen, cb);
                if left <= 1 {
                    assert forall|vi: int| #[trigger] w.contains(vi) implies more.contains(vi) by {
                        let c = self.lemma_cluster_of(vi, self.n_clusters as int);
                        self.lemma_next_is_least(q, ranks, seen, cb, c, left);
                    }
                    assert forall|vi: int| #[trigger] more.contains(vi) implies w.contains(vi) by {
                        let c = self.lemma_cluster_of(vi, self.n_clusters as int);
                        self.lemma_next_is_least(q, ranks, seen, cb, c, left);
                        assert(visited[c] == i64::MAX);
                    }
                    assert(self.settles(q, next, more, w));
                } else {
                    assert forall|c: int, vi: int|
                        0 <= c < self.n_clusters && #[trigger] self.in_cluster(c, vi) implies (
                    w.contains(vi) <==> (visited[c] == i64::MAX || self.is_next(
                        visited,
                        c,
                        left - 1,
                    ))) by {
                        self.lemma_next_is_least(q, ranks, seen, cb, c, left);
                    }
                    self.lemma_probed_settles(q, visited, next, more, left - 1, w);
                }
            }
        }
    }

    /// The vectors of the first `m` clusters.
    spec fn first_set(&self, q: Seq<i16>, m: int) -> Set<int> {
        Set::new(|vi: int| 0 <= vi < self.n_vectors && self.in_first(q, vi, m))
    }

    proof fn lemma_found_settles(&self, q: Seq<i16>, m: int)
        requires
            self.is_sound_for(q),
            m >= 1,
        ensures
            self.is_settled(q, self.found(q, m), self.first_set(q, m)),
    {
        let seen = Set::<int>::empty();
        let ranks = self.ranks(q);
        let w = self.first_set(q, m);
        self.lemma_start(q);
        assert forall|c: int, vi: int|
            0 <= c < self.n_clusters && #[trigger] self.in_cluster(c, vi) implies (w.contains(vi)
            <==> (ranks[c] == i64::MAX || self.is_next(ranks, c, m))) by {
            assert(self.cluster_offsets@[c + 1] <= self.cluster_offsets@[self.n_clusters as int]);
            assert(!seen.contains(vi));
            assert(ranks[c] != i64::MAX);
            if self.in_first(q, vi, m) {
                let d = choose|d: int|
                    0 <= d < self.n_clusters && #[trigger] self.in_cluster(d, vi)
                        && self.is_among_first(q, d, m);
                self.lemma_one_cluster(c, d, vi);
            }
        }
        self.lemma_probed_settles(q, ranks, none_found(), seen, m, w);
    }

    proof fn lemma_five_in_first(&self, q: Seq<i16>, m: int, vi: int)
        ensures
            self.five_in(q, self.first_set(q, m), vi) <==> self.five_of_first_are_nearer(q, vi, m),
    {
        let w = self.first_set(q, m);
        assert forall|a: int| #[trigger] w.contains(a) <==> 0 <= a < self.n_vectors
            && self.in_first(q, a, m) by {}
    }
}

/// A search through at most `m` clusters has places for the five nearest vectors
/// in the first `m` clusters, and for no others.
pub proof fn the_nearest_of_the_first_clusters_have_the_places(
    ix: &IvfIndex,
    q: Seq<i16>,
    m: int,
    vi: int,
)
    requires
        ix.is_sound_for(q),
        m >= 1,
        0 <= vi < ix.n_vectors,
    ensures
        ix.is_placed(q, ix.found(q, m), vi) <==> ix.is_near_in_first(q, vi, m),
{
    let f = ix.found(q, m);
    let w = ix.first_set(q, m);
    ix.lemma_found_settles(q, m);
    let seen = choose|seen: Set<int>| #[trigger] ix.settles(q, f, seen, w);
    ix.lemma_settled(q, f, seen, w, vi);
    ix.lemma_five_in_first(q, m, vi);
}

impl IvfIndex {
    /// The labels of the vectors with a place, as far as they are among the first
    /// `n`, added up.
    spec fn placed_sum(&self, q: Seq<i16>, f: Nearest, n: int) -> int
        decreases n,
    {
        if n <= 0 {
            0
        } else {
            self.placed_sum(q, f, n - 1) + (if self.is_placed(q, f, n - 1) {
                self.labels@[n - 1] as int
            } else {
                0
            })
        }
    }

    proof fn lemma_placed_shares(&self, q: Seq<i16>, f: Nearest, seen: Set<int>, n: int)
        requires
            self.n_vectors <= 0x40_0000,
            self.is_tidy(q, f, seen),
            0 <= n <= self.n_vectors,
        ensures
            shares(f, n) == self.placed_sum(q, f, n),
        decreases n,
    {
        if n > 0 {
            let vi = n - 1;
            self.lemma_placed_shares(q, f, seen, vi);
            self.lemma_share(q, f, seen, vi, 0);
            self.lemma_share(q, f, seen, vi, 1);
            self.lemma_share(q, f, seen, vi, 2);
            self.lemma_share(q, f, seen, vi, 3);
            self.lemma_share(q, f, seen, vi, 4);
            if self.is_placed(q, f, vi) {
                let s = choose|s: int| 0 <= s < K_NEIGHBORS && #[trigger] self.holds(q, f, s, vi);
                assert(s == 0 || s == 1 || s == 2 || s == 3 || s == 4);
            }
        } else {
            assert forall|s: int| 0 <= s < K_NEIGHBORS implies #[trigger] share(f, s, 0) == 0 by {
                if f.keys[s] != i64::MAX {
                    let vi = choose|vi: int| #[trigger] seen.contains(vi) && self.holds(q, f, s, vi);
                    self.lemma_key_number(q, vi);
                }
            }
        }
    }

    /// The labels in the places are those of the vectors that have them.
    proof fn lemma_label_sum(&self, q: Seq<i16>, f: Nearest, seen: Set<int>)
        requires
            self.n_vectors <= 0x40_0000,
            self.is_tidy(q, f, seen),
        ensures
            label_sum(f.labels) == self.placed_sum(q, f, self.n_vectors as int),
    {
        let n = self.n_vectors as int;
        self.lemma_placed_shares(q, f, seen, n);
        assert forall|s: int| 0 <= s < K_NEIGHBORS implies #[trigger] share(f, s, n)
            == f.labels[s] by {
            if f.keys[s] != i64::MAX {
                let vi = choose|vi: int| #[trigger] seen.contains(vi) && self.holds(q, f, s, vi);
                self.lemma_key_number(q, vi);
            } else {
                assert(f.labels[s] == 0);
            }
        }
        reveal_with_fuel(label_sum, 6);
    }

    proof fn lemma_first_sum(&self, q: Seq<i16>, m: int, n: int)
        requires
            self.is_sound_for(q),
            m >= 1,
            0 <= n <= self.n_vectors,
        ensures
            self.placed_sum(q, self.found(q, m), n) == self.first_label_sum(q, m, n),
        decreases n,
    {
        if n > 0 {
            self.lemma_first_sum(q, m, n - 1);
            the_nearest_of_the_first_clusters_have_the_places(self, q, m, n - 1);
        }
    }

    proof fn lemma_nearest_sum(&self, q: Seq<i16>, m: int, n: int)
        requires
            self.is_sound_for(q),
            m >= 1,
            0 <= n <= self.n_vectors,
            forall|vi: int|
                0 <= vi < n ==> (self.is_near_in_first(q, vi, m) <==> !#[trigger] self.five_are_nearer(
                    q,
                    vi,
                )),
        ensures
            self.first_label_sum(q, m, n) == self.nearest_label_sum(q, n),
        decreases n,
    {
        if n > 0 {
            self.lemma_nearest_sum(q, m, n - 1);
            assert(self.five_are_nearer(q, n - 1) || !self.five_are_nearer(q, n - 1));
        }
    }
}

/// The labels that a search through at most `m` clusters finds sum up to those of
/// the five nearest vectors in the first `m` clusters.
pub proof fn the_first_clusters_vote(ix: &IvfIndex, q: Seq<i16>, m: int)
    requires
        ix.is_sound_for(q),
        m >= 1,
    ensures
        label_sum(ix.found(q, m).labels) == ix.first_votes(q, m),
{
    let f = ix.found(q, m);
    let w = ix.first_set(q, m);
    ix.lemma_found_settles(q, m);
    let seen = choose|seen: Set<int>| #[trigger] ix.settles(q, f, seen, w);
    ix.lemma_label_sum(q, f, seen);
    ix.lemma_first_sum(q, m, ix.n_vectors as int);
}

/// A search first looks through twelve clusters. What the five nearest vectors in
/// them vote is its answer, unless it is from one to four: then the answer is
/// what the five nearest of all vectors vote. So a first look in which all agree
/// is the answer.
pub proof fn answers_follow_the_first_look(ix: &IvfIndex, q: Seq<i16>)
    requires
        ix.is_sound_for(q),
    ensures
        1 <= ix.first_votes(q, 12) <= 4 ==> label_sum(ix.found_labels(q)) == ix.nearest_votes(q),
        !(1 <= ix.first_votes(q, 12) <= 4) ==> label_sum(ix.found_labels(q)) == ix.first_votes(
            q,
            12,
        ),
        ix.first_votes(q, 12) == label_sum(ix.found(q, 12).labels),
{
    the_first_clusters_vote(ix, q, 12);
    the_five_nearest_vote(ix, q, ix.n_clusters as int);
}

/// Where the five nearest of all vectors lie in the first twelve clusters, a
/// search answers with what they vote, whatever that is.
pub proof fn near_neighbours_are_answered(ix: &IvfIndex, q: Seq<i16>)
    requires
        ix.is_sound_for(q),
        forall|vi: int|
            0 <= vi < ix.n_vectors && !#[trigger] ix.five_are_nearer(q, vi) ==> ix.in_first(
                q,
                vi,
                12,
            ),
    ensures
        label_sum(ix.found_labels(q)) == ix.nearest_votes(q),
{
    answers_follow_the_first_look(ix, q);
    assert forall|vi: int| 0 <= vi < ix.n_vectors implies (ix.is_near_in_first(q, vi, 12)
        <==> !#[trigger] ix.five_are_nearer(q, vi)) by {
        ix.lemma_near_in_first(q, vi, 12);
    }
    ix.lemma_nearest_sum(q, 12, ix.n_vectors as int);
}

impl IvfIndex {
    proof fn lemma_near_in_first(&self, q: Seq<i16>, vi: int, m: int)
        requires
            self.is_sound_for(q),
            0 <= vi < self.n_vectors,
            forall|x: int|
                0 <= x < self.n_vectors && !#[trigger] self.five_are_nearer(q, x) ==> self.in_first(
                    q,
                    x,
                    m,
                ),
        ensures
            self.is_near_in_first(q, vi, m) <==> !self.five_are_nearer(q, vi),
    {
        if self.five_are_nearer(q, vi) {
            let f = self.found(q, self.n_clusters as int);
            self.lemma_outcome(q, self.n_clusters as int);
            let seen = choose|seen: Set<int>| #[trigger]
                self.keeps_five(q, f, seen) && self.leaves_nothing(q, f, seen);
            self.lemma_placed(q, f, seen, vi);
            self.lemma_five_near_places(q, f, seen, vi, m);
        } else {
            self.lemma_five_of_first(q, vi, m);
        }
    }

    /// Five vectors of the first clusters are five vectors.
    #[verifier::spinoff_prover]
    proof fn lemma_five_of_first(&self, q: Seq<i16>, vi: int, m: int)
        ensures
            self.five_of_first_are_nearer(q, vi, m) ==> self.five_are_nearer(q, vi),
    {
    }

    #[verifier::spinoff_prover]
    proof fn lemma_five_near_places(
        &self,
        q: Seq<i16>,
        f: Nearest,
        seen: Set<int>,
        vi: int,
        m: int,
    )
        requires
            self.is_sound_for(q),
            self.keeps_five(q, f, seen),
            self.leaves_nothing(q, f, seen),
            0 <= vi < self.n_vectors,
            !self.is_placed(q, f, vi),
            forall|x: int|
                0 <= x < self.n_vectors && !#[trigger] self.five_are_nearer(q, x) ==> self.in_first(
                    q,
                    x,
                    m,
                ),
        ensures
            self.five_of_first_are_nearer(q, vi, m),
    {
        assert(seen.contains(vi) || self.key(q, vi) >= f.worst);
        let a = self.lemma_near_place(q, f, seen, vi, 0, m);
        let b = self.lemma_near_place(q, f, seen, vi, 1, m);
        let c = self.lemma_near_place(q, f, seen, vi, 2, m);
        let d = self.lemma_near_place(q, f, seen, vi, 3, m);
        let e = self.lemma_near_place(q, f, seen, vi, 4, m);
        assert(are_distinct(a, b, c, d, e)) by {
            assert(f.keys[0] != f.keys[1] && f.keys[0] != f.keys[2] && f.keys[0] != f.keys[3]
                && f.keys[0] != f.keys[4] && f.keys[1] != f.keys[2] && f.keys[1] != f.keys[3]
                && f.keys[1] != f.keys[4] && f.keys[2] != f.keys[3] && f.keys[2] != f.keys[4]
                && f.keys[3] != f.keys[4]);
        }
        self.lemma_five_of(q, vi, m, a, b, c, d, e);
    }

    #[verifier::spinoff_prover]
    proof fn lemma_five_of(
        &self,
        q: Seq<i16>,
        vi: int,
        m: int,
        a: int,
        b: int,
        c: int,
        d: int,
        e: int,
    )
        requires
            are_distinct(a, b, c, d, e),
            0 <= a < self.n_vectors && self.in_first(q, a, m) && self.is_nearer(q, a, vi),
            0 <= b < self.n_vectors && self.in_first(q, b, m) && self.is_nearer(q, b, vi),
            0 <= c < self.n_vectors && self.in_first(q, c, m) && self.is_nearer(q, c, vi),
            0 <= d < self.n_vectors && self.in_first(q, d, m) && self.is_nearer(q, d, vi),
            0 <= e < self.n_vectors && self.in_first(q, e, m) && self.is_nearer(q, e, vi),
        ensures
            self.five_of_first_are_nearer(q, vi, m),
    {
    }

    proof fn lemma_near_place(
        &self,
        q: Seq<i16>,
        f: Nearest,
        seen: Set<int>,
        vi: int,
        s: int,
        m: int,
    ) -> (a: int)
        requires
            self.is_sound_for(q),
            self.keeps_five(q, f, seen),
            self.leaves_nothing(q, f, seen),
            0 <= vi < self.n_vectors,
            !self.is_placed(q, f, vi),
            self.key(q, vi) >= f.worst,
            0 <= s < K_NEIGHBORS,
            forall|x: int|
                0 <= x < self.n_vectors && !#[trigger] self.five_are_nearer(q, x) ==> self.in_first(
                    q,
                    x,
                    m,
                ),
        ensures
            0 <= a < self.n_vectors,
            self.in_first(q, a, m),
            self.is_nearer(q, a, vi),
            f.keys[s] == self.key(q, a),
            f.keys[s] != i64::MAX,
    {
        let a = self.lemma_place_is_nearer(q, f, seen, vi, s);
        assert(self.is_placed(q, f, a));
        self.lemma_placed(q, f, seen, a);
        a
    }
}

/// Where there are five vectors or more and the five nearest of them lie in the
/// first twelve clusters and all carry the same label, a search answers with five
/// times that label: five votes for fraud where it is 1, and none where it is 0.
pub proof fn neighbours_that_agree_decide(ix: &IvfIndex, q: Seq<i16>, label: u8)
    requires
        ix.is_sound_for(q),
        ix.n_vectors >= 5,
        forall|vi: int|
            0 <= vi < ix.n_vectors && !#[trigger] ix.five_are_nearer(q, vi) ==> ix.in_first(
                q,
                vi,
                12,
            ) && ix.labels@[vi] == label,
    ensures
        label_sum(ix.found_labels(q)) == 5 * label,
{
    near_neighbours_are_answered(ix, q);
    let f = ix.found(q, ix.n_clusters as int);
    the_five_nearest_vote(ix, q, ix.n_clusters as int);
    ix.lemma_outcome(q, ix.n_clusters as int);
    let seen = choose|seen: Set<int>| #[trigger]
        ix.keeps_five(q, f, seen) && ix.leaves_nothing(q, f, seen);
    assert forall|s: int| 0 <= s < K_NEIGHBORS implies #[trigger] f.labels[s] == label by {
        if f.keys[s] == i64::MAX {
            ix.lemma_no_free_place(q, f, seen, s);
        }
        let vi = choose|vi: int| #[trigger] seen.contains(vi) && ix.holds(q, f, s, vi);
        assert(ix.is_placed(q, f, vi));
        ix.lemma_placed(q, f, seen, vi);
    }
    reveal_with_fuel(label_sum, 6);
}

impl IvfIndex {
    /// Where a vector stands as long as a place is free.
    proof fn lemma_has_place(&self, q: Seq<i16>, f: Nearest, seen: Set<int>, s: int, vi: int) -> (t:
        int)
        requires
            self.is_sound_for(q),
            self.keeps_five(q, f, seen),
            self.leaves_nothing(q, f, seen),
            0 <= s < K_NEIGHBORS,
            f.keys[s] == i64::MAX,
            0 <= vi < self.n_vectors,
        ensures
            0 <= t < K_NEIGHBORS,
            t != s,
            f.keys[t] == self.key(q, vi),
            self.key(q, vi) % 0x40_0000 == vi,
    {
        self.lemma_key(q, vi);
        self.lemma_key_number(q, vi);
        assert(f.keys[s] <= f.worst);
        assert(seen.contains(vi) || self.key(q, vi) >= f.worst);
        assert(self.is_placed(q, f, vi));
        choose|t: int| 0 <= t < K_NEIGHBORS && #[trigger] self.holds(q, f, t, vi)
    }

    /// With five vectors or more, no place stays free.
    proof fn lemma_no_free_place(&self, q: Seq<i16>, f: Nearest, seen: Set<int>, s: int)
        requires
            self.is_sound_for(q),
            self.keeps_five(q, f, seen),
            self.leaves_nothing(q, f, seen),
            0 <= s < K_NEIGHBORS,
            self.n_vectors >= 5,
        ensures
            f.keys[s] != i64::MAX,
    {
        if f.keys[s] == i64::MAX {
            let a = self.lemma_has_place(q, f, seen, s, 0);
            let b = self.lemma_has_place(q, f, seen, s, 1);
            let c = self.lemma_has_place(q, f, seen, s, 2);
            let d = self.lemma_has_place(q, f, seen, s, 3);
            let e = self.lemma_has_place(q, f, seen, s, 4);
            assert(are_distinct(a, b, c, d, e));
        }
    }

    /// The point of a cluster's box that is nearest to a query.
    pub open spec fn nearest_in_box(&self, q: Seq<i16>, c: int) -> Seq<i16> {
        Seq::new(
            14,
            |d: int|
                if q[d] < self.bbox_min@[c * 16 + d] {
                    self.bbox_min@[c * 16 + d]
                } else if q[d] > self.bbox_max@[c * 16 + d] {
                    self.bbox_max@[c * 16 + d]
                } else {
                    q[d]
                },
        )
    }

    proof fn lemma_box_attained(&self, q: Seq<i16>, c: int, vi: int, n: int)
        requires
            self.is_sound_for(q),
            0 <= c < self.n_clusters,
            self.in_cluster(c, vi),
            0 <= n <= 14,
        ensures
            gap_squares(self.bbox_min@, self.bbox_max@, c * 16, q, n) == plain_difference_squares(
                self.nearest_in_box(q, c),
                0,
                q,
                n,
            ),
        decreases n,
    {
        if n > 0 {
            let d = n - 1;
            self.lemma_box_attained(q, c, vi, d);
            assert(self.bbox_min@[c * 16 + d] <= self.flat_vec@[vi * 16 + d]
                <= self.bbox_max@[c * 16 + d]);
            narrow_gaps_are_true(self.bbox_min@[c * 16 + d], self.bbox_max@[c * 16 + d], q[d]);
            let g = plain_gap(
                self.bbox_min@[c * 16 + d] as int,
                self.bbox_max@[c * 16 + d] as int,
                q[d] as int,
            );
            let e = self.nearest_in_box(q, c)[0 + d] - q[d];
            assert(g * g == e * e) by (nonlinear_arith)
                requires
                    g == e || g == -e,
            ;
        }
    }
}

/// Clusters are looked through by the distance to the nearest point of their
/// boxes, of two that are as near the one with the lower number first; and no
/// vector of a cluster is nearer than that point.
pub proof fn clusters_come_by_their_boxes(ix: &IvfIndex, q: Seq<i16>, c: int, d: int, vi: int, wi: int)
    requires
        ix.is_sound_for(q),
        0 <= c < ix.n_clusters,
        0 <= d < ix.n_clusters,
        ix.in_cluster(c, vi),
        ix.in_cluster(d, wi),
    ensures
        ({
            let near_c = plain_difference_squares(ix.nearest_in_box(q, c), 0, q, 14);
            let near_d = plain_difference_squares(ix.nearest_in_box(q, d), 0, q, 14);
            &&& near_c <= ix.true_distance(q, vi)
            &&& ix.ranks(q)[c] < ix.ranks(q)[d] <==> near_c < near_d || (near_c == near_d && c < d)
        }),
{
    assert(ix.cluster_offsets@[c + 1] <= ix.cluster_offsets@[ix.n_clusters as int]);
    assert(ix.cluster_offsets@[d + 1] <= ix.cluster_offsets@[ix.n_clusters as int]);
    ix.lemma_bound(q, c, vi);
    ix.lemma_bound(q, d, wi);
    ix.lemma_box_attained(q, c, vi, 14);
    ix.lemma_box_attained(q, d, wi, 14);
    ix.lemma_plain_bound(q, c, vi);
    ix.lemma_plain_bound(q, d, wi);
}

impl IvfIndex {
    proof fn lemma_plain_bound(&self, q: Seq<i16>, c: int, vi: int)
        requires
            self.is_sound_for(q),
            0 <= c < self.n_clusters,
            0 <= vi < self.n_vectors,
            self.in_cluster(c, vi),
        ensures
            self.bound(q, c) == gap_squares(self.bbox_min@, self.bbox_max@, c * 16, q, 14),
    {
        gaps_bound_distances(
            self.bbox_min@,
            self.bbox_max@,
            c * 16,
            self.flat_vec@,
            vi * 16,
            q,
            14,
        );
        let d14 = self.flat_vec@[vi * 16 + 14] - q[14];
        let d15 = self.flat_vec@[vi * 16 + 15] - q[15];
        assert(0 <= d14 * d14 && 0 <= d15 * d15) by (nonlinear_arith);
        reveal_with_fuel(plain_difference_squares, 3);
        self.lemma_key(q, vi);
    }
}

/// The values of a quantised vector that starts at `base`: from 0 to 1, but for
/// the two dimensions that can be absent, and padding.
pub open spec fn is_quantised(v: Seq<i16>, base: int) -> bool {
    &&& forall|j: int| 0 <= j < N_DIMS ==> ABSENT <= #[trigger] v[base + j] <= ONE
    &&& forall|j: int| 0 <= j < N_DIMS && j != 5 && j != 6 ==> 0 <= #[trigger] v[base + j]
    &&& v[base + 14] == 0
    &&& v[base + 15] == 0
}

proof fn lemma_square_bound(d: int, m: int)
    requires
        -m <= d <= m,
    ensures
        0 <= d * d <= m * m,
{
    assert(0 <= d * d <= m * m) by (nonlinear_arith)
        requires
            -m <= d <= m,
    ;
}

/// Between quantised vectors no difference and no distance wraps around: no
/// distance is over 2 000 000 000.
pub proof fn quantised_distances_fit(v: Seq<i16>, base: int, q: Seq<i16>)
    requires
        is_quantised(v, base),
        is_quantised(q, 0),
    ensures
        forall|j: int| 0 <= j < 16 ==> fits16(#[trigger] v[base + j] - q[j]),
        0 <= plain_difference_squares(v, base, q, 16) <= 2_000_000_000,
        distance(v, base, q) == plain_difference_squares(v, base, q, 16),
{
    assert forall|j: int| 0 <= j < 16 implies fits16(#[trigger] v[base + j] - q[j]) by {
        if j < N_DIMS {
            assert(q[0 + j] == q[j]);
        } else {
            assert(q[14] == 0 && q[15] == 0);
        }
    }
    lemma_quantised_sum(v, base, q, 16);
    narrow_differences_are_true(v, base, q, 16);
}

/// The most that the first `n` differences can add up to.
spec fn most(n: int) -> int {
    if n <= 5 {
        100_000_000 * n
    } else if n <= 7 {
        500_000_000 + 400_000_000 * (n - 5)
    } else if n <= 14 {
        1_300_000_000 + 100_000_000 * (n - 7)
    } else {
        2_000_000_000
    }
}

proof fn lemma_quantised_sum(v: Seq<i16>, base: int, q: Seq<i16>, n: int)
    requires
        is_quantised(v, base),
        is_quantised(q, 0),
        0 <= n <= 16,
    ensures
        0 <= plain_difference_squares(v, base, q, n) <= most(n),
    decreases n,
{
    if n > 0 {
        lemma_quantised_sum(v, base, q, n - 1);
        let j = n - 1;
        let d = v[base + j] - q[j];
        assert(base + n - 1 == base + j);
        if j < N_DIMS {
            assert(ABSENT <= v[base + j] <= ONE);
            assert(ABSENT <= q[0 + j] <= ONE);
            if j == 5 || j == 6 {
                lemma_square_bound(d, 20000);
            } else {
                assert(0 <= v[base + j] && 0 <= q[0 + j]);
                lemma_square_bound(d, 10000);
            }
        } else {
            assert(q[14] == 0 && q[15] == 0);
            lemma_square_bound(d, 0);
        }
    }
}

/// The farthest from 0 that a corner of a box can lie for its difference from
/// every quantised value to fit in 16 bits.
pub const CORNER_LIMIT: i16 = 22767;

/// The vectors are quantised, and the corners of the boxes that hold some are
/// not over the limit.
pub open spec fn holds_quantised(ix: &IvfIndex) -> bool {
    &&& forall|vi: int|
        0 <= vi < ix.n_vectors ==> #[trigger] is_quantised(ix.flat_vec@, vi * 16)
    &&& forall|c: int, j: int|
        #![trigger ix.bbox_min@[c * 16 + j]]
        #![trigger ix.bbox_max@[c * 16 + j]]
        0 <= c < ix.n_clusters && ix.cluster_offsets@[c] < ix.cluster_offsets@[c + 1] && 0 <= j
            < N_DIMS ==> {
            &&& -CORNER_LIMIT <= ix.bbox_min@[c * 16 + j] <= CORNER_LIMIT
            &&& -CORNER_LIMIT <= ix.bbox_max@[c * 16 + j] <= CORNER_LIMIT
        }
}

/// In an index of quantised vectors, every query that comes from a request is
/// in reach.
pub proof fn requests_are_in_reach(ix: &IvfIndex, p: PayloadView, s: Scaled)
    requires
        holds_quantised(ix),
        s.in_range(),
    ensures
        ix.in_reach(shorts(vector_of(p, s))),
        shorts(vector_of(p, s)).len() == 16,
{
    let q = shorts(vector_of(p, s));
    dimensions_are_in_range(p, s);
    assert forall|j: int| 0 <= j < 16 implies #[trigger] q[j] == vector_of(p, s)[j] by {
        assert(ABSENT <= vector_of(p, s)[j] <= ONE);
    }
    assert(is_quantised(q, 0)) by {
        assert forall|j: int| 0 <= j < N_DIMS implies ABSENT <= #[trigger] q[0 + j] <= ONE by {
            assert(q[j] == vector_of(p, s)[j]);
        }
        assert forall|j: int| 0 <= j < N_DIMS && j != 5 && j != 6 implies 0 <= #[trigger] q[0
            + j] by {
            assert(q[j] == vector_of(p, s)[j]);
        }
    }
    assert forall|vi: int, j: int| 0 <= vi < ix.n_vectors && 0 <= j < 16 implies fits16(
        #[trigger] ix.flat_vec@[vi * 16 + j] - q[j],
    ) by {
        assert(is_quantised(ix.flat_vec@, vi * 16));
        quantised_distances_fit(ix.flat_vec@, vi * 16, q);
    }
    assert forall|vi: int| 0 <= vi < ix.n_vectors implies #[trigger] ix.true_distance(q, vi)
        < 0x8000_0000 by {
        assert(is_quantised(ix.flat_vec@, vi * 16));
        quantised_distances_fit(ix.flat_vec@, vi * 16, q);
    }
    assert forall|c: int, j: int|
        #![trigger ix.bbox_min@[c * 16 + j]]
        #![trigger ix.bbox_max@[c * 16 + j]]
        0 <= c < ix.n_clusters && ix.cluster_offsets@[c] < ix.cluster_offsets@[c + 1] && 0 <= j
            < N_DIMS implies {
        &&& fits16(ix.bbox_min@[c * 16 + j] - q[j])
        &&& fits16(q[j] - ix.bbox_max@[c * 16 + j])
    } by {
        assert(ABSENT <= q[0 + j] <= ONE);
    }
}

/// Five places, each with a label of 0 or 1.
spec fn has_votes(f: Nearest) -> bool {
    &&& f.keys.len() == K_NEIGHBORS
    &&& f.labels.len() == K_NEIGHBORS
    &&& forall|s: int| 0 <= s < K_NEIGHBORS ==> #[trigger] f.labels[s] <= 1
}

impl IvfIndex {
    /// Every label is 0 or 1.
    pub open spec fn has_binary_labels(&self) -> bool {
        forall|vi: int| 0 <= vi < self.n_vectors ==> #[trigger] self.labels@[vi] <= 1
    }

    proof fn lemma_scanned_votes(
        &self,
        q: Seq<i16>,
        f: Nearest,
        start: int,
        end: int,
    )
        requires
            self.has_binary_labels(),
            has_votes(f),
            0 <= start,
            start < end ==> end <= self.n_vectors,
        ensures
            has_votes(self.scanned(q, f, start, end)),
        decreases end - start,
    {
        if start < end {
            self.lemma_scanned_votes(q, f, start, end - 1);
            let before = self.scanned(q, f, start, end - 1);
            lemma_worst_place(before.keys);
        }
    }

    proof fn lemma_probed_votes(&self, q: Seq<i16>, ranks: Seq<i64>, f: Nearest, left: int)
        requires
            self.wf(),
            self.clusters_fit(),
            self.has_binary_labels(),
            has_votes(f),
            ranks.len() == self.n_clusters,
            forall|c: int|
                0 <= c < ranks.len() ==> #[trigger] ranks[c] == i64::MAX || ranks[c]
                    == self.ranks(q)[c],
        ensures
            has_votes(self.probed(q, ranks, f, left)),
        decreases left,
    {
        let best = least(ranks);
        lemma_least(ranks);
        if best != i64::MAX && (best >> CID_BITS) << IDX_BITS < f.worst {
            let c = choose|c: int| 0 <= c < ranks.len() && ranks[c] == best;
            self.lemma_low_bits(q, c);
            let start = self.cluster_offsets@[c] as int;
            let end = self.cluster_offsets@[c + 1] as int;
            self.lemma_scanned_votes(q, f, start, end);
            if left > 1 {
                self.lemma_probed_votes(
                    q,
                    ranks.update(c, i64::MAX),
                    self.scanned_cluster(q, c, f),
                    left - 1,
                );
            }
        }
    }
}

/// Where labels are 0 and 1, a search counts from none to five of them, so
/// that nothing wraps around.
pub proof fn a_search_counts_to_five(ix: &IvfIndex, q: Seq<i16>)
    requires
        ix.wf(),
        ix.clusters_fit(),
        ix.has_binary_labels(),
    ensures
        0 <= label_sum(ix.found_labels(q)) <= K_NEIGHBORS,
        label_sum(ix.found_labels(q)) % 0x100 == label_sum(ix.found_labels(q)),
{
    ix.lemma_probed_votes(q, ix.ranks(q), none_found(), N_PROBE_INITIAL as int);
    ix.lemma_probed_votes(q, ix.ranks(q), none_found(), ix.n_clusters as int);
    lemma_sum_of_votes(ix.found(q, N_PROBE_INITIAL as int));
    lemma_sum_of_votes(ix.found(q, ix.n_clusters as int));
}

proof fn lemma_sum_of_votes(f: Nearest)
    requires
        has_votes(f),
    ensures
        0 <= label_sum(f.labels) <= K_NEIGHBORS,
{
    reveal_with_fuel(label_sum, 6);
}

/// An answer that leaves it open is exact: where labels are 0 and 1, a search
/// that answers with one to four has looked at all clusters, and counts the
/// fraud labels among the five nearest vectors. So does every search whose first
/// look counted one to four.
pub proof fn open_answers_are_exact(ix: &IvfIndex, q: Seq<i16>)
    requires
        ix.is_sound_for(q),
        ix.has_binary_labels(),
    ensures
        1 <= label_sum(ix.found_labels(q)) <= 4 ==> label_sum(ix.found_labels(q))
            == ix.nearest_votes(q),
        1 <= label_sum(ix.found(q, N_PROBE_INITIAL as int).labels) <= 4 ==> label_sum(
            ix.found_labels(q),
        ) == ix.nearest_votes(q),
{
    the_five_nearest_vote(ix, q, ix.n_clusters as int);
}

/// The same of the vector of a request, in an index of quantised vectors whose
/// boxes hold their clusters' vectors.
pub proof fn open_answers_to_requests_are_exact(ix: &IvfIndex, p: PayloadView, s: Scaled)
    requires
        ix.wf(),
        ix.n_vectors <= 0x40_0000,
        ix.is_partition(),
        ix.has_true_boxes(),
        ix.has_binary_labels(),
        holds_quantised(ix),
        s.in_range(),
    ensures
        ({
            let q = shorts(vector_of(p, s));
            1 <= label_sum(ix.found_labels(q)) <= 4 ==> label_sum(ix.found_labels(q))
                == ix.nearest_votes(q)
        }),
{
    requests_are_in_reach(ix, p, s);
    open_answers_are_exact(ix, shorts(vector_of(p, s)));
}

/// An index that is a partition can be searched.
pub proof fn partitions_fit(ix: &IvfIndex)
    requires
        ix.wf(),
        ix.is_partition(),
    ensures
        ix.clusters_fit(),
{
    assert forall|c: int|
        0 <= c < ix.n_clusters && ix.cluster_offsets@[c] < #[trigger] ix.cluster_offsets@[c
            + 1] implies ix.cluster_offsets@[c + 1] <= ix.n_vectors by {
        assert(ix.cluster_offsets@[c + 1] <= ix.cluster_offsets@[ix.n_clusters as int]);
    }
}

/// The index that answers for a tag is the first that is there of three: the
/// tag's own, that of the tag without the bit of the card, and that of the tag
/// without the bit of the online terminal too.
pub proof fn the_first_index_that_is_there_answers(table: IndexTable, tag: int)
    requires
        0 <= tag < 16,
    ensures
        table.slots@[tag] is Some ==> answering_slot(table, tag) == Some(tag),
        table.slots@[tag] is None && table.slots@[tag % 8] is Some ==> answering_slot(table, tag)
            == Some(tag % 8),
        table.slots@[tag] is None && table.slots@[tag % 8] is None && table.slots@[tag % 4] is Some
            ==> answering_slot(table, tag) == Some(tag % 4),
        table.slots@[tag] is None && table.slots@[tag % 8] is None && table.slots@[tag % 4] is None
            ==> answering_slot(table, tag) is None,
{
}

/// In a table with an index for each partition that has a file, such a
/// partition answers for itself, and each other one has the partition without
/// the card answer for it.
pub proof fn partitions_answer_for_themselves(table: IndexTable, tag: int)
    requires
        table.wf(),
        forall|t: int| 0 <= t < N_TAGS ==> (#[trigger] table.slots@[t] is Some <==> t < N_FILES),
        0 <= tag < N_TAGS,
    ensures
        answering_slot(table, tag) == Some(
            if tag < N_FILES {
                tag
            } else {
                tag - 8
            },
        ),
{
}

/// Each dimension adds the square of a 16-bit number that differs from the
/// difference between the vector and the query by whole rounds of 16 bits, and the
/// distance differs from the sum by whole rounds of 32 bits.
pub proof fn differences_wrap_around(v: Seq<i16>, base: int, q: Seq<i16>, n: int) -> (x: int)
    requires
        0 <= n,
    ensures
        -32768 <= x < 32768,
        (x - (v[base + n] - q[n])) % 65536 == 0,
        difference_squares(v, base, q, n + 1) == difference_squares(v, base, q, n) + x * x,
        difference_squares(v, base, q, 0) == 0,
        -2147483648 <= distance(v, base, q) < 2147483648,
        (distance(v, base, q) - difference_squares(v, base, q, 16)) % 4294967296 == 0,
{
    wrap16(v[base + n] - q[n])
}

/// A value within a range has no gap to it; below or above it the gap is how far it
/// is from the nearer end, as long as that fits in 16 bits.
pub proof fn gaps_reach_to_the_range(lo: i16, hi: i16, x: i16)
    requires
        lo <= hi,
        lo - x < 32768,
        x - hi < 32768,
        -32768 <= lo - x,
        -32768 <= x - hi,
    ensures
        lo <= x <= hi ==> gap(lo, hi, x) == 0,
        x < lo ==> gap(lo, hi, x) == lo - x,
        x > hi ==> gap(lo, hi, x) == x - hi,
{
}

/// The sum of five labels is the sum of the five.
pub proof fn five_labels_add_up(labels: Seq<u8>)
    requires
        labels.len() == 5,
    ensures
        label_sum(labels) == labels[0] + labels[1] + labels[2] + labels[3] + labels[4],
{
    reveal_with_fuel(label_sum, 6);
}

} // verus!
