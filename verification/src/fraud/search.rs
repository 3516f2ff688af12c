//! Searching an index for the labels of the nearest vectors.
//!
//! Distances are sums of squares in 32 bits, over differences in 16 bits, both
//! of which wrap around. A vector's key is its distance with its number below
//! it, so that no two vectors of an index compare equal.

use vstd::prelude::*;

use crate::fraud::data::{
    lane, lanes_hold_the_corners, IndexTable, IvfIndex, CID_BITS, CID_MASK, IDX_BITS, K_NEIGHBORS,
    N_DIMS, N_PROBE_INITIAL, N_PROBE_REPAIR_MAX, N_PROBE_REPAIR_MIN, N_TAGS,
};
use crate::fraud::search_laws::{
    a_search_counts_to_five, answers_follow_the_first_look, open_answers_are_exact,
    scanning_a_cluster_keeps_the_least, the_five_nearest_have_the_places,
};

verus! {

/// `x` as a 16-bit value in two's complement.
pub open spec fn wrap16(x: int) -> int {
    (x + 0x8000) % 0x1_0000 - 0x8000
}

/// `x` as a 32-bit value in two's complement.
pub open spec fn wrap32(x: int) -> int {
    (x + 0x8000_0000) % 0x1_0000_0000 - 0x8000_0000
}

pub open spec fn square(x: int) -> int {
    x * x
}

/// The squares of the first `n` differences between a vector and a query.
pub open spec fn difference_squares(v: Seq<i16>, base: int, q: Seq<i16>, n: int) -> int
    decreases n,
{
    if n <= 0 {
        0
    } else {
        difference_squares(v, base, q, n - 1) + square(wrap16(v[base + n - 1] - q[n - 1]))
    }
}

/// The distance of the vector that starts at `base`.
pub open spec fn distance(v: Seq<i16>, base: int, q: Seq<i16>) -> int {
    wrap32(difference_squares(v, base, q, 16))
}

pub open spec fn positive_part(x: int) -> int {
    if x > 0 {
        x
    } else {
        0
    }
}

/// How far `x` is from the range from `lo` to `hi`.
pub open spec fn gap(lo: i16, hi: i16, x: i16) -> int {
    wrap16(positive_part(wrap16(lo - x)) + positive_part(wrap16(x - hi)))
}

/// The squares of the gaps in the first `n` dimensions between a query and a
/// box, whose corners start at `base`.
pub open spec fn gap_squares(lo: Seq<i16>, hi: Seq<i16>, base: int, q: Seq<i16>, n: int) -> int
    decreases n,
{
    if n <= 0 {
        0
    } else {
        gap_squares(lo, hi, base, q, n - 1) + square(
            gap(lo[base + n - 1], hi[base + n - 1], q[n - 1]),
        )
    }
}

/// The same for the box of cluster `l` of eight whose corners stand side by
/// side.
pub open spec fn lane_gap_squares(lo: Seq<i16>, hi: Seq<i16>, l: int, q: Seq<i16>, n: int) -> int
    decreases n,
{
    if n <= 0 {
        0
    } else {
        lane_gap_squares(lo, hi, l, q, n - 1) + square(
            gap(lo[lane(l, n - 1)], hi[lane(l, n - 1)], q[n - 1]),
        )
    }
}

pub proof fn lemma_wrap16_sub(a: i16, b: i16)
    ensures
        a.wrapping_sub(b) == wrap16(a - b),
{
}

proof fn lemma_wrap32_add(a: int, x: i32, b: i32)
    requires
        x == wrap32(a),
    ensures
        x.wrapping_add(b) == wrap32(a + b),
{
}

proof fn lemma_square_of_i16(d: int)
    requires
        -0x8000 <= d < 0x8000,
    ensures
        0 <= square(d) <= 0x4000_0000,
{
    assert(0 <= d * d <= 0x8000 * 0x8000) by (nonlinear_arith)
        requires
            -0x8000 <= d < 0x8000,
    ;
}

pub(crate) fn add_square(acc: i32, Ghost(sum): Ghost<int>, d: i16) -> (r: i32)
    requires
        acc == wrap32(sum),
    ensures
        r == wrap32(sum + square(d as int)),
{
    proof {
        lemma_square_of_i16(d as int);
    }
    let sq: i32 = d as i32 * d as i32;
    proof {
        lemma_wrap32_add(sum, acc, sq);
    }
    acc.wrapping_add(sq)
}

/// The distance between a query and the vector that starts at `base`.
pub fn dist_l2_i16q(flat_vec: &[i16], base: usize, q: &[i16; 16]) -> (r: i32)
    requires
        base + 16 <= flat_vec@.len(),
    ensures
        r == distance(flat_vec@, base as int, q@),
{
    let mut acc: i32 = 0;
    let mut i: usize = 0;
    while i < 16
        invariant
            i <= 16,
            base + 16 <= flat_vec.len(),
            acc == wrap32(difference_squares(flat_vec@, base as int, q@, i as int)),
        decreases 16 - i,
    {
        let d = flat_vec[base + i].wrapping_sub(q[i]);
        proof {
            lemma_wrap16_sub(flat_vec@[base + i], q@[i as int]);
        }
        acc = add_square(
            acc,
            Ghost(difference_squares(flat_vec@, base as int, q@, i as int)),
            d,
        );
        i = i + 1;
    }
    acc
}

/// The same distance, where no difference is over 46340 and can be squared in
/// 32 bits.
pub fn dist_l2_i16q_scalar(flat_vec: &[i16], base: usize, q: &[i16; 16]) -> (r: i32)
    requires
        base + 16 <= flat_vec@.len(),
        forall|i: int|
            0 <= i < 16 ==> -46340 <= #[trigger] flat_vec@[base + i] - q@[i] <= 46340,
    ensures
        r == wrap32(plain_difference_squares(flat_vec@, base as int, q@, 16)),
{
    let mut acc: i32 = 0;
    let mut i: usize = 0;
    while i < 16
        invariant
            i <= 16,
            base + 16 <= flat_vec.len(),
            forall|i: int|
                0 <= i < 16 ==> -46340 <= #[trigger] flat_vec@[base + i] - q@[i] <= 46340,
            acc == wrap32(plain_difference_squares(flat_vec@, base as int, q@, i as int)),
        decreases 16 - i,
    {
        let d: i32 = flat_vec[base + i] as i32 - q[i] as i32;
        assert(-46340 <= flat_vec@[base + i] - q@[i as int] <= 46340);
        assert(0 <= d * d <= 46340 * 46340) by (nonlinear_arith)
            requires
                -46340 <= d <= 46340,
        ;
        proof {
            lemma_wrap32_add(
                plain_difference_squares(flat_vec@, base as int, q@, i as int),
                acc,
                (d * d) as i32,
            );
        }
        acc = acc.wrapping_add(d * d);
        i = i + 1;
    }
    acc
}

/// The squares of the first `n` differences, none of them wrapped.
pub open spec fn plain_difference_squares(v: Seq<i16>, base: int, q: Seq<i16>, n: int) -> int
    decreases n,
{
    if n <= 0 {
        0
    } else {
        plain_difference_squares(v, base, q, n - 1) + square(v[base + n - 1] - q[n - 1])
    }
}

/// How far `x` is from the range from `lo` to `hi`, not wrapped.
pub open spec fn plain_gap(lo: int, hi: int, x: int) -> int {
    if x < lo {
        lo - x
    } else if x > hi {
        x - hi
    } else {
        0
    }
}

/// The squares of the gaps of a lane, none of them wrapped.
pub open spec fn plain_lane_gap_squares(
    lo: Seq<i16>,
    hi: Seq<i16>,
    l: int,
    q: Seq<i16>,
    n: int,
) -> int
    decreases n,
{
    if n <= 0 {
        0
    } else {
        plain_lane_gap_squares(lo, hi, l, q, n - 1) + square(
            plain_gap(lo[lane(l, n - 1)] as int, hi[lane(l, n - 1)] as int, q[n - 1] as int),
        )
    }
}

fn positive(x: i16) -> (r: i16)
    ensures
        r == positive_part(x as int),
{
    if x > 0 {
        x
    } else {
        0
    }
}

/// The lower bounds of the distances to eight boxes whose corners stand side
/// by side, at the start of the slices.
pub fn compute_cluster_batch8(min_soa: &[i16], max_soa: &[i16], q: &[i16; 16], lbs: &mut [i32; 8])
    requires
        min_soa@.len() >= 112,
        max_soa@.len() >= 112,
    ensures
        forall|l: int|
            0 <= l < 8 ==> #[trigger] final(lbs)@[l] == wrap32(
                lane_gap_squares(min_soa@, max_soa@, l, q@, N_DIMS as int),
            ),
{
    let mut l: usize = 0;
    while l < 8
        invariant
            l <= 8,
            min_soa@.len() >= 112,
            max_soa@.len() >= 112,
            forall|m: int|
                0 <= m < l ==> #[trigger] lbs@[m] == wrap32(
                    lane_gap_squares(min_soa@, max_soa@, m, q@, N_DIMS as int),
                ),
        decreases 8 - l,
    {
        let mut acc: i32 = 0;
        let mut d: usize = 0;
        while d < N_DIMS
            invariant
                d <= N_DIMS,
                l < 8,
                min_soa@.len() >= 112,
                max_soa@.len() >= 112,
                acc == wrap32(lane_gap_squares(min_soa@, max_soa@, l as int, q@, d as int)),
            decreases N_DIMS - d,
        {
            let at: usize = d / 2 * 16 + l * 2 + d % 2;
            assert(at == lane(l as int, d as int));
            let below = positive(min_soa[at].wrapping_sub(q[d]));
            let above = positive(q[d].wrapping_sub(max_soa[at]));
            proof {
                lemma_wrap16_sub(min_soa@[at as int], q@[d as int]);
                lemma_wrap16_sub(q@[d as int], max_soa@[at as int]);
            }
            let g = below.wrapping_add(above);
            assert(g == gap(min_soa@[at as int], max_soa@[at as int], q@[d as int]));
            acc = add_square(
                acc,
                Ghost(lane_gap_squares(min_soa@, max_soa@, l as int, q@, d as int)),
                g,
            );
            d = d + 1;
        }
        lbs[l] = acc;
        l = l + 1;
    }
}

/// The same lower bounds, where no gap is over 46340 and can be squared in 32
/// bits.
pub fn compute_cluster_batch8_scalar(
    min_soa: &[i16],
    max_soa: &[i16],
    q: &[i16; 16],
    lbs: &mut [i32; 8],
)
    requires
        min_soa@.len() >= 112,
        max_soa@.len() >= 112,
        forall|l: int, d: int|
            0 <= l < 8 && 0 <= d < N_DIMS ==> #[trigger] plain_gap(
                min_soa@[lane(l, d)] as int,
                max_soa@[lane(l, d)] as int,
                q@[d] as int,
            ) <= 46340,
    ensures
        forall|l: int|
            0 <= l < 8 ==> #[trigger] final(lbs)@[l] == wrap32(
                plain_lane_gap_squares(min_soa@, max_soa@, l, q@, N_DIMS as int),
            ),
{
    let mut l: usize = 0;
    while l < 8
        invariant
            l <= 8,
            min_soa@.len() >= 112,
            max_soa@.len() >= 112,
            forall|l: int, d: int|
                0 <= l < 8 && 0 <= d < N_DIMS ==> #[trigger] plain_gap(
                    min_soa@[lane(l, d)] as int,
                    max_soa@[lane(l, d)] as int,
                    q@[d] as int,
                ) <= 46340,
            forall|m: int|
                0 <= m < l ==> #[trigger] lbs@[m] == wrap32(
                    plain_lane_gap_squares(min_soa@, max_soa@, m, q@, N_DIMS as int),
                ),
        decreases 8 - l,
    {
        let mut acc: i32 = 0;
        let mut d: usize = 0;
        while d < N_DIMS
            invariant
                d <= N_DIMS,
                l < 8,
                min_soa@.len() >= 112,
                max_soa@.len() >= 112,
                forall|l: int, d: int|
                    0 <= l < 8 && 0 <= d < N_DIMS ==> #[trigger] plain_gap(
                        min_soa@[lane(l, d)] as int,
                        max_soa@[lane(l, d)] as int,
                        q@[d] as int,
                    ) <= 46340,
                acc == wrap32(plain_lane_gap_squares(min_soa@, max_soa@, l as int, q@, d as int)),
            decreases N_DIMS - d,
        {
            let at: usize = d / 2 * 16 + l * 2 + d % 2;
            assert(at == lane(l as int, d as int));
            let lo: i32 = min_soa[at] as i32;
            let hi: i32 = max_soa[at] as i32;
            let qd: i32 = q[d] as i32;
            let g: i32 = if qd < lo {
                lo - qd
            } else if qd > hi {
                qd - hi
            } else {
                0
            };
            assert(g == plain_gap(
                min_soa@[lane(l as int, d as int)] as int,
                max_soa@[lane(l as int, d as int)] as int,
                q@[d as int] as int,
            ));
            assert(0 <= g * g <= 46340 * 46340) by (nonlinear_arith)
                requires
                    0 <= g <= 46340,
            ;
            proof {
                lemma_wrap32_add(
                    plain_lane_gap_squares(min_soa@, max_soa@, l as int, q@, d as int),
                    acc,
                    (g * g) as i32,
                );
            }
            acc = acc.wrapping_add(g * g);
            d = d + 1;
        }
        lbs[l] = acc;
        l = l + 1;
    }
}

/// The nearest vectors found so far: their keys and labels, in no order, and
/// the greatest of the keys.
#[verifier::ext_equal]
pub struct Nearest {
    pub keys: Seq<i64>,
    pub labels: Seq<u8>,
    pub worst: i64,
}

/// Nothing found yet.
pub open spec fn none_found() -> Nearest {
    Nearest {
        keys: Seq::new(K_NEIGHBORS as nat, |i: int| i64::MAX),
        labels: Seq::new(K_NEIGHBORS as nat, |i: int| 0u8),
        worst: i64::MAX,
    }
}

/// The last of the places that hold the greatest key.
pub open spec fn worst_place(keys: Seq<i64>) -> int
    decreases keys.len(),
{
    if keys.len() <= 1 {
        0
    } else {
        let w = worst_place(keys.drop_last());
        if keys.last() >= keys[w] {
            keys.len() - 1
        } else {
            w
        }
    }
}

/// The least of some values.
pub open spec fn least(s: Seq<i64>) -> i64
    decreases s.len(),
{
    if s.len() == 0 {
        i64::MAX
    } else if s.len() == 1 {
        s[0]
    } else if s.last() < least(s.drop_last()) {
        s.last()
    } else {
        least(s.drop_last())
    }
}

impl Nearest {
    /// Puts a vector in the place of the worst one.
    pub open spec fn replace_worst(self, key: i64, label: u8) -> Nearest {
        let w = worst_place(self.keys);
        let keys = self.keys.update(w, key);
        Nearest {
            keys: keys,
            labels: self.labels.update(w, label),
            worst: keys[worst_place(keys)],
        }
    }
}

/// A vector's key: the distance, and below it the vector's number.
pub open spec fn key_of(dist: int, vi: int) -> i64 {
    ((((dist as i32) as u32) as i64) << IDX_BITS) | (vi as i64)
}

/// A cluster's rank: the lower bound of its distances, and below it the
/// cluster's number. A bound that came out negative counts as very far.
pub open spec fn rank_of(lb: int, c: int) -> i64 {
    ((if lb < 0 {
        i64::MAX >> CID_BITS
    } else {
        lb as i64
    }) << CID_BITS) | (c as i64)
}

impl IvfIndex {
    /// The key of a vector.
    pub open spec fn key(&self, q: Seq<i16>, vi: int) -> i64 {
        key_of(distance(self.flat_vec@, vi * 16, q), vi)
    }

    /// The lower bound of the distances to a cluster's vectors.
    pub open spec fn bound(&self, q: Seq<i16>, c: int) -> int {
        wrap32(gap_squares(self.bbox_min@, self.bbox_max@, c * 16, q, N_DIMS as int))
    }

    /// The ranks of all clusters.
    pub open spec fn ranks(&self, q: Seq<i16>) -> Seq<i64> {
        Seq::new(self.n_clusters as nat, |c: int| rank_of(self.bound(q, c), c))
    }

    /// What is found after the vectors from `start` to `end`. A vector whose
    /// key is below the worst so far takes the place of the worst one.
    pub open spec fn scanned(
        &self,
        q: Seq<i16>,
        found: Nearest,
        start: int,
        end: int,
    ) -> Nearest
        decreases end - start,
    {
        if end <= start {
            found
        } else {
            let before = self.scanned(q, found, start, end - 1);
            if self.key(q, end - 1) >= before.worst {
                before
            } else {
                before.replace_worst(self.key(q, end - 1), self.labels@[end - 1])
            }
        }
    }

    /// What is found after the vectors of a cluster.
    pub open spec fn scanned_cluster(&self, q: Seq<i16>, c: int, found: Nearest) -> Nearest {
        self.scanned(
            q,
            found,
            self.cluster_offsets@[c] as int,
            self.cluster_offsets@[c + 1] as int,
        )
    }

    /// What is found after clusters in the order of their ranks. `ranks` has
    /// `i64::MAX` for those that were visited. The search ends after `left`
    /// more clusters, when none remains, or when the next cluster cannot hold
    /// anything nearer than the worst.
    pub open spec fn probed(
        &self,
        q: Seq<i16>,
        ranks: Seq<i64>,
        found: Nearest,
        left: int,
    ) -> Nearest
        decreases left,
    {
        let best = least(ranks);
        if best == i64::MAX || (best >> CID_BITS) << IDX_BITS >= found.worst {
            found
        } else {
            let c = (best & CID_MASK) as int;
            let next = self.scanned_cluster(q, c, found);
            if left <= 1 {
                next
            } else {
                self.probed(q, ranks.update(c, i64::MAX), next, left - 1)
            }
        }
    }

    /// What a search finds that visits at most `max_probes` clusters, and one
    /// in any case.
    pub open spec fn found(&self, q: Seq<i16>, max_probes: int) -> Nearest {
        self.probed(q, self.ranks(q), none_found(), max_probes)
    }

    /// The labels that a search comes back with: those of the first clusters,
    /// unless they sum up to neither none nor all; then those of all clusters.
    pub open spec fn found_labels(&self, q: Seq<i16>) -> Seq<u8> {
        let first = self.found(q, N_PROBE_INITIAL as int).labels;
        if N_PROBE_REPAIR_MIN <= label_sum(first) <= N_PROBE_REPAIR_MAX {
            self.found(q, self.n_clusters as int).labels
        } else {
            first
        }
    }
}

pub open spec fn label_sum(labels: Seq<u8>) -> int
    decreases labels.len(),
{
    if labels.len() == 0 {
        0
    } else {
        label_sum(labels.drop_last()) + labels.last()
    }
}

/// The nearest vectors found so far.
#[derive(Debug, Clone, Copy)]
pub struct TopK {
    pub keys: [i64; 5],
    pub labels: [u8; 5],
    pub worst: i64,
}

impl View for TopK {
    type V = Nearest;

    open spec fn view(&self) -> Nearest {
        Nearest { keys: self.keys@, labels: self.labels@, worst: self.worst }
    }
}

impl TopK {
    /// Nothing found yet.
    pub fn new() -> (r: TopK)
        ensures
            r@ == none_found(),
    {
        let r = TopK { keys: [i64::MAX; 5], labels: [0; 5], worst: i64::MAX };
        assert(r@ =~= none_found());
        r
    }

    fn replace_worst(&mut self, key: i64, label: u8)
        ensures
            final(self)@ == old(self)@.replace_worst(key, label),
    {
        let w = find_worst(&self.keys);
        self.keys[w] = key;
        self.labels[w] = label;
        self.worst = self.keys[find_worst(&self.keys)];
    }
}

fn find_worst(keys: &[i64; 5]) -> (r: usize)
    ensures
        r == worst_place(keys@),
        r < 5,
{
    let mut w: usize = 0;
    let mut i: usize = 1;
    while i < 5
        invariant
            1 <= i <= 5,
            w < i,
            w == worst_place(keys@.take(i as int)),
        decreases 5 - i,
    {
        assert(keys@.take(i + 1).drop_last() =~= keys@.take(i as int));
        if keys[i] >= keys[w] {
            w = i;
        }
        i = i + 1;
    }
    assert(keys@.take(5) =~= keys@);
    w
}

fn find_least(s: &Vec<i64>) -> (r: i64)
    ensures
        r == least(s@),
{
    if s.len() == 0 {
        return i64::MAX;
    }
    let mut best: i64 = s[0];
    let mut i: usize = 1;
    assert(s@.take(1)[0] == s@[0]);
    while i < s.len()
        invariant
            1 <= i <= s@.len(),
            best == least(s@.take(i as int)),
        decreases s@.len() - i,
    {
        assert(s@.take(i + 1).drop_last() =~= s@.take(i as int));
        if s[i] < best {
            best = s[i];
        }
        i = i + 1;
    }
    assert(s@.take(i as int) =~= s@);
    best
}

fn sum_labels(labels: &[u8; 5]) -> (r: u16)
    ensures
        r == label_sum(labels@),
{
    let mut sum: u16 = 0;
    let mut i: usize = 0;
    while i < 5
        invariant
            i <= 5,
            sum == label_sum(labels@.take(i as int)),
            sum <= 0xff * i,
        decreases 5 - i,
    {
        assert(labels@.take(i + 1).drop_last() =~= labels@.take(i as int));
        sum = sum + labels[i] as u16;
        i = i + 1;
    }
    assert(labels@.take(5) =~= labels@);
    sum
}

pub proof fn lemma_least(s: Seq<i64>)
    requires
        s.len() > 0,
    ensures
        exists|i: int| 0 <= i < s.len() && s[i] == least(s),
        forall|i: int| 0 <= i < s.len() ==> least(s) <= #[trigger] s[i],
    decreases s.len(),
{
    if s.len() == 1 {
        assert(s[0] == least(s));
    } else {
        let t = s.drop_last();
        lemma_least(t);
        if s.last() < least(t) {
            assert(s[s.len() - 1] == least(s));
        } else {
            let i = choose|i: int| 0 <= i < t.len() && t[i] == least(t);
            assert(s[i] == least(s));
        }
        assert forall|i: int| 0 <= i < s.len() implies least(s) <= #[trigger] s[i] by {
            if i < t.len() {
                assert(t[i] == s[i]);
            }
        }
    }
}

/// A rank gives back the cluster's number and, where it was not negative, the
/// bound.
pub proof fn lemma_rank(lb: i64, c: i64)
    requires
        0 <= lb <= i64::MAX >> CID_BITS,
        0 <= c < 4096,
    ensures
        ((lb << CID_BITS) | c) & CID_MASK == c,
        ((lb << CID_BITS) | c) >> CID_BITS == lb,
{
    assert(((lb << 12u32) | c) & 0xfff == c && ((lb << 12u32) | c) >> 12u32 == lb) by (bit_vector)
        requires
            0 <= lb <= 0x7fff_ffff_ffff_ffffi64 >> 12u32,
            0 <= c < 4096,
    ;
}

#[verifier::spinoff_prover]
proof fn lemma_lane_is_cluster(
    ix: &IvfIndex,
    q: Seq<i16>,
    lo: Seq<i16>,
    hi: Seq<i16>,
    g: int,
    l: int,
    n: int,
)
    requires
        ix.wf(),
        0 <= g,
        0 <= l < 8,
        g * 8 + l < ix.n_clusters,
        0 <= n <= N_DIMS,
        g * 112 + 112 <= ix.bpsoa_min@.len(),
        lo == ix.bpsoa_min@.subrange(g * 112, g * 112 + 112),
        hi == ix.bpsoa_max@.subrange(g * 112, g * 112 + 112),
    ensures
        lane_gap_squares(lo, hi, l, q, n) == gap_squares(
            ix.bbox_min@,
            ix.bbox_max@,
            (g * 8 + l) * 16,
            q,
            n,
        ),
    decreases n,
{
    if n > 0 {
        lemma_lane_is_cluster(ix, q, lo, hi, g, l, n - 1);
        let c = g * 8 + l;
        let k = ix.n_clusters as int;
        let at = lane(l, n - 1);
        assert(c / 8 == g && c % 8 == l && l / 8 == 0 && l % 8 == l);
        assert(lane(c, n - 1) == g * 112 + at);
        assert(0 <= at < 112);
        lanes_hold_the_corners(ix.bbox_min@, k, i16::MAX, c, n - 1);
        lanes_hold_the_corners(ix.bbox_max@, k, i16::MIN, c, n - 1);
        assert(lo[at] == ix.bbox_min@[c * 16 + (n - 1)]);
        assert(hi[at] == ix.bbox_max@[c * 16 + (n - 1)]);
    }
}

impl IvfIndex {
    fn rank_clusters(&self, q: &[i16; 16]) -> (r: Vec<i64>)
        requires
            self.wf(),
        ensures
            r@ == self.ranks(q@),
    {
        let mut ranks: Vec<i64> = Vec::new();
        let n_groups: usize = (self.n_clusters + 7) / 8;
        let mut lbs: [i32; 8] = [0; 8];
        let mut g: usize = 0;
        while g < n_groups
            invariant
                self.wf(),
                g <= n_groups,
                n_groups == (self.n_clusters + 7) / 8,
                ranks@.len() == (if g < n_groups {
                    g * 8
                } else {
                    self.n_clusters as int
                }),
                forall|c: int| 0 <= c < ranks@.len() ==> #[trigger] ranks@[c] == self.ranks(q@)[c],
            decreases n_groups - g,
        {
            let off: usize = g * 112;
            let lo = &self.bpsoa_min[off..off + 112];
            let hi = &self.bpsoa_max[off..off + 112];
            compute_cluster_batch8(lo, hi, q, &mut lbs);
            let mut l: usize = 0;
            while l < 8 && g * 8 + l < self.n_clusters
                invariant
                    self.wf(),
                    g < n_groups,
                    n_groups == (self.n_clusters + 7) / 8,
                    l <= 8,
                    g * 8 + l <= self.n_clusters,
                    ranks@.len() == g * 8 + l,
                    lo@ == self.bpsoa_min@.subrange(g * 112, g * 112 + 112),
                    hi@ == self.bpsoa_max@.subrange(g * 112, g * 112 + 112),
                    forall|m: int|
                        0 <= m < 8 ==> #[trigger] lbs@[m] == wrap32(
                            lane_gap_squares(lo@, hi@, m, q@, N_DIMS as int),
                        ),
                    forall|c: int|
                        0 <= c < ranks@.len() ==> #[trigger] ranks@[c] == self.ranks(q@)[c],
                decreases 8 - l,
            {
                let c: usize = g * 8 + l;
                let lb: i64 = if lbs[l] < 0 {
                    i64::MAX >> CID_BITS
                } else {
                    lbs[l] as i64
                };
                proof {
                    lemma_lane_is_cluster(
                        self,
                        q@,
                        lo@,
                        hi@,
                        g as int,
                        l as int,
                        N_DIMS as int,
                    );
                }
                ranks.push((lb << CID_BITS) | c as i64);
                l = l + 1;
            }
            g = g + 1;
        }
        assert(ranks@ =~= self.ranks(q@));
        ranks
    }

    /// Looks through the vectors of a cluster. Where vectors are no more than
    /// their numbers tell apart, and none of the cluster has a place yet, the
    /// five least keys of the cluster and of what was found stay.
    pub fn scan_cluster(&self, cid: usize, q: &[i16; 16], top: &mut TopK)
        requires
            self.wf(),
            self.clusters_fit(),
            cid < self.n_clusters,
        ensures
            final(top)@ == self.scanned_cluster(q@, cid as int, old(top)@),
            self.can_scan(q@, cid as int, old(top)@) ==> self.keeps_least(
                q@,
                old(top)@,
                final(top)@,
                self.cluster_offsets@[cid as int] as int,
                self.cluster_offsets@[cid + 1] as int,
            ) && self.keeps_the_least_of_all(q@, cid as int, old(top)@, final(top)@),
    {
        proof {
            if self.can_scan(q@, cid as int, top@) {
                scanning_a_cluster_keeps_the_least(self, q@, cid as int, top@);
            }
        }
        let start: usize = self.cluster_offsets[cid] as usize;
        let end: usize = self.cluster_offsets[cid + 1] as usize;
        let mut vi: usize = start;
        let ghost before = top@;
        while vi < end
            invariant
                self.wf(),
                start <= vi,
                vi <= end || start >= end,
                start < end ==> end <= self.n_vectors,
                start >= end ==> vi == start,
                top@ == self.scanned(q@, before, start as int, vi as int),
            decreases end - vi,
        {
            assert(vi * 16 + 16 <= self.flat_vec.len());
            let dist = dist_l2_i16q(&self.flat_vec, vi * 16, q);
            let key: i64 = ((dist as u32 as i64) << IDX_BITS) | vi as i64;
            if key < top.worst {
                top.replace_worst(key, self.labels[vi]);
            }
            vi = vi + 1;
        }
    }

    /// Looks through at most `max_probes` clusters, and one in any case. Through
    /// all clusters it finds the five nearest vectors and no others.
    pub fn search_core(&self, q: &[i16; 16], max_probes: usize) -> (r: TopK)
        requires
            self.wf(),
            self.clusters_fit(),
        ensures
            r@ == self.found(q@, max_probes as int),
            self.is_sound_for(q@) && max_probes >= self.n_clusters
                ==> self.places_the_five_nearest(q@, r@),
    {
        proof {
            if self.is_sound_for(q@) && max_probes >= self.n_clusters {
                the_five_nearest_have_the_places(self, q@, max_probes as int);
            }
        }
        let mut ranks = self.rank_clusters(q);
        let mut top = TopK::new();
        let mut left: usize = max_probes;
        proof {
            assert forall|c: int| 0 <= c < ranks@.len() implies #[trigger] ranks@[c] & CID_MASK
                == c by {
                self.lemma_rank_of(q@, c);
            }
        }
        loop
            invariant
                self.wf(),
                self.clusters_fit(),
                ranks@.len() == self.n_clusters,
                forall|c: int|
                    0 <= c < ranks@.len() ==> #[trigger] ranks@[c] == i64::MAX || ranks@[c]
                        & CID_MASK == c,
                self.is_sound_for(q@) && max_probes >= self.n_clusters
                    ==> self.places_the_five_nearest(q@, self.found(q@, max_probes as int)),
                self.found(q@, max_probes as int) == self.probed(
                    q@,
                    ranks@,
                    top@,
                    left as int,
                ),
            decreases left,
        {
            let best = find_least(&ranks);
            if best == i64::MAX {
                return top;
            }
            let best_lb: i64 = best >> CID_BITS;
            if best_lb << IDX_BITS >= top.worst {
                return top;
            }
            proof {
                lemma_least(ranks@);
                let c = choose|c: int| 0 <= c < ranks@.len() && ranks@[c] == best;
                assert(ranks@[c] & CID_MASK == c);
            }
            let cid: usize = (best & CID_MASK) as usize;
            ranks[cid] = i64::MAX;
            self.scan_cluster(cid, q, &mut top);
            if left <= 1 {
                return top;
            }
            left = left - 1;
        }
    }

    proof fn lemma_rank_of(&self, q: Seq<i16>, c: int)
        requires
            self.wf(),
            0 <= c < self.n_clusters,
        ensures
            self.ranks(q)[c] & CID_MASK == c,
            self.bound(q, c) >= 0 ==> self.ranks(q)[c] >> CID_BITS == self.bound(q, c),
            self.bound(q, c) < 0 ==> self.ranks(q)[c] >> CID_BITS == i64::MAX >> CID_BITS,
    {
        let b = self.bound(q, c);
        let far = i64::MAX >> CID_BITS;
        assert(0x7fff_ffff_ffff_ffffi64 >> 12u32 == 0x7_ffff_ffff_ffffi64) by (bit_vector);
        let lb = if b < 0 {
            far
        } else {
            b as i64
        };
        lemma_rank(lb, c as i64);
    }

    /// How many of the nearest vectors carry a fraud label, where labels are 0
    /// and 1: the sum of the labels that the search comes back with. A sum
    /// that does not fit in a byte wraps around. The five nearest in the first
    /// twelve clusters are counted, and where one to four of them are fraud, the
    /// five nearest of all vectors.
    pub fn search(&self, q: &[i16; 16]) -> (r: u8)
        requires
            self.wf(),
            self.clusters_fit(),
        ensures
            r == label_sum(self.found_labels(q@)) % 0x100,
            self.is_sound_for(q@) && self.has_binary_labels() && 1 <= r <= 4 ==> r
                == self.nearest_votes(q@),
            self.is_sound_for(q@) && self.has_binary_labels() ==> r == (if 1 <= self.first_votes(
                q@,
                12,
            ) <= 4 {
                self.nearest_votes(q@)
            } else {
                self.first_votes(q@, 12)
            }),
    {
        proof {
            if self.is_sound_for(q@) && self.has_binary_labels() {
                a_search_counts_to_five(self, q@);
                open_answers_are_exact(self, q@);
                answers_follow_the_first_look(self, q@);
            }
        }
        let first = self.search_core(q, N_PROBE_INITIAL);
        let count: usize = sum_labels(&first.labels) as usize;
        if N_PROBE_REPAIR_MIN <= count && count <= N_PROBE_REPAIR_MAX {
            let all = self.search_core(q, self.n_clusters);
            return (sum_labels(&all.labels) % 0x100) as u8;
        }
        (count % 0x100) as u8
    }
}

/// The index that answers for a tag: its own, or else the one for the tag
/// without the bit of the card, or else the one without the bit of the online
/// terminal too.
pub open spec fn answering_slot(table: IndexTable, tag: int) -> Option<int> {
    let without_card = if tag >= 8 {
        tag - 8
    } else {
        tag
    };
    let without_online = if without_card >= 4 {
        without_card - 4
    } else {
        without_card
    };
    if table.slots@[tag] is Some {
        Some(tag)
    } else if table.slots@[without_card] is Some {
        Some(without_card)
    } else if table.slots@[without_online] is Some {
        Some(without_online)
    } else {
        None
    }
}

/// The search in the index that answers for a tag; 0 where none does.
pub fn search_with_fallback(table: &IndexTable, tag: usize, q: &[i16; 16]) -> (r: u8)
    requires
        table.wf(),
        table.clusters_fit(),
        tag < N_TAGS,
    ensures
        r == (match answering_slot(*table, tag as int) {
            Some(t) => label_sum(table.slots@[t]->0.found_labels(q@)) % 0x100,
            None => 0,
        }),
{
    if let Some(ix) = table.index_for_tag(tag) {
        return ix.search(q);
    }
    let tag2: usize = tag & !0b1000;
    assert(tag & !0b1000usize == (if tag >= 8 {
        tag - 8
    } else {
        tag as int
    })) by (bit_vector)
        requires
            tag < 16,
    ;
    if let Some(ix) = table.index_for_tag(tag2) {
        return ix.search(q);
    }
    let tag3: usize = tag2 & !0b0100;
    assert(tag2 & !0b0100usize == (if tag2 >= 4 {
        tag2 - 4
    } else {
        tag2 as int
    })) by (bit_vector)
        requires
            tag2 < 8,
    ;
    if let Some(ix) = table.index_for_tag(tag3) {
        return ix.search(q);
    }
    0
}

} // verus!
