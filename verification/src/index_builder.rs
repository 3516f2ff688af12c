//! Building an index file: the parts of the clustering that are not fractions,
//! and the file's bytes.
//!
//! A file of the first format starts with the bytes "IVF1" and the numbers of
//! vectors, clusters and dimensions. The clusters' centres follow, dimension by
//! dimension, then where each cluster's blocks start, the labels and the
//! blocks. A block holds eight vectors, the values of a dimension side by side;
//! a cluster's last block is filled up with zeros.

use vstd::prelude::*;

use crate::le::{
    are_i16, are_u32, i16_at, i16_bytes, i16_read_back, push_i16, push_u32, u32_at, u32_bytes,
    u32_read_back,
};
use crate::repository::ivf::{self, IvfIndex, LoadError};
use crate::scan::occurs_at;
use crate::single::{has_no_value, is_nan, numbers_compare, order, order_key};

verus! {

/// How many dimensions a vector has.
pub const D: usize = 14;

/// The bits of infinity.
pub const INFINITY: u32 = 0x7f80_0000;

pub const LCG_FACTOR: u64 = 6364136223846793005;

pub const LCG_STEP: u64 = 1442695040888963407;

/// The generator's next state.
pub open spec fn next_state(state: u64) -> int {
    (state * LCG_FACTOR + LCG_STEP) % 0x1_0000_0000_0000_0000
}

proof fn lemma_wrapped_sum(p: int, r: int, c: int, next: int)
    requires
        r == p % 0x1_0000_0000_0000_0000,
        0 <= c < 0x1_0000_0000_0000_0000,
        next == (if r + c >= 0x1_0000_0000_0000_0000 {
            r + c - 0x1_0000_0000_0000_0000
        } else {
            r + c
        }),
    ensures
        next == (p + c) % 0x1_0000_0000_0000_0000,
{
}

/// Steps the generator: gives its next state and the number drawn, which is
/// the state's upper 31 bits.
pub fn lcg(state: u64) -> (r: (u64, u32))
    ensures
        r.0 == next_state(state),
        r.1 == next_state(state) / 0x2_0000_0000,
{
    let product = state.wrapping_mul(LCG_FACTOR);
    let next = product.wrapping_add(LCG_STEP);
    proof {
        lemma_wrapped_sum(state * LCG_FACTOR, product as int, LCG_STEP as int, next as int);
        assert(next >> 33u64 == next / 0x2_0000_0000) by (bit_vector);
    }
    (next, (next >> 33u64) as u32)
}

/// The distance between sampled vectors.
pub open spec fn sample_step(len: int, sample: int) -> int {
    if len / sample > 1 {
        len / sample
    } else {
        1
    }
}

/// Which vectors are sampled: every one at the sample step, up to `sample` of
/// them.
pub fn sample_indices(len: usize, sample: usize) -> (r: Vec<usize>)
    requires
        0 < sample,
    ensures
        forall|i: int| 0 <= i < r@.len() ==> #[trigger] r@[i] == i * sample_step(
            len as int,
            sample as int,
        ),
        r@.len() <= sample,
        r@.len() == sample || r@.len() * sample_step(len as int, sample as int) >= len,
        r@.len() > 0 ==> (r@.len() - 1) * sample_step(len as int, sample as int) < len,
{
    let step: usize = if len / sample > 1 {
        len / sample
    } else {
        1
    };
    let mut out: Vec<usize> = Vec::new();
    let mut at: usize = 0;
    let mut done = len == 0;
    proof {
        assert(0 * step == 0) by (nonlinear_arith);
    }
    while !done && out.len() < sample
        invariant
            step == sample_step(len as int, sample as int),
            step >= 1,
            0 < sample,
            out@.len() <= sample,
            forall|i: int| 0 <= i < out@.len() ==> #[trigger] out@[i] == i * step,
            !done ==> at == out@.len() * step && at < len,
            done ==> out@.len() * step >= len,
            out@.len() > 0 ==> (out@.len() - 1) * step < len,
        decreases sample - out@.len(),
    {
        out.push(at);
        proof {
            let n = out@.len() as int;
            assert(n * step == (n - 1) * step + step) by (nonlinear_arith);
        }
        if len - at <= step {
            done = true;
        } else {
            at = at + step;
        }
    }
    out
}

/// How many vectors each of `threads` threads takes.
pub fn chunk_size(n: usize, threads: usize) -> (r: usize)
    requires
        0 < threads,
        n + threads <= usize::MAX,
    ensures
        r == (n + threads - 1) / threads as int,
        r * threads >= n,
        n > 0 ==> (r - 1) * threads < n,
{
    let r: usize = (n + threads - 1) / threads;
    proof {
        let x = (n + threads - 1) as int;
        vstd::arithmetic::div_mod::lemma_fundamental_div_mod(x, threads as int);
        vstd::arithmetic::div_mod::lemma_mod_bound(x, threads as int);
        assert(r * threads == threads * (x / threads as int)) by (nonlinear_arith)
            requires
                r == x / threads as int,
        ;
        assert((r - 1) * threads == r * threads - threads) by (nonlinear_arith);
    }
    r
}

/// Whether `a` is nearer than `b`; what is no number is not nearer, nor is
/// anything nearer than it.
pub open spec fn is_nearer(a: u32, b: u32) -> bool {
    !is_nan(a) && !is_nan(b) && order(a) < order(b)
}

/// The first of the nearest among the first `n`, or 0 where none is nearer
/// than infinity, and how far it is.
pub open spec fn nearest_of(dists: Seq<u32>, n: int) -> (int, u32)
    decreases n,
{
    if n <= 0 {
        (0, INFINITY)
    } else {
        let (best, dist) = nearest_of(dists, n - 1);
        if is_nearer(dists[n - 1], dist) {
            (n - 1, dists[n - 1])
        } else {
            (best, dist)
        }
    }
}

/// The centre that is nearest, the first among equals. `dists` holds the
/// distances by their bits.
pub fn nearest_centroid(dists: &[u32]) -> (r: usize)
    ensures
        r == nearest_of(dists@, dists@.len() as int).0,
{
    let mut best: usize = 0;
    let mut dist: u32 = INFINITY;
    let mut i: usize = 0;
    while i < dists.len()
        invariant
            i <= dists@.len(),
            nearest_of(dists@, i as int) == (best as int, dist),
        decreases dists@.len() - i,
    {
        let d = dists[i];
        if !has_no_value(d) && !has_no_value(dist) && order_key(d) < order_key(dist) {
            best = i;
            dist = d;
        }
        i = i + 1;
    }
    best
}

/// No centre is nearer than the nearest, and where one is nearer than infinity,
/// the nearest is the first at its distance.
pub proof fn nothing_is_nearer_than_the_nearest(dists: Seq<u32>, n: int, i: int)
    requires
        0 <= i < n <= dists.len(),
    ensures
        ({
            let (best, dist) = nearest_of(dists, n);
            &&& !is_nearer(dists[i], dist)
            &&& is_nearer(dists[i], INFINITY) ==> 0 <= best < n && dists[best] == dist && (order(
                dists[i],
            ) == order(dist) ==> best <= i)
        }),
{
    lemma_nearest(dists, n, i);
}

proof fn lemma_nearest(dists: Seq<u32>, n: int, i: int)
    requires
        0 <= i < n <= dists.len(),
    ensures
        ({
            let (best, dist) = nearest_of(dists, n);
            &&& !is_nan(dist)
            &&& !is_nearer(dists[i], dist)
            &&& order(dist) <= order(INFINITY)
            &&& order(dist) < order(INFINITY) ==> 0 <= best < n && dists[best] == dist
            &&& !is_nan(dists[i]) && order(dists[i]) == order(dist) && order(dist) < order(INFINITY)
                ==> best <= i
        }),
    decreases n,
{
    let (before, dist_before) = nearest_of(dists, n - 1);
    if n - 1 > i {
        lemma_nearest(dists, n - 1, i);
    } else {
        lemma_nearest_bounds(dists, n - 1);
    }
}

proof fn lemma_nearest_bounds(dists: Seq<u32>, n: int)
    requires
        0 <= n <= dists.len(),
    ensures
        ({
            let (best, dist) = nearest_of(dists, n);
            &&& !is_nan(dist)
            &&& order(dist) <= order(INFINITY)
            &&& order(dist) < order(INFINITY) ==> 0 <= best < n && dists[best] == dist
        }),
    decreases n,
{
    if n > 0 {
        lemma_nearest_bounds(dists, n - 1);
    }
}

/// The label of a reference: 1 for what is named fraud, and 0 for the rest.
pub fn label_of(name: &String) -> (r: u8)
    ensures
        r == (if name@ == "fraud"@ {
            1u8
        } else {
            0u8
        }),
{
    let fraud = "fraud".to_owned();
    if *name == fraud {
        1
    } else {
        0
    }
}

/// Which of the first `m` vectors belong to cluster `c`, in their order.
pub open spec fn members(assignments: Seq<usize>, c: int, m: int) -> Seq<usize>
    decreases m,
{
    if m <= 0 {
        Seq::empty()
    } else if assignments[m - 1] == c {
        members(assignments, c, m - 1).push((m - 1) as usize)
    } else {
        members(assignments, c, m - 1)
    }
}

/// The members of cluster `c`.
pub open spec fn group(assignments: Seq<usize>, c: int) -> Seq<usize> {
    members(assignments, c, assignments.len() as int)
}

/// How many blocks of eight hold `len` vectors.
pub open spec fn blocks_for(len: int) -> int {
    (len + 7) / 8
}

/// Where the blocks of cluster `c` start.
pub open spec fn block_start(assignments: Seq<usize>, c: int) -> int
    decreases c,
{
    if c <= 0 {
        0
    } else {
        block_start(assignments, c - 1) + blocks_for(group(assignments, c - 1).len() as int)
    }
}

/// The labels of a cluster, eight a block, filled up with zeros.
pub open spec fn group_labels(g: Seq<usize>, labels: Seq<u8>) -> Seq<u8> {
    Seq::new(
        (8 * blocks_for(g.len() as int)) as nat,
        |p: int|
            if p < g.len() {
                labels[g[p] as int]
            } else {
                0u8
            },
    )
}

/// The vector whose value stands at `p` of a cluster's values.
pub open spec fn vector_at(p: int) -> int {
    p / 112 * 8 + p % 8
}

/// The dimension whose value stands at `p` of a cluster's values.
pub open spec fn dim_at(p: int) -> int {
    p % 112 / 8
}

/// The values of a cluster, 112 a block, filled up with zeros.
pub open spec fn group_values(g: Seq<usize>, values: Seq<[i16; 14]>) -> Seq<i16> {
    Seq::new(
        (112 * blocks_for(g.len() as int)) as nat,
        |p: int|
            if vector_at(p) < g.len() {
                values[g[vector_at(p)] as int]@[dim_at(p)]
            } else {
                0i16
            },
    )
}

/// Where the blocks of the first `c` clusters start.
pub open spec fn starts(assignments: Seq<usize>, c: int) -> Seq<u32> {
    Seq::new(c as nat, |i: int| block_start(assignments, i) as u32)
}

/// The labels of the first `c` clusters.
pub open spec fn all_labels(assignments: Seq<usize>, labels: Seq<u8>, c: int) -> Seq<u8>
    decreases c,
{
    if c <= 0 {
        Seq::empty()
    } else {
        all_labels(assignments, labels, c - 1) + group_labels(group(assignments, c - 1), labels)
    }
}

/// The values of the first `c` clusters.
pub open spec fn all_values(assignments: Seq<usize>, values: Seq<[i16; 14]>, c: int) -> Seq<i16>
    decreases c,
{
    if c <= 0 {
        Seq::empty()
    } else {
        all_values(assignments, values, c - 1) + group_values(group(assignments, c - 1), values)
    }
}

/// The centres' values: all first ones, then all second ones, and so on.
pub open spec fn columns(centroids: Seq<[u32; 14]>) -> Seq<u32> {
    Seq::new(
        centroids.len() * 14,
        |p: int| centroids[p % centroids.len() as int]@[p / centroids.len() as int],
    )
}

/// The bytes of some 32-bit values.
pub open spec fn u32s_bytes(v: Seq<u32>) -> Seq<u8> {
    Seq::new(v.len() * 4, |i: int| u32_bytes(v[i / 4] as int)[i % 4])
}

/// The bytes of some 16-bit values.
pub open spec fn i16s_bytes(v: Seq<i16>) -> Seq<u8> {
    Seq::new(v.len() * 2, |i: int| i16_bytes(v[i / 2] as int)[i % 2])
}

/// The bytes that name the format: "IVF1".
pub open spec fn magic() -> Seq<u8> {
    seq![0x49u8, 0x56, 0x46, 0x31]
}

/// The header of a file.
pub open spec fn header(n: int, k: int) -> Seq<u8> {
    magic() + u32_bytes(n) + u32_bytes(k) + u32_bytes(14)
}

/// The bytes of a file.
pub open spec fn ivf1_file(
    centroids: Seq<[u32; 14]>,
    assignments: Seq<usize>,
    values: Seq<[i16; 14]>,
    labels: Seq<u8>,
    k: int,
) -> Seq<u8> {
    header(values.len() as int, k) + u32s_bytes(columns(centroids)) + u32s_bytes(
        starts(assignments, k + 1),
    ) + all_labels(assignments, labels, k) + i16s_bytes(all_values(assignments, values, k))
}

fn push_u32s(out: &mut Vec<u8>, v: &Vec<u32>)
    ensures
        final(out)@ == old(out)@ + u32s_bytes(v@),
{
    let ghost before = out@;
    let mut i: usize = 0;
    while i < v.len()
        invariant
            i <= v@.len(),
            out@ == before + u32s_bytes(v@.take(i as int)),
        decreases v@.len() - i,
    {
        push_u32(out, v[i]);
        assert(u32s_bytes(v@.take(i as int)) + u32_bytes(v@[i as int] as int) =~= u32s_bytes(
            v@.take(i + 1),
        ));
        assert(out@ =~= before + u32s_bytes(v@.take(i + 1)));
        i = i + 1;
    }
    assert(v@.take(i as int) =~= v@);
}

fn push_i16s(out: &mut Vec<u8>, v: &Vec<i16>)
    ensures
        final(out)@ == old(out)@ + i16s_bytes(v@),
{
    let ghost before = out@;
    let mut i: usize = 0;
    while i < v.len()
        invariant
            i <= v@.len(),
            out@ == before + i16s_bytes(v@.take(i as int)),
        decreases v@.len() - i,
    {
        push_i16(out, v[i]);
        assert(i16s_bytes(v@.take(i as int)) + i16_bytes(v@[i as int] as int) =~= i16s_bytes(
            v@.take(i + 1),
        ));
        assert(out@ =~= before + i16s_bytes(v@.take(i + 1)));
        i = i + 1;
    }
    assert(v@.take(i as int) =~= v@);
}

/// Sorts the vectors into their clusters.
fn make_groups(assignments: &[usize], k: usize) -> (r: Vec<Vec<usize>>)
    requires
        forall|i: int| 0 <= i < assignments@.len() ==> #[trigger] assignments@[i] < k,
    ensures
        r@.len() == k,
        forall|c: int| 0 <= c < k ==> #[trigger] r@[c]@ == group(assignments@, c),
{
    let mut groups: Vec<Vec<usize>> = Vec::new();
    let mut c: usize = 0;
    while c < k
        invariant
            c <= k,
            groups@.len() == c,
            forall|i: int| 0 <= i < c ==> #[trigger] groups@[i]@ == Seq::<usize>::empty(),
        decreases k - c,
    {
        groups.push(Vec::new());
        c = c + 1;
    }
    let mut i: usize = 0;
    while i < assignments.len()
        invariant
            i <= assignments@.len(),
            forall|i: int| 0 <= i < assignments@.len() ==> #[trigger] assignments@[i] < k,
            groups@.len() == k,
            forall|c: int|
                0 <= c < k ==> #[trigger] groups@[c]@ == members(assignments@, c, i as int),
        decreases assignments@.len() - i,
    {
        let c: usize = assignments[i];
        let ghost before = groups@;
        let mut g: Vec<usize> = Vec::new();
        std::mem::swap(&mut g, &mut groups[c]);
        g.push(i);
        groups[c] = g;
        proof {
            assert forall|j: int| 0 <= j < k implies #[trigger] groups@[j]@ == members(
                assignments@,
                j,
                i + 1,
            ) by {
                assert(before[j]@ == members(assignments@, j, i as int));
                if j == c {
                    assert(groups@[j]@ =~= before[j]@.push(i));
                } else {
                    assert(groups@[j] == before[j]);
                }
            }
        }
        i = i + 1;
    }
    groups
}

/// Members are vectors of their cluster.
pub proof fn lemma_members(assignments: Seq<usize>, c: int, m: int)
    requires
        0 <= m <= assignments.len(),
        m <= usize::MAX + 1,
    ensures
        members(assignments, c, m).len() <= m,
        forall|p: int|
            0 <= p < members(assignments, c, m).len() ==> (#[trigger] members(
                assignments,
                c,
                m,
            )[p]) < m && assignments[members(assignments, c, m)[p] as int] == c,
    decreases m,
{
    if m > 0 {
        lemma_members(assignments, c, m - 1);
    }
}

/// Every vector is in the group of its cluster, and in no other.
pub proof fn every_vector_is_in_its_group(assignments: Seq<usize>, i: int, c: int)
    requires
        0 <= i < assignments.len() <= usize::MAX,
    ensures
        group(assignments, c).contains(i as usize) <==> assignments[i] == c,
{
    lemma_members(assignments, c, assignments.len() as int);
    if assignments[i] == c {
        lemma_is_member(assignments, c, i, assignments.len() as int);
    }
}

proof fn lemma_is_member(assignments: Seq<usize>, c: int, i: int, m: int)
    requires
        0 <= i < m <= assignments.len() <= usize::MAX,
        assignments[i] == c,
    ensures
        members(assignments, c, m).contains(i as usize),
    decreases m,
{
    let g = members(assignments, c, m);
    if i == m - 1 {
        assert(g[g.len() - 1] == i);
    } else {
        lemma_is_member(assignments, c, i, m - 1);
        let before = members(assignments, c, m - 1);
        let p = choose|p: int| 0 <= p < before.len() && before[p] == i as usize;
        assert(g[p] == i as usize);
    }
}

fn push_group_labels(out: &mut Vec<u8>, g: &Vec<usize>, labels: &[u8])
    requires
        forall|p: int| 0 <= p < g@.len() ==> #[trigger] g@[p] < labels@.len(),
        blocks_for(g@.len() as int) <= u32::MAX,
    ensures
        final(out)@ == old(out)@ + group_labels(g@, labels@),
{
    let ghost before = out@;
    let ghost whole = group_labels(g@, labels@);
    let blocks: u64 = blocks_needed(g);
    let mut b: u64 = 0;
    assert(out@ =~= before + whole.take(0));
    while b < blocks
        invariant
            b <= blocks,
            blocks == blocks_for(g@.len() as int),
            blocks <= u32::MAX,
            whole == group_labels(g@, labels@),
            forall|p: int| 0 <= p < g@.len() ==> #[trigger] g@[p] < labels@.len(),
            out@ == before + whole.take(8 * b),
        decreases blocks - b,
    {
        let mut slot: u64 = 0;
        while slot < 8
            invariant
                slot <= 8,
                b < blocks,
                blocks == blocks_for(g@.len() as int),
                blocks <= u32::MAX,
                whole == group_labels(g@, labels@),
                forall|p: int| 0 <= p < g@.len() ==> #[trigger] g@[p] < labels@.len(),
                out@ == before + whole.take(8 * b + slot),
            decreases 8 - slot,
        {
            let p: u64 = 8 * b + slot;
            let label = if p < g.len() as u64 {
                labels[g[p as usize]]
            } else {
                0
            };
            assert(label == whole[p as int]);
            out.push(label);
            assert(whole.take(p as int).push(label) =~= whole.take(p + 1));
            assert(out@ =~= before + whole.take(p + 1));
            slot = slot + 1;
        }
        b = b + 1;
    }
    assert(whole.take(8 * b) =~= whole);
}

fn blocks_needed(g: &Vec<usize>) -> (r: u64)
    ensures
        r == blocks_for(g@.len() as int),
        8 * r <= g@.len() + 7,
{
    let len: u64 = g.len() as u64;
    if len % 8 == 0 {
        len / 8
    } else {
        len / 8 + 1
    }
}

fn push_group_values(out: &mut Vec<i16>, g: &Vec<usize>, values: &[[i16; 14]])
    requires
        forall|p: int| 0 <= p < g@.len() ==> #[trigger] g@[p] < values@.len(),
        blocks_for(g@.len() as int) <= u32::MAX,
    ensures
        final(out)@ == old(out)@ + group_values(g@, values@),
{
    let ghost before = out@;
    let ghost whole = group_values(g@, values@);
    let len: u64 = 112 * blocks_needed(g);
    let mut p: u64 = 0;
    assert(out@ =~= before + whole.take(0));
    while p < len
        invariant
            p <= len,
            len == 112 * blocks_for(g@.len() as int),
            len <= 112 * u32::MAX,
            whole == group_values(g@, values@),
            forall|p: int| 0 <= p < g@.len() ==> #[trigger] g@[p] < values@.len(),
            out@ == before + whole.take(p as int),
        decreases len - p,
    {
        let v: u64 = p / 112 * 8 + p % 8;
        let d: usize = (p % 112 / 8) as usize;
        let value: i16 = if v < g.len() as u64 {
            let member: usize = g[v as usize];
            values[member][d]
        } else {
            0
        };
        assert(value == whole[p as int]);
        out.push(value);
        assert(whole.take(p as int).push(value) =~= whole.take(p + 1));
        assert(out@ =~= before + whole.take(p + 1));
        p = p + 1;
    }
    assert(whole.take(p as int) =~= whole);
}

fn make_columns(centroids: &[[u32; 14]]) -> (r: Vec<u32>)
    ensures
        r@ == columns(centroids@),
{
    let n: usize = centroids.len();
    let mut out: Vec<u32> = Vec::new();
    let mut d: usize = 0;
    proof {
        assert(0 * n == 0) by (nonlinear_arith);
    }
    while d < D
        invariant
            d <= D,
            n == centroids@.len(),
            out@.len() == d * n,
            forall|p: int| 0 <= p < out@.len() ==> #[trigger] out@[p] == columns(centroids@)[p],
        decreases D - d,
    {
        let mut c: usize = 0;
        while c < n
            invariant
                d < D,
                c <= n,
                n == centroids@.len(),
                out@.len() == d * n + c,
                forall|p: int| 0 <= p < out@.len() ==> #[trigger] out@[p] == columns(centroids@)[p],
            decreases n - c,
        {
            let value: u32 = centroids[c][d];
            proof {
                let p = d * n + c;
                vstd::arithmetic::div_mod::lemma_fundamental_div_mod_converse(
                    p,
                    n as int,
                    d as int,
                    c as int,
                );
                assert(0 <= p < 14 * n) by (nonlinear_arith)
                    requires
                        p == d * n + c,
                        0 <= c < n,
                        0 <= d < 14,
                ;
                assert(columns(centroids@)[p] == value);
            }
            out.push(value);
            c = c + 1;
        }
        proof {
            assert((d + 1) * n == d * n + n) by (nonlinear_arith);
        }
        d = d + 1;
    }
    assert(14 * n == n * 14) by (nonlinear_arith);
    assert(out@ =~= columns(centroids@));
    out
}

/// The blocks of more clusters are no fewer.
pub proof fn lemma_block_start_grows(assignments: Seq<usize>, c: int, d: int)
    requires
        0 <= c <= d,
    ensures
        0 <= block_start(assignments, c) <= block_start(assignments, d),
        c < d ==> blocks_for(group(assignments, c).len() as int) <= block_start(assignments, d),
    decreases d,
{
    if d > 0 {
        if c < d {
            lemma_block_start_grows(assignments, c, d - 1);
            lemma_block_start_grows(assignments, d - 1, d - 1);
        } else {
            lemma_block_start_grows(assignments, d - 1, d - 1);
        }
    }
}

/// The bytes of an index file. The centres are given by the bits of their
/// values, the vectors by their values in ten-thousandths; `assignments` says
/// which cluster each vector belongs to.
pub fn write_ivf1(
    centroids: &[[u32; 14]],
    assignments: &[usize],
    values: &[[i16; 14]],
    labels: &[u8],
    k: usize,
) -> (r: Vec<u8>)
    requires
        forall|i: int| 0 <= i < assignments@.len() ==> #[trigger] assignments@[i] < k,
        assignments@.len() <= values@.len(),
        assignments@.len() <= labels@.len(),
        block_start(assignments@, k as int) <= u32::MAX,
    ensures
        r@ == ivf1_file(centroids@, assignments@, values@, labels@, k as int),
{
    let groups = make_groups(assignments, k);
    let mut offsets: Vec<u32> = Vec::new();
    let mut label_buf: Vec<u8> = Vec::new();
    let mut block_buf: Vec<i16> = Vec::new();
    let mut block_idx: u64 = 0;
    let mut c: usize = 0;
    while c < k
        invariant
            c <= k,
            groups@.len() == k,
            forall|i: int| 0 <= i < k ==> #[trigger] groups@[i]@ == group(assignments@, i),
            assignments@.len() <= values@.len(),
            assignments@.len() <= labels@.len(),
            assignments@.len() == assignments.len(),
            block_start(assignments@, k as int) <= u32::MAX,
            block_idx == block_start(assignments@, c as int),
            offsets@ == starts(assignments@, c as int),
            label_buf@ == all_labels(assignments@, labels@, c as int),
            block_buf@ == all_values(assignments@, values@, c as int),
        decreases k - c,
    {
        proof {
            lemma_block_start_grows(assignments@, c as int, k as int);
            lemma_members(assignments@, c as int, assignments@.len() as int);
        }
        offsets.push(block_idx as u32);
        assert(offsets@ =~= starts(assignments@, c + 1));
        let g = &groups[c];
        push_group_labels(&mut label_buf, g, labels);
        push_group_values(&mut block_buf, g, values);
        block_idx = block_idx + blocks_needed(g);
        c = c + 1;
    }
    offsets.push(block_idx as u32);
    assert(offsets@ =~= starts(assignments@, k + 1));
    let centroid_buf = make_columns(centroids);

    let mut out: Vec<u8> = Vec::new();
    out.push(0x49);
    out.push(0x56);
    out.push(0x46);
    out.push(0x31);
    assert(out@ =~= magic());
    push_count(&mut out, values.len());
    push_count(&mut out, k);
    push_count(&mut out, D);
    assert(out@ =~= header(values@.len() as int, k as int));
    push_u32s(&mut out, &centroid_buf);
    push_u32s(&mut out, &offsets);
    out.append(&mut label_buf);
    push_i16s(&mut out, &block_buf);
    out
}

/// Appends the lower 32 bits of a count.
pub(crate) fn push_count(out: &mut Vec<u8>, n: usize)
    ensures
        final(out)@ == old(out)@ + u32_bytes(n as int),
{
    let low: u32 = (n as u64 % 0x1_0000_0000) as u32;
    proof {
        lemma_low_bytes(n as int, low as int);
    }
    push_u32(out, low);
}

/// The bytes of a value are those of its lower 32 bits.
proof fn lemma_low_bytes(n: int, low: int)
    requires
        0 <= n,
        low == n % 0x1_0000_0000,
    ensures
        u32_bytes(low) == u32_bytes(n),
{
    let q = n / 0x1_0000_0000;
    assert(n == q * 0x1_0000_0000 + low);
    assert(n / 0x100 == q * 0x100_0000 + low / 0x100);
    assert(n / 0x1_0000 == q * 0x1_0000 + low / 0x1_0000);
    assert(n / 0x100_0000 == q * 0x100 + low / 0x100_0000);
    assert(n % 0x100 == low % 0x100);
    assert(n / 0x100 % 0x100 == low / 0x100 % 0x100);
    assert(n / 0x1_0000 % 0x100 == low / 0x1_0000 % 0x100);
    assert(n / 0x100_0000 % 0x100 == low / 0x100_0000 % 0x100);
    assert(u32_bytes(low) =~= u32_bytes(n));
}

proof fn lemma_section_lengths(
    assignments: Seq<usize>,
    labels: Seq<u8>,
    values: Seq<[i16; 14]>,
    c: int,
)
    requires
        0 <= c,
    ensures
        all_labels(assignments, labels, c).len() == 8 * block_start(assignments, c),
        all_values(assignments, values, c).len() == 112 * block_start(assignments, c),
    decreases c,
{
    if c > 0 {
        lemma_section_lengths(assignments, labels, values, c - 1);
        lemma_block_start_grows(assignments, c - 1, c - 1);
    }
}

proof fn lemma_u32s_at(b: Seq<u8>, start: int, v: Seq<u32>)
    requires
        0 <= start,
        start + 4 * v.len() <= b.len(),
        b.subrange(start, start + 4 * v.len()) == u32s_bytes(v),
    ensures
        are_u32(v, b, start),
{
    assert forall|i: int| 0 <= i < v.len() implies #[trigger] v[i] == u32_at(b, start + 4 * i) by {
        let at = start + 4 * i;
        let part = b.subrange(start, start + 4 * v.len());
        assert forall|j: int| 0 <= j < 4 implies #[trigger] b.subrange(at, at + 4)[j] == u32_bytes(
            v[i] as int,
        )[j] by {
            assert(part[4 * i + j] == b[at + j]);
            assert((4 * i + j) / 4 == i && (4 * i + j) % 4 == j);
        }
        assert(b.subrange(at, at + 4) =~= u32_bytes(v[i] as int));
        u32_read_back(b, at, v[i] as int);
    }
}

proof fn lemma_i16s_at(b: Seq<u8>, start: int, v: Seq<i16>)
    requires
        0 <= start,
        start + 2 * v.len() <= b.len(),
        b.subrange(start, start + 2 * v.len()) == i16s_bytes(v),
    ensures
        are_i16(v, b, start),
{
    assert forall|i: int| 0 <= i < v.len() implies #[trigger] v[i] == i16_at(b, start + 2 * i) by {
        let at = start + 2 * i;
        let part = b.subrange(start, start + 2 * v.len());
        assert forall|j: int| 0 <= j < 2 implies #[trigger] b.subrange(at, at + 2)[j] == i16_bytes(
            v[i] as int,
        )[j] by {
            assert(part[2 * i + j] == b[at + j]);
            assert((2 * i + j) / 2 == i && (2 * i + j) % 2 == j);
        }
        assert(b.subrange(at, at + 2) =~= i16_bytes(v[i] as int));
        i16_read_back(b, at, v[i] as int);
    }
}

/// The bytes of a file with the name of the second format in place of the
/// first one's.
pub open spec fn renamed(file: Seq<u8>) -> Seq<u8> {
    ivf::magic() + file.skip(4)
}

/// A file as it is written is refused by the reader of the second format, and
/// but for its name it is read back: the centres, the clusters, the labels and
/// the values are those that were written.
pub proof fn files_are_read_back(
    centroids: Seq<[u32; 14]>,
    assignments: Seq<usize>,
    values: Seq<[i16; 14]>,
    labels: Seq<u8>,
    k: int,
    ix: IvfIndex,
)
    requires
        0 <= k <= u32::MAX,
        centroids.len() == k,
        values.len() <= u32::MAX,
        block_start(assignments, k) <= u32::MAX,
    ensures
        ({
            let file = ivf1_file(centroids, assignments, values, labels, k);
            &&& ivf::load_error(file) == Some(LoadError::BadMagic)
            &&& ivf::load_error(renamed(file)) is None
            &&& ix.decodes(renamed(file)) ==> {
                &&& ix.n == values.len()
                &&& ix.k == k
                &&& ix.centroids@ == columns(centroids)
                &&& ix.offsets@ == starts(assignments, k + 1)
                &&& ix.labels@ == all_labels(assignments, labels, k)
                &&& ix.blocks@ == all_values(assignments, values, k)
            }
        }),
{
    let b = renamed(ivf1_file(centroids, assignments, values, labels, k));
    let total = block_start(assignments, k);
    lemma_written(centroids, assignments, values, labels, k);
    lemma_block_start_grows(assignments, 0, k);
    assert(ivf::blocks_in(b) == total) by {
        assert(starts(assignments, k + 1)[k] == total);
    }
    assert(ivf::load_error(b) is None);
    if ix.decodes(b) {
        lemma_read_back(
            ix,
            b,
            columns(centroids),
            starts(assignments, k + 1),
            all_values(assignments, values, k),
            k,
            total,
        );
    }
}

/// Where the sections of a file are, after it was renamed.
proof fn lemma_written(
    centroids: Seq<[u32; 14]>,
    assignments: Seq<usize>,
    values: Seq<[i16; 14]>,
    labels: Seq<u8>,
    k: int,
)
    requires
        0 <= k <= u32::MAX,
        centroids.len() == k,
        values.len() <= u32::MAX,
    ensures
        ({
            let file = ivf1_file(centroids, assignments, values, labels, k);
            let b = renamed(file);
            let total = block_start(assignments, k);
            &&& file.len() >= 4
            &&& !occurs_at(file, ivf::magic(), 0)
            &&& occurs_at(b, ivf::magic(), 0)
            &&& b.len() == ivf::blocks_start(k, total) + 224 * total
            &&& u32_at(b, 4) == values.len()
            &&& u32_at(b, 8) == k
            &&& u32_at(b, 12) == 14
            &&& columns(centroids).len() == 14 * k
            &&& are_u32(columns(centroids), b, 16)
            &&& starts(assignments, k + 1).len() == k + 1
            &&& are_u32(starts(assignments, k + 1), b, ivf::offsets_start(k))
            &&& b.subrange(ivf::labels_start(k), ivf::blocks_start(k, total)) == all_labels(
                assignments,
                labels,
                k,
            )
            &&& all_values(assignments, values, k).len() == 112 * total
            &&& are_i16(all_values(assignments, values, k), b, ivf::blocks_start(k, total))
        }),
{
    let cols = columns(centroids);
    let offs = starts(assignments, k + 1);
    let labs = all_labels(assignments, labels, k);
    let vals = all_values(assignments, values, k);
    let total = block_start(assignments, k);
    let head = header(values.len() as int, k);
    let file = ivf1_file(centroids, assignments, values, labels, k);
    let b = renamed(file);
    lemma_section_lengths(assignments, labels, values, k);
    lemma_block_start_grows(assignments, 0, k);
    let p = u32s_bytes(cols);
    let q = u32s_bytes(offs);
    let s = i16s_bytes(vals);
    assert(cols.len() == 14 * k && p.len() == 56 * k);
    assert(offs.len() == k + 1 && q.len() == 4 * (k + 1));
    assert(vals.len() == 112 * total && s.len() == 224 * total);
    assert(labs.len() == 8 * total);
    assert(head.len() == 16);
    assert(file == head + p + q + labs + s);
    lemma_renamed_sections(head, p, q, labs, s);
    lemma_renamed_header(values.len() as int, k, file);
    lemma_u32s_at(b, 16, cols);
    lemma_u32s_at(b, ivf::offsets_start(k), offs);
    lemma_i16s_at(b, ivf::blocks_start(k, total), vals);
}

proof fn lemma_read_back(
    ix: IvfIndex,
    b: Seq<u8>,
    cols: Seq<u32>,
    offs: Seq<u32>,
    vals: Seq<i16>,
    k: int,
    total: int,
)
    requires
        ix.decodes(b),
        ivf::clusters_in(b) == k,
        ivf::blocks_in(b) == total,
        cols.len() == 14 * k,
        offs.len() == k + 1,
        vals.len() == 112 * total,
        are_u32(cols, b, 16),
        are_u32(offs, b, ivf::offsets_start(k)),
        are_i16(vals, b, ivf::blocks_start(k, total)),
    ensures
        ix.centroids@ == cols,
        ix.offsets@ == offs,
        ix.blocks@ == vals,
{
    assert(ix.centroids@ =~= cols);
    assert(ix.offsets@ =~= offs);
    assert(ix.blocks@ =~= vals);
}

proof fn lemma_renamed_sections(
    head: Seq<u8>,
    p: Seq<u8>,
    q: Seq<u8>,
    r: Seq<u8>,
    s: Seq<u8>,
)
    requires
        head.len() == 16,
    ensures
        ({
            let file = head + p + q + r + s;
            let b = renamed(file);
            let l1 = 16 + p.len();
            let l2 = l1 + q.len();
            let l3 = l2 + r.len();
            let l4 = l3 + s.len();
            &&& file.len() == l4
            &&& b.len() == l4
            &&& file.take(16) == head
            &&& b.subrange(16, l1 as int) == p
            &&& b.subrange(l1 as int, l2 as int) == q
            &&& b.subrange(l2 as int, l3 as int) == r
            &&& b.subrange(l3 as int, l4 as int) == s
        }),
{
    let file = head + p + q + r + s;
    let b = renamed(file);
    let l1 = 16 + p.len();
    let l2 = l1 + q.len();
    let l3 = l2 + r.len();
    let l4 = l3 + s.len();
    assert(file.take(16) =~= head);
    assert(b.subrange(16, l1 as int) =~= p);
    assert(b.subrange(l1 as int, l2 as int) =~= q);
    assert(b.subrange(l2 as int, l3 as int) =~= r);
    assert(b.subrange(l3 as int, l4 as int) =~= s);
}

proof fn lemma_renamed_header(n: int, k: int, file: Seq<u8>)
    requires
        0 <= n <= u32::MAX,
        0 <= k <= u32::MAX,
        file.len() >= 16,
        file.take(16) == header(n, k),
    ensures
        !occurs_at(file, ivf::magic(), 0),
        occurs_at(renamed(file), ivf::magic(), 0),
        u32_at(renamed(file), 4) == n,
        u32_at(renamed(file), 8) == k,
        u32_at(renamed(file), 12) == 14,
{
    let b = renamed(file);
    let head = header(n, k);
    assert(file[3] == head[3]) by {
        assert(file.take(16)[3] == file[3]);
    }
    if occurs_at(file, ivf::magic(), 0) {
        assert(file.subrange(0, 4)[3] == ivf::magic()[3]);
    }
    assert(b.subrange(0, 4) =~= ivf::magic());
    assert forall|i: int| 4 <= i < 16 implies #[trigger] b[i] == head[i] by {
        assert(file.take(16)[i] == file[i]);
    }
    assert(b.subrange(4, 8) =~= u32_bytes(n));
    assert(b.subrange(8, 12) =~= u32_bytes(k));
    assert(b.subrange(12, 16) =~= u32_bytes(14));
    u32_read_back(b, 4, n);
    u32_read_back(b, 8, k);
    u32_read_back(b, 12, 14);
}

/// The clusters' blocks follow each other; a cluster has as many as hold its members
/// eight at a time. In them stand the labels of its members, one after the other,
/// and of each eight members first all first values, then all second ones and so
/// on; what is left of the last block holds zeros.
pub proof fn members_stand_in_their_blocks(
    assignments: Seq<usize>,
    values: Seq<[i16; 14]>,
    labels: Seq<u8>,
    k: int,
    c: int,
    p: int,
    d: int,
)
    requires
        0 <= c < k,
        0 <= d < 14,
        0 <= p < 8 * (block_start(assignments, c + 1) - block_start(assignments, c)),
    ensures
        block_start(assignments, 0) == 0,
        ({
            let blocks = block_start(assignments, c + 1) - block_start(assignments, c);
            0 <= 8 * blocks - group(assignments, c).len() < 8
        }),
        ({
            let g = group(assignments, c);
            let slot = 8 * block_start(assignments, c) + p;
            let at = 112 * (block_start(assignments, c) + p / 8) + 8 * d + p % 8;
            &&& 0 <= slot < all_labels(assignments, labels, k).len()
            &&& 0 <= at < all_values(assignments, values, k).len()
            &&& p < g.len() ==> all_labels(assignments, labels, k)[slot] == labels[g[p] as int]
                && all_values(assignments, values, k)[at] == values[g[p] as int]@[d]
            &&& p >= g.len() ==> all_labels(assignments, labels, k)[slot] == 0 && all_values(
                assignments,
                values,
                k,
            )[at] == 0
        }),
    decreases k,
{
    let start = block_start(assignments, c);
    let g = group(assignments, c);
    lemma_section_lengths(assignments, labels, values, k);
    lemma_section_lengths(assignments, labels, values, k - 1);
    lemma_section_lengths(assignments, labels, values, c);
    lemma_block_start_grows(assignments, 0, c);
    lemma_block_start_grows(assignments, c + 1, k);
    let within = 112 * (p / 8) + 8 * d + p % 8;
    assert(within / 112 == p / 8 && within % 112 == 8 * d + p % 8);
    assert(within % 8 == p % 8) by {
        assert(within == 8 * (14 * (p / 8) + d) + p % 8);
    }
    assert((8 * d + p % 8) / 8 == d);
    assert(vector_at(within) == p && dim_at(within) == d);
    if c == k - 1 {
        assert(within < group_values(g, values).len());
        assert(p < group_labels(g, labels).len());
    } else {
        lemma_block_start_grows(assignments, c + 1, k - 1);
        members_stand_in_their_blocks(assignments, values, labels, k - 1, c, p, d);
    }
}

/// The value of a centre stands among those of its dimension.
pub proof fn centres_stand_in_columns(centroids: Seq<[u32; 14]>, c: int, d: int)
    requires
        0 <= c < centroids.len(),
        0 <= d < 14,
    ensures
        columns(centroids).len() == 14 * centroids.len(),
        0 <= d * centroids.len() + c < columns(centroids).len(),
        columns(centroids)[d * centroids.len() + c] == centroids[c]@[d],
{
    let k = centroids.len() as int;
    let at = d * k + c;
    assert(0 <= at < 14 * k) by (nonlinear_arith)
        requires
            at == d * k + c,
            0 <= d < 14,
            0 <= c < k,
    ;
    vstd::arithmetic::div_mod::lemma_fundamental_div_mod_converse(at, k, d, c);
}

/// The members of a cluster come in the order in which they are stored.
pub proof fn members_come_in_order(assignments: Seq<usize>, c: int, i: int, j: int)
    requires
        assignments.len() <= usize::MAX,
        0 <= i < j < group(assignments, c).len(),
    ensures
        group(assignments, c)[i] < group(assignments, c)[j],
{
    lemma_members_grow(assignments, c, assignments.len() as int, i, j);
}

proof fn lemma_members_grow(assignments: Seq<usize>, c: int, m: int, i: int, j: int)
    requires
        0 <= m <= assignments.len() <= usize::MAX,
        0 <= i < j < members(assignments, c, m).len(),
    ensures
        members(assignments, c, m)[i] < members(assignments, c, m)[j],
    decreases m,
{
    lemma_members(assignments, c, m - 1);
    let before = members(assignments, c, m - 1);
    if j < before.len() {
        lemma_members_grow(assignments, c, m - 1, i, j);
    } else {
        assert(before[i] < m - 1);
    }
}

/// The generator's states come from each other by a fixed factor and step, and
/// what is drawn is the upper 31 bits of the 64.
pub proof fn states_step(a: u64, b: u64)
    requires
        b < 0xffff_ffff_ffff_ffff,
        a == b + 1,
    ensures
        (next_state(a) - next_state(b)) % 0x1_0000_0000_0000_0000 == 6364136223846793005,
        next_state(0) == 1442695040888963407,
{
    let f = LCG_FACTOR as int;
    assert(a * f == b * f + f) by (nonlinear_arith)
        requires
            a == b + 1,
    ;
    let x = b * f + LCG_STEP;
    assert(next_state(b) == x % 0x1_0000_0000_0000_0000);
    assert(next_state(a) == (x + f) % 0x1_0000_0000_0000_0000);
}

/// Of distances that are numbers and not negative, whose bits compare as they do,
/// the nearest is the least, and the first where it is there more than once. What
/// is no number is never the nearest, and where there is nothing below infinity,
/// the first centre is.
pub proof fn the_nearest_centre_is_the_least(dists: Seq<u32>, i: int)
    requires
        0 <= i < dists.len(),
        forall|j: int| 0 <= j < dists.len() ==> #[trigger] dists[j] < 0x8000_0000,
    ensures
        ({
            let best = nearest_of(dists, dists.len() as int).0;
            &&& 0 <= best < dists.len()
            &&& dists[i] < 0x7f80_0000 ==> dists[best] <= dists[i] && (dists[best] == dists[i]
                ==> best <= i)
            &&& (forall|j: int| 0 <= j < dists.len() ==> #[trigger] dists[j] >= 0x7f80_0000)
                ==> best == 0
        }),
{
    let n = dists.len() as int;
    numbers_compare(dists[i], INFINITY);
    nothing_is_nearer_than_the_nearest(dists, n, i);
    lemma_nearest_bounds(dists, n);
    let (best, dist) = nearest_of(dists, n);
    lemma_none_is_nearer(dists, n);
    if dists[i] < 0x7f80_0000 {
        numbers_compare(dists[i], dist);
    }
}

/// The nearest is one of the centres, or the first where none is below infinity.
proof fn lemma_none_is_nearer(dists: Seq<u32>, n: int)
    requires
        0 <= n <= dists.len(),
        forall|j: int| 0 <= j < dists.len() ==> #[trigger] dists[j] < 0x8000_0000,
    ensures
        nearest_of(dists, n).0 == 0 || 0 <= nearest_of(dists, n).0 < n,
        nearest_of(dists, n).1 <= INFINITY,
        (forall|j: int| 0 <= j < dists.len() ==> #[trigger] dists[j] >= 0x7f80_0000) ==> nearest_of(
            dists,
            n,
        ) == (0int, INFINITY),
    decreases n,
{
    if n > 0 {
        lemma_none_is_nearer(dists, n - 1);
        assert(dists[n - 1] < 0x8000_0000);
    }
}

/// The step of a sample is the largest with which that many vectors can be had, and
/// one where there are fewer than twice as many.
pub proof fn samples_are_spread_out(len: int, sample: int)
    requires
        0 <= len,
        0 < sample,
    ensures
        sample_step(len, sample) >= 1,
        len >= sample ==> sample_step(len, sample) * sample <= len,
        (sample_step(len, sample) + 1) * sample > len,
{
    let q = len / sample;
    vstd::arithmetic::div_mod::lemma_fundamental_div_mod(len, sample);
    vstd::arithmetic::div_mod::lemma_mod_bound(len, sample);
    assert(q * sample == sample * q) by (nonlinear_arith);
    assert((q + 1) * sample == sample * q + sample) by (nonlinear_arith);
    assert(1 * sample == sample && 2 * sample == sample + sample) by (nonlinear_arith);
    if q < 1 {
        assert(q >= 0) by (nonlinear_arith)
            requires
                q == len / sample,
                0 <= len,
                0 < sample,
        ;
    }
}

} // verus!
