//! The search in blocks of eight vectors, in clusters that are ranked by the
//! distances of their centres.
//!
//! A block holds eight vectors of fourteen values, the values of a dimension
//! side by side. The five nearest are kept in order, first come first among
//! equals.

use vstd::prelude::*;

use crate::fraud::search::{add_square, lemma_wrap16_sub, square, wrap16, wrap32};
use crate::ranked::{
    is_ranked, labels_of, lemma_offer, lemma_place_from, offer, offer_all, offer_item, place,
    the_nearest_stay,
};
use crate::selection::{is_selection, select_smallest, selection, selections_exist};

verus! {

pub const FAST_NPROBE: usize = 8;

pub const FULL_NPROBE: usize = 24;

/// How many clusters there are.
pub const K: usize = 4096;

/// Reference vectors in blocks.
pub struct Dataset {
    /// Where each cluster's blocks start, and where the last one's end.
    pub offsets: Vec<u32>,
    /// The labels, eight a block.
    pub labels: Vec<u8>,
    /// The values, 112 a block.
    pub blocks: Vec<i8>,
}

impl Dataset {
    /// Every cluster that is not empty has its blocks and their labels.
    pub open spec fn wf(&self) -> bool {
        &&& self.offsets@.len() == K + 1
        &&& forall|c: int|
            0 <= c < K && self.offsets@[c] < #[trigger] self.offsets@[c + 1] ==> {
                &&& self.offsets@[c + 1] * 112 <= self.blocks@.len()
                &&& self.offsets@[c + 1] * 8 <= self.labels@.len()
            }
    }

    /// Whether every cluster that is not empty has its blocks and labels.
    pub fn is_well_formed(&self) -> (r: bool)
        ensures
            r == self.wf(),
    {
        if self.offsets.len() != K + 1 {
            return false;
        }
        let mut c: usize = 0;
        while c < K
            invariant
                c <= K,
                self.offsets@.len() == K + 1,
                forall|i: int|
                    0 <= i < c && self.offsets@[i] < #[trigger] self.offsets@[i + 1] ==> {
                        &&& self.offsets@[i + 1] * 112 <= self.blocks@.len()
                        &&& self.offsets@[i + 1] * 8 <= self.labels@.len()
                    },
            decreases K - c,
        {
            let end: u64 = self.offsets[c + 1] as u64;
            if self.offsets[c] < self.offsets[c + 1] && (end * 112 > self.blocks.len() as u64 || end
                * 8 > self.labels.len() as u64) {
                assert(self.offsets@[c as int] < self.offsets@[c + 1]);
                return false;
            }
            c = c + 1;
        }
        true
    }
}

/// The squares of the first `n` differences between a query and a vector of a
/// block.
pub open spec fn slot_squares(blocks: Seq<i8>, b: int, slot: int, q: Seq<i16>, n: int) -> int
    decreases n,
{
    if n <= 0 {
        0
    } else {
        slot_squares(blocks, b, slot, q, n - 1) + square(
            wrap16(q[n - 1] - blocks[b * 112 + (n - 1) * 8 + slot]),
        )
    }
}

/// The distance of a vector of a block, in 32 bits.
pub open spec fn slot_distance(blocks: Seq<i8>, b: int, slot: int, q: Seq<i16>) -> u32 {
    (slot_squares(blocks, b, slot, q, 14) % 0x1_0000_0000) as u32
}

/// The list that a search starts with: five places, all as far as can be.
pub open spec fn five_places() -> Seq<(u32, u8)> {
    Seq::new(5, |i: int| (u32::MAX, 0u8))
}

impl Dataset {
    /// Whether, after eight dimensions, none of a block's vectors is nearer
    /// than the worst of five found before. Both sides are compared as signed
    /// values.
    pub open spec fn cannot_win(&self, q: Seq<i16>, top: Seq<(u32, u8)>, b: int) -> bool {
        &&& top[4].0 != u32::MAX
        &&& forall|slot: int|
            0 <= slot < 8 ==> wrap32(#[trigger] slot_squares(self.blocks@, b, slot, q, 8))
                >= wrap32(top[4].0 as int)
    }

    /// A vector of a block with its label.
    pub open spec fn item(&self, q: Seq<i16>, b: int, slot: int) -> (u32, u8) {
        (slot_distance(self.blocks@, b, slot, q), self.labels@[b * 8 + slot])
    }

    /// The list after the first `n` vectors of a block.
    pub open spec fn after_slots(
        &self,
        q: Seq<i16>,
        top: Seq<(u32, u8)>,
        b: int,
        n: int,
    ) -> Seq<(u32, u8)>
        decreases n,
    {
        if n <= 0 {
            top
        } else {
            offer(self.after_slots(q, top, b, n - 1), 5, self.item(q, b, n - 1))
        }
    }

    /// The list after a block.
    pub open spec fn after_block(&self, q: Seq<i16>, top: Seq<(u32, u8)>, b: int) -> Seq<
        (u32, u8),
    > {
        if self.cannot_win(q, top, b) {
            top
        } else {
            self.after_slots(q, top, b, 8)
        }
    }

    /// The list after the blocks from `start` to `end`.
    pub open spec fn after_blocks(
        &self,
        q: Seq<i16>,
        top: Seq<(u32, u8)>,
        start: int,
        end: int,
    ) -> Seq<(u32, u8)>
        decreases end - start,
    {
        if end <= start {
            top
        } else {
            self.after_block(q, self.after_blocks(q, top, start, end - 1), end - 1)
        }
    }

    /// The list after some clusters.
    pub open spec fn after_clusters(&self, q: Seq<i16>, probed: Seq<usize>) -> Seq<(u32, u8)>
        decreases probed.len(),
    {
        if probed.len() == 0 {
            five_places()
        } else {
            let c = probed.last() as int;
            self.after_blocks(
                q,
                self.after_clusters(q, probed.drop_last()),
                self.offsets@[c] as int,
                self.offsets@[c + 1] as int,
            )
        }
    }

    /// The labels of the five nearest in the `nprobe` clusters whose centres
    /// are nearest.
    pub open spec fn probed_labels(&self, q: Seq<i16>, dists: Seq<u32>, nprobe: int) -> Seq<u8> {
        labels_of(self.after_clusters(q, selection(dists, nprobe)))
    }
}

/// How many labels are odd.
pub open spec fn odd_labels(labels: Seq<u8>) -> int
    decreases labels.len(),
{
    if labels.len() == 0 {
        0
    } else {
        odd_labels(labels.drop_last()) + labels.last() % 2
    }
}

/// How many of five labels are fraud labels, that is odd.
pub fn count_fraud(labels: [u8; 5]) -> (r: usize)
    ensures
        r == odd_labels(labels@),
        r <= 5,
{
    let mut n: usize = 0;
    let mut i: usize = 0;
    while i < 5
        invariant
            i <= 5,
            n <= i,
            n == odd_labels(labels@.take(i as int)),
        decreases 5 - i,
    {
        assert(labels@.take(i + 1).drop_last() =~= labels@.take(i as int));
        n = n + (labels[i] % 2) as usize;
        i = i + 1;
    }
    assert(labels@.take(5) =~= labels@);
    n
}

/// How many clusters are looked at where `nprobe` are asked for.
pub open spec fn probe_count(nprobe: int) -> int {
    if nprobe < FULL_NPROBE {
        nprobe
    } else {
        FULL_NPROBE as int
    }
}

/// Clusters by their numbers.
pub open spec fn positions(clusters: Seq<u16>) -> Seq<usize> {
    Seq::new(clusters.len(), |i: int| clusters[i] as usize)
}

/// The `nprobe` clusters whose centres are nearest, the nearest first, and
/// `FULL_NPROBE` at most; the rest of the places hold 0. The distances are
/// given by the bits of fractions that are not negative.
pub fn top_n_centroids_fast(dists: &[u32], nprobe: usize) -> (r: [u16; 24])
    requires
        dists@.len() == K,
        1 <= nprobe,
    ensures
        forall|i: int|
            0 <= i < FULL_NPROBE ==> #[trigger] r@[i] == (if i < nprobe {
                selection(dists@, probe_count(nprobe as int))[i] as u16
            } else {
                0u16
            }),
        is_selection(
            dists@,
            positions(r@.take(probe_count(nprobe as int))),
            probe_count(nprobe as int),
        ),
{
    let n: usize = if nprobe < FULL_NPROBE {
        nprobe
    } else {
        FULL_NPROBE
    };
    let chosen = select_smallest(dists, n);
    let mut r: [u16; 24] = [0; 24];
    let mut i: usize = 0;
    while i < n
        invariant
            i <= n <= FULL_NPROBE,
            chosen@.len() == n,
            forall|j: int| 0 <= j < i ==> #[trigger] r@[j] == chosen@[j] as u16,
            forall|j: int| i <= j < FULL_NPROBE ==> #[trigger] r@[j] == 0,
        decreases n - i,
    {
        r[i] = chosen[i] as u16;
        i = i + 1;
    }
    proof {
        assert forall|j: int| 0 <= j < n implies r@[j] as usize == chosen@[j] by {
            assert(chosen@[j] < K);
        }
        assert(positions(r@.take(n as int)) =~= chosen@);
    }
    r
}

/// A 32-bit sum, read without a sign.
fn unsigned_sum(acc: i32, Ghost(sum): Ghost<int>) -> (r: u32)
    requires
        acc == wrap32(sum),
    ensures
        r == sum % 0x1_0000_0000,
{
    assert(acc as u32 == (if acc < 0 {
        acc + 0x1_0000_0000
    } else {
        acc as int
    })) by (bit_vector);
    acc as u32
}

impl Dataset {
    /// Adds the squares of the dimensions from `from` to `to`.
    fn add_squares(
        &self,
        q: &[i16; 14],
        b: usize,
        slot: usize,
        acc: i32,
        from: usize,
        to: usize,
    ) -> (r: i32)
        requires
            (b + 1) * 112 <= self.blocks@.len(),
            slot < 8,
            from <= to <= 14,
            acc == wrap32(slot_squares(self.blocks@, b as int, slot as int, q@, from as int)),
        ensures
            r == wrap32(slot_squares(self.blocks@, b as int, slot as int, q@, to as int)),
    {
        let mut acc: i32 = acc;
        let mut d: usize = from;
        while d < to
            invariant
                from <= d <= to <= 14,
                (b + 1) * 112 <= self.blocks.len(),
                slot < 8,
                acc == wrap32(slot_squares(self.blocks@, b as int, slot as int, q@, d as int)),
            decreases to - d,
        {
            let at: usize = b * 112 + d * 8 + slot;
            let v: i16 = self.blocks[at] as i16;
            let diff = q[d].wrapping_sub(v);
            proof {
                lemma_wrap16_sub(q@[d as int], v);
            }
            acc = add_square(
                acc,
                Ghost(slot_squares(self.blocks@, b as int, slot as int, q@, d as int)),
                diff,
            );
            d = d + 1;
        }
        acc
    }

    fn scan_block(&self, q: &[i16; 14], top: &mut Vec<(u32, u8)>, b: usize)
        requires
            (b + 1) * 112 <= self.blocks@.len(),
            (b + 1) * 8 <= self.labels@.len(),
            old(top)@.len() == 5,
        ensures
            final(top)@ == self.after_block(q@, old(top)@, b as int),
            final(top)@.len() == 5,
    {
        let ghost before = top@;
        let mut accs: [i32; 8] = [0; 8];
        let worst: u32 = top[4].0;
        let limit: i32 = worst as i32;
        assert(limit as int == wrap32(worst as int)) by {
            assert((worst as i32) as int == (if worst >= 0x8000_0000 {
                worst - 0x1_0000_0000
            } else {
                worst as int
            })) by (bit_vector);
        }
        let mut can_win = false;
        let mut slot: usize = 0;
        while slot < 8
            invariant
                slot <= 8,
                (b + 1) * 112 <= self.blocks.len(),
                forall|s: int|
                    0 <= s < slot ==> #[trigger] accs@[s] == wrap32(
                        slot_squares(self.blocks@, b as int, s, q@, 8),
                    ),
                can_win <==> exists|s: int| 0 <= s < slot && limit > #[trigger] accs@[s],
            decreases 8 - slot,
        {
            let ghost so_far = accs@;
            let acc = self.add_squares(q, b, slot, 0, 0, 8);
            accs[slot] = acc;
            proof {
                assert forall|s: int| 0 <= s < slot implies #[trigger] accs@[s] == so_far[s] by {}
                if can_win {
                    let s = choose|s: int| 0 <= s < slot && limit > #[trigger] so_far[s];
                    assert(limit > accs@[s]);
                }
                if limit > acc {
                    assert(limit > accs@[slot as int]);
                }
            }
            if limit > acc {
                can_win = true;
            }
            slot = slot + 1;
        }
        if worst < u32::MAX && !can_win {
            proof {
                assert forall|s: int| 0 <= s < 8 implies wrap32(
                    #[trigger] slot_squares(self.blocks@, b as int, s, q@, 8),
                ) >= wrap32(before[4].0 as int) by {
                    assert(!(limit > accs@[s]));
                }
            }
            return;
        }
        proof {
            if worst < u32::MAX {
                let s = choose|s: int| 0 <= s < 8 && limit > #[trigger] accs@[s];
                assert(wrap32(slot_squares(self.blocks@, b as int, s, q@, 8)) < wrap32(
                    before[4].0 as int,
                ));
            }
            assert(!self.cannot_win(q@, before, b as int));
        }
        let mut slot: usize = 0;
        while slot < 8
            invariant
                slot <= 8,
                (b + 1) * 112 <= self.blocks.len(),
                (b + 1) * 8 <= self.labels.len(),
                forall|s: int|
                    0 <= s < 8 ==> #[trigger] accs@[s] == wrap32(
                        slot_squares(self.blocks@, b as int, s, q@, 8),
                    ),
                top@ == self.after_slots(q@, before, b as int, slot as int),
                top@.len() == 5,
            decreases 8 - slot,
        {
            let acc = self.add_squares(q, b, slot, accs[slot], 8, 14);
            let dist = unsigned_sum(
                acc,
                Ghost(slot_squares(self.blocks@, b as int, slot as int, q@, 14)),
            );
            let item: (u32, u8) = (dist, self.labels[b * 8 + slot]);
            assert(item == self.item(q@, b as int, slot as int));
            proof {
                lemma_offer_len(top@, item);
            }
            offer_item(top, 5, item);
            slot = slot + 1;
        }
    }

    /// The labels of the five nearest in the clusters `probed`.
    pub fn scan_blocks(&self, q: &[i16; 14], probed: &[usize]) -> (r: [u8; 5])
        requires
            self.wf(),
            forall|i: int| 0 <= i < probed@.len() ==> #[trigger] probed@[i] < K,
        ensures
            r@ == labels_of(self.after_clusters(q@, probed@)),
    {
        let mut top: Vec<(u32, u8)> = Vec::new();
        let mut i: usize = 0;
        while i < 5
            invariant
                i <= 5,
                top@.len() == i,
                forall|j: int| 0 <= j < i ==> top@[j] == (u32::MAX, 0u8),
            decreases 5 - i,
        {
            top.push((u32::MAX, 0));
            i = i + 1;
        }
        assert(top@ =~= five_places());
        let mut n: usize = 0;
        assert(probed@.take(0) =~= Seq::<usize>::empty());
        while n < probed.len()
            invariant
                self.wf(),
                forall|i: int| 0 <= i < probed@.len() ==> #[trigger] probed@[i] < K,
                n <= probed@.len(),
                top@ == self.after_clusters(q@, probed@.take(n as int)),
                top@.len() == 5,
            decreases probed@.len() - n,
        {
            let c: usize = probed[n];
            let start: usize = self.offsets[c] as usize;
            let end: usize = self.offsets[c + 1] as usize;
            let ghost before = top@;
            let mut b: usize = start;
            while b < end
                invariant
                    start <= b,
                    start < end ==> b <= end,
                    start >= end ==> b == start,
                    start < end ==> end * 112 <= self.blocks.len(),
                    start < end ==> end * 8 <= self.labels.len(),
                    top@ == self.after_blocks(q@, before, start as int, b as int),
                    top@.len() == 5,
                decreases end - b,
            {
                self.scan_block(q, &mut top, b);
                b = b + 1;
            }
            proof {
                assert(probed@.take(n + 1).drop_last() =~= probed@.take(n as int));
            }
            n = n + 1;
        }
        assert(probed@.take(n as int) =~= probed@);
        let r: [u8; 5] = [top[0].1, top[1].1, top[2].1, top[3].1, top[4].1];
        assert(r@ =~= labels_of(top@));
        r
    }

    /// The labels of the five nearest in the `nprobe` clusters whose centres
    /// are nearest.
    fn probe(&self, q: &[i16; 14], dists: &[u32], nprobe: usize) -> (r: [u8; 5])
        requires
            self.wf(),
            dists@.len() == K,
            1 <= nprobe <= FULL_NPROBE,
        ensures
            r@ == self.probed_labels(q@, dists@, nprobe as int),
    {
        let probed = select_smallest(dists, nprobe);
        self.scan_blocks(q, &probed)
    }
}

proof fn lemma_offer_len(top: Seq<(u32, u8)>, item: (u32, u8))
    requires
        top.len() == 5,
    ensures
        offer(top, 5, item).len() == 5,
{
    lemma_place_from(top, item.0, 0);
}

/// The fraud votes of the five nearest: in the nearest clusters first, and
/// where two or three of those five are fraud, in more of them.
pub open spec fn votes_of(ds: &Dataset, q: Seq<i16>, dists: Seq<u32>) -> int {
    let fast = odd_labels(ds.probed_labels(q, dists, FAST_NPROBE as int));
    if fast == 2 || fast == 3 {
        odd_labels(ds.probed_labels(q, dists, FULL_NPROBE as int))
    } else {
        fast
    }
}

/// The fraud votes of the five nearest vectors. `dists` holds the distances of
/// the clusters' centres from the query, by the bits of fractions that are not
/// negative.
pub fn knn5_ivf(q: &[i16; 14], dists: &[u32], ds: &Dataset) -> (r: u8)
    requires
        ds.wf(),
        dists@.len() == K,
    ensures
        r == votes_of(ds, q@, dists@),
        r <= 5,
{
    let fast = count_fraud(ds.probe(q, dists, FAST_NPROBE));
    if fast == 2 || fast == 3 {
        count_fraud(ds.probe(q, dists, FULL_NPROBE)) as u8
    } else {
        fast as u8
    }
}

impl Dataset {
    /// The first `n` vectors of a block with their labels.
    pub open spec fn block_items(&self, q: Seq<i16>, b: int, n: int) -> Seq<(u32, u8)>
        decreases n,
    {
        if n <= 0 {
            Seq::empty()
        } else {
            self.block_items(q, b, n - 1).push(self.item(q, b, n - 1))
        }
    }

    /// The vectors of the blocks from `start` to `end`.
    pub open spec fn range_items(&self, q: Seq<i16>, start: int, end: int) -> Seq<(u32, u8)>
        decreases end - start,
    {
        if end <= start {
            Seq::empty()
        } else {
            self.range_items(q, start, end - 1) + self.block_items(q, end - 1, 8)
        }
    }

    /// The vectors of some clusters.
    pub open spec fn cluster_items(&self, q: Seq<i16>, probed: Seq<usize>) -> Seq<(u32, u8)>
        decreases probed.len(),
    {
        if probed.len() == 0 {
            Seq::empty()
        } else {
            let c = probed.last() as int;
            self.cluster_items(q, probed.drop_last()) + self.range_items(
                q,
                self.offsets@[c] as int,
                self.offsets@[c + 1] as int,
            )
        }
    }

    /// The distances of all vectors fit in 31 bits.
    pub open spec fn in_reach(&self, q: Seq<i16>) -> bool {
        forall|b: int, slot: int|
            0 <= b && (b + 1) * 112 <= self.blocks@.len() && 0 <= slot < 8
                ==> #[trigger] slot_squares(self.blocks@, b, slot, q, 14) < 0x8000_0000
    }

    proof fn lemma_block_items(&self, q: Seq<i16>, top: Seq<(u32, u8)>, b: int, n: int)
        ensures
            self.after_slots(q, top, b, n) == offer_all(top, 5, self.block_items(q, b, n)),
        decreases n,
    {
        if n > 0 {
            self.lemma_block_items(q, top, b, n - 1);
            let items = self.block_items(q, b, n);
            assert(items.drop_last() =~= self.block_items(q, b, n - 1));
        }
    }

    /// Passing a block over changes nothing: none of its vectors would have
    /// been taken.
    proof fn lemma_cannot_win(&self, q: Seq<i16>, top: Seq<(u32, u8)>, b: int, n: int)
        requires
            five_in_reach(top),
            self.in_reach(q),
            0 <= b,
            (b + 1) * 112 <= self.blocks@.len(),
            self.cannot_win(q, top, b),
            n <= 8,
        ensures
            self.after_slots(q, top, b, n) == top,
        decreases n,
    {
        if n > 0 {
            self.lemma_cannot_win(q, top, b, n - 1);
            lemma_squares_grow(self.blocks@, b, n - 1, q, 8, 14);
            lemma_squares_grow(self.blocks@, b, n - 1, q, 0, 8);
            assert(slot_squares(self.blocks@, b, n - 1, q, 14) < 0x8000_0000);
            assert(wrap32(slot_squares(self.blocks@, b, n - 1, q, 8)) >= wrap32(top[4].0 as int));
        }
    }

    proof fn lemma_slots_bounded(&self, q: Seq<i16>, top: Seq<(u32, u8)>, b: int, n: int)
        requires
            five_in_reach(top),
            self.in_reach(q),
            0 <= b,
            (b + 1) * 112 <= self.blocks@.len(),
            n <= 8,
        ensures
            five_in_reach(self.after_slots(q, top, b, n)),
        decreases n,
    {
        if n > 0 {
            self.lemma_slots_bounded(q, top, b, n - 1);
            let before = self.after_slots(q, top, b, n - 1);
            let item = self.item(q, b, n - 1);
            lemma_squares_grow(self.blocks@, b, n - 1, q, 0, 14);
            assert(slot_squares(self.blocks@, b, n - 1, q, 14) < 0x8000_0000);
            lemma_offer(before, 5, item);
            let p = place(before, item.0);
            lemma_place_from(before, item.0, 0);
            let after = offer(before, 5, item);
            assert forall|i: int| 0 <= i < 5 implies (#[trigger] after[i]).0 == u32::MAX
                || after[i].0 < 0x8000_0000 by {
                if item.0 < before.last().0 {
                    if i < p {
                        assert(after[i] == before[i]);
                    } else if i == p {
                        assert(after[i] == item);
                    } else {
                        assert(after[i] == before[i - 1]);
                    }
                }
            }
        }
    }

    proof fn lemma_blocks(&self, q: Seq<i16>, top: Seq<(u32, u8)>, start: int, end: int)
        requires
            five_in_reach(top),
            self.in_reach(q),
            0 <= start,
            start < end ==> end * 112 <= self.blocks@.len(),
        ensures
            self.after_blocks(q, top, start, end) == offer_all(
                top,
                5,
                self.range_items(q, start, end),
            ),
            five_in_reach(self.after_blocks(q, top, start, end)),
        decreases end - start,
    {
        if start < end {
            self.lemma_blocks(q, top, start, end - 1);
            let before = self.after_blocks(q, top, start, end - 1);
            self.lemma_block_items(q, before, end - 1, 8);
            self.lemma_slots_bounded(q, before, end - 1, 8);
            if self.cannot_win(q, before, end - 1) {
                self.lemma_cannot_win(q, before, end - 1, 8);
            }
            lemma_offer_in_parts(
                top,
                self.range_items(q, start, end - 1),
                self.block_items(q, end - 1, 8),
            );
        }
    }

    proof fn lemma_clusters(&self, q: Seq<i16>, probed: Seq<usize>)
        requires
            self.wf(),
            self.in_reach(q),
            forall|i: int| 0 <= i < probed.len() ==> #[trigger] probed[i] < K,
        ensures
            self.after_clusters(q, probed) == offer_all(
                five_places(),
                5,
                self.cluster_items(q, probed),
            ),
            five_in_reach(self.after_clusters(q, probed)),
        decreases probed.len(),
    {
        if probed.len() > 0 {
            let c = probed.last() as int;
            assert(probed[probed.len() - 1] < K);
            let start = self.offsets@[c] as int;
            let end = self.offsets@[c + 1] as int;
            self.lemma_clusters(q, probed.drop_last());
            let before = self.after_clusters(q, probed.drop_last());
            self.lemma_blocks(q, before, start, end);
            lemma_offer_in_parts(
                five_places(),
                self.cluster_items(q, probed.drop_last()),
                self.range_items(q, start, end),
            );
        }
    }
}

/// Five in order, each of which is not over 31 bits or as far as can be.
spec fn five_in_reach(top: Seq<(u32, u8)>) -> bool {
    &&& top.len() == 5
    &&& is_ranked(top)
    &&& forall|i: int|
        0 <= i < 5 ==> (#[trigger] top[i]).0 == u32::MAX || top[i].0 < 0x8000_0000
}

proof fn lemma_squares_grow(blocks: Seq<i8>, b: int, slot: int, q: Seq<i16>, m: int, n: int)
    requires
        0 <= m <= n,
    ensures
        0 <= slot_squares(blocks, b, slot, q, m) <= slot_squares(blocks, b, slot, q, n),
    decreases n,
{
    if n > 0 {
        if m < n {
            lemma_squares_grow(blocks, b, slot, q, m, n - 1);
        } else {
            lemma_squares_grow(blocks, b, slot, q, n - 1, n - 1);
        }
        let d = wrap16(q[n - 1] - blocks[b * 112 + (n - 1) * 8 + slot]);
        assert(0 <= d * d) by (nonlinear_arith);
    }
}

proof fn lemma_offer_in_parts(top: Seq<(u32, u8)>, a: Seq<(u32, u8)>, b: Seq<(u32, u8)>)
    ensures
        offer_all(top, 5, a + b) == offer_all(offer_all(top, 5, a), 5, b),
    decreases b.len(),
{
    if b.len() == 0 {
        assert(a + b =~= a);
    } else {
        lemma_offer_in_parts(top, a, b.drop_last());
        assert((a + b).drop_last() =~= a + b.drop_last());
        assert((a + b).last() == b.last());
    }
}

/// Where distances fit in 31 bits, a search keeps the five nearest of all the
/// vectors of the clusters it visits, in order: passing blocks over early
/// changes nothing, and what did not stay is no nearer than the fifth.
pub proof fn the_five_nearest_stay(ds: &Dataset, q: Seq<i16>, probed: Seq<usize>) -> (dropped:
    vstd::multiset::Multiset<(u32, u8)>)
    requires
        ds.wf(),
        ds.in_reach(q),
        forall|i: int| 0 <= i < probed.len() ==> #[trigger] probed[i] < K,
    ensures
        ds.after_clusters(q, probed) == offer_all(five_places(), 5, ds.cluster_items(q, probed)),
        is_ranked(ds.after_clusters(q, probed)),
        ds.after_clusters(q, probed).len() == 5,
        five_places().to_multiset().add(ds.cluster_items(q, probed).to_multiset())
            == ds.after_clusters(q, probed).to_multiset().add(dropped),
        forall|x: (u32, u8)| #[trigger]
            dropped.count(x) > 0 ==> ds.after_clusters(q, probed)[4].0 <= x.0,
{
    ds.lemma_clusters(q, probed);
    the_nearest_stay(five_places(), 5, ds.cluster_items(q, probed))
}

/// A look through `nprobe` clusters goes through those with the nearest centres,
/// and its votes are those of the five nearest of all their vectors.
pub proof fn the_nearest_clusters_are_looked_through(
    ds: &Dataset,
    q: Seq<i16>,
    dists: Seq<u32>,
    nprobe: int,
)
    requires
        ds.wf(),
        ds.in_reach(q),
        dists.len() == K,
        0 <= nprobe <= K,
    ensures
        is_selection(dists, selection(dists, nprobe), nprobe),
        ds.probed_labels(q, dists, nprobe) == labels_of(
            offer_all(five_places(), 5, ds.cluster_items(q, selection(dists, nprobe))),
        ),
{
    selections_exist(dists, nprobe);
    ds.lemma_clusters(q, selection(dists, nprobe));
}

/// The value of a dimension that is stored for a vector of a block, its sign
/// included.
pub open spec fn stored(blocks: Seq<i8>, b: int, slot: int, d: int) -> int {
    blocks[b * 112 + d * 8 + slot] as int
}

/// Where no difference leaves 16 bits, what is summed up for a vector of a block
/// are the squares of the differences between the query and the fourteen values
/// that are stored for it; and the sum is 0 exactly where they are the query's.
pub proof fn slots_are_as_far_as_they_are(blocks: Seq<i8>, b: int, slot: int, q: Seq<i16>)
    requires
        forall|d: int|
            0 <= d < 14 ==> -0x8000 <= q[d] - #[trigger] stored(blocks, b, slot, d) < 0x8000,
    ensures
        slot_squares(blocks, b, slot, q, 14) == (q[0] - stored(blocks, b, slot, 0)) * (q[0]
            - stored(blocks, b, slot, 0)) + (q[1] - stored(blocks, b, slot, 1)) * (q[1] - stored(
            blocks,
            b,
            slot,
            1,
        )) + (q[2] - stored(blocks, b, slot, 2)) * (q[2] - stored(
            blocks,
            b,
            slot,
            2,
        )) + (q[3] - stored(blocks, b, slot, 3)) * (q[3] - stored(
            blocks,
            b,
            slot,
            3,
        )) + (q[4] - stored(blocks, b, slot, 4)) * (q[4] - stored(
            blocks,
            b,
            slot,
            4,
        )) + (q[5] - stored(blocks, b, slot, 5)) * (q[5] - stored(
            blocks,
            b,
            slot,
            5,
        )) + (q[6] - stored(blocks, b, slot, 6)) * (q[6] - stored(
            blocks,
            b,
            slot,
            6,
        )) + (q[7] - stored(blocks, b, slot, 7)) * (q[7] - stored(
            blocks,
            b,
            slot,
            7,
        )) + (q[8] - stored(blocks, b, slot, 8)) * (q[8] - stored(
            blocks,
            b,
            slot,
            8,
        )) + (q[9] - stored(blocks, b, slot, 9)) * (q[9] - stored(
            blocks,
            b,
            slot,
            9,
        )) + (q[10] - stored(blocks, b, slot, 10)) * (q[10] - stored(
            blocks,
            b,
            slot,
            10,
        )) + (q[11] - stored(blocks, b, slot, 11)) * (q[11] - stored(
            blocks,
            b,
            slot,
            11,
        )) + (q[12] - stored(blocks, b, slot, 12)) * (q[12] - stored(
            blocks,
            b,
            slot,
            12,
        )) + (q[13] - stored(blocks, b, slot, 13)) * (q[13] - stored(
            blocks,
            b,
            slot,
            13,
        )),
        slot_squares(blocks, b, slot, q, 14) == 0 <==> forall|d: int|
            0 <= d < 14 ==> q[d] == #[trigger] stored(blocks, b, slot, d),
        slot_squares(blocks, b, slot, q, 14) < 0x1_0000_0000 ==> slot_distance(blocks, b, slot, q)
            == slot_squares(blocks, b, slot, q, 14),
{
    reveal_with_fuel(slot_squares, 15);
    assert forall|d: int| 0 <= d < 14 implies wrap16(q[d] - #[trigger] stored(blocks, b, slot, d))
        == q[d] - stored(blocks, b, slot, d) by {}
    lemma_step(blocks, b, slot, q, 0);
    lemma_step(blocks, b, slot, q, 1);
    lemma_step(blocks, b, slot, q, 2);
    lemma_step(blocks, b, slot, q, 3);
    lemma_step(blocks, b, slot, q, 4);
    lemma_step(blocks, b, slot, q, 5);
    lemma_step(blocks, b, slot, q, 6);
    lemma_step(blocks, b, slot, q, 7);
    lemma_step(blocks, b, slot, q, 8);
    lemma_step(blocks, b, slot, q, 9);
    lemma_step(blocks, b, slot, q, 10);
    lemma_step(blocks, b, slot, q, 11);
    lemma_step(blocks, b, slot, q, 12);
    lemma_step(blocks, b, slot, q, 13);
    if slot_squares(blocks, b, slot, q, 14) == 0 {
        assert forall|d: int| 0 <= d < 14 implies q[d] == #[trigger] stored(blocks, b, slot, d) by {
            lemma_squares_grow(blocks, b, slot, q, d + 1, 14);
            lemma_squares_grow(blocks, b, slot, q, d, d);
            lemma_step(blocks, b, slot, q, d);
        }
    }
    lemma_squares_grow(blocks, b, slot, q, 0, 14);
}

/// One dimension's part of a sum.
proof fn lemma_step(blocks: Seq<i8>, b: int, slot: int, q: Seq<i16>, d: int)
    requires
        0 <= d,
        -0x8000 <= q[d] - stored(blocks, b, slot, d) < 0x8000,
    ensures
        ({
            let x = q[d] - stored(blocks, b, slot, d);
            &&& slot_squares(blocks, b, slot, q, d + 1) == slot_squares(blocks, b, slot, q, d) + x
                * x
            &&& 0 <= x * x
            &&& x * x == 0 <==> x == 0
        }),
{
    let x = q[d] - stored(blocks, b, slot, d);
    assert(wrap16(x) == x);
    assert(square(x) == x * x);
    assert(0 <= x * x && (x * x == 0 <==> x == 0)) by (nonlinear_arith);
}

/// A run of blocks offers every vector in it, eight a block, each with its own
/// distance and its own label, in their order.
pub proof fn every_slot_is_offered(ds: &Dataset, q: Seq<i16>, start: int, end: int)
    requires
        start <= end,
    ensures
        ds.range_items(q, start, end).len() == 8 * (end - start),
        forall|b: int, slot: int|
            #![trigger ds.labels@[8 * b + slot]]
            start <= b < end && 0 <= slot < 8 ==> ds.range_items(q, start, end)[8 * (b - start)
                + slot] == (slot_distance(ds.blocks@, b, slot, q), ds.labels@[8 * b + slot]),
    decreases end - start,
{
    if start < end {
        every_slot_is_offered(ds, q, start, end - 1);
        ds.lemma_block_has_eight(q, end - 1, 8);
    }
}

impl Dataset {
    proof fn lemma_block_has_eight(&self, q: Seq<i16>, b: int, n: int)
        requires
            0 <= n,
        ensures
            self.block_items(q, b, n).len() == n,
            forall|slot: int|
                0 <= slot < n ==> #[trigger] self.block_items(q, b, n)[slot] == self.item(q, b, slot),
        decreases n,
    {
        if n > 0 {
            self.lemma_block_has_eight(q, b, n - 1);
        }
    }
}

/// Looking through one cluster more offers that cluster's blocks besides.
pub proof fn clusters_are_offered_one_after_the_other(
    ds: &Dataset,
    q: Seq<i16>,
    probed: Seq<usize>,
    c: usize,
)
    ensures
        ds.cluster_items(q, Seq::empty()) == Seq::<(u32, u8)>::empty(),
        ds.cluster_items(q, probed.push(c)) == ds.cluster_items(q, probed) + ds.range_items(
            q,
            ds.offsets@[c as int] as int,
            ds.offsets@[c + 1] as int,
        ),
{
    assert(probed.push(c).drop_last() =~= probed);
}

/// Five labels have as many votes for fraud as there are odd ones among them.
pub proof fn odd_labels_are_votes(labels: Seq<u8>)
    requires
        labels.len() == 5,
    ensures
        odd_labels(labels) == labels[0] % 2 + labels[1] % 2 + labels[2] % 2 + labels[3] % 2
            + labels[4] % 2,
{
    reveal_with_fuel(odd_labels, 6);
}

/// The first look is through eight clusters, and where it counts no votes, one,
/// four or five, that is the answer; where it counts two or three, the answer is
/// what a look through 24 clusters counts.
pub proof fn close_votes_are_counted_again(ds: &Dataset, q: Seq<i16>, dists: Seq<u32>)
    ensures
        ({
            let first = odd_labels(ds.probed_labels(q, dists, 8));
            let second = odd_labels(ds.probed_labels(q, dists, 24));
            &&& first <= 1 || first >= 4 ==> votes_of(ds, q, dists) == first
            &&& 2 <= first <= 3 ==> votes_of(ds, q, dists) == second
            &&& first == second ==> votes_of(ds, q, dists) == first
        }),
{
}

/// Each dimension adds the square of a 16-bit number that differs from the
/// difference between the query and the stored value by whole rounds of 16 bits.
pub proof fn differences_wrap_around(blocks: Seq<i8>, b: int, slot: int, q: Seq<i16>, n: int) -> (x:
    int)
    requires
        0 <= n,
    ensures
        -32768 <= x < 32768,
        (x - (q[n] - stored(blocks, b, slot, n))) % 65536 == 0,
        slot_squares(blocks, b, slot, q, n + 1) == slot_squares(blocks, b, slot, q, n) + x * x,
        slot_squares(blocks, b, slot, q, 0) == 0,
        slot_distance(blocks, b, slot, q) == slot_squares(blocks, b, slot, q, 14) % 4294967296,
{
    wrap16(q[n] - blocks[b * 112 + n * 8 + slot])
}

/// A search starts with five places that anything nearer than the farthest can
/// take, and looks through as many clusters as it is asked to, up to 24.
pub proof fn searches_start_with_five_places(nprobe: int)
    ensures
        five_places().len() == 5,
        forall|i: int| 0 <= i < 5 ==> #[trigger] five_places()[i] == (0xffff_ffffu32, 0u8),
        nprobe <= 24 ==> probe_count(nprobe) == nprobe,
        nprobe >= 24 ==> probe_count(nprobe) == 24,
{
}

} // verus!
