//! Index files of the second format, and the search in them.
//!
//! A file starts with the bytes "IVF2" and the numbers of vectors, clusters and
//! dimensions. The clusters' centres follow, dimension by dimension, then where
//! each cluster's blocks start, the labels and the blocks: eight vectors each,
//! the values of a dimension side by side.
//!
//! Distances are fractions, given by their bits, and are computed elsewhere: a
//! search ranks the clusters by the distances of their centres, names the slots
//! to be looked at, and keeps the nearest of those by their distances.

use vstd::prelude::*;

use crate::le::{are_i16, are_u32, decode_i16, decode_u32, i16_at, read_u32, u32_at};
use crate::ranked::{is_ranked, labels_of, lemma_offer, offer_all, the_nearest_stay};
use crate::repository::short::{labels_in, pairs_in, Labels, Ranked};
use crate::scan::{matches_at, occurs_at};
use crate::selection::{is_selection, select_smallest, selection, the_smallest_are_selected};
use crate::single::{has_no_value, is_nan, numbers_compare};

verus! {

/// Why bytes are no index.
#[derive(Debug, Clone, Copy, PartialEq, Eq, Structural)]
pub enum LoadError {
    MissingMagic,
    BadMagic,
    Truncated,
    /// The vectors have another number of dimensions than 14.
    Dimensions(u32),
    TruncatedCentroids,
    TruncatedOffsets,
    TruncatedLabels,
    TruncatedBlocks,
}

/// The bytes that name the format: "IVF2".
pub open spec fn magic() -> Seq<u8> {
    seq![0x49u8, 0x56, 0x46, 0x32]
}

pub open spec fn clusters_in(data: Seq<u8>) -> int {
    u32_at(data, 8)
}

pub open spec fn offsets_start(k: int) -> int {
    16 + 56 * k
}

pub open spec fn labels_start(k: int) -> int {
    offsets_start(k) + 4 * (k + 1)
}

/// The number of blocks: where the last cluster's blocks end.
pub open spec fn blocks_in(data: Seq<u8>) -> int {
    u32_at(data, offsets_start(clusters_in(data)) + 4 * clusters_in(data))
}

pub open spec fn blocks_start(k: int, total: int) -> int {
    labels_start(k) + 8 * total
}

/// What is wrong with the bytes, if anything is: the first thing that a reader
/// from front to back comes across.
pub open spec fn load_error(data: Seq<u8>) -> Option<LoadError> {
    let k = clusters_in(data);
    let total = blocks_in(data);
    if data.len() < 4 {
        Some(LoadError::MissingMagic)
    } else if !occurs_at(data, magic(), 0) {
        Some(LoadError::BadMagic)
    } else if data.len() < 16 {
        Some(LoadError::Truncated)
    } else if u32_at(data, 12) != 14 {
        Some(LoadError::Dimensions(u32_at(data, 12) as u32))
    } else if data.len() < offsets_start(k) {
        Some(LoadError::TruncatedCentroids)
    } else if data.len() < labels_start(k) {
        Some(LoadError::TruncatedOffsets)
    } else if data.len() < blocks_start(k, total) {
        Some(LoadError::TruncatedLabels)
    } else if data.len() < blocks_start(k, total) + 224 * total {
        Some(LoadError::TruncatedBlocks)
    } else {
        None
    }
}

/// An index of reference vectors in blocks.
pub struct IvfIndex {
    /// How many clusters there are.
    pub k: usize,
    /// How many vectors there are.
    pub n: usize,
    /// How many clusters are looked at first.
    pub nprobe_fast: usize,
    /// How many clusters are looked at where the first look settles nothing.
    pub nprobe_slow: usize,
    /// The bits of the centres' values: all clusters' first values, then all
    /// second ones, and so on.
    pub centroids: Vec<u32>,
    /// Where each cluster's blocks start, and where the last one's end.
    pub offsets: Vec<u32>,
    /// The labels, eight a block.
    pub labels: Vec<u8>,
    /// The values in ten-thousandths, 112 a block.
    pub blocks: Vec<i16>,
}

impl IvfIndex {
    /// The parts of the index fit together.
    pub open spec fn wf(&self) -> bool {
        &&& self.centroids@.len() == 14 * self.k
        &&& self.offsets@.len() == self.k + 1
        &&& self.labels@.len() == 8 * self.offsets@[self.k as int]
        &&& self.blocks@.len() == 112 * self.offsets@[self.k as int]
    }

    /// Every cluster that is not empty ends within the blocks.
    pub open spec fn clusters_fit(&self) -> bool {
        forall|c: int|
            0 <= c < self.k && self.offsets@[c] < #[trigger] self.offsets@[c + 1]
                ==> self.offsets@[c + 1] <= self.offsets@[self.k as int]
    }

    /// The index is what the bytes say.
    pub open spec fn decodes(&self, data: Seq<u8>) -> bool {
        let k = clusters_in(data);
        let total = blocks_in(data);
        &&& self.wf()
        &&& self.n == u32_at(data, 4)
        &&& self.k == k
        &&& are_u32(self.centroids@, data, 16)
        &&& are_u32(self.offsets@, data, offsets_start(k))
        &&& self.labels@ == data.subrange(labels_start(k), blocks_start(k, total))
        &&& are_i16(self.blocks@, data, blocks_start(k, total))
    }

    /// Reads an index from the bytes of its file.
    pub fn load(data: &[u8], nprobe_fast: usize, nprobe_slow: usize) -> (r: Result<
        IvfIndex,
        LoadError,
    >)
        ensures
            match r {
                Ok(ix) => {
                    &&& load_error(data@) is None
                    &&& ix.decodes(data@)
                    &&& ix.nprobe_fast == nprobe_fast
                    &&& ix.nprobe_slow == nprobe_slow
                },
                Err(e) => load_error(data@) == Some(e),
            },
    {
        let len: u64 = data.len() as u64;
        if len < 4 {
            return Err(LoadError::MissingMagic);
        }
        let name: [u8; 4] = [0x49, 0x56, 0x46, 0x32];
        assert(name@ =~= magic());
        if !matches_at(data, &name, 0) {
            return Err(LoadError::BadMagic);
        }
        if len < 16 {
            return Err(LoadError::Truncated);
        }
        let n = read_u32(data, 4);
        let k: u64 = read_u32(data, 8) as u64;
        let d = read_u32(data, 12);
        if d != 14 {
            return Err(LoadError::Dimensions(d));
        }
        let offsets_at: u64 = 16 + 56 * k;
        if len < offsets_at {
            return Err(LoadError::TruncatedCentroids);
        }
        let labels_at: u64 = offsets_at + 4 * (k + 1);
        if len < labels_at {
            return Err(LoadError::TruncatedOffsets);
        }
        let total: u64 = read_u32(data, (labels_at - 4) as usize) as u64;
        assert(total == blocks_in(data@));
        let blocks_at: u64 = labels_at + 8 * total;
        if len < blocks_at {
            return Err(LoadError::TruncatedLabels);
        }
        if len < blocks_at + 224 * total {
            return Err(LoadError::TruncatedBlocks);
        }
        let centroids = decode_u32(data, 16, 14 * k as usize);
        let offsets = decode_u32(data, offsets_at as usize, k as usize + 1);
        let labels = vstd::slice::slice_to_vec(&data[labels_at as usize..blocks_at as usize]);
        let blocks = decode_i16(data, blocks_at as usize, 112 * total as usize);
        assert(offsets@[k as int] == total);
        Ok(
            IvfIndex {
                k: k as usize,
                n: n as usize,
                nprobe_fast,
                nprobe_slow,
                centroids,
                offsets,
                labels,
                blocks,
            },
        )
    }

    /// Whether every cluster that is not empty ends within the blocks.
    pub fn has_fitting_clusters(&self) -> (r: bool)
        requires
            self.wf(),
        ensures
            r == self.clusters_fit(),
    {
        let total = self.offsets[self.k];
        let mut c: usize = 0;
        while c < self.k
            invariant
                c <= self.k,
                self.wf(),
                total == self.offsets@[self.k as int],
                forall|i: int|
                    0 <= i < c && self.offsets@[i] < #[trigger] self.offsets@[i + 1]
                        ==> self.offsets@[i + 1] <= total,
            decreases self.k - c,
        {
            if self.offsets[c] < self.offsets[c + 1] && self.offsets[c + 1] > total {
                assert(self.offsets@[c as int] < self.offsets@[c + 1]);
                return false;
            }
            c = c + 1;
        }
        true
    }
}

/// The clusters that are looked at: all of them in their order where `nprobe`
/// asks for all, and else the nearest, the nearest first.
pub open spec fn probes_of(dists: Seq<u32>, nprobe: int) -> Seq<usize> {
    if nprobe >= dists.len() {
        Seq::new(dists.len(), |i: int| i as usize)
    } else {
        selection(dists, nprobe)
    }
}

/// The numbers from `start` up to `end`.
pub open spec fn numbers(start: int, end: int) -> Seq<usize> {
    Seq::new((if start < end {
        end - start
    } else {
        0
    }) as nat, |i: int| (start + i) as usize)
}

/// The items that a search looks at: the slots' distances and labels, but for
/// those that have no distance.
pub open spec fn items_of(labels: Seq<u8>, slots: Seq<usize>, dists: Seq<u32>, n: int) -> Seq<
    (u32, u8),
>
    decreases n,
{
    if n <= 0 {
        Seq::empty()
    } else if is_nan(dists[n - 1]) {
        items_of(labels, slots, dists, n - 1)
    } else {
        items_of(labels, slots, dists, n - 1).push((dists[n - 1], labels[slots[n - 1] as int]))
    }
}

/// How many labels say fraud.
pub open spec fn fraud_votes(labels: Seq<u8>) -> int
    decreases labels.len(),
{
    if labels.len() == 0 {
        0
    } else {
        fraud_votes(labels.drop_last()) + (if labels.last() == 1 {
            1int
        } else {
            0int
        })
    }
}

/// Whether the labels of `k` neighbours settle the matter: at most one, or all
/// but at most one of them say fraud.
pub open spec fn is_settled(labels: Seq<u8>, k: int) -> bool {
    fraud_votes(labels) <= 1 || fraud_votes(labels) >= (if k > 0 {
        k - 1
    } else {
        0
    })
}

/// What is to be done after the first look.
pub enum Adaptive {
    /// The labels settle the matter.
    Settled(Labels),
    /// The search is to be done again with this many clusters.
    Repeat(usize),
}

/// How many labels say fraud.
pub fn count_fraud_votes(labels: &[u8]) -> (r: usize)
    ensures
        r == fraud_votes(labels@),
        r <= labels@.len(),
{
    let mut votes: usize = 0;
    let mut i: usize = 0;
    while i < labels.len()
        invariant
            i <= labels@.len(),
            votes <= i,
            votes == fraud_votes(labels@.take(i as int)),
        decreases labels@.len() - i,
    {
        assert(labels@.take(i + 1).drop_last() =~= labels@.take(i as int));
        if labels[i] == 1 {
            votes = votes + 1;
        }
        i = i + 1;
    }
    assert(labels@.take(i as int) =~= labels@);
    votes
}

impl IvfIndex {
    /// The slots of some clusters, in the order in which they are looked at.
    pub open spec fn slots_of(&self, probes: Seq<usize>) -> Seq<usize>
        decreases probes.len(),
    {
        if probes.len() == 0 {
            Seq::empty()
        } else {
            let c = probes.last() as int;
            self.slots_of(probes.drop_last()) + numbers(
                self.offsets@[c] * 8,
                self.offsets@[c + 1] * 8,
            )
        }
    }

    /// The clusters that are looked at. `dists` holds the distances of their
    /// centres, by the bits of fractions that are not negative.
    pub fn probes(&self, dists: &[u32], nprobe: usize) -> (r: Vec<usize>)
        requires
            dists@.len() == self.k,
            1 <= nprobe || self.k == 0,
        ensures
            r@ == probes_of(dists@, nprobe as int),
            nprobe < self.k ==> is_selection(dists@, r@, nprobe as int),
            forall|i: int| 0 <= i < r@.len() ==> #[trigger] r@[i] < self.k,
    {
        if nprobe < dists.len() {
            return select_smallest(dists, nprobe);
        }
        let mut r: Vec<usize> = Vec::new();
        let mut i: usize = 0;
        while i < dists.len()
            invariant
                i <= dists@.len(),
                r@.len() == i,
                forall|j: int| 0 <= j < i ==> #[trigger] r@[j] == j,
            decreases dists@.len() - i,
        {
            r.push(i);
            i = i + 1;
        }
        assert(r@ =~= probes_of(dists@, nprobe as int));
        r
    }

    /// The slots of some clusters, in the order in which they are looked at.
    pub fn slots(&self, probes: &[usize]) -> (r: Vec<usize>)
        requires
            self.wf(),
            self.clusters_fit(),
            forall|i: int| 0 <= i < probes@.len() ==> #[trigger] probes@[i] < self.k,
        ensures
            r@ == self.slots_of(probes@),
            forall|i: int| 0 <= i < r@.len() ==> #[trigger] r@[i] < self.labels@.len(),
    {
        let mut r: Vec<usize> = Vec::new();
        let mut n: usize = 0;
        assert(probes@.take(0) =~= Seq::<usize>::empty());
        while n < probes.len()
            invariant
                self.wf(),
                self.clusters_fit(),
                forall|i: int| 0 <= i < probes@.len() ==> #[trigger] probes@[i] < self.k,
                n <= probes@.len(),
                r@ == self.slots_of(probes@.take(n as int)),
                forall|i: int| 0 <= i < r@.len() ==> #[trigger] r@[i] < self.labels@.len(),
            decreases probes@.len() - n,
        {
            let c: usize = probes[n];
            let first: u64 = self.offsets[c] as u64 * 8;
            let end: u64 = self.offsets[c + 1] as u64 * 8;
            let ghost before = r@;
            if first < end {
                assert(end <= self.labels.len());
                let mut s: usize = first as usize;
                while s < end as usize
                    invariant
                        first <= s <= end <= self.labels.len(),
                        r@ == before + numbers(first as int, s as int),
                        forall|i: int|
                            0 <= i < before.len() ==> #[trigger] before[i] < self.labels@.len(),
                        forall|i: int| 0 <= i < r@.len() ==> #[trigger] r@[i] < self.labels@.len(),
                    decreases end - s,
                {
                    r.push(s);
                    assert(numbers(first as int, s as int).push(s) =~= numbers(
                        first as int,
                        s + 1,
                    ));
                    assert(r@ =~= before + numbers(first as int, s + 1));
                    s = s + 1;
                }
            } else {
                assert(r@ =~= before + numbers(first as int, end as int));
            }
            proof {
                assert(probes@.take(n + 1).drop_last() =~= probes@.take(n as int));
            }
            n = n + 1;
        }
        assert(probes@.take(n as int) =~= probes@);
        r
    }

    /// The values of the vector in a slot.
    pub fn slot_values(&self, slot: usize) -> (r: [i16; 14])
        requires
            self.wf(),
            slot < self.labels@.len(),
        ensures
            forall|d: int|
                0 <= d < 14 ==> #[trigger] r@[d] == self.blocks@[slot / 8 * 112 + d * 8 + slot % 8],
    {
        assert(slot / 8 + 1 <= self.offsets@[self.k as int]);
        assert(slot / 8 * 112 + 112 <= self.blocks.len());
        let base: usize = slot / 8 * 112 + slot % 8;
        let mut r: [i16; 14] = [0; 14];
        let mut d: usize = 0;
        while d < 14
            invariant
                self.wf(),
                d <= 14,
                slot < self.labels@.len(),
                base == slot / 8 * 112 + slot % 8,
                base + 13 * 8 < self.blocks.len(),
                forall|j: int|
                    0 <= j < d ==> #[trigger] r@[j] == self.blocks@[slot / 8 * 112 + j * 8 + slot
                        % 8],
            decreases 14 - d,
        {
            r[d] = self.blocks[base + d * 8];
            d = d + 1;
        }
        r
    }

    /// The labels of the `k` nearest of some slots, the nearest first, first
    /// come first among equals. `dists` holds the slots' distances by the bits
    /// of fractions that are not negative; a slot without one is passed over.
    pub fn knn(&self, slots: &[usize], dists: &[u32], k: usize) -> (r: Labels)
        requires
            self.wf(),
            slots@.len() == dists@.len(),
            forall|i: int| 0 <= i < slots@.len() ==> #[trigger] slots@[i] < self.labels@.len(),
            1 <= k,
        ensures
            labels_in(r) == labels_of(
                offer_all(
                    Seq::empty(),
                    k as int,
                    items_of(self.labels@, slots@, dists@, slots@.len() as int),
                ),
            ),
    {
        let mut top = Ranked::new();
        let mut i: usize = 0;
        while i < slots.len()
            invariant
                self.wf(),
                i <= slots@.len(),
                slots@.len() == dists@.len(),
                forall|i: int| 0 <= i < slots@.len() ==> #[trigger] slots@[i] < self.labels@.len(),
                1 <= k,
                pairs_in(top) == offer_all(
                    Seq::empty(),
                    k as int,
                    items_of(self.labels@, slots@, dists@, i as int),
                ),
                pairs_in(top).len() <= k,
            decreases slots@.len() - i,
        {
            if !has_no_value(dists[i]) {
                let item: (u32, u8) = (dists[i], self.labels[slots[i]]);
                let ghost items = items_of(self.labels@, slots@, dists@, i as int);
                proof {
                    assert(items.push(item).drop_last() =~= items);
                    let dropped = the_nearest_stay(Seq::empty(), k as int, items);
                    lemma_offer(pairs_in(top), k as int, item);
                }
                top.offer_item(k, item);
            }
            i = i + 1;
        }
        top.labels()
    }

    /// What is to be done after a first look that found `stage1`.
    pub fn knn_adaptive(&self, stage1: Labels, k: usize) -> (r: Adaptive)
        ensures
            is_settled(labels_in(stage1), k as int) ==> r == Adaptive::Settled(stage1),
            !is_settled(labels_in(stage1), k as int) ==> r == Adaptive::Repeat(self.nprobe_slow),
    {
        let votes = count_fraud_votes(stage1.as_slice());
        if votes <= 1 || votes >= k.saturating_sub(1) {
            Adaptive::Settled(stage1)
        } else {
            Adaptive::Repeat(self.nprobe_slow)
        }
    }
}

/// Of the slots that were looked at and have a distance, the `k` nearest are
/// kept, in order: nothing that dropped out is nearer than the last that stays.
pub proof fn the_k_nearest_slots_stay(
    labels: Seq<u8>,
    slots: Seq<usize>,
    dists: Seq<u32>,
    k: int,
) -> (dropped: vstd::multiset::Multiset<(u32, u8)>)
    requires
        1 <= k,
    ensures
        ({
            let items = items_of(labels, slots, dists, slots.len() as int);
            let top = offer_all(Seq::empty(), k, items);
            &&& is_ranked(top)
            &&& top.len() == (if items.len() < k {
                items.len() as int
            } else {
                k
            })
            &&& items.to_multiset() == top.to_multiset().add(dropped)
            &&& forall|x: (u32, u8)| #[trigger] dropped.count(x) > 0 ==> top.last().0 <= x.0
        }),
{
    let items = items_of(labels, slots, dists, slots.len() as int);
    let empty = Seq::<(u32, u8)>::empty();
    let dropped = the_nearest_stay(empty, k, items);
    assert(empty.to_multiset() =~= vstd::multiset::Multiset::<(u32, u8)>::empty()) by {
        broadcast use vstd::seq_lib::group_to_multiset_ensures;

    }
    assert(empty.to_multiset().add(items.to_multiset()) =~= items.to_multiset());
    dropped
}

/// With five neighbours, the first look settles the matter unless two or three
/// of them say fraud.
pub proof fn two_or_three_of_five_are_not_settled(labels: Seq<u8>)
    requires
        labels.len() == 5,
    ensures
        is_settled(labels, 5) <==> fraud_votes(labels) != 2 && fraud_votes(labels) != 3,
        0 <= fraud_votes(labels) <= 5,
{
    reveal_with_fuel(fraud_votes, 6);
}

/// Each label that is 1 is a vote for fraud, and no other is; the votes of two
/// groups of labels add up.
pub proof fn ones_are_votes(labels: Seq<u8>, more: Seq<u8>, x: u8)
    ensures
        fraud_votes(Seq::empty()) == 0,
        fraud_votes(labels.push(1)) == fraud_votes(labels) + 1,
        x != 1 ==> fraud_votes(labels.push(x)) == fraud_votes(labels),
        fraud_votes(labels + more) == fraud_votes(labels) + fraud_votes(more),
    decreases more.len(),
{
    assert(labels.push(1).drop_last() =~= labels);
    assert(labels.push(x).drop_last() =~= labels);
    if more.len() == 0 {
        assert(labels + more =~= labels);
    } else {
        ones_are_votes(labels, more.drop_last(), x);
        assert((labels + more).drop_last() =~= labels + more.drop_last());
    }
}

/// All clusters are looked at in their order where as many are asked for as there
/// are; else those whose centres are nearest, the nearest first, and of two that
/// are as near the one that is stored first.
pub proof fn the_nearest_clusters_are_looked_at(dists: Seq<u32>, nprobe: int)
    requires
        0 <= nprobe,
        dists.len() <= usize::MAX,
    ensures
        nprobe >= dists.len() ==> probes_of(dists, nprobe).len() == dists.len() && forall|i: int|
            0 <= i < dists.len() ==> #[trigger] probes_of(dists, nprobe)[i] == i,
        nprobe < dists.len() ==> probes_of(dists, nprobe).len() == nprobe && forall|c: int, i: int|
            #![trigger dists[c], probes_of(dists, nprobe)[i]]
            0 <= c < dists.len() && !probes_of(dists, nprobe).contains(c as usize) && 0 <= i
                < nprobe ==> dists[probes_of(dists, nprobe)[i] as int] < dists[c] || (
            dists[probes_of(dists, nprobe)[i] as int] == dists[c] && probes_of(dists, nprobe)[i]
                < c),
        nprobe < dists.len() ==> forall|i: int, j: int|
            0 <= i < j < nprobe ==> {
                let a = #[trigger] probes_of(dists, nprobe)[i] as int;
                let b = #[trigger] probes_of(dists, nprobe)[j] as int;
                dists[a] < dists[b] || (dists[a] == dists[b] && a < b)
            },
{
    if nprobe < dists.len() {
        the_smallest_are_selected(dists, nprobe);
    }
}

/// Behind the slots of some clusters come those of the next one: eight for each of
/// its blocks, from its first to its last.
pub proof fn slots_follow_their_clusters(ix: &IvfIndex, probes: Seq<usize>, c: usize)
    requires
        ix.offsets@[c as int] <= ix.offsets@[c + 1],
        ix.offsets@[c + 1] * 8 <= usize::MAX,
    ensures
        ix.slots_of(Seq::empty()).len() == 0,
        ix.slots_of(probes.push(c)).len() == ix.slots_of(probes).len() + 8 * (ix.offsets@[c + 1]
            - ix.offsets@[c as int]),
        forall|i: int|
            0 <= i < ix.slots_of(probes).len() ==> #[trigger] ix.slots_of(probes.push(c))[i]
                == ix.slots_of(probes)[i],
        forall|i: int|
            ix.slots_of(probes).len() <= i < ix.slots_of(probes.push(c)).len()
                ==> #[trigger] ix.slots_of(probes.push(c))[i] == 8 * ix.offsets@[c as int] + (i
                - ix.slots_of(probes).len()),
{
    assert(probes.push(c).drop_last() =~= probes);
}

/// A slot that has a distance is looked at by that distance and its own label,
/// behind those before it; a slot without a distance is passed over.
pub proof fn slots_are_looked_at_in_order(
    labels: Seq<u8>,
    slots: Seq<usize>,
    dists: Seq<u32>,
    n: int,
)
    requires
        0 <= n,
    ensures
        items_of(labels, slots, dists, 0).len() == 0,
        0x7f80_0000 < dists[n] < 0x8000_0000 || 0xff80_0000 < dists[n] ==> items_of(
            labels,
            slots,
            dists,
            n + 1,
        ) == items_of(labels, slots, dists, n),
        !(0x7f80_0000 < dists[n] < 0x8000_0000 || 0xff80_0000 < dists[n]) ==> items_of(
            labels,
            slots,
            dists,
            n + 1,
        ) == items_of(labels, slots, dists, n).push((dists[n], labels[slots[n] as int])),
{
    numbers_compare(dists[n], dists[n]);
}

/// Whether bytes are refused because they speak of `n` dimensions.
pub open spec fn is_other_dimension(error: Option<LoadError>, n: u32) -> bool {
    error == Some(LoadError::Dimensions(n))
}

/// Bytes are an index where they begin with "IVF2", speak of 14 dimensions, and are
/// long enough for what they announce: 56 bytes for each cluster's centre, 4 for
/// where each cluster's blocks start and where the last one's end, and for each
/// block 8 labels and 112 values. Other bytes are told what is missing first.
pub proof fn files_are_checked(data: Seq<u8>)
    ensures
        ({
            let named = data[0] == 0x49 && data[1] == 0x56 && data[2] == 0x46 && data[3] == 0x32;
            let k = u32_at(data, 8);
            let d = u32_at(data, 12);
            let total = u32_at(data, 16 + 60 * k);
            let good = data.len() >= 16 && named && d == 14;
            &&& load_error(data) is None <==> good && data.len() >= 16 + 56 * k + 4 * (k + 1)
                && data.len() >= 16 + 56 * k + 4 * (k + 1) + 8 * total + 224 * total
            &&& load_error(data) == Some(LoadError::MissingMagic) <==> data.len() < 4
            &&& load_error(data) == Some(LoadError::BadMagic) <==> data.len() >= 4 && !named
            &&& load_error(data) == Some(LoadError::Truncated) <==> 4 <= data.len() < 16 && named
            &&& forall|n: u32| #[trigger]
                is_other_dimension(load_error(data), n) <==> data.len() >= 16 && named && d != 14
                    && n == d
            &&& load_error(data) == Some(LoadError::TruncatedCentroids) <==> good && data.len()
                < 16 + 56 * k
            &&& load_error(data) == Some(LoadError::TruncatedOffsets) <==> good && 16 + 56 * k
                <= data.len() < 16 + 56 * k + 4 * (k + 1)
            &&& load_error(data) == Some(LoadError::TruncatedLabels) <==> good && 16 + 56 * k + 4
                * (k + 1) <= data.len() < 16 + 56 * k + 4 * (k + 1) + 8 * total
            &&& load_error(data) == Some(LoadError::TruncatedBlocks) <==> good && 16 + 56 * k + 4
                * (k + 1) + 8 * total <= data.len() && 16 + 56 * k + 4 * (k + 1) <= data.len()
                && data.len() < 16 + 56 * k + 4 * (k + 1) + 232 * total
        }),
{
    let name = magic();
    assert(name[0] == 0x49 && name[1] == 0x56 && name[2] == 0x46 && name[3] == 0x32);
    if data.len() >= 4 {
        let first = data.subrange(0, 4);
        assert(first[0] == data[0] && first[1] == data[1] && first[2] == data[2] && first[3]
            == data[3]);
        if data[0] == 0x49 && data[1] == 0x56 && data[2] == 0x46 && data[3] == 0x32 {
            assert(first =~= name);
        }
    }
}

/// An index holds what its file holds, each part behind the one before: the value
/// of a centre, where a cluster starts, the label in a slot, and its values.
pub proof fn files_hold_the_slots(ix: &IvfIndex, data: Seq<u8>, c: int, d: int, s: int)
    requires
        load_error(data) is None,
        ix.decodes(data),
        0 <= d < 14,
    ensures
        ix.n == u32_at(data, 4),
        ix.k == u32_at(data, 8),
        0 <= c < ix.k ==> ix.centroids@[d * ix.k + c] == u32_at(data, 16 + 4 * (d * ix.k + c)),
        0 <= c <= ix.k ==> ix.offsets@[c] == u32_at(data, 16 + 56 * ix.k + 4 * c),
        0 <= s < ix.labels@.len() ==> ix.labels@[s] == data[16 + 56 * ix.k + 4 * (ix.k + 1) + s],
        0 <= s < ix.blocks@.len() ==> ix.blocks@[s] == i16_at(
            data,
            16 + 56 * ix.k + 4 * (ix.k + 1) + ix.labels@.len() + 2 * s,
        ),
{
    let k = ix.k as int;
    if 0 <= c < k {
        assert(0 <= d * k + c < 14 * k) by (nonlinear_arith)
            requires
                0 <= d < 14,
                0 <= c < k,
        ;
        let at = d * k + c;
        assert(ix.centroids@[at] == u32_at(data, 16 + 4 * at));
    }
}

/// Among any number of neighbours, none or one that says fraud settles the matter,
/// and so do all or all but one; anything between does not.
pub proof fn one_dissenter_settles(labels: Seq<u8>, k: int)
    requires
        1 <= k,
    ensures
        fraud_votes(labels) <= 1 ==> is_settled(labels, k),
        fraud_votes(labels) + 1 >= k ==> is_settled(labels, k),
        2 <= fraud_votes(labels) <= k - 2 ==> !is_settled(labels, k),
{
}

} // verus!
