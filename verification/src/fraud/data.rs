//! Index files and the table of partitions.
//!
//! An index file starts with a header of 64 bytes: eight bytes that name the
//! format, the number of clusters and the number of vectors. Five sections
//! follow, each on a boundary of 64 bytes: the first vector of each cluster,
//! the lower and the upper corners of the clusters' boxes, the vectors with
//! one row of padding, and the vectors' labels.

use vstd::arithmetic::div_mod::lemma_fundamental_div_mod_converse;
use vstd::prelude::*;

use crate::le::{are_i16, are_u32, decode_i16, decode_u32, i16_at, read_u32, u32_at};
use crate::scan::{matches_at, occurs_at};

verus! {

pub const N_DIMS: usize = 14;

/// Dimensions come in pairs.
pub const N_PAIRS: usize = 7;

pub const N_PROBE_INITIAL: usize = 12;

pub const N_PROBE_REPAIR_MIN: usize = 1;

pub const N_PROBE_REPAIR_MAX: usize = 4;

pub const CID_BITS: u32 = 12;

pub const IDX_BITS: u32 = 22;

pub const CID_MASK: i64 = 0xFFF;

pub const K_NEIGHBORS: usize = 5;

/// The most clusters that an index may have.
pub const MAX_CLUSTERS: u32 = 4096;

/// How many partitions there are.
pub const N_TAGS: usize = 16;

/// How many of the partitions have an index file.
pub const N_FILES: usize = 12;

/// Why bytes are no index.
#[derive(Debug, Clone, Copy, PartialEq, Eq, Structural)]
pub enum OpenError {
    /// There is no whole header, or it names another format.
    BadMagic,
    /// The number of clusters is 0 or above `MAX_CLUSTERS`.
    ClustersOutOfRange(u32),
}

/// The bytes that name the format: "RNH5-IDX".
pub open spec fn magic() -> Seq<u8> {
    seq![0x52u8, 0x4e, 0x48, 0x35, 0x2d, 0x49, 0x44, 0x58]
}

/// The first multiple of 64 that is not below `x`.
pub open spec fn aligned(x: int) -> int {
    (x + 63) / 64 * 64
}

pub open spec fn clusters_in(data: Seq<u8>) -> int {
    u32_at(data, 8)
}

pub open spec fn vectors_in(data: Seq<u8>) -> int {
    u32_at(data, 12)
}

pub open spec fn box_min_start(k: int) -> int {
    aligned(64 + (k + 1) * 4)
}

pub open spec fn box_max_start(k: int) -> int {
    aligned(box_min_start(k) + k * 32)
}

pub open spec fn vectors_start(k: int) -> int {
    aligned(box_max_start(k) + k * 32)
}

pub open spec fn labels_start(k: int, n: int) -> int {
    aligned(vectors_start(k) + (n + 1) * 32)
}

/// What is wrong with the header, if anything is.
pub open spec fn header_error(data: Seq<u8>) -> Option<OpenError> {
    if data.len() < 64 || !occurs_at(data, magic(), 0) {
        Some(OpenError::BadMagic)
    } else if clusters_in(data) < 1 || clusters_in(data) > MAX_CLUSTERS {
        Some(OpenError::ClustersOutOfRange(clusters_in(data) as u32))
    } else {
        None
    }
}

/// Whether all the sections that a good header announces are there.
pub open spec fn is_complete(data: Seq<u8>) -> bool {
    header_error(data) is None ==> labels_start(clusters_in(data), vectors_in(data)) + vectors_in(
        data,
    ) <= data.len()
}

/// Corner values of clusters, eight clusters side by side: the values of the
/// pairs of dimensions in turn, for each the values of eight clusters.
pub open spec fn interleaved(corner: Seq<i16>, k: int, pad: i16) -> Seq<i16> {
    Seq::new(
        ((k + 7) / 8 * 112) as nat,
        |at: int|
            {
                let c = lane_cluster(at);
                if c < k {
                    corner[c * 16 + lane_dim(at)]
                } else {
                    pad
                }
            },
    )
}

/// The cluster whose value stands at `at`.
pub open spec fn lane_cluster(at: int) -> int {
    at / 112 * 8 + at % 16 / 2
}

/// The dimension whose value stands at `at`.
pub open spec fn lane_dim(at: int) -> int {
    at % 112 / 16 * 2 + at % 2
}

/// An index of reference vectors in clusters.
pub struct IvfIndex {
    pub n_clusters: usize,
    pub n_vectors: usize,
    /// Where each cluster's vectors start, and where the last one's end.
    pub cluster_offsets: Vec<u32>,
    /// The least value of each dimension in each cluster, 16 a cluster.
    pub bbox_min: Vec<i16>,
    /// The greatest value of each dimension in each cluster, 16 a cluster.
    pub bbox_max: Vec<i16>,
    /// The vectors, 16 values each, and one row of padding.
    pub flat_vec: Vec<i16>,
    pub labels: Vec<u8>,
    /// The values of `bbox_min`, eight clusters side by side.
    pub bpsoa_min: Vec<i16>,
    /// The values of `bbox_max`, eight clusters side by side.
    pub bpsoa_max: Vec<i16>,
}

impl IvfIndex {
    /// The parts of the index fit together.
    pub open spec fn wf(&self) -> bool {
        let k = self.n_clusters as int;
        let n = self.n_vectors as int;
        &&& 1 <= k <= MAX_CLUSTERS
        &&& n <= u32::MAX
        &&& self.cluster_offsets@.len() == k + 1
        &&& self.bbox_min@.len() == k * 16
        &&& self.bbox_max@.len() == k * 16
        &&& self.flat_vec@.len() == (n + 1) * 16
        &&& self.labels@.len() == n
        &&& self.bpsoa_min@ == interleaved(self.bbox_min@, k, i16::MAX)
        &&& self.bpsoa_max@ == interleaved(self.bbox_max@, k, i16::MIN)
    }

    /// Every cluster that is not empty ends within the vectors.
    pub open spec fn clusters_fit(&self) -> bool {
        forall|c: int|
            0 <= c < self.n_clusters && self.cluster_offsets@[c] < #[trigger] self.cluster_offsets@[c
                + 1] ==> self.cluster_offsets@[c + 1] <= self.n_vectors
    }

    /// The index is what the bytes say.
    pub open spec fn decodes(&self, data: Seq<u8>) -> bool {
        let k = clusters_in(data);
        let n = vectors_in(data);
        &&& self.wf()
        &&& self.n_clusters == k
        &&& self.n_vectors == n
        &&& are_u32(self.cluster_offsets@, data, 64)
        &&& are_i16(self.bbox_min@, data, box_min_start(k))
        &&& are_i16(self.bbox_max@, data, box_max_start(k))
        &&& are_i16(self.flat_vec@, data, vectors_start(k))
        &&& self.labels@ == data.subrange(labels_start(k, n), labels_start(k, n) + n)
    }

    /// Reads an index from the bytes of its file.
    pub fn open(data: &[u8]) -> (r: Result<IvfIndex, OpenError>)
        requires
            is_complete(data@),
        ensures
            match r {
                Ok(ix) => header_error(data@) is None && ix.decodes(data@),
                Err(e) => header_error(data@) == Some(e),
            },
    {
        if let Some(e) = check_header(data) {
            return Err(e);
        }
        let k: u64 = read_u32(data, 8) as u64;
        let n: u64 = read_u32(data, 12) as u64;
        let sections = Sections::of(k, n);
        assert(data.len() == data@.len());
        let n_clusters: usize = k as usize;
        let n_vectors: usize = n as usize;
        let cluster_offsets = decode_u32(data, 64, n_clusters + 1);
        let bbox_min = decode_i16(data, sections.box_min as usize, n_clusters * 16);
        let bbox_max = decode_i16(data, sections.box_max as usize, n_clusters * 16);
        let flat_vec = decode_i16(data, sections.vectors as usize, (n_vectors + 1) * 16);
        let start: usize = sections.labels as usize;
        let labels = vstd::slice::slice_to_vec(&data[start..start + n_vectors]);
        let bpsoa_min = interleave(&bbox_min, n_clusters, i16::MAX);
        let bpsoa_max = interleave(&bbox_max, n_clusters, i16::MIN);
        Ok(
            IvfIndex {
                n_clusters,
                n_vectors,
                cluster_offsets,
                bbox_min,
                bbox_max,
                flat_vec,
                labels,
                bpsoa_min,
                bpsoa_max,
            },
        )
    }

    /// Whether every cluster that is not empty ends within the vectors.
    pub fn has_fitting_clusters(&self) -> (r: bool)
        requires
            self.wf(),
        ensures
            r == self.clusters_fit(),
    {
        let mut c: usize = 0;
        while c < self.n_clusters
            invariant
                c <= self.n_clusters,
                self.wf(),
                forall|i: int|
                    0 <= i < c && self.cluster_offsets@[i] < #[trigger] self.cluster_offsets@[i + 1]
                        ==> self.cluster_offsets@[i + 1] <= self.n_vectors,
            decreases self.n_clusters - c,
        {
            let start = self.cluster_offsets[c];
            let end = self.cluster_offsets[c + 1];
            if start < end && end as u64 > self.n_vectors as u64 {
                assert(self.cluster_offsets@[c + 1] > self.n_vectors);
                return false;
            }
            c = c + 1;
        }
        true
    }
}

/// Where the sections after the first one start.
struct Sections {
    box_min: u64,
    box_max: u64,
    vectors: u64,
    labels: u64,
}

impl Sections {
    fn of(k: u64, n: u64) -> (r: Sections)
        requires
            k <= MAX_CLUSTERS,
            n <= u32::MAX,
        ensures
            r.box_min == box_min_start(k as int),
            r.box_max == box_max_start(k as int),
            r.vectors == vectors_start(k as int),
            r.labels == labels_start(k as int, n as int),
            64 + (k + 1) * 4 <= r.box_min,
            r.box_min + k * 32 <= r.box_max,
            r.box_max + k * 32 <= r.vectors,
            r.vectors + (n + 1) * 32 <= r.labels,
            r.labels <= 0x100_0000_0000,
    {
        let box_min = align64(64 + (k + 1) * 4);
        let box_max = align64(box_min + k * 32);
        let vectors = align64(box_max + k * 32);
        let labels = align64(vectors + (n + 1) * 32);
        Sections { box_min, box_max, vectors, labels }
    }
}

/// The first multiple of 64 that is not below `x`.
pub fn align64(x: u64) -> (r: u64)
    requires
        x <= u64::MAX - 63,
    ensures
        r == aligned(x as int),
        x <= r < x + 64,
{
    let y: u64 = x + 63;
    assert(y & !63u64 == y / 64 * 64) by (bit_vector);
    y & !63
}

fn check_header(data: &[u8]) -> (r: Option<OpenError>)
    ensures
        r == header_error(data@),
{
    let name: [u8; 8] = [0x52, 0x4e, 0x48, 0x35, 0x2d, 0x49, 0x44, 0x58];
    assert(name@ =~= magic());
    if data.len() < 64 || !matches_at(data, &name, 0) {
        return Some(OpenError::BadMagic);
    }
    let k = read_u32(data, 8);
    if k < 1 || k > MAX_CLUSTERS {
        return Some(OpenError::ClustersOutOfRange(k));
    }
    None
}

/// Whether all the sections that a good header announces are there.
pub fn is_complete_file(data: &[u8]) -> (r: bool)
    ensures
        r == is_complete(data@),
{
    if check_header(data).is_some() {
        return true;
    }
    let k: u64 = read_u32(data, 8) as u64;
    let n: u64 = read_u32(data, 12) as u64;
    let sections = Sections::of(k, n);
    sections.labels + n <= data.len() as u64
}

/// Puts the corner values of eight clusters side by side. `pad` stands for the
/// clusters that are missing from the last eight.
fn interleave(corner: &Vec<i16>, k: usize, pad: i16) -> (r: Vec<i16>)
    requires
        k <= MAX_CLUSTERS,
        corner@.len() == k * 16,
    ensures
        r@ == interleaved(corner@, k as int, pad),
{
    let len: usize = (k + 7) / 8 * 112;
    let mut out: Vec<i16> = Vec::new();
    let mut at: usize = 0;
    while at < len
        invariant
            at <= len,
            len == (k + 7) / 8 * 112,
            k <= MAX_CLUSTERS,
            corner@.len() == k * 16,
            out@.len() == at,
            forall|j: int| 0 <= j < at ==> out@[j] == interleaved(corner@, k as int, pad)[j],
        decreases len - at,
    {
        let c: usize = at / 112 * 8 + at % 16 / 2;
        let d: usize = at % 112 / 16 * 2 + at % 2;
        assert(d < 14);
        out.push(
            if c < k {
                corner[c * 16 + d]
            } else {
                pad
            },
        );
        at = at + 1;
    }
    assert(out@ =~= interleaved(corner@, k as int, pad));
    out
}

/// The file of each partition that has one.
pub open spec fn file_of(tag: int) -> Option<Seq<char>> {
    if tag == 0 {
        Some("index/index_p0.bin"@)
    } else if tag == 1 {
        Some("index/index_p1.bin"@)
    } else if tag == 2 {
        Some("index/index_p2.bin"@)
    } else if tag == 3 {
        Some("index/index_p3.bin"@)
    } else if tag == 4 {
        Some("index/index_p4.bin"@)
    } else if tag == 5 {
        Some("index/index_p5.bin"@)
    } else if tag == 6 {
        Some("index/index_p6.bin"@)
    } else if tag == 7 {
        Some("index/index_p7.bin"@)
    } else if tag == 8 {
        Some("index/index_p8.bin"@)
    } else if tag == 9 {
        Some("index/index_p9.bin"@)
    } else if tag == 10 {
        Some("index/index_p10.bin"@)
    } else if tag == 11 {
        Some("index/index_p11.bin"@)
    } else {
        None
    }
}

/// The file of a partition; the last four partitions have none.
pub fn tag_path(tag: usize) -> (r: Option<&'static str>)
    ensures
        match r {
            Some(path) => file_of(tag as int) == Some(path@),
            None => file_of(tag as int) is None,
        },
{
    match tag {
        0 => Some("index/index_p0.bin"),
        1 => Some("index/index_p1.bin"),
        2 => Some("index/index_p2.bin"),
        3 => Some("index/index_p3.bin"),
        4 => Some("index/index_p4.bin"),
        5 => Some("index/index_p5.bin"),
        6 => Some("index/index_p6.bin"),
        7 => Some("index/index_p7.bin"),
        8 => Some("index/index_p8.bin"),
        9 => Some("index/index_p9.bin"),
        10 => Some("index/index_p10.bin"),
        11 => Some("index/index_p11.bin"),
        _ => None,
    }
}

/// The indexes of the partitions, by tag.
pub struct IndexTable {
    pub slots: Vec<Option<IvfIndex>>,
}

impl IndexTable {
    /// There is a slot for each tag, and what is in the slots fits together.
    pub open spec fn wf(&self) -> bool {
        &&& self.slots@.len() == N_TAGS
        &&& forall|t: int|
            0 <= t < N_TAGS ==> (#[trigger] self.slots@[t] matches Some(ix) ==> ix.wf())
    }

    /// Every index can be searched.
    pub open spec fn clusters_fit(&self) -> bool {
        forall|t: int|
            0 <= t < N_TAGS ==> (#[trigger] self.slots@[t] matches Some(ix) ==> ix.clusters_fit())
    }

    /// The index of a partition.
    pub fn index_for_tag(&self, tag: usize) -> (r: Option<&IvfIndex>)
        requires
            self.wf(),
            tag < N_TAGS,
        ensures
            match r {
                Some(ix) => self.slots@[tag as int] == Some(*ix),
                None => self.slots@[tag as int] is None,
            },
    {
        self.slots[tag].as_ref()
    }
}

/// Reads the indexes of all partitions that have a file; `files` holds the
/// files' bytes, by tag. The first file that is no index is told.
pub fn init_indices(files: &[&[u8]]) -> (r: Result<IndexTable, (usize, OpenError)>)
    requires
        files@.len() == N_FILES,
        forall|t: int| 0 <= t < N_FILES ==> is_complete(#[trigger] files@[t]@),
    ensures
        match r {
            Ok(table) => {
                &&& table.wf()
                &&& forall|t: int|
                    0 <= t < N_FILES ==> header_error(#[trigger] files@[t]@) is None && (
                    table.slots@[t] matches Some(ix) && ix.decodes(files@[t]@))
                &&& forall|t: int| N_FILES <= t < N_TAGS ==> #[trigger] table.slots@[t] is None
            },
            Err((tag, e)) => {
                &&& tag < N_FILES
                &&& header_error(files@[tag as int]@) == Some(e)
                &&& forall|t: int| 0 <= t < tag ==> header_error(#[trigger] files@[t]@) is None
            },
        },
{
    let mut slots: Vec<Option<IvfIndex>> = Vec::new();
    let mut tag: usize = 0;
    while tag < N_FILES
        invariant
            tag <= N_FILES,
            files@.len() == N_FILES,
            forall|t: int| 0 <= t < N_FILES ==> is_complete(#[trigger] files@[t]@),
            slots@.len() == tag,
            forall|t: int|
                0 <= t < tag ==> header_error(#[trigger] files@[t]@) is None && (
                slots@[t] matches Some(ix) && ix.decodes(files@[t]@)),
        decreases N_FILES - tag,
    {
        match IvfIndex::open(files[tag]) {
            Ok(ix) => slots.push(Some(ix)),
            Err(e) => {
                return Err((tag, e));
            },
        }
        tag = tag + 1;
    }
    assert forall|t: int| 0 <= t < tag implies (#[trigger] slots@[t] matches Some(ix) && ix.wf()) by {
        assert(is_complete(files@[t]@));
    }
    while tag < N_TAGS
        invariant
            N_FILES <= tag <= N_TAGS,
            files@.len() == N_FILES,
            slots@.len() == tag,
            forall|t: int|
                0 <= t < N_FILES ==> header_error(#[trigger] files@[t]@) is None && (
                slots@[t] matches Some(ix) && ix.decodes(files@[t]@)),
            forall|t: int|
                0 <= t < N_FILES ==> (#[trigger] slots@[t] matches Some(ix) && ix.wf()),
            forall|t: int| N_FILES <= t < tag ==> #[trigger] slots@[t] is None,
        decreases N_TAGS - tag,
    {
        slots.push(None);
        tag = tag + 1;
    }
    Ok(IndexTable { slots })
}

/// Where the value of a cluster and a dimension stands among the values of
/// eight clusters side by side.
pub open spec fn lane(c: int, d: int) -> int {
    (c / 8 * N_PAIRS + d / 2) * 16 + c % 8 * 2 + d % 2
}

/// Each value of each cluster stands in its own place, and the places of the
/// clusters that are missing from the last eight hold `pad`.
pub proof fn lanes_hold_the_corners(corner: Seq<i16>, k: int, pad: i16, c: int, d: int)
    requires
        0 <= c < (k + 7) / 8 * 8,
        0 <= d < N_DIMS,
    ensures
        0 <= lane(c, d) < interleaved(corner, k, pad).len(),
        lane_cluster(lane(c, d)) == c,
        lane_dim(lane(c, d)) == d,
        interleaved(corner, k, pad)[lane(c, d)] == (if c < k {
            corner[c * 16 + d]
        } else {
            pad
        }),
{
    lemma_lane(c / 8, c % 8, d / 2, d % 2);
    assert(lane(c, d) == 112 * (c / 8) + 16 * (d / 2) + 2 * (c % 8) + d % 2);
    assert(c / 8 + 1 <= (k + 7) / 8);
}

/// The parts of a place: of which eight clusters, which of the eight, which
/// pair of dimensions and which of the two.
proof fn lemma_lane(g: int, l: int, p: int, o: int)
    requires
        0 <= g,
        0 <= l < 8,
        0 <= p < 7,
        0 <= o < 2,
    ensures
        ({
            let at = 112 * g + 16 * p + 2 * l + o;
            &&& at / 112 == g
            &&& at % 112 / 16 == p
            &&& at % 16 / 2 == l
            &&& at % 2 == o
        }),
{
    let at = 112 * g + 16 * p + 2 * l + o;
    lemma_fundamental_div_mod_converse(at, 112, g, 16 * p + 2 * l + o);
    lemma_fundamental_div_mod_converse(16 * p + 2 * l + o, 16, p, 2 * l + o);
    lemma_fundamental_div_mod_converse(at, 16, 7 * g + p, 2 * l + o);
    lemma_fundamental_div_mod_converse(2 * l + o, 2, l, o);
    lemma_fundamental_div_mod_converse(at, 2, 56 * g + 8 * p + l, o);
}

/// The partitions with a file are those with a tag below `N_FILES`: all but
/// the ones for a card that is present at an online terminal.
pub proof fn files_belong_to_the_low_tags(tag: int)
    requires
        0 <= tag < N_TAGS,
    ensures
        file_of(tag) is Some <==> tag < N_FILES,
{
}

/// The sections of a file follow each other, each at the first multiple of 64 at or
/// behind the end of the one before: the clusters' first vectors, 4 bytes each and
/// one more, the two corners of each box, 32 bytes each, the vectors, 32 bytes each
/// and one more, and the labels, a byte each.
pub proof fn sections_follow_each_other(k: int, n: int)
    requires
        0 <= k,
        0 <= n,
    ensures
        box_min_start(k) % 64 == 0,
        box_max_start(k) % 64 == 0,
        vectors_start(k) % 64 == 0,
        labels_start(k, n) % 64 == 0,
        0 <= box_min_start(k) - (64 + 4 * (k + 1)) < 64,
        0 <= box_max_start(k) - (box_min_start(k) + 32 * k) < 64,
        0 <= vectors_start(k) - (box_max_start(k) + 32 * k) < 64,
        0 <= labels_start(k, n) - (vectors_start(k) + 32 * (n + 1)) < 64,
{
}

/// Bytes are a file where there are 64 of them at least, the first eight spell
/// "RNH5-IDX", and the next four a number of clusters from 1 to 4096; other bytes
/// are told why not.
pub proof fn headers_are_checked(data: Seq<u8>)
    ensures
        header_error(data) is None <==> {
            &&& data.len() >= 64
            &&& data[0] == 0x52 && data[1] == 0x4e && data[2] == 0x48 && data[3] == 0x35
            &&& data[4] == 0x2d && data[5] == 0x49 && data[6] == 0x44 && data[7] == 0x58
            &&& 1 <= data[8] + 256 * data[9] + 65536 * data[10] + 16777216 * data[11] <= 4096
        },
        header_error(data) matches Some(OpenError::ClustersOutOfRange(c)) ==> c == data[8] + 256
            * data[9] + 65536 * data[10] + 16777216 * data[11] && (c == 0 || c > 4096),
        data.len() < 64 ==> header_error(data) == Some(OpenError::BadMagic),
{
    let name = magic();
    if data.len() >= 8 {
        let first = data.subrange(0, 8);
        assert(forall|i: int| 0 <= i < 8 ==> #[trigger] first[i] == data[i]);
        assert(name[0] == 0x52 && name[1] == 0x4e && name[2] == 0x48 && name[3] == 0x35);
        assert(name[4] == 0x2d && name[5] == 0x49 && name[6] == 0x44 && name[7] == 0x58);
        if data[0] == 0x52 && data[1] == 0x4e && data[2] == 0x48 && data[3] == 0x35 && data[4]
            == 0x2d && data[5] == 0x49 && data[6] == 0x44 && data[7] == 0x58 {
            assert(first =~= name);
        } else {
            assert(first[0] == data[0] && first[1] == data[1] && first[2] == data[2] && first[3]
                == data[3] && first[4] == data[4] && first[5] == data[5] && first[6] == data[6]
                && first[7] == data[7]);
        }
    }
}

/// An index holds what its file holds: the number of clusters and of vectors in the
/// header, the values of a vector side by side, and its label.
pub proof fn files_hold_the_vectors(ix: &IvfIndex, data: Seq<u8>, v: int, d: int)
    requires
        header_error(data) is None,
        is_complete(data),
        ix.decodes(data),
        0 <= v < ix.n_vectors,
        0 <= d < 16,
    ensures
        ix.n_clusters == u32_at(data, 8),
        ix.n_vectors == u32_at(data, 12),
        ix.flat_vec@[16 * v + d] == i16_at(data, vectors_start(u32_at(data, 8)) + 32 * v + 2 * d),
        ix.labels@[v] == data[labels_start(u32_at(data, 8), u32_at(data, 12)) + v],
{
    let at = 16 * v + d;
    assert(0 <= at < ix.flat_vec@.len());
    assert(ix.flat_vec@[at] == i16_at(data, vectors_start(u32_at(data, 8)) + 2 * at));
}

/// Every partition with a tag below 12 has a file, named after the tag; no other
/// tag has one.
pub proof fn files_are_named_after_their_tags(tag: int)
    ensures
        0 <= tag < 10 ==> file_of(tag) == Some(
            "index/index_p"@ + seq![(0x30 + tag) as char] + ".bin"@,
        ),
        10 <= tag < 12 ==> file_of(tag) == Some(
            "index/index_p"@ + seq!['1', (0x30 + tag - 10) as char] + ".bin"@,
        ),
        !(0 <= tag < 12) ==> file_of(tag) is None,
{
    reveal_strlit("index/index_p");
    reveal_strlit(".bin");
    reveal_strlit("index/index_p0.bin");
    reveal_strlit("index/index_p1.bin");
    reveal_strlit("index/index_p2.bin");
    reveal_strlit("index/index_p3.bin");
    reveal_strlit("index/index_p4.bin");
    reveal_strlit("index/index_p5.bin");
    reveal_strlit("index/index_p6.bin");
    reveal_strlit("index/index_p7.bin");
    reveal_strlit("index/index_p8.bin");
    reveal_strlit("index/index_p9.bin");
    reveal_strlit("index/index_p10.bin");
    reveal_strlit("index/index_p11.bin");
    if 0 <= tag < 10 {
        assert(file_of(tag)->0 =~= "index/index_p"@ + seq![(0x30 + tag) as char] + ".bin"@);
    } else if 10 <= tag < 12 {
        assert(file_of(tag)->0 =~= "index/index_p"@ + seq!['1', (0x30 + tag - 10) as char]
            + ".bin"@);
    }
}

/// A file with a good header is complete exactly where it goes on to its last label.
pub proof fn complete_files_end_with_the_labels(data: Seq<u8>)
    requires
        header_error(data) is None,
    ensures
        is_complete(data) <==> data.len() >= labels_start(u32_at(data, 8), u32_at(data, 12))
            + u32_at(data, 12),
{
}

} // verus!
