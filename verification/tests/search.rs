use fraud_detection::fraud::data::{
    align64, init_indices, is_complete_file, tag_path, IndexTable, IvfIndex, OpenError, K_NEIGHBORS,
    N_FILES, N_PAIRS, N_TAGS,
};
use fraud_detection::fraud::json::Payload;
use fraud_detection::fraud::search::{
    compute_cluster_batch8, compute_cluster_batch8_scalar, dist_l2_i16q, dist_l2_i16q_scalar,
    search_with_fallback, TopK,
};
use fraud_detection::fraud::vector::{vectorize, Scaled};
use fraud_detection::server::count_votes;

type Cluster = Vec<([i16; 16], u8)>;

fn pad(out: &mut Vec<u8>) {
    while out.len() % 64 != 0 {
        out.push(0);
    }
}

/// The bytes of an index file with these clusters.
fn index_bytes(clusters: &[Cluster]) -> Vec<u8> {
    let n: usize = clusters.iter().map(|c| c.len()).sum();
    let mut out = b"RNH5-IDX".to_vec();
    out.extend((clusters.len() as u32).to_le_bytes());
    out.extend((n as u32).to_le_bytes());
    pad(&mut out);
    let mut start = 0u32;
    for c in clusters {
        out.extend(start.to_le_bytes());
        start += c.len() as u32;
    }
    out.extend(start.to_le_bytes());
    pad(&mut out);
    for least in [true, false] {
        for c in clusters {
            for d in 0..16 {
                let values = c.iter().map(|(v, _)| v[d]);
                let x = if least { values.min() } else { values.max() };
                out.extend(x.unwrap_or(0).to_le_bytes());
            }
        }
        pad(&mut out);
    }
    for c in clusters {
        for (v, _) in c {
            for x in v {
                out.extend(x.to_le_bytes());
            }
        }
    }
    out.extend([0; 32]);
    pad(&mut out);
    for c in clusters {
        out.extend(c.iter().map(|(_, label)| label));
    }
    out
}

fn open(clusters: &[Cluster]) -> IvfIndex {
    let bytes = index_bytes(clusters);
    assert!(is_complete_file(&bytes));
    let ix = IvfIndex::open(&bytes).unwrap();
    assert!(ix.has_fitting_clusters());
    ix
}

fn at(x: i16) -> [i16; 16] {
    let mut v = [0; 16];
    v[0] = x;
    v
}

/// Clusters of made-up vectors.
fn made_up(seed: u64, sizes: &[usize]) -> Vec<Cluster> {
    let mut state = seed;
    let mut next = move || {
        state = state.wrapping_mul(6364136223846793005).wrapping_add(1442695040888963407);
        (state >> 33) as u32
    };
    sizes
        .iter()
        .map(|&size| {
            let centre: [i16; 14] = core::array::from_fn(|_| (next() % 9000) as i16);
            (0..size)
                .map(|_| {
                    let mut v = [0; 16];
                    for d in 0..14 {
                        v[d] = centre[d] + (next() % 1000) as i16;
                    }
                    (v, (next() % 2) as u8)
                })
                .collect()
        })
        .collect()
}

fn twelve() -> Vec<Vec<u8>> {
    (0..12u64).map(|t| index_bytes(&made_up(t + 1, &[5, 9, 3, 7, 1, 4, 6, 8, 2, 11, 3]))).collect()
}

fn table_of(files: &[Vec<u8>]) -> IndexTable {
    let files: Vec<&[u8]> = files.iter().map(|f| f.as_slice()).collect();
    init_indices(&files).unwrap()
}

// ── dist_l2_i16q ─────────────────────────────────────────────────────────────

#[test]
fn dist_l2_zero_query_zero_vec() {
    let vecs = vec![0i16; 32];
    let q = [0i16; 16];
    assert_eq!(dist_l2_i16q(&vecs, 0, &q), 0);
}

#[test]
fn dist_l2_matches_scalar() {
    let vecs: Vec<i16> = (0..32).map(|i| (i * 300 - 5000) as i16).collect();
    let q: [i16; 16] = core::array::from_fn(|i| (i as i16) * 200);
    let avx = dist_l2_i16q(&vecs, 0, &q);
    let scalar = dist_l2_i16q_scalar(&vecs, 0, &q);
    assert_eq!(avx, scalar, "AVX2 and scalar must agree");
}

#[test]
fn dist_l2_sentinel_same() {
    let vecs = vec![-10000i16; 32];
    let q = [-10000i16; 16];
    assert_eq!(dist_l2_i16q(&vecs, 0, &q), 0);
}

#[test]
fn dist_l2_max_no_overflow() {
    // Worst realistic: 12 dims at diff 10000, 2 sentinel dims at diff 20000, 2 padding at 0
    // dims 0-4, 7-13 (12 total): diff 10000 → 12 × 100_000_000 = 1_200_000_000
    // dims 5,6 (2 sentinel): diff 20000 → 2 × 400_000_000 = 800_000_000
    // dims 14,15 (2 padding): diff 0 → 0
    // Total: 2_000_000_000 (fits in i32 max = 2_147_483_647)
    let mut vecs = vec![10000i16; 32];
    let mut q = [0i16; 16];
    vecs[5] = 10000; q[5] = -10000;
    vecs[6] = 10000; q[6] = -10000;
    // Zero out padding dims 14,15
    vecs[14] = 0; vecs[15] = 0;
    q[14] = 0; q[15] = 0;
    let result = dist_l2_i16q(&vecs, 0, &q);
    let expected = dist_l2_i16q_scalar(&vecs, 0, &q);
    assert_eq!(result, expected, "must match scalar");
    assert_eq!(result, 2_000_000_000i32, "exact expected value");
}

#[test]
fn distances_start_where_they_are_told_to() {
    let mut vecs = vec![0i16; 40];
    vecs[20] = 3;
    vecs[39] = 4;
    assert_eq!(dist_l2_i16q(&vecs, 20, &[0; 16]), 9);
    assert_eq!(dist_l2_i16q(&vecs, 24, &[0; 16]), 16);
    assert_eq!(dist_l2_i16q_scalar(&vecs, 20, &[0; 16]), 9);
}

#[test]
fn wide_differences_wrap_in_sixteen_bits() {
    // 32767 - -32768 is -1 in sixteen bits.
    let vecs = vec![i16::MAX; 16];
    let q = [i16::MIN; 16];
    assert_eq!(dist_l2_i16q(&vecs, 0, &q), 16);
    // Two squares of -32768 make 2^31, which is the least value of 32 bits.
    let mut vecs = vec![0i16; 16];
    vecs[0] = i16::MIN;
    vecs[1] = i16::MIN;
    assert_eq!(dist_l2_i16q(&vecs, 0, &[0; 16]), i32::MIN);
}

// ── compute_cluster_batch8 ───────────────────────────────────────────────────

#[test]
fn batch8_query_inside_all_bboxes() {
    let min_soa = vec![0i16; N_PAIRS * 16];
    let max_soa = vec![5000i16; N_PAIRS * 16];
    let q: [i16; 16] = core::array::from_fn(|_| 2500i16);
    let mut lbs = [0i32; 8];
    compute_cluster_batch8(&min_soa, &max_soa, &q, &mut lbs);
    for l in 0..8 {
        assert_eq!(lbs[l], 0, "query inside bbox → lb must be 0 for cluster {l}");
    }
}

#[test]
fn batch8_matches_scalar() {
    let mut min_soa = vec![0i16; N_PAIRS * 16];
    let mut max_soa = vec![5000i16; N_PAIRS * 16];
    min_soa[0] = 3000; max_soa[0] = 4000;
    min_soa[2] = 1000; max_soa[2] = 2000;
    let q: [i16; 16] = core::array::from_fn(|i| (i as i16) * 500);
    let mut lbs_avx = [0i32; 8];
    let mut lbs_scalar = [0i32; 8];
    compute_cluster_batch8(&min_soa, &max_soa, &q, &mut lbs_avx);
    compute_cluster_batch8_scalar(&min_soa, &max_soa, &q, &mut lbs_scalar);
    assert_eq!(lbs_avx, lbs_scalar, "AVX2 and scalar must agree");
}

#[test]
fn gaps_are_told_apart_by_lane() {
    let mut min_soa = vec![0i16; N_PAIRS * 16];
    let mut max_soa = vec![0i16; N_PAIRS * 16];
    // Cluster 3, dimension 5: the second of pair 2.
    min_soa[2 * 16 + 3 * 2 + 1] = 10;
    max_soa[2 * 16 + 3 * 2 + 1] = 20;
    let mut q = [0i16; 16];
    let mut lbs = [-1i32; 8];
    compute_cluster_batch8(&min_soa, &max_soa, &q, &mut lbs);
    assert_eq!(lbs, [0, 0, 0, 100, 0, 0, 0, 0]);
    q[5] = 25;
    compute_cluster_batch8(&min_soa, &max_soa, &q, &mut lbs);
    assert_eq!(lbs, [625, 625, 625, 25, 625, 625, 625, 625]);
    // What comes after the eight boxes counts for nothing.
    min_soa.push(9);
    max_soa.push(9);
    compute_cluster_batch8(&min_soa, &max_soa, &q, &mut lbs);
    assert_eq!(lbs, [625, 625, 625, 25, 625, 625, 625, 625]);
    // Nor do the padding dimensions.
    q[5] = 0;
    q[14] = 100;
    compute_cluster_batch8_scalar(&min_soa, &max_soa, &q, &mut lbs);
    assert_eq!(lbs, [0, 0, 0, 100, 0, 0, 0, 0]);
}

#[test]
fn a_lower_bound_is_the_distance_to_the_nearest_point() {
    let lo: Vec<i16> = (0..N_PAIRS * 16).map(|i| (i as i16 % 13) * 100 - 700).collect();
    let hi: Vec<i16> = lo.iter().enumerate().map(|(i, x)| x + (i as i16 % 5) * 90).collect();
    let q: [i16; 16] = core::array::from_fn(|d| if d < 14 { d as i16 * 150 - 900 } else { 0 });
    let mut lbs = [0i32; 8];
    compute_cluster_batch8_scalar(&lo, &hi, &q, &mut lbs);
    for l in 0..8 {
        let mut near = [0i16; 16];
        for d in 0..14 {
            let at = d / 2 * 16 + l * 2 + d % 2;
            near[d] = q[d].clamp(lo[at], hi[at]);
        }
        assert_eq!(lbs[l], dist_l2_i16q(&near, 0, &q), "lane {l}");
        for d in 0..14 {
            let at = d / 2 * 16 + l * 2 + d % 2;
            for x in [lo[at], hi[at]] {
                let mut other = near;
                other[d] = x;
                assert!(lbs[l] <= dist_l2_i16q(&other, 0, &q));
            }
        }
    }
}

// ── IvfIndex ─────────────────────────────────────────────────────────────────

#[test]
fn all_12_partitions_load() {
    let files = twelve();
    for tag in 0..16 {
        if tag_path(tag).is_some() {
            let ix = IvfIndex::open(&files[tag]).unwrap_or_else(|e| panic!("tag {tag}: {e:?}"));
            assert!(ix.n_clusters >= 1, "tag {tag}: n_clusters must be >= 1");
            assert!(ix.n_vectors >= 1, "tag {tag}: n_vectors must be >= 1");
            assert_eq!(
                ix.cluster_offsets.len(), ix.n_clusters + 1,
                "tag {tag}: cluster_offsets len"
            );
            assert_eq!(
                ix.bbox_min.len(), ix.n_clusters * 16,
                "tag {tag}: bbox_min len"
            );
            assert_eq!(
                ix.flat_vec.len(), (ix.n_vectors + 1) * 16,
                "tag {tag}: flat_vec len"
            );
            assert_eq!(ix.labels.len(), ix.n_vectors, "tag {tag}: labels len");
            // bpsoa shape
            let n_groups = (ix.n_clusters + 7) / 8;
            assert_eq!(
                ix.bpsoa_min.len(), n_groups * N_PAIRS * 16,
                "tag {tag}: bpsoa_min len"
            );
        }
    }
}

#[test]
fn bpsoa_padding_clusters_have_sentinel() {
    let files = twelve();
    for tag in 0..12 {
        let ix = IvfIndex::open(&files[tag]).unwrap();
        let k = ix.n_clusters;
        assert_ne!(k % 8, 0);
        let n_groups = (k + 7) / 8;
        let g = n_groups - 1;
        let last_real = k % 8;
        let p = 0usize;
        let l = last_real;
        let di = (g * N_PAIRS + p) * 16 + l * 2;
        assert_eq!(ix.bpsoa_min[di], i16::MAX, "tag {tag}: padding min should be i16::MAX");
        assert_eq!(ix.bpsoa_max[di], i16::MIN, "tag {tag}: padding max should be i16::MIN");
    }
}

#[test]
fn cluster_offsets_monotone() {
    let ix = IvfIndex::open(&twelve()[0]).unwrap();
    let offs = ix.cluster_offsets;
    for i in 1..offs.len() {
        assert!(offs[i] >= offs[i-1], "offsets must be monotonically non-decreasing at {i}");
    }
    assert_eq!(offs[ix.n_clusters] as usize, ix.n_vectors, "last offset must equal n_vectors");
}

#[test]
fn search_returns_valid_count() {
    let ix = IvfIndex::open(&twelve()[0]).unwrap();
    let q = [0i16; 16];
    let result = ix.search(&q);
    assert!(result <= 5, "search result must be 0..=5, got {result}");
}

#[test]
fn search_deterministic() {
    let ix = IvfIndex::open(&twelve()[1]).unwrap();
    let q: [i16; 16] = core::array::from_fn(|i| (i as i16) * 700);
    let r1 = ix.search(&q);
    let r2 = ix.search(&q);
    assert_eq!(r1, r2, "search must be deterministic");
}

#[test]
fn search_with_fallback_no_panic() {
    let table = table_of(&twelve());
    for tag in 0..16 {
        let q = [0i16; 16];
        let _ = search_with_fallback(&table, tag, &q);
    }
}

#[test]
fn what_is_opened_is_what_was_written() {
    let clusters = made_up(3, &[4, 0, 9]);
    let ix = open(&clusters);
    assert_eq!(ix.n_clusters, 3);
    assert_eq!(ix.n_vectors, 13);
    assert_eq!(ix.cluster_offsets, [0, 4, 4, 13]);
    let all: Vec<([i16; 16], u8)> = clusters.concat();
    for (i, (v, label)) in all.iter().enumerate() {
        assert_eq!(ix.flat_vec[i * 16..i * 16 + 16], *v);
        assert_eq!(ix.labels[i], *label);
    }
    for (c, cluster) in clusters.iter().enumerate() {
        for d in 0..14 {
            let lo = cluster.iter().map(|(v, _)| v[d]).min().unwrap_or(0);
            let hi = cluster.iter().map(|(v, _)| v[d]).max().unwrap_or(0);
            assert_eq!(ix.bbox_min[c * 16 + d], lo);
            assert_eq!(ix.bbox_max[c * 16 + d], hi);
            assert_eq!(ix.bpsoa_min[d / 2 * 16 + c * 2 + d % 2], lo);
            assert_eq!(ix.bpsoa_max[d / 2 * 16 + c * 2 + d % 2], hi);
        }
    }
}

#[test]
fn files_that_are_no_index_are_refused() {
    let error = |bytes: &[u8]| {
        assert!(is_complete_file(bytes));
        IvfIndex::open(bytes).err()
    };
    assert_eq!(error(b""), Some(OpenError::BadMagic));
    assert_eq!(error(&[0; 64]), Some(OpenError::BadMagic));
    let mut bytes = index_bytes(&made_up(3, &[4]));
    assert_eq!(error(&bytes[..63]), Some(OpenError::BadMagic));
    bytes[8..12].copy_from_slice(&0u32.to_le_bytes());
    assert_eq!(error(&bytes), Some(OpenError::ClustersOutOfRange(0)));
    bytes[8..12].copy_from_slice(&4097u32.to_le_bytes());
    assert_eq!(error(&bytes), Some(OpenError::ClustersOutOfRange(4097)));
    bytes[7] = b'x';
    assert_eq!(error(&bytes), Some(OpenError::BadMagic));
}

#[test]
fn cut_files_are_not_complete() {
    let bytes = index_bytes(&made_up(3, &[4, 2]));
    assert!(is_complete_file(&bytes));
    for end in 64..bytes.len() {
        assert!(!is_complete_file(&bytes[..end]), "cut at {end}");
    }
}

#[test]
fn clusters_that_end_outside_do_not_fit() {
    let mut bytes = index_bytes(&made_up(3, &[4, 2]));
    bytes[68..72].copy_from_slice(&7u32.to_le_bytes());
    assert!(!IvfIndex::open(&bytes).unwrap().has_fitting_clusters());
}

#[test]
fn sections_start_at_multiples_of_64() {
    assert_eq!(align64(0), 0);
    assert_eq!(align64(1), 64);
    assert_eq!(align64(64), 64);
    assert_eq!(align64(65), 128);
}

#[test]
fn the_nearest_vote() {
    // Six vectors, the farthest first: the five nearest stay.
    let ix = open(&[vec![
        (at(60), 0), (at(50), 1), (at(40), 1), (at(30), 0), (at(20), 1), (at(10), 1),
    ]]);
    assert_eq!(ix.search(&at(0)), 4);
    assert_eq!(K_NEIGHBORS, 5);
}

#[test]
fn a_farther_vector_takes_no_place() {
    // Five places are taken when the sixth comes, and it is the farthest.
    let ix = open(&[vec![
        (at(50), 1), (at(40), 0), (at(30), 0), (at(20), 0), (at(10), 0), (at(60), 0),
    ]]);
    assert_eq!(ix.search(&at(0)), 1);
    let ix = open(&[vec![
        (at(50), 0), (at(40), 0), (at(30), 0), (at(20), 0), (at(10), 0), (at(60), 1),
    ]]);
    assert_eq!(ix.search(&at(0)), 0);
    // Four vectors equal the query, then come one step and two steps away.
    let ix = open(&[vec![
        (at(7), 1), (at(7), 0), (at(7), 0), (at(7), 0), (at(8), 1), (at(9), 0),
    ]]);
    assert_eq!(ix.search(&at(7)), 2);
}

#[test]
fn scanning_a_cluster_keeps_the_least_keys() {
    let ix = open(&[
        vec![(at(9), 0), (at(3), 1), (at(7), 0)],
        vec![(at(1), 1), (at(8), 1), (at(2), 0), (at(50), 1)],
    ]);
    let key = |x: i64, vi: i64| (x * x) << 22 | vi;
    let sorted = |top: &TopK| {
        let mut v: Vec<(i64, u8)> = top.keys.into_iter().zip(top.labels).collect();
        v.sort();
        v
    };
    let mut top = TopK::new();
    assert_eq!(sorted(&top), [(i64::MAX, 0); 5]);
    ix.scan_cluster(0, &at(0), &mut top);
    let free = (i64::MAX, 0);
    assert_eq!(sorted(&top), [(key(3, 1), 1), (key(7, 2), 0), (key(9, 0), 0), free, free]);
    assert_eq!(top.worst, i64::MAX);
    ix.scan_cluster(1, &at(0), &mut top);
    let five =
        [(key(1, 3), 1), (key(2, 5), 0), (key(3, 1), 1), (key(7, 2), 0), (key(8, 4), 1)];
    assert_eq!(sorted(&top), five);
    assert_eq!(top.worst, key(8, 4));
    assert_eq!(sorted(&ix.search_core(&at(0), 2)), five);
    // One cluster is looked through in any case: the one whose box is nearest.
    let one = ix.search_core(&at(0), 0);
    assert_eq!(sorted(&one)[..4], [
        (key(1, 3), 1), (key(2, 5), 0), (key(8, 4), 1), (key(50, 6), 1),
    ]);
    assert_eq!(sorted(&one)[4], free);
}

#[test]
fn the_five_nearest_always_vote() {
    for seed in 1..60u64 {
        // Eleven clusters: the first look may go through all of them.
        let clusters = made_up(seed, &[5, 9, 3, 7, 1, 4, 6, 8, 2, 11, 3]);
        let ix = open(&clusters);
        let mut q = made_up(seed + 1000, &[1])[0][0].0;
        if seed % 2 == 0 {
            q = clusters[seed as usize % 11][0].0;
        }
        let all: Vec<([i16; 16], u8)> = clusters.concat();
        let mut order: Vec<usize> = (0..all.len()).collect();
        order.sort_by_key(|&i| (dist_l2_i16q(&ix.flat_vec, i * 16, &q) as u32, i));
        let five: u8 = order[..5].iter().map(|&i| all[i].1).sum();
        assert_eq!(ix.search(&q), five, "seed {seed}");
    }
}

#[test]
fn open_answers_count_the_five_nearest() {
    for seed in 1..60u64 {
        // More clusters than the first look goes through.
        let clusters = made_up(seed, &[2; 40]);
        let ix = open(&clusters);
        let q = made_up(seed + 1000, &[1])[0][0].0;
        let all: Vec<([i16; 16], u8)> = clusters.concat();
        let mut order: Vec<usize> = (0..all.len()).collect();
        order.sort_by_key(|&i| (dist_l2_i16q(&ix.flat_vec, i * 16, &q) as u32, i));
        let five: u8 = order[..5].iter().map(|&i| all[i].1).sum();
        let found = ix.search(&q);
        assert!(found == 0 || found == 5 || found == five, "seed {seed}: {five} {found}");
    }
}

#[test]
fn among_equals_the_earlier_vector_is_nearer() {
    let mut cluster: Cluster = vec![(at(10), 1); 5];
    cluster.extend(vec![(at(10), 0); 5]);
    let far: Cluster = vec![(at(10), 0); 5];
    assert_eq!(open(&[vec![(at(10), 1); 5], far]).search(&at(0)), 5);
    assert_eq!(open(&[cluster]).search(&at(0)), 5);
}

#[test]
fn fewer_than_five_vectors_all_vote() {
    assert_eq!(open(&[vec![(at(1), 1), (at(2), 1)]]).search(&at(0)), 2);
    assert_eq!(open(&[vec![]]).search(&at(0)), 0);
}

#[test]
fn farther_clusters_are_passed_over() {
    let near: Cluster = (1..=5).map(|x| (at(x), 0)).collect();
    let far: Cluster = vec![(at(100), 1); 5];
    assert_eq!(open(&[far.clone(), near.clone()]).search(&at(0)), 0);
    assert_eq!(open(&[near, far]).search(&at(100)), 5);
}

#[test]
fn twelve_clusters_settle_clear_votes() {
    // Every cluster reaches around the query; the thirteenth holds the nearest.
    let around = |x: i16, label: u8| vec![(at(x), label), (at(-x), label)];
    let mut clusters: Vec<Cluster> = (0..12).map(|c| around(100 + c, 0)).collect();
    clusters.push((1..=5).map(|x| (at(x), 1)).chain([(at(-200), 0)]).collect());
    assert_eq!(open(&clusters).search(&at(0)), 0);
    // One vote for fraud asks for a look at all clusters.
    clusters[0][0].1 = 1;
    assert_eq!(open(&clusters).search(&at(0)), 5);
}

#[test]
fn tables_answer_for_twelve_tags() {
    let files: Vec<Vec<u8>> = (0..12)
        .map(|t| index_bytes(&[(0..5).map(|i| (at(i), (i < t % 6) as u8)).collect()]))
        .collect();
    let table = table_of(&files);
    for tag in 0..12 {
        assert!(table.index_for_tag(tag).is_some());
        assert_eq!(search_with_fallback(&table, tag, &at(0)), (tag % 6) as u8);
    }
    for tag in 12..16 {
        assert!(table.index_for_tag(tag).is_none());
        // Without the bit for a card that is present.
        assert_eq!(search_with_fallback(&table, tag, &at(0)), ((tag - 8) % 6) as u8);
    }
    assert_eq!(N_TAGS, 16);
    assert_eq!(N_FILES, 12);
}

#[test]
fn without_an_index_a_request_is_approved() {
    let mut table = table_of(&twelve());
    for tag in 0..16 {
        table.slots[tag] = None;
    }
    assert_eq!(search_with_fallback(&table, 15, &at(0)), 0);
    table.slots[3] = Some(open(&[vec![(at(1), 1); 5]]));
    // First the bit for a card falls, then the one for a sale online.
    assert_eq!(search_with_fallback(&table, 15, &at(0)), 5);
    assert_eq!(search_with_fallback(&table, 11, &at(0)), 5);
    assert_eq!(search_with_fallback(&table, 7, &at(0)), 5);
    assert_eq!(search_with_fallback(&table, 2, &at(0)), 0);
}

#[test]
fn the_first_bad_file_stops_the_table() {
    let mut files = twelve();
    files[7][0] = b'x';
    files[9][0] = b'x';
    let files: Vec<&[u8]> = files.iter().map(|f| f.as_slice()).collect();
    assert_eq!(init_indices(&files).err(), Some((7, OpenError::BadMagic)));
}

#[test]
fn files_of_tags() {
    for tag in 0..12 {
        assert_eq!(tag_path(tag).unwrap(), format!("index/index_p{tag}.bin"));
    }
    for tag in 12..20 {
        assert_eq!(tag_path(tag), None);
    }
}

#[test]
fn requests_are_searched_for_in_their_partition() {
    let p = Payload {
        amount: b"41.12",
        installments: 2,
        hour: 18,
        weekday: 2,
        customer_avg_amount: b"82.24",
        tx_count_24h: 3,
        is_unknown_merchant: false,
        mcc: 5411,
        merchant_avg_amount: b"60.25",
        is_online: false,
        card_present: true,
        km_from_home: b"29.233103",
        has_last_tx: false,
        minutes_since_last: 0,
        km_from_current: b"0",
    };
    let s = Scaled {
        amount: 41,
        amount_to_average: 500,
        km_from_current: 0,
        km_from_home: 292,
        merchant_avg_amount: 60,
    };
    let q = vectorize(&p, &s);
    let mut files = twelve();
    let here: Cluster = vec![(q, 1); 5];
    files[8] = index_bytes(&[here]);
    assert_eq!(count_votes(&table_of(&files), &p, &s), 5);
    let table = table_of(&twelve());
    assert_eq!(count_votes(&table, &p, &s), search_with_fallback(&table, 8, &q));
}
