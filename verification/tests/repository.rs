use fraud_detection::repository::ivf::{count_fraud_votes, Adaptive, IvfIndex, LoadError};
use fraud_detection::repository::reference::ReferenceRepository;
use fraud_detection::repository::short::{Labels, Ranked};

fn make_ivf2_bytes() -> Vec<u8> {
    let mut buf = Vec::new();
    buf.extend_from_slice(b"IVF2");
    buf.extend_from_slice(&16u32.to_le_bytes()); // n
    buf.extend_from_slice(&2u32.to_le_bytes());  // k
    buf.extend_from_slice(&14u32.to_le_bytes()); // d

    // centroids column-major: [C0_d0, C1_d0, C0_d1, C1_d1, ...]
    for _ in 0..14 {
        buf.extend_from_slice(&0.0f32.to_le_bytes()); // C0
        buf.extend_from_slice(&2.0f32.to_le_bytes()); // C1
    }

    // block_offsets: [0, 1, 2]
    buf.extend_from_slice(&0u32.to_le_bytes());
    buf.extend_from_slice(&1u32.to_le_bytes());
    buf.extend_from_slice(&2u32.to_le_bytes());

    // labels: 16 bytes (2 blocks × 8 slots)
    for _ in 0..8 { buf.push(0u8); } // block 0: legit
    for _ in 0..8 { buf.push(1u8); } // block 1: fraud

    // blocks: 2 × 14 × 8 i16
    let legit_val: i16 = 1000;  // round(0.1 * 10000)
    let fraud_val: i16 = 20000; // round(2.0 * 10000)
    for _ in 0..112 { buf.extend_from_slice(&legit_val.to_le_bytes()); } // block 0
    for _ in 0..112 { buf.extend_from_slice(&fraud_val.to_le_bytes()); } // block 1

    buf
}

fn make_staged_ivf2_bytes() -> Vec<u8> {
    let mut buf = Vec::new();
    buf.extend_from_slice(b"IVF2");
    buf.extend_from_slice(&48u32.to_le_bytes()); // n
    buf.extend_from_slice(&6u32.to_le_bytes());  // k
    buf.extend_from_slice(&14u32.to_le_bytes()); // d

    let centroid_vals = [0.1f32, 0.2, 0.3, 0.4, 0.5, 0.6];
    for _ in 0..14 {
        for &v in &centroid_vals {
            buf.extend_from_slice(&v.to_le_bytes());
        }
    }

    for i in 0u32..=6 {
        buf.extend_from_slice(&i.to_le_bytes());
    }

    // C0: all legit
    for _ in 0..8 { buf.push(0u8); }
    // C1: all legit
    for _ in 0..8 { buf.push(0u8); }
    // C2: slot 0 = fraud, slots 1-7 = legit
    buf.push(1u8);
    for _ in 0..7 { buf.push(0u8); }
    // C3: slot 0 = fraud, slots 1-7 = legit
    buf.push(1u8);
    for _ in 0..7 { buf.push(0u8); }
    // C4: all legit
    for _ in 0..8 { buf.push(0u8); }
    // C5: all fraud
    for _ in 0..8 { buf.push(1u8); }

    // blocks: 6 × 112 i16
    // C0 block: all dim=0.1 → i16=1000
    for _ in 0..112 { buf.extend_from_slice(&1000i16.to_le_bytes()); }
    // C1 block: all dim=0.2 → i16=2000
    for _ in 0..112 { buf.extend_from_slice(&2000i16.to_le_bytes()); }
    // C2 block: slot 0 = 2400 (0.24), slots 1-7 = 3000 (0.3)
    for _d in 0..14usize {
        buf.extend_from_slice(&2400i16.to_le_bytes()); // slot 0: fraud
        for _ in 0..7 { buf.extend_from_slice(&3000i16.to_le_bytes()); }
    }
    // C3 block: slot 0 = 2600 (0.26), slots 1-7 = 4000 (0.4)
    for _d in 0..14usize {
        buf.extend_from_slice(&2600i16.to_le_bytes()); // slot 0: fraud
        for _ in 0..7 { buf.extend_from_slice(&4000i16.to_le_bytes()); }
    }
    // C4 block: all dim=0.5 → i16=5000
    for _ in 0..112 { buf.extend_from_slice(&5000i16.to_le_bytes()); }
    // C5 block: all dim=0.25 → i16=2500
    for _ in 0..112 { buf.extend_from_slice(&2500i16.to_le_bytes()); }

    buf
}

fn centroid_dists(idx: &IvfIndex, query: &[f32; 14]) -> Vec<u32> {
    let mut dists = vec![0.0f32; idx.k];
    for d in 0..14 {
        for ci in 0..idx.k {
            let diff = f32::from_bits(idx.centroids[d * idx.k + ci]) - query[d];
            dists[ci] += diff * diff;
        }
    }
    dists.into_iter().map(f32::to_bits).collect()
}

fn slot_dists(idx: &IvfIndex, query: &[f32; 14], slots: &[usize]) -> Vec<u32> {
    slots
        .iter()
        .map(|&slot| {
            let raw = idx.slot_values(slot);
            let mut sq = 0.0f32;
            for d in 0..14 {
                let diff = query[d] - raw[d] as f32 * 0.0001;
                sq += diff * diff;
            }
            sq.to_bits()
        })
        .collect()
}

fn knn(idx: &IvfIndex, query: &[f32; 14], k: usize, nprobe: usize) -> Labels {
    assert!(idx.has_fitting_clusters());
    let probes = idx.probes(&centroid_dists(idx, query), nprobe);
    let slots = idx.slots(&probes);
    idx.knn(&slots, &slot_dists(idx, query, &slots), k)
}

fn knn_adaptive(idx: &IvfIndex, query: &[f32; 14], k: usize) -> Labels {
    match idx.knn_adaptive(knn(idx, query, k, idx.nprobe_fast), k) {
        Adaptive::Settled(labels) => labels,
        Adaptive::Repeat(nprobe) => knn(idx, query, k, nprobe),
    }
}

#[test]
fn test_ivf2_load_parses_header() {
    let idx = IvfIndex::load(&make_ivf2_bytes(), 5, 24).unwrap();
    assert_eq!(idx.k, 2);
    assert_eq!(idx.n, 16);
    assert_eq!(idx.offsets.len(), 3);
    assert_eq!(idx.labels.len(), 16);
    assert_eq!(idx.blocks.len(), 224);
    assert_eq!(idx.centroids.len(), 28);
}

#[test]
fn test_ivf2_load_rejects_ivf1_magic() {
    let mut bad = make_ivf2_bytes();
    bad[..4].copy_from_slice(b"IVF1");
    assert!(IvfIndex::load(&bad, 5, 24).is_err());
}

#[test]
fn test_ivf2_load_rejects_wrong_dimensions() {
    let mut bad = make_ivf2_bytes();
    bad[12..16].copy_from_slice(&13u32.to_le_bytes());
    assert!(IvfIndex::load(&bad, 5, 24).is_err());
}

#[test]
fn test_ivf2_load_rejects_truncated_file() {
    assert!(IvfIndex::load(&[0u8; 10], 5, 24).is_err());
}

#[test]
fn test_centroid_scan_column_major_matches_brute_force() {
    let idx = IvfIndex::load(&make_ivf2_bytes(), 5, 24).unwrap();
    let query = [0.0f32; 14];
    let expected_c0_dist: f32 = 0.0;
    let expected_c1_dist: f32 = 14.0 * 2.0f32.powi(2);
    let labels = knn(&idx, &query, 5, 1);
    let labels = labels.as_slice();
    assert_eq!(labels.len(), 5);
    assert!(
        labels.iter().all(|&l| l == 0),
        "nprobe=1 near C0 → all legit; expected_c0={expected_c0_dist}, expected_c1={expected_c1_dist}"
    );
    assert_eq!(
        centroid_dists(&idx, &query),
        [expected_c0_dist.to_bits(), expected_c1_dist.to_bits()]
    );
}

#[test]
fn test_block_scan_8vec_matches_brute_force() {
    let idx = IvfIndex::load(&make_ivf2_bytes(), 5, 24).unwrap();
    let query = [0.0f32; 14];
    let labels = knn(&idx, &query, 5, 1);
    let labels = labels.as_slice();
    assert_eq!(labels.len(), 5);
    assert!(labels.iter().all(|&l| l == 0));
}

#[test]
fn test_knn_query_near_fraud_cluster() {
    let idx = IvfIndex::load(&make_ivf2_bytes(), 5, 1).unwrap();
    let query = [2.0f32; 14];
    let labels = knn(&idx, &query, 5, 1);
    let labels = labels.as_slice();
    assert_eq!(labels.len(), 5);
    assert!(
        labels.iter().all(|&l| l == 1),
        "query near fraud centroid [2.0;14] → all fraud neighbors"
    );
}

#[test]
fn test_knn_nprobe_clamped_to_k() {
    let idx = IvfIndex::load(&make_ivf2_bytes(), 5, 999).unwrap();
    let query = [0.0f32; 14];
    let labels = knn(&idx, &query, 5, 999);
    let labels = labels.as_slice();
    assert_eq!(labels.len(), 5);
    assert!(labels.iter().filter(|&&l| l == 0).count() >= 3);
}

#[test]
fn test_knn_adaptive_unambiguous_legit_uses_stage1() {
    let idx = IvfIndex::load(&make_ivf2_bytes(), 5, 24).unwrap();
    let query = [0.0f32; 14];
    let labels = knn_adaptive(&idx, &query, 5);
    let labels = labels.as_slice();
    assert_eq!(labels.len(), 5);
    assert_eq!(labels.iter().filter(|&&l| l == 1).count(), 0);
}

#[test]
fn test_knn_adaptive_unambiguous_fraud_uses_stage1() {
    let idx = IvfIndex::load(&make_ivf2_bytes(), 5, 24).unwrap();
    let query = [2.0f32; 14];
    let labels = knn_adaptive(&idx, &query, 5);
    let labels = labels.as_slice();
    assert_eq!(labels.len(), 5);
    assert!(labels.iter().filter(|&&l| l == 1).count() >= 4);
}

#[test]
fn test_simd_centroid_dists_matches_scalar() {
    let idx = IvfIndex::load(&make_ivf2_bytes(), 5, 24).unwrap();

    let query = [0.3f32; 14];

    // Fixture: C0=[0.0;14] (dist=14*0.09=1.26), C1=[2.0;14] (dist=14*2.89=40.46)
    // Top-1 centroid = C0, so top-5 neighbors are all legit.
    let scalar_labels = knn(&idx, &query, 5, 2);
    let scalar_labels = scalar_labels.as_slice();
    assert_eq!(scalar_labels.len(), 5);
    assert!(
        scalar_labels.iter().all(|&l| l == 0),
        "SIMD centroid scan must route to legit cluster"
    );
}

#[test]
fn test_knn_adaptive_ambiguous_triggers_stage2() {
    let idx = IvfIndex::load(&make_staged_ivf2_bytes(), 5, 6).unwrap();
    let query = [0.25f32; 14];

    let stage1 = knn(&idx, &query, 5, 5);
    let stage1_fraud = stage1.as_slice().iter().filter(|&&l| l == 1).count();
    assert_eq!(stage1_fraud, 2, "stage1 must be ambiguous (2 fraud), got {stage1_fraud}");

    let labels = knn_adaptive(&idx, &query, 5);
    let fraud_count = labels.as_slice().iter().filter(|&&l| l == 1).count();
    assert!(
        fraud_count >= 4,
        "stage2 must find C5 straggler fraud vectors, got {fraud_count} fraud"
    );
}

#[test]
fn test_knn_adaptive_legit_query() {
    let mut buf: Vec<u8> = Vec::new();
    // IVF2 format
    buf.extend_from_slice(b"IVF2");
    buf.extend_from_slice(&8u32.to_le_bytes()); // n=8 (1 block per cluster)
    buf.extend_from_slice(&2u32.to_le_bytes()); // k=2
    buf.extend_from_slice(&14u32.to_le_bytes()); // d=14

    // centroids column-major: C0=[0.0;14], C1=[10.0;14]
    for _ in 0..14 {
        buf.extend_from_slice(&0.0f32.to_le_bytes()); // C0
        buf.extend_from_slice(&10.0f32.to_le_bytes()); // C1
    }

    // offsets: [0, 1, 2]
    buf.extend_from_slice(&0u32.to_le_bytes());
    buf.extend_from_slice(&1u32.to_le_bytes());
    buf.extend_from_slice(&2u32.to_le_bytes());

    // labels: 2 blocks × 8 slots
    for _ in 0..8 { buf.push(0u8); } // block 0: legit
    for _ in 0..8 { buf.push(1u8); } // block 1: fraud

    // blocks: 2 × 14 × 8 i16
    let legit_val: i16 = 1000;  // 0.1
    let fraud_val: i16 = i16::MAX; // padding / far away
    for _ in 0..112 { buf.extend_from_slice(&legit_val.to_le_bytes()); } // block 0
    for _ in 0..112 { buf.extend_from_slice(&fraud_val.to_le_bytes()); } // block 1

    let repo = ReferenceRepository::from_file(&buf, 5, 24).unwrap();
    let query = [0.0f32; 14];
    let stage1 = knn(&repo.ivf, &query, 5, repo.ivf.nprobe_fast);
    let labels = match repo.knn_adaptive(stage1, 5) {
        Adaptive::Settled(labels) => labels,
        Adaptive::Repeat(nprobe) => knn(&repo.ivf, &query, 5, nprobe),
    };
    let labels = labels.as_slice();
    assert_eq!(labels.len(), 5);
    assert!(labels.iter().filter(|&&l| l == 1).count() <= 2);
}

#[test]
fn each_missing_part_is_named() {
    let error = |bytes: &[u8]| IvfIndex::load(bytes, 5, 24).err();
    let good = make_ivf2_bytes();
    assert_eq!(error(&good), None);
    assert_eq!(error(b""), Some(LoadError::MissingMagic));
    assert_eq!(error(&good[..3]), Some(LoadError::MissingMagic));
    assert_eq!(error(b"IVF1"), Some(LoadError::BadMagic));
    assert_eq!(error(&good[..4]), Some(LoadError::Truncated));
    assert_eq!(error(&good[..15]), Some(LoadError::Truncated));
    assert_eq!(error(&good[..16]), Some(LoadError::TruncatedCentroids));
    assert_eq!(error(&good[..16 + 111]), Some(LoadError::TruncatedCentroids));
    assert_eq!(error(&good[..16 + 112]), Some(LoadError::TruncatedOffsets));
    assert_eq!(error(&good[..16 + 112 + 11]), Some(LoadError::TruncatedOffsets));
    assert_eq!(error(&good[..16 + 112 + 12]), Some(LoadError::TruncatedLabels));
    assert_eq!(error(&good[..16 + 112 + 12 + 15]), Some(LoadError::TruncatedLabels));
    assert_eq!(error(&good[..16 + 112 + 12 + 16]), Some(LoadError::TruncatedBlocks));
    assert_eq!(error(&good[..good.len() - 1]), Some(LoadError::TruncatedBlocks));
    let mut bad = good.clone();
    bad[12] = 13;
    assert_eq!(error(&bad), Some(LoadError::Dimensions(13)));
    assert_eq!(
        ReferenceRepository::from_file(&bad, 5, 24).err(),
        Some(LoadError::Dimensions(13))
    );
    bad[12] = 14;
    bad[8..12].copy_from_slice(&u32::MAX.to_le_bytes());
    assert_eq!(error(&bad), Some(LoadError::TruncatedCentroids));
}

#[test]
fn what_is_loaded_is_what_was_written() {
    let idx = IvfIndex::load(&make_staged_ivf2_bytes(), 5, 6).unwrap();
    assert_eq!((idx.nprobe_fast, idx.nprobe_slow), (5, 6));
    assert_eq!(idx.centroids[0], 0.1f32.to_bits());
    assert_eq!(idx.centroids[83], 0.6f32.to_bits());
    assert_eq!(idx.offsets, [0, 1, 2, 3, 4, 5, 6]);
    assert_eq!(idx.labels[16..24], [1, 0, 0, 0, 0, 0, 0, 0]);
    assert_eq!(idx.slot_values(16), [2400; 14]);
    assert_eq!(idx.slot_values(17), [3000; 14]);
    assert_eq!(idx.slot_values(47), [2500; 14]);
}

#[test]
fn clusters_that_end_outside_the_blocks_do_not_fit() {
    let mut bytes = make_ivf2_bytes();
    bytes[16 + 112 + 4] = 3;
    assert!(!IvfIndex::load(&bytes, 5, 24).unwrap().has_fitting_clusters());
}

#[test]
fn the_nearest_clusters_are_looked_at() {
    let idx = IvfIndex::load(&make_staged_ivf2_bytes(), 5, 6).unwrap();
    let d: Vec<u32> = [0.3f32, 0.1, 0.2, 0.6, 0.5, 0.4].map(f32::to_bits).to_vec();
    assert_eq!(idx.probes(&d, 3), [1, 2, 0]);
    assert_eq!(idx.probes(&d, 1), [1]);
    assert_eq!(idx.probes(&d, 6), [0, 1, 2, 3, 4, 5]);
    assert_eq!(idx.probes(&d, 7), [0, 1, 2, 3, 4, 5]);
    assert_eq!(idx.slots(&[2, 0]), (16..24).chain(0..8).collect::<Vec<usize>>());
}

#[test]
fn slots_without_a_distance_are_passed_over() {
    let idx = IvfIndex::load(&make_staged_ivf2_bytes(), 5, 6).unwrap();
    let d = [f32::NAN.to_bits(), 2.0f32.to_bits(), 1.0f32.to_bits(), f32::INFINITY.to_bits()];
    // Slots 16, 24 and 40 are fraud, 0 is not.
    assert_eq!(idx.knn(&[16, 0, 24, 40], &d, 5).as_slice(), [1, 0, 1]);
    assert_eq!(idx.knn(&[16, 0, 24, 40], &d, 2).as_slice(), [1, 0]);
    assert_eq!(idx.knn(&[], &[], 2).as_slice(), []);
}

#[test]
fn the_k_nearest_slots_vote() {
    let idx = IvfIndex::load(&make_staged_ivf2_bytes(), 5, 6).unwrap();
    let slots: Vec<usize> = (0..48).collect();
    let dists: Vec<u32> = slots.iter().map(|&s| (s as u32 * 29) % 48).collect();
    for k in 1..50 {
        let mut all: Vec<(u32, usize)> = dists.iter().copied().zip(slots.iter().copied()).collect();
        all.sort();
        all.truncate(k);
        let expected: Vec<u8> = all.iter().map(|&(_, s)| idx.labels[s]).collect();
        assert_eq!(idx.knn(&slots, &dists, k).as_slice(), expected, "k={k}");
    }
}

fn labels(of: &[u8]) -> Labels {
    let mut top = Ranked::new();
    for (i, &l) in of.iter().enumerate() {
        top.offer_item(of.len(), (i as u32, l));
    }
    top.labels()
}

#[test]
fn two_or_three_of_five_ask_for_more() {
    let idx = IvfIndex::load(&make_ivf2_bytes(), 5, 24).unwrap();
    for n in 0..=5 {
        let mut of = [0u8; 5];
        of[..n].fill(1);
        assert_eq!(count_fraud_votes(&of), n);
        match idx.knn_adaptive(labels(&of), 5) {
            Adaptive::Settled(kept) => {
                assert!(n != 2 && n != 3);
                assert_eq!(kept.as_slice(), of);
            }
            Adaptive::Repeat(nprobe) => {
                assert!(n == 2 || n == 3);
                assert_eq!(nprobe, 24);
            }
        }
    }
    assert!(matches!(idx.knn_adaptive(labels(&[1, 1]), 0), Adaptive::Settled(_)));
    assert_eq!(count_fraud_votes(&[2, 1, 0, 255]), 1);
}

#[test]
fn ranked_lists_keep_the_nearest() {
    let mut top = Ranked::new();
    for item in [(5, 50), (3, 30), (5, 51), (9, 90), (1, 10), (3, 31)] {
        top.offer_item(4, item);
    }
    assert_eq!(top.labels().as_slice(), [10, 30, 31, 50]);
    let mut long = Ranked::new();
    for i in 0..20u32 {
        long.offer_item(12, (20 - i, i as u8));
    }
    assert_eq!(long.labels().as_slice(), [19, 18, 17, 16, 15, 14, 13, 12, 11, 10, 9, 8]);
}
