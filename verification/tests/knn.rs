use fraud_detection::fraud::knn::{
    count_fraud, knn5_ivf, top_n_centroids_fast, Dataset, FAST_NPROBE, FULL_NPROBE, K,
};
use fraud_detection::fraud::model::{decide, Decision};

/// A data set with its centres, which are fractions.
struct Scene {
    ds: Dataset,
    centroids: Vec<[f32; 14]>,
}

impl Scene {
    fn dists(&self, q: &[f32; 14]) -> Vec<u32> {
        self.centroids
            .iter()
            .map(|c| {
                let mut sum = 0.0f32;
                for d in 0..14 {
                    let diff = q[d] - c[d];
                    sum = diff.mul_add(diff, sum);
                }
                sum.to_bits()
            })
            .collect()
    }

    fn knn5(&self, q: &[f32; 14]) -> u8 {
        assert!(self.ds.is_well_formed());
        let mut short = [0i16; 14];
        for d in 0..14 {
            short[d] = (q[d] * 100.0).round() as i16;
        }
        knn5_ivf(&short, &self.dists(q), &self.ds)
    }
}

/// One block for each cluster, whose vectors lie around its centre.
fn scene() -> Scene {
    let mut state = 7u64;
    let mut next = move || {
        state = state.wrapping_mul(6364136223846793005).wrapping_add(1442695040888963407);
        (state >> 33) as u32
    };
    let mut centroids = Vec::new();
    let mut labels = Vec::new();
    let mut blocks = Vec::new();
    for _ in 0..K {
        let centre: [i8; 14] = core::array::from_fn(|_| (next() % 101) as i8);
        centroids.push(centre.map(|x| x as f32 / 100.0));
        for x in centre {
            for _ in 0..8 {
                blocks.push((x as i32 + next() as i32 % 11 - 5).clamp(0, 100) as i8);
            }
        }
        for _ in 0..8 {
            labels.push((next() % 2) as u8);
        }
    }
    Scene { ds: Dataset { offsets: (0..=K as u32).collect(), labels, blocks }, centroids }
}

#[test]
fn count_fraud_correct() {
    assert_eq!(count_fraud([1, 0, 1, 0, 1]), 3);
    assert_eq!(count_fraud([0, 0, 0, 0, 0]), 0);
    assert_eq!(count_fraud([1, 1, 1, 1, 1]), 5);
    assert_eq!(count_fraud([1, 0, 0, 0, 0]), 1);
}

#[test]
fn top_n_centroids_fast_smallest_first() {
    let mut dists = [100.0f32; K];
    dists[10] = 0.5;
    dists[7] = 1.0;
    dists[42] = 2.0;
    let top = top_n_centroids_fast(&dists.map(f32::to_bits), 3);
    assert_eq!(top[0], 10u16); // dist=0.5, smallest
    assert_eq!(top[1], 7u16); // dist=1.0
    assert_eq!(top[2], 42u16); // dist=2.0
}

#[test]
fn smoke_zero_query() {
    let q = [0.0f32; 14];
    let result = scene().knn5(&q);
    assert!(result <= 5, "knn5_ivf must return 0..=5, got {result}");
}

#[test]
fn smoke_fraud_heavy_query() {
    let q = [1.0f32; 14];
    let result = scene().knn5(&q);
    assert!(result <= 5, "knn5_ivf must return 0..=5, got {result}");
}

#[test]
fn lgbm_decides_ambiguous_cases() {
    let scene = scene();
    let test_queries: &[[f32; 14]] = &[
        [0.5, 0.5, 0.5, 0.5, 0.5, 0.0, 0.0, 0.5, 0.5, 1.0, 0.0, 1.0, 0.5, 0.5],
        [0.3, 0.1, 0.3, 0.6, 0.4, 0.2, 0.1, 0.3, 0.4, 0.0, 1.0, 0.0, 0.3, 0.1],
        [0.8, 0.0, 0.8, 0.3, 0.7, 0.5, 0.5, 0.8, 0.3, 1.0, 1.0, 1.0, 0.8, 0.0],
    ];
    for q in test_queries {
        let result = scene.knn5(q);
        assert!(result <= 5, "knn5_ivf returned {result} (must be 0..=5)");
    }
}

#[test]
fn only_odd_labels_count() {
    assert_eq!(count_fraud([2, 3, 255, 254, 129]), 3);
}

#[test]
fn no_more_than_all_probes_are_named() {
    let dists: Vec<u32> = (0..K as u32).rev().collect();
    let top = top_n_centroids_fast(&dists, 1000);
    for (i, c) in top.iter().enumerate() {
        assert_eq!(*c as usize, K - 1 - i);
    }
    let top = top_n_centroids_fast(&dists, 2);
    assert_eq!(top[..3], [4095, 4094, 0]);
    assert_eq!(FULL_NPROBE, 24);
}

/// The labels of the five nearest of some clusters, first come first.
fn five_nearest(ds: &Dataset, q: &[i16; 14], probed: &[usize]) -> [u8; 5] {
    let mut all = Vec::new();
    for &c in probed {
        for b in ds.offsets[c] as usize..ds.offsets[c + 1] as usize {
            for slot in 0..8 {
                let sum: i32 = (0..14)
                    .map(|d| q[d] as i32 - ds.blocks[b * 112 + d * 8 + slot] as i32)
                    .map(|x| x * x)
                    .sum();
                all.push((sum, ds.labels[b * 8 + slot]));
            }
        }
    }
    all.sort_by_key(|&(sum, _)| sum);
    core::array::from_fn(|i| all.get(i).map_or(0, |&(_, label)| label))
}

#[test]
fn blocks_are_ranked_by_distance() {
    let scene = scene();
    for seed in 0..20i16 {
        let q: [i16; 14] = core::array::from_fn(|d| (seed * 37 + d as i16 * 53) % 101);
        let probed: Vec<usize> = (0..30).map(|i| (seed as usize * 211 + i * 97) % K).collect();
        assert_eq!(scene.ds.scan_blocks(&q, &probed), five_nearest(&scene.ds, &q, &probed));
    }
    assert_eq!(scene.ds.scan_blocks(&[0; 14], &[]), [0; 5]);
}

#[test]
fn ambiguous_votes_are_counted_again() {
    let scene = scene();
    let mut again = 0;
    for seed in 0..40 {
        let q: [f32; 14] = core::array::from_fn(|d| ((seed * 17 + d * 29) % 101) as f32 / 100.0);
        let short: [i16; 14] = q.map(|x| (x * 100.0).round() as i16);
        let dists = scene.dists(&q);
        let nearest = |n: usize| {
            let mut order: Vec<usize> = (0..K).collect();
            order.sort_by_key(|&c| (dists[c], c));
            order.truncate(n);
            five_nearest(&scene.ds, &short, &order).iter().filter(|&&l| l == 1).count()
        };
        let mut votes = nearest(FAST_NPROBE);
        if votes == 2 || votes == 3 {
            again += 1;
            votes = nearest(FULL_NPROBE);
        }
        assert_eq!(scene.knn5(&q) as usize, votes);
    }
    assert!(again > 0);
}

#[test]
fn data_sets_with_missing_parts_are_not_well_formed() {
    let mut ds = scene().ds;
    assert!(ds.is_well_formed());
    ds.labels.pop();
    assert!(!ds.is_well_formed());
    let mut ds = scene().ds;
    ds.blocks.pop();
    assert!(!ds.is_well_formed());
    let mut ds = scene().ds;
    ds.offsets.pop();
    assert!(!ds.is_well_formed());
}

#[test]
fn decisions_follow_the_thresholds() {
    let by_value = |p: f32| decide(p.to_bits());
    assert_eq!(by_value(0.95), Decision::Fraud);
    assert_eq!(by_value(1.0), Decision::Fraud);
    assert_eq!(by_value(f32::INFINITY), Decision::Fraud);
    assert_eq!(by_value(0.949), Decision::Uncertain);
    assert_eq!(by_value(0.5), Decision::Uncertain);
    assert_eq!(by_value(0.201), Decision::Uncertain);
    assert_eq!(by_value(0.2), Decision::Legit);
    assert_eq!(by_value(0.0), Decision::Legit);
    assert_eq!(by_value(-0.0), Decision::Legit);
    assert_eq!(by_value(-1.0), Decision::Legit);
    assert_eq!(by_value(f32::NAN), Decision::Uncertain);
    for i in 0..=u16::MAX {
        let p = f32::from_bits((i as u32) << 16 | 0x1234);
        let expected = match p {
            p if p >= 0.95 => Decision::Fraud,
            p if p <= 0.20 => Decision::Legit,
            _ => Decision::Uncertain,
        };
        assert_eq!(decide(p.to_bits()), expected, "{p}");
    }
}
