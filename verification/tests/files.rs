use flate2::read::GzDecoder;
use fraud_detection::archive::{pack_index, pack_refs, unpack};
use fraud_detection::index_builder::{
    chunk_size, label_of, lcg, nearest_centroid, sample_indices, write_ivf1,
};
use fraud_detection::le::{decode_i16, decode_u32, push_i16, push_u32, read_i16, read_u32};
use fraud_detection::repository::ivf::IvfIndex;
use half::f16;
use std::io::Read;

fn vectors(n: usize) -> Vec<[i16; 14]> {
    (0..n).map(|i| core::array::from_fn(|d| (i * 100 + d) as i16 - 500)).collect()
}

fn example() -> (Vec<[u32; 14]>, Vec<usize>, Vec<[i16; 14]>, Vec<u8>) {
    let centroids: Vec<[u32; 14]> = (0..3u32)
        .map(|c| core::array::from_fn(|d| (c as f32 + d as f32 / 100.0).to_bits()))
        .collect();
    let assignments: Vec<usize> = (0..12).map(|i| if i % 4 == 3 { 0 } else { 2 }).collect();
    let labels: Vec<u8> = (0..12).map(|i| (i % 3 == 0) as u8).collect();
    (centroids, assignments, vectors(12), labels)
}

#[test]
fn written_files_are_read_back() {
    let (centroids, assignments, values, labels) = example();
    let mut file = write_ivf1(&centroids, &assignments, &values, &labels, 3);
    assert_eq!(&file[..4], b"IVF1");
    assert!(IvfIndex::load(&file, 3, 24).is_err());
    file[3] = b'2';
    let ix = IvfIndex::load(&file, 3, 24).unwrap();
    assert_eq!((ix.n, ix.k), (12, 3));
    assert!(ix.has_fitting_clusters());
    // Three vectors make one block, nine make two.
    assert_eq!(ix.offsets, [0, 1, 1, 3]);
    for c in 0..3 {
        for d in 0..14 {
            assert_eq!(ix.centroids[d * 3 + c], centroids[c][d]);
        }
        let group: Vec<usize> = (0..12).filter(|&i| assignments[i] == c).collect();
        let slots = ix.slots(&[c]);
        for (p, &slot) in slots.iter().enumerate() {
            if p < group.len() {
                assert_eq!(ix.labels[slot], labels[group[p]]);
                assert_eq!(ix.slot_values(slot), values[group[p]]);
            } else {
                assert_eq!(ix.labels[slot], 0);
                assert_eq!(ix.slot_values(slot), [0; 14]);
            }
        }
    }
}

#[test]
fn packed_indexes_hold_their_file() {
    let (centroids, assignments, values, labels) = example();
    let file = write_ivf1(&centroids, &assignments, &values, &labels, 3);
    let packed = pack_index(&centroids, &assignments, &values, &labels, 3).unwrap();
    assert!(packed != file);
    assert_eq!(packed[..2], [0x1f, 0x8b]);
    let mut held = Vec::new();
    GzDecoder::new(packed.as_slice()).read_to_end(&mut held).unwrap();
    assert_eq!(held, file);
    assert_eq!(unpack(&packed), Some(file));
}

#[test]
fn what_is_not_whole_cannot_be_unpacked() {
    let (centroids, assignments, values, labels) = example();
    let packed = pack_index(&centroids, &assignments, &values, &labels, 3).unwrap();
    assert_eq!(unpack(b"not compressed"), None);
    for end in 0..packed.len() {
        assert_eq!(unpack(&packed[..end]), None, "cut at {end}");
    }
    let mut broken = packed.clone();
    let at = broken.len() - 5;
    broken[at] ^= 1;
    assert_eq!(unpack(&broken), None);
}

#[test]
fn references_are_packed_in_half_precision() {
    let vectors: Vec<[f32; 14]> =
        (0..3).map(|i| core::array::from_fn(|d| i as f32 * 0.25 - d as f32 * 0.01)).collect();
    let labels = [1u8, 0, 1];
    let mut expected = 3u32.to_le_bytes().to_vec();
    for v in &vectors {
        for &x in v {
            expected.extend(f16::from_f32(x).to_le_bytes());
        }
    }
    expected.extend(labels);
    let halves: Vec<[u16; 14]> =
        vectors.iter().map(|v| v.map(|x| f16::from_f32(x).to_bits())).collect();
    assert_eq!(pack_refs(&halves, &labels), expected);
    assert_eq!(pack_refs(&[], &[]), [0; 4]);
}

#[test]
fn the_generator_steps() {
    let mut state = 0xdeadbeef_u64;
    for _ in 0..1000 {
        let next = state.wrapping_mul(6364136223846793005).wrapping_add(1442695040888963407);
        assert_eq!(lcg(state), (next, (next >> 33) as u32));
        state = next;
    }
    assert_eq!(lcg(0), (1442695040888963407, 167951807));
}

#[test]
fn samples_are_spread_out() {
    for len in 0..60usize {
        for sample in 1..20usize {
            let step = (len / sample).max(1);
            let expected: Vec<usize> = (0..len).step_by(step).take(sample).collect();
            assert_eq!(sample_indices(len, sample), expected, "{len} {sample}");
        }
    }
    assert_eq!(sample_indices(usize::MAX, 2), [0, usize::MAX / 2]);
}

#[test]
fn chunks_cover_everything() {
    assert_eq!(chunk_size(10, 3), 4);
    assert_eq!(chunk_size(9, 3), 3);
    assert_eq!(chunk_size(0, 3), 0);
    assert_eq!(chunk_size(1, 16), 1);
}

#[test]
fn the_first_of_the_nearest_centres_is_taken() {
    let nearest = |dists: &[f32]| {
        let bits: Vec<u32> = dists.iter().map(|d| d.to_bits()).collect();
        let mut best = 0;
        let mut best_d = f32::INFINITY;
        for (i, &d) in dists.iter().enumerate() {
            if d < best_d {
                best_d = d;
                best = i;
            }
        }
        assert_eq!(nearest_centroid(&bits), best, "{dists:?}");
        best
    };
    assert_eq!(nearest(&[3.0, 1.0, 2.0, 1.0]), 1);
    assert_eq!(nearest(&[]), 0);
    assert_eq!(nearest(&[f32::NAN, 5.0, f32::NAN]), 1);
    assert_eq!(nearest(&[f32::INFINITY, f32::INFINITY]), 0);
    assert_eq!(nearest(&[0.0, -0.0]), 0);
    assert_eq!(nearest(&[-0.0, 0.0, -1.0, f32::NEG_INFINITY]), 3);
    assert_eq!(nearest(&[1e-45, 1e-40, 0.0]), 2);
}

#[test]
fn labels_of_references() {
    assert_eq!(label_of(&"fraud".to_string()), 1);
    assert_eq!(label_of(&"legit".to_string()), 0);
    assert_eq!(label_of(&"Fraud".to_string()), 0);
    assert_eq!(label_of(&"".to_string()), 0);
}

#[test]
fn integers_are_stored_low_byte_first() {
    let mut out = Vec::new();
    for x in [0u32, 1, 0x0102_0304, u32::MAX] {
        push_u32(&mut out, x);
        assert_eq!(out[out.len() - 4..], x.to_le_bytes());
        assert_eq!(read_u32(&out, out.len() - 4), x);
    }
    assert_eq!(decode_u32(&out, 4, 2), [1, 0x0102_0304]);
    let mut out = Vec::new();
    for x in i16::MIN..=i16::MAX {
        push_i16(&mut out, x);
        let at = out.len() - 2;
        assert_eq!(out[at..], x.to_le_bytes());
        assert_eq!(read_i16(&out, at), x);
    }
    assert_eq!(decode_i16(&out, 65534, 3), [-1, 0, 1]);
}
