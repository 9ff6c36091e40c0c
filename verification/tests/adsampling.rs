//! The random rotation and the pruning thresholds.
use rand::SeedableRng;
use rand_chacha::ChaCha8Rng;
use rand_distr::{Distribution, Normal};
use superkmeans::adsampling::ADSamplingPruner;
use superkmeans::generate_random_vectors;
use superkmeans::KnnCandidate;
use superkmeans::Single;

fn single(x: f32) -> Single {
    Single { bits: x.to_bits() }
}

fn float(x: Single) -> f32 {
    f32::from_bits(x.bits)
}

fn normal_draws(n: usize, seed: u64) -> Vec<Single> {
    let mut rng = ChaCha8Rng::seed_from_u64(seed);
    let normal = Normal::new(0.0_f32, 1.0).unwrap();
    (0..n).map(|_| single(normal.sample(&mut rng))).collect()
}

fn pruner(d: usize, epsilon0: f32, seed: u64) -> ADSamplingPruner {
    ADSamplingPruner::new(d, single(epsilon0), &normal_draws(d * d, seed))
}

fn random_vectors(n: usize, d: usize, min: f32, max: f32, seed: u64) -> Vec<Single> {
    generate_random_vectors(n, d, single(min), single(max), seed)
}

fn zeros(n: usize) -> Vec<Single> {
    vec![single(0.0); n]
}

fn norm(v: &[Single]) -> f32 {
    v.iter().map(|x| float(*x) * float(*x)).sum::<f32>().sqrt()
}

fn inner(a: &[Single], b: &[Single]) -> f32 {
    a.iter().zip(b).map(|(x, y)| float(*x) * float(*y)).sum()
}

fn rotate_roundtrip_errors(d: usize, n: usize, seed: u64) -> (f64, f64) {
    let pruner = pruner(d, 2.1, seed);
    let original = random_vectors(n, d, -1.0, 1.0, 42);
    let mut rotated = zeros(n * d);
    let mut recovered = zeros(n * d);
    pruner.rotate(&original, &mut rotated, n);
    pruner.unrotate(&rotated, &mut recovered, n);
    let mut max_err = 0.0_f64;
    let mut sum_err = 0.0_f64;
    for i in 0..n * d {
        let e = (float(original[i]) - float(recovered[i])).abs() as f64;
        if e > max_err {
            max_err = e;
        }
        sum_err += e;
    }
    (max_err, sum_err / (n * d) as f64)
}

#[test]
fn rotation_matrix_is_orthonormal() {
    let d = 16;
    let pruner = pruner(d, 1.5, 42);
    for r in 0..d {
        for c in 0..d {
            let mut s = 0.0_f32;
            for k in 0..d {
                s += float(pruner.matrix[r * d + k]) * float(pruner.matrix[c * d + k]);
            }
            let expected = if r == c { 1.0 } else { 0.0 };
            assert!(
                (s - expected).abs() < 1.0e-4,
                "QQ^T[{r}, {c}] = {s} (expected {expected})"
            );
        }
    }
}

#[test]
fn rotate_unrotate_inverse_low_dim() {
    let (max_err, avg_err) = rotate_roundtrip_errors(128, 100, 7);
    assert!(max_err < 1e-4, "max error {max_err} too large for d=128");
    assert!(avg_err < 1e-5, "avg error {avg_err} too large for d=128");
}

#[test]
fn rotate_unrotate_inverse_multiple_dimensions() {
    for &d in &[50_usize, 128, 256, 512] {
        let (max_err, avg_err) = rotate_roundtrip_errors(d, 50, 7);
        assert!(max_err < 1e-3, "max error {max_err} too large for d={d}");
        assert!(avg_err < 1e-5, "avg error {avg_err} too large for d={d}");
    }
}

#[test]
fn rotation_preserves_norms() {
    for &d in &[64_usize, 128, 256] {
        let n = 50;
        let pruner = pruner(d, 2.1, 42);
        let original = random_vectors(n, d, -1.0, 1.0, 42);
        let mut rotated = zeros(n * d);
        pruner.rotate(&original, &mut rotated, n);
        for i in 0..n {
            let on = norm(&original[i * d..(i + 1) * d]);
            let rn = norm(&rotated[i * d..(i + 1) * d]);
            let rel = (on - rn).abs() / on;
            assert!(
                rel < 1e-4,
                "norm not preserved for vector {i} at d={d} (orig={on}, rot={rn}, rel={rel})"
            );
        }
    }
}

#[test]
fn rotation_preserves_inner_products() {
    for &d in &[64_usize, 128, 256] {
        let n = 20;
        let pruner = pruner(d, 2.1, 42);
        let vectors = random_vectors(n, d, -1.0, 1.0, 42);
        let mut rotated = zeros(n * d);
        pruner.rotate(&vectors, &mut rotated, n);
        for i in 0..n {
            for j in i + 1..n {
                let vi = &vectors[i * d..(i + 1) * d];
                let vj = &vectors[j * d..(j + 1) * d];
                let ri = &rotated[i * d..(i + 1) * d];
                let rj = &rotated[j * d..(j + 1) * d];
                let orig = inner(vi, vj);
                let rot = inner(ri, rj);
                let abs_err = (orig - rot).abs();
                let rel_err = abs_err / orig.abs().max(1.0);
                assert!(
                    abs_err < 1e-3 || rel_err < 1e-3,
                    "inner product not preserved for ({i}, {j}) at d={d}: orig={orig}, rot={rot}"
                );
            }
        }
    }
}

#[test]
fn rotation_preserves_distances() {
    for &d in &[128_usize, 256] {
        let n = 20;
        let pruner = pruner(d, 2.1, 42);
        let vectors = random_vectors(n, d, -1.0, 1.0, 42);
        let mut rotated = zeros(n * d);
        pruner.rotate(&vectors, &mut rotated, n);
        for i in 0..n {
            for j in i + 1..n {
                let vi = &vectors[i * d..(i + 1) * d];
                let vj = &vectors[j * d..(j + 1) * d];
                let ri = &rotated[i * d..(i + 1) * d];
                let rj = &rotated[j * d..(j + 1) * d];
                let orig_d2: f32 = vi
                    .iter()
                    .zip(vj)
                    .map(|(a, b)| (float(*a) - float(*b)) * (float(*a) - float(*b)))
                    .sum();
                let rot_d2: f32 = ri
                    .iter()
                    .zip(rj)
                    .map(|(a, b)| (float(*a) - float(*b)) * (float(*a) - float(*b)))
                    .sum();
                let rel = (orig_d2 - rot_d2).abs() / orig_d2;
                assert!(
                    rel < 1e-4,
                    "distance not preserved for ({i}, {j}) at d={d}: orig={orig_d2}, rot={rot_d2}"
                );
            }
        }
    }
}

#[test]
fn single_vector_roundtrip() {
    for &d in &[64_usize, 256] {
        let (max_err, _) = rotate_roundtrip_errors(d, 1, 13);
        assert!(
            max_err < 1e-4,
            "single vector roundtrip failed at d={d}: max_err={max_err}"
        );
    }
}

#[test]
fn unrotate_inverts_rotate() {
    let d = 16;
    let n = 4;
    let pruner = pruner(d, 1.5, 7);
    let input = normal_draws(n * d, 123);
    let mut rotated = zeros(n * d);
    let mut restored = zeros(n * d);
    pruner.rotate(&input, &mut rotated, n);
    pruner.unrotate(&rotated, &mut restored, n);
    for i in 0..n * d {
        assert!(
            (float(input[i]) - float(restored[i])).abs() < 1.0e-3,
            "mismatch at {i}: {} vs {}",
            float(input[i]),
            float(restored[i])
        );
    }
}

#[test]
fn different_seeds_produce_different_rotations() {
    let d = 128;
    let n = 5;
    let original = random_vectors(n, d, -1.0, 1.0, 42);
    let p1 = pruner(d, 2.1, 42);
    let p2 = pruner(d, 2.1, 123);
    let mut r1 = zeros(n * d);
    let mut r2 = zeros(n * d);
    p1.rotate(&original, &mut r1, n);
    p2.rotate(&original, &mut r2, n);
    let any_diff = r1.iter().zip(&r2).any(|(a, b)| (float(*a) - float(*b)).abs() > 1e-6);
    assert!(
        any_diff,
        "different seeds should produce different rotations"
    );
}

#[test]
fn same_seed_produces_identical_rotations() {
    let d = 128;
    let n = 5;
    let original = random_vectors(n, d, -1.0, 1.0, 42);
    let p1 = pruner(d, 2.1, 42);
    let p2 = pruner(d, 2.1, 42);
    let mut r1 = zeros(n * d);
    let mut r2 = zeros(n * d);
    p1.rotate(&original, &mut r1, n);
    p2.rotate(&original, &mut r2, n);
    for i in 0..n * d {
        assert_eq!(
            r1[i], r2[i],
            "same seed should produce bit-identical rotations at {i}"
        );
    }
}

/// The same reflections in native arithmetic.
fn native_factor(d: usize, normals: &[f32]) -> Vec<f32> {
    let mut a: Vec<Vec<f32>> = normals.chunks(d).map(|c| c.to_vec()).collect();
    let mut q: Vec<Vec<f32>> = (0..d)
        .map(|c| (0..d).map(|r| if r == c { 1.0 } else { 0.0 }).collect())
        .collect();
    for j in 0..d {
        let mut norm_sq = 0.0_f32;
        for i in j..d {
            norm_sq += a[j][i] * a[j][i];
        }
        let norm = norm_sq.sqrt();
        if norm < 1.0e-12 {
            continue;
        }
        let alpha = if a[j][j] >= 0.0 { -norm } else { norm };
        let mut v: Vec<f32> = a[j][j..].to_vec();
        v[0] -= alpha;
        let mut length = 0.0_f32;
        for x in &v {
            length += x * x;
        }
        if length < 1.0e-30 {
            continue;
        }
        let inv = 2.0 / length;
        for c in j..d {
            let mut dot = 0.0_f32;
            for i in 0..d - j {
                dot += v[i] * a[c][i + j];
            }
            let scale = inv * dot;
            for i in 0..d - j {
                a[c][i + j] -= scale * v[i];
            }
        }
        for r in 0..d {
            let mut dot = 0.0_f32;
            for i in 0..d - j {
                dot += q[j + i][r] * v[i];
            }
            let scale = inv * dot;
            for i in 0..d - j {
                q[j + i][r] -= scale * v[i];
            }
        }
    }
    (0..d * d).map(|x| q[x % d][x / d]).collect()
}

#[test]
fn the_rotation_is_that_of_native_arithmetic() {
    for d in [1_usize, 2, 7, 33] {
        let normals = normal_draws(d * d, 5);
        let native: Vec<f32> = normals.iter().map(|x| float(*x)).collect();
        let p = ADSamplingPruner::new(d, single(1.5), &normals);
        let expected = native_factor(d, &native);
        for i in 0..d * d {
            assert_eq!(p.matrix[i].bits, expected[i].to_bits(), "d={d} i={i}");
        }
    }
}

#[test]
fn a_column_of_zeros_is_not_reflected() {
    let p = ADSamplingPruner::new(2, single(1.5), &zeros(4));
    let matrix: Vec<f32> = p.matrix.iter().map(|x| float(*x)).collect();
    assert_eq!(matrix, vec![1.0, 0.0, 0.0, 1.0]);
}

#[test]
fn ratios_start_and_end_at_one() {
    let p = pruner(8, 2.1, 3);
    assert_eq!(p.ratios.len(), 9);
    assert_eq!(float(p.ratios[0]), 1.0);
    assert_eq!(float(p.ratios[8]), 1.0);
    let eps = 2.1_f32 as f64;
    for v in 1..8_usize {
        let x = v as f64;
        let expected = ((x / 8.0) * (1.0 + eps / x.sqrt()) * (1.0 + eps / x.sqrt())) as f32;
        assert_eq!(float(p.ratios[v]), expected);
    }
}

#[test]
fn another_epsilon_changes_the_ratios_alone() {
    let mut p = pruner(8, 2.1, 3);
    let q = pruner(8, 1.1, 3);
    p.set_epsilon0(single(1.1));
    assert_eq!(p.ratios, q.ratios);
    assert_eq!(p.matrix, q.matrix);
    assert_eq!(float(p.epsilon0), 1.1);
}

#[test]
fn the_threshold_scales_the_best_distance() {
    let p = pruner(8, 2.1, 3);
    let best = KnnCandidate::new(4, single(3.5));
    for v in 0..9 {
        assert_eq!(float(p.pruning_threshold(&best, v)), 3.5 * float(p.ratios[v]));
    }
}
