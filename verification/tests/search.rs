//! Nearest-neighbour search, with and without pruning.
use rand::SeedableRng;
use rand_chacha::ChaCha8Rng;
use rand_distr::{Distribution, Normal};
use superkmeans::adsampling::ADSamplingPruner;
use superkmeans::batch::{find_k_nearest_neighbors, find_nearest_neighbor, find_nearest_neighbor_with_pruning};
use superkmeans::centroids::compute_partial_norms_row_major;
use superkmeans::layout::get_dimension_split;
use superkmeans::pdxearch::top1_partial_search;
use superkmeans::{compute_norms_row_major, find_nearest_neighbor_brute_force, generate_random_vectors, Single};

fn single(x: f32) -> Single {
    Single { bits: x.to_bits() }
}

fn float(x: Single) -> f32 {
    f32::from_bits(x.bits)
}

fn singles(x: &[f32]) -> Vec<Single> {
    x.iter().map(|v| single(*v)).collect()
}

fn floats(x: &[Single]) -> Vec<f32> {
    x.iter().map(|v| float(*v)).collect()
}

fn random(n: usize, d: usize, seed: u64) -> Vec<Single> {
    generate_random_vectors(n, d, single(-1.0), single(1.0), seed)
}

/// A cheap table of numbers, for tables that are too long to draw.
fn spread(n: usize) -> Vec<Single> {
    (0..n).map(|i| single(((i * 7919 + 13) % 1009) as f32 / 128.0)).collect()
}

fn dot(x: &[Single], y: &[Single], d: usize) -> f32 {
    let mut s = 0.0_f32;
    for t in 0..d {
        s += float(x[t]) * float(y[t]);
    }
    s
}

fn pruner(d: usize, seed: u64) -> ADSamplingPruner {
    let mut rng = ChaCha8Rng::seed_from_u64(seed);
    let normal = Normal::new(0.0_f32, 1.0).unwrap();
    let draws: Vec<Single> = (0..d * d).map(|_| single(normal.sample(&mut rng))).collect();
    ADSamplingPruner::new(d, single(1.5), &draws)
}

#[test]
fn products_find_what_native_arithmetic_finds() {
    let (n_x, n_y, d) = (9, 13, 5);
    let x = random(n_x, d, 1);
    let y = random(n_y, d, 2);
    let norms_x = compute_norms_row_major(&x, n_x, d);
    let norms_y = compute_norms_row_major(&y, n_y, d);
    let mut knn = vec![99_u32; n_x + 1];
    let mut distances = singles(&[9.0; 10]);
    let mut buf = Vec::new();
    find_nearest_neighbor(&x, &y, n_x, n_y, d, &norms_x, &norms_y, &mut knn, &mut distances, &mut buf);
    for i in 0..n_x {
        let mut best = (f32::MAX, 0_u32);
        for c in 0..n_y {
            let v = -2.0 * dot(&x[i * d..], &y[c * d..], d) + float(norms_x[i]) + float(norms_y[c]);
            if v < best.0 {
                best = (v, c as u32);
            }
        }
        assert_eq!(knn[i], best.1);
        assert_eq!(float(distances[i]), best.0.max(0.0));
    }
    assert_eq!(knn[n_x], 99);
    assert_eq!(float(distances[n_x]), 9.0);
    let mut plain = vec![0_u32; n_x];
    let mut plain_distances = singles(&[0.0; 9]);
    find_nearest_neighbor_brute_force(&x, &y, n_x, n_y, d, &mut plain, &mut plain_distances);
    assert_eq!(&knn[..n_x], &plain[..]);
}

#[test]
fn candidates_beyond_the_first_batch_are_found() {
    let (n_x, n_y, d) = (3, 2100, 2);
    let mut y = spread(n_y * d);
    let x = singles(&[100.0, 100.0, -50.0, 3.0, 2.0, -70.0]);
    for (c, i) in [(1023_usize, 0_usize), (1024, 1), (2099, 2)] {
        y[c * d] = x[i * d];
        y[c * d + 1] = x[i * d + 1];
    }
    let norms_x = compute_norms_row_major(&x, n_x, d);
    let norms_y = compute_norms_row_major(&y, n_y, d);
    let mut knn = vec![0_u32; n_x];
    let mut distances = singles(&[0.0; 3]);
    let mut buf = Vec::new();
    find_nearest_neighbor(&x, &y, n_x, n_y, d, &norms_x, &norms_y, &mut knn, &mut distances, &mut buf);
    assert_eq!(knn, vec![1023, 1024, 2099]);
    assert_eq!(floats(&distances), vec![0.0, 0.0, 0.0]);
}

#[test]
fn without_candidates_nothing_is_found() {
    let x = singles(&[1.0, 2.0]);
    let norms = compute_norms_row_major(&x, 1, 2);
    let mut knn = vec![5_u32];
    let mut distances = singles(&[5.0]);
    let mut buf = Vec::new();
    find_nearest_neighbor(&x, &[], 1, 0, 2, &norms, &[], &mut knn, &mut distances, &mut buf);
    assert_eq!(knn, vec![0]);
    assert_eq!(float(distances[0]), f32::MAX);
}

#[test]
fn the_k_nearest_come_in_order() {
    let (n_x, n_y, d, k) = (4, 11, 3, 5);
    let x = random(n_x, d, 3);
    let y = random(n_y, d, 4);
    let norms_x = compute_norms_row_major(&x, n_x, d);
    let norms_y = compute_norms_row_major(&y, n_y, d);
    let mut knn = vec![0_u32; n_x * k];
    let mut distances = vec![single(0.0); n_x * k];
    find_k_nearest_neighbors(&x, &y, n_x, n_y, d, &norms_x, &norms_y, k, &mut knn, &mut distances);
    for i in 0..n_x {
        let mut all: Vec<(f32, u32)> = (0..n_y)
            .map(|c| {
                let v = -2.0 * dot(&x[i * d..], &y[c * d..], d) + float(norms_x[i]) + float(norms_y[c]);
                (v, c as u32)
            })
            .collect();
        all.sort_by(|a, b| a.0.partial_cmp(&b.0).unwrap());
        for t in 0..k {
            assert_eq!(knn[i * k + t], all[t].1);
            assert_eq!(float(distances[i * k + t]), all[t].0.max(0.0));
        }
    }
}

#[test]
fn missing_neighbours_are_marked() {
    let x = singles(&[0.0]);
    let y = singles(&[3.0, 1.0]);
    let norms_x = compute_norms_row_major(&x, 1, 1);
    let norms_y = compute_norms_row_major(&y, 2, 1);
    let mut knn = vec![0_u32; 5];
    let mut distances = singles(&[0.0; 5]);
    find_k_nearest_neighbors(&x, &y, 1, 2, 1, &norms_x, &norms_y, 4, &mut knn, &mut distances);
    assert_eq!(knn, vec![1, 0, u32::MAX, u32::MAX, u32::MAX]);
    assert_eq!(floats(&distances), vec![1.0, 9.0, f32::MAX, f32::MAX, f32::MAX]);
}

#[test]
fn the_k_nearest_over_several_batches() {
    let (n_y, k) = (1500_usize, 3_usize);
    let mut y = vec![single(50.0); n_y];
    y[1400] = single(1.0);
    y[10] = single(2.0);
    y[1030] = single(3.0);
    let x = singles(&[0.0]);
    let norms_x = compute_norms_row_major(&x, 1, 1);
    let norms_y = compute_norms_row_major(&y, n_y, 1);
    let mut knn = vec![0_u32; k];
    let mut distances = singles(&[0.0; 3]);
    find_k_nearest_neighbors(&x, &y, 1, n_y, 1, &norms_x, &norms_y, k, &mut knn, &mut distances);
    assert_eq!(knn, vec![1400, 10, 1030]);
    assert_eq!(floats(&distances), vec![1.0, 4.0, 9.0]);
}

/// What the pruning search should do, written with native numbers.
fn native_search(
    ratios: &[f32],
    query: &[f32],
    centroids: &[f32],
    n: usize,
    d: usize,
    vertical: usize,
    horizontal: usize,
    partial: &mut [f32],
    partial_d: usize,
    top: (u32, f32),
) -> ((u32, f32), usize) {
    let distance = |a: &[f32], b: &[f32]| {
        let m = a.len();
        let mut lanes = [0.0_f32; 8];
        for i in 0..m - m % 8 {
            let x = a[i] - b[i];
            lanes[i % 8] += x * x;
        }
        let mut s = 0.0_f32;
        for lane in lanes {
            s += lane;
        }
        for i in m - m % 8..m {
            let x = a[i] - b[i];
            s += x * x;
        }
        s
    };
    let mut alive: Vec<usize> = (0..n).filter(|c| partial[*c] < top.1 * ratios[partial_d]).collect();
    let not_pruned = alive.len();
    if alive.len() == 1 && alive[0] == top.0 as usize {
        return (top, not_pruned);
    }
    let mut done = 0;
    while !alive.is_empty() && done < horizontal {
        let block = 64.min(horizontal - done);
        let from = vertical + done;
        for c in &alive {
            partial[*c] += distance(&query[from..from + block], &centroids[c * d + from..c * d + from + block]);
        }
        done += block;
        alive.retain(|c| partial[*c] < top.1 * ratios[partial_d + done]);
    }
    if !alive.is_empty() && partial_d < vertical {
        for c in &alive {
            partial[*c] += distance(&query[partial_d..vertical], &centroids[c * d + partial_d..c * d + vertical]);
        }
        alive.retain(|c| partial[*c] < top.1 * ratios[d]);
    }
    let mut best = top;
    for c in alive {
        if partial[c] < best.1 {
            best = (c as u32, partial[c]);
        }
    }
    (best, not_pruned)
}

#[test]
fn the_pruning_search_is_that_of_native_arithmetic() {
    let (d, n) = (160_usize, 12_usize);
    let split = get_dimension_split(d);
    let pruner = pruner(d, 42);
    let ratios = floats(&pruner.ratios);
    let centroids = random(n, d, 5);
    let queries = random(6, d, 6);
    for (q, partial_d) in [(0_usize, 16_usize), (1, 16), (2, 40), (3, 60), (4, split.vertical_d), (5, 17)] {
        let query = &queries[q * d..(q + 1) * d];
        let mut partial: Vec<f32> = (0..n)
            .map(|c| {
                let mut s = 0.0_f32;
                for t in 0..partial_d {
                    let x = float(query[t]) - float(centroids[c * d + t]);
                    s += x * x;
                }
                s
            })
            .collect();
        let start = (q % n) as u32;
        let known = {
            let at = start as usize * d;
            superkmeans::distance::l2_squared(&centroids[at..at + d], query)
        };
        let mut table = singles(&partial);
        let mut positions = Vec::new();
        let (found, not_pruned) = top1_partial_search(
            &pruner,
            query,
            &centroids,
            n,
            d,
            split.vertical_d,
            split.horizontal_d,
            &mut table,
            partial_d,
            start,
            known,
            0,
            &mut positions,
        );
        let (best, count) = native_search(
            &ratios,
            &floats(query),
            &floats(&centroids),
            n,
            d,
            split.vertical_d,
            split.horizontal_d,
            &mut partial,
            partial_d,
            (start, float(known)),
        );
        assert_eq!(found.index, best.0);
        assert_eq!(float(found.distance), best.1);
        assert_eq!(not_pruned, count);
        assert_eq!(floats(&table), partial);
        assert!(float(found.distance) <= float(known));
    }
}

#[test]
fn pruning_keeps_or_improves_what_is_known() {
    let (n_x, n_y, d) = (20_usize, 30_usize, 128_usize);
    let split = get_dimension_split(d);
    let pruner = pruner(d, 1);
    let partial_d = 32;
    let y = random(n_y, d, 7);
    // Each query is near one candidate.
    let noise = random(n_x, d, 8);
    let x: Vec<Single> = (0..n_x * d)
        .map(|i| single(float(y[(i / d * 3 % n_y) * d + i % d]) + 0.05 * float(noise[i])))
        .collect();
    let norms_x = compute_partial_norms_row_major(&x, n_x, d, partial_d);
    let norms_y = compute_partial_norms_row_major(&y, n_y, d, partial_d);
    let mut knn: Vec<u32> = (0..n_x as u32).map(|i| i % n_y as u32).collect();
    let mut distances = vec![single(0.0); n_x];
    let mut counts = vec![5_usize; n_x];
    let mut buf = Vec::new();
    find_nearest_neighbor_with_pruning(
        &x,
        &y,
        n_x,
        n_y,
        d,
        split.vertical_d,
        split.horizontal_d,
        &norms_x,
        &norms_y,
        &mut knn,
        &mut distances,
        &pruner,
        partial_d,
        &mut counts,
        &mut buf,
    );
    for i in 0..n_x {
        assert_eq!(knn[i] as usize, i * 3 % n_y);
        assert!(counts[i] > 5 && counts[i] <= 5 + n_y);
        let at = knn[i] as usize * d;
        let exact = float(superkmeans::compute_l2_squared(&x[i * d..(i + 1) * d], &y[at..at + d]));
        assert!((float(distances[i]) - exact).abs() < 1.0e-3);
    }
}

#[test]
fn pruning_over_several_batches() {
    let (n_y, d) = (1030_usize, 64_usize);
    let pruner = pruner(d, 2);
    let mut y = spread(n_y * d);
    let x: Vec<Single> = (0..d).map(|t| single(-3.0 - t as f32 / 16.0)).collect();
    for t in 0..d {
        y[1027 * d + t] = single(float(x[t]) + 0.25);
    }
    let partial_d = 16;
    let norms_x = compute_partial_norms_row_major(&x, 1, d, partial_d);
    let norms_y = compute_partial_norms_row_major(&y, n_y, d, partial_d);
    let mut knn = vec![4_u32];
    let mut distances = singles(&[0.0]);
    let mut counts = vec![0_usize];
    let mut buf = Vec::new();
    find_nearest_neighbor_with_pruning(
        &x, &y, 1, n_y, d, d, 0, &norms_x, &norms_y, &mut knn, &mut distances, &pruner, partial_d, &mut counts, &mut buf,
    );
    assert_eq!(knn, vec![1027]);
    assert!((float(distances[0]) - 4.0).abs() < 0.05);
}

/// Integers that keep all distances exact.
fn integers(n: usize, d: usize, seed: usize) -> Vec<Single> {
    (0..n * d).map(|i| single(((i * 7919 + seed * 31) % 61) as f32 - 30.0)).collect()
}

#[test]
fn all_searches_agree_on_integers() {
    let (n_x, n_y, d) = (12_usize, 40_usize, 128_usize);
    let split = get_dimension_split(d);
    let x = integers(n_x, d, 1);
    let y = integers(n_y, d, 2);
    let mut rng = ChaCha8Rng::seed_from_u64(3);
    let normal = Normal::new(0.0_f32, 1.0).unwrap();
    let draws: Vec<Single> = (0..d * d).map(|_| single(normal.sample(&mut rng))).collect();
    // With an epsilon above the square root of d, no ratio is below 1.
    let pruner = ADSamplingPruner::new(d, single(12.0), &draws);
    assert!(pruner.ratios.iter().all(|r| float(*r) >= 1.0));

    let norms_x = compute_norms_row_major(&x, n_x, d);
    let norms_y = compute_norms_row_major(&y, n_y, d);
    let mut knn = vec![0_u32; n_x];
    let mut distances = vec![single(0.0); n_x];
    let mut buf = Vec::new();
    find_nearest_neighbor(&x, &y, n_x, n_y, d, &norms_x, &norms_y, &mut knn, &mut distances, &mut buf);
    let mut plain = vec![0_u32; n_x];
    let mut plain_distances = vec![single(0.0); n_x];
    find_nearest_neighbor_brute_force(&x, &y, n_x, n_y, d, &mut plain, &mut plain_distances);
    assert_eq!(knn, plain);
    assert_eq!(floats(&distances), floats(&plain_distances));

    for partial_d in [16_usize, 40, split.vertical_d] {
        let part_x = compute_partial_norms_row_major(&x, n_x, d, partial_d);
        let part_y = compute_partial_norms_row_major(&y, n_y, d, partial_d);
        for (seed, old) in [(0_u32, 0.0_f32), (17, 5.0), (39, f32::MAX)] {
            let mut found = vec![seed; n_x];
            let mut found_distances = vec![single(old); n_x];
            let mut counts = vec![0_usize; n_x];
            find_nearest_neighbor_with_pruning(
                &x,
                &y,
                n_x,
                n_y,
                d,
                split.vertical_d,
                split.horizontal_d,
                &part_x,
                &part_y,
                &mut found,
                &mut found_distances,
                &pruner,
                partial_d,
                &mut counts,
                &mut buf,
            );
            assert_eq!(floats(&found_distances), floats(&distances));
        }
    }
}
