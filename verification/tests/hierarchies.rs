//! Clustering in levels.
use rand::SeedableRng;
use rand_chacha::ChaCha8Rng;
use rand_distr::{Distribution, Normal};
use superkmeans::{compute_l2_squared, Single};
use superkmeans::{HierarchicalSuperKMeans, HierarchicalSuperKMeansConfig, HierarchicalSuperKMeansIterationStats};

fn single(x: f32) -> Single {
    Single { bits: x.to_bits() }
}

fn float(x: Single) -> f32 {
    f32::from_bits(x.bits)
}

fn bits(x: &[Single]) -> Vec<u32> {
    x.iter().map(|v| v.bits).collect()
}

fn normal_draws(n: usize, seed: u64) -> Vec<Single> {
    let mut rng = ChaCha8Rng::seed_from_u64(seed);
    let normal = Normal::new(0.0_f32, 1.0).unwrap();
    (0..n).map(|_| single(normal.sample(&mut rng))).collect()
}

fn points(n: usize, d: usize, centers: usize) -> Vec<Single> {
    (0..n * d)
        .map(|i| {
            let (row, t) = (i / d, i % d);
            let center = ((row % centers) * 37 + t * 11) % 101;
            let noise = (row * 7919 + t * 104729) % 997;
            single(center as f32 / 10.0 + noise as f32 / 3000.0)
        })
        .collect()
}

fn model(k: usize, d: usize, config: HierarchicalSuperKMeansConfig) -> HierarchicalSuperKMeans {
    let normals = normal_draws(d * d, config.base.seed);
    HierarchicalSuperKMeans::with_config(k, d, config, &normals)
}

#[test]
fn hierarchical_defaults() {
    let config = HierarchicalSuperKMeansConfig::default();
    assert_eq!(float(config.base.sampling_fraction), 1.0);
    assert!(config.base.use_aggressive_split);
    assert_eq!(config.base.iters, 10);
    assert_eq!(
        (config.iters_mesoclustering, config.iters_fineclustering, config.iters_refinement),
        (3, 5, 0)
    );
    let stats = HierarchicalSuperKMeansIterationStats::default();
    assert!(stats.mesoclustering.is_empty() && stats.fineclustering.is_empty() && stats.refinement.is_empty());
}

#[test]
fn a_new_hierarchy() {
    let d = 12;
    let h = HierarchicalSuperKMeans::new(9, d, &normal_draws(d * d, 42));
    assert_eq!(h.base.n_clusters, 9);
    assert_eq!(h.n_mesoclusters, 0);
    assert_eq!(float(h.base.pruner.epsilon0), 1.1);
    let mut config = HierarchicalSuperKMeansConfig::default();
    config.base.use_aggressive_split = false;
    assert!(model(9, d, config).base.config.use_aggressive_split);
}

#[test]
fn a_hierarchy_is_trained_and_assigns() {
    let (n, d, k) = (160, 8, 16);
    let data = points(n, d, 16);
    let mut h = model(k, d, HierarchicalSuperKMeansConfig::default());
    let centroids = h.train_checked(&data, n).unwrap();
    assert_eq!(centroids.len(), k * d);
    assert_eq!(h.n_mesoclusters, 4);
    assert!(h.base.trained);
    assert_eq!(h.base.n_samples, n);
    assert!(h.iteration_stats.mesoclustering.len() <= 3);
    assert!(!h.iteration_stats.mesoclustering.is_empty());
    assert!(h.iteration_stats.fineclustering.len() <= 4 * 5);
    assert!(h.iteration_stats.refinement.is_empty());
    assert!(h.base.iteration_stats.is_empty());
    assert!(h.base.assignments.iter().all(|a| (*a as usize) < k));
    let assignments = h.assign(&data, &centroids, n);
    for i in 0..n {
        let row = &data[i * d..(i + 1) * d];
        let to = |c: usize| float(compute_l2_squared(row, &centroids[c * d..(c + 1) * d]));
        let mine = to(assignments[i] as usize);
        assert!((0..k).all(|c| mine <= to(c) + 1.0e-2));
    }
}

#[test]
fn training_with_and_without_the_test_is_the_same() {
    let (n, d, k) = (100, 5, 9);
    let data = points(n, d, 9);
    let mut config = HierarchicalSuperKMeansConfig::default();
    config.iters_refinement = 2;
    config.base.data_already_rotated = true;
    let mut a = model(k, d, config.clone());
    let mut b = model(k, d, config);
    let centroids = a.train_checked(&data, n).unwrap();
    assert_eq!(bits(&centroids), bits(&b.train(&data, n)));
    assert_eq!(a.base.assignments, b.base.assignments);
    assert_eq!(a.iteration_stats.refinement.len(), 2);
    assert_eq!(a.iteration_stats.refinement[0].iteration, 1);
    assert_eq!(a.iteration_stats.refinement[1].iteration, 2);
    assert_eq!(a.base.cluster_sizes.iter().sum::<u32>() as usize, n);
}

#[test]
fn threads_change_nothing_in_a_hierarchy() {
    let (n, d, k) = (80, 4, 9);
    let data = points(n, d, 9);
    let mut results = Vec::new();
    for n_threads in [1_u32, 8] {
        let mut config = HierarchicalSuperKMeansConfig::default();
        config.base.n_threads = n_threads;
        config.iters_refinement = 1;
        let mut h = model(k, d, config);
        assert_eq!(h.base.n_threads, n_threads as usize);
        results.push((bits(&h.train_checked(&data, n).unwrap()), h.base.assignments));
    }
    assert_eq!(results[0], results[1]);
}

#[test]
fn all_iterations_run_without_early_termination() {
    let (n, d, k) = (64, 4, 4);
    let data = points(n, d, 4);
    let mut config = HierarchicalSuperKMeansConfig::default();
    config.base.early_termination = false;
    let mut h = model(k, d, config);
    h.train_checked(&data, n).unwrap();
    assert_eq!(h.n_mesoclusters, 2);
    assert_eq!(h.iteration_stats.mesoclustering.len(), 3);
    assert_eq!(h.iteration_stats.fineclustering.len(), 10);
    let numbers: Vec<usize> = h.iteration_stats.fineclustering.iter().map(|s| s.iteration).collect();
    assert_eq!(numbers, vec![1, 2, 3, 4, 5, 1, 2, 3, 4, 5]);
}

#[test]
fn a_hierarchy_of_a_sample() {
    let (n, d, k) = (120, 4, 9);
    let data = points(n, d, 9);
    let mut config = HierarchicalSuperKMeansConfig::default();
    config.base.sampling_fraction = single(0.5);
    let mut h = model(k, d, config);
    h.train_checked(&data, n).unwrap();
    assert_eq!(h.base.n_samples, 60);
    assert_eq!(h.base.assignments.len(), 60);
}

#[test]
fn filled_mesoclusters_may_leave_no_list() {
    // Two places for three mesoclusters: one of them is empty, and is filled from another, whose
    // samples may then no longer have room in the list.
    let (n, d, k) = (30, 2, 9);
    let data: Vec<Single> = (0..n * d).map(|i| single(if i / d % 2 == 0 { -5.0 } else { 5.0 })).collect();
    let (mut with, mut without) = (0, 0);
    for seed in 0..80_u64 {
        let mut config = HierarchicalSuperKMeansConfig::default();
        config.base.seed = seed;
        config.base.data_already_rotated = true;
        config.iters_mesoclustering = 1;
        let mut h = model(k, d, config);
        match h.train_checked(&data, n) {
            Some(centroids) => {
                with += 1;
                assert_eq!(centroids.len(), k * d);
                assert!(h.base.trained);
                assert!(h.iteration_stats.mesoclustering[0].split > 0);
            }
            None => {
                without += 1;
                assert!(!h.base.trained);
                assert_eq!(h.n_mesoclusters, 0);
                assert!(h.base.assignments.is_empty());
            }
        }
    }
    assert!(with > 0 && without > 0, "{with} {without}");
}
