//! Training and assignment, against the same steps in native arithmetic.
use rand::{Rng, SeedableRng};
use rand_chacha::ChaCha8Rng;
use rand_distr::{Distribution, Normal, Uniform};
use superkmeans::layout::get_dimension_split;
use superkmeans::{compute_l2_squared, generate_random_vectors, Single, SuperKMeans, SuperKMeansConfig};

fn single(x: f32) -> Single {
    Single { bits: x.to_bits() }
}

fn float(x: Single) -> f32 {
    f32::from_bits(x.bits)
}

fn floats(x: &[Single]) -> Vec<f32> {
    x.iter().map(|v| float(*v)).collect()
}

fn bits(x: &[Single]) -> Vec<u32> {
    x.iter().map(|v| v.bits).collect()
}

fn normal_draws(n: usize, seed: u64) -> Vec<Single> {
    let mut rng = ChaCha8Rng::seed_from_u64(seed);
    let normal = Normal::new(0.0_f32, 1.0).unwrap();
    (0..n).map(|_| single(normal.sample(&mut rng))).collect()
}

/// Points around a few centers, without random draws, so that large tables stay cheap.
fn points(n: usize, d: usize, centers: usize) -> Vec<Single> {
    (0..n * d)
        .map(|i| {
            let (row, t) = (i / d, i % d);
            let center = ((row % centers) * 37 + t * 11) % 101;
            let noise = (row * 7919 + t * 104729) % 997;
            single(center as f32 / 10.0 + noise as f32 / 3000.0)
        })
        .collect()
}

fn model(k: usize, d: usize, config: SuperKMeansConfig) -> SuperKMeans {
    let normals = normal_draws(d * d, config.seed);
    SuperKMeans::with_config(k, d, config, &normals)
}

/// The training loop on native numbers.
struct Native {
    d: usize,
    k: usize,
    n: usize,
    seed: u64,
    angular: bool,
    aggressive: bool,
    vertical: usize,
    horizontal: usize,
    partial_d: usize,
    ratios: Vec<f32>,
    now: Vec<f32>,
    before: Vec<f32>,
    sizes: Vec<u32>,
    assignments: Vec<u32>,
    distances: Vec<f32>,
    norms: Vec<f32>,
    cost: f32,
    shift: f32,
    split: usize,
    share: f32,
}

fn product(x: &[f32], y: &[f32]) -> f32 {
    let mut s = 0.0_f32;
    for t in 0..x.len() {
        s += x[t] * y[t];
    }
    s
}

fn lanes(a: &[f32], b: &[f32]) -> f32 {
    let m = a.len();
    let mut acc = [0.0_f32; 8];
    for i in 0..m - m % 8 {
        let x = a[i] - b[i];
        acc[i % 8] += x * x;
    }
    let mut s = 0.0_f32;
    for v in acc {
        s += v;
    }
    for i in m - m % 8..m {
        let x = a[i] - b[i];
        s += x * x;
    }
    s
}

fn square_norms(data: &[f32], d: usize, p: usize) -> Vec<f32> {
    data.chunks(d).map(|row| product(&row[..p], &row[..p])).collect()
}

fn shuffled(n: usize, seed: u64) -> Vec<usize> {
    let mut rng = ChaCha8Rng::seed_from_u64(seed);
    let mut indices: Vec<usize> = (0..n).collect();
    for i in (1..n).rev() {
        let j = rng.gen_range(0..=i);
        indices.swap(i, j);
    }
    indices
}

/// Each row times the transposed matrix.
fn rotated(data: &[f32], matrix: &[f32], d: usize) -> Vec<f32> {
    let mut out = Vec::new();
    for row in data.chunks(d) {
        for c in 0..d {
            out.push(product(row, &matrix[c * d..(c + 1) * d]));
        }
    }
    out
}

impl Native {
    fn assign_by_products(&mut self, data: &[f32]) {
        let d = self.d;
        let norms = square_norms(&self.before, d, d);
        for i in 0..self.n {
            let mut best = (f32::MAX, 0_usize);
            for c in 0..self.k {
                let v = -2.0 * product(&data[i * d..(i + 1) * d], &self.before[c * d..(c + 1) * d])
                    + self.norms[i]
                    + norms[c];
                if v < best.0 {
                    best = (v, c);
                }
            }
            self.assignments[i] = best.1 as u32;
            self.distances[i] = best.0.max(0.0);
        }
    }

    /// Returns how many candidates were not pruned at once.
    fn assign_by_pruning(&mut self, data: &[f32]) -> usize {
        let (d, p) = (self.d, self.partial_d);
        let norms = square_norms(&self.before, d, p);
        let mut total = 0;
        for i in 0..self.n {
            let query = &data[i * d..(i + 1) * d];
            let y = &self.before;
            let mut dist: Vec<f32> = (0..self.k)
                .map(|c| self.norms[i] + norms[c] - 2.0 * product(&query[..p], &y[c * d..c * d + p]))
                .collect();
            let known = self.assignments[i] as usize;
            let top = lanes(&y[known * d..(known + 1) * d], query);
            let mut alive: Vec<usize> = (0..self.k).filter(|c| dist[*c] < top * self.ratios[p]).collect();
            total += alive.len();
            let mut best = (top, known);
            if !(alive.len() == 1 && alive[0] == known) {
                let mut done = 0;
                while !alive.is_empty() && done < self.horizontal {
                    let block = 64.min(self.horizontal - done);
                    let from = self.vertical + done;
                    for c in &alive {
                        dist[*c] += lanes(&query[from..from + block], &y[c * d + from..c * d + from + block]);
                    }
                    done += block;
                    alive.retain(|c| dist[*c] < top * self.ratios[p + done]);
                }
                if !alive.is_empty() && p < self.vertical {
                    for c in &alive {
                        dist[*c] += lanes(&query[p..self.vertical], &y[c * d + p..c * d + self.vertical]);
                    }
                    alive.retain(|c| dist[*c] < top * self.ratios[d]);
                }
                for c in alive {
                    if dist[c] < best.0 {
                        best = (dist[c], c);
                    }
                }
            }
            self.assignments[i] = best.1 as u32;
            self.distances[i] = best.0.max(0.0);
        }
        total
    }

    fn gather(&mut self, data: &[f32]) {
        let d = self.d;
        self.now = vec![0.0; self.k * d];
        self.sizes = vec![0; self.k];
        for i in 0..self.n {
            let c = self.assignments[i] as usize;
            self.sizes[c] += 1;
            for t in 0..d {
                self.now[c * d + t] += data[i * d + t];
            }
        }
        for c in 0..self.k {
            if self.sizes[c] > 0 {
                let factor = 1.0 / self.sizes[c] as f32;
                for t in 0..d {
                    self.now[c * d + t] *= factor;
                }
            }
        }
    }

    fn balance(&mut self) {
        let (d, k) = (self.d, self.k);
        let mut rng = ChaCha8Rng::seed_from_u64(self.seed);
        let uniform = Uniform::new(0.0_f32, 1.0_f32);
        self.split = 0;
        for ci in 0..k {
            if self.sizes[ci] != 0 {
                continue;
            }
            let mut cj = 0;
            loop {
                let chance = (self.sizes[cj] as f32 - 1.0) / (self.n as f32 - k as f32).max(1.0);
                if uniform.sample(&mut rng) < chance {
                    break;
                }
                cj = (cj + 1) % k;
            }
            for t in 0..d {
                let v = self.now[cj * d + t];
                let eps = 1.0_f32 / 1024.0;
                let (up, down) = (v * (1.0 + eps), v * (1.0 - eps));
                self.now[ci * d + t] = if t % 2 == 0 { up } else { down };
                self.now[cj * d + t] = if t % 2 == 0 { down } else { up };
            }
            let half = self.sizes[cj] / 2;
            self.sizes[ci] = half;
            self.sizes[cj] -= half;
            self.split += 1;
        }
        if self.aggressive {
            let average = (self.n / k) as f32;
            let small = (average * 0.25) as u32;
            for ci in 0..k {
                let size = self.sizes[ci];
                if size == 0 || size as f32 > small as f32 {
                    continue;
                }
                let mut large = 0;
                loop {
                    if self.sizes[large] as f32 >= average {
                        let chance = (self.sizes[large] as f32 - average + 1.0)
                            / (self.n as f32 - average * k as f32 + k as f32);
                        if uniform.sample(&mut rng) < chance {
                            break;
                        }
                    }
                    large = (large + 1) % k;
                }
                let weight = (size as f32).min(7.0);
                for t in 0..d {
                    self.now[ci * d + t] =
                        (weight * self.now[ci * d + t] + 1.0 * self.now[large * d + t]) / (weight + 1.0);
                }
                self.split += 1;
            }
        }
        if self.angular {
            for row in self.now.chunks_mut(d) {
                let norm = 1.0 / product(row, row).sqrt().max(f32::EPSILON);
                for v in row.iter_mut() {
                    *v *= norm;
                }
            }
        }
    }

    fn iterate(&mut self, data: &[f32], iteration: u32, prune: bool) {
        let d = self.d;
        if iteration > 0 {
            std::mem::swap(&mut self.now, &mut self.before);
        }
        self.share = -1.0;
        if prune {
            let total = self.assign_by_pruning(data);
            self.gather(data);
            self.share = (total as f64 / (self.n as f64 * self.k as f64)) as f32;
            let p = self.partial_d as f32;
            if self.share > 0.05 {
                self.partial_d = (self.partial_d + ((p * 0.20 * 2.0) as usize).max(1)).min(self.vertical);
            } else if self.share < 0.03 {
                self.partial_d = (self.partial_d - ((p * 0.20) as usize).max(1)).max(16);
            }
            self.norms = square_norms(data, d, self.partial_d);
        } else {
            self.assign_by_products(data);
            self.gather(data);
        }
        self.balance();
        self.cost = 0.0;
        for v in &self.distances {
            self.cost += v;
        }
        self.shift = 0.0;
        for c in 0..self.k {
            let mut row = 0.0_f32;
            for t in 0..d {
                let x = self.now[c * d + t] - self.before[c * d + t];
                row += x * x;
            }
            self.shift += row;
        }
    }
}

/// Trains both, and compares everything that they leave.
fn compare(config: SuperKMeansConfig, data: &[Single], n: usize, k: usize, d: usize) -> SuperKMeans {
    let settings = config.clone();
    let mut kmeans = model(k, d, config);
    let matrix = floats(&kmeans.pruner.matrix);
    let ratios = floats(&kmeans.pruner.ratios);
    let centroids = kmeans.train(data, n);

    let values = floats(data);
    let fraction = float(settings.sampling_fraction);
    let samples = if fraction == 1.0 {
        n
    } else {
        ((n as f64 * fraction as f64).floor() as usize).min(k * settings.max_points_per_cluster as usize)
    };
    let order = shuffled(n, settings.seed);
    let mut start: Vec<f32> = Vec::new();
    for i in 0..k {
        start.extend(&values[order[i] * d..(order[i] + 1) * d]);
    }
    let mut chosen: Vec<f32> = Vec::new();
    for i in 0..samples {
        let row = if samples < n { order[i] } else { i };
        chosen.extend(&values[row * d..(row + 1) * d]);
    }
    if !settings.data_already_rotated {
        start = rotated(&start, &matrix, d);
        chosen = rotated(&chosen, &matrix, d);
    }
    let split = get_dimension_split(d);
    let norms = square_norms(&chosen, d, d);
    let mut native = Native {
        d,
        k,
        n: samples,
        seed: settings.seed,
        angular: settings.angular,
        aggressive: settings.use_aggressive_split,
        vertical: split.vertical_d,
        horizontal: split.horizontal_d,
        partial_d: (split.vertical_d / 2).max(16).min(split.vertical_d),
        ratios,
        now: start.clone(),
        before: start,
        sizes: vec![0; k],
        assignments: vec![0; samples],
        distances: vec![0.0; samples],
        norms,
        cost: 0.0,
        shift: 0.0,
        split: 0,
        share: -1.0,
    };
    let never = d < 128 || settings.use_blas_only || k <= 256;
    let mut iterations = 0;
    for iteration in 0..settings.iters {
        let prune = iteration > 0 && !never;
        if prune && iteration == 1 {
            native.norms = square_norms(&chosen, d, native.partial_d);
        }
        let partial_d = native.partial_d;
        let previous = native.cost;
        native.iterate(&chosen, iteration, prune);
        let stats = &kmeans.iteration_stats[iteration as usize];
        assert_eq!(stats.iteration, iteration as usize + 1);
        assert_eq!(float(stats.objective), native.cost);
        assert_eq!(float(stats.shift), native.shift);
        assert_eq!(stats.split, native.split);
        assert_eq!(stats.is_gemm_only, !prune);
        assert_eq!(float(stats.not_pruned_pct), native.share);
        assert_eq!(stats.partial_d, if prune { partial_d as u32 } else { 0 });
        iterations += 1;
        let tol = float(settings.tol);
        if settings.early_termination
            && (native.shift < tol
                || (iteration > 0 && native.cost / previous.max(f32::EPSILON) > 1.0 - tol))
        {
            break;
        }
    }
    assert_eq!(kmeans.iteration_stats.len(), iterations);
    assert_eq!(floats(&kmeans.horizontal_centroids), native.now);
    assert_eq!(kmeans.cluster_sizes, native.sizes);
    assert_eq!(kmeans.assignments, native.assignments);
    assert_eq!(floats(&kmeans.distances), native.distances);
    assert_eq!(kmeans.partial_d as usize, native.partial_d);
    assert!(kmeans.trained);
    assert_eq!(kmeans.cluster_sizes.iter().sum::<u32>() as usize, samples);
    assert_eq!(centroids.len(), k * d);
    if kmeans.config.unrotate_centroids {
        for c in 0..k {
            for j in 0..d {
                let mut s = 0.0_f32;
                for t in 0..d {
                    s += native.now[c * d + t] * matrix[t * d + j];
                }
                assert_eq!(float(centroids[c * d + j]), s);
            }
        }
    } else {
        assert_eq!(floats(&centroids), native.now);
    }
    kmeans
}

fn full_sampling() -> SuperKMeansConfig {
    let mut config = SuperKMeansConfig::default();
    config.sampling_fraction = single(1.0);
    config
}

#[test]
fn defaults() {
    let config = SuperKMeansConfig::default();
    assert_eq!(config.iters, 10);
    assert_eq!(float(config.sampling_fraction), 0.3);
    assert_eq!(config.max_points_per_cluster, 256);
    assert_eq!(config.n_threads, 0);
    assert_eq!(config.seed, 42);
    assert_eq!(float(config.tol), 1.0e-4);
    assert_eq!(float(config.recall_tol), 0.005);
    assert!(config.early_termination);
    assert_eq!(config.objective_k, 100);
    assert_eq!(float(config.ann_explore_fraction), 0.01);
    assert_eq!(float(config.min_not_pruned_pct), 0.03);
    assert_eq!(float(config.max_not_pruned_pct), 0.05);
    assert_eq!(float(config.adjustment_factor_for_partial_d), 0.20);
    assert!(config.unrotate_centroids);
    let flags = [
        config.use_blas_only,
        config.sample_queries,
        config.verbose,
        config.angular,
        config.suppress_warnings,
        config.data_already_rotated,
        config.use_aggressive_split,
    ];
    assert_eq!(flags, [false; 7]);
}

#[test]
fn a_new_clustering() {
    let d = 20;
    let kmeans = SuperKMeans::new(3, d, &normal_draws(d * d, 42));
    assert_eq!((kmeans.d, kmeans.n_clusters, kmeans.vertical_d, kmeans.horizontal_d), (20, 3, 20, 0));
    assert!(!kmeans.trained);
    assert_eq!(kmeans.n_threads, rayon::current_num_threads());
    assert_eq!(float(kmeans.pruner.epsilon0), 1.5);
    assert!(kmeans.horizontal_centroids.is_empty() && kmeans.iteration_stats.is_empty());
    let mut config = SuperKMeansConfig::default();
    config.n_threads = 3;
    config.data_already_rotated = true;
    let other = SuperKMeans::with_config(3, d, config, &normal_draws(d * d, 42));
    assert_eq!(other.n_threads, 3);
    assert!(!other.config.unrotate_centroids);
}

#[test]
fn training_is_that_of_native_arithmetic() {
    let (n, d, k) = (80, 6, 5);
    let data = generate_random_vectors(n, d, single(-1.0), single(1.0), 3);
    compare(full_sampling(), &data, n, k, d);
}

#[test]
fn training_on_a_sample() {
    let (n, d, k) = (120, 4, 6);
    let data = generate_random_vectors(n, d, single(0.0), single(2.0), 8);
    let mut config = SuperKMeansConfig::default();
    config.seed = 7;
    let kmeans = compare(config, &data, n, k, d);
    assert_eq!(kmeans.n_samples, 36);
    assert_eq!(kmeans.sampled_indices.len(), n);
    let mut limited = SuperKMeansConfig::default();
    limited.max_points_per_cluster = 3;
    assert_eq!(compare(limited, &data, n, k, d).n_samples, 18);
}

#[test]
fn training_without_rotation() {
    let (n, d, k) = (60, 3, 4);
    let data = generate_random_vectors(n, d, single(-1.0), single(1.0), 4);
    let mut config = full_sampling();
    config.data_already_rotated = true;
    config.early_termination = false;
    config.iters = 4;
    let kmeans = compare(config, &data, n, k, d);
    assert_eq!(kmeans.iteration_stats.len(), 4);
}

#[test]
fn training_with_angles_and_aggressive_splits() {
    let (n, d, k) = (90, 5, 9);
    let data = points(n, d, 4);
    let mut config = full_sampling();
    config.angular = true;
    config.use_aggressive_split = true;
    config.iters = 6;
    compare(config, &data, n, k, d);
}

#[test]
fn equal_points_make_empty_clusters() {
    let (n, d, k) = (40, 3, 5);
    let data = vec![single(2.0); n * d];
    let mut config = full_sampling();
    config.data_already_rotated = true;
    config.iters = 3;
    config.early_termination = false;
    let kmeans = compare(config, &data, n, k, d);
    assert_eq!(kmeans.iteration_stats[0].split, 4);
    assert!(kmeans.cluster_sizes.iter().all(|s| *s > 0));
}

#[test]
fn training_with_pruning() {
    let (n, d, k) = (300, 128, 257);
    let data = points(n, d, 100);
    let mut config = full_sampling();
    config.iters = 3;
    config.early_termination = false;
    let kmeans = compare(config, &data, n, k, d);
    assert!(!kmeans.iteration_stats[1].is_gemm_only);
    assert!(!kmeans.iteration_stats[2].is_gemm_only);
}

#[test]
fn threads_and_queries_change_nothing() {
    let (n, d, k) = (50, 4, 4);
    let data = generate_random_vectors(n, d, single(-1.0), single(1.0), 5);
    let mut one = full_sampling();
    one.n_threads = 1;
    let mut many = full_sampling();
    many.n_threads = 16;
    let mut a = model(k, d, one);
    let mut b = model(k, d, many);
    let centroids = a.train(&data, n);
    assert_eq!(bits(&centroids), bits(&b.train_with_queries(&data, n, &data[..d], 1)));
    assert_eq!(a.assignments, b.assignments);
}

#[test]
fn one_cluster_holds_everything() {
    let (n, d) = (10, 2);
    let data = points(n, d, 3);
    let mut config = full_sampling();
    config.data_already_rotated = true;
    let mut kmeans = model(1, d, config);
    let centroids = kmeans.train(&data, n);
    assert_eq!(kmeans.cluster_sizes, vec![10]);
    for t in 0..d {
        let mut s = 0.0_f32;
        for i in 0..n {
            s += float(data[i * d + t]);
        }
        assert_eq!(float(centroids[t]), s * (1.0 / 10.0));
    }
}

#[test]
fn vectors_are_assigned_to_their_nearest_centroid() {
    let (n, d, k) = (200, 16, 8);
    let data = points(n, d, k);
    let mut kmeans = model(k, d, full_sampling());
    let centroids = kmeans.train(&data, n);
    let assignments = kmeans.assign(&data, &centroids, n);
    assert_eq!(assignments.len(), n);
    for i in 0..n {
        let row = &data[i * d..(i + 1) * d];
        let to = |c: usize| float(compute_l2_squared(row, &centroids[c * d..(c + 1) * d]));
        let mine = to(assignments[i] as usize);
        assert!((0..k).all(|c| mine <= to(c) + 1.0e-2));
    }
    assert!(kmeans.assign(&data, &centroids, 0).is_empty());
}

/// How many of the assignments are those of an exhaustive search.
fn agreement(kmeans: &SuperKMeans, data: &[Single], centroids: &[Single], n: usize, found: &[u32]) -> usize {
    let exact = kmeans.assign(data, centroids, n);
    (0..n).filter(|i| exact[*i] == found[*i]).count()
}

fn trained_for_pruning(n: usize, fraction: f32) -> (SuperKMeans, Vec<Single>, Vec<Single>) {
    let (d, k) = (128, 257);
    let data = points(n, d, 100);
    let mut config = SuperKMeansConfig::default();
    config.sampling_fraction = single(fraction);
    config.iters = 1;
    let mut kmeans = model(k, d, config);
    let centroids = kmeans.train(&data, n);
    (kmeans, data, centroids)
}

#[test]
fn training_points_after_full_sampling() {
    let n = 300;
    let (mut kmeans, data, centroids) = trained_for_pruning(n, 1.0);
    let found = kmeans.assign_training_points(&data, &centroids, n);
    assert_eq!(found.len(), n);
    assert!(agreement(&kmeans, &data, &centroids, n, &found) >= 270);
    assert_eq!(kmeans.partial_d as usize, kmeans.vertical_d / 2);
    // No point is worse off than after training.
    let d = kmeans.d;
    let mut rotated = vec![single(0.0); n * d];
    kmeans.pruner.rotate(&data, &mut rotated, n);
    for i in 0..n {
        let to = |c: u32| {
            let at = c as usize * d;
            float(compute_l2_squared(&rotated[i * d..(i + 1) * d], &kmeans.horizontal_centroids[at..at + d]))
        };
        assert!(to(found[i]) <= to(kmeans.assignments[i]) * 1.001 + 1.0e-3);
    }
}

#[test]
fn training_points_after_dense_sampling() {
    let n = 310;
    let (mut kmeans, data, centroids) = trained_for_pruning(n, 0.9);
    assert_eq!(kmeans.n_samples, (310.0 * 0.9_f32 as f64).floor() as usize);
    let found = kmeans.assign_training_points(&data, &centroids, n);
    assert_eq!(found.len(), n);
    assert!(agreement(&kmeans, &data, &centroids, n, &found) >= 270);
}

#[test]
fn training_points_after_sparse_sampling() {
    let n = 520;
    let (mut kmeans, data, centroids) = trained_for_pruning(n, 0.5);
    assert_eq!(kmeans.n_samples, 260);
    let found = kmeans.assign_training_points(&data, &centroids, n);
    assert_eq!(found.len(), n);
    assert!(agreement(&kmeans, &data, &centroids, n, &found) >= 450);
}

#[test]
fn few_clusters_are_searched_exhaustively() {
    let (n, d, k) = (60, 8, 5);
    let data = points(n, d, k);
    let mut kmeans = model(k, d, full_sampling());
    let centroids = kmeans.train(&data, n);
    let partial_d = kmeans.partial_d;
    let exact = kmeans.assign(&data, &centroids, n);
    assert_eq!(kmeans.assign_training_points(&data, &centroids, n), exact);
    assert_eq!(kmeans.partial_d, partial_d);
}
