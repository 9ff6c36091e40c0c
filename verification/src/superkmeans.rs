//! The core algorithm: k-means with matrix products and pruning.
use crate::adsampling::{orthonormal_factor, ADSamplingPruner, Pruner};
use crate::batch::{find_nearest_neighbor, find_nearest_neighbor_with_pruning, Problem, Refinement};
use crate::centroids::{
    add_samples, add_up, average, averaged, compute_norms_row_major, compute_partial_norms_row_major, counted_sizes,
    lemma_counted_total, lemma_members_bound, measure_shift, members, normalize_rows, normalized, norms, partial_norms,
    size_sum, summed_centroids, total, total_shift,
};
use crate::common::{
    lemma_cell, lemma_row, DIMENSION_THRESHOLD_FOR_PRUNING, MIN_PARTIAL_D, N_CLUSTERS_THRESHOLD_FOR_PRUNING,
    PRUNER_INITIAL_THRESHOLD, RECALL_CONVERGENCE_PATIENCE,
};
use crate::double::{lemma_share, Double};
use crate::layout::{get_dimension_split, horizontal_dimensions, PdxDimensionSplit};
use crate::rng::{count_to, counting, is_permutation, shuffled, shuffled_indices, RandomStream};
use crate::single::{Single, EPSILON, ONE, TWO, ZERO};
use crate::splitting::{
    average_size, empty_clusters, fill_empty_clusters, law_each_split_fills_one, lemma_filled_keeps_total,
    lemma_pulled_keeps_sizes, pull_small_clusters, surplus, Clusters,
};
use vstd::prelude::*;

verus! {

/// The bits of the default settings: 0.3, 0.0001, 0.005, 0.01, 0.03, 0.05 and 0.2.
pub const DEFAULT_SAMPLING_FRACTION: u32 = 0x3e99_999a;

pub const DEFAULT_TOL: u32 = 0x38d1_b717;

pub const DEFAULT_RECALL_TOL: u32 = 0x3ba3_d70a;

pub const DEFAULT_ANN_EXPLORE_FRACTION: u32 = 0x3c23_d70a;

pub const DEFAULT_MIN_NOT_PRUNED_PCT: u32 = 0x3cf5_c28f;

pub const DEFAULT_MAX_NOT_PRUNED_PCT: u32 = 0x3d4c_cccd;

pub const DEFAULT_ADJUSTMENT_FACTOR: u32 = 0x3e4c_cccd;

/// The bits of -1.
pub const MINUS_ONE: u32 = 0xbf80_0000;

/// Configuration parameters for SuperKMeans clustering.
#[derive(Copy, Clone, Debug, PartialEq, Eq, Structural)]
pub struct SuperKMeansConfig {
    pub iters: u32,
    pub sampling_fraction: Single,
    pub max_points_per_cluster: u32,
    pub n_threads: u32,
    pub seed: u64,
    pub use_blas_only: bool,
    pub tol: Single,
    pub recall_tol: Single,
    pub early_termination: bool,
    pub sample_queries: bool,
    pub objective_k: usize,
    pub ann_explore_fraction: Single,
    pub min_not_pruned_pct: Single,
    pub max_not_pruned_pct: Single,
    pub adjustment_factor_for_partial_d: Single,
    pub unrotate_centroids: bool,
    pub verbose: bool,
    pub angular: bool,
    pub suppress_warnings: bool,
    pub data_already_rotated: bool,
    /// Use the aggressive small-cluster rebalancing during consolidation. Hierarchical training
    /// opts into this.
    pub use_aggressive_split: bool,
}

impl SuperKMeansConfig {
    pub open spec fn standard() -> SuperKMeansConfig {
        SuperKMeansConfig {
            iters: 10,
            sampling_fraction: Single { bits: DEFAULT_SAMPLING_FRACTION },
            max_points_per_cluster: 256,
            n_threads: 0,
            seed: 42,
            use_blas_only: false,
            tol: Single { bits: DEFAULT_TOL },
            recall_tol: Single { bits: DEFAULT_RECALL_TOL },
            early_termination: true,
            sample_queries: false,
            objective_k: 100,
            ann_explore_fraction: Single { bits: DEFAULT_ANN_EXPLORE_FRACTION },
            min_not_pruned_pct: Single { bits: DEFAULT_MIN_NOT_PRUNED_PCT },
            max_not_pruned_pct: Single { bits: DEFAULT_MAX_NOT_PRUNED_PCT },
            adjustment_factor_for_partial_d: Single { bits: DEFAULT_ADJUSTMENT_FACTOR },
            unrotate_centroids: true,
            verbose: false,
            angular: false,
            suppress_warnings: false,
            data_already_rotated: false,
            use_aggressive_split: false,
        }
    }

    /// The settings that a clustering can be made with.
    pub open spec fn valid(self) -> bool {
        &&& self.iters > 0
        &&& (Single { bits: ZERO }).below(self.sampling_fraction)
        &&& !(Single { bits: ONE }).below(self.sampling_fraction)
    }
}

impl Default for SuperKMeansConfig {
    fn default() -> (r: Self)
        ensures
            r == SuperKMeansConfig::standard(),
    {
        SuperKMeansConfig {
            iters: 10,
            sampling_fraction: Single { bits: DEFAULT_SAMPLING_FRACTION },
            max_points_per_cluster: 256,
            n_threads: 0,
            seed: 42,
            use_blas_only: false,
            tol: Single { bits: DEFAULT_TOL },
            recall_tol: Single { bits: DEFAULT_RECALL_TOL },
            early_termination: true,
            sample_queries: false,
            objective_k: 100,
            ann_explore_fraction: Single { bits: DEFAULT_ANN_EXPLORE_FRACTION },
            min_not_pruned_pct: Single { bits: DEFAULT_MIN_NOT_PRUNED_PCT },
            max_not_pruned_pct: Single { bits: DEFAULT_MAX_NOT_PRUNED_PCT },
            adjustment_factor_for_partial_d: Single { bits: DEFAULT_ADJUSTMENT_FACTOR },
            unrotate_centroids: true,
            verbose: false,
            angular: false,
            suppress_warnings: false,
            data_already_rotated: false,
            use_aggressive_split: false,
        }
    }
}

/// What one iteration did.
#[derive(Copy, Clone, Debug, PartialEq, Eq, Structural)]
pub struct SuperKMeansIterationStats {
    pub iteration: usize,
    pub objective: Single,
    pub shift: Single,
    pub split: usize,
    pub recall: Single,
    pub not_pruned_pct: Single,
    pub partial_d: u32,
    pub is_gemm_only: bool,
}

impl Default for SuperKMeansIterationStats {
    fn default() -> (r: Self)
        ensures
            r == (SuperKMeansIterationStats {
                iteration: 0,
                objective: Single { bits: ZERO },
                shift: Single { bits: ZERO },
                split: 0,
                recall: Single { bits: ZERO },
                not_pruned_pct: Single { bits: ZERO },
                partial_d: 0,
                is_gemm_only: false,
            }),
    {
        let zero: Single = Single { bits: ZERO };
        SuperKMeansIterationStats {
            iteration: 0,
            objective: zero,
            shift: zero,
            split: 0,
            recall: zero,
            not_pruned_pct: zero,
            partial_d: 0,
            is_gemm_only: false,
        }
    }
}

/// Trained SuperKMeans state.
pub struct SuperKMeans {
    pub d: usize,
    pub n_clusters: usize,
    pub config: SuperKMeansConfig,
    pub n_threads: usize,
    pub pruner: ADSamplingPruner,
    // Row-major centroids (this iteration & previous iteration).
    pub horizontal_centroids: Vec<Single>,
    pub prev_centroids: Vec<Single>,
    // Per-cluster size and per-sample assignment/distance.
    pub cluster_sizes: Vec<u32>,
    pub assignments: Vec<u32>,
    pub distances: Vec<Single>,
    // Pre-computed norms; may be either full or partial-d depending on the
    // most recent kernel that wrote them.
    pub data_norms: Vec<Single>,
    pub centroid_norms: Vec<Single>,
    pub sampled_indices: Vec<usize>,
    // Geometry.
    pub vertical_d: usize,
    pub horizontal_d: usize,
    pub partial_d: u32,
    // Iteration state.
    pub trained: bool,
    pub n_split: usize,
    pub n_samples: usize,
    pub centroids_to_explore: usize,
    pub prev_cost: Single,
    pub cost: Single,
    pub shift: Single,
    pub recall: Single,
    pub iteration_stats: Vec<SuperKMeansIterationStats>,
}

/// What a clustering holds.
#[verifier::ext_equal]
pub ghost struct Model {
    pub d: nat,
    pub n_clusters: nat,
    pub config: SuperKMeansConfig,
    pub n_threads: nat,
    pub pruner: Pruner,
    pub horizontal_centroids: Seq<Single>,
    pub prev_centroids: Seq<Single>,
    pub cluster_sizes: Seq<u32>,
    pub assignments: Seq<u32>,
    pub distances: Seq<Single>,
    pub data_norms: Seq<Single>,
    pub centroid_norms: Seq<Single>,
    pub sampled_indices: Seq<usize>,
    pub vertical_d: nat,
    pub horizontal_d: nat,
    pub partial_d: u32,
    pub trained: bool,
    pub n_split: nat,
    pub n_samples: nat,
    pub centroids_to_explore: nat,
    pub prev_cost: Single,
    pub cost: Single,
    pub shift: Single,
    pub recall: Single,
    pub iteration_stats: Seq<SuperKMeansIterationStats>,
}

impl View for SuperKMeans {
    type V = Model;

    open spec fn view(&self) -> Model {
        Model {
            d: self.d as nat,
            n_clusters: self.n_clusters as nat,
            config: self.config,
            n_threads: self.n_threads as nat,
            pruner: self.pruner@,
            horizontal_centroids: self.horizontal_centroids@,
            prev_centroids: self.prev_centroids@,
            cluster_sizes: self.cluster_sizes@,
            assignments: self.assignments@,
            distances: self.distances@,
            data_norms: self.data_norms@,
            centroid_norms: self.centroid_norms@,
            sampled_indices: self.sampled_indices@,
            vertical_d: self.vertical_d as nat,
            horizontal_d: self.horizontal_d as nat,
            partial_d: self.partial_d,
            trained: self.trained,
            n_split: self.n_split as nat,
            n_samples: self.n_samples as nat,
            centroids_to_explore: self.centroids_to_explore as nat,
            prev_cost: self.prev_cost,
            cost: self.cost,
            shift: self.shift,
            recall: self.recall,
            iteration_stats: self.iteration_stats@,
        }
    }
}

pub open spec fn zeros(n: nat) -> Seq<Single> {
    Seq::new(n, |i: int| Single { bits: ZERO })
}

pub open spec fn no_members(n: nat) -> Seq<u32> {
    Seq::new(n, |i: int| 0u32)
}

pub open spec fn no_counts(n: nat) -> Seq<usize> {
    Seq::new(n, |i: int| 0usize)
}

/// The sum of the first `n` counts in double precision.
pub open spec fn total_count(counts: Seq<usize>, n: nat) -> Double
    decreases n,
{
    if n == 0 {
        Double { bits: crate::double::ZERO }
    } else {
        total_count(counts, (n - 1) as nat).plus(Double::from_nat(counts[n - 1] as nat))
    }
}

/// The share of the candidates that were not pruned at once.
pub open spec fn not_pruned_share(counts: Seq<usize>, n_samples: nat, n_y: nat) -> Single {
    total_count(
        counts,
        if n_samples < counts.len() {
            n_samples
        } else {
            counts.len()
        },
    ).over(Double::from_nat(n_samples).times(Double::from_nat(n_y))).narrowed()
}

/// The number of dimensions for the next matrix product: more of them where too little was
/// pruned, fewer where much was.
pub open spec fn tuned(config: SuperKMeansConfig, partial_d: u32, vertical_d: nat, share: Single) -> int {
    let step = Single::from_nat(partial_d as nat).times(config.adjustment_factor_for_partial_d);
    if config.max_not_pruned_pct.below(share) {
        let increase = step.times(Single { bits: TWO }).whole(u32::MAX as nat);
        let more = partial_d + if increase < 1 {
            1
        } else {
            increase as int
        };
        if more < vertical_d {
            more
        } else {
            vertical_d as int
        }
    } else if share.below(config.min_not_pruned_pct) {
        let decrease = step.whole(u32::MAX as nat);
        let fewer = partial_d - if decrease < 1 {
            1
        } else {
            decrease as int
        };
        if fewer < MIN_PARTIAL_D {
            MIN_PARTIAL_D as int
        } else {
            fewer
        }
    } else {
        partial_d as int
    }
}

impl Model {
    /// The parts that no training changes fit together.
    pub open spec fn geometry(self) -> bool {
        &&& 0 < self.d <= u32::MAX
        &&& self.pruner.wf()
        &&& self.pruner.num_dimensions == self.d
        &&& self.horizontal_d == horizontal_dimensions(self.d)
        &&& self.vertical_d + self.horizontal_d == self.d
        &&& self.vertical_d > 0
        &&& self.d >= DIMENSION_THRESHOLD_FOR_PRUNING ==> self.vertical_d >= MIN_PARTIAL_D
    }

    /// All tables but the norms have room for the clusters and the samples.
    pub open spec fn shaped(self, data_len: nat) -> bool {
        &&& self.geometry()
        &&& 0 < self.n_clusters <= u32::MAX
        &&& 2 * self.n_clusters <= usize::MAX
        &&& self.n_samples <= u32::MAX
        &&& self.n_samples * self.d <= data_len
        &&& self.n_clusters * self.d <= self.horizontal_centroids.len()
        &&& self.n_clusters * self.d <= self.prev_centroids.len()
        &&& self.n_clusters <= self.cluster_sizes.len()
        &&& self.n_samples <= self.assignments.len()
        &&& self.n_samples <= self.distances.len()
    }

    /// All tables have room for the clusters and the samples.
    pub open spec fn ready(self, data_len: nat) -> bool {
        self.shaped(data_len) && self.n_samples <= self.data_norms.len()
    }

    /// `o` has the same settings, the same samples, and tables of the same lengths; it may know of
    /// more iterations.
    pub open spec fn same_room(self, o: Model) -> bool {
        &&& o.d == self.d
        &&& o.n_clusters == self.n_clusters
        &&& o.config == self.config
        &&& o.n_threads == self.n_threads
        &&& o.pruner == self.pruner
        &&& o.vertical_d == self.vertical_d
        &&& o.horizontal_d == self.horizontal_d
        &&& o.n_samples == self.n_samples
        &&& o.sampled_indices == self.sampled_indices
        &&& o.trained == self.trained
        &&& o.assignments.len() == self.assignments.len()
        &&& o.distances.len() == self.distances.len()
        &&& o.cluster_sizes.len() == self.cluster_sizes.len()
        &&& o.iteration_stats.len() >= self.iteration_stats.len()
        &&& o.iteration_stats.take(self.iteration_stats.len() as int) == self.iteration_stats
        &&& self.horizontal_centroids.len() == self.prev_centroids.len() ==> {
            &&& o.horizontal_centroids.len() == self.horizontal_centroids.len()
            &&& o.prev_centroids.len() == self.prev_centroids.len()
        }
    }

    /// Every sample belongs to one of the clusters.
    pub open spec fn assigned(self) -> bool {
        forall|i: int| 0 <= i < self.n_samples ==> #[trigger] self.assignments[i] < self.n_clusters
    }

    /// The pruning search can be used.
    pub open spec fn can_prune(self) -> bool {
        &&& MIN_PARTIAL_D <= self.vertical_d
        &&& self.partial_d <= self.vertical_d
    }

    pub open spec fn exchanged(self) -> Model {
        Model {
            horizontal_centroids: self.prev_centroids,
            prev_centroids: self.horizontal_centroids,
            ..self
        }
    }

    /// Every sample assigned to its nearest centroid.
    pub open spec fn assigned_by_products(self, data: Seq<Single>) -> Model {
        let centroid_norms = norms(self.prev_centroids, self.n_clusters, self.d);
        let p = Problem {
            x: data,
            y: self.prev_centroids,
            n_y: self.n_clusters,
            d: self.d,
            norms_x: self.data_norms,
            norms_y: centroid_norms,
        };
        Model {
            centroid_norms,
            assignments: p.indices(self.n_samples, self.assignments),
            distances: p.distances(self.n_samples, self.distances),
            ..self
        }
    }

    pub open spec fn refinement(self, data: Seq<Single>) -> Refinement {
        Refinement {
            x: data,
            y: self.prev_centroids,
            n_y: self.n_clusters,
            d: self.d,
            vertical_d: self.vertical_d,
            horizontal_d: self.horizontal_d,
            norms_x: self.data_norms,
            norms_y: partial_norms(self.prev_centroids, self.n_clusters, self.d, self.partial_d as nat),
            ratios: self.pruner.ratios,
            partial_d: self.partial_d as nat,
        }
    }

    /// Every assignment refined by the pruning search.
    pub open spec fn assigned_by_pruning(self, data: Seq<Single>) -> Model {
        let p = self.refinement(data);
        Model {
            centroid_norms: p.norms_y,
            assignments: p.indices(self.n_samples, self.assignments, self.distances),
            distances: p.distances(self.n_samples, self.assignments, self.distances),
            ..self
        }
    }

    /// How many candidates of each sample the pruning search did not prune at once.
    pub open spec fn pruning_counts(self, data: Seq<Single>, n: nat) -> Seq<usize> {
        self.refinement(data).counts(self.n_samples, self.assignments, self.distances, no_counts(n))
    }

    /// The first `n_samples` samples added to the rows and sizes of the first `n_clusters` clusters.
    pub open spec fn with_samples(self, data: Seq<Single>, n_samples: nat, n_clusters: nat) -> Model {
        Model {
            horizontal_centroids: summed_centroids(
                self.horizontal_centroids,
                data,
                self.assignments,
                self.d as int,
                n_clusters as int,
                n_samples,
            ),
            cluster_sizes: counted_sizes(self.cluster_sizes, self.assignments, n_clusters as int, n_samples),
            ..self
        }
    }

    /// The samples gathered in the centroids and sizes, which start from zero.
    pub open spec fn gathered(self, data: Seq<Single>) -> Model {
        (Model {
            horizontal_centroids: zeros(self.horizontal_centroids.len()),
            cluster_sizes: no_members(self.cluster_sizes.len()),
            ..self
        }).with_samples(data, self.n_samples, self.n_clusters)
    }

    pub open spec fn with_partial_d(self, data: Seq<Single>, partial_d: u32) -> Model {
        if partial_d == self.partial_d {
            self
        } else {
            Model {
                partial_d,
                data_norms: partial_norms(data, self.n_samples, self.d, partial_d as nat),
                ..self
            }
        }
    }

    /// The centroids and sizes before any split.
    pub open spec fn clusters(self) -> Clusters {
        Clusters {
            centroids: self.horizontal_centroids,
            sizes: self.cluster_sizes,
            stream: RandomStream::start(self.config.seed),
            split: 0,
        }
    }

    /// The empty clusters filled and, where the settings ask for it, the small ones strengthened.
    pub open spec fn with_splits(self, n_samples: nat, n_clusters: nat) -> Model {
        let c = self.clusters().balanced(self.d as int, n_samples, n_clusters, self.config.use_aggressive_split);
        Model {
            horizontal_centroids: c.centroids,
            cluster_sizes: c.sizes,
            n_split: c.split,
            ..self
        }
    }

    /// The sums made into centroids.
    pub open spec fn consolidated(self, n_samples: nat, n_clusters: nat) -> Model {
        let m = (Model {
            horizontal_centroids: averaged(self.horizontal_centroids, self.cluster_sizes, self.d as int),
            ..self
        }).with_splits(n_samples, n_clusters);
        if self.config.angular {
            Model {
                horizontal_centroids: normalized(m.horizontal_centroids, self.d as int, n_clusters as int),
                ..m
            }
        } else {
            m
        }
    }

    pub open spec fn with_cost(self) -> Model {
        Model { prev_cost: self.cost, cost: total(self.distances, self.distances.len()), ..self }
    }

    pub open spec fn with_shift(self, n_clusters: nat) -> Model {
        Model {
            shift: total_shift(self.horizontal_centroids, self.prev_centroids, self.d, n_clusters),
            ..self
        }
    }

    pub open spec fn with_stats(self, iter_idx: u32, gemm_only: bool, share: Single, partial_d: u32) -> Model {
        Model {
            iteration_stats: self.iteration_stats.push(
                SuperKMeansIterationStats {
                    iteration: (iter_idx + 1) as usize,
                    objective: self.cost,
                    shift: self.shift,
                    split: self.n_split as usize,
                    recall: self.recall,
                    not_pruned_pct: if gemm_only {
                        Single { bits: MINUS_ONE }
                    } else {
                        share
                    },
                    partial_d: if gemm_only {
                        0
                    } else {
                        partial_d
                    },
                    is_gemm_only: gemm_only,
                },
            ),
            ..self
        }
    }

    /// One iteration, and the counts that it leaves.
    pub open spec fn iterated(
        self,
        data: Seq<Single>,
        iter_idx: u32,
        is_first_iter: bool,
        gemm_only: bool,
        counts: Seq<usize>,
    ) -> (Model, Seq<usize>) {
        let m0 = if is_first_iter {
            self
        } else {
            self.exchanged()
        };
        let counts1 = if gemm_only {
            counts
        } else {
            m0.pruning_counts(data, counts.len())
        };
        let m1 = (if gemm_only {
            m0.assigned_by_products(data)
        } else {
            m0.assigned_by_pruning(data)
        }).gathered(data);
        let share = not_pruned_share(counts1, self.n_samples, self.n_clusters);
        let m2 = if gemm_only {
            m1
        } else {
            m1.with_partial_d(data, tuned(self.config, self.partial_d, self.vertical_d, share) as u32)
        };
        (
            m2.consolidated(self.n_samples, self.n_clusters).with_cost().with_shift(self.n_clusters).with_stats(
                iter_idx,
                gemm_only,
                share,
                self.partial_d,
            ),
            counts1,
        )
    }

    /// Whether the iterations end after this one.
    pub open spec fn converged(self, iter_idx: u32) -> bool {
        ||| self.shift.below(self.config.tol)
        ||| iter_idx > 0 && (Single { bits: ONE }).minus(self.config.tol).below(
            self.cost.over(self.prev_cost.larger(Single { bits: EPSILON })),
        )
    }

    /// The iterations from `iter` up to `iters`. `fresh`: the first one starts from new centroids,
    /// so it exchanges nothing and measures all distances. `products_only`: no iteration prunes.
    /// `early`: they end when they have converged. `partial`: the norms of the data are partial.
    pub open spec fn phase_from(
        self,
        data: Seq<Single>,
        counts: Seq<usize>,
        iter: u32,
        iters: u32,
        fresh: bool,
        products_only: bool,
        early: bool,
        partial: bool,
    ) -> (Model, Seq<usize>)
        decreases iters - iter,
    {
        if iter >= iters {
            (self, counts)
        } else {
            let first = fresh && iter == 0;
            let gemm_only = first || products_only;
            let m0 = if !gemm_only && !partial {
                Model { data_norms: partial_norms(data, self.n_samples, self.d, self.partial_d as nat), ..self }
            } else {
                self
            };
            let (m1, counts1) = m0.iterated(data, iter, first, gemm_only, counts);
            if early && m1.converged(iter) {
                (m1, counts1)
            } else {
                m1.phase_from(
                    data,
                    counts1,
                    (iter + 1) as u32,
                    iters,
                    fresh,
                    products_only,
                    early,
                    partial || !gemm_only,
                )
            }
        }
    }
}

proof fn lemma_same_room_reflexive(a: Model)
    ensures
        a.same_room(a),
{
    assert(a.iteration_stats.take(a.iteration_stats.len() as int) =~= a.iteration_stats);
}

pub(crate) proof fn lemma_same_room_transitive(a: Model, b: Model, c: Model)
    requires
        a.same_room(b),
        b.same_room(c),
    ensures
        a.same_room(c),
{
    let n = a.iteration_stats.len() as int;
    assert(c.iteration_stats.take(n) =~= b.iteration_stats.take(n)) by {
        let m = b.iteration_stats.len() as int;
        assert forall|i: int| 0 <= i < n implies c.iteration_stats[i] == b.iteration_stats[i] by {
            assert(c.iteration_stats.take(m)[i] == b.iteration_stats[i]);
        }
    }
}

/// Splitting keeps the total of the sizes and the lengths of the tables.
pub(crate) proof fn lemma_balanced(c: Clusters, d: int, n_samples: nat, n_clusters: nat, aggressive: bool)
    requires
        n_clusters <= c.sizes.len(),
    ensures
        ({
            let r = c.balanced(d, n_samples, n_clusters, aggressive);
            &&& size_sum(r.sizes, n_clusters) == size_sum(c.sizes, n_clusters)
            &&& r.sizes.len() == c.sizes.len()
            &&& r.centroids.len() == c.centroids.len()
        }),
{
    let full = c.filled_from(d, n_clusters, surplus(n_samples, n_clusters), 0);
    lemma_filled_keeps_total(c, d, n_clusters, surplus(n_samples, n_clusters), 0);
    lemma_pulled_keeps_sizes(full, d, n_samples, n_clusters, average_size(n_samples, n_clusters), 0);
}

impl SuperKMeans {
    /// Adds the samples to the centroids and sizes that stand there. No size may grow beyond 32
    /// bits.
    pub fn update_centroids(&mut self, data: &[Single], n_samples: usize, n_clusters: usize)
        requires
            old(self).d > 0,
            n_samples * old(self).d <= data@.len(),
            n_samples <= old(self)@.assignments.len(),
            n_clusters * old(self).d <= old(self)@.horizontal_centroids.len(),
            n_clusters <= old(self)@.cluster_sizes.len(),
            forall|c: int|
                0 <= c < n_clusters ==> #[trigger] old(self)@.cluster_sizes[c] + members(
                    old(self)@.assignments,
                    c,
                    n_samples as nat,
                ) <= u32::MAX,
        ensures
            final(self)@ == old(self)@.with_samples(data@, n_samples as nat, n_clusters as nat),
    {
        let d: usize = self.d;
        add_samples(
            &mut self.horizontal_centroids,
            &mut self.cluster_sizes,
            data,
            &self.assignments,
            d,
            n_samples,
            n_clusters,
        );
    }

    /// Empty-cluster handling and, where the settings ask for it, the strengthening of small
    /// clusters.
    pub fn split_clusters(&mut self, n_samples: usize, n_clusters: usize)
        requires
            old(self).d > 0,
            2 * n_clusters <= usize::MAX,
            n_clusters * old(self).d <= old(self)@.horizontal_centroids.len(),
            n_clusters <= old(self)@.cluster_sizes.len(),
        ensures
            final(self)@ == old(self)@.with_splits(n_samples as nat, n_clusters as nat),
            final(self)@.horizontal_centroids.len() == old(self)@.horizontal_centroids.len(),
            final(self)@.cluster_sizes.len() == old(self)@.cluster_sizes.len(),
            size_sum(final(self)@.cluster_sizes, n_clusters as nat) == size_sum(
                old(self)@.cluster_sizes,
                n_clusters as nat,
            ),
            !old(self).config.use_aggressive_split ==> final(self)@.n_split + empty_clusters(
                final(self)@.cluster_sizes,
                n_clusters as nat,
            ) == empty_clusters(old(self)@.cluster_sizes, n_clusters as nat),
    {
        let d: usize = self.d;
        let mut rng: RandomStream = RandomStream::new(self.config.seed);
        let ghost c0 = Clusters {
            centroids: self@.horizontal_centroids,
            sizes: self@.cluster_sizes,
            stream: rng,
            split: 0,
        };
        let mut split: usize = fill_empty_clusters(
            &mut self.horizontal_centroids,
            &mut self.cluster_sizes,
            &mut rng,
            d,
            n_samples,
            n_clusters,
        );
        proof {
            lemma_balanced(c0, d as int, n_samples as nat, n_clusters as nat, false);
            lemma_balanced(c0, d as int, n_samples as nat, n_clusters as nat, self.config.use_aggressive_split);
            law_each_split_fills_one(c0, d as int, n_samples as nat, n_clusters as nat, 0);
        }
        if self.config.use_aggressive_split {
            split = pull_small_clusters(
                &mut self.horizontal_centroids,
                &self.cluster_sizes,
                &mut rng,
                d,
                n_samples,
                n_clusters,
                split,
            );
        }
        self.n_split = split;
    }

    pub(crate) fn postprocess_centroids(&mut self, n_clusters: usize)
        requires
            old(self).d > 0,
            n_clusters * old(self).d <= old(self)@.horizontal_centroids.len(),
        ensures
            final(self)@ == (Model {
                horizontal_centroids: normalized(
                    old(self)@.horizontal_centroids,
                    old(self).d as int,
                    n_clusters as int,
                ),
                ..old(self)@
            }),
    {
        let d: usize = self.d;
        normalize_rows(&mut self.horizontal_centroids, d, n_clusters);
    }

    /// Makes the sums into centroids: means, with no cluster left empty where that can be, and of
    /// length 1 where the settings ask for it.
    pub fn consolidate_centroids(&mut self, n_samples: usize, n_clusters: usize)
        requires
            old(self).d > 0,
            2 * n_clusters <= usize::MAX,
            n_clusters * old(self).d <= old(self)@.horizontal_centroids.len(),
            n_clusters <= old(self)@.cluster_sizes.len(),
        ensures
            final(self)@ == old(self)@.consolidated(n_samples as nat, n_clusters as nat),
            final(self)@.horizontal_centroids.len() == old(self)@.horizontal_centroids.len(),
            final(self)@.cluster_sizes.len() == old(self)@.cluster_sizes.len(),
            size_sum(final(self)@.cluster_sizes, n_clusters as nat) == size_sum(
                old(self)@.cluster_sizes,
                n_clusters as nat,
            ),
    {
        let d: usize = self.d;
        average(&mut self.horizontal_centroids, &self.cluster_sizes, d);
        self.split_clusters(n_samples, n_clusters);
        if self.config.angular {
            self.postprocess_centroids(n_clusters);
        }
    }

    pub(crate) fn compute_cost(&mut self)
        ensures
            final(self)@ == old(self)@.with_cost(),
    {
        self.prev_cost = self.cost;
        self.cost = add_up(&self.distances);
    }

    /// Measures how far the first `n_clusters` centroids have moved.
    pub fn compute_shift(&mut self, n_clusters: usize)
        requires
            n_clusters * old(self).d <= old(self)@.horizontal_centroids.len(),
            n_clusters * old(self).d <= old(self)@.prev_centroids.len(),
        ensures
            final(self)@ == old(self)@.with_shift(n_clusters as nat),
    {
        let d: usize = self.d;
        self.shift = measure_shift(&self.horizontal_centroids, &self.prev_centroids, d, n_clusters);
    }

    /// Sets the number of dimensions for the next matrix product. Returns the share of candidates
    /// that were not pruned, and whether the number has changed.
    pub(crate) fn tune_partial_d(&mut self, not_pruned_counts: &[usize], n_samples: usize, n_y: usize) -> (r: (
        Single,
        bool,
    ))
        requires
            old(self).vertical_d <= u32::MAX,
        ensures
            r.0 == not_pruned_share(not_pruned_counts@, n_samples as nat, n_y as nat),
            ({
                let p = tuned(old(self).config, old(self).partial_d, old(self).vertical_d as nat, r.0);
                &&& 0 <= p <= u32::MAX
                &&& final(self)@ == (Model { partial_d: p as u32, ..old(self)@ })
                &&& r.1 == (p != old(self).partial_d)
            }),
    {
        let n: usize = if n_samples < not_pruned_counts.len() {
            n_samples
        } else {
            not_pruned_counts.len()
        };
        let mut sum: Double = Double { bits: crate::double::ZERO };
        let mut i: usize = 0;
        while i < n
            invariant
                i <= n <= not_pruned_counts@.len(),
                sum == total_count(not_pruned_counts@, i as nat),
            decreases n - i,
        {
            sum = sum.add(Double::from_integer(not_pruned_counts[i] as u64));
            i = i + 1;
        }
        let avg: Single = sum.div(
            Double::from_integer(n_samples as u64).mul(Double::from_integer(n_y as u64)),
        ).to_single();
        let old_partial_d: u32 = self.partial_d;
        let step: Single = Single::from_integer(old_partial_d as u64).mul(self.config.adjustment_factor_for_partial_d);
        if self.config.max_not_pruned_pct.lt(avg) {
            let increase: u32 = step.mul(Single { bits: TWO }).to_u32();
            let more: u64 = old_partial_d as u64 + if increase < 1 {
                1
            } else {
                increase as u64
            };
            let limit: u32 = self.vertical_d as u32;
            self.partial_d = if more < limit as u64 {
                more as u32
            } else {
                limit
            };
        } else if avg.lt(self.config.min_not_pruned_pct) {
            let decrease: u32 = step.to_u32();
            let by: u32 = if decrease < 1 {
                1
            } else {
                decrease
            };
            let fewer: u32 = if by < old_partial_d {
                old_partial_d - by
            } else {
                0
            };
            self.partial_d = if fewer < MIN_PARTIAL_D {
                MIN_PARTIAL_D
            } else {
                fewer
            };
        }
        (avg, old_partial_d != self.partial_d)
    }

    /// Whether the iterations end after this one: the centroids hardly move, the cost hardly
    /// falls, or, where recall is tracked, it has not risen for a while.
    pub(crate) fn should_stop_early(
        &mut self,
        tracking_recall: bool,
        best_recall: &mut Single,
        iters_without_improvement: &mut usize,
        iter_idx: u32,
    ) -> (stop: bool)
        requires
            *old(iters_without_improvement) < usize::MAX,
        ensures
            final(self)@ == old(self)@,
            ({
                let converged = old(self)@.converged(iter_idx);
                let rises = old(self).config.recall_tol.below(old(self).recall.minus(*old(best_recall)));
                let waiting = *old(iters_without_improvement) + 1;
                if converged || !tracking_recall {
                    &&& stop == converged
                    &&& *final(best_recall) == *old(best_recall)
                    &&& *final(iters_without_improvement) == *old(iters_without_improvement)
                } else if rises {
                    &&& !stop
                    &&& *final(best_recall) == old(self).recall
                    &&& *final(iters_without_improvement) == 0
                } else {
                    &&& stop == (waiting >= RECALL_CONVERGENCE_PATIENCE)
                    &&& *final(best_recall) == *old(best_recall)
                    &&& *final(iters_without_improvement) == waiting
                }
            }),
    {
        if self.shift.lt(self.config.tol) {
            return true;
        }
        if iter_idx > 0 {
            let cost_delta: Single = self.cost.div(self.prev_cost.max(Single { bits: EPSILON }));
            if (Single { bits: ONE }).sub(self.config.tol).lt(cost_delta) {
                return true;
            }
        }
        if tracking_recall {
            let improvement: Single = self.recall.sub(*best_recall);
            if self.config.recall_tol.lt(improvement) {
                *best_recall = self.recall;
                *iters_without_improvement = 0;
            } else {
                *iters_without_improvement = *iters_without_improvement + 1;
                if *iters_without_improvement >= RECALL_CONVERGENCE_PATIENCE {
                    return true;
                }
            }
        }
        false
    }

    /// Assigns every sample to a centroid of the previous iteration.
    fn assign_samples(&mut self, data: &[Single], gemm_only: bool, not_pruned_counts: &mut [usize])
        requires
            old(self)@.ready(data@.len()),
            gemm_only || (old(self)@.can_prune() && old(self)@.assigned() && old(self).n_samples <= old(
                not_pruned_counts,
            )@.len()),
        ensures
            final(self)@ == if gemm_only {
                old(self)@.assigned_by_products(data@)
            } else {
                old(self)@.assigned_by_pruning(data@)
            },
            final(not_pruned_counts)@ == if gemm_only {
                old(not_pruned_counts)@
            } else {
                old(self)@.pruning_counts(data@, old(not_pruned_counts)@.len())
            },
            final(self)@.assigned(),
    {
        let ghost m0 = self@;
        let d: usize = self.d;
        let n_clusters: usize = self.n_clusters;
        let n_samples: usize = self.n_samples;
        let mut buf: Vec<Single> = Vec::new();
        if gemm_only {
            self.centroid_norms = compute_norms_row_major(self.prev_centroids.as_slice(), n_clusters, d);
            find_nearest_neighbor(
                data,
                self.prev_centroids.as_slice(),
                n_samples,
                n_clusters,
                d,
                self.data_norms.as_slice(),
                self.centroid_norms.as_slice(),
                self.assignments.as_mut_slice(),
                self.distances.as_mut_slice(),
                &mut buf,
            );
            assert(self@ == m0.assigned_by_products(data@));
        } else {
            self.centroid_norms = compute_partial_norms_row_major(
                self.prev_centroids.as_slice(),
                n_clusters,
                d,
                self.partial_d as usize,
            );
            clear_counts(not_pruned_counts);
            proof {
                assert forall|i: int| 0 <= i < n_samples implies (#[trigger] self.assignments@[i] + 1) * d
                    <= self.prev_centroids@.len() by {
                    lemma_row(m0.assignments[i] as int, n_clusters as int, d as int);
                }
            }
            find_nearest_neighbor_with_pruning(
                data,
                self.prev_centroids.as_slice(),
                n_samples,
                n_clusters,
                d,
                self.vertical_d,
                self.horizontal_d,
                self.data_norms.as_slice(),
                self.centroid_norms.as_slice(),
                self.assignments.as_mut_slice(),
                self.distances.as_mut_slice(),
                &self.pruner,
                self.partial_d as usize,
                not_pruned_counts,
                &mut buf,
            );
            assert(self@ == m0.assigned_by_pruning(data@));
        }
    }

    /// Gathers the samples in the centroids and sizes, which start from zero.
    fn gather_samples(&mut self, data: &[Single])
        requires
            old(self)@.ready(data@.len()),
            old(self)@.assigned(),
        ensures
            final(self)@ == old(self)@.gathered(data@),
            size_sum(final(self)@.cluster_sizes, final(self)@.n_clusters) == final(self)@.n_samples,
    {
        let ghost m0 = self@;
        let n_clusters: usize = self.n_clusters;
        let n_samples: usize = self.n_samples;
        self.horizontal_centroids = vec![Single { bits: ZERO };self.horizontal_centroids.len()];
        self.cluster_sizes = vec![0u32;self.cluster_sizes.len()];
        assert(self@.horizontal_centroids =~= zeros(m0.horizontal_centroids.len()));
        assert(self@.cluster_sizes =~= no_members(m0.cluster_sizes.len()));
        proof {
            assert forall|c: int| 0 <= c < n_clusters implies #[trigger] self@.cluster_sizes[c] + members(
                m0.assignments,
                c,
                n_samples as nat,
            ) <= u32::MAX by {
                lemma_members_bound(m0.assignments, c, n_samples as nat);
            }
        }
        self.update_centroids(data, n_samples, n_clusters);
        proof {
            lemma_counted_total(
                no_members(m0.cluster_sizes.len()),
                m0.assignments,
                n_clusters as nat,
                n_samples as nat,
            );
        }
    }

    /// One iteration: every sample is assigned, and the centroids are made anew.
    pub(crate) fn run_iteration(
        &mut self,
        data: &[Single],
        iter_idx: u32,
        is_first_iter: bool,
        gemm_only: bool,
        not_pruned_counts: &mut [usize],
    )
        requires
            old(self)@.ready(data@.len()),
            iter_idx < u32::MAX,
            gemm_only || (old(self)@.can_prune() && old(self)@.assigned() && old(self).n_samples <= old(
                not_pruned_counts,
            )@.len()),
        ensures
            (final(self)@, final(not_pruned_counts)@) == old(self)@.iterated(
                data@,
                iter_idx,
                is_first_iter,
                gemm_only,
                old(not_pruned_counts)@,
            ),
            final(self)@.ready(data@.len()),
            final(self)@.assigned(),
            old(self)@.can_prune() ==> final(self)@.can_prune(),
            size_sum(final(self)@.cluster_sizes, final(self)@.n_clusters) == final(self)@.n_samples,
            final(not_pruned_counts)@.len() == old(not_pruned_counts)@.len(),
            old(self)@.same_room(final(self)@),
            gemm_only ==> final(self)@.data_norms == old(self)@.data_norms,
    {
        let ghost m = self@;
        let d: usize = self.d;
        let n_clusters: usize = self.n_clusters;
        let n_samples: usize = self.n_samples;
        if !is_first_iter {
            std::mem::swap(&mut self.horizontal_centroids, &mut self.prev_centroids);
        }
        let ghost m0 = self@;
        assert(m0 == if is_first_iter {
            m
        } else {
            m.exchanged()
        });
        self.assign_samples(data, gemm_only, not_pruned_counts);
        self.gather_samples(data);
        let ghost m1 = self@;
        let mut avg_not_pruned_pct: Single = Single { bits: MINUS_ONE };
        let old_partial_d: u32 = self.partial_d;
        if !gemm_only {
            let (avg, changed) = self.tune_partial_d(&*not_pruned_counts, n_samples, n_clusters);
            avg_not_pruned_pct = avg;
            if changed {
                self.data_norms = compute_partial_norms_row_major(data, n_samples, d, self.partial_d as usize);
            }
            assert(self@ == m1.with_partial_d(data@, tuned(m.config, m.partial_d, m.vertical_d, avg) as u32));
        }
        self.consolidate_centroids(n_samples, n_clusters);
        self.compute_cost();
        self.compute_shift(n_clusters);
        let stats: SuperKMeansIterationStats = SuperKMeansIterationStats {
            iteration: (iter_idx + 1) as usize,
            objective: self.cost,
            shift: self.shift,
            split: self.n_split,
            recall: self.recall,
            not_pruned_pct: avg_not_pruned_pct,
            partial_d: if gemm_only {
                0
            } else {
                old_partial_d
            },
            is_gemm_only: gemm_only,
        };
        self.iteration_stats.push(stats);
        assert(self@.iteration_stats.take(m.iteration_stats.len() as int) =~= m.iteration_stats);
    }
}

/// The rows of `data` that the first `m` indices name, one after the other.
pub open spec fn picked_rows(data: Seq<Single>, indices: Seq<usize>, d: nat, m: nat) -> Seq<Single> {
    Seq::new(m * d, |x: int| data[indices[x / (d as int)] * d + x % (d as int)])
}

/// `base` with `front` in its first places.
pub open spec fn overlaid(base: Seq<Single>, front: Seq<Single>) -> Seq<Single> {
    Seq::new(
        base.len(),
        |x: int|
            if x < front.len() {
                front[x]
            } else {
                base[x]
            },
    )
}

pub(crate) fn pick_rows(data: &[Single], indices: &[usize], d: usize, m: usize, Ghost(n): Ghost<int>) -> (rows: Vec<Single>)
    requires
        d > 0,
        m <= indices@.len(),
        n * d <= data@.len(),
        forall|i: int| 0 <= i < indices@.len() ==> #[trigger] indices@[i] < n,
    ensures
        rows@ == picked_rows(data@, indices@, d as nat, m as nat),
{
    let mut rows: Vec<Single> = Vec::new();
    assert(data.len() <= usize::MAX);
    let mut i: usize = 0;
    proof {
        assert(0 * d == 0);
    }
    while i < m
        invariant
            i <= m,
            d > 0,
            m <= indices@.len(),
            n * d <= data@.len() <= usize::MAX,
            forall|i: int| 0 <= i < indices@.len() ==> #[trigger] indices@[i] < n,
            rows@ == picked_rows(data@, indices@, d as nat, i as nat),
        decreases m - i,
    {
        let row: usize = indices[i];
        proof {
            lemma_row(row as int, n, d as int);
            lemma_row(i as int, m as int, d as int);
        }
        let from: usize = row * d;
        let mut j: usize = 0;
        while j < d
            invariant
                j <= d,
                i < m,
                row == indices@[i as int],
                from == row * d,
                from + d <= data@.len() <= usize::MAX,
                0 <= i * d,
                rows@.len() == i * d + j,
                forall|x: int|
                    0 <= x < i * d + j ==> #[trigger] rows@[x] == data@[indices@[x / (d as int)] * d + x % (d as int)],
            decreases d - j,
        {
            proof {
                lemma_cell(i as int, j as int, d as int);
            }
            rows.push(data[from + j]);
            j = j + 1;
        }
        i = i + 1;
        assert(rows@ =~= picked_rows(data@, indices@, d as nat, i as nat));
    }
    rows
}

pub(crate) fn overlay(base: &mut Vec<Single>, front: &Vec<Single>)
    requires
        front@.len() <= old(base)@.len(),
    ensures
        final(base)@ == overlaid(old(base)@, front@),
{
    let ghost start = base@;
    let n: usize = front.len();
    let mut i: usize = 0;
    while i < n
        invariant
            i <= n,
            n == front@.len(),
            n <= start.len(),
            base@ == overlaid(start, front@.take(i as int)),
        decreases n - i,
    {
        base.set(i, front[i]);
        i = i + 1;
        assert(base@ =~= overlaid(start, front@.take(i as int)));
    }
    assert(front@.take(n as int) =~= front@);
}

/// The number of dimensions that the first matrix product after the start uses: a share of the
/// vertical ones, but not too few, and not more than there are.
pub open spec fn first_partial_d(vertical_d: nat) -> nat {
    let half = if vertical_d / 2 < MIN_PARTIAL_D {
        MIN_PARTIAL_D as nat
    } else {
        vertical_d / 2
    };
    if half > vertical_d {
        vertical_d
    } else {
        half
    }
}

/// The number of dimensions for the first matrix product after the start.
pub fn start_partial_d(vertical_d: usize) -> (r: u32)
    requires
        vertical_d <= u32::MAX,
    ensures
        r == first_partial_d(vertical_d as nat),
{
    let vertical_d: u32 = vertical_d as u32;
    let half: u32 = if vertical_d / 2 < MIN_PARTIAL_D {
        MIN_PARTIAL_D
    } else {
        vertical_d / 2
    };
    if half > vertical_d {
        vertical_d
    } else {
        half
    }
}

/// No iteration prunes: there are too few dimensions or clusters for it, or the settings forbid it.
pub open spec fn never_prunes(d: nat, use_blas_only: bool, n_clusters: nat) -> bool {
    d < DIMENSION_THRESHOLD_FOR_PRUNING || use_blas_only || n_clusters <= N_CLUSTERS_THRESHOLD_FOR_PRUNING
}

/// Tests whether pruning is out of the question.
pub fn cannot_prune(d: usize, use_blas_only: bool, n_clusters: usize) -> (r: bool)
    ensures
        r == never_prunes(d as nat, use_blas_only, n_clusters as nat),
{
    d < DIMENSION_THRESHOLD_FOR_PRUNING || use_blas_only || n_clusters <= N_CLUSTERS_THRESHOLD_FOR_PRUNING
}

impl Model {
    /// How many of `n` vectors are clustered.
    pub open spec fn sample_count(self, n: nat) -> nat {
        if self.config.sampling_fraction == (Single { bits: ONE }) {
            n
        } else {
            let by_clusters = self.n_clusters * self.config.max_points_per_cluster as nat;
            let by_n = Double::from_nat(n).times(self.config.sampling_fraction.widened()).whole(usize::MAX as nat);
            if by_n < by_clusters {
                by_n
            } else {
                by_clusters
            }
        }
    }

    /// Random rows of the data as centroids, rotated where that is asked for.
    pub open spec fn seeded(self, data: Seq<Single>, n: nat, rotate: bool) -> Model {
        let size = self.n_clusters * self.d;
        let room = if self.horizontal_centroids.len() < size {
            self.horizontal_centroids + zeros((size - self.horizontal_centroids.len()) as nat)
        } else {
            self.horizontal_centroids
        };
        let picked = overlaid(
            room,
            picked_rows(data, shuffled(n, self.config.seed), self.d, self.n_clusters),
        );
        Model {
            horizontal_centroids: if rotate {
                overlaid(picked, self.pruner.rotated(picked, zeros(size), self.n_clusters))
            } else {
                picked
            },
            ..self
        }
    }

    /// Which of `n` vectors are clustered, in their order.
    pub open spec fn sample_order(self, n: nat) -> Seq<usize> {
        if self.n_samples < n {
            shuffled(n, self.config.seed)
        } else {
            counting(n)
        }
    }

    /// The vectors that are clustered, rotated where that is asked for.
    pub open spec fn samples(self, data: Seq<Single>, n: nat, rotate: bool) -> Seq<Single> {
        let size = self.n_samples * self.d;
        let samples = if self.n_samples < n {
            picked_rows(data, self.sample_order(n), self.d, self.n_samples)
        } else {
            data.take(size as int)
        };
        if rotate {
            self.pruner.rotated(samples, zeros(size), self.n_samples)
        } else {
            samples
        }
    }

    /// The centroids as they are handed out.
    pub open spec fn output(self, unrotate: bool) -> Seq<Single> {
        let size = self.n_clusters * self.d;
        if unrotate {
            self.pruner.unrotated(self.horizontal_centroids, zeros(size), self.n_clusters)
        } else {
            self.horizontal_centroids.take(size as int)
        }
    }

    /// Everything made room for before `n_samples` vectors are clustered.
    pub open spec fn room_for(self, n_samples: nat) -> Model {
        let size = self.n_clusters * self.d;
        Model {
            n_samples,
            horizontal_centroids: zeros(size),
            prev_centroids: zeros(size),
            cluster_sizes: no_members(self.n_clusters),
            assignments: no_members(n_samples),
            distances: zeros(n_samples),
            data_norms: zeros(n_samples),
            centroid_norms: zeros(self.n_clusters),
            partial_d: first_partial_d(self.vertical_d) as u32,
            ..self
        }
    }

    pub open spec fn allocated(self, n: nat) -> Model {
        Model { iteration_stats: Seq::empty(), ..self.room_for(self.sample_count(n)) }
    }

    /// The clustering before its first iteration.
    pub open spec fn prepared(self, data: Seq<Single>, n: nat) -> Model {
        let rotate = !self.config.data_already_rotated;
        let m = self.allocated(n).seeded(data, n, rotate);
        let prev_centroids = overlaid(
            m.prev_centroids,
            m.horizontal_centroids.take((m.n_clusters * m.d) as int),
        );
        Model {
            sampled_indices: m.sample_order(n),
            prev_centroids,
            data_norms: norms(m.samples(data, n, rotate), m.n_samples, m.d),
            centroid_norms: norms(prev_centroids, m.n_clusters, m.d),
            ..m
        }
    }

    /// The clustering after training on the first `n` vectors of the data.
    pub open spec fn trained_on(self, data: Seq<Single>, n: nat) -> Model {
        let m = self.prepared(data, n);
        let (r, counts) = m.phase_from(
            m.samples(data, n, !m.config.data_already_rotated),
            no_counts(m.n_samples),
            0,
            m.config.iters,
            true,
            never_prunes(m.d, m.config.use_blas_only, m.n_clusters),
            m.config.early_termination,
            false,
        );
        Model { trained: true, ..r }
    }

    /// A clustering that `n` vectors can train. The samples are counted in 32 bits, and `n` is a
    /// number that double precision holds exactly.
    pub open spec fn trainable(self, data_len: nat, n: nat) -> bool {
        &&& self.geometry()
        &&& self.config.valid()
        &&& !self.trained
        &&& 0 < self.n_clusters <= n < 0x20_0000_0000_0000
        &&& 2 * self.n_clusters <= usize::MAX
        &&& n * self.d <= data_len
        &&& self.config.sampling_fraction != (Single { bits: ONE }) ==> self.n_clusters
            * self.config.max_points_per_cluster <= usize::MAX
        &&& self.n_clusters <= self.sample_count(n) <= u32::MAX
    }

    /// What training leaves: tables of exactly the right lengths, and each sample in a cluster.
    pub open spec fn fitted(self) -> bool {
        &&& self.geometry()
        &&& self.trained
        &&& 0 < self.n_clusters <= u32::MAX
        &&& self.horizontal_centroids.len() == self.n_clusters * self.d
        &&& self.prev_centroids.len() == self.n_clusters * self.d
        &&& self.cluster_sizes.len() == self.n_clusters
        &&& self.assignments.len() == self.n_samples
        &&& self.distances.len() == self.n_samples
        &&& self.n_samples <= self.sampled_indices.len()
        &&& is_permutation(self.sampled_indices)
        &&& self.assigned()
    }
}

/// Sets all counts to zero.
fn clear_counts(counts: &mut [usize])
    ensures
        final(counts)@ == no_counts(old(counts)@.len()),
{
    let n: usize = counts.len();
    let mut i: usize = 0;
    while i < n
        invariant
            i <= n,
            n == counts@.len(),
            forall|k: int| 0 <= k < i ==> #[trigger] counts@[k] == 0,
        decreases n - i,
    {
        counts[i] = 0;
        i = i + 1;
    }
    assert(counts@ =~= no_counts(n as nat));
}

impl SuperKMeans {
    /// Runs iterations until there are `iters` of them or they have converged.
    #[verifier::spinoff_prover]
    #[verifier::rlimit(50)]
    pub(crate) fn run_phase(
        &mut self,
        data: &[Single],
        iters: u32,
        fresh: bool,
        products_only: bool,
        early: bool,
        not_pruned_counts: &mut [usize],
    )
        requires
            old(self)@.shaped(data@.len()),
            products_only || fresh ==> old(self).n_samples <= old(self)@.data_norms.len(),
            !products_only ==> old(self)@.can_prune() && old(self).n_samples <= old(not_pruned_counts)@.len() && (
            fresh || old(self)@.assigned()),
        ensures
            (final(self)@, final(not_pruned_counts)@) == old(self)@.phase_from(
                data@,
                old(not_pruned_counts)@,
                0,
                iters,
                fresh,
                products_only,
                early,
                false,
            ),
            final(self)@.shaped(data@.len()),
            products_only ==> final(self)@.data_norms == old(self)@.data_norms,
            iters > 0 ==> final(self)@.assigned() && size_sum(
                final(self)@.cluster_sizes,
                final(self)@.n_clusters,
            ) == final(self)@.n_samples,
            final(not_pruned_counts)@.len() == old(not_pruned_counts)@.len(),
            old(self)@.same_room(final(self)@),
    {
        let ghost goal = self@.phase_from(
            data@,
            not_pruned_counts@,
            0,
            iters,
            fresh,
            products_only,
            early,
            false,
        );
        let ghost room = not_pruned_counts@.len();
        let ghost samples = self.n_samples;
        proof {
            lemma_same_room_reflexive(self@);
        }
        let mut partial: bool = false;
        let mut best_recall: Single = Single { bits: ZERO };
        let mut iters_without_improvement: usize = 0;
        let mut iter: u32 = 0;
        while iter < iters
            invariant
                iter <= iters,
                goal == old(self)@.phase_from(
                    data@,
                    old(not_pruned_counts)@,
                    0,
                    iters,
                    fresh,
                    products_only,
                    early,
                    false,
                ),
                goal == self@.phase_from(
                    data@,
                    not_pruned_counts@,
                    iter,
                    iters,
                    fresh,
                    products_only,
                    early,
                    partial,
                ),
                self@.shaped(data@.len()),
                products_only || fresh || partial ==> samples <= self@.data_norms.len(),
                products_only ==> self@.data_norms == old(self)@.data_norms,
                old(self)@.same_room(self@),
                room == old(not_pruned_counts)@.len(),
                not_pruned_counts@.len() == room,
                self.n_samples == samples,
                !products_only ==> self@.can_prune() && samples <= room && (fresh || self@.assigned()),
                iter > 0 ==> self@.assigned() && size_sum(self@.cluster_sizes, self@.n_clusters) == self@.n_samples,
                iters_without_improvement == 0,
            decreases iters - iter,
        {
            let first: bool = fresh && iter == 0;
            let gemm_only: bool = first || products_only;
            if !gemm_only && !partial {
                self.data_norms = compute_partial_norms_row_major(
                    data,
                    self.n_samples,
                    self.d,
                    self.partial_d as usize,
                );
                partial = true;
            }
            let ghost before = self@;
            self.run_iteration(data, iter, first, gemm_only, not_pruned_counts);
            proof {
                lemma_same_room_transitive(old(self)@, before, self@);
            }
            if early && self.should_stop_early(
                false,
                &mut best_recall,
                &mut iters_without_improvement,
                iter,
            ) {
                return;
            }
            iter = iter + 1;
        }
    }

    pub fn compute_n_vectors_to_sample(&self, n: usize) -> (r: usize)
        requires
            n < 0x20_0000_0000_0000,
            self.config.valid(),
            self.config.sampling_fraction != (Single { bits: ONE }) ==> self.n_clusters
                * self.config.max_points_per_cluster <= usize::MAX,
        ensures
            r == self@.sample_count(n as nat),
            r <= n,
    {
        if self.config.sampling_fraction == (Single { bits: ONE }) {
            return n;
        }
        let by_clusters: usize = self.n_clusters * self.config.max_points_per_cluster as usize;
        let by_n: usize = Double::from_integer(n as u64).mul(self.config.sampling_fraction.to_double()).to_usize();
        proof {
            lemma_share(n as nat, self.config.sampling_fraction, usize::MAX as nat);
        }
        if by_n < by_clusters {
            by_n
        } else {
            by_clusters
        }
    }

    /// Chooses random rows of the data as centroids.
    pub(crate) fn generate_centroids(&mut self, data: &[Single], n: usize, rotate: bool)
        requires
            old(self)@.geometry(),
            old(self).n_clusters <= n,
            n * old(self).d <= data@.len(),
        ensures
            final(self)@ == old(self)@.seeded(data@, n as nat, rotate),
            final(self)@.horizontal_centroids.len() == if old(self)@.horizontal_centroids.len()
                < old(self)@.n_clusters * old(self)@.d {
                old(self)@.n_clusters * old(self)@.d
            } else {
                old(self)@.horizontal_centroids.len()
            },
    {
        let d: usize = self.d;
        let n_clusters: usize = self.n_clusters;
        let ghost m = self@;
        proof {
            assert(data.len() <= usize::MAX);
            assert(n_clusters * d <= n * d) by (nonlinear_arith)
                requires
                    n_clusters <= n,
            ;
            assert(0 <= n_clusters * d) by (nonlinear_arith);
        }
        let size: usize = n_clusters * d;
        if self.horizontal_centroids.len() < size {
            self.horizontal_centroids.resize(size, Single { bits: ZERO });
            assert(self.horizontal_centroids@ =~= m.horizontal_centroids + zeros(
                (size - m.horizontal_centroids.len()) as nat,
            ));
        }
        let indices: Vec<usize> = shuffled_indices(n, self.config.seed);
        let rows: Vec<Single> = pick_rows(data, indices.as_slice(), d, n_clusters, Ghost(n as int));
        overlay(&mut self.horizontal_centroids, &rows);
        if rotate {
            let mut rotated: Vec<Single> = vec![Single { bits: ZERO };size];
            assert(rotated@ =~= zeros(size as nat));
            self.pruner.rotate(self.horizontal_centroids.as_slice(), rotated.as_mut_slice(), n_clusters);
            overlay(&mut self.horizontal_centroids, &rotated);
        }
    }

    /// Chooses the vectors that are clustered.
    pub(crate) fn sample_and_rotate_vectors(&mut self, data: &[Single], n: usize, rotate: bool) -> (r: Vec<Single>)
        requires
            old(self)@.geometry(),
            old(self).n_samples <= n,
            n * old(self).d <= data@.len(),
        ensures
            r@ == old(self)@.samples(data@, n as nat, rotate),
            r@.len() == old(self)@.n_samples * old(self)@.d,
            final(self)@ == (Model { sampled_indices: old(self)@.sample_order(n as nat), ..old(self)@ }),
            final(self)@.sampled_indices.len() == n,
            is_permutation(final(self)@.sampled_indices),
    {
        let d: usize = self.d;
        let n_samples: usize = self.n_samples;
        proof {
            assert(data.len() <= usize::MAX);
            assert(0 <= n_samples * d <= n * d) by (nonlinear_arith)
                requires
                    n_samples <= n,
            ;
        }
        let size: usize = n_samples * d;
        let samples: Vec<Single>;
        if n_samples < n {
            self.sampled_indices = shuffled_indices(n, self.config.seed);
            samples = pick_rows(data, self.sampled_indices.as_slice(), d, n_samples, Ghost(n as int));
        } else {
            self.sampled_indices = count_to(n);
            samples = vstd::slice::slice_to_vec(&data[0..size]);
            assert(samples@ =~= data@.take(size as int));
        }
        if rotate {
            let mut rotated: Vec<Single> = vec![Single { bits: ZERO };size];
            assert(rotated@ =~= zeros(size as nat));
            self.pruner.rotate(samples.as_slice(), rotated.as_mut_slice(), n_samples);
            rotated
        } else {
            samples
        }
    }

    /// Copy horizontal_centroids -> prev_centroids; the rotation, where there is one, is already
    /// done.
    pub(crate) fn rotate_or_copy_into_prev_centroids(&mut self)
        requires
            old(self)@.n_clusters * old(self)@.d <= old(self)@.horizontal_centroids.len(),
            old(self)@.n_clusters * old(self)@.d <= old(self)@.prev_centroids.len(),
        ensures
            final(self)@ == (Model {
                prev_centroids: overlaid(
                    old(self)@.prev_centroids,
                    old(self)@.horizontal_centroids.take((old(self)@.n_clusters * old(self)@.d) as int),
                ),
                ..old(self)@
            }),
    {
        assert(self.horizontal_centroids.len() <= usize::MAX);
        let size: usize = self.n_clusters * self.d;
        let front: Vec<Single> = vstd::slice::slice_to_vec(&self.horizontal_centroids.as_slice()[0..size]);
        assert(front@ =~= self.horizontal_centroids@.take(size as int));
        overlay(&mut self.prev_centroids, &front);
    }

    pub(crate) fn get_output_centroids(&self, unrotate: bool) -> (r: Vec<Single>)
        requires
            self@.geometry(),
            self@.n_clusters * self@.d <= self@.horizontal_centroids.len(),
        ensures
            r@ == self@.output(unrotate),
            r@.len() == self@.n_clusters * self@.d,
    {
        assert(self.horizontal_centroids.len() <= usize::MAX);
        assert(0 <= self.n_clusters * self.d) by (nonlinear_arith);
        let size: usize = self.n_clusters * self.d;
        if unrotate {
            let mut out: Vec<Single> = vec![Single { bits: ZERO };size];
            assert(out@ =~= zeros(size as nat));
            self.pruner.unrotate(self.horizontal_centroids.as_slice(), out.as_mut_slice(), self.n_clusters);
            out
        } else {
            let out: Vec<Single> = vstd::slice::slice_to_vec(&self.horizontal_centroids.as_slice()[0..size]);
            assert(out@ =~= self.horizontal_centroids@.take(size as int));
            out
        }
    }

    /// Makes room for everything that training fills.
    pub(crate) fn make_room(&mut self, n_samples: usize)
        requires
            old(self)@.geometry(),
            old(self)@.n_clusters * old(self)@.d <= usize::MAX,
        ensures
            final(self)@ == old(self)@.room_for(n_samples as nat),
    {
        let ghost m = self@;
        let d: usize = self.d;
        let n_clusters: usize = self.n_clusters;
        self.n_samples = n_samples;
        assert(0 <= n_clusters * d) by (nonlinear_arith);
        let size: usize = n_clusters * d;
        self.horizontal_centroids = vec![Single { bits: ZERO };size];
        self.prev_centroids = vec![Single { bits: ZERO };size];
        self.cluster_sizes = vec![0u32;n_clusters];
        self.assignments = vec![0u32;n_samples];
        self.distances = vec![Single { bits: ZERO };n_samples];
        self.data_norms = vec![Single { bits: ZERO };n_samples];
        self.centroid_norms = vec![Single { bits: ZERO };n_clusters];
        self.partial_d = start_partial_d(self.vertical_d);
        proof {
            assert(self@ =~= m.room_for(n_samples as nat));
        }
    }

    /// Train the model and return row-major centroids (n_clusters × d).
    pub fn train(&mut self, data: &[Single], n: usize) -> (r: Vec<Single>)
        requires
            old(self)@.trainable(data@.len(), n as nat),
        ensures
            final(self)@ == old(self)@.trained_on(data@, n as nat),
            r@ == final(self)@.output(final(self).config.unrotate_centroids),
            r@.len() == old(self)@.n_clusters * old(self)@.d,
            final(self)@.fitted(),
            final(self)@.n_clusters == old(self)@.n_clusters,
            final(self)@.d == old(self)@.d,
            final(self)@.config == old(self)@.config,
            final(self)@.pruner == old(self)@.pruner,
            size_sum(final(self)@.cluster_sizes, final(self)@.n_clusters) == final(self)@.n_samples,
    {
        let none: [Single; 0] = [];
        self.train_with_queries(data, n, none.as_slice(), 0)
    }

    /// Train the model. The queries have no influence on the result.
    pub fn train_with_queries(
        &mut self,
        data: &[Single],
        n: usize,
        queries: &[Single],
        n_queries: usize,
    ) -> (r: Vec<Single>)
        requires
            old(self)@.trainable(data@.len(), n as nat),
            n_queries > 0 ==> queries@.len() > 0 || old(self)@.config.sample_queries,
        ensures
            final(self)@ == old(self)@.trained_on(data@, n as nat),
            r@ == final(self)@.output(final(self).config.unrotate_centroids),
            r@.len() == old(self)@.n_clusters * old(self)@.d,
            final(self)@.fitted(),
            final(self)@.n_clusters == old(self)@.n_clusters,
            final(self)@.d == old(self)@.d,
            final(self)@.config == old(self)@.config,
            final(self)@.pruner == old(self)@.pruner,
            size_sum(final(self)@.cluster_sizes, final(self)@.n_clusters) == final(self)@.n_samples,
    {
        let ghost m = self@;
        let d: usize = self.d;
        let n_clusters: usize = self.n_clusters;
        proof {
            assert(data.len() <= usize::MAX);
            assert(n_clusters * d <= n * d) by (nonlinear_arith)
                requires
                    n_clusters <= n,
            ;
        }
        self.iteration_stats.clear();
        let n_samples: usize = self.compute_n_vectors_to_sample(n);
        self.make_room(n_samples);
        let rotate: bool = !self.config.data_already_rotated;
        let ghost a = self@;
        self.generate_centroids(data, n, rotate);
        let data_to_cluster: Vec<Single> = self.sample_and_rotate_vectors(data, n, rotate);
        self.rotate_or_copy_into_prev_centroids();
        self.data_norms = compute_norms_row_major(data_to_cluster.as_slice(), n_samples, d);
        self.centroid_norms = compute_norms_row_major(self.prev_centroids.as_slice(), n_clusters, d);
        assert(self@ == m.prepared(data@, n as nat));
        let always_gemm_only: bool = cannot_prune(d, self.config.use_blas_only, n_clusters);
        let mut not_pruned_counts: Vec<usize> = vec![0usize;n_samples];
        assert(not_pruned_counts@ =~= no_counts(n_samples as nat));
        let iters: u32 = self.config.iters;
        let early: bool = self.config.early_termination;
        self.run_phase(
            data_to_cluster.as_slice(),
            iters,
            true,
            always_gemm_only,
            early,
            not_pruned_counts.as_mut_slice(),
        );
        self.trained = true;
        self.get_output_centroids(self.config.unrotate_centroids)
    }
}

/// `rayon::current_num_threads`: the number of threads in the pool at hand. Nothing is claimed of
/// it: it depends on the machine and on the pool.
pub assume_specification[ rayon::current_num_threads ]() -> usize
;

/// `n` is a number of threads that a call of `rayon::current_num_threads` gave.
pub open spec fn threads_of_pool(n: usize) -> bool {
    call_ensures(rayon::current_num_threads, (), n)
}

impl Model {
    /// A clustering that has seen no data.
    pub open spec fn fresh(
        n_clusters: nat,
        d: nat,
        config: SuperKMeansConfig,
        n_threads: nat,
        pruner: Pruner,
    ) -> Model {
        let zero = Single { bits: ZERO };
        Model {
            d,
            n_clusters,
            config: if config.data_already_rotated {
                SuperKMeansConfig { unrotate_centroids: false, ..config }
            } else {
                config
            },
            n_threads,
            pruner,
            horizontal_centroids: Seq::empty(),
            prev_centroids: Seq::empty(),
            cluster_sizes: Seq::empty(),
            assignments: Seq::empty(),
            distances: Seq::empty(),
            data_norms: Seq::empty(),
            centroid_norms: Seq::empty(),
            sampled_indices: Seq::empty(),
            vertical_d: (d - horizontal_dimensions(d)) as nat,
            horizontal_d: horizontal_dimensions(d),
            partial_d: 0,
            trained: false,
            n_split: 0,
            n_samples: 0,
            centroids_to_explore: 0,
            prev_cost: zero,
            cost: zero,
            shift: zero,
            recall: zero,
            iteration_stats: Seq::empty(),
        }
    }
}

impl SuperKMeans {
    /// A clustering into `n_clusters` clusters with the standard settings. `normals` holds the
    /// draws from the standard normal distribution that the rotation is made from.
    pub fn new(n_clusters: usize, dimensionality: usize, normals: &[Single]) -> (r: SuperKMeans)
        requires
            n_clusters > 0,
            dimensionality > 0,
            normals@.len() == dimensionality * dimensionality,
        ensures
            r@.geometry(),
            r@ == Model::fresh(
                n_clusters as nat,
                dimensionality as nat,
                SuperKMeansConfig::standard(),
                r@.n_threads,
                r@.pruner,
            ),
            threads_of_pool(r.n_threads),
            r@.pruner.epsilon0 == (Single { bits: PRUNER_INITIAL_THRESHOLD }),
            r@.pruner.matrix == orthonormal_factor(normals@, dimensionality as int),
    {
        proof {
            lemma_standard_valid();
        }
        SuperKMeans::with_config(n_clusters, dimensionality, SuperKMeansConfig::default(), normals)
    }

    pub fn with_config(
        n_clusters: usize,
        dimensionality: usize,
        config: SuperKMeansConfig,
        normals: &[Single],
    ) -> (r: SuperKMeans)
        requires
            n_clusters > 0,
            dimensionality > 0,
            config.valid(),
            normals@.len() == dimensionality * dimensionality,
        ensures
            r@.geometry(),
            r@ == Model::fresh(
                n_clusters as nat,
                dimensionality as nat,
                config,
                r@.n_threads,
                r@.pruner,
            ),
            config.n_threads != 0 ==> r@.n_threads == config.n_threads,
            config.n_threads == 0 ==> threads_of_pool(r.n_threads),
            r@.pruner.epsilon0 == (Single { bits: PRUNER_INITIAL_THRESHOLD }),
            r@.pruner.matrix == orthonormal_factor(normals@, dimensionality as int),
    {
        let n_threads: usize = if config.n_threads == 0 {
            rayon::current_num_threads()
        } else {
            config.n_threads as usize
        };
        proof {
            assert(normals.len() <= usize::MAX);
            assert(dimensionality <= u32::MAX) by (nonlinear_arith)
                requires
                    dimensionality * dimensionality <= 0xffff_ffff_ffff_ffff,
            ;
            assert(dimensionality < usize::MAX) by (nonlinear_arith)
                requires
                    dimensionality * dimensionality <= usize::MAX,
                    usize::MAX >= 2,
            ;
        }
        let pruner: ADSamplingPruner = ADSamplingPruner::new(
            dimensionality,
            Single { bits: PRUNER_INITIAL_THRESHOLD },
            normals,
        );
        SuperKMeans::with_pruner(n_clusters, dimensionality, config, n_threads, pruner)
    }

    /// The same clustering once more.
    pub(crate) fn duplicate(&self) -> (r: SuperKMeans)
        ensures
            r@ == self@,
    {
        let r: SuperKMeans = SuperKMeans {
            d: self.d,
            n_clusters: self.n_clusters,
            config: self.config,
            n_threads: self.n_threads,
            pruner: self.pruner.duplicate(),
            horizontal_centroids: self.horizontal_centroids.clone(),
            prev_centroids: self.prev_centroids.clone(),
            cluster_sizes: self.cluster_sizes.clone(),
            assignments: self.assignments.clone(),
            distances: self.distances.clone(),
            data_norms: self.data_norms.clone(),
            centroid_norms: self.centroid_norms.clone(),
            sampled_indices: self.sampled_indices.clone(),
            vertical_d: self.vertical_d,
            horizontal_d: self.horizontal_d,
            partial_d: self.partial_d,
            trained: self.trained,
            n_split: self.n_split,
            n_samples: self.n_samples,
            centroids_to_explore: self.centroids_to_explore,
            prev_cost: self.prev_cost,
            cost: self.cost,
            shift: self.shift,
            recall: self.recall,
            iteration_stats: self.iteration_stats.clone(),
        };
        assert(r@ =~= self@);
        r
    }

    /// A clustering with a pruner that is already made.
    pub(crate) fn with_pruner(
        n_clusters: usize,
        dimensionality: usize,
        config: SuperKMeansConfig,
        n_threads: usize,
        pruner: ADSamplingPruner,
    ) -> (r: SuperKMeans)
        requires
            0 < dimensionality <= u32::MAX,
            pruner@.wf(),
            pruner@.num_dimensions == dimensionality,
        ensures
            r@.geometry(),
            r@ == Model::fresh(
                n_clusters as nat,
                dimensionality as nat,
                config,
                n_threads as nat,
                pruner@,
            ),
    {
        let split: PdxDimensionSplit = get_dimension_split(dimensionality);
        let mut config: SuperKMeansConfig = config;
        if config.data_already_rotated {
            config.unrotate_centroids = false;
        }
        SuperKMeans {
            d: dimensionality,
            n_clusters,
            config,
            n_threads,
            pruner,
            horizontal_centroids: Vec::new(),
            prev_centroids: Vec::new(),
            cluster_sizes: Vec::new(),
            assignments: Vec::new(),
            distances: Vec::new(),
            data_norms: Vec::new(),
            centroid_norms: Vec::new(),
            sampled_indices: Vec::new(),
            vertical_d: split.vertical_d,
            horizontal_d: split.horizontal_d,
            partial_d: 0,
            trained: false,
            n_split: 0,
            n_samples: 0,
            centroids_to_explore: 0,
            prev_cost: Single { bits: ZERO },
            cost: Single { bits: ZERO },
            shift: Single { bits: ZERO },
            recall: Single { bits: ZERO },
            iteration_stats: Vec::new(),
        }
    }
}

/// The standard settings can be used.
pub proof fn lemma_standard_valid()
    ensures
        SuperKMeansConfig::standard().valid(),
{
    reveal(Single::below);
    assert(0u32 & 0x7fff_ffff == 0 && 0x3f80_0000u32 & 0x7fff_ffff == 0x3f80_0000 && 0x3e99_999au32 & 0x7fff_ffff
        == 0x3e99_999a) by (bit_vector);
}

} // verus!
