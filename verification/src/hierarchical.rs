//! Hierarchical SuperKMeans: clustering in three phases, for very many clusters.
//!
//! The samples are first put into few mesoclusters, then each mesocluster into clusters of its
//! own, and at the end all clusters are refined together.
use crate::adsampling::{orthonormal_factor, pruning_ratios, Pruner};
use crate::assigning::{all_below, lemma_whole_share, nearest_centroids};
use crate::centroids::{compute_norms_row_major, norms, size_sum};
use crate::common::{HIERARCHICAL_PRUNER_INITIAL_THRESHOLD, MIN_PARTIAL_D};
use crate::double::{lemma_integer_root_bounds, lemma_share, Double};
use crate::partition::{
    arrange_fine_clusters, cluster_offsets, count_sum, fine_counts, lemma_nonempty_bound, lemma_size_sum_grows,
    lemma_size_sum_take, list_fits, list_samples,
    nonempty, sample_list,
};
use crate::rng::is_permutation;
use crate::single::{Single, ONE, ZERO};
use crate::superkmeans::{
    cannot_prune, first_partial_d, never_prunes, no_counts, no_members, overlaid, pick_rows, picked_rows, start_partial_d,
    threads_of_pool, zeros, Model, SuperKMeans, SuperKMeansConfig, SuperKMeansIterationStats,
};
use vstd::prelude::*;

verus! {

/// Settings for hierarchical clustering: those of the base, and the iterations of each phase.
#[derive(Copy, Clone, Debug, PartialEq, Eq, Structural)]
pub struct HierarchicalSuperKMeansConfig {
    pub base: SuperKMeansConfig,
    pub iters_mesoclustering: u32,
    pub iters_fineclustering: u32,
    pub iters_refinement: u32,
}

impl HierarchicalSuperKMeansConfig {
    pub open spec fn standard() -> HierarchicalSuperKMeansConfig {
        HierarchicalSuperKMeansConfig {
            base: SuperKMeansConfig {
                sampling_fraction: Single { bits: ONE },
                use_aggressive_split: true,
                ..SuperKMeansConfig::standard()
            },
            iters_mesoclustering: 3,
            iters_fineclustering: 5,
            iters_refinement: 0,
        }
    }

    /// The settings that a clustering can be made with.
    pub open spec fn valid(self) -> bool {
        &&& self.base.valid()
        &&& self.iters_mesoclustering > 0
        &&& self.iters_fineclustering > 0
    }
}

impl Default for HierarchicalSuperKMeansConfig {
    fn default() -> (r: Self)
        ensures
            r == HierarchicalSuperKMeansConfig::standard(),
    {
        let mut base: SuperKMeansConfig = SuperKMeansConfig::default();
        base.sampling_fraction = Single { bits: ONE };
        base.use_aggressive_split = true;
        HierarchicalSuperKMeansConfig {
            base,
            iters_mesoclustering: 3,
            iters_fineclustering: 5,
            iters_refinement: 0,
        }
    }
}

/// What the iterations of each phase did.
#[derive(Clone, Debug)]
pub struct HierarchicalSuperKMeansIterationStats {
    pub mesoclustering: Vec<SuperKMeansIterationStats>,
    pub fineclustering: Vec<SuperKMeansIterationStats>,
    pub refinement: Vec<SuperKMeansIterationStats>,
}

impl Default for HierarchicalSuperKMeansIterationStats {
    fn default() -> (r: Self)
        ensures
            r.mesoclustering@.len() == 0,
            r.fineclustering@.len() == 0,
            r.refinement@.len() == 0,
    {
        HierarchicalSuperKMeansIterationStats {
            mesoclustering: Vec::new(),
            fineclustering: Vec::new(),
            refinement: Vec::new(),
        }
    }
}

/// Hierarchical clustering state.
pub struct HierarchicalSuperKMeans {
    pub base: SuperKMeans,
    pub config: HierarchicalSuperKMeansConfig,
    pub iteration_stats: HierarchicalSuperKMeansIterationStats,
    pub n_mesoclusters: usize,
}

/// What a hierarchical clustering holds.
#[verifier::ext_equal]
pub ghost struct Hierarchy {
    pub base: Model,
    pub config: HierarchicalSuperKMeansConfig,
    pub mesoclustering: Seq<SuperKMeansIterationStats>,
    pub fineclustering: Seq<SuperKMeansIterationStats>,
    pub refinement: Seq<SuperKMeansIterationStats>,
    pub n_mesoclusters: nat,
}

impl View for HierarchicalSuperKMeans {
    type V = Hierarchy;

    open spec fn view(&self) -> Hierarchy {
        Hierarchy {
            base: self.base@,
            config: self.config,
            mesoclustering: self.iteration_stats.mesoclustering@,
            fineclustering: self.iteration_stats.fineclustering@,
            refinement: self.iteration_stats.refinement@,
            n_mesoclusters: self.n_mesoclusters as nat,
        }
    }
}

/// The number of mesoclusters: the square root of the number of clusters.
pub open spec fn mesocluster_count(n_clusters: nat) -> nat {
    Double::from_nat(n_clusters).root().closest(usize::MAX as nat)
}

/// How many of `n` vectors are clustered.
pub open spec fn hierarchical_sample_count(fraction: Single, n: nat) -> nat {
    if fraction == (Single { bits: ONE }) {
        n
    } else {
        Double::from_nat(n).times(fraction.widened()).whole(usize::MAX as nat)
    }
}

fn count_samples(fraction: Single, n: usize) -> (r: usize)
    requires
        n < 0x20_0000_0000_0000,
        (Single { bits: ZERO }).below(fraction),
        !(Single { bits: ONE }).below(fraction),
    ensures
        r == hierarchical_sample_count(fraction, n as nat),
        r <= n,
{
    if fraction == (Single { bits: ONE }) {
        return n;
    }
    proof {
        lemma_share(n as nat, fraction, usize::MAX as nat);
    }
    Double::from_integer(n as u64).mul(fraction.to_double()).to_usize()
}

/// The norms of the listed samples in the first places.
pub open spec fn compacted_norms(norms_now: Seq<Single>, all: Seq<Single>, list: Seq<usize>) -> Seq<Single> {
    Seq::new(
        if norms_now.len() < list.len() {
            list.len()
        } else {
            norms_now.len()
        },
        |j: int|
            if j < list.len() {
                all[list[j] as int]
            } else {
                norms_now[j]
            },
    )
}

/// The clusters of the first `m` listed samples, counted from `offset` on.
pub open spec fn translated(out: Seq<u32>, list: Seq<usize>, input: Seq<u32>, offset: nat, m: nat) -> Seq<u32>
    decreases m,
{
    if m == 0 {
        out
    } else {
        translated(out, list, input, offset, (m - 1) as nat).update(
            list[m - 1] as int,
            (input[m - 1] + offset) as u32,
        )
    }
}

/// `base` with `rows` from place `at` on.
pub open spec fn placed(base: Seq<Single>, rows: Seq<Single>, at: int) -> Seq<Single> {
    Seq::new(
        base.len(),
        |x: int|
            if at <= x < at + rows.len() {
                rows[x - at]
            } else {
                base[x]
            },
    )
}

impl Model {
    /// The clustering into `n_meso` mesoclusters before its first iteration.
    pub open spec fn meso_prepared(self, data: Seq<Single>, n: nat, n_meso: nat) -> Model {
        let rotate = !self.config.data_already_rotated;
        let room = self.room_for(hierarchical_sample_count(self.config.sampling_fraction, n));
        let m = (Model { n_clusters: n_meso, ..room }).seeded(data, n, rotate);
        let prev_centroids = overlaid(m.prev_centroids, m.horizontal_centroids.take((n_meso * m.d) as int));
        Model {
            sampled_indices: m.sample_order(n),
            prev_centroids,
            data_norms: norms(m.samples(data, n, rotate), m.n_samples, m.d),
            centroid_norms: norms(prev_centroids, n_meso, m.d),
            ..m
        }
    }

    /// The samples in `n_meso` mesoclusters.
    pub open spec fn mesoclustered(self, data: Seq<Single>, n: nat, n_meso: nat, iters: u32) -> Model {
        let m = self.meso_prepared(data, n, n_meso);
        m.phase_from(
            m.samples(data, n, !m.config.data_already_rotated),
            no_counts(m.n_samples),
            0,
            iters,
            true,
            never_prunes(m.d, m.config.use_blas_only, n_meso),
            m.config.early_termination,
            false,
        ).0
    }

    /// The tables have the lengths for `k` clusters and `n` samples.
    pub open spec fn sized(self, k: nat, n: nat) -> bool {
        &&& self.geometry()
        &&& 0 < k <= u32::MAX
        &&& 2 * k <= usize::MAX
        &&& n <= u32::MAX
        &&& self.horizontal_centroids.len() == k * self.d
        &&& self.prev_centroids.len() == k * self.d
        &&& self.cluster_sizes.len() == k
        &&& self.assignments.len() == n
        &&& self.distances.len() == n
    }
}

/// How far the fine clustering has come.
#[verifier::ext_equal]
pub ghost struct Fine {
    pub base: Model,
    pub centroids: Seq<Single>,
    pub assignments: Seq<u32>,
    pub stats: Seq<SuperKMeansIterationStats>,
    pub offset: nat,
}

impl Fine {
    /// The clustering of one mesocluster before its first iteration.
    pub open spec fn prepared(self, rows: Seq<Single>, list: Seq<usize>, all_norms: Seq<Single>, n_fine: nat, partial_d: u32) -> Model {
        let m = (Model {
            partial_d,
            n_samples: list.len(),
            n_clusters: n_fine,
            data_norms: compacted_norms(self.base.data_norms, all_norms, list),
            ..self.base
        }).seeded(rows, list.len(), false);
        let prev_centroids = overlaid(m.prev_centroids, m.horizontal_centroids.take((n_fine * m.d) as int));
        Model { prev_centroids, centroid_norms: norms(prev_centroids, n_fine, m.d), ..m }
    }

    /// The listed samples, one mesocluster, put into `n_fine` clusters.
    pub open spec fn with_mesocluster(
        self,
        samples: Seq<Single>,
        list: Seq<usize>,
        all_norms: Seq<Single>,
        n_fine: nat,
        partial_d: u32,
        iters: u32,
    ) -> Fine {
        let d = self.base.d;
        let rows = picked_rows(samples, list, d, list.len());
        let m = self.prepared(rows, list, all_norms, n_fine, partial_d).phase_from(
            rows,
            no_counts(list.len()),
            0,
            iters,
            true,
            never_prunes(d, self.base.config.use_blas_only, n_fine),
            self.base.config.early_termination,
            false,
        ).0;
        Fine {
            base: Model {
                n_clusters: self.base.n_clusters,
                iteration_stats: self.base.iteration_stats,
                ..m
            },
            centroids: placed(
                self.centroids,
                m.horizontal_centroids.take((n_fine * d) as int),
                (self.offset * d) as int,
            ),
            assignments: translated(self.assignments, list, m.assignments, self.offset, list.len()),
            stats: self.stats + m.iteration_stats.skip(self.base.iteration_stats.len() as int),
            offset: self.offset + n_fine,
        }
    }

    /// The mesoclusters from `c` on, one after the other; `list` lists their samples.
    pub open spec fn with_mesoclusters(
        self,
        samples: Seq<Single>,
        list: Seq<usize>,
        sizes: Seq<u32>,
        counts: Seq<usize>,
        all_norms: Seq<Single>,
        partial_d: u32,
        iters: u32,
        c: nat,
    ) -> Fine
        decreases counts.len() - c,
    {
        if c >= counts.len() {
            self
        } else {
            let from = size_sum(sizes, c) as int;
            (if counts[c as int] == 0 {
                self
            } else {
                self.with_mesocluster(
                    samples,
                    list.subrange(from, from + sizes[c as int]),
                    all_norms,
                    counts[c as int] as nat,
                    partial_d,
                    iters,
                )
            }).with_mesoclusters(samples, list, sizes, counts, all_norms, partial_d, iters, c + 1)
        }
    }
}

/// The number of dimensions that refinement starts with.
pub open spec fn refinement_partial_d(vertical_d: nat) -> u32 {
    if vertical_d / 3 < MIN_PARTIAL_D {
        MIN_PARTIAL_D
    } else {
        (vertical_d / 3) as u32
    }
}

impl Model {
    /// All clusters refined together, from these centroids and assignments on.
    pub open spec fn refined_from(
        self,
        samples: Seq<Single>,
        centroids: Seq<Single>,
        assignments: Seq<u32>,
        n_samples: nat,
        iters: u32,
    ) -> Model {
        (Model {
            n_samples,
            partial_d: refinement_partial_d(self.vertical_d),
            horizontal_centroids: centroids,
            prev_centroids: centroids,
            assignments,
            centroid_norms: norms(centroids, self.n_clusters, self.d),
            ..self
        }).phase_from(
            samples,
            no_counts(n_samples),
            0,
            iters,
            false,
            never_prunes(self.d, false, self.n_clusters),
            false,
            false,
        ).0
    }
}

impl Hierarchy {
    pub open spec fn meso(self, data: Seq<Single>, n: nat) -> Model {
        self.base.mesoclustered(
            data,
            n,
            mesocluster_count(self.base.n_clusters),
            self.config.iters_mesoclustering,
        )
    }

    /// A clustering that `n` vectors can train. The samples are counted in 32 bits, and `n` is a
    /// number that double precision holds exactly.
    pub open spec fn trainable(self, data_len: nat, n: nat) -> bool {
        let m = self.base;
        &&& m.geometry()
        &&& m.config.valid()
        &&& self.config.valid()
        &&& !m.trained
        &&& 0 < m.n_clusters <= n < 0x20_0000_0000_0000
        &&& 2 * m.n_clusters <= usize::MAX
        &&& n * m.d <= data_len
        &&& m.n_clusters <= hierarchical_sample_count(m.config.sampling_fraction, n) <= u32::MAX
    }

    /// The samples of all mesoclusters can be listed. They can wherever no empty mesocluster had
    /// to be filled in the last iteration.
    pub open spec fn lists(self, data: Seq<Single>, n: nat) -> bool {
        let m = self.meso(data, n);
        list_fits(m.assignments, m.cluster_sizes, m.n_samples)
    }

    /// The clusters of all mesoclusters.
    pub open spec fn fine(self, data: Seq<Single>, n: nat) -> Fine {
        let m = self.meso(data, n);
        let k = self.base.n_clusters;
        let n_meso = mesocluster_count(k);
        let samples = m.samples(data, n, !m.config.data_already_rotated);
        (Fine {
            base: Model { n_clusters: k, iteration_stats: self.base.iteration_stats, ..m },
            centroids: zeros(k * m.d),
            assignments: no_members(m.n_samples),
            stats: Seq::empty(),
            offset: 0,
        }).with_mesoclusters(
            samples,
            sample_list(m.assignments, m.cluster_sizes, m.n_samples, m.n_samples),
            m.cluster_sizes,
            fine_counts(
                m.cluster_sizes.take(n_meso as int),
                n_meso,
                0,
                k,
                m.n_samples,
                nonempty(m.cluster_sizes.take(n_meso as int), 0, n_meso),
            ),
            norms(samples, m.n_samples, m.d),
            first_partial_d(m.vertical_d) as u32,
            self.config.iters_fineclustering,
            0,
        )
    }

    /// All clusters after refinement.
    pub open spec fn refined(self, data: Seq<Single>, n: nat) -> Model {
        let m = self.meso(data, n);
        let f = self.fine(data, n);
        f.base.refined_from(
            m.samples(data, n, !m.config.data_already_rotated),
            f.centroids,
            f.assignments,
            m.n_samples,
            self.config.iters_refinement,
        )
    }

    /// The clustering after training on the first `n` vectors of the data.
    pub open spec fn trained_on(self, data: Seq<Single>, n: nat) -> Hierarchy {
        let seen = self.base.iteration_stats.len() as int;
        let r = self.refined(data, n);
        Hierarchy {
            base: Model { trained: true, iteration_stats: self.base.iteration_stats, ..r },
            mesoclustering: self.meso(data, n).iteration_stats.skip(seen),
            fineclustering: self.fine(data, n).stats,
            refinement: r.iteration_stats.skip(seen),
            n_mesoclusters: mesocluster_count(self.base.n_clusters),
            ..self
        }
    }
}

impl SuperKMeans {
    /// Puts the samples into `n_meso` mesoclusters, and returns the samples.
    pub(crate) fn mesocluster(&mut self, data: &[Single], n: usize, n_meso: usize, iters: u32) -> (samples: Vec<Single>)
        requires
            old(self)@.geometry(),
            old(self)@.config.valid(),
            0 < n_meso <= old(self).n_clusters <= n < 0x20_0000_0000_0000,
            2 * old(self).n_clusters <= usize::MAX,
            n * old(self).d <= data@.len(),
            old(self).n_clusters <= hierarchical_sample_count(old(self).config.sampling_fraction, n as nat) <= u32::MAX,
            iters > 0,
        ensures
            final(self)@ == old(self)@.mesoclustered(data@, n as nat, n_meso as nat, iters),
            samples@ == final(self)@.samples(data@, n as nat, !old(self).config.data_already_rotated),
            samples@.len() == final(self)@.n_samples * final(self)@.d,
            final(self)@.sized(old(self)@.n_clusters, final(self)@.n_samples),
            old(self).n_clusters <= final(self)@.n_samples <= n,
            final(self)@.n_clusters == n_meso,
            final(self)@.d == old(self)@.d,
            final(self)@.config == old(self)@.config,
            final(self)@.vertical_d == old(self)@.vertical_d,
            final(self)@.trained == old(self)@.trained,
            final(self)@.assigned(),
            size_sum(final(self)@.cluster_sizes, n_meso as nat) == final(self)@.n_samples,
            final(self)@.iteration_stats.len() >= old(self)@.iteration_stats.len(),
            final(self)@.iteration_stats.take(old(self)@.iteration_stats.len() as int)
                == old(self)@.iteration_stats,
            never_prunes(old(self)@.d, false, old(self)@.n_clusters) ==> final(self)@.n_samples
                <= final(self)@.data_norms.len(),
            final(self)@.sampled_indices.len() == n,
            is_permutation(final(self)@.sampled_indices),
    {
        let ghost m = self@;
        let d: usize = self.d;
        let k: usize = self.n_clusters;
        proof {
            assert(data.len() <= usize::MAX);
            assert(k * d <= n * d && 0 <= n_meso * d <= k * d) by (nonlinear_arith)
                requires
                    0 <= n_meso <= k <= n,
                    0 <= d,
            ;
        }
        let n_samples: usize = count_samples(self.config.sampling_fraction, n);
        self.make_room(n_samples);
        let rotate: bool = !self.config.data_already_rotated;
        self.n_clusters = n_meso;
        self.generate_centroids(data, n, rotate);
        let samples: Vec<Single> = self.sample_and_rotate_vectors(data, n, rotate);
        self.rotate_or_copy_into_prev_centroids();
        self.data_norms = compute_norms_row_major(samples.as_slice(), n_samples, d);
        self.centroid_norms = compute_norms_row_major(self.prev_centroids.as_slice(), n_meso, d);
        let ghost ready = self@;
        assert(ready == m.meso_prepared(data@, n as nat, n_meso as nat));
        let products_only: bool = cannot_prune(d, self.config.use_blas_only, n_meso);
        let early: bool = self.config.early_termination;
        let mut counts: Vec<usize> = vec![0usize;n_samples];
        assert(counts@ =~= no_counts(n_samples as nat));
        self.run_phase(samples.as_slice(), iters, true, products_only, early, counts.as_mut_slice());
        samples
    }
}

/// Puts the norms of the listed samples in the first places.
fn compact_norms(norms_now: &mut Vec<Single>, all: &Vec<Single>, list: &[usize])
    requires
        forall|j: int| 0 <= j < list@.len() ==> #[trigger] list@[j] < all@.len(),
    ensures
        final(norms_now)@ == compacted_norms(old(norms_now)@, all@, list@),
{
    let ghost start = norms_now@;
    let n: usize = list.len();
    if norms_now.len() < n {
        norms_now.resize(n, Single { bits: ZERO });
    }
    let ghost room = norms_now@;
    let mut j: usize = 0;
    while j < n
        invariant
            j <= n,
            n == list@.len(),
            n <= room.len(),
            norms_now@.len() == room.len(),
            forall|j: int| 0 <= j < list@.len() ==> #[trigger] list@[j] < all@.len(),
            forall|q: int| 0 <= q < j ==> #[trigger] norms_now@[q] == all@[list@[q] as int],
            forall|q: int| j <= q < room.len() ==> #[trigger] norms_now@[q] == room[q],
        decreases n - j,
    {
        norms_now.set(j, all[list[j]]);
        j = j + 1;
    }
    assert(norms_now@ =~= compacted_norms(start, all@, list@));
}

/// Puts the clusters of the listed samples, counted from `offset` on, where the samples come from.
pub fn translate_assignments(list: &[usize], out: &mut Vec<u32>, input: &[u32], offset: u32)
    requires
        list@.len() <= input@.len(),
        forall|j: int| 0 <= j < list@.len() ==> #[trigger] list@[j] < old(out)@.len(),
        forall|j: int| 0 <= j < list@.len() ==> #[trigger] input@[j] + offset <= u32::MAX,
    ensures
        final(out)@ == translated(old(out)@, list@, input@, offset as nat, list@.len()),
        final(out)@.len() == old(out)@.len(),
        list@.no_duplicates() ==> forall|i: int|
            0 <= i < list@.len() ==> final(out)@[#[trigger] list@[i] as int] == input@[i] + offset,
        forall|x: int|
            0 <= x < old(out)@.len() && (forall|i: int| 0 <= i < list@.len() ==> #[trigger] list@[i] != x)
                ==> #[trigger] final(out)@[x] == old(out)@[x],
{
    let ghost start = out@;
    let n: usize = list.len();
    let mut i: usize = 0;
    while i < n
        invariant
            i <= n,
            n == list@.len(),
            n <= input@.len(),
            out@.len() == start.len(),
            forall|j: int| 0 <= j < n ==> #[trigger] list@[j] < start.len(),
            forall|j: int| 0 <= j < n ==> #[trigger] input@[j] + offset <= u32::MAX,
            out@ == translated(start, list@, input@, offset as nat, i as nat),
        decreases n - i,
    {
        out.set(list[i], input[i] + offset);
        i = i + 1;
    }
    proof {
        law_translated(start, list@, input@, offset as nat, n as nat);
    }
}

/// Where no sample is listed twice, each listed sample gets its cluster, counted from `offset` on.
/// A sample that is not listed keeps its own.
pub proof fn law_translated(out: Seq<u32>, list: Seq<usize>, input: Seq<u32>, offset: nat, m: nat)
    requires
        m <= list.len(),
        m <= input.len(),
        forall|j: int| 0 <= j < m ==> #[trigger] list[j] < out.len(),
        forall|j: int| 0 <= j < m ==> #[trigger] input[j] + offset <= u32::MAX,
    ensures
        ({
            let r = translated(out, list, input, offset, m);
            &&& r.len() == out.len()
            &&& list.no_duplicates() ==> forall|i: int|
                0 <= i < m ==> r[#[trigger] list[i] as int] == input[i] + offset
            &&& forall|x: int|
                0 <= x < out.len() && (forall|i: int| 0 <= i < m ==> #[trigger] list[i] != x) ==> #[trigger] r[x]
                    == out[x]
        }),
    decreases m,
{
    if m > 0 {
        law_translated(out, list, input, offset, (m - 1) as nat);
        let before = translated(out, list, input, offset, (m - 1) as nat);
        let r = translated(out, list, input, offset, m);
        assert(list[m - 1] < out.len());
        assert(input[m - 1] + offset <= u32::MAX);
        assert forall|x: int|
            0 <= x < out.len() && (forall|i: int| 0 <= i < m ==> #[trigger] list[i] != x) implies #[trigger] r[x]
            == out[x] by {
            assert(list[m - 1] != x);
            assert(before[x] == out[x]);
        }
    }
}

/// Translated clusters stay below a bound that holds of all of them.
proof fn lemma_translated_below(out: Seq<u32>, list: Seq<usize>, input: Seq<u32>, offset: nat, m: nat, n_fine: int, bound: int)
    requires
        m <= list.len(),
        forall|j: int| 0 <= j < m ==> #[trigger] list[j] < out.len(),
        all_below(input, m as int, n_fine),
        all_below(out, out.len() as int, bound),
        offset + n_fine <= bound <= u32::MAX,
    ensures
        ({
            let r = translated(out, list, input, offset, m);
            r.len() == out.len() && all_below(r, out.len() as int, bound)
        }),
    decreases m,
{
    if m > 0 {
        lemma_translated_below(out, list, input, offset, (m - 1) as nat, n_fine, bound);
        assert(list[m - 1] < out.len());
    }
}

/// Puts `rows` into `base` from place `at` on.
fn place_rows(base: &mut Vec<Single>, rows: &[Single], at: usize)
    requires
        at + rows@.len() <= old(base)@.len(),
    ensures
        final(base)@ == placed(old(base)@, rows@, at as int),
{
    let ghost start = base@;
    assert(base.len() <= usize::MAX);
    let n: usize = rows.len();
    let mut i: usize = 0;
    while i < n
        invariant
            i <= n,
            n == rows@.len(),
            at + n <= start.len() <= usize::MAX,
            base@ == placed(start, rows@.take(i as int), at as int),
        decreases n - i,
    {
        base.set(at + i, rows[i]);
        i = i + 1;
        assert(base@ =~= placed(start, rows@.take(i as int), at as int));
    }
    assert(rows@.take(n as int) =~= rows@);
}

impl SuperKMeans {
    /// Brings the listed samples together, with their norms.
    fn compact_mesocluster_to_buffer(&mut self, data: &[Single], list: &[usize], all_norms: &Vec<Single>) -> (rows: Vec<Single>)
        requires
            old(self).d > 0,
            all_norms@.len() * old(self).d <= data@.len(),
            forall|j: int| 0 <= j < list@.len() ==> #[trigger] list@[j] < all_norms@.len(),
        ensures
            rows@ == picked_rows(data@, list@, old(self).d as nat, list@.len()),
            final(self)@ == (Model {
                data_norms: compacted_norms(old(self)@.data_norms, all_norms@, list@),
                ..old(self)@
            }),
    {
        compact_norms(&mut self.data_norms, all_norms, list);
        pick_rows(data, list, self.d, list.len(), Ghost(all_norms@.len() as int))
    }

    /// Puts the listed samples, one mesocluster, into `n_fine` clusters of their own.
    fn cluster_mesocluster(
        &mut self,
        samples: &[Single],
        list: &[usize],
        all_norms: &Vec<Single>,
        n_fine: usize,
        partial_d: u32,
        iters: u32,
        centroids: &mut Vec<Single>,
        assignments: &mut Vec<u32>,
        stats: &mut Vec<SuperKMeansIterationStats>,
        offset: usize,
    )
        requires
            old(self)@.sized(old(self)@.n_clusters, all_norms@.len()),
            all_norms@.len() * old(self).d == samples@.len(),
            0 < n_fine <= list@.len() <= all_norms@.len(),
            forall|j: int| 0 <= j < list@.len() ==> #[trigger] list@[j] < all_norms@.len(),
            partial_d <= old(self).vertical_d,
            iters > 0,
            offset + n_fine <= old(self).n_clusters,
            old(centroids)@.len() == old(self)@.n_clusters * old(self)@.d,
            old(assignments)@.len() == all_norms@.len(),
            all_below(old(assignments)@, all_norms@.len() as int, old(self).n_clusters as int),
        ensures
            ({
                let f = (Fine {
                    base: old(self)@,
                    centroids: old(centroids)@,
                    assignments: old(assignments)@,
                    stats: old(stats)@,
                    offset: offset as nat,
                }).with_mesocluster(samples@, list@, all_norms@, n_fine as nat, partial_d, iters);
                &&& final(self)@ == f.base
                &&& final(centroids)@ == f.centroids
                &&& final(assignments)@ == f.assignments
                &&& final(stats)@ == f.stats
            }),
            final(self)@.sized(old(self)@.n_clusters, all_norms@.len()),
            final(self)@.n_clusters == old(self)@.n_clusters,
            final(self)@.d == old(self)@.d,
            final(self)@.config == old(self)@.config,
            final(self)@.vertical_d == old(self)@.vertical_d,
            final(self)@.trained == old(self)@.trained,
            final(self)@.sampled_indices == old(self)@.sampled_indices,
            final(self)@.iteration_stats == old(self)@.iteration_stats,
            final(centroids)@.len() == old(centroids)@.len(),
            final(assignments)@.len() == old(assignments)@.len(),
            all_below(final(assignments)@, all_norms@.len() as int, old(self).n_clusters as int),
            never_prunes(old(self)@.d, false, old(self)@.n_clusters) && all_norms@.len()
                <= old(self)@.data_norms.len() ==> all_norms@.len() <= final(self)@.data_norms.len(),
    {
        let ghost f = Fine {
            base: self@,
            centroids: centroids@,
            assignments: assignments@,
            stats: stats@,
            offset: offset as nat,
        };
        let d: usize = self.d;
        let k: usize = self.n_clusters;
        let size: usize = list.len();
        let seen: usize = self.iteration_stats.len();
        proof {
            assert(self.horizontal_centroids.len() <= usize::MAX);
            assert(0 <= n_fine * d <= k * d && n_fine * d <= size * d) by (nonlinear_arith)
                requires
                    n_fine <= k,
                    n_fine <= size,
            ;
            assert(offset * d + n_fine * d <= k * d && 0 <= offset * d) by (nonlinear_arith)
                requires
                    offset + n_fine <= k,
                    0 <= d,
            ;
        }
        self.partial_d = partial_d;
        self.n_samples = size;
        self.n_clusters = n_fine;
        let rows: Vec<Single> = self.compact_mesocluster_to_buffer(samples, list, all_norms);
        self.generate_centroids(rows.as_slice(), size, false);
        self.rotate_or_copy_into_prev_centroids();
        self.centroid_norms = compute_norms_row_major(self.prev_centroids.as_slice(), n_fine, d);
        assert(self@ == f.prepared(rows@, list@, all_norms@, n_fine as nat, partial_d));
        let products_only: bool = cannot_prune(d, self.config.use_blas_only, n_fine);
        let early: bool = self.config.early_termination;
        let mut counts: Vec<usize> = vec![0usize;size];
        assert(counts@ =~= no_counts(size as nat));
        self.run_phase(rows.as_slice(), iters, true, products_only, early, counts.as_mut_slice());
        let ghost m = self@;
        self.n_clusters = k;
        let mut fresh: Vec<SuperKMeansIterationStats> = self.iteration_stats.split_off(seen);
        assert(self.iteration_stats@ =~= f.base.iteration_stats);
        assert(fresh@ =~= m.iteration_stats.skip(seen as int));
        stats.append(&mut fresh);
        proof {
            lemma_translated_below(
                assignments@,
                list@,
                m.assignments,
                offset as nat,
                list@.len(),
                n_fine as int,
                k as int,
            );
        }
        translate_assignments(list, assignments, self.assignments.as_slice(), offset as u32);
        let front: &[Single] = &self.horizontal_centroids.as_slice()[0..n_fine * d];
        assert(front@ =~= m.horizontal_centroids.take(n_fine * d));
        place_rows(centroids, front, offset * d);
    }
}

/// The sum of the first counts.
proof fn lemma_count_prefix(counts: Seq<usize>, c: int)
    requires
        0 <= c < counts.len(),
    ensures
        count_sum(counts.take(c)) + counts[c] == count_sum(counts.take(c + 1)),
        count_sum(counts.take(c + 1)) <= count_sum(counts),
    decreases counts.len(),
{
    assert(counts.take(c + 1).drop_last() =~= counts.take(c));
    if c + 1 == counts.len() {
        assert(counts.take(c + 1) =~= counts);
    } else {
        let shorter = counts.drop_last();
        lemma_count_prefix(shorter, c);
        assert(shorter.take(c + 1) =~= counts.take(c + 1));
    }
}

impl SuperKMeans {
    /// Puts the samples of each mesocluster into clusters of their own. Returns the centroids, the
    /// clusters of the samples, and what the iterations did.
    fn cluster_mesoclusters(
        &mut self,
        samples: &[Single],
        list: &Vec<usize>,
        sizes: &Vec<u32>,
        counts: &Vec<usize>,
        all_norms: &Vec<Single>,
        partial_d: u32,
        iters: u32,
    ) -> (r: (Vec<Single>, Vec<u32>, Vec<SuperKMeansIterationStats>))
        requires
            old(self)@.sized(old(self)@.n_clusters, all_norms@.len()),
            all_norms@.len() * old(self).d == samples@.len(),
            list@.len() == all_norms@.len(),
            forall|j: int| 0 <= j < list@.len() ==> #[trigger] list@[j] < all_norms@.len(),
            partial_d <= old(self).vertical_d,
            iters > 0,
            counts@.len() <= sizes@.len(),
            size_sum(sizes@, counts@.len()) == all_norms@.len(),
            count_sum(counts@) == old(self).n_clusters,
            forall|i: int| 0 <= i < counts@.len() ==> #[trigger] counts@[i] <= sizes@[i],
        ensures
            ({
                let f = (Fine {
                    base: old(self)@,
                    centroids: zeros(old(self)@.n_clusters * old(self)@.d),
                    assignments: no_members(all_norms@.len()),
                    stats: Seq::empty(),
                    offset: 0,
                }).with_mesoclusters(
                    samples@,
                    list@,
                    sizes@,
                    counts@,
                    all_norms@,
                    partial_d,
                    iters,
                    0,
                );
                &&& final(self)@ == f.base
                &&& r.0@ == f.centroids
                &&& r.1@ == f.assignments
                &&& r.2@ == f.stats
            }),
            final(self)@.sized(old(self)@.n_clusters, all_norms@.len()),
            final(self)@.n_clusters == old(self)@.n_clusters,
            final(self)@.d == old(self)@.d,
            final(self)@.config == old(self)@.config,
            final(self)@.vertical_d == old(self)@.vertical_d,
            final(self)@.trained == old(self)@.trained,
            final(self)@.sampled_indices == old(self)@.sampled_indices,
            final(self)@.iteration_stats == old(self)@.iteration_stats,
            r.0@.len() == old(self)@.n_clusters * old(self)@.d,
            r.1@.len() == all_norms@.len(),
            all_below(r.1@, all_norms@.len() as int, old(self).n_clusters as int),
            never_prunes(old(self)@.d, false, old(self)@.n_clusters) && all_norms@.len()
                <= old(self)@.data_norms.len() ==> all_norms@.len() <= final(self)@.data_norms.len(),
    {
        let d: usize = self.d;
        let k: usize = self.n_clusters;
        let n_samples: usize = all_norms.len();
        let n_meso: usize = counts.len();
        proof {
            assert(self.horizontal_centroids.len() <= usize::MAX);
            assert(0 <= k * d) by (nonlinear_arith);
        }
        let offsets: Vec<usize> = cluster_offsets(sizes.as_slice(), n_meso);
        let mut centroids: Vec<Single> = vec![Single { bits: ZERO };k * d];
        let mut assignments: Vec<u32> = vec![0u32;n_samples];
        let mut stats: Vec<SuperKMeansIterationStats> = Vec::new();
        assert(centroids@ =~= zeros((k * d) as nat));
        assert(assignments@ =~= no_members(n_samples as nat));
        assert(stats@ =~= Seq::empty());
        let ghost goal = (Fine {
            base: self@,
            centroids: centroids@,
            assignments: assignments@,
            stats: stats@,
            offset: 0,
        }).with_mesoclusters(samples@, list@, sizes@, counts@, all_norms@, partial_d, iters, 0);
        let mut offset: usize = 0;
        let mut c: usize = 0;
        proof {
            assert(counts@.take(0) =~= Seq::empty());
        }
        while c < n_meso
            invariant
                c <= n_meso,
                n_meso == counts@.len(),
                n_meso <= sizes@.len(),
                n_samples == all_norms@.len(),
                0 < k,
                self@.sized(k as nat, n_samples as nat),
                self.n_clusters == k,
                self.d == d,
                self@.config == old(self)@.config,
                self@.vertical_d == old(self)@.vertical_d,
                self@.trained == old(self)@.trained,
                self@.sampled_indices == old(self)@.sampled_indices,
                self@.iteration_stats == old(self)@.iteration_stats,
                n_samples * d == samples@.len(),
                list@.len() == n_samples,
                forall|j: int| 0 <= j < list@.len() ==> #[trigger] list@[j] < n_samples,
                partial_d <= old(self).vertical_d,
                iters > 0,
                size_sum(sizes@, n_meso as nat) == n_samples,
                count_sum(counts@) == k,
                forall|i: int| 0 <= i < n_meso ==> #[trigger] counts@[i] <= sizes@[i],
                offsets@.len() == n_meso + 1,
                forall|b: int| 0 <= b <= n_meso ==> #[trigger] offsets@[b] == size_sum(sizes@, b as nat),
                offset == count_sum(counts@.take(c as int)),
                centroids@.len() == k * d,
                assignments@.len() == n_samples,
                all_below(assignments@, n_samples as int, k as int),
                never_prunes(d as nat, false, k as nat) && n_samples <= old(self)@.data_norms.len() ==> n_samples
                    <= self@.data_norms.len(),
                goal == (Fine {
                    base: self@,
                    centroids: centroids@,
                    assignments: assignments@,
                    stats: stats@,
                    offset: offset as nat,
                }).with_mesoclusters(
                    samples@,
                    list@,
                    sizes@,
                    counts@,
                    all_norms@,
                    partial_d,
                    iters,
                    c as nat,
                ),
            decreases n_meso - c,
        {
            let n_fine: usize = counts[c];
            proof {
                lemma_count_prefix(counts@, c as int);
                assert(n_fine <= sizes@[c as int]);
                lemma_size_sum_grows(sizes@, (c + 1) as nat, n_meso as nat);
            }
            if n_fine > 0 {
                let from: usize = offsets[c];
                let size: usize = sizes[c] as usize;
                let part: &[usize] = &list.as_slice()[from..from + size];
                proof {
                    assert forall|j: int| 0 <= j < part@.len() implies #[trigger] part@[j] < n_samples by {
                        assert(part@[j] == list@[from + j]);
                    }
                }
                self.cluster_mesocluster(
                    samples,
                    part,
                    all_norms,
                    n_fine,
                    partial_d,
                    iters,
                    &mut centroids,
                    &mut assignments,
                    &mut stats,
                    offset,
                );
                offset = offset + n_fine;
            }
            c = c + 1;
        }
        (centroids, assignments, stats)
    }
}

impl SuperKMeans {
    /// Refines all clusters together, from these centroids and assignments on.
    fn refine_clusters(
        &mut self,
        samples: &[Single],
        centroids: Vec<Single>,
        assignments: Vec<u32>,
        n_samples: usize,
        iters: u32,
    )
        requires
            old(self)@.sized(old(self)@.n_clusters, n_samples as nat),
            n_samples * old(self).d == samples@.len(),
            centroids@.len() == old(self)@.n_clusters * old(self)@.d,
            assignments@.len() == n_samples,
            all_below(assignments@, n_samples as int, old(self).n_clusters as int),
            never_prunes(old(self)@.d, false, old(self)@.n_clusters) ==> n_samples <= old(self)@.data_norms.len(),
        ensures
            final(self)@ == old(self)@.refined_from(
                samples@,
                centroids@,
                assignments@,
                n_samples as nat,
                iters,
            ),
            final(self)@.sized(old(self)@.n_clusters, n_samples as nat),
            final(self)@.assigned(),
            final(self)@.n_samples == n_samples,
            final(self)@.n_clusters == old(self)@.n_clusters,
            final(self)@.d == old(self)@.d,
            final(self)@.config == old(self)@.config,
            final(self)@.sampled_indices == old(self)@.sampled_indices,
            final(self)@.iteration_stats.len() >= old(self)@.iteration_stats.len(),
            final(self)@.iteration_stats.take(old(self)@.iteration_stats.len() as int)
                == old(self)@.iteration_stats,
    {
        let d: usize = self.d;
        let k: usize = self.n_clusters;
        let vertical_d: u32 = self.vertical_d as u32;
        self.n_samples = n_samples;
        self.partial_d = if vertical_d / 3 < MIN_PARTIAL_D {
            MIN_PARTIAL_D
        } else {
            vertical_d / 3
        };
        self.prev_centroids = centroids.clone();
        assert(self.prev_centroids@ =~= centroids@);
        self.horizontal_centroids = centroids;
        self.assignments = assignments;
        self.centroid_norms = compute_norms_row_major(self.prev_centroids.as_slice(), k, d);
        let products_only: bool = cannot_prune(d, false, k);
        let mut not_pruned: Vec<usize> = vec![0usize;n_samples];
        assert(not_pruned@ =~= no_counts(n_samples as nat));
        self.run_phase(samples, iters, false, products_only, false, not_pruned.as_mut_slice());
    }
}

impl HierarchicalSuperKMeans {
    /// A clustering into `n_clusters` clusters with the standard settings.
    pub fn new(n_clusters: usize, dimensionality: usize, normals: &[Single]) -> (r: HierarchicalSuperKMeans)
        requires
            n_clusters > 0,
            dimensionality > 0,
            normals@.len() == dimensionality * dimensionality,
        ensures
            r@ == Hierarchy::fresh(
                n_clusters as nat,
                dimensionality as nat,
                HierarchicalSuperKMeansConfig::standard(),
                r@.base.n_threads,
                orthonormal_factor(normals@, dimensionality as int),
            ),
            threads_of_pool(r.base.n_threads),
            r@.base.geometry(),
    {
        proof {
            lemma_whole_share();
        }
        HierarchicalSuperKMeans::with_config(
            n_clusters,
            dimensionality,
            HierarchicalSuperKMeansConfig::default(),
            normals,
        )
    }

    pub fn with_config(
        n_clusters: usize,
        dimensionality: usize,
        config: HierarchicalSuperKMeansConfig,
        normals: &[Single],
    ) -> (r: HierarchicalSuperKMeans)
        requires
            n_clusters > 0,
            dimensionality > 0,
            config.valid(),
            normals@.len() == dimensionality * dimensionality,
        ensures
            r@ == Hierarchy::fresh(
                n_clusters as nat,
                dimensionality as nat,
                config,
                r@.base.n_threads,
                orthonormal_factor(normals@, dimensionality as int),
            ),
            config.base.n_threads != 0 ==> r@.base.n_threads == config.base.n_threads,
            config.base.n_threads == 0 ==> threads_of_pool(r.base.n_threads),
            r@.base.geometry(),
    {
        let mut base_config: SuperKMeansConfig = config.base;
        base_config.use_aggressive_split = true;
        let mut base: SuperKMeans = SuperKMeans::with_config(n_clusters, dimensionality, base_config, normals);
        assert(base.pruner.ratios.len() <= usize::MAX);
        // The pruning is less aggressive here. Only the ratios differ; the rotation is the same.
        base.pruner.set_epsilon0(Single { bits: HIERARCHICAL_PRUNER_INITIAL_THRESHOLD });
        let r: HierarchicalSuperKMeans = HierarchicalSuperKMeans {
            base,
            config,
            iteration_stats: HierarchicalSuperKMeansIterationStats::default(),
            n_mesoclusters: 0,
        };
        assert(r@ =~= Hierarchy::fresh(
            n_clusters as nat,
            dimensionality as nat,
            config,
            r@.base.n_threads,
            orthonormal_factor(normals@, dimensionality as int),
        ));
        r
    }

    /// How many of `n` vectors are clustered.
    pub fn compute_n_to_sample(&self, n: usize) -> (r: usize)
        requires
            n < 0x20_0000_0000_0000,
            self.base.config.valid(),
        ensures
            r == hierarchical_sample_count(self@.base.config.sampling_fraction, n as nat),
            r <= n,
    {
        count_samples(self.base.config.sampling_fraction, n)
    }

    /// Train the model and return row-major centroids (n_clusters x d).
    #[verifier::rlimit(40)]
    pub fn train(&mut self, data: &[Single], n: usize) -> (r: Vec<Single>)
        requires
            old(self)@.trainable(data@.len(), n as nat),
            old(self)@.lists(data@, n as nat),
        ensures
            final(self)@ == old(self)@.trained_on(data@, n as nat),
            r@ == final(self)@.base.output(final(self).base.config.unrotate_centroids),
            r@.len() == old(self)@.base.n_clusters * old(self)@.base.d,
            final(self)@.base.fitted(),
    {
        let ghost h = self@;
        let d: usize = self.base.d;
        let k: usize = self.base.n_clusters;
        let seen: usize = self.base.iteration_stats.len();
        proof {
            lemma_mesocluster_count(k as nat);
        }
        let n_meso: usize = Double::from_integer(k as u64).sqrt().round_to_usize();
        self.n_mesoclusters = n_meso;
        // Phase 1: mesoclustering.
        let samples: Vec<Single> = self.base.mesocluster(data, n, n_meso, self.config.iters_mesoclustering);
        let ghost m = self.base@;
        let n_samples: usize = self.base.n_samples;
        let all_norms: Vec<Single> = compute_norms_row_major(samples.as_slice(), n_samples, d);
        self.base.n_clusters = k;
        let moved: Vec<SuperKMeansIterationStats> = self.base.iteration_stats.split_off(seen);
        assert(self.base.iteration_stats@ =~= h.base.iteration_stats);
        assert(moved@ =~= m.iteration_stats.skip(seen as int));
        self.iteration_stats.mesoclustering = moved;
        // Phase 2: fine clustering.
        let sizes: Vec<u32> = self.base.cluster_sizes.clone();
        assert(sizes@ =~= m.cluster_sizes);
        let meso_sizes: &[u32] = &sizes.as_slice()[0..n_meso];
        proof {
            assert(meso_sizes@ =~= sizes@.take(n_meso as int));
            lemma_size_sum_take(sizes@, n_meso as nat, n_meso as nat);
            lemma_nonempty_bound(meso_sizes@, 0, n_meso as nat);
        }
        let counts: Vec<usize> = arrange_fine_clusters(k, n_meso, n_samples, meso_sizes);
        let listed: Option<Vec<usize>> = list_samples(
            self.base.assignments.as_slice(),
            sizes.as_slice(),
            n_meso,
            n_samples,
        );
        let list: Vec<usize> = match listed {
            Some(list) => list,
            None => {
                assert(false);
                Vec::new()
            },
        };
        let initial_partial_d: u32 = start_partial_d(self.base.vertical_d);
        let (final_centroids, final_assignments, fine_stats) = self.base.cluster_mesoclusters(
            samples.as_slice(),
            &list,
            &sizes,
            &counts,
            &all_norms,
            initial_partial_d,
            self.config.iters_fineclustering,
        );
        self.iteration_stats.fineclustering = fine_stats;
        // Phase 3: refinement.
        self.base.refine_clusters(
            samples.as_slice(),
            final_centroids,
            final_assignments,
            n_samples,
            self.config.iters_refinement,
        );
        let ghost r = self.base@;
        let moved: Vec<SuperKMeansIterationStats> = self.base.iteration_stats.split_off(seen);
        assert(self.base.iteration_stats@ =~= h.base.iteration_stats);
        assert(moved@ =~= r.iteration_stats.skip(seen as int));
        self.iteration_stats.refinement = moved;
        self.base.trained = true;
        assert(r == h.refined(data@, n as nat));
        self.base.get_output_centroids(self.base.config.unrotate_centroids)
    }

    /// Like `train`, but returns `None`, and leaves everything as it is, where the samples of the
    /// mesoclusters cannot be listed.
    pub fn train_checked(&mut self, data: &[Single], n: usize) -> (r: Option<Vec<Single>>)
        requires
            old(self)@.trainable(data@.len(), n as nat),
        ensures
            r is Some <==> old(self)@.lists(data@, n as nat),
            match r {
                Some(centroids) => {
                    &&& final(self)@ == old(self)@.trained_on(data@, n as nat)
                    &&& centroids@ == final(self)@.base.output(final(self).base.config.unrotate_centroids)
                    &&& centroids@.len() == old(self)@.base.n_clusters * old(self)@.base.d
                    &&& final(self)@.base.fitted()
                },
                None => final(self)@ == old(self)@,
            },
    {
        let k: usize = self.base.n_clusters;
        proof {
            lemma_mesocluster_count(k as nat);
        }
        let n_meso: usize = Double::from_integer(k as u64).sqrt().round_to_usize();
        let mut trial: SuperKMeans = self.base.duplicate();
        let samples: Vec<Single> = trial.mesocluster(data, n, n_meso, self.config.iters_mesoclustering);
        let listed: Option<Vec<usize>> = list_samples(
            trial.assignments.as_slice(),
            trial.cluster_sizes.as_slice(),
            n_meso,
            trial.n_samples,
        );
        match listed {
            Some(list) => Some(self.train(data, n)),
            None => None,
        }
    }

    pub fn assign(&self, vectors: &[Single], centroids: &[Single], n_vectors: usize) -> (r: Vec<u32>)
        requires
            self.base.d > 0,
            n_vectors * self.base.d <= vectors@.len(),
            centroids@.len() / (self.base.d as nat) <= 0x1_0000_0000,
        ensures
            r@ == nearest_centroids(vectors@, centroids@, n_vectors as nat, self.base.d as nat),
            centroids@.len() >= self.base.d ==> all_below(
                r@,
                n_vectors as int,
                (centroids@.len() / (self.base.d as nat)) as int,
            ),
    {
        self.base.assign(vectors, centroids, n_vectors)
    }
}

impl Hierarchy {
    /// A clustering that has seen no data.
    pub open spec fn fresh(
        n_clusters: nat,
        d: nat,
        config: HierarchicalSuperKMeansConfig,
        n_threads: nat,
        matrix: Seq<Single>,
    ) -> Hierarchy {
        let epsilon0 = Single { bits: HIERARCHICAL_PRUNER_INITIAL_THRESHOLD };
        Hierarchy {
            base: Model::fresh(
                n_clusters,
                d,
                SuperKMeansConfig { use_aggressive_split: true, ..config.base },
                n_threads,
                Pruner { num_dimensions: d, ratios: pruning_ratios(d, epsilon0), epsilon0, matrix },
            ),
            config,
            mesoclustering: Seq::empty(),
            fineclustering: Seq::empty(),
            refinement: Seq::empty(),
            n_mesoclusters: 0,
        }
    }
}

/// There is at least one mesocluster, and there are no more than clusters.
pub proof fn lemma_mesocluster_count(k: nat)
    requires
        0 < k <= u32::MAX,
    ensures
        0 < mesocluster_count(k) <= k,
{
    assert(k <= k * k) by (nonlinear_arith)
        requires
            k >= 1,
    ;
    lemma_integer_root_bounds(k, 1, k, usize::MAX as nat);
}

} // verus!
