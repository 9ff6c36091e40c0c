//! Finding the clusters of vectors once the centroids are known.
use crate::adsampling::ADSamplingPruner;
use crate::batch::{find_nearest_neighbor, find_nearest_neighbor_with_pruning, Problem, Refinement};
use crate::centroids::{compute_norms_row_major, compute_partial_norms_row_major, norms, partial_norms};
use crate::common::{lemma_row, MIN_PARTIAL_D, PRUNER_INITIAL_THRESHOLD};
use crate::double::{lemma_integer_root_bounds, Double};
use crate::rng::{total_weight, RandomStream};
use crate::single::{Single, ONE, ZERO};
use crate::superkmeans::{
    cannot_prune, never_prunes, no_counts, no_members, zeros, Model, SuperKMeans, SuperKMeansConfig,
};
use vstd::prelude::*;

verus! {

/// The bits of 0.8: the share of sampled vectors above which the others are seeded at random.
pub const DENSE_SAMPLING: u32 = 0x3f4c_cccd;

/// The nearest of the centroids for each of the first `n` vectors.
pub open spec fn nearest_centroids(vectors: Seq<Single>, centroids: Seq<Single>, n: nat, d: nat) -> Seq<u32> {
    let k = centroids.len() / d;
    let p = Problem {
        x: vectors,
        y: centroids,
        n_y: k,
        d,
        norms_x: norms(vectors, n, d),
        norms_y: norms(centroids, k, d),
    };
    Seq::new(n, |i: int| p.nearest(i).index)
}

/// The assignments of the first `cur` samples, put where the samples come from.
pub open spec fn with_known(
    seeds: Seq<u32>,
    sampled: Seq<usize>,
    assignments: Seq<u32>,
    cur: nat,
) -> Seq<u32>
    decreases cur,
{
    if cur == 0 {
        seeds
    } else {
        let before = with_known(seeds, sampled, assignments, (cur - 1) as nat);
        if sampled[cur - 1] < before.len() {
            before.update(sampled[cur - 1] as int, assignments[cur - 1])
        } else {
            before
        }
    }
}

/// Which vector is number `cur` in the order of sampling.
pub open spec fn vector_at(sampled: Seq<usize>, cur: nat) -> nat {
    if cur < sampled.len() {
        sampled[cur as int] as nat
    } else {
        cur
    }
}

/// The vectors from number `cur` on, each given a cluster drawn in proportion to the weights.
pub open spec fn with_drawn(
    seeds: Seq<u32>,
    sampled: Seq<usize>,
    weights: Seq<u32>,
    stream: RandomStream,
    cur: nat,
) -> Seq<u32>
    decreases seeds.len() - cur,
{
    if cur >= seeds.len() {
        seeds
    } else if vector_at(sampled, cur) < seeds.len() {
        let (c, next) = stream.drawn_weighted(weights);
        with_drawn(
            seeds.update(vector_at(sampled, cur) as int, c as u32),
            sampled,
            weights,
            next,
            cur + 1,
        )
    } else {
        with_drawn(seeds, sampled, weights, stream, cur + 1)
    }
}

/// The vectors from number `from` up to `cur`, each given the cluster that stands for its group.
pub open spec fn with_groups(
    seeds: Seq<u32>,
    sampled: Seq<usize>,
    groups: Seq<u32>,
    representatives: Seq<u32>,
    from: nat,
    cur: nat,
) -> Seq<u32>
    decreases cur - from,
{
    if cur <= from {
        seeds
    } else {
        let before = with_groups(seeds, sampled, groups, representatives, from, (cur - 1) as nat);
        let v = vector_at(sampled, (cur - 1) as nat) as int;
        if v < before.len() {
            before.update(v, representatives[groups[v] as int])
        } else {
            before
        }
    }
}

/// The cluster that stands for each group: the last one in it of the first `n`.
pub open spec fn group_representatives(groups: Seq<u32>, n_groups: nat, n: nat) -> Seq<u32>
    decreases n,
{
    if n == 0 {
        no_members(n_groups)
    } else {
        group_representatives(groups, n_groups, (n - 1) as nat).update(
            groups[n - 1] as int,
            (n - 1) as u32,
        )
    }
}

/// The sizes as weights; an empty cluster counts as one.
pub open spec fn weights_of(sizes: Seq<u32>) -> Seq<u32> {
    Seq::new(
        sizes.len(),
        |c: int|
            if sizes[c] < 1 {
                1u32
            } else {
                sizes[c]
            },
    )
}

impl Model {
    /// The settings for the clustering of the centroids themselves.
    pub open spec fn group_config(self) -> SuperKMeansConfig {
        SuperKMeansConfig {
            iters: 10,
            sampling_fraction: Single { bits: ONE },
            use_blas_only: false,
            verbose: self.config.verbose,
            suppress_warnings: self.config.suppress_warnings,
            seed: self.config.seed,
            angular: self.config.angular,
            data_already_rotated: self.config.data_already_rotated,
            ..SuperKMeansConfig::standard()
        }
    }

    /// Into how many groups `n` centroids are put.
    pub open spec fn group_count(n: nat) -> nat {
        let root = Double::from_nat(n).root().whole(usize::MAX as nat);
        if root < 1 {
            1
        } else {
            root
        }
    }

    /// The centroids clustered in their turn, and the centres of the groups.
    pub open spec fn groups(self, centroids: Seq<Single>) -> Seq<Single> {
        let n = centroids.len() / self.d;
        let m = Model::fresh(
            Model::group_count(n),
            self.d,
            self.group_config(),
            self.n_threads,
            self.pruner.with_epsilon0(Single { bits: PRUNER_INITIAL_THRESHOLD }),
        ).trained_on(centroids, n);
        m.output(m.config.unrotate_centroids)
    }

    /// Where the search for the cluster of each of the first `n` vectors starts: with the cluster
    /// that training left it in, or, for a vector that was not sampled, with a drawn one or with
    /// one of its group.
    pub open spec fn starting_points(self, vectors: Seq<Single>, centroids: Seq<Single>, n: nat) -> Seq<u32> {
        let known = with_known(no_members(n), self.sampled_indices, self.assignments, self.n_samples);
        if self.config.sampling_fraction == (Single { bits: ONE }) {
            self.assignments.take(n as int)
        } else if (Single { bits: DENSE_SAMPLING }).below(self.config.sampling_fraction) {
            with_drawn(
                known,
                self.sampled_indices,
                weights_of(self.cluster_sizes),
                RandomStream::start(self.config.seed.wrapping_add(1)),
                self.n_samples,
            )
        } else {
            let k = centroids.len() / self.d;
            let centres = self.groups(centroids);
            with_groups(
                known,
                self.sampled_indices,
                nearest_centroids(vectors, centres, n, self.d),
                group_representatives(
                    nearest_centroids(centroids, centres, k, self.d),
                    Model::group_count(k),
                    k,
                ),
                self.n_samples,
                n,
            )
        }
    }

    /// The search for `n` vectors can be started: each of them was sampled where all were, and the
    /// sizes can serve as weights where some of them are used so.
    pub open spec fn seedable(self, n: nat) -> bool {
        if self.config.sampling_fraction == (Single { bits: ONE }) {
            n <= self.n_samples
        } else {
            (Single { bits: DENSE_SAMPLING }).below(self.config.sampling_fraction) ==> total_weight(
                weights_of(self.cluster_sizes),
            ) <= u32::MAX
        }
    }

    /// The number of dimensions that the assignment of training points starts with.
    pub open spec fn assigning_partial_d(self) -> u32 {
        if self.vertical_d / 2 < MIN_PARTIAL_D {
            MIN_PARTIAL_D
        } else {
            (self.vertical_d / 2) as u32
        }
    }

    /// The search for the clusters of the first `n` vectors among the trained centroids.
    pub open spec fn assigning(self, vectors: Seq<Single>, k: nat, n: nat) -> Refinement {
        let p = self.assigning_partial_d() as nat;
        let data = if self.config.data_already_rotated {
            vectors
        } else {
            self.pruner.rotated(vectors, zeros(n * self.d), n)
        };
        Refinement {
            x: data,
            y: self.horizontal_centroids,
            n_y: k,
            d: self.d,
            vertical_d: self.vertical_d,
            horizontal_d: self.horizontal_d,
            norms_x: partial_norms(data, n, self.d, p),
            norms_y: partial_norms(self.horizontal_centroids, k, self.d, p),
            ratios: self.pruner.ratios,
            partial_d: p,
        }
    }

    /// The clusters of the first `n` vectors.
    pub open spec fn training_points(self, vectors: Seq<Single>, centroids: Seq<Single>, n: nat) -> Seq<u32> {
        let k = centroids.len() / self.d;
        if never_prunes(self.d, self.config.use_blas_only, k) {
            nearest_centroids(vectors, centroids, n, self.d)
        } else {
            self.assigning(vectors, k, n).indices(
                n,
                self.starting_points(vectors, centroids, n),
                zeros(n),
            )
        }
    }
}

/// The first `n` numbers are below `bound`.
pub open spec fn all_below(s: Seq<u32>, n: int, bound: int) -> bool {
    forall|i: int| 0 <= i < n ==> #[trigger] s[i] < bound
}

fn place_known(seeds: &mut Vec<u32>, sampled: &Vec<usize>, assignments: &Vec<u32>, n: usize, Ghost(bound): Ghost<int>)
    requires
        n <= sampled@.len(),
        n <= assignments@.len(),
        all_below(old(seeds)@, old(seeds)@.len() as int, bound),
        all_below(assignments@, n as int, bound),
    ensures
        final(seeds)@ == with_known(old(seeds)@, sampled@, assignments@, n as nat),
        final(seeds)@.len() == old(seeds)@.len(),
        all_below(final(seeds)@, final(seeds)@.len() as int, bound),
{
    let ghost start = seeds@;
    let mut cur: usize = 0;
    while cur < n
        invariant
            cur <= n,
            n <= sampled@.len(),
            n <= assignments@.len(),
            seeds@ == with_known(start, sampled@, assignments@, cur as nat),
            seeds@.len() == start.len(),
            all_below(seeds@, seeds@.len() as int, bound),
            all_below(assignments@, n as int, bound),
        decreases n - cur,
    {
        let orig: usize = sampled[cur];
        if orig < seeds.len() {
            seeds.set(orig, assignments[cur]);
        }
        cur = cur + 1;
    }
}

fn place_drawn(seeds: &mut Vec<u32>, sampled: &Vec<usize>, weights: &Vec<u32>, seed: u64, from: usize)
    requires
        0 < total_weight(weights@) <= u32::MAX,
        weights@.len() <= u32::MAX,
        all_below(old(seeds)@, old(seeds)@.len() as int, weights@.len() as int),
    ensures
        final(seeds)@ == with_drawn(old(seeds)@, sampled@, weights@, RandomStream::start(seed), from as nat),
        final(seeds)@.len() == old(seeds)@.len(),
        all_below(final(seeds)@, final(seeds)@.len() as int, weights@.len() as int),
{
    let ghost goal = with_drawn(seeds@, sampled@, weights@, RandomStream::start(seed), from as nat);
    let n: usize = seeds.len();
    let mut rng: RandomStream = RandomStream::new(seed);
    let mut cur: usize = from;
    while cur < n
        invariant
            n == seeds@.len(),
            0 < total_weight(weights@) <= u32::MAX,
            weights@.len() <= u32::MAX,
            all_below(seeds@, seeds@.len() as int, weights@.len() as int),
            goal == with_drawn(seeds@, sampled@, weights@, rng, cur as nat),
        decreases n - cur,
    {
        let orig: usize = if cur < sampled.len() {
            sampled[cur]
        } else {
            cur
        };
        if orig < n {
            let c: usize = rng.weighted(weights.as_slice());
            seeds.set(orig, c as u32);
        }
        cur = cur + 1;
    }
}

fn place_groups(
    seeds: &mut Vec<u32>,
    sampled: &Vec<usize>,
    groups: &Vec<u32>,
    representatives: &Vec<u32>,
    from: usize,
    Ghost(bound): Ghost<int>,
)
    requires
        groups@.len() == old(seeds)@.len(),
        all_below(groups@, groups@.len() as int, representatives@.len() as int),
        all_below(old(seeds)@, old(seeds)@.len() as int, bound),
        all_below(representatives@, representatives@.len() as int, bound),
    ensures
        final(seeds)@ == with_groups(
            old(seeds)@,
            sampled@,
            groups@,
            representatives@,
            from as nat,
            old(seeds)@.len(),
        ),
        final(seeds)@.len() == old(seeds)@.len(),
        all_below(final(seeds)@, final(seeds)@.len() as int, bound),
{
    let ghost start = seeds@;
    let n: usize = seeds.len();
    let mut cur: usize = from;
    while cur < n
        invariant
            n == start.len(),
            seeds@.len() == n,
            groups@.len() == n,
            from <= cur,
            from <= n ==> cur <= n,
            from > n ==> cur == from,
            all_below(groups@, groups@.len() as int, representatives@.len() as int),
            all_below(seeds@, seeds@.len() as int, bound),
            all_below(representatives@, representatives@.len() as int, bound),
            seeds@ == with_groups(start, sampled@, groups@, representatives@, from as nat, cur as nat),
        decreases n - cur,
    {
        let orig: usize = if cur < sampled.len() {
            sampled[cur]
        } else {
            cur
        };
        if orig < n {
            seeds.set(orig, representatives[groups[orig] as usize]);
        }
        cur = cur + 1;
    }
}

fn find_representatives(groups: &Vec<u32>, n_groups: usize) -> (r: Vec<u32>)
    requires
        groups@.len() <= u32::MAX,
        groups@.len() > 0,
        all_below(groups@, groups@.len() as int, n_groups as int),
    ensures
        r@ == group_representatives(groups@, n_groups as nat, groups@.len()),
        r@.len() == n_groups,
        all_below(r@, n_groups as int, groups@.len() as int),
{
    let n: usize = groups.len();
    let mut r: Vec<u32> = vec![0u32;n_groups];
    assert(r@ =~= no_members(n_groups as nat));
    let mut c: usize = 0;
    while c < n
        invariant
            c <= n,
            n == groups@.len(),
            0 < n <= u32::MAX,
            all_below(groups@, n as int, n_groups as int),
            r@.len() == n_groups,
            r@ == group_representatives(groups@, n_groups as nat, c as nat),
            all_below(r@, n_groups as int, n as int),
        decreases n - c,
    {
        r.set(groups[c] as usize, c as u32);
        c = c + 1;
    }
    r
}

fn make_weights(sizes: &Vec<u32>) -> (w: Vec<u32>)
    ensures
        w@ == weights_of(sizes@),
{
    let n: usize = sizes.len();
    let mut w: Vec<u32> = Vec::new();
    let mut c: usize = 0;
    while c < n
        invariant
            c <= n,
            n == sizes@.len(),
            w@ == weights_of(sizes@).take(c as int),
        decreases n - c,
    {
        w.push(
            if sizes[c] < 1 {
                1
            } else {
                sizes[c]
            },
        );
        c = c + 1;
        assert(w@ =~= weights_of(sizes@).take(c as int));
    }
    assert(w@ =~= weights_of(sizes@));
    w
}

/// Weights that are all positive add up to at least their number.
proof fn lemma_weights_positive(w: Seq<u32>)
    requires
        forall|c: int| 0 <= c < w.len() ==> #[trigger] w[c] > 0,
    ensures
        total_weight(w) >= w.len(),
    decreases w.len(),
{
    if w.len() > 0 {
        let before = w.drop_last();
        assert forall|c: int| 0 <= c < before.len() implies #[trigger] before[c] > 0 by {
            assert(before[c] == w[c]);
        }
        lemma_weights_positive(before);
        assert(w[w.len() - 1] > 0);
    }
}

impl SuperKMeans {
    /// Brute-force assignment: returns the index of the nearest centroid for
    /// each vector (data and centroids assumed to share the same domain).
    pub fn assign(&self, vectors: &[Single], centroids: &[Single], n_vectors: usize) -> (r: Vec<u32>)
        requires
            self.d > 0,
            n_vectors * self.d <= vectors@.len(),
            centroids@.len() / (self.d as nat) <= 0x1_0000_0000,
        ensures
            r@ == nearest_centroids(vectors@, centroids@, n_vectors as nat, self.d as nat),
            centroids@.len() >= self.d ==> all_below(
                r@,
                n_vectors as int,
                (centroids@.len() / (self.d as nat)) as int,
            ),
    {
        let d: usize = self.d;
        let n_centroids: usize = centroids.len() / d;
        proof {
            let len = centroids@.len() as int;
            vstd::arithmetic::div_mod::lemma_fundamental_div_mod(len, d as int);
            vstd::arithmetic::div_mod::lemma_mod_bound(len, d as int);
            assert(n_centroids * d == d * n_centroids) by (nonlinear_arith);
            if len >= d {
                assert(n_centroids > 0) by (nonlinear_arith)
                    requires
                        len == d * n_centroids + len % (d as int),
                        len >= d,
                        len % (d as int) < d,
                        n_centroids >= 0,
                ;
            }
        }
        let mut result_assignments: Vec<u32> = vec![0u32;n_vectors];
        let mut result_distances: Vec<Single> = vec![Single { bits: ZERO };n_vectors];
        let vector_norms: Vec<Single> = compute_norms_row_major(vectors, n_vectors, d);
        let centroid_norms: Vec<Single> = compute_norms_row_major(centroids, n_centroids, d);
        let mut buf: Vec<Single> = Vec::new();
        find_nearest_neighbor(
            vectors,
            centroids,
            n_vectors,
            n_centroids,
            d,
            vector_norms.as_slice(),
            centroid_norms.as_slice(),
            result_assignments.as_mut_slice(),
            result_distances.as_mut_slice(),
            &mut buf,
        );
        assert(result_assignments@ =~= nearest_centroids(vectors@, centroids@, n_vectors as nat, d as nat));
        result_assignments
    }

    /// Clusters the centroids themselves, and returns the centres of the groups.
    fn group_centroids(&self, centroids: &[Single], n_centroids: usize) -> (r: Vec<Single>)
        requires
            self@.geometry(),
            0 < n_centroids <= u32::MAX,
            n_centroids == centroids@.len() / (self.d as nat),
        ensures
            r@ == self@.groups(centroids@),
            r@.len() == Model::group_count(n_centroids as nat) * self.d,
            0 < Model::group_count(n_centroids as nat) <= 0x1_0000,
    {
        let d: usize = self.d;
        proof {
            let n = n_centroids as nat;
            assert(1 * 1 <= n <= 0x1_0000 * 0x1_0000);
            lemma_integer_root_bounds(n, 1, 0x1_0000, usize::MAX as nat);
            assert(n <= n * n) by (nonlinear_arith)
                requires
                    n >= 1,
            ;
            lemma_integer_root_bounds(n, 1, n, usize::MAX as nat);
            lemma_whole_share();
            vstd::arithmetic::div_mod::lemma_fundamental_div_mod(centroids@.len() as int, d as int);
            assert(n_centroids * d == d * n_centroids) by (nonlinear_arith);
        }
        let root: usize = Double::from_integer(n_centroids as u64).sqrt().to_usize();
        let new_n_centroids: usize = if root < 1 {
            1
        } else {
            root
        };
        let standard: SuperKMeansConfig = SuperKMeansConfig::default();
        let tmp_config: SuperKMeansConfig = SuperKMeansConfig {
            iters: 10,
            sampling_fraction: Single { bits: ONE },
            use_blas_only: false,
            verbose: self.config.verbose,
            suppress_warnings: self.config.suppress_warnings,
            seed: self.config.seed,
            angular: self.config.angular,
            data_already_rotated: self.config.data_already_rotated,
            ..standard
        };
        assert(self.pruner.ratios.len() <= usize::MAX);
        let mut pruner: ADSamplingPruner = self.pruner.duplicate();
        pruner.set_epsilon0(Single { bits: PRUNER_INITIAL_THRESHOLD });
        let mut tmp_kmeans: SuperKMeans = SuperKMeans::with_pruner(
            new_n_centroids,
            d,
            tmp_config,
            self.n_threads,
            pruner,
        );
        tmp_kmeans.train(centroids, n_centroids)
    }

    /// Where the search for the cluster of each vector starts.
    fn seed_assignments(&self, vectors: &[Single], centroids: &[Single], n_vectors: usize, n_centroids: usize) -> (r: Vec<u32>)
        requires
            self@.fitted(),
            n_vectors * self.d <= vectors@.len(),
            n_centroids == centroids@.len() / (self.d as nat),
            0 < n_centroids <= self.n_clusters,
            self@.seedable(n_vectors as nat),
        ensures
            r@ == self@.starting_points(vectors@, centroids@, n_vectors as nat),
            r@.len() == n_vectors,
            all_below(r@, n_vectors as int, self.n_clusters as int),
    {
        let d: usize = self.d;
        if self.config.sampling_fraction == (Single { bits: ONE }) {
            let r: Vec<u32> = vstd::slice::slice_to_vec(&self.assignments.as_slice()[0..n_vectors]);
            assert(r@ =~= self.assignments@.take(n_vectors as int));
            return r;
        }
        let mut r: Vec<u32> = vec![0u32;n_vectors];
        assert(r@ =~= no_members(n_vectors as nat));
        place_known(
            &mut r,
            &self.sampled_indices,
            &self.assignments,
            self.n_samples,
            Ghost(self.n_clusters as int),
        );
        if (Single { bits: DENSE_SAMPLING }).lt(self.config.sampling_fraction) {
            let weights: Vec<u32> = make_weights(&self.cluster_sizes);
            proof {
                lemma_weights_positive(weights@);
            }
            place_drawn(
                &mut r,
                &self.sampled_indices,
                &weights,
                self.config.seed.wrapping_add(1),
                self.n_samples,
            );
            return r;
        }
        let centres: Vec<Single> = self.group_centroids(centroids, n_centroids);
        proof {
            let k = Model::group_count(n_centroids as nat);
            vstd::arithmetic::div_mod::lemma_div_multiples_vanish(k as int, d as int);
            assert(d * k == k * d) by (nonlinear_arith);
            assert(k * d >= d) by (nonlinear_arith)
                requires
                    k >= 1,
                    d >= 0,
            ;
            vstd::arithmetic::div_mod::lemma_fundamental_div_mod(centroids@.len() as int, d as int);
            assert(n_centroids * d == d * n_centroids) by (nonlinear_arith);
        }
        let n_groups: usize = centres.len() / d;
        let groups: Vec<u32> = self.assign(vectors, centres.as_slice(), n_vectors);
        let centroid_groups: Vec<u32> = self.assign(centroids, centres.as_slice(), n_centroids);
        let representatives: Vec<u32> = find_representatives(&centroid_groups, n_groups);
        place_groups(
            &mut r,
            &self.sampled_indices,
            &groups,
            &representatives,
            self.n_samples,
            Ghost(self.n_clusters as int),
        );
        r
    }

    /// Fast assignment of training points using pruning. Where pruning does not help, every
    /// vector is compared with all of `centroids`; else the search is among the trained centroids,
    /// in the rotated space.
    pub fn assign_training_points(&mut self, vectors: &[Single], centroids: &[Single], n_vectors: usize) -> (r: Vec<u32>)
        requires
            old(self)@.fitted(),
            n_vectors * old(self).d <= vectors@.len(),
            centroids@.len() / (old(self).d as nat) <= 0x1_0000_0000,
            !never_prunes(
                old(self).d as nat,
                old(self).config.use_blas_only,
                centroids@.len() / (old(self).d as nat),
            ) ==> centroids@.len() / (old(self).d as nat) <= old(self).n_clusters && old(self)@.seedable(
                n_vectors as nat,
            ),
        ensures
            r@ == old(self)@.training_points(vectors@, centroids@, n_vectors as nat),
            final(self)@ == if never_prunes(
                old(self).d as nat,
                old(self).config.use_blas_only,
                centroids@.len() / (old(self).d as nat),
            ) {
                old(self)@
            } else {
                Model { partial_d: old(self)@.assigning_partial_d(), ..old(self)@ }
            },
    {
        let d: usize = self.d;
        let n_centroids: usize = centroids.len() / d;
        if cannot_prune(d, self.config.use_blas_only, n_centroids) {
            return self.assign(vectors, centroids, n_vectors);
        }
        let ghost m = self@;
        let half: u32 = self.vertical_d as u32 / 2;
        let p: u32 = if half < MIN_PARTIAL_D {
            MIN_PARTIAL_D
        } else {
            half
        };
        proof {
            assert(vectors.len() <= usize::MAX);
            assert(0 <= n_vectors * d) by (nonlinear_arith);
            assert(n_centroids * d <= self.n_clusters * d) by (nonlinear_arith)
                requires
                    n_centroids <= self.n_clusters,
            ;
        }
        let size: usize = n_vectors * d;
        let mut data_buffer: Vec<Single> = vec![Single { bits: ZERO };size];
        assert(data_buffer@ =~= zeros(size as nat));
        if !self.config.data_already_rotated {
            self.pruner.rotate(vectors, data_buffer.as_mut_slice(), n_vectors);
        }
        let data_p: &[Single] = if self.config.data_already_rotated {
            vectors
        } else {
            data_buffer.as_slice()
        };
        let centroid_partial_norms: Vec<Single> = compute_partial_norms_row_major(
            self.horizontal_centroids.as_slice(),
            n_centroids,
            d,
            p as usize,
        );
        let data_partial_norms: Vec<Single> = compute_partial_norms_row_major(data_p, n_vectors, d, p as usize);
        let mut result_assignments: Vec<u32> = self.seed_assignments(vectors, centroids, n_vectors, n_centroids);
        let mut result_distances: Vec<Single> = vec![Single { bits: ZERO };n_vectors];
        assert(result_distances@ =~= zeros(n_vectors as nat));
        let mut not_pruned_counts: Vec<usize> = vec![0usize;n_vectors];
        assert(not_pruned_counts@ =~= no_counts(n_vectors as nat));
        let mut buf: Vec<Single> = Vec::new();
        proof {
            assert forall|i: int| 0 <= i < n_vectors implies (#[trigger] result_assignments@[i] + 1) * d
                <= self.horizontal_centroids@.len() by {
                lemma_row(result_assignments@[i] as int, self.n_clusters as int, d as int);
            }
        }
        find_nearest_neighbor_with_pruning(
            data_p,
            self.horizontal_centroids.as_slice(),
            n_vectors,
            n_centroids,
            d,
            self.vertical_d,
            self.horizontal_d,
            data_partial_norms.as_slice(),
            centroid_partial_norms.as_slice(),
            result_assignments.as_mut_slice(),
            result_distances.as_mut_slice(),
            &self.pruner,
            p as usize,
            not_pruned_counts.as_mut_slice(),
            &mut buf,
        );
        self.partial_d = p;
        result_assignments
    }
}

/// 1 is a share that can be sampled.
pub(crate) proof fn lemma_whole_share()
    ensures
        (Single { bits: ZERO }).below(Single { bits: ONE }),
        !(Single { bits: ONE }).below(Single { bits: ONE }),
{
    reveal(Single::below);
    assert(0u32 & 0x7fff_ffff == 0 && 0x3f80_0000u32 & 0x7fff_ffff == 0x3f80_0000) by (bit_vector);
}

} // verus!
