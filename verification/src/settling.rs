//! What training leaves: assignments and distances that belong together.
use crate::centroids::{norms, partial_norms};
use crate::common::MIN_PARTIAL_D;
use crate::exact::{gap_sum, is_whole, whole_table};
use crate::hierarchical::{refinement_partial_d, Hierarchy};
use crate::laws::law_tuning_stays_in_bounds;
use crate::means::{centroids_before, law_iteration_assigns_nearest, law_pruning_iteration_never_worse};
use crate::ranges::{lemma_iterated_spacious, spacious};
use crate::runs::{lemma_iterated_consistent, roomy};
use crate::single::Single;
use crate::superkmeans::{never_prunes, no_counts, not_pruned_share, Model};
use vstd::prelude::*;

verus! {

/// The norms of the samples are those that the next search goes by.
pub open spec fn norms_match(m: Model, data: Seq<Single>, partial: bool) -> bool {
    m.data_norms == if partial {
        partial_norms(data, m.n_samples, m.d, m.partial_d as nat)
    } else {
        norms(data, m.n_samples, m.d)
    }
}

/// The distance of each sample is that to the centroid that it was assigned to; and where all
/// distances were measured, no other is nearer. The centroids are those before the last step, and
/// all numbers are short integers.
pub open spec fn settled(m: Model, vx: Seq<int>, vy: Seq<int>, by_products: bool) -> bool {
    forall|i: int|
        0 <= i < m.n_samples ==> {
            let d = m.d as int;
            let gap = gap_sum(vx, i * d, vy, #[trigger] m.assignments[i] * d, 0, d);
            &&& m.assignments[i] < m.n_clusters
            &&& is_whole(m.distances[i], gap)
            &&& by_products ==> forall|c: int|
                0 <= c < m.n_clusters ==> gap <= #[trigger] gap_sum(vx, i * d, vy, c * d, 0, d)
        }
}

/// A clustering between iterations.
pub open spec fn between(m: Model, data: Seq<Single>, k: nat) -> bool {
    &&& 0 < m.d
    &&& spacious(m, k, m.n_samples)
    &&& m.n_samples <= m.distances.len()
    &&& roomy(m)
    &&& m.n_clusters <= k
    &&& m.n_samples * m.d <= data.len()
    &&& m.vertical_d + m.horizontal_d == m.d
}

/// One iteration keeps the norms and settles the samples.
proof fn lemma_iterated_settled(
    m: Model,
    data: Seq<Single>,
    iter: u32,
    first: bool,
    gemm_only: bool,
    counts: Seq<usize>,
    vx: Seq<int>,
    vy: Seq<int>,
    bound: int,
    k: nat,
)
    requires
        between(m, data, k),
        norms_match(m, data, !gemm_only),
        gemm_only || (m.assigned() && MIN_PARTIAL_D <= m.partial_d <= m.vertical_d),
        m.vertical_d <= u32::MAX,
    ensures
        ({
            let r = m.iterated(data, iter, first, gemm_only, counts).0;
            &&& between(r, data, k)
            &&& norms_match(r, data, !gemm_only)
            &&& r.assigned()
            &&& r.vertical_d == m.vertical_d
            &&& r.d == m.d
            &&& r.n_samples == m.n_samples
            &&& gemm_only ==> r.partial_d == m.partial_d
            &&& !gemm_only ==> MIN_PARTIAL_D <= r.partial_d <= m.vertical_d
            &&& (whole_table(data, vx, bound) && whole_table(r.prev_centroids, vy, bound) && bound >= 0 && 4 * bound
                * bound * m.d < 0x100_0000) ==> settled(r, vx, vy, gemm_only)
        }),
{
    let r = m.iterated(data, iter, first, gemm_only, counts).0;
    lemma_iterated_spacious(m, data, iter, first, gemm_only, counts, k, m.n_samples);
    lemma_iterated_consistent(m, data, iter, first, gemm_only, counts);
    let m0 = if first {
        m
    } else {
        m.exchanged()
    };
    let counts1 = if gemm_only {
        counts
    } else {
        m0.pruning_counts(data, counts.len())
    };
    let share = not_pruned_share(counts1, m.n_samples, m.n_clusters);
    if !gemm_only {
        law_tuning_stays_in_bounds(m.config, m.partial_d, m.vertical_d, share);
    }
    assert(m.n_clusters * m.d <= k * m.d) by (nonlinear_arith)
        requires
            m.n_clusters <= k,
            m.d >= 0,
    ;
    assert(r.prev_centroids == centroids_before(m, first));
    if whole_table(data, vx, bound) && whole_table(r.prev_centroids, vy, bound) && bound >= 0 && 4 * bound * bound * m.d
        < 0x100_0000 {
        assert forall|i: int| 0 <= i < r.n_samples implies {
            let d = r.d as int;
            let gap = gap_sum(vx, i * d, vy, #[trigger] r.assignments[i] * d, 0, d);
            &&& r.assignments[i] < r.n_clusters
            &&& is_whole(r.distances[i], gap)
            &&& gemm_only ==> forall|c: int|
                0 <= c < r.n_clusters ==> gap <= #[trigger] gap_sum(vx, i * d, vy, c * d, 0, d)
        } by {
            let d = r.d as int;
            if gemm_only {
                law_iteration_assigns_nearest(m, data, iter, first, counts, vx, vy, bound, i, 0);
                assert forall|c: int| 0 <= c < r.n_clusters implies gap_sum(vx, i * d, vy, r.assignments[i] * d, 0, d)
                    <= #[trigger] gap_sum(vx, i * d, vy, c * d, 0, d) by {
                    law_iteration_assigns_nearest(m, data, iter, first, counts, vx, vy, bound, i, c);
                }
            } else {
                assert(m.assignments[i] < m.n_clusters);
                law_pruning_iteration_never_worse(m, data, iter, first, counts, vx, vy, bound, i);
            }
        }
    }
}

pub(crate) proof fn lemma_phase_settled(
    m: Model,
    data: Seq<Single>,
    counts: Seq<usize>,
    iter: u32,
    iters: u32,
    fresh: bool,
    products_only: bool,
    early: bool,
    partial: bool,
    vx: Seq<int>,
    vy: Seq<int>,
    bound: int,
    k: nat,
)
    requires
        iter < iters,
        between(m, data, k),
        norms_match(m, data, partial),
        partial ==> !products_only && !(fresh && iter == 0),
        (fresh && iter == 0) || m.assigned(),
        products_only || MIN_PARTIAL_D <= m.partial_d <= m.vertical_d,
        m.vertical_d <= u32::MAX,
    ensures
        ({
            let r = m.phase_from(data, counts, iter, iters, fresh, products_only, early, partial).0;
            (whole_table(data, vx, bound) && whole_table(r.prev_centroids, vy, bound) && bound >= 0 && 4 * bound * bound
                * m.d < 0x100_0000) ==> settled(r, vx, vy, products_only)
        }),
    decreases iters - iter,
{
    let first = fresh && iter == 0;
    let gemm_only = first || products_only;
    let m0 = if !gemm_only && !partial {
        Model { data_norms: partial_norms(data, m.n_samples, m.d, m.partial_d as nat), ..m }
    } else {
        m
    };
    let (m1, counts1) = m0.iterated(data, iter, first, gemm_only, counts);
    let next = (iter + 1) as u32;
    let rest = partial || !gemm_only;
    lemma_iterated_settled(m0, data, iter, first, gemm_only, counts, vx, vy, bound, k);
    if (early && m1.converged(iter)) || iter + 1 >= iters {
        if !(early && m1.converged(iter)) {
            assert(m1.phase_from(data, counts1, next, iters, fresh, products_only, early, rest).0 == m1);
        }
    } else {
        lemma_phase_settled(m1, data, counts1, next, iters, fresh, products_only, early, rest, vx, vy, bound, k);
    }
}

/// Training leaves every sample assigned to one of the centroids that the last iteration started
/// from, with the distance to it; and, where no iteration prunes, to a nearest one of them. This is
/// exact where the samples and these centroids are short integers.
#[verifier::rlimit(30)]
pub proof fn law_trained_assignments(m: Model, data: Seq<Single>, n: nat, vx: Seq<int>, vy: Seq<int>, bound: int)
    requires
        m.trainable(data.len(), n),
        m.sample_count(n) <= n,
        whole_table(m.prepared(data, n).samples(data, n, !m.config.data_already_rotated), vx, bound),
        whole_table(m.trained_on(data, n).prev_centroids, vy, bound),
        bound >= 0,
        4 * bound * bound * m.d < 0x100_0000,
    ensures
        settled(m.trained_on(data, n), vx, vy, never_prunes(m.d, m.config.use_blas_only, m.n_clusters)),
{
    let p = m.prepared(data, n);
    let samples = p.samples(data, n, !p.config.data_already_rotated);
    let by_products = never_prunes(p.d, p.config.use_blas_only, p.n_clusters);
    assert(p.n_samples * p.d <= n * p.d) by (nonlinear_arith)
        requires
            p.n_samples <= n,
            p.d >= 0,
    ;
    lemma_phase_settled(
        p,
        samples,
        no_counts(p.n_samples),
        0,
        p.config.iters,
        true,
        by_products,
        p.config.early_termination,
        false,
        vx,
        vy,
        bound,
        p.n_clusters,
    );
    let r = p.phase_from(
        samples,
        no_counts(p.n_samples),
        0,
        p.config.iters,
        true,
        by_products,
        p.config.early_termination,
        false,
    ).0;
    let t = m.trained_on(data, n);
    assert(t == (Model { trained: true, ..r }));
    assert forall|i: int| 0 <= i < t.n_samples implies {
        let d = t.d as int;
        let gap = gap_sum(vx, i * d, vy, #[trigger] t.assignments[i] * d, 0, d);
        &&& t.assignments[i] < t.n_clusters
        &&& is_whole(t.distances[i], gap)
        &&& by_products ==> forall|c: int|
            0 <= c < t.n_clusters ==> gap <= #[trigger] gap_sum(vx, i * d, vy, c * d, 0, d)
    } by {
        assert(r.assignments[i] < r.n_clusters);
    }
}

/// Refinement starts from the clusters that it is given: on short integers, its first iteration leaves
/// each sample where it was or moves it to a nearer one of the given centroids.
#[verifier::rlimit(30)]
pub proof fn law_refinement_never_worse(
    m: Model,
    samples: Seq<Single>,
    centroids: Seq<Single>,
    assignments: Seq<u32>,
    n: nat,
    vx: Seq<int>,
    vy: Seq<int>,
    bound: int,
    i: int,
)
    requires
        m.sized(m.n_clusters, n),
        !never_prunes(m.d, false, m.n_clusters),
        n * m.d <= samples.len(),
        centroids.len() == m.n_clusters * m.d,
        assignments.len() == n,
        whole_table(samples, vx, bound),
        whole_table(centroids, vy, bound),
        bound >= 0,
        4 * bound * bound * m.d < 0x100_0000,
        0 <= i < n,
        assignments[i] < m.n_clusters,
    ensures
        ({
            let r = m.refined_from(samples, centroids, assignments, n, 1);
            let d = m.d as int;
            let gap = gap_sum(vx, i * d, vy, r.assignments[i] * d, 0, d);
            &&& r.prev_centroids == centroids
            &&& r.assignments[i] < m.n_clusters
            &&& r.assignments[i] == assignments[i] || gap < gap_sum(vx, i * d, vy, assignments[i] * d, 0, d)
            &&& is_whole(r.distances[i], gap)
        }),
{
    let start = Model {
        n_samples: n,
        partial_d: refinement_partial_d(m.vertical_d),
        horizontal_centroids: centroids,
        prev_centroids: centroids,
        assignments,
        centroid_norms: norms(centroids, m.n_clusters, m.d),
        data_norms: partial_norms(samples, n, m.d, refinement_partial_d(m.vertical_d) as nat),
        ..m
    };
    reveal_with_fuel(Model::phase_from, 2);
    assert(m.refined_from(samples, centroids, assignments, n, 1) == start.iterated(samples, 0, false, false, no_counts(n)).0);
    law_pruning_iteration_never_worse(start, samples, 0, false, no_counts(n), vx, vy, bound, i);
}

/// So the refinement of a hierarchy starts from the clusters of its mesoclusters: one iteration of it
/// leaves each sample in the cluster that it got within its mesocluster, or moves it to a nearer one.
pub proof fn law_hierarchy_refinement(
    h: Hierarchy,
    data: Seq<Single>,
    n: nat,
    vx: Seq<int>,
    vy: Seq<int>,
    bound: int,
    i: int,
)
    requires
        h.config.iters_refinement == 1,
        h.fine(data, n).base.n_clusters == h.base.n_clusters,
        h.fine(data, n).base.sized(h.base.n_clusters, h.meso(data, n).n_samples),
        !never_prunes(h.fine(data, n).base.d, false, h.base.n_clusters),
        ({
            let m = h.meso(data, n);
            let f = h.fine(data, n);
            let samples = m.samples(data, n, !m.config.data_already_rotated);
            &&& m.n_samples * f.base.d <= samples.len()
            &&& f.centroids.len() == h.base.n_clusters * f.base.d
            &&& f.assignments.len() == m.n_samples
            &&& whole_table(samples, vx, bound)
            &&& whole_table(f.centroids, vy, bound)
            &&& 0 <= i < m.n_samples
            &&& f.assignments[i] < h.base.n_clusters
        }),
        bound >= 0,
        4 * bound * bound * h.fine(data, n).base.d < 0x100_0000,
    ensures
        ({
            let f = h.fine(data, n);
            let r = h.trained_on(data, n).base;
            let d = f.base.d as int;
            let gap = gap_sum(vx, i * d, vy, r.assignments[i] * d, 0, d);
            &&& r.prev_centroids == f.centroids
            &&& r.assignments[i] == f.assignments[i] || gap < gap_sum(vx, i * d, vy, f.assignments[i] * d, 0, d)
            &&& is_whole(r.distances[i], gap)
        }),
{
    let m = h.meso(data, n);
    let f = h.fine(data, n);
    law_refinement_never_worse(
        f.base,
        m.samples(data, n, !m.config.data_already_rotated),
        f.centroids,
        f.assignments,
        m.n_samples,
        vx,
        vy,
        bound,
        i,
    );
}

} // verus!
