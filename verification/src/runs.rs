//! What holds of every training run.
use crate::batch::{lemma_nearest_in_range, tile, Problem, Refined, Refinement};
use crate::centroids::{averaged, lemma_counted_total, lemma_members_bound, members, norms, partial_norms, size_sum};
use crate::common::{lemma_row, KnnCandidate};
use crate::distance::l2_distance;
use crate::double::lemma_share;
use crate::hierarchical::{lemma_mesocluster_count, mesocluster_count, refinement_partial_d, Fine, Hierarchy};
use crate::partition::{
    allocation, fine_counts, law_counted_samples_fit, less, nonempty, sample_list, sizes_are_counts,
};
use crate::pdxearch::law_found_in_batch;
use crate::pruning::law_refinement_never_worse;
use crate::rng::RandomStream;
use crate::single::{Single, LARGEST, ONE};
use crate::splitting::{
    average_size, donors_found, empty_clusters, law_each_split_fills_one, law_filled_where_donors_found,
    law_nothing_to_fill, law_without_splits_sizes_stay, lemma_filled_keeps_total, lemma_none_empty,
    lemma_pulled_keeps_sizes, lemma_pulled_split, surplus, Clusters,
};
use crate::superkmeans::{first_partial_d, never_prunes, no_counts, no_members, picked_rows, zeros, Model, SuperKMeansIterationStats};
use vstd::prelude::*;

verus! {

impl Model {
    /// The same clustering with another number of threads.
    pub open spec fn on_threads(self, n_threads: nat) -> Model {
        Model { n_threads, ..self }
    }
}

proof fn lemma_iterated_on_threads(
    m: Model,
    t: nat,
    data: Seq<Single>,
    iter_idx: u32,
    first: bool,
    gemm_only: bool,
    counts: Seq<usize>,
)
    ensures
        ({
            let r = m.iterated(data, iter_idx, first, gemm_only, counts);
            m.on_threads(t).iterated(data, iter_idx, first, gemm_only, counts) == (r.0.on_threads(t), r.1)
        }),
{
}

proof fn lemma_phase_on_threads(
    m: Model,
    t: nat,
    data: Seq<Single>,
    counts: Seq<usize>,
    iter: u32,
    iters: u32,
    fresh: bool,
    products_only: bool,
    early: bool,
    partial: bool,
)
    ensures
        ({
            let r = m.phase_from(data, counts, iter, iters, fresh, products_only, early, partial);
            m.on_threads(t).phase_from(data, counts, iter, iters, fresh, products_only, early, partial) == (
                r.0.on_threads(t),
                r.1,
            )
        }),
    decreases iters - iter,
{
    if iter < iters {
        let first = fresh && iter == 0;
        let gemm_only = first || products_only;
        let m0 = if !gemm_only && !partial {
            Model {
                data_norms: partial_norms(data, m.n_samples, m.d, m.partial_d as nat),
                ..m
            }
        } else {
            m
        };
        lemma_iterated_on_threads(m0, t, data, iter, first, gemm_only, counts);
        let (m1, counts1) = m0.iterated(data, iter, first, gemm_only, counts);
        lemma_phase_on_threads(
            m1,
            t,
            data,
            counts1,
            (iter + 1) as u32,
            iters,
            fresh,
            products_only,
            early,
            partial || !gemm_only,
        );
    }
}

/// The number of threads has no influence on what training finds.
pub proof fn law_threads_have_no_influence(m: Model, data: Seq<Single>, n: nat, n_threads: nat)
    ensures
        m.on_threads(n_threads).trained_on(data, n) == m.trained_on(data, n).on_threads(n_threads),
{
    let p = m.prepared(data, n);
    assert(m.on_threads(n_threads).prepared(data, n) == p.on_threads(n_threads));
    lemma_phase_on_threads(
        p,
        n_threads,
        p.samples(data, n, !p.config.data_already_rotated),
        no_counts(p.n_samples),
        0,
        p.config.iters,
        true,
        never_prunes(p.d, p.config.use_blas_only, p.n_clusters),
        p.config.early_termination,
        false,
    );
}

impl Fine {
    pub open spec fn on_threads(self, n_threads: nat) -> Fine {
        Fine { base: self.base.on_threads(n_threads), ..self }
    }
}

impl Hierarchy {
    /// The same clustering with another number of threads.
    pub open spec fn on_threads(self, n_threads: nat) -> Hierarchy {
        Hierarchy { base: self.base.on_threads(n_threads), ..self }
    }
}

proof fn lemma_mesocluster_on_threads(
    f: Fine,
    t: nat,
    samples: Seq<Single>,
    list: Seq<usize>,
    all_norms: Seq<Single>,
    n_fine: nat,
    partial_d: u32,
    iters: u32,
)
    ensures
        f.on_threads(t).with_mesocluster(samples, list, all_norms, n_fine, partial_d, iters) == f.with_mesocluster(
            samples,
            list,
            all_norms,
            n_fine,
            partial_d,
            iters,
        ).on_threads(t),
{
    let rows = picked_rows(samples, list, f.base.d, list.len());
    let p = f.prepared(rows, list, all_norms, n_fine, partial_d);
    assert(f.on_threads(t).prepared(rows, list, all_norms, n_fine, partial_d) == p.on_threads(t));
    lemma_phase_on_threads(
        p,
        t,
        rows,
        no_counts(list.len()),
        0,
        iters,
        true,
        never_prunes(f.base.d, f.base.config.use_blas_only, n_fine),
        f.base.config.early_termination,
        false,
    );
}

proof fn lemma_mesoclusters_on_threads(
    f: Fine,
    t: nat,
    samples: Seq<Single>,
    list: Seq<usize>,
    sizes: Seq<u32>,
    counts: Seq<usize>,
    all_norms: Seq<Single>,
    partial_d: u32,
    iters: u32,
    c: nat,
)
    ensures
        f.on_threads(t).with_mesoclusters(samples, list, sizes, counts, all_norms, partial_d, iters, c)
            == f.with_mesoclusters(
            samples,
            list,
            sizes,
            counts,
            all_norms,
            partial_d,
            iters,
            c,
        ).on_threads(t),
    decreases counts.len() - c,
{
    if c < counts.len() {
        let from = size_sum(sizes, c) as int;
        let part = list.subrange(from, from + sizes[c as int]);
        let n_fine = counts[c as int] as nat;
        let next = if n_fine == 0 {
            f
        } else {
            f.with_mesocluster(samples, part, all_norms, n_fine, partial_d, iters)
        };
        lemma_mesocluster_on_threads(f, t, samples, part, all_norms, n_fine, partial_d, iters);
        lemma_mesoclusters_on_threads(next, t, samples, list, sizes, counts, all_norms, partial_d, iters, c + 1);
    }
}

/// The number of threads has no influence on what hierarchical training finds.
pub proof fn law_threads_have_no_influence_on_hierarchies(h: Hierarchy, data: Seq<Single>, n: nat, n_threads: nat)
    ensures
        h.on_threads(n_threads).trained_on(data, n) == h.trained_on(data, n).on_threads(n_threads),
{
    let t = n_threads;
    let k = h.base.n_clusters;
    let n_meso = mesocluster_count(k);
    let p = h.base.meso_prepared(data, n, n_meso);
    assert(h.on_threads(t).base.meso_prepared(data, n, n_meso) == p.on_threads(t));
    lemma_phase_on_threads(
        p,
        t,
        p.samples(data, n, !p.config.data_already_rotated),
        no_counts(p.n_samples),
        0,
        h.config.iters_mesoclustering,
        true,
        never_prunes(p.d, p.config.use_blas_only, n_meso),
        p.config.early_termination,
        false,
    );
    let m = h.meso(data, n);
    assert(h.on_threads(t).meso(data, n) == m.on_threads(t));
    let samples = m.samples(data, n, !m.config.data_already_rotated);
    let f0 = Fine {
        base: Model { n_clusters: k, iteration_stats: h.base.iteration_stats, ..m },
        centroids: zeros(k * m.d),
        assignments: no_members(m.n_samples),
        stats: Seq::empty(),
        offset: 0,
    };
    lemma_mesoclusters_on_threads(
        f0,
        t,
        samples,
        sample_list(m.assignments, m.cluster_sizes, m.n_samples, m.n_samples),
        m.cluster_sizes,
        fine_counts(
            m.cluster_sizes.take(n_meso as int),
            n_meso,
            0,
            k,
            m.n_samples,
            nonempty(m.cluster_sizes.take(n_meso as int), 0, n_meso),
        ),
        norms(samples, m.n_samples, m.d),
        first_partial_d(m.vertical_d) as u32,
        h.config.iters_fineclustering,
        0,
    );
    let f = h.fine(data, n);
    assert(h.on_threads(t).fine(data, n) == f.on_threads(t));
    let r = Model {
        n_samples: m.n_samples,
        partial_d: refinement_partial_d(f.base.vertical_d),
        horizontal_centroids: f.centroids,
        prev_centroids: f.centroids,
        assignments: f.assignments,
        centroid_norms: norms(f.centroids, f.base.n_clusters, f.base.d),
        ..f.base
    };
    lemma_phase_on_threads(
        r,
        t,
        samples,
        no_counts(m.n_samples),
        0,
        h.config.iters_refinement,
        false,
        never_prunes(f.base.d, false, f.base.n_clusters),
        false,
        false,
    );
}

/// What the iterations of a phase leave in the statistics: at least one entry where there is an
/// iteration at all, at most one for each; numbered from 1 on; fewer than asked for only where the
/// clustering has converged.
pub open spec fn reported(before: Model, after: Model, iter: u32, iters: u32, early: bool) -> bool {
    let had = before.iteration_stats.len();
    let have = after.iteration_stats.len();
    &&& had < have <= had + (iters - iter)
    &&& after.iteration_stats.take(had as int) == before.iteration_stats
    &&& !early ==> have == had + (iters - iter)
    &&& have < had + (iters - iter) ==> after.converged((iter + (have - had) - 1) as u32)
    &&& forall|k: int|
        had <= k < have ==> (#[trigger] after.iteration_stats[k]).iteration == iter + (k - had) + 1
    &&& after.iteration_stats[have - 1].objective == after.cost
    &&& after.iteration_stats[have - 1].shift == after.shift
    &&& after.iteration_stats[have - 1].split == after.n_split as usize
}

/// One iteration adds one entry.
proof fn lemma_iterated_reported(m: Model, data: Seq<Single>, iter: u32, first: bool, gemm_only: bool, counts: Seq<usize>)
    requires
        iter < u32::MAX,
    ensures
        reported(m, m.iterated(data, iter, first, gemm_only, counts).0, iter, (iter + 1) as u32, false),
        m.iterated(data, iter, first, gemm_only, counts).0.config == m.config,
{
    let r = m.iterated(data, iter, first, gemm_only, counts).0;
    assert(r.iteration_stats.drop_last() =~= m.iteration_stats);
    assert(r.iteration_stats.take(m.iteration_stats.len() as int) =~= m.iteration_stats);
}

/// One entry, and then more.
proof fn lemma_reported_on(m: Model, m1: Model, r: Model, iter: u32, iters: u32, early: bool)
    requires
        iter + 1 < iters,
        reported(m, m1, iter, (iter + 1) as u32, false),
        reported(m1, r, (iter + 1) as u32, iters, early),
    ensures
        reported(m, r, iter, iters, early),
{
    let had = m.iteration_stats.len() as int;
    let seen = r.iteration_stats.take(had + 1);
    assert(seen == m1.iteration_stats);
    assert(r.iteration_stats.take(had) =~= seen.take(had));
    assert forall|k: int| had <= k < r.iteration_stats.len() implies (#[trigger] r.iteration_stats[k]).iteration == iter
        + (k - had) + 1 by {
        if k == had {
            assert(seen[k] == r.iteration_stats[k]);
            assert(m1.iteration_stats[k].iteration == iter + 1);
        }
    }
}

proof fn lemma_phase_reported(
    m: Model,
    data: Seq<Single>,
    counts: Seq<usize>,
    iter: u32,
    iters: u32,
    fresh: bool,
    products_only: bool,
    early: bool,
    partial: bool,
)
    requires
        iter < iters,
    ensures
        reported(
            m,
            m.phase_from(data, counts, iter, iters, fresh, products_only, early, partial).0,
            iter,
            iters,
            early,
        ),
        m.phase_from(data, counts, iter, iters, fresh, products_only, early, partial).0.config == m.config,
    decreases iters - iter,
{
    let first = fresh && iter == 0;
    let gemm_only = first || products_only;
    let m0 = if !gemm_only && !partial {
        Model {
            data_norms: partial_norms(data, m.n_samples, m.d, m.partial_d as nat),
            ..m
        }
    } else {
        m
    };
    lemma_iterated_reported(m0, data, iter, first, gemm_only, counts);
    let (m1, counts1) = m0.iterated(data, iter, first, gemm_only, counts);
    assert(reported(m, m1, iter, (iter + 1) as u32, false));
    let next = (iter + 1) as u32;
    let rest = partial || !gemm_only;
    if !(early && m1.converged(iter)) && iter + 1 < iters {
        lemma_phase_reported(m1, data, counts1, next, iters, fresh, products_only, early, rest);
        lemma_reported_on(
            m,
            m1,
            m1.phase_from(data, counts1, next, iters, fresh, products_only, early, rest).0,
            iter,
            iters,
            early,
        );
    } else if !(early && m1.converged(iter)) {
        assert(m1.phase_from(data, counts1, next, iters, fresh, products_only, early, rest).0 == m1);
    }
}

/// Training reports each of its iterations, from 1 on. There are as many as were asked for, unless
/// it may end early and has converged.
pub proof fn law_iterations_reported(m: Model, data: Seq<Single>, n: nat)
    requires
        m.config.iters > 0,
    ensures
        reported(
            m.prepared(data, n),
            m.trained_on(data, n),
            0,
            m.config.iters,
            m.config.early_termination,
        ),
        m.prepared(data, n).iteration_stats.len() == 0,
{
    let p = m.prepared(data, n);
    lemma_phase_reported(
        p,
        p.samples(data, n, !p.config.data_already_rotated),
        no_counts(p.n_samples),
        0,
        p.config.iters,
        true,
        never_prunes(p.d, p.config.use_blas_only, p.n_clusters),
        p.config.early_termination,
        false,
    );
}

/// How many mesoclusters from `c` on have clusters at all.
pub open spec fn clustered(counts: Seq<usize>, c: nat) -> nat
    decreases counts.len() - c,
{
    if c >= counts.len() {
        0
    } else if counts[c as int] == 0 {
        clustered(counts, c + 1)
    } else {
        1 + clustered(counts, c + 1)
    }
}

proof fn lemma_clustered_bound(counts: Seq<usize>, c: nat)
    requires
        c <= counts.len(),
    ensures
        clustered(counts, c) <= counts.len() - c,
    decreases counts.len() - c,
{
    if c < counts.len() {
        lemma_clustered_bound(counts, c + 1);
    }
}

pub(crate) proof fn lemma_fine_counts_len(sizes: Seq<u32>, n: nat, i: nat, c: nat, s: nat, filled: nat)
    requires
        i <= n,
    ensures
        fine_counts(sizes, n, i, c, s, filled).len() == n - i,
    decreases n - i,
{
    if i < n {
        let size = sizes[i as int];
        let others = less(filled, 1);
        let here = if i + 1 == n {
            c
        } else if size == 0 {
            0
        } else {
            allocation(size, c, s, others)
        };
        lemma_fine_counts_len(
            sizes,
            n,
            i + 1,
            less(c, here),
            less(s, size as nat),
            if i + 1 == n || size == 0 {
                filled
            } else {
                others
            },
        );
    }
}

/// What `runs` runs of at most `iters` iterations add to the statistics in `before`: at least one
/// entry each, numbered from 1 on; all of their iterations where none may end early.
pub open spec fn runs_reported(
    before: Seq<SuperKMeansIterationStats>,
    after: Seq<SuperKMeansIterationStats>,
    runs: nat,
    iters: u32,
    early: bool,
) -> bool {
    let had = before.len();
    let have = after.len();
    &&& had + runs <= have <= had + runs * iters
    &&& !early ==> have == had + runs * iters
    &&& after.take(had as int) == before
    &&& forall|k: int| had <= k < have ==> 1 <= (#[trigger] after[k]).iteration <= iters
}

proof fn lemma_one_more_run(
    before: Seq<SuperKMeansIterationStats>,
    m: Model,
    r: Model,
    after: Seq<SuperKMeansIterationStats>,
    runs: nat,
    iters: u32,
    early: bool,
)
    requires
        reported(m, r, 0, iters, early),
        runs_reported(before + r.iteration_stats.skip(m.iteration_stats.len() as int), after, runs, iters, early),
    ensures
        runs_reported(before, after, 1 + runs, iters, early),
{
    let had = before.len() as int;
    let seen = m.iteration_stats.len() as int;
    let new = r.iteration_stats.skip(seen);
    let mid = before + new;
    assert((1 + runs) * iters == iters + runs * iters) by (nonlinear_arith);
    assert(after.take(had) =~= after.take(mid.len() as int).take(had));
    assert(mid.take(had) =~= before);
    assert forall|k: int| had <= k < after.len() implies 1 <= (#[trigger] after[k]).iteration <= iters by {
        if k < mid.len() {
            assert(after.take(mid.len() as int)[k] == mid[k]);
            assert(mid[k] == r.iteration_stats[seen + k - had]);
        }
    }
}

proof fn lemma_with_mesoclusters_reported(
    f: Fine,
    samples: Seq<Single>,
    list: Seq<usize>,
    sizes: Seq<u32>,
    counts: Seq<usize>,
    all_norms: Seq<Single>,
    partial_d: u32,
    iters: u32,
    c: nat,
)
    requires
        iters > 0,
    ensures
        runs_reported(
            f.stats,
            f.with_mesoclusters(samples, list, sizes, counts, all_norms, partial_d, iters, c).stats,
            clustered(counts, c),
            iters,
            f.base.config.early_termination,
        ),
    decreases counts.len() - c,
{
    if c >= counts.len() {
        assert(0 * iters == 0);
        assert(f.stats.take(f.stats.len() as int) =~= f.stats);
    } else {
        let from = size_sum(sizes, c) as int;
        let part = list.subrange(from, from + sizes[c as int]);
        let n_fine = counts[c as int] as nat;
        let next = if n_fine == 0 {
            f
        } else {
            f.with_mesocluster(samples, part, all_norms, n_fine, partial_d, iters)
        };
        if n_fine > 0 {
            let rows = picked_rows(samples, part, f.base.d, part.len());
            let m = f.prepared(rows, part, all_norms, n_fine, partial_d);
            let by_products = never_prunes(f.base.d, f.base.config.use_blas_only, n_fine);
            let early = f.base.config.early_termination;
            lemma_phase_reported(m, rows, no_counts(part.len()), 0, iters, true, by_products, early, false);
            let r = m.phase_from(rows, no_counts(part.len()), 0, iters, true, by_products, early, false).0;
            assert(next.base.config == f.base.config);
            lemma_with_mesoclusters_reported(next, samples, list, sizes, counts, all_norms, partial_d, iters, c + 1);
            lemma_one_more_run(
                f.stats,
                m,
                r,
                next.with_mesoclusters(samples, list, sizes, counts, all_norms, partial_d, iters, c + 1).stats,
                clustered(counts, c + 1),
                iters,
                early,
            );
        } else {
            lemma_with_mesoclusters_reported(next, samples, list, sizes, counts, all_norms, partial_d, iters, c + 1);
        }
    }
}

impl Hierarchy {
    /// How many clusters each mesocluster gets.
    pub open spec fn shares(self, data: Seq<Single>, n: nat) -> Seq<usize> {
        let m = self.meso(data, n);
        let n_meso = mesocluster_count(self.base.n_clusters);
        let sizes = m.cluster_sizes.take(n_meso as int);
        fine_counts(sizes, n_meso, 0, self.base.n_clusters, m.n_samples, nonempty(sizes, 0, n_meso))
    }
}

/// Fine clustering reports the iterations of each mesocluster that has clusters, one mesocluster
/// after the other.
proof fn lemma_fine_reported(h: Hierarchy, data: Seq<Single>, n: nat)
    requires
        h.config.iters_mesoclustering > 0,
        h.config.iters_fineclustering > 0,
    ensures
        runs_reported(
            Seq::empty(),
            h.fine(data, n).stats,
            clustered(h.shares(data, n), 0),
            h.config.iters_fineclustering,
            h.base.config.early_termination,
        ),
        clustered(h.shares(data, n), 0) <= mesocluster_count(h.base.n_clusters),
{
    let m = h.meso(data, n);
    let k = h.base.n_clusters;
    let n_meso = mesocluster_count(k);
    let samples = m.samples(data, n, !m.config.data_already_rotated);
    let sizes = m.cluster_sizes.take(n_meso as int);
    let p = h.base.meso_prepared(data, n, n_meso);
    lemma_phase_reported(
        p,
        p.samples(data, n, !p.config.data_already_rotated),
        no_counts(p.n_samples),
        0,
        h.config.iters_mesoclustering,
        true,
        never_prunes(p.d, p.config.use_blas_only, n_meso),
        p.config.early_termination,
        false,
    );
    lemma_fine_counts_len(sizes, n_meso, 0, k, m.n_samples, nonempty(sizes, 0, n_meso));
    lemma_clustered_bound(h.shares(data, n), 0);
    lemma_with_mesoclusters_reported(
        Fine {
            base: Model { n_clusters: k, iteration_stats: h.base.iteration_stats, ..m },
            centroids: zeros(k * m.d),
            assignments: no_members(m.n_samples),
            stats: Seq::empty(),
            offset: 0,
        },
        samples,
        sample_list(m.assignments, m.cluster_sizes, m.n_samples, m.n_samples),
        m.cluster_sizes,
        h.shares(data, n),
        norms(samples, m.n_samples, m.d),
        first_partial_d(m.vertical_d) as u32,
        h.config.iters_fineclustering,
        0,
    );
}

/// Hierarchical training reports each iteration into mesoclusters, each iteration within a
/// mesocluster that gets clusters, and each iteration of the refinement, which never ends early.
pub proof fn law_hierarchy_iterations_reported(h: Hierarchy, data: Seq<Single>, n: nat)
    requires
        h.config.iters_mesoclustering > 0,
        h.config.iters_fineclustering > 0,
    ensures
        runs_reported(
            Seq::empty(),
            h.trained_on(data, n).fineclustering,
            clustered(h.shares(data, n), 0),
            h.config.iters_fineclustering,
            h.base.config.early_termination,
        ),
        clustered(h.shares(data, n), 0) <= mesocluster_count(h.base.n_clusters),
        h.trained_on(data, n).fineclustering.len() <= mesocluster_count(h.base.n_clusters)
            * h.config.iters_fineclustering,
        reported(
            h.base.meso_prepared(data, n, mesocluster_count(h.base.n_clusters)),
            h.meso(data, n),
            0,
            h.config.iters_mesoclustering,
            h.base.config.early_termination,
        ),
        h.trained_on(data, n).mesoclustering.len() <= h.config.iters_mesoclustering,
        !h.base.config.early_termination ==> h.trained_on(data, n).mesoclustering.len() == h.config.iters_mesoclustering,
        h.trained_on(data, n).refinement.len() == h.config.iters_refinement,
        forall|k: int|
            0 <= k < h.config.iters_refinement ==> (#[trigger] h.trained_on(data, n).refinement[k]).iteration == k + 1,
{
    let k = h.base.n_clusters;
    let n_meso = mesocluster_count(k);
    let p = h.base.meso_prepared(data, n, n_meso);
    lemma_phase_reported(
        p,
        p.samples(data, n, !p.config.data_already_rotated),
        no_counts(p.n_samples),
        0,
        h.config.iters_mesoclustering,
        true,
        never_prunes(p.d, p.config.use_blas_only, n_meso),
        p.config.early_termination,
        false,
    );
    let m = h.meso(data, n);
    let f = h.fine(data, n);
    lemma_fine_statistics(h, data, n);
    lemma_fine_reported(h, data, n);
    let runs = clustered(h.shares(data, n), 0);
    let each = h.config.iters_fineclustering;
    assert(runs * each <= n_meso * each) by (nonlinear_arith)
        requires
            runs <= n_meso,
            each >= 0,
    ;
    let r = Model {
        n_samples: m.n_samples,
        partial_d: refinement_partial_d(f.base.vertical_d),
        horizontal_centroids: f.centroids,
        prev_centroids: f.centroids,
        assignments: f.assignments,
        centroid_norms: norms(f.centroids, f.base.n_clusters, f.base.d),
        ..f.base
    };
    if h.config.iters_refinement > 0 {
        lemma_phase_reported(
            r,
            m.samples(data, n, !m.config.data_already_rotated),
            no_counts(m.n_samples),
            0,
            h.config.iters_refinement,
            false,
            never_prunes(f.base.d, false, f.base.n_clusters),
            false,
            false,
        );
    }
    let seen = h.base.iteration_stats.len() as int;
    let after = h.refined(data, n);
    assert forall|i: int| 0 <= i < h.config.iters_refinement implies (#[trigger] h.trained_on(
        data,
        n,
    ).refinement[i]).iteration == i + 1 by {
        assert(h.trained_on(data, n).refinement[i] == after.iteration_stats[seen + i]);
    }
}

proof fn lemma_with_mesoclusters_statistics(
    f: Fine,
    samples: Seq<Single>,
    list: Seq<usize>,
    sizes: Seq<u32>,
    counts: Seq<usize>,
    all_norms: Seq<Single>,
    partial_d: u32,
    iters: u32,
    c: nat,
)
    ensures
        f.with_mesoclusters(samples, list, sizes, counts, all_norms, partial_d, iters, c).base.iteration_stats
            == f.base.iteration_stats,
    decreases counts.len() - c,
{
    if c < counts.len() {
        let from = size_sum(sizes, c) as int;
        let part = list.subrange(from, from + sizes[c as int]);
        let n_fine = counts[c as int] as nat;
        let next = if n_fine == 0 {
            f
        } else {
            f.with_mesocluster(samples, part, all_norms, n_fine, partial_d, iters)
        };
        lemma_with_mesoclusters_statistics(
            next,
            samples,
            list,
            sizes,
            counts,
            all_norms,
            partial_d,
            iters,
            c + 1,
        );
    }
}

/// Fine clustering keeps its statistics apart.
proof fn lemma_fine_statistics(h: Hierarchy, data: Seq<Single>, n: nat)
    ensures
        h.fine(data, n).base.iteration_stats == h.base.iteration_stats,
{
    let m = h.meso(data, n);
    let k = h.base.n_clusters;
    let n_meso = mesocluster_count(k);
    let samples = m.samples(data, n, !m.config.data_already_rotated);
    lemma_with_mesoclusters_statistics(
        Fine {
            base: Model { n_clusters: k, iteration_stats: h.base.iteration_stats, ..m },
            centroids: zeros(k * m.d),
            assignments: no_members(m.n_samples),
            stats: Seq::empty(),
            offset: 0,
        },
        samples,
        sample_list(m.assignments, m.cluster_sizes, m.n_samples, m.n_samples),
        m.cluster_sizes,
        fine_counts(
            m.cluster_sizes.take(n_meso as int),
            n_meso,
            0,
            k,
            m.n_samples,
            nonempty(m.cluster_sizes.take(n_meso as int), 0, n_meso),
        ),
        norms(samples, m.n_samples, m.d),
        first_partial_d(m.vertical_d) as u32,
        h.config.iters_fineclustering,
        0,
    );
}

/// The pruning search over all batches finds one of the candidates.
proof fn lemma_refined_in_range(p: Refinement, i: int, s: Refined, j: int)
    requires
        0 <= j,
        0 < p.n_y <= u32::MAX,
        s.best.index < p.n_y,
    ensures
        p.refined_from(i, s, j).best.index < p.n_y,
    decreases p.n_y - j,
{
    if j < p.n_y {
        let d = p.d as int;
        let n = tile(p.n_y as int, j);
        let query = p.x.subrange(i * d, i * d + d);
        law_found_in_batch(
            p.ratios,
            query,
            p.y.subrange(j * d, j * d + n * d),
            n as nat,
            d,
            p.vertical_d as int,
            p.horizontal_d as int,
            Seq::new(n as nat, |c: int| p.partial_distance(i, j + c)),
            p.partial_d as int,
            s.best.index,
            if j == 0 {
                l2_distance(
                    p.y.subrange(s.best.index * d, s.best.index * d + d),
                    query,
                )
            } else {
                s.best.distance
            },
            j,
        );
        lemma_refined_in_range(p, i, p.with_tile(i, s, j), j + n);
    }
}

/// What an iteration leaves: every sample in a cluster, sizes that add up to the number of
/// samples, and, where nothing was split, sizes that are the numbers of members.
pub open spec fn consistent(m: Model) -> bool {
    &&& m.assigned()
    &&& size_sum(m.cluster_sizes, m.n_clusters) == m.n_samples
    &&& m.n_split == 0 ==> sizes_are_counts(m.assignments, m.cluster_sizes, m.n_clusters, m.n_samples)
}

/// The tables are long enough for the clusters and samples.
pub open spec fn roomy(m: Model) -> bool {
    &&& 0 < m.n_clusters <= u32::MAX
    &&& m.n_samples <= u32::MAX
    &&& m.n_clusters <= m.cluster_sizes.len()
    &&& m.n_samples <= m.assignments.len()
}

pub(crate) proof fn lemma_iterated_consistent(m: Model, data: Seq<Single>, iter: u32, first: bool, gemm_only: bool, counts: Seq<usize>)
    requires
        roomy(m),
        gemm_only || m.assigned(),
    ensures
        consistent(m.iterated(data, iter, first, gemm_only, counts).0),
        roomy(m.iterated(data, iter, first, gemm_only, counts).0),
        m.iterated(data, iter, first, gemm_only, counts).0.n_clusters == m.n_clusters,
        m.iterated(data, iter, first, gemm_only, counts).0.n_samples == m.n_samples,
{
    let m0 = if first {
        m
    } else {
        m.exchanged()
    };
    let a = if gemm_only {
        m0.assigned_by_products(data)
    } else {
        m0.assigned_by_pruning(data)
    };
    assert forall|i: int| 0 <= i < m.n_samples implies #[trigger] a.assignments[i] < m.n_clusters by {
        if gemm_only {
            let p = Problem {
                x: data,
                y: m0.prev_centroids,
                n_y: m0.n_clusters,
                d: m0.d,
                norms_x: m0.data_norms,
                norms_y: a.centroid_norms,
            };
            lemma_nearest_in_range(p, i, KnnCandidate { index: 0, distance: Single { bits: LARGEST } }, 0);
        } else {
            assert(m.assignments[i] < m.n_clusters);
            lemma_refined_in_range(
                m0.refinement(data),
                i,
                Refined {
                    best: KnnCandidate { index: m0.assignments[i], distance: m0.distances[i] },
                    not_pruned: 0,
                },
                0,
            );
        }
    }
    let g = a.gathered(data);
    let zero = no_members(a.cluster_sizes.len());
    lemma_counted_total(zero, a.assignments, m.n_clusters, m.n_samples);
    assert forall|c: int| 0 <= c < m.n_clusters implies #[trigger] g.cluster_sizes[c] == members(
        a.assignments,
        c,
        m.n_samples,
    ) by {
        lemma_members_bound(a.assignments, c, m.n_samples);
    }
    let c0 = Clusters {
        centroids: averaged(g.horizontal_centroids, g.cluster_sizes, m.d as int),
        sizes: g.cluster_sizes,
        stream: RandomStream::start(m.config.seed),
        split: 0,
    };
    let rest = surplus(m.n_samples, m.n_clusters);
    let average = average_size(m.n_samples, m.n_clusters);
    let full = c0.filled_from(m.d as int, m.n_clusters, rest, 0);
    lemma_filled_keeps_total(c0, m.d as int, m.n_clusters, rest, 0);
    law_without_splits_sizes_stay(c0, m.d as int, m.n_clusters, rest, 0);
    lemma_pulled_keeps_sizes(full, m.d as int, m.n_samples, m.n_clusters, average, 0);
    lemma_pulled_split(full, m.d as int, m.n_samples, m.n_clusters, average, 0);
}

pub(crate) proof fn lemma_phase_consistent(
    m: Model,
    data: Seq<Single>,
    counts: Seq<usize>,
    iter: u32,
    iters: u32,
    fresh: bool,
    products_only: bool,
    early: bool,
    partial: bool,
)
    requires
        iter < iters,
        roomy(m),
        (fresh && iter == 0) || m.assigned(),
    ensures
        consistent(m.phase_from(data, counts, iter, iters, fresh, products_only, early, partial).0),
        m.phase_from(data, counts, iter, iters, fresh, products_only, early, partial).0.n_clusters == m.n_clusters,
        m.phase_from(data, counts, iter, iters, fresh, products_only, early, partial).0.n_samples == m.n_samples,
    decreases iters - iter,
{
    let first = fresh && iter == 0;
    let gemm_only = first || products_only;
    let m0 = if !gemm_only && !partial {
        Model {
            data_norms: partial_norms(data, m.n_samples, m.d, m.partial_d as nat),
            ..m
        }
    } else {
        m
    };
    lemma_iterated_consistent(m0, data, iter, first, gemm_only, counts);
    let (m1, counts1) = m0.iterated(data, iter, first, gemm_only, counts);
    let next = (iter + 1) as u32;
    let rest = partial || !gemm_only;
    if !(early && m1.converged(iter)) && iter + 1 < iters {
        lemma_phase_consistent(m1, data, counts1, next, iters, fresh, products_only, early, rest);
    } else if !(early && m1.converged(iter)) {
        assert(m1.phase_from(data, counts1, next, iters, fresh, products_only, early, rest).0 == m1);
    }
}

/// After training every sample is in a cluster, and the sizes add up to the number of samples;
/// where the last iteration split no cluster, they are the numbers of members.
pub proof fn law_trained_consistently(m: Model, data: Seq<Single>, n: nat)
    requires
        m.trainable(data.len(), n),
    ensures
        consistent(m.trained_on(data, n)),
{
    lemma_share(n, m.config.sampling_fraction, usize::MAX as nat);
    let p = m.prepared(data, n);
    lemma_phase_consistent(
        p,
        p.samples(data, n, !p.config.data_already_rotated),
        no_counts(p.n_samples),
        0,
        p.config.iters,
        true,
        never_prunes(p.d, p.config.use_blas_only, p.n_clusters),
        p.config.early_termination,
        false,
    );
}

/// The samples of the mesoclusters can be listed wherever the last iteration split no mesocluster.
pub proof fn law_unsplit_mesoclusters_list(h: Hierarchy, data: Seq<Single>, n: nat)
    requires
        h.trainable(data.len(), n),
        h.meso(data, n).n_split == 0,
    ensures
        h.lists(data, n),
{
    let n_meso = mesocluster_count(h.base.n_clusters);
    lemma_mesocluster_count(h.base.n_clusters);
    lemma_share(n, h.base.config.sampling_fraction, usize::MAX as nat);
    let p = h.base.meso_prepared(data, n, n_meso);
    lemma_phase_consistent(
        p,
        p.samples(data, n, !p.config.data_already_rotated),
        no_counts(p.n_samples),
        0,
        h.config.iters_mesoclustering,
        true,
        never_prunes(p.d, p.config.use_blas_only, n_meso),
        p.config.early_termination,
        false,
    );
    let m = h.meso(data, n);
    law_counted_samples_fit(m.assignments, m.cluster_sizes, n_meso, m.n_samples);
}

/// What splitting does to a clustering whose sizes add up to the number of samples: they still do.
/// Each split fills one empty cluster. No cluster is left empty exactly where there were as many
/// splits as empty ones, which is so exactly where every search for a donor ends. Where none was
/// empty, nothing changes. All else stays.
pub proof fn law_split_clusters(m: Model, n_samples: nat, n_clusters: nat)
    requires
        n_clusters <= m.cluster_sizes.len(),
        size_sum(m.cluster_sizes, n_clusters) == n_samples,
        !m.config.use_aggressive_split,
    ensures
        ({
            let r = m.with_splits(n_samples, n_clusters);
            let empty = empty_clusters(m.cluster_sizes, n_clusters);
            &&& size_sum(r.cluster_sizes, n_clusters) == n_samples
            &&& r.n_split + empty_clusters(r.cluster_sizes, n_clusters) == empty
            &&& r.n_split == empty <==> forall|c: int| 0 <= c < n_clusters ==> #[trigger] r.cluster_sizes[c] > 0
            &&& r.n_split == empty <==> donors_found(
                m.clusters(),
                m.d as int,
                n_clusters,
                surplus(n_samples, n_clusters),
                0,
            )
            &&& empty == 0 ==> {
                &&& r.cluster_sizes == m.cluster_sizes
                &&& r.horizontal_centroids == m.horizontal_centroids
                &&& r.n_split == 0
            }
            &&& r == (Model {
                cluster_sizes: r.cluster_sizes,
                horizontal_centroids: r.horizontal_centroids,
                n_split: r.n_split,
                ..m
            })
        }),
{
    let d = m.d as int;
    let c = m.clusters();
    let rest = surplus(n_samples, n_clusters);
    lemma_filled_keeps_total(c, d, n_clusters, rest, 0);
    law_each_split_fills_one(c, d, n_samples, n_clusters, 0);
    law_filled_where_donors_found(c, d, n_samples, n_clusters);
    lemma_none_empty(c.filled_from(d, n_clusters, rest, 0).sizes, n_clusters);
    if empty_clusters(m.cluster_sizes, n_clusters) == 0 {
        lemma_none_empty(m.cluster_sizes, n_clusters);
        law_nothing_to_fill(c, d, n_clusters, rest, 0);
    }
}

/// Assigning training points never gives a point a worse centroid than it starts from: it keeps
/// that one, or gets one whose distance is measured to be smaller. After training on all vectors
/// each point starts from the centroid that training gave it.
pub proof fn law_training_points_never_worse(m: Model, vectors: Seq<Single>, centroids: Seq<Single>, n: nat, i: int)
    requires
        m.fitted(),
        ({
            let k = centroids.len() / m.d;
            let seed = m.starting_points(vectors, centroids, n)[i];
            &&& !never_prunes(m.d, m.config.use_blas_only, k)
            &&& k <= m.n_clusters
            &&& seed < k
            &&& m.assigning(vectors, k, n).known_distance(i, seed as int).is_number()
        }),
        n * m.d <= vectors.len(),
        n <= m.starting_points(vectors, centroids, n).len(),
        0 <= i < n,
    ensures
        ({
            let k = centroids.len() / m.d;
            let p = m.assigning(vectors, k, n);
            let seed = m.starting_points(vectors, centroids, n)[i];
            let found = m.training_points(vectors, centroids, n)[i];
            &&& found < k
            &&& found == seed || p.measured_distance(i, found as int).below(p.known_distance(i, seed as int))
            &&& m.config.sampling_fraction == (Single { bits: ONE }) && n <= m.n_samples ==> seed == m.assignments[i]
        }),
{
    let k = centroids.len() / m.d;
    let p = m.assigning(vectors, k, n);
    let seed = m.starting_points(vectors, centroids, n)[i];
    let d = m.d as int;
    lemma_row(i, n as int, d);
    assert(k * d <= m.n_clusters * d) by (nonlinear_arith)
        requires
            k <= m.n_clusters,
            d >= 0,
    ;
    assert(p.fits(i));
    law_refinement_never_worse(p, i, seed, zeros(n)[i], 0);
}

/// After training on all vectors, a training point keeps the centroid that training gave it, or gets
/// one whose distance is measured to be smaller.
pub proof fn law_trained_points_never_worse(m: Model, vectors: Seq<Single>, centroids: Seq<Single>, n: nat, i: int)
    requires
        m.fitted(),
        m.config.sampling_fraction == (Single { bits: ONE }),
        !never_prunes(m.d, m.config.use_blas_only, m.n_clusters),
        centroids.len() == m.n_clusters * m.d,
        n * m.d <= vectors.len(),
        0 <= i < n <= m.n_samples,
        m.assigning(vectors, m.n_clusters, n).known_distance(i, m.assignments[i] as int).is_number(),
    ensures
        ({
            let p = m.assigning(vectors, m.n_clusters, n);
            let found = m.training_points(vectors, centroids, n)[i];
            &&& m.training_points(vectors, centroids, n).len() == n
            &&& found < m.n_clusters
            &&& found == m.assignments[i] || p.measured_distance(i, found as int).below(
                p.known_distance(i, m.assignments[i] as int),
            )
        }),
{
    vstd::arithmetic::div_mod::lemma_div_by_multiple(m.n_clusters as int, m.d as int);
    assert(m.assignments[i] < m.n_clusters);
    law_training_points_never_worse(m, vectors, centroids, n, i);
}

} // verus!
