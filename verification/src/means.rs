//! What an iteration of k-means does: every sample goes to a nearest centroid, and every centroid
//! becomes the mean of its samples.
use crate::batch::Problem;
use crate::centroids::{
    averaged, cluster_sum, lemma_members_bound, members, norms, partial_norms, row_shift, total, total_shift,
};
use crate::common::{lemma_cell, lemma_row};
use crate::errors::{
    close, lemma_close_cancelled, lemma_close_chain, lemma_close_scaled, lemma_close_symmetric, lemma_factors_finite,
    lemma_integer_error,
};
use crate::exact::{
    gap_sum, is_whole, lemma_gap_bound, lemma_room, lemma_whole_order, lemma_whole_plus,
    lemma_whole_squared_difference, lemma_zero, whole_table,
};
use crate::lengths::{lemma_inverse_error, lemma_product_error, lemma_sum_error, magnitude, near};
use crate::numbers::lemma_terms_finite;
use crate::pruning::{law_exact_on_integers, law_refinement_never_worse, lemma_clamped, on_integers};
use crate::rotations::values_of;
use crate::searches::law_searches_agree_on_integers;
use crate::single::{lemma_below, Single, ONE, ZERO};
use crate::splitting::Clusters;
use crate::superkmeans::{never_prunes, no_counts, Model};
use vstd::arithmetic::power2::*;
use vstd::prelude::*;

verus! {

/// The sum of entry `j` over those of the first `m` samples that belong to cluster `c`, exact.
pub open spec fn member_sum(u: Seq<int>, assignments: Seq<u32>, d: int, c: int, j: int, m: nat) -> int
    decreases m,
{
    if m == 0 {
        0
    } else {
        member_sum(u, assignments, d, c, j, (m - 1) as nat) + if assignments[m - 1] == c {
            u[(m - 1) * d + j]
        } else {
            0
        }
    }
}

/// The same sum without signs.
pub open spec fn unsigned_member_sum(u: Seq<int>, assignments: Seq<u32>, d: int, c: int, j: int, m: nat) -> int
    decreases m,
{
    if m == 0 {
        0
    } else {
        unsigned_member_sum(u, assignments, d, c, j, (m - 1) as nat) + if assignments[m - 1] == c {
            magnitude(u[(m - 1) * d + j])
        } else {
            0
        }
    }
}

/// One more sample: how the errors add up.
proof fn lemma_sample_error(s0: int, s1: int, x: int, a: int, v: int, n: int)
    requires
        1 <= n <= 0x40_0000,
        magnitude(x) <= a,
        near(s0, x, 2 * (n - 1) * a),
        near(s1, s0 + v, magnitude(s1)),
    ensures
        near(s1, x + v, 2 * n * (a + magnitude(v))),
{
    let m = magnitude(v);
    let b = a + m;
    let e = magnitude(s1 - (x + v));
    let na = n * a;
    let nm = n * m;
    assert(2 * (n - 1) * a == 2 * na - 2 * a && 2 * n * b == 2 * na + 2 * nm && m <= nm && na <= 0x40_0000 * a && nm
        <= 0x40_0000 * m) by (nonlinear_arith)
        requires
            na == n * a,
            nm == n * m,
            b == a + m,
            1 <= n <= 0x40_0000,
            m >= 0,
            a >= 0,
    ;
    assert(magnitude(s1) <= b + e);
    assert(0x100_0000 * e <= 2 * na - 2 * a + b + e);
    assert(e <= b);
}

/// What the sum of the members of a cluster is off by.
proof fn lemma_cluster_sum_error(data: Seq<Single>, u: Seq<int>, assignments: Seq<u32>, d: int, c: int, j: int, m: nat)
    requires
        values_of(data, u),
        0 <= j < d,
        m * d <= data.len(),
        m <= 0x40_0000,
        cluster_sum(Single { bits: ZERO }, data, assignments, d, c, j, m).is_finite(),
    ensures
        ({
            let s = cluster_sum(Single { bits: ZERO }, data, assignments, d, c, j, m);
            let a = unsigned_member_sum(u, assignments, d, c, j, m);
            &&& near(s.units(), member_sum(u, assignments, d, c, j, m), 2 * members(assignments, c, m) * a)
            &&& magnitude(member_sum(u, assignments, d, c, j, m)) <= a
        }),
    decreases m,
{
    let zero = Single { bits: ZERO };
    if m == 0 {
        lemma_zero();
        assert(0 * pow2(149) == 0);
        assert(2 * 0 * 0 == 0int) by (nonlinear_arith);
    } else {
        let s1 = cluster_sum(zero, data, assignments, d, c, j, m);
        let s0 = cluster_sum(zero, data, assignments, d, c, j, (m - 1) as nat);
        lemma_row(m - 1, m as int, d);
        assert((m - 1) * d <= m * d);
        lemma_members_bound(assignments, c, m);
        if assignments[m - 1] == c {
            let x = data[(m - 1) * d + j];
            lemma_terms_finite(s0, x);
            lemma_cluster_sum_error(data, u, assignments, d, c, j, (m - 1) as nat);
            lemma_sum_error(s0, x);
            assert(u[(m - 1) * d + j] == x.units());
            lemma_sample_error(
                s0.units(),
                s1.units(),
                member_sum(u, assignments, d, c, j, (m - 1) as nat),
                unsigned_member_sum(u, assignments, d, c, j, (m - 1) as nat),
                x.units(),
                members(assignments, c, m) as int,
            );
        } else {
            lemma_cluster_sum_error(data, u, assignments, d, c, j, (m - 1) as nat);
        }
    }
}

/// What a number divided by a count is off by, as it is done: times one over the count.
proof fn lemma_share_error(s: Single, n: nat)
    requires
        0 < n <= u32::MAX,
        s.times((Single { bits: ONE }).over(Single::from_nat(n))).is_finite(),
    ensures
        ({
            let r = s.times((Single { bits: ONE }).over(Single::from_nat(n)));
            &&& s.is_finite()
            &&& near(r.units() * n, s.units(), 8 * magnitude(s.units()) + 0x80_0000 * n)
        }),
{
    let t = pow2(149) as int;
    lemma_pow2_pos(149);
    let b = Single::from_nat(n);
    let g = (Single { bits: ONE }).over(b);
    let r = s.times(g);
    lemma_integer_error(n);
    lemma_factors_finite(s, g);
    lemma_pow2_strictly_increases(100, 148);
    lemma_pow2_adds(32, 149);
    lemma_pow2_adds(1, 181);
    lemma2_to64();
    lemma_pow2_strictly_increases(182, 270);
    let k = b.units();
    let nt = n * t;
    assert(0 < nt <= pow2(181)) by (nonlinear_arith)
        requires
            nt == n * t,
            0 < n <= 0xffff_ffff,
            pow2(181) == 0x1_0000_0000 * t,
            t > 0,
    ;
    assert(k <= pow2(182));
    lemma_inverse_error(b);
    let z = g.units();
    let one = t * t;
    assert(one > 0) by (nonlinear_arith)
        requires
            one == t * t,
            t > 0,
    ;
    // z * n is close to t.
    lemma_close_symmetric(k, nt, 1);
    lemma_close_scaled(nt, k, 2, z);
    assert(close(z * k, one, 1));
    lemma_close_chain(z * nt, z * k, one, 2, 1);
    assert(z * nt == (z * n) * t) by (nonlinear_arith)
        requires
            nt == n * t,
    ;
    lemma_close_cancelled(z * n, t, 4, t);
    // The product.
    lemma_product_error(s, g);
    let x = s.units();
    let y = r.units();
    lemma_shared(x, y, z, n as int, t);
}

proof fn lemma_shared(x: int, y: int, z: int, n: int, t: int)
    requires
        0 < t,
        0 < n,
        0 <= z,
        close(z * n, t, 4),
        near(y * t, x * z, magnitude(x * z) + 0x80_0000 * t),
    ensures
        near(y * n, x, 8 * magnitude(x) + 0x80_0000 * n),
{
    let m = magnitude(x);
    let p = z * n;
    // All times n: y t n is near x p.
    let a = y * t * n;
    let b = x * p;
    assert(near(a, b, magnitude(b) + 0x80_0000 * t * n)) by {
        assert((x * z) * n == b) by (nonlinear_arith)
            requires
                b == x * p,
                p == z * n,
        ;
        assert(magnitude(x * z) * n == magnitude(b)) by (nonlinear_arith)
            requires
                (x * z) * n == b,
                n > 0,
        ;
        assert(near(y * t * n, (x * z) * n, magnitude(x * z) * n + 0x80_0000 * t * n)) by (nonlinear_arith)
            requires
                near(y * t, x * z, magnitude(x * z) + 0x80_0000 * t),
                n > 0,
        ;
    }
    let xt = x * t;
    let mt = m * t;
    assert(mt >= 0 && magnitude(xt) == mt) by (nonlinear_arith)
        requires
            mt == m * t,
            m == magnitude(x),
            xt == x * t,
            t > 0,
    ;
    assert(near(b, xt, 4 * mt)) by (nonlinear_arith)
        requires
            near(p, t, 4 * t),
            b == x * p,
            xt == x * t,
            mt == m * t,
            m == magnitude(x),
    ;
    assert(magnitude(b) <= 2 * mt);
    assert(near(a, xt, 6 * mt + 0x80_0000 * t * n));
    assert(near(y * n, x, 8 * m + 0x80_0000 * n)) by (nonlinear_arith)
        requires
            near(a, xt, 6 * mt + 0x80_0000 * t * n),
            a == y * t * n,
            xt == x * t,
            mt == m * t,
            m >= 0,
            t > 0,
    ;
}

/// Each centroid of a cluster with members is the mean of its members, but for rounding: times the
/// number of members it differs from their sum by at most about `2^-23` for each of them, relative
/// to the sum without signs.
pub open spec fn centroids_are_means(m: Model, data: Seq<Single>, u: Seq<int>) -> bool {
    forall|c: int, j: int|
        0 <= c < m.n_clusters && 0 <= j < m.d && members(m.assignments, c, m.n_samples) > 0
            && #[trigger] m.horizontal_centroids[c * m.d + j].is_finite() ==> near(
            m.horizontal_centroids[c * m.d + j].units() * members(m.assignments, c, m.n_samples),
            member_sum(u, m.assignments, m.d as int, c, j, m.n_samples),
            (2 * members(m.assignments, c, m.n_samples) + 12) * unsigned_member_sum(
                u,
                m.assignments,
                m.d as int,
                c,
                j,
                m.n_samples,
            ) + 0x80_0000 * members(m.assignments, c, m.n_samples),
        )
}

/// Where nothing was split, the rows stay.
proof fn lemma_unsplit_rows(c: Clusters, d: int, n_clusters: nat, surplus: Single, ci: nat)
    ensures
        ({
            let r = c.filled_from(d, n_clusters, surplus, ci);
            r.split >= c.split && (r.split == c.split ==> r.centroids == c.centroids && r.sizes == c.sizes)
        }),
    decreases n_clusters - ci,
{
    if ci < n_clusters {
        lemma_unsplit_rows(c.with_donor(d, n_clusters, surplus, ci as int), d, n_clusters, surplus, ci + 1);
    }
}

proof fn lemma_unpulled_rows(c: Clusters, d: int, n_samples: nat, n_clusters: nat, average: Single, ci: nat)
    ensures
        ({
            let r = c.pulled_from(d, n_samples, n_clusters, average, ci);
            r.split >= c.split && (r.split == c.split ==> r.centroids == c.centroids && r.sizes == c.sizes)
        }),
    decreases n_clusters - ci,
{
    if ci < n_clusters {
        lemma_unpulled_rows(
            c.with_pull(d, n_samples, n_clusters, average, ci as int),
            d,
            n_samples,
            n_clusters,
            average,
            ci + 1,
        );
    }
}

/// After an iteration that split no cluster, the centroids are the means of their samples, and the
/// sizes are the numbers of them.
pub proof fn law_iteration_makes_means(
    m: Model,
    data: Seq<Single>,
    u: Seq<int>,
    iter: u32,
    first: bool,
    gemm_only: bool,
    counts: Seq<usize>,
)
    requires
        0 < m.d,
        values_of(data, u),
        m.n_samples * m.d <= data.len(),
        m.n_samples <= 0x40_0000,
        m.n_clusters <= m.cluster_sizes.len(),
        m.n_clusters * m.d <= m.horizontal_centroids.len(),
        m.n_clusters * m.d <= m.prev_centroids.len(),
        !m.config.angular,
        m.iterated(data, iter, first, gemm_only, counts).0.n_split == 0,
    ensures
        centroids_are_means(m.iterated(data, iter, first, gemm_only, counts).0, data, u),
        forall|c: int|
            0 <= c < m.n_clusters ==> #[trigger] m.iterated(data, iter, first, gemm_only, counts).0.cluster_sizes[c]
                == members(m.iterated(data, iter, first, gemm_only, counts).0.assignments, c, m.n_samples),
{
    let r = m.iterated(data, iter, first, gemm_only, counts).0;
    let m0 = if first {
        m
    } else {
        m.exchanged()
    };
    let a = if gemm_only {
        m0.assigned_by_products(data)
    } else {
        m0.assigned_by_pruning(data)
    };
    let g = a.gathered(data);
    let d = m.d as int;
    let zero = Single { bits: ZERO };
    let c0 = (Model { horizontal_centroids: averaged(g.horizontal_centroids, g.cluster_sizes, d), ..g }).clusters();
    let rest = crate::splitting::surplus(m.n_samples, m.n_clusters);
    let average = crate::splitting::average_size(m.n_samples, m.n_clusters);
    let full = c0.filled_from(d, m.n_clusters, rest, 0);
    lemma_unsplit_rows(c0, d, m.n_clusters, rest, 0);
    lemma_unpulled_rows(full, d, m.n_samples, m.n_clusters, average, 0);
    assert(r.horizontal_centroids == c0.centroids);
    assert(r.cluster_sizes == g.cluster_sizes);
    assert(r.assignments == a.assignments);
    assert forall|c: int| 0 <= c < m.n_clusters implies #[trigger] r.cluster_sizes[c] == members(
        r.assignments,
        c,
        m.n_samples,
    ) by {
        lemma_members_bound(a.assignments, c, m.n_samples);
    }
    assert forall|c: int, j: int|
        0 <= c < m.n_clusters && 0 <= j < m.d && members(r.assignments, c, r.n_samples) > 0
            && #[trigger] r.horizontal_centroids[c * m.d + j].is_finite() implies near(
        r.horizontal_centroids[c * m.d + j].units() * members(r.assignments, c, r.n_samples),
        member_sum(u, r.assignments, d, c, j, r.n_samples),
        (2 * members(r.assignments, c, r.n_samples) + 12) * unsigned_member_sum(
            u,
            r.assignments,
            d,
            c,
            j,
            r.n_samples,
        ) + 0x80_0000 * members(r.assignments, c, r.n_samples),
    ) by {
        let n = members(r.assignments, c, m.n_samples);
        lemma_members_bound(r.assignments, c, m.n_samples);
        lemma_row(c, m.n_clusters as int, d);
        lemma_cell(c, j, d);
        assert(r.cluster_sizes[c] == n);
        let s = cluster_sum(zero, data, r.assignments, d, c, j, m.n_samples);
        assert(g.horizontal_centroids[c * d + j] == s);
        lemma_share_error(s, n);
        lemma_cluster_sum_error(data, u, r.assignments, d, c, j, m.n_samples);
        lemma_mean(
            r.horizontal_centroids[c * d + j].units() * n,
            s.units(),
            member_sum(u, r.assignments, d, c, j, m.n_samples),
            unsigned_member_sum(u, r.assignments, d, c, j, m.n_samples),
            n as int,
        );
    }
}

proof fn lemma_mean(y: int, s: int, x: int, a: int, n: int)
    requires
        1 <= n <= 0x40_0000,
        magnitude(x) <= a,
        near(s, x, 2 * n * a),
        near(y, s, 8 * magnitude(s) + 0x80_0000 * n),
    ensures
        near(y, x, (2 * n + 12) * a + 0x80_0000 * n),
{
    let na = n * a;
    assert(2 * n * a == 2 * na && (2 * n + 12) * a == 2 * na + 12 * a && na <= 0x40_0000 * a) by (nonlinear_arith)
        requires
            na == n * a,
            1 <= n <= 0x40_0000,
            a >= 0,
    ;
    assert(2 * magnitude(s) <= 3 * a);
}

/// What the iterations of a phase leave.
proof fn lemma_phase_makes_means(
    m: Model,
    data: Seq<Single>,
    u: Seq<int>,
    counts: Seq<usize>,
    iter: u32,
    iters: u32,
    fresh: bool,
    products_only: bool,
    early: bool,
    partial: bool,
    k: nat,
    n: nat,
)
    requires
        iter < iters,
        0 < m.d,
        values_of(data, u),
        m.n_samples * m.d <= data.len(),
        m.n_samples <= 0x40_0000,
        crate::ranges::spacious(m, k, n),
        m.n_clusters <= k,
        !m.config.angular,
        m.phase_from(data, counts, iter, iters, fresh, products_only, early, partial).0.n_split == 0,
    ensures
        centroids_are_means(m.phase_from(data, counts, iter, iters, fresh, products_only, early, partial).0, data, u),
    decreases iters - iter,
{
    let first = fresh && iter == 0;
    let gemm_only = first || products_only;
    let m0 = if !gemm_only && !partial {
        Model { data_norms: partial_norms(data, m.n_samples, m.d, m.partial_d as nat), ..m }
    } else {
        m
    };
    let (m1, counts1) = m0.iterated(data, iter, first, gemm_only, counts);
    let next = (iter + 1) as u32;
    let rest = partial || !gemm_only;
    crate::ranges::lemma_iterated_spacious(m0, data, iter, first, gemm_only, counts, k, n);
    assert(m.n_clusters * m.d <= k * m.d) by (nonlinear_arith)
        requires
            m.n_clusters <= k,
            m.d >= 0,
    ;
    if (early && m1.converged(iter)) || iter + 1 >= iters {
        if !(early && m1.converged(iter)) {
            assert(m1.phase_from(data, counts1, next, iters, fresh, products_only, early, rest).0 == m1);
        }
        law_iteration_makes_means(m0, data, u, iter, first, gemm_only, counts);
    } else {
        lemma_phase_makes_means(m1, data, u, counts1, next, iters, fresh, products_only, early, rest, k, n);
    }
}

/// Training ends with centroids that are the means of the samples assigned to them, where its last
/// iteration split no cluster and lengths do not count.
pub proof fn law_trained_centroids_are_means(m: Model, data: Seq<Single>, n: nat, u: Seq<int>)
    requires
        m.trainable(data.len(), n),
        m.sample_count(n) <= 0x40_0000,
        m.sample_count(n) <= n,
        !m.config.angular,
        m.trained_on(data, n).n_split == 0,
        values_of(m.prepared(data, n).samples(data, n, !m.config.data_already_rotated), u),
    ensures
        centroids_are_means(
            m.trained_on(data, n),
            m.prepared(data, n).samples(data, n, !m.config.data_already_rotated),
            u,
        ),
{
    let p = m.prepared(data, n);
    let samples = p.samples(data, n, !p.config.data_already_rotated);
    assert(p.n_samples * p.d <= n * p.d) by (nonlinear_arith)
        requires
            p.n_samples <= n,
            p.d >= 0,
    ;
    lemma_phase_makes_means(
        p,
        samples,
        u,
        no_counts(p.n_samples),
        0,
        p.config.iters,
        true,
        never_prunes(p.d, p.config.use_blas_only, p.n_clusters),
        p.config.early_termination,
        false,
        p.n_clusters,
        p.n_samples,
    );
    let r = p.phase_from(
        samples,
        no_counts(p.n_samples),
        0,
        p.config.iters,
        true,
        never_prunes(p.d, p.config.use_blas_only, p.n_clusters),
        p.config.early_termination,
        false,
    ).0;
    let t = m.trained_on(data, n);
    assert(t == (Model { trained: true, ..r }));
}

/// The centroids that an iteration starts from.
pub open spec fn centroids_before(m: Model, first: bool) -> Seq<Single> {
    if first {
        m.prev_centroids
    } else {
        m.horizontal_centroids
    }
}

/// An iteration over all distances, on short integers: every sample goes to a nearest one of the
/// centroids that the iteration starts from, and its distance is that to this centroid. The
/// centroids that it starts from are kept as the previous ones.
pub proof fn law_iteration_assigns_nearest(
    m: Model,
    data: Seq<Single>,
    iter: u32,
    first: bool,
    counts: Seq<usize>,
    vx: Seq<int>,
    vy: Seq<int>,
    bound: int,
    i: int,
    c: int,
)
    requires
        whole_table(data, vx, bound),
        whole_table(centroids_before(m, first), vy, bound),
        bound >= 0,
        4 * bound * bound * m.d < 0x100_0000,
        m.n_samples * m.d <= data.len(),
        m.n_clusters * m.d <= centroids_before(m, first).len(),
        0 < m.n_clusters <= u32::MAX,
        m.n_samples <= m.assignments.len(),
        m.n_samples <= m.distances.len(),
        m.data_norms == norms(data, m.n_samples, m.d),
        0 <= i < m.n_samples,
        0 <= c < m.n_clusters,
    ensures
        ({
            let r = m.iterated(data, iter, first, true, counts).0;
            let d = m.d as int;
            let gap = gap_sum(vx, i * d, vy, r.assignments[i] * d, 0, d);
            &&& r.prev_centroids == centroids_before(m, first)
            &&& r.assignments[i] < m.n_clusters
            &&& gap <= gap_sum(vx, i * d, vy, c * d, 0, d)
            &&& is_whole(r.distances[i], gap)
        }),
{
    let m0 = if first {
        m
    } else {
        m.exchanged()
    };
    let y = m0.prev_centroids;
    let p = Problem {
        x: data,
        y,
        n_y: m.n_clusters,
        d: m.d,
        norms_x: m.data_norms,
        norms_y: norms(y, m.n_clusters, m.d),
    };
    let r = m.iterated(data, iter, first, true, counts).0;
    assert(r.assignments[i] == p.nearest(i).index);
    assert(r.distances[i] == p.nearest(i).distance);
    law_nearest_on_integers(p, vx, vy, bound, m.n_samples, i, c);
}

/// The search by products, on short integers: a nearest candidate, the first of them, and its
/// distance.
pub proof fn law_nearest_on_integers(p: Problem, vx: Seq<int>, vy: Seq<int>, bound: int, n_x: nat, i: int, c: int)
    requires
        whole_table(p.x, vx, bound),
        whole_table(p.y, vy, bound),
        bound >= 0,
        4 * bound * bound * p.d < 0x100_0000,
        n_x * p.d <= p.x.len(),
        p.n_y * p.d <= p.y.len(),
        0 < p.n_y <= 0x1_0000_0000,
        p.norms_x == norms(p.x, n_x, p.d),
        p.norms_y == norms(p.y, p.n_y, p.d),
        0 <= i < n_x,
        0 <= c < p.n_y,
    ensures
        ({
            let r = p.nearest(i);
            let d = p.d as int;
            let gap = gap_sum(vx, i * d, vy, r.index * d, 0, d);
            &&& r.index < p.n_y
            &&& is_whole(r.distance, gap)
            &&& gap <= gap_sum(vx, i * d, vy, c * d, 0, d)
            &&& c < r.index ==> gap < gap_sum(vx, i * d, vy, c * d, 0, d)
        }),
{
    let d = p.d as int;
    let r = p.nearest(i);
    law_searches_agree_on_integers(p, vx, vy, bound, n_x, i);
    let q = crate::utils::plain_nearest(p.x, p.y, p.d, i, p.n_y);
    assert forall|b: int| 0 <= b < p.n_y implies is_whole(
        crate::utils::plain_distance(p.x, i * p.d, p.y, b * p.d, p.d),
        #[trigger] gap_sum(vx, i * d, vy, b * d, 0, d),
    ) && 0 <= gap_sum(vx, i * d, vy, b * d, 0, d) < 0x100_0000 by {
        lemma_row(i, n_x as int, d);
        lemma_row(b, p.n_y as int, d);
        crate::exact::lemma_whole_plain_distance(p.x, vx, i * d, p.y, vy, b * d, p.d, bound, d);
        crate::exact::lemma_whole_part(p.x, vx, i * d, p.y, vy, b * d, 0, d, bound, d);
    }
    lemma_plain_on_integers(p, vx, vy, i, p.n_y, c);
    let at = r.index as int;
    let there = p.distance(i, at);
    assert(is_whole(there, gap_sum(vx, i * d, vy, at * d, 0, d)));
    crate::exact::lemma_same_order_whole(q.1, gap_sum(vx, i * d, vy, at * d, 0, d), r.distance);
}

/// The search one by one, on short integers.
proof fn lemma_plain_on_integers(p: Problem, vx: Seq<int>, vy: Seq<int>, i: int, n: nat, c: int)
    requires
        0 < n <= p.n_y <= 0x1_0000_0000,
        0 <= c < n,
        forall|b: int|
            0 <= b < n ==> is_whole(
                crate::utils::plain_distance(p.x, i * p.d, p.y, b * p.d, p.d),
                #[trigger] gap_sum(vx, i * p.d, vy, b * p.d, 0, p.d as int),
            ) && 0 <= gap_sum(vx, i * p.d, vy, b * p.d, 0, p.d as int) < 0x100_0000,
    ensures
        ({
            let q = crate::utils::plain_nearest(p.x, p.y, p.d, i, n);
            let d = p.d as int;
            let gap = gap_sum(vx, i * d, vy, q.0 * d, 0, d);
            &&& q.0 < n
            &&& is_whole(q.1, gap)
            &&& gap <= gap_sum(vx, i * d, vy, c * d, 0, d)
            &&& c < q.0 ==> gap < gap_sum(vx, i * d, vy, c * d, 0, d)
        }),
    decreases n,
{
    let d = p.d as int;
    let dist = crate::utils::plain_distance(p.x, i * p.d, p.y, (n - 1) * p.d, p.d);
    let here = gap_sum(vx, i * d, vy, (n - 1) * d, 0, d);
    assert(is_whole(dist, here));
    if n == 1 {
        crate::exact::lemma_short_below_largest(dist, here);
        crate::searches::lemma_ends();
        let largest = Single { bits: crate::single::LARGEST };
        lemma_below(dist, largest);
        lemma_whole_order(dist, here, dist, here);
        assert(crate::utils::plain_nearest(p.x, p.y, p.d, i, 0) == (0u32, largest));
    } else {
        let m = (n - 1) as nat;
        lemma_plain_on_integers(p, vx, vy, i, m, if c < m {
            c
        } else {
            0
        });
        let before = crate::utils::plain_nearest(p.x, p.y, p.d, i, m);
        lemma_plain_on_integers(p, vx, vy, i, m, before.0 as int);
        let gap = gap_sum(vx, i * d, vy, before.0 * d, 0, d);
        lemma_below(dist, before.1);
        lemma_whole_order(dist, here, before.1, gap);
        lemma_whole_order(before.1, gap, dist, here);
    }
}

/// An iteration with pruning, on short integers: every sample keeps its centroid or goes to one that
/// is nearer, among the centroids that the iteration starts from; and its distance is that to it.
pub proof fn law_pruning_iteration_never_worse(
    m: Model,
    data: Seq<Single>,
    iter: u32,
    first: bool,
    counts: Seq<usize>,
    vx: Seq<int>,
    vy: Seq<int>,
    bound: int,
    i: int,
)
    requires
        whole_table(data, vx, bound),
        whole_table(centroids_before(m, first), vy, bound),
        bound >= 0,
        4 * bound * bound * m.d < 0x100_0000,
        m.n_samples * m.d <= data.len(),
        m.n_clusters * m.d <= centroids_before(m, first).len(),
        0 < m.n_clusters <= u32::MAX,
        m.n_samples <= m.assignments.len(),
        m.n_samples <= m.distances.len(),
        m.vertical_d + m.horizontal_d == m.d,
        m.partial_d <= m.vertical_d,
        m.data_norms == partial_norms(data, m.n_samples, m.d, m.partial_d as nat),
        0 <= i < m.n_samples,
        m.assignments[i] < m.n_clusters,
    ensures
        ({
            let r = m.iterated(data, iter, first, false, counts).0;
            let d = m.d as int;
            let gap = gap_sum(vx, i * d, vy, r.assignments[i] * d, 0, d);
            &&& r.prev_centroids == centroids_before(m, first)
            &&& r.assignments[i] < m.n_clusters
            &&& r.assignments[i] == m.assignments[i] || gap < gap_sum(vx, i * d, vy, m.assignments[i] * d, 0, d)
            &&& is_whole(r.distances[i], gap)
        }),
{
    let m0 = if first {
        m
    } else {
        m.exchanged()
    };
    let p = m0.refinement(data);
    let d = m.d as int;
    let r = m.iterated(data, iter, first, false, counts).0;
    let index = m.assignments[i];
    let best = p.refined(i, index, m0.distances[i], 0).best;
    assert(r.assignments[i] == best.index);
    assert(r.distances[i] == best.distance);
    lemma_row(i, m.n_samples as int, d);
    assert(p.fits(i));
    assert(on_integers(p, vx, vy, bound, m.n_samples));
    law_exact_on_integers(p, vx, vy, bound, m.n_samples, i, index as int);
    law_refinement_never_worse(p, i, index, m0.distances[i], 0);
    law_exact_on_integers(p, vx, vy, bound, m.n_samples, i, best.index as int);
    let start = p.known_distance(i, index as int);
    let found = p.measured_distance(i, best.index as int);
    let a = gap_sum(vx, i * d, vy, index * d, 0, d);
    let b = gap_sum(vx, i * d, vy, best.index * d, 0, d);
    lemma_whole_order(found, b, start, a);
    lemma_whole_order(start, a, found, b);
    lemma_below(found, start);
    lemma_clamped(found);
}

/// The sum of the first `n` integers.
pub open spec fn int_sum(v: Seq<int>, n: nat) -> int
    decreases n,
{
    if n == 0 {
        0
    } else {
        int_sum(v, (n - 1) as nat) + v[n - 1]
    }
}

/// The cost, on short integers: the sum of the distances.
pub proof fn law_total_on_integers(x: Seq<Single>, v: Seq<int>, n: nat)
    requires
        n <= x.len(),
        n <= v.len(),
        forall|i: int| 0 <= i < n ==> is_whole(x[i], #[trigger] v[i]) && 0 <= v[i],
        int_sum(v, n) < 0x100_0000,
    ensures
        is_whole(total(x, n), int_sum(v, n)),
        0 <= int_sum(v, n),
    decreases n,
{
    if n == 0 {
        lemma_zero();
    } else {
        lemma_int_sum_grows(v, n);
        law_total_on_integers(x, v, (n - 1) as nat);
        lemma_whole_plus(total(x, (n - 1) as nat), int_sum(v, (n - 1) as nat), x[n - 1], v[n - 1]);
    }
}

proof fn lemma_int_sum_grows(v: Seq<int>, n: nat)
    requires
        0 < n <= v.len(),
        forall|i: int| 0 <= i < n ==> 0 <= #[trigger] v[i],
    ensures
        int_sum(v, (n - 1) as nat) <= int_sum(v, n),
{
    assert(v[n - 1] >= 0);
}

/// The squared distances of the first `n` rows of two integer tables, added up.
pub open spec fn moved(v: Seq<int>, w: Seq<int>, d: int, n: nat) -> int
    decreases n,
{
    if n == 0 {
        0
    } else {
        moved(v, w, d, (n - 1) as nat) + gap_sum(v, (n - 1) * d, w, (n - 1) * d, 0, d)
    }
}

proof fn lemma_row_shift_on_integers(a: Seq<Single>, v: Seq<int>, b: Seq<Single>, w: Seq<int>, at: int, n: nat, bound: int, d: int)
    requires
        whole_table(a, v, bound),
        whole_table(b, w, bound),
        bound >= 0,
        n <= d,
        4 * bound * bound * d < 0x100_0000,
        0 <= at,
        at + n <= a.len(),
        at + n <= b.len(),
    ensures
        is_whole(row_shift(a, b, at, n), gap_sum(v, at, w, at, 0, n as int)),
        0 <= gap_sum(v, at, w, at, 0, n as int) <= 4 * bound * bound * n,
    decreases n,
{
    lemma_gap_bound(v, at, w, at, 0, n as int, bound);
    lemma_room(bound, n as int, d);
    if n == 0 {
        lemma_zero();
    } else {
        lemma_row_shift_on_integers(a, v, b, w, at, (n - 1) as nat, bound, d);
        let x = at + n - 1;
        lemma_whole_squared_difference(a[x], v[x], b[x], w[x], bound);
        let y = a[x].minus(b[x]);
        let e = v[x] - w[x];
        lemma_whole_plus(
            row_shift(a, b, at, (n - 1) as nat),
            gap_sum(v, at, w, at, 0, n - 1),
            y.times(y),
            e * e,
        );
    }
}

/// How far the centroids have moved, on short integers: the squared distances between the new and
/// the old ones, added up.
pub proof fn law_shift_on_integers(a: Seq<Single>, v: Seq<int>, b: Seq<Single>, w: Seq<int>, d: nat, n: nat, bound: int)
    requires
        whole_table(a, v, bound),
        whole_table(b, w, bound),
        bound >= 0,
        4 * bound * bound * d < 0x100_0000,
        n * d <= a.len(),
        n * d <= b.len(),
        moved(v, w, d as int, n) < 0x100_0000,
    ensures
        is_whole(total_shift(a, b, d, n), moved(v, w, d as int, n)),
        0 <= moved(v, w, d as int, n),
    decreases n,
{
    if n == 0 {
        lemma_zero();
    } else {
        lemma_row(n - 1, n as int, d as int);
        lemma_row_shift_on_integers(a, v, b, w, (n - 1) * d, d, bound, d as int);
        law_shift_on_integers(a, v, b, w, d, (n - 1) as nat, bound);
        lemma_whole_plus(
            total_shift(a, b, d, (n - 1) as nat),
            moved(v, w, d as int, (n - 1) as nat),
            row_shift(a, b, (n - 1) * d, d),
            gap_sum(v, (n - 1) * d, w, (n - 1) * d, 0, d as int),
        );
    }
}

/// What an iteration reports, on short integers: as cost the sum of all distances that it leaves,
/// and as shift how far the centroids have moved from those that it started from.
pub proof fn law_iteration_reports(
    m: Model,
    data: Seq<Single>,
    iter: u32,
    first: bool,
    gemm_only: bool,
    counts: Seq<usize>,
    vd: Seq<int>,
    vn: Seq<int>,
    vo: Seq<int>,
    bound: int,
)
    ensures
        ({
            let r = m.iterated(data, iter, first, gemm_only, counts).0;
            &&& r.prev_cost == m.cost
            &&& r.n_samples == m.n_samples
            &&& (vd.len() == r.distances.len() && (forall|i: int|
                0 <= i < vd.len() ==> is_whole(r.distances[i], #[trigger] vd[i]) && 0 <= vd[i]) && int_sum(vd, vd.len())
                < 0x100_0000) ==> is_whole(r.cost, int_sum(vd, vd.len()))
            &&& (whole_table(r.horizontal_centroids, vn, bound) && whole_table(r.prev_centroids, vo, bound) && bound
                >= 0 && 4 * bound * bound * m.d < 0x100_0000 && m.n_clusters * m.d <= vn.len() && m.n_clusters * m.d
                <= vo.len() && moved(vn, vo, m.d as int, m.n_clusters) < 0x100_0000) ==> is_whole(
                r.shift,
                moved(vn, vo, m.d as int, m.n_clusters),
            )
        }),
{
    let r = m.iterated(data, iter, first, gemm_only, counts).0;
    if vd.len() == r.distances.len() && (forall|i: int|
        0 <= i < vd.len() ==> is_whole(r.distances[i], #[trigger] vd[i]) && 0 <= vd[i]) && int_sum(vd, vd.len())
        < 0x100_0000 {
        law_total_on_integers(r.distances, vd, vd.len());
    }
    if whole_table(r.horizontal_centroids, vn, bound) && whole_table(r.prev_centroids, vo, bound) && bound >= 0 && 4
        * bound * bound * m.d < 0x100_0000 && m.n_clusters * m.d <= vn.len() && m.n_clusters * m.d <= vo.len() && moved(
        vn,
        vo,
        m.d as int,
        m.n_clusters,
    ) < 0x100_0000 {
        law_shift_on_integers(r.horizontal_centroids, vn, r.prev_centroids, vo, m.d, m.n_clusters, bound);
    }
}

} // verus!
