//! What holds of the levels of a hierarchy, and of centroids on the unit sphere.
use crate::adsampling::sum_of_squares;
use crate::centroids::normalized;
use crate::common::lemma_row;
use crate::double::lemma_share;
use crate::exact::{is_whole, whole_table};
use crate::hierarchical::{hierarchical_sample_count, lemma_mesocluster_count, mesocluster_count, Hierarchy};
use crate::lengths::{exact_squares, law_normalized_length, near};
use crate::rng::shuffled;
use crate::rotations::law_rotated_on_integers;
use crate::settling::{lemma_phase_settled, settled};
use crate::single::{Single, EPSILON};
use crate::spaces::{integers_given, law_rotated_one_by_one, lemma_picked_row, space_entry};
use crate::superkmeans::{never_prunes, no_counts, overlaid, picked_rows, zeros, Model, SuperKMeansConfig};
use vstd::arithmetic::power2::*;
use vstd::prelude::*;

verus! {

/// The clustering into mesoclusters, on short integers: the distance of each sample is that to the
/// mesocluster that it was assigned to, and where all distances were measured, no other is nearer.
#[verifier::rlimit(30)]
pub proof fn law_mesoclusters_settled(h: Hierarchy, data: Seq<Single>, n: nat, vx: Seq<int>, vy: Seq<int>, bound: int)
    requires
        h.trainable(data.len(), n),
        ({
            let p = h.base.meso_prepared(data, n, mesocluster_count(h.base.n_clusters));
            whole_table(p.samples(data, n, !p.config.data_already_rotated), vx, bound)
        }),
        whole_table(h.meso(data, n).prev_centroids, vy, bound),
        bound >= 0,
        4 * bound * bound * h.base.d < 0x100_0000,
    ensures
        settled(
            h.meso(data, n),
            vx,
            vy,
            never_prunes(h.base.d, h.base.config.use_blas_only, mesocluster_count(h.base.n_clusters)),
        ),
{
    let k = h.base.n_clusters;
    let n_meso = mesocluster_count(k);
    lemma_mesocluster_count(k);
    lemma_share(n, h.base.config.sampling_fraction, usize::MAX as nat);
    let p = h.base.meso_prepared(data, n, n_meso);
    let samples = p.samples(data, n, !p.config.data_already_rotated);
    assert(n_meso * p.d <= k * p.d) by (nonlinear_arith)
        requires
            n_meso <= k,
            p.d >= 0,
    ;
    assert(p.n_samples * p.d <= n * p.d) by (nonlinear_arith)
        requires
            p.n_samples <= n,
            p.d >= 0,
    ;
    lemma_phase_settled(
        p,
        samples,
        no_counts(p.n_samples),
        0,
        h.config.iters_mesoclustering,
        true,
        never_prunes(p.d, p.config.use_blas_only, n_meso),
        p.config.early_termination,
        false,
        vx,
        vy,
        bound,
        k,
    );
}

/// The first centroids of the mesoclusters are vectors of the data, in the space of training.
#[verifier::rlimit(30)]
pub proof fn law_first_mesoclusters_in_space(
    m: Model,
    data: Seq<Single>,
    n: nat,
    n_meso: nat,
    v: Seq<int>,
    vm: Seq<int>,
    bv: int,
    bm: int,
    c: int,
    j: int,
)
    requires
        integers_given(m, data, n, v, vm, bv, bm),
        n_meso <= m.n_clusters,
        0 <= c < n_meso,
        0 <= j < m.d,
        shuffled(n, m.config.seed)[c] < n,
    ensures
        ({
            let p = m.meso_prepared(data, n, n_meso);
            let i = shuffled(n, m.config.seed)[c] as int;
            let e = space_entry(m.config.data_already_rotated, v, vm, m.d as int, i, j);
            &&& is_whole(p.prev_centroids[c * m.d + j], e)
            &&& is_whole(p.horizontal_centroids[c * m.d + j], e)
        }),
{
    let d = m.d as int;
    let order = shuffled(n, m.config.seed);
    let i = order[c] as int;
    lemma_row(c, n_meso as int, d);
    lemma_row(i, n as int, d);
    assert(n_meso * d <= m.n_clusters * d) by (nonlinear_arith)
        requires
            n_meso <= m.n_clusters,
            d >= 0,
    ;
    let rotate = !m.config.data_already_rotated;
    let room = m.room_for(hierarchical_sample_count(m.config.sampling_fraction, n));
    let a = Model { n_clusters: n_meso, ..room };
    let rows = picked_rows(data, order, m.d, n_meso);
    let picked = overlaid(a.horizontal_centroids, rows);
    assert forall|t: int| 0 <= t < d implies #[trigger] picked[c * d + t] == data[i * d + t] by {
        lemma_picked_row(data, order, m.d, n_meso, c, t);
    }
    assert(picked[c * d + j] == data[i * d + j]);
    let s = a.seeded(data, n, rotate);
    if m.config.data_already_rotated {
        assert(s.horizontal_centroids[c * d + j] == data[i * d + j]);
        assert(is_whole(data[i * d + j], v[i * d + j]));
    } else {
        law_rotated_one_by_one(m.pruner, picked, n_meso, c, data, n, i, j);
        law_rotated_on_integers(m.pruner, data, zeros(n * m.d), n, v, vm, bv, bm, i, j);
    }
}

/// The same clustering with centroids that stay as long as they are.
pub open spec fn not_angular(m: Model) -> Model {
    Model { config: SuperKMeansConfig { angular: false, ..m.config }, ..m }
}

/// With angular distances, an iteration brings each centroid to length 1, but for rounding: the
/// centroid that it would have without them is a finite number of at least 2^-23 long.
#[verifier::rlimit(30)]
pub proof fn law_angular_centroids(
    m: Model,
    data: Seq<Single>,
    iter: u32,
    first: bool,
    gemm_only: bool,
    counts: Seq<usize>,
    c: int,
)
    requires
        m.config.angular,
        0 < m.d <= u64::MAX,
        0 <= c < m.n_clusters,
        ({
            let plain = not_angular(m).iterated(data, iter, first, gemm_only, counts).0.horizontal_centroids;
            let length = sum_of_squares(plain, c * m.d, c * m.d + m.d).root();
            &&& m.n_clusters * m.d <= plain.len()
            &&& length.is_finite()
            &&& length.at_least(Single { bits: EPSILON })
        }),
    ensures
        near(
            exact_squares(m.iterated(data, iter, first, gemm_only, counts).0.horizontal_centroids, c * m.d, c * m.d + m.d),
            pow2(298) as int,
            ((4 * m.d + 14) * pow2(298)) as int,
        ),
{
    lemma_angular(m, data, iter, first, gemm_only, counts);
    let plain = not_angular(m).iterated(data, iter, first, gemm_only, counts).0.horizontal_centroids;
    law_normalized_length(plain, m.d as int, m.n_clusters as int, c);
}

proof fn lemma_angular(m: Model, data: Seq<Single>, iter: u32, first: bool, gemm_only: bool, counts: Seq<usize>)
    requires
        m.config.angular,
    ensures
        m.iterated(data, iter, first, gemm_only, counts).0.horizontal_centroids == normalized(
            not_angular(m).iterated(data, iter, first, gemm_only, counts).0.horizontal_centroids,
            m.d as int,
            m.n_clusters as int,
        ),
{
    let o = not_angular(m);
    let m0 = if first {
        m
    } else {
        m.exchanged()
    };
    let o0 = if first {
        o
    } else {
        o.exchanged()
    };
    assert(o0 == not_angular(m0));
    let g = (if gemm_only {
        m0.assigned_by_products(data)
    } else {
        m0.assigned_by_pruning(data)
    }).gathered(data);
    let og = (if gemm_only {
        o0.assigned_by_products(data)
    } else {
        o0.assigned_by_pruning(data)
    }).gathered(data);
    assert(og == not_angular(g));
}

} // verus!
