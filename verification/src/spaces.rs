//! In which space vectors are clustered and searched: the same for training and for the search for
//! training points.
use crate::adsampling::Pruner;
use crate::centroids::partial_norms;
use crate::common::{lemma_cell, lemma_position, lemma_row};
use crate::exact::{gap_sum, is_whole, lemma_whole_order, whole_table};
use crate::gemm::row_times_column;
use crate::pruning::{law_exact_on_integers, on_integers};
use crate::rng::shuffled;
use crate::rotations::{dot_of, law_rotated_on_integers, row_entry, whole_front};
use crate::runs::law_training_points_never_worse;
use crate::single::{lemma_below, Single, ONE};
use crate::superkmeans::{never_prunes, no_counts, overlaid, picked_rows, zeros, Model};
use vstd::prelude::*;

verus! {

/// Entry `j` of vector `i` of an integer table, in the space that centroids are trained in: as it
/// is where the data is already rotated, else its product with row `j` of the rotation matrix.
pub open spec fn space_entry(already: bool, v: Seq<int>, vm: Seq<int>, d: int, i: int, j: int) -> int {
    if already {
        v[i * d + j]
    } else {
        dot_of(row_entry(v, d, i), row_entry(vm, d, j), d as nat)
    }
}

/// The first `n` vectors of an integer table in that space.
pub open spec fn in_space(already: bool, v: Seq<int>, vm: Seq<int>, d: int, n: nat) -> Seq<int> {
    Seq::new((n * d) as nat, |x: int| space_entry(already, v, vm, d, x / d, x % d))
}

/// The first `n` vectors and the rotation matrix of a clustering are short integers.
pub open spec fn integers_given(m: Model, data: Seq<Single>, n: nat, v: Seq<int>, vm: Seq<int>, bv: int, bm: int) -> bool {
    &&& m.geometry()
    &&& whole_front(data, v, (n * m.d) as int, bv)
    &&& whole_front(m.pruner.matrix, vm, (m.d * m.d) as int, bm)
    &&& 0 <= bv
    &&& 0 <= bm
    &&& bv * bm * m.d < 0x100_0000
}

/// The same row times the same column.
proof fn lemma_same_entry(
    a: Seq<Single>,
    i: int,
    b: Seq<Single>,
    j: int,
    m: Seq<Single>,
    trans: bool,
    d: int,
    c: int,
    k: nat,
)
    requires
        forall|t: int| 0 <= t < k ==> #[trigger] a[i * d + t] == b[j * d + t],
    ensures
        row_times_column(a, false, d, m, trans, d, i, c, k) == row_times_column(b, false, d, m, trans, d, j, c, k),
    decreases k,
{
    if k > 0 {
        lemma_same_entry(a, i, b, j, m, trans, d, c, (k - 1) as nat);
        assert(a[i * d + (k - 1)] == b[j * d + (k - 1)]);
    }
}

/// A rotated vector depends on that vector alone.
pub proof fn law_rotated_one_by_one(p: Pruner, x: Seq<Single>, n: nat, i: int, y: Seq<Single>, m: nat, j: int, c: int)
    requires
        p.num_dimensions > 0,
        0 <= i < n,
        0 <= j < m,
        0 <= c < p.num_dimensions,
        forall|t: int|
            0 <= t < p.num_dimensions ==> #[trigger] x[i * p.num_dimensions + t] == y[j * p.num_dimensions + t],
    ensures
        p.rotated(x, zeros(n * p.num_dimensions), n)[i * p.num_dimensions + c] == p.rotated(
            y,
            zeros(m * p.num_dimensions),
            m,
        )[j * p.num_dimensions + c],
{
    let d = p.num_dimensions as int;
    lemma_row(i, n as int, d);
    lemma_row(j, m as int, d);
    lemma_cell(i, c, d);
    lemma_cell(j, c, d);
    lemma_same_entry(x, i, y, j, p.matrix, true, d, c, d as nat);
}

pub(crate) proof fn lemma_picked_row(data: Seq<Single>, indices: Seq<usize>, d: nat, m: nat, s: int, t: int)
    requires
        0 <= s < m,
        0 <= t < d,
    ensures
        0 <= s * d + t < m * d,
        picked_rows(data, indices, d, m)[s * d + t] == data[indices[s] * d + t],
{
    lemma_row(s, m as int, d as int);
    lemma_cell(s, t, d as int);
}

/// The samples are vectors of the data, those that `sampled` names and in that order, in the space of
/// training. Where all vectors are sampled, they come in their own order.
pub proof fn law_samples_in_space(
    m: Model,
    data: Seq<Single>,
    n: nat,
    v: Seq<int>,
    vm: Seq<int>,
    bv: int,
    bm: int,
    s: int,
    j: int,
)
    requires
        integers_given(m, data, n, v, vm, bv, bm),
        m.n_samples <= n <= usize::MAX,
        0 <= s < m.n_samples,
        0 <= j < m.d,
        m.sample_order(n)[s] < n,
    ensures
        is_whole(
            m.samples(data, n, !m.config.data_already_rotated)[s * m.d + j],
            space_entry(m.config.data_already_rotated, v, vm, m.d as int, m.sample_order(n)[s] as int, j),
        ),
        m.samples(data, n, !m.config.data_already_rotated).len() == m.n_samples * m.d,
        m.n_samples == n ==> m.sample_order(n)[s] == s,
{
    let d = m.d as int;
    let already = m.config.data_already_rotated;
    let order = m.sample_order(n);
    let i = order[s] as int;
    let plain = m.samples(data, n, false);
    lemma_row(s, m.n_samples as int, d);
    lemma_row(i, n as int, d);
    assert(m.n_samples * d <= n * d) by (nonlinear_arith)
        requires
            m.n_samples <= n,
            d >= 0,
    ;
    assert forall|t: int| 0 <= t < d implies #[trigger] plain[s * d + t] == data[i * d + t] by {
        if m.n_samples < n {
            lemma_picked_row(data, order, m.d, m.n_samples, s, t);
        }
    }
    if already {
        assert(plain[s * d + j] == data[i * d + j]);
        assert(is_whole(data[i * d + j], v[i * d + j]));
    } else {
        law_rotated_one_by_one(m.pruner, plain, m.n_samples, s, data, n, i, j);
        law_rotated_on_integers(m.pruner, data, zeros(n * m.d), n, v, vm, bv, bm, i, j);
    }
}

/// Training starts from vectors of the data, in the space of training: centroid `c` is the vector
/// that comes `c`-th in the shuffled order.
pub proof fn law_first_centroids_in_space(
    m: Model,
    data: Seq<Single>,
    n: nat,
    v: Seq<int>,
    vm: Seq<int>,
    bv: int,
    bm: int,
    c: int,
    j: int,
)
    requires
        integers_given(m, data, n, v, vm, bv, bm),
        m.n_clusters <= n,
        0 <= c < m.n_clusters,
        0 <= j < m.d,
        shuffled(n, m.config.seed)[c] < n,
    ensures
        ({
            let p = m.prepared(data, n);
            let i = shuffled(n, m.config.seed)[c] as int;
            let e = space_entry(m.config.data_already_rotated, v, vm, m.d as int, i, j);
            &&& is_whole(p.prev_centroids[c * m.d + j], e)
            &&& is_whole(p.horizontal_centroids[c * m.d + j], e)
        }),
{
    let d = m.d as int;
    let k = m.n_clusters as int;
    let order = shuffled(n, m.config.seed);
    let i = order[c] as int;
    let size = m.n_clusters * m.d;
    lemma_row(c, k, d);
    lemma_row(i, n as int, d);
    let a = m.allocated(n);
    let rows = picked_rows(data, order, m.d, m.n_clusters);
    let picked = overlaid(a.horizontal_centroids, rows);
    assert(a.horizontal_centroids.len() == size);
    assert(rows.len() == size);
    assert forall|t: int| 0 <= t < d implies #[trigger] picked[c * d + t] == data[i * d + t] by {
        lemma_picked_row(data, order, m.d, m.n_clusters, c, t);
    }
    assert(picked[c * d + j] == data[i * d + j]);
    let s = a.seeded(data, n, !m.config.data_already_rotated);
    if m.config.data_already_rotated {
        assert(s.horizontal_centroids[c * d + j] == data[i * d + j]);
        assert(is_whole(data[i * d + j], v[i * d + j]));
    } else {
        law_rotated_one_by_one(m.pruner, picked, m.n_clusters, c, data, n, i, j);
        law_rotated_on_integers(m.pruner, data, zeros(n * m.d), n, v, vm, bv, bm, i, j);
    }
}

/// What the iterations of a phase leave as it is.
pub proof fn lemma_phase_keeps(
    m: Model,
    data: Seq<Single>,
    counts: Seq<usize>,
    iter: u32,
    iters: u32,
    fresh: bool,
    products_only: bool,
    early: bool,
    partial: bool,
)
    ensures
        ({
            let r = m.phase_from(data, counts, iter, iters, fresh, products_only, early, partial).0;
            &&& r.d == m.d
            &&& r.config == m.config
            &&& r.pruner == m.pruner
            &&& r.n_clusters == m.n_clusters
            &&& r.n_samples == m.n_samples
            &&& r.vertical_d == m.vertical_d
            &&& r.horizontal_d == m.horizontal_d
            &&& r.sampled_indices == m.sampled_indices
            &&& r.trained == m.trained
        }),
    decreases iters - iter,
{
    if iter < iters {
        let first = fresh && iter == 0;
        let gemm_only = first || products_only;
        let m0 = if !gemm_only && !partial {
            Model { data_norms: partial_norms(data, m.n_samples, m.d, m.partial_d as nat), ..m }
        } else {
            m
        };
        let (m1, counts1) = m0.iterated(data, iter, first, gemm_only, counts);
        lemma_phase_keeps(
            m1,
            data,
            counts1,
            (iter + 1) as u32,
            iters,
            fresh,
            products_only,
            early,
            partial || !gemm_only,
        );
    }
}

/// The vectors of a search for training points are brought into the space of the centroids just as
/// the samples were in training: the row that is searched for the vector that became sample `s` is
/// the row of sample `s`, down to the last bit, whatever the settings.
pub proof fn law_search_in_training_space(m: Model, data: Seq<Single>, n: nat, k: nat, s: int, j: int)
    requires
        m.geometry(),
        n * m.d <= data.len(),
        n <= usize::MAX,
        m.sample_count(n) <= n,
        0 <= s < m.sample_count(n),
        0 <= j < m.d,
        m.prepared(data, n).sampled_indices[s] < n,
    ensures
        ({
            let p = m.prepared(data, n);
            let r = m.trained_on(data, n);
            let i = r.sampled_indices[s] as int;
            &&& r.sampled_indices == p.sampled_indices
            &&& r.assigning(data, k, n).x[i * m.d + j] == p.samples(data, n, !m.config.data_already_rotated)[s * m.d + j]
        }),
{
    let d = m.d as int;
    let p = m.prepared(data, n);
    let r = m.trained_on(data, n);
    lemma_phase_keeps(
        p,
        p.samples(data, n, !p.config.data_already_rotated),
        no_counts(p.n_samples),
        0,
        p.config.iters,
        true,
        never_prunes(p.d, p.config.use_blas_only, p.n_clusters),
        p.config.early_termination,
        false,
    );
    let i = p.sampled_indices[s] as int;
    let order = p.sample_order(n);
    assert(p.sampled_indices == order);
    lemma_row(s, p.n_samples as int, d);
    lemma_row(i, n as int, d);
    assert(p.n_samples * d <= n * d) by (nonlinear_arith)
        requires
            p.n_samples <= n,
            d >= 0,
    ;
    let plain = p.samples(data, n, false);
    assert forall|t: int| 0 <= t < d implies #[trigger] plain[s * d + t] == data[i * d + t] by {
        if p.n_samples < n {
            lemma_picked_row(data, order, p.d, p.n_samples, s, t);
        }
    }
    if m.config.data_already_rotated {
        assert(plain[s * d + j] == data[i * d + j]);
    } else {
        law_rotated_one_by_one(m.pruner, plain, p.n_samples, s, data, n, i, j);
    }
}

/// The entries of vectors in the space of training, and how large they can be.
proof fn lemma_in_space(m: Model, vectors: Seq<Single>, k: nat, n: nat, v: Seq<int>, vm: Seq<int>, bv: int, bm: int, x: int)
    requires
        integers_given(m, vectors, n, v, vm, bv, bm),
        0 <= x < n * m.d,
    ensures
        ({
            let p = m.assigning(vectors, k, n);
            let e = in_space(m.config.data_already_rotated, v, vm, m.d as int, n)[x];
            &&& is_whole(p.x[x], e)
            &&& m.config.data_already_rotated ==> -bv <= e <= bv
            &&& !m.config.data_already_rotated ==> -(bv * bm * m.d) <= e <= bv * bm * m.d
        }),
{
    let d = m.d as int;
    lemma_position(x, n as int, d);
    if m.config.data_already_rotated {
        assert(is_whole(vectors[x], v[x]));
    } else {
        law_rotated_on_integers(m.pruner, vectors, zeros(n * m.d), n, v, vm, bv, bm, x / d, x % d);
    }
}

/// On short integers: a vector gets the centroid that its search starts from, or one that is
/// nearer to it in the space of training. So a vector that lies at the centroid it starts from keeps
/// it. After training on all vectors, that is the centroid that training gave it.
pub proof fn law_training_points_on_integers(
    m: Model,
    vectors: Seq<Single>,
    centroids: Seq<Single>,
    n: nat,
    v: Seq<int>,
    vm: Seq<int>,
    vc: Seq<int>,
    bv: int,
    bm: int,
    bound: int,
    i: int,
)
    requires
        m.fitted(),
        integers_given(m, vectors, n, v, vm, bv, bm),
        vectors.len() == n * m.d,
        whole_table(m.horizontal_centroids, vc, bound),
        0 <= bound,
        forall|x: int|
            0 <= x < n * m.d ==> -bound <= #[trigger] in_space(
                m.config.data_already_rotated,
                v,
                vm,
                m.d as int,
                n,
            )[x] <= bound,
        4 * bound * bound * m.d < 0x100_0000,
        ({
            let k = centroids.len() / m.d;
            let seed = m.starting_points(vectors, centroids, n)[i];
            &&& !never_prunes(m.d, m.config.use_blas_only, k)
            &&& k <= m.n_clusters
            &&& seed < k
        }),
        m.assigning_partial_d() <= m.vertical_d,
        n <= m.starting_points(vectors, centroids, n).len(),
        0 <= i < n,
    ensures
        ({
            let d = m.d as int;
            let space = in_space(m.config.data_already_rotated, v, vm, d, n);
            let seed = m.starting_points(vectors, centroids, n)[i];
            let found = m.training_points(vectors, centroids, n)[i];
            let to_seed = gap_sum(space, i * d, vc, seed * d, 0, d);
            &&& found < centroids.len() / m.d
            &&& found == seed || gap_sum(space, i * d, vc, found * d, 0, d) < to_seed
            &&& to_seed == 0 ==> found == seed
            &&& m.config.sampling_fraction == (Single { bits: ONE }) && n <= m.n_samples ==> seed == m.assignments[i]
        }),
{
    let d = m.d as int;
    let k = centroids.len() / m.d;
    let p = m.assigning(vectors, k, n);
    let space = in_space(m.config.data_already_rotated, v, vm, d, n);
    let seed = m.starting_points(vectors, centroids, n)[i];
    assert(p.x.len() == n * m.d);
    assert forall|x: int| 0 <= x < p.x.len() implies is_whole(p.x[x], space[x]) && -bound <= space[x] <= bound by {
        lemma_in_space(m, vectors, k, n, v, vm, bv, bm, x);
    }
    assert(whole_table(p.x, space, bound));
    lemma_row(i, n as int, d);
    assert(k * d <= m.n_clusters * d) by (nonlinear_arith)
        requires
            k <= m.n_clusters,
            d >= 0,
    ;
    assert(p.fits(i));
    assert(on_integers(p, space, vc, bound, n));
    law_exact_on_integers(p, space, vc, bound, n, i, seed as int);
    law_training_points_never_worse(m, vectors, centroids, n, i);
    let found = m.training_points(vectors, centroids, n)[i];
    law_exact_on_integers(p, space, vc, bound, n, i, found as int);
    let near = p.measured_distance(i, found as int);
    let start = p.known_distance(i, seed as int);
    let a = gap_sum(space, i * d, vc, found * d, 0, d);
    let b = gap_sum(space, i * d, vc, seed * d, 0, d);
    lemma_below(near, start);
    lemma_whole_order(near, a, start, b);
    lemma_whole_order(start, b, near, a);
}

} // verus!
