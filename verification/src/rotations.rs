//! What matrix products, the rotation and its way back compute.
use crate::common::{lemma_cell, lemma_row};
use crate::adsampling::Pruner;
use crate::errors::lemma_factors_finite;
use crate::exact::{is_whole, lemma_whole_plus, lemma_whole_times, lemma_zero};
use crate::gemm::{entry, gemm_result, row_times_column};
use crate::lengths::{lemma_product_error, lemma_sum_error, magnitude, near};
use crate::numbers::lemma_terms_finite;
use crate::single::Single;
use crate::superkmeans::{zeros, Model};
use vstd::arithmetic::power2::*;
use vstd::prelude::*;

verus! {

/// The sum of `f(t) * g(t)` over the first `k` places.
pub open spec fn dot_of(f: spec_fn(int) -> int, g: spec_fn(int) -> int, k: nat) -> int
    decreases k,
{
    if k == 0 {
        0
    } else {
        dot_of(f, g, (k - 1) as nat) + f(k - 1) * g(k - 1)
    }
}

/// The same sum without signs.
pub open spec fn unsigned_dot_of(f: spec_fn(int) -> int, g: spec_fn(int) -> int, k: nat) -> int
    decreases k,
{
    if k == 0 {
        0
    } else {
        unsigned_dot_of(f, g, (k - 1) as nat) + magnitude(f(k - 1) * g(k - 1))
    }
}

pub proof fn lemma_dot_same(f: spec_fn(int) -> int, g: spec_fn(int) -> int, p: spec_fn(int) -> int, q: spec_fn(int) -> int, k: nat)
    requires
        forall|t: int| 0 <= t < k ==> #[trigger] f(t) == p(t),
        forall|t: int| 0 <= t < k ==> #[trigger] g(t) == q(t),
    ensures
        dot_of(f, g, k) == dot_of(p, q, k),
        unsigned_dot_of(f, g, k) == unsigned_dot_of(p, q, k),
    decreases k,
{
    if k > 0 {
        lemma_dot_same(f, g, p, q, (k - 1) as nat);
        assert(f(k - 1) == p(k - 1));
        assert(g(k - 1) == q(k - 1));
    }
}

proof fn lemma_dot_bound(f: spec_fn(int) -> int, g: spec_fn(int) -> int, k: nat, a: int, b: int)
    requires
        0 <= a,
        0 <= b,
        forall|t: int| 0 <= t < k ==> -a <= #[trigger] f(t) <= a,
        forall|t: int| 0 <= t < k ==> -b <= #[trigger] g(t) <= b,
    ensures
        -(a * b * k) <= dot_of(f, g, k) <= a * b * k,
    decreases k,
{
    let ab = a * b;
    if k > 0 {
        lemma_dot_bound(f, g, (k - 1) as nat, a, b);
        let x = f(k - 1);
        let y = g(k - 1);
        assert(-ab <= x * y <= ab) by (nonlinear_arith)
            requires
                ab == a * b,
                -a <= x <= a,
                -b <= y <= b,
        ;
        assert(ab * k == ab * (k - 1) + ab) by (nonlinear_arith);
    } else {
        assert(ab * 0 == 0) by (nonlinear_arith);
    }
}

/// A row times a column of short integers is exact.
pub proof fn lemma_whole_entry(
    a: Seq<Single>,
    trans_a: bool,
    lda: int,
    b: Seq<Single>,
    trans_b: bool,
    ldb: int,
    i: int,
    j: int,
    k: nat,
    f: spec_fn(int) -> int,
    g: spec_fn(int) -> int,
    bf: int,
    bg: int,
)
    requires
        0 <= bf,
        0 <= bg,
        bf * bg * k < 0x100_0000,
        forall|t: int|
            0 <= t < k ==> is_whole(entry(a, trans_a, lda, i, t), #[trigger] f(t)) && -bf <= f(t) <= bf,
        forall|t: int|
            0 <= t < k ==> is_whole(entry(b, trans_b, ldb, t, j), #[trigger] g(t)) && -bg <= g(t) <= bg,
    ensures
        is_whole(row_times_column(a, trans_a, lda, b, trans_b, ldb, i, j, k), dot_of(f, g, k)),
        -(bf * bg * k) <= dot_of(f, g, k) <= bf * bg * k,
    decreases k,
{
    lemma_dot_bound(f, g, k, bf, bg);
    if k == 0 {
        lemma_zero();
    } else {
        let ab = bf * bg;
        let x = f(k - 1);
        let y = g(k - 1);
        assert(-ab <= x * y <= ab) by (nonlinear_arith)
            requires
                ab == bf * bg,
                -bf <= x <= bf,
                -bg <= y <= bg,
        ;
        assert(ab * k == ab * (k - 1) + ab && ab * (k - 1) >= 0 && ab >= 0) by (nonlinear_arith)
            requires
                ab == bf * bg,
                bf >= 0,
                bg >= 0,
                k >= 1,
        ;
        lemma_whole_entry(a, trans_a, lda, b, trans_b, ldb, i, j, (k - 1) as nat, f, g, bf, bg);
        lemma_whole_times(entry(a, trans_a, lda, i, k - 1), x, entry(b, trans_b, ldb, k - 1, j), y);
        lemma_whole_plus(
            row_times_column(a, trans_a, lda, b, trans_b, ldb, i, j, (k - 1) as nat),
            dot_of(f, g, (k - 1) as nat),
            entry(a, trans_a, lda, i, k - 1).times(entry(b, trans_b, ldb, k - 1, j)),
            x * y,
        );
    }
}

/// One more term of a sum of products: how the errors add up. `s0` and `s1` are the sums, `p` the
/// product, all in the scale of exact products; `x` and `u` are the exact sum and the one without
/// signs before the term `ab`.
proof fn lemma_term_error(s0: int, s1: int, p: int, x: int, u: int, ab: int, k: int, t: int)
    requires
        1 <= k <= 0x40_0000,
        0 <= t,
        magnitude(x) <= u,
        near(s0, x, 2 * k * u + (k - 1) * (0x100_0000 * t)),
        near(p, ab, magnitude(ab) + 0x80_0000 * t),
        near(s1, s0 + p, magnitude(s1)),
    ensures
        near(s1, x + ab, (2 * k + 2) * (u + magnitude(ab)) + k * (0x100_0000 * t)),
{
    let n: int = 0x100_0000;
    let m = magnitude(ab);
    let u1 = u + m;
    let e = magnitude(s1 - (x + ab));
    let ku = k * u;
    let km = k * m;
    let kt = k * (n * t);
    assert(2 * k * u == 2 * ku && (k - 1) * (n * t) == kt - n * t && (2 * k + 2) * u1 == 2 * ku + 2 * km + 2 * u1)
        by (nonlinear_arith)
        requires
            ku == k * u,
            km == k * m,
            kt == k * (n * t),
            u1 == u + m,
    ;
    assert(m <= km && ku <= 0x40_0000 * u && km <= 0x40_0000 * m && kt <= 0x40_0000 * (n * t)) by (nonlinear_arith)
        requires
            1 <= k <= 0x40_0000,
            m >= 0,
            u >= 0,
            t >= 0,
            n == 0x100_0000,
            km == k * m,
            ku == k * u,
            kt == k * (n * t),
    ;
    assert(magnitude(s1) <= u1 + e);
    let rest = 2 * ku + (kt - n * t) + m + 0x80_0000 * t + u1;
    assert(n * e <= rest + e);
    assert(e <= 2 * u1 + n * t);
}

/// What a row times a column is off by: for each of `k` terms about `2^-23` of the sum of the
/// products without signs.
pub proof fn lemma_entry_error(
    a: Seq<Single>,
    trans_a: bool,
    lda: int,
    b: Seq<Single>,
    trans_b: bool,
    ldb: int,
    i: int,
    j: int,
    k: nat,
    f: spec_fn(int) -> int,
    g: spec_fn(int) -> int,
)
    requires
        k <= 0x40_0000,
        row_times_column(a, trans_a, lda, b, trans_b, ldb, i, j, k).is_finite(),
        forall|t: int| 0 <= t < k ==> #[trigger] f(t) == entry(a, trans_a, lda, i, t).units(),
        forall|t: int| 0 <= t < k ==> #[trigger] g(t) == entry(b, trans_b, ldb, t, j).units(),
    ensures
        near(
            row_times_column(a, trans_a, lda, b, trans_b, ldb, i, j, k).units() * pow2(149),
            dot_of(f, g, k),
            (2 * k + 2) * unsigned_dot_of(f, g, k) + k * (0x100_0000 * pow2(149)),
        ),
        magnitude(dot_of(f, g, k)) <= unsigned_dot_of(f, g, k),
    decreases k,
{
    let t = pow2(149) as int;
    lemma_pow2_pos(149);
    let s1 = row_times_column(a, trans_a, lda, b, trans_b, ldb, i, j, k);
    if k == 0 {
        lemma_zero();
        assert(0 * t == 0 && 2 * 0 == 0 && 0 * (0x100_0000 * t) == 0) by (nonlinear_arith);
        assert((2 * 0 + 2) * 0 == 0) by (nonlinear_arith);
    } else {
        let s0 = row_times_column(a, trans_a, lda, b, trans_b, ldb, i, j, (k - 1) as nat);
        let x = entry(a, trans_a, lda, i, k - 1);
        let y = entry(b, trans_b, ldb, k - 1, j);
        let p = x.times(y);
        lemma_terms_finite(s0, p);
        lemma_factors_finite(x, y);
        lemma_entry_error(a, trans_a, lda, b, trans_b, ldb, i, j, (k - 1) as nat, f, g);
        lemma_sum_error(s0, p);
        lemma_product_error(x, y);
        let u0 = s0.units();
        let u1 = s1.units();
        let up = p.units();
        assert(near(u1 * t, u0 * t + up * t, magnitude(u1 * t))) by (nonlinear_arith)
            requires
                near(u1, u0 + up, magnitude(u1)),
                t > 0,
        ;
        let km = k - 1;
        assert((2 * km + 2) == 2 * k);
        lemma_term_error(
            u0 * t,
            u1 * t,
            up * t,
            dot_of(f, g, (k - 1) as nat),
            unsigned_dot_of(f, g, (k - 1) as nat),
            x.units() * y.units(),
            k as int,
            t,
        );
        assert(f(k - 1) == x.units() && g(k - 1) == y.units());
    }
}

/// Entry `t` of row `i` of a table of width `d`.
pub open spec fn row_entry(v: Seq<int>, d: int, i: int) -> spec_fn(int) -> int {
    |t: int| v[i * d + t]
}

/// Entry `t` of column `j` of a table of width `d`.
pub open spec fn column_entry(v: Seq<int>, d: int, j: int) -> spec_fn(int) -> int {
    |t: int| v[t * d + j]
}

/// The table `v` holds the values of the numbers in `x`, in units of 2^-149.
pub open spec fn values_of(x: Seq<Single>, v: Seq<int>) -> bool {
    &&& v.len() == x.len()
    &&& forall|i: int| 0 <= i < x.len() ==> #[trigger] v[i] == x[i].units()
}

/// The first `n` numbers of `x` are the integers in `v`, none beyond `bound`.
pub open spec fn whole_front(x: Seq<Single>, v: Seq<int>, n: int, bound: int) -> bool {
    &&& n <= x.len()
    &&& n <= v.len()
    &&& forall|i: int| 0 <= i < n ==> is_whole(#[trigger] x[i], v[i]) && -bound <= v[i] <= bound
    &&& forall|i: int| 0 <= i < n ==> is_whole(x[i], #[trigger] v[i]) && -bound <= v[i] <= bound
}

/// Entry `(i, j)` of the `m` by `n` window of a product, where all numbers are short integers, is the
/// sum of the products of row `i` of the one operand and column `j` of the other, each of them taken
/// as it stands or on its side.
pub proof fn law_product_on_integers(
    trans_a: bool,
    trans_b: bool,
    m: nat,
    k: nat,
    n: nat,
    a: Seq<Single>,
    lda: int,
    b: Seq<Single>,
    ldb: int,
    c: Seq<Single>,
    ldc: int,
    va: Seq<int>,
    vb: Seq<int>,
    ba: int,
    bb: int,
    i: int,
    j: int,
)
    requires
        0 <= ba,
        0 <= bb,
        ba * bb * k < 0x100_0000,
        whole_front(a, va, a.len() as int, ba),
        whole_front(b, vb, b.len() as int, bb),
        0 <= i < m,
        0 <= j < n <= ldc,
        i * ldc + j < c.len(),
        forall|t: int|
            0 <= t < k ==> 0 <= #[trigger] side(trans_a, lda, i, t) < a.len(),
        forall|t: int|
            0 <= t < k ==> 0 <= #[trigger] side(trans_b, ldb, t, j) < b.len(),
    ensures
        is_whole(
            gemm_result(trans_a, trans_b, m, k, n, a, lda, b, ldb, c, ldc)[i * ldc + j],
            dot_of(|t: int| va[side(trans_a, lda, i, t)], |t: int| vb[side(trans_b, ldb, t, j)], k),
        ),
        forall|x: int|
            0 <= x < c.len() && !(x / ldc < m && x % ldc < n) ==> #[trigger] gemm_result(
                trans_a,
                trans_b,
                m,
                k,
                n,
                a,
                lda,
                b,
                ldb,
                c,
                ldc,
            )[x] == c[x],
{
    let f = |t: int| va[side(trans_a, lda, i, t)];
    let g = |t: int| vb[side(trans_b, ldb, t, j)];
    lemma_cell(i, j, ldc);
    assert forall|t: int| 0 <= t < k implies is_whole(entry(a, trans_a, lda, i, t), #[trigger] f(t)) && -ba <= f(t) <= ba by {
        let x = side(trans_a, lda, i, t);
        assert(is_whole(a[x], va[x]));
    }
    assert forall|t: int| 0 <= t < k implies is_whole(entry(b, trans_b, ldb, t, j), #[trigger] g(t)) && -bb <= g(t) <= bb by {
        let x = side(trans_b, ldb, t, j);
        assert(is_whole(b[x], vb[x]));
    }
    lemma_whole_entry(a, trans_a, lda, b, trans_b, ldb, i, j, k, f, g, ba, bb);
    assert(0 <= i * ldc);
}

/// Where entry `(i, t)` of an operand stands, or of the operand on its side.
pub open spec fn side(trans: bool, ld: int, i: int, t: int) -> int {
    if trans {
        t * ld + i
    } else {
        i * ld + t
    }
}

impl Pruner {
    /// The rotation matrix has `d` rows and columns.
    pub open spec fn square(self, d: int) -> bool {
        self.num_dimensions == d && self.matrix.len() == d * d
    }
}

/// Rotating, on short integers: entry `j` of a rotated vector is its product with row `j` of the
/// matrix.
pub proof fn law_rotated_on_integers(p: Pruner, x: Seq<Single>, out: Seq<Single>, n: nat, vx: Seq<int>, vm: Seq<int>, bx: int, bm: int, i: int, j: int)
    requires
        p.square(p.num_dimensions as int),
        whole_front(p.matrix, vm, p.matrix.len() as int, bm),
        whole_front(x, vx, (n * p.num_dimensions) as int, bx),
        n * p.num_dimensions <= out.len(),
        0 <= bx,
        0 <= bm,
        bx * bm * p.num_dimensions < 0x100_0000,
        0 <= i < n,
        0 <= j < p.num_dimensions,
    ensures
        ({
            let d = p.num_dimensions as int;
            let r = dot_of(row_entry(vx, d, i), row_entry(vm, d, j), d as nat);
            &&& is_whole(p.rotated(x, out, n)[i * d + j], r)
            &&& -(bx * bm * d) <= r <= bx * bm * d
        }),
{
    let d = p.num_dimensions as int;
    let f = row_entry(vx, d, i);
    let g = row_entry(vm, d, j);
    lemma_row(i, n as int, d);
    lemma_row(j, d, d);
    lemma_cell(i, j, d);
    assert forall|t: int| 0 <= t < d implies is_whole(entry(x, false, d, i, t), #[trigger] f(t)) && -bx <= f(t) <= bx by {
        assert(is_whole(x[i * d + t], vx[i * d + t]));
    }
    assert forall|t: int| 0 <= t < d implies is_whole(entry(p.matrix, true, d, t, j), #[trigger] g(t)) && -bm <= g(t) <= bm by {
        assert(is_whole(p.matrix[j * d + t], vm[j * d + t]));
    }
    lemma_whole_entry(x, false, d, p.matrix, true, d, i, j, d as nat, f, g, bx, bm);
}

/// Rotating back, on short integers: entry `j` is the product with column `j` of the matrix.
pub proof fn law_unrotated_on_integers(p: Pruner, x: Seq<Single>, out: Seq<Single>, n: nat, vx: Seq<int>, vm: Seq<int>, bx: int, bm: int, i: int, j: int)
    requires
        p.square(p.num_dimensions as int),
        whole_front(p.matrix, vm, p.matrix.len() as int, bm),
        whole_front(x, vx, (n * p.num_dimensions) as int, bx),
        n * p.num_dimensions <= out.len(),
        0 <= bx,
        0 <= bm,
        bx * bm * p.num_dimensions < 0x100_0000,
        0 <= i < n,
        0 <= j < p.num_dimensions,
    ensures
        ({
            let d = p.num_dimensions as int;
            let r = dot_of(row_entry(vx, d, i), column_entry(vm, d, j), d as nat);
            &&& is_whole(p.unrotated(x, out, n)[i * d + j], r)
            &&& -(bx * bm * d) <= r <= bx * bm * d
        }),
{
    let d = p.num_dimensions as int;
    let f = row_entry(vx, d, i);
    let g = column_entry(vm, d, j);
    lemma_row(i, n as int, d);
    lemma_cell(i, j, d);
    assert forall|t: int| 0 <= t < d implies is_whole(entry(x, false, d, i, t), #[trigger] f(t)) && -bx <= f(t) <= bx by {
        assert(is_whole(x[i * d + t], vx[i * d + t]));
    }
    assert forall|t: int| 0 <= t < d implies is_whole(entry(p.matrix, false, d, t, j), #[trigger] g(t)) && -bm <= g(t) <= bm by {
        lemma_row(t, d, d);
        assert(is_whole(p.matrix[t * d + j], vm[t * d + j]));
    }
    lemma_whole_entry(x, false, d, p.matrix, false, d, i, j, d as nat, f, g, bx, bm);
}

/// Rotating any vectors, but for rounding.
pub proof fn law_rotated_but_for_rounding(p: Pruner, x: Seq<Single>, out: Seq<Single>, n: nat, vx: Seq<int>, vm: Seq<int>, i: int, j: int)
    requires
        p.square(p.num_dimensions as int),
        p.num_dimensions <= 0x40_0000,
        values_of(p.matrix, vm),
        values_of(x, vx),
        n * p.num_dimensions <= x.len(),
        n * p.num_dimensions <= out.len(),
        0 <= i < n,
        0 <= j < p.num_dimensions,
        p.rotated(x, out, n)[i * p.num_dimensions + j].is_finite(),
    ensures
        ({
            let d = p.num_dimensions as int;
            let f = row_entry(vx, d, i);
            let g = row_entry(vm, d, j);
            near(
                p.rotated(x, out, n)[i * d + j].units() * pow2(149),
                dot_of(f, g, d as nat),
                (2 * d + 2) * unsigned_dot_of(f, g, d as nat) + d * (0x100_0000 * pow2(149)),
            )
        }),
{
    let d = p.num_dimensions as int;
    let f = row_entry(vx, d, i);
    let g = row_entry(vm, d, j);
    lemma_row(i, n as int, d);
    lemma_row(j, d, d);
    lemma_cell(i, j, d);
    lemma_entry_error(x, false, d, p.matrix, true, d, i, j, d as nat, f, g);
}

/// Rotating any vectors back, but for rounding.
pub proof fn law_unrotated_but_for_rounding(p: Pruner, x: Seq<Single>, out: Seq<Single>, n: nat, vx: Seq<int>, vm: Seq<int>, i: int, j: int)
    requires
        p.square(p.num_dimensions as int),
        p.num_dimensions <= 0x40_0000,
        values_of(p.matrix, vm),
        values_of(x, vx),
        n * p.num_dimensions <= x.len(),
        n * p.num_dimensions <= out.len(),
        0 <= i < n,
        0 <= j < p.num_dimensions,
        p.unrotated(x, out, n)[i * p.num_dimensions + j].is_finite(),
    ensures
        ({
            let d = p.num_dimensions as int;
            let f = row_entry(vx, d, i);
            let g = column_entry(vm, d, j);
            near(
                p.unrotated(x, out, n)[i * d + j].units() * pow2(149),
                dot_of(f, g, d as nat),
                (2 * d + 2) * unsigned_dot_of(f, g, d as nat) + d * (0x100_0000 * pow2(149)),
            )
        }),
{
    let d = p.num_dimensions as int;
    let f = row_entry(vx, d, i);
    let g = column_entry(vm, d, j);
    lemma_row(i, n as int, d);
    lemma_cell(i, j, d);
    assert forall|t: int| 0 <= t < d implies #[trigger] g(t) == entry(p.matrix, false, d, t, j).units() by {
        lemma_row(t, d, d);
    }
    lemma_entry_error(x, false, d, p.matrix, false, d, i, j, d as nat, f, g);
}

/// Training hands out the trained centroids in the space of the data: where the settings ask for
/// it, and in any number of dimensions, entry `(c, j)` is the product of the trained centroid `c`
/// and column `j` of the rotation matrix, exact on short integers and else but for rounding. Where
/// they do not ask for it, the trained centroids are handed out as they are.
pub proof fn law_output(m: Model, vc: Seq<int>, vm: Seq<int>, bc: int, bm: int, uc: Seq<int>, um: Seq<int>, c: int, j: int)
    requires
        m.geometry(),
        m.n_clusters * m.d <= m.horizontal_centroids.len(),
        0 <= c < m.n_clusters,
        0 <= j < m.d,
        values_of(m.horizontal_centroids, uc),
        values_of(m.pruner.matrix, um),
    ensures
        ({
            let d = m.d as int;
            let f = row_entry(uc, d, c);
            let g = column_entry(um, d, j);
            let r = m.output(true)[c * d + j];
            &&& m.output(true).len() == m.n_clusters * m.d
            &&& m.output(false).len() == m.n_clusters * m.d
            &&& m.output(false)[c * d + j] == m.horizontal_centroids[c * d + j]
            &&& (0 <= bc && 0 <= bm && bc * bm * d < 0x100_0000 && whole_front(
                m.horizontal_centroids,
                vc,
                (m.n_clusters * m.d) as int,
                bc,
            ) && whole_front(m.pruner.matrix, vm, d * d, bm)) ==> is_whole(
                r,
                dot_of(row_entry(vc, d, c), column_entry(vm, d, j), m.d),
            )
            &&& (r.is_finite() && d <= 0x40_0000) ==> near(
                r.units() * pow2(149),
                dot_of(f, g, m.d),
                (2 * d + 2) * unsigned_dot_of(f, g, m.d) + d * (0x100_0000 * pow2(149)),
            )
        }),
{
    let d = m.d as int;
    let out = zeros(m.n_clusters * m.d);
    lemma_row(c, m.n_clusters as int, d);
    if 0 <= bc && 0 <= bm && bc * bm * d < 0x100_0000 && whole_front(
        m.horizontal_centroids,
        vc,
        (m.n_clusters * m.d) as int,
        bc,
    ) && whole_front(m.pruner.matrix, vm, d * d, bm) {
        law_unrotated_on_integers(m.pruner, m.horizontal_centroids, out, m.n_clusters, vc, vm, bc, bm, c, j);
    }
    if m.output(true)[c * d + j].is_finite() && d <= 0x40_0000 {
        law_unrotated_but_for_rounding(m.pruner, m.horizontal_centroids, out, m.n_clusters, uc, um, c, j);
    }
}

/// The rows of an integer matrix are orthonormal.
pub open spec fn orthonormal_rows(vm: Seq<int>, d: int) -> bool {
    forall|s: int, t: int|
        0 <= s < d && 0 <= t < d ==> #[trigger] dot_of(row_entry(vm, d, s), row_entry(vm, d, t), d as nat) == if s == t {
            1int
        } else {
            0
        }
}

proof fn lemma_dot_linear(f: spec_fn(int) -> int, g: spec_fn(int) -> int, h: spec_fn(int) -> int, e: spec_fn(int) -> int, x: int, k: nat)
    requires
        forall|t: int| 0 <= t < k ==> #[trigger] e(t) == f(t) + x * g(t),
    ensures
        dot_of(e, h, k) == dot_of(f, h, k) + x * dot_of(g, h, k),
    decreases k,
{
    if k > 0 {
        lemma_dot_linear(f, g, h, e, x, (k - 1) as nat);
        let a = f(k - 1);
        let b = g(k - 1);
        let c = h(k - 1);
        let s = dot_of(g, h, (k - 1) as nat);
        assert(e(k - 1) == a + x * b);
        assert((a + x * b) * c == a * c + x * (b * c)) by (nonlinear_arith);
        assert(x * (s + b * c) == x * s + x * (b * c)) by (nonlinear_arith);
    } else {
        assert(x * 0 == 0) by (nonlinear_arith);
    }
}

/// The product of a vector with the first `n` rows of a matrix, times row `s` of it, gives entry `s`
/// of the vector back where the rows are orthonormal.
proof fn lemma_there_and_back(x: spec_fn(int) -> int, vm: Seq<int>, d: int, n: nat, s: int)
    requires
        orthonormal_rows(vm, d),
        0 <= s < d,
        n <= d,
    ensures
        dot_of(|j: int| dot_of(x, column_entry(vm, d, j), n), row_entry(vm, d, s), d as nat) == if s < n {
            x(s)
        } else {
            0
        },
    decreases n,
{
    let h = row_entry(vm, d, s);
    let e = |j: int| dot_of(x, column_entry(vm, d, j), n);
    if n == 0 {
        lemma_dot_zero(e, h, d as nat);
    } else {
        let m = (n - 1) as nat;
        let f = |j: int| dot_of(x, column_entry(vm, d, j), m);
        let g = row_entry(vm, d, n - 1);
        assert forall|j: int| 0 <= j < d implies #[trigger] e(j) == f(j) + x(n - 1) * g(j) by {
            let col = column_entry(vm, d, j);
            assert(col(n - 1) == vm[(n - 1) * d + j]);
        }
        lemma_dot_linear(f, g, h, e, x(n - 1), d as nat);
        lemma_there_and_back(x, vm, d, m, s);
        assert(dot_of(row_entry(vm, d, n - 1), row_entry(vm, d, s), d as nat) == if n - 1 == s {
            1int
        } else {
            0
        });
        assert(x(n - 1) * 1 == x(n - 1) && x(n - 1) * 0 == 0) by (nonlinear_arith);
    }
}

proof fn lemma_dot_zero(f: spec_fn(int) -> int, g: spec_fn(int) -> int, k: nat)
    requires
        forall|t: int| 0 <= t < k ==> #[trigger] f(t) == 0,
    ensures
        dot_of(f, g, k) == 0,
    decreases k,
{
    if k > 0 {
        lemma_dot_zero(f, g, (k - 1) as nat);
        assert(f(k - 1) == 0);
        assert(0 * g(k - 1) == 0) by (nonlinear_arith);
    }
}

/// Where the rows of the matrix are orthonormal and all numbers are short integers, rotating the
/// centroids that are handed out gives the trained centroids back.
pub proof fn law_output_rotates_back(m: Model, vc: Seq<int>, vm: Seq<int>, bc: int, bm: int, c: int, s: int)
    requires
        m.geometry(),
        m.n_clusters * m.d <= m.horizontal_centroids.len(),
        0 <= c < m.n_clusters,
        0 <= s < m.d,
        0 <= bc,
        0 <= bm,
        bc * bm * m.d < 0x100_0000,
        (bc * bm * m.d) * bm * m.d < 0x100_0000,
        whole_front(m.horizontal_centroids, vc, (m.n_clusters * m.d) as int, bc),
        whole_front(m.pruner.matrix, vm, (m.d * m.d) as int, bm),
        orthonormal_rows(vm, m.d as int),
    ensures
        is_whole(
            m.pruner.rotated(m.output(true), zeros(m.n_clusters * m.d), m.n_clusters)[c * m.d + s],
            vc[c * m.d + s],
        ),
{
    let d = m.d as int;
    let k = m.n_clusters as int;
    let out = m.output(true);
    let zero = zeros(m.n_clusters * m.d);
    let back = Seq::new(
        (k * d) as nat,
        |x: int| dot_of(row_entry(vc, d, x / d), column_entry(vm, d, x % d), d as nat),
    );
    let bound = bc * bm * d;
    assert(bound >= 0) by (nonlinear_arith)
        requires
            bound == bc * bm * d,
            bc >= 0,
            bm >= 0,
            d >= 0,
    ;
    assert forall|x: int| 0 <= x < k * d implies is_whole(out[x], back[x]) && -bound <= back[x] <= bound by {
        crate::common::lemma_position(x, k, d);
        law_unrotated_on_integers(m.pruner, m.horizontal_centroids, zero, m.n_clusters, vc, vm, bc, bm, x / d, x % d);
    }
    assert(whole_front(out, back, k * d, bound));
    law_rotated_on_integers(m.pruner, out, zero, m.n_clusters, back, vm, bound, bm, c, s);
    let x = row_entry(vc, d, c);
    let e = |j: int| dot_of(x, column_entry(vm, d, j), d as nat);
    let f = row_entry(back, d, c);
    lemma_row(c, k, d);
    assert forall|j: int| 0 <= j < d implies #[trigger] f(j) == e(j) by {
        lemma_cell(c, j, d);
    }
    lemma_dot_same(f, row_entry(vm, d, s), e, row_entry(vm, d, s), d as nat);
    lemma_there_and_back(x, vm, d, d as nat, s);
}

} // verus!
