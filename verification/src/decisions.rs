//! What the decisions between the iterations come to: when the iterations end, how the number of
//! dimensions changes, and how clusters are split and pulled.
use crate::common::{
    BALANCING_THRESHOLD, CENTER_ADJUSTMENT_WEIGHT, CENTROID_PERTURBATION_EPS, MIN_PARTIAL_D,
};
use crate::errors::{close, lemma_close_cancelled, lemma_difference_error, lemma_quotient_error};
use crate::exact::{
    is_whole, lemma_exact_times, lemma_whole_minus, lemma_whole_order, lemma_whole_over, lemma_whole_plus,
    lemma_whole_times, lemma_zero,
};
use crate::hierarchical::refinement_partial_d;
use crate::ieee::{lemma_format, lemma_units_sign, rounded, Format};
use crate::lengths::{lemma_nearest_finite, near};
use crate::numbers::{
    law_integer_bits, lemma_epsilon, lemma_exact, lemma_from_nat, lemma_minus, lemma_one, lemma_nearest_single,
    lemma_order_of_values, lemma_plus, lemma_times, nearest_single,
};
use crate::rng::RandomStream;
use crate::rounding::lemma_round_exact;
use crate::single::{lemma_of_parts, Single, EPSILON, ONE, TWO, ZERO};
use crate::splitting::{
    average_size, donor_chance, grown, is_small, large_cluster, pull_chance, pulled_rows, shrunk, small_size, split_rows,
    split_sizes, surplus,
};
use crate::superkmeans::{first_partial_d, never_prunes, tuned, Model, SuperKMeansConfig};
use vstd::arithmetic::div_mod::*;
use vstd::arithmetic::power2::*;
use vstd::prelude::*;

verus! {

/// Finite numbers are compared by their values.
pub proof fn lemma_below_by_value(a: Single, b: Single)
    requires
        a.is_finite(),
        b.is_finite(),
    ensures
        a.below(b) <==> a.units() < b.units(),
{
    reveal(Single::below);
    lemma_order_of_values(a, b);
    lemma_order_of_values(b, a);
}

/// The iterations end when the centroids have moved by less than the tolerance. The first iteration
/// ends them in no other case.
pub proof fn law_ends_when_nothing_moves(m: Model, iter: u32)
    requires
        m.shift.is_finite(),
        m.config.tol.is_finite(),
    ensures
        m.shift.units() < m.config.tol.units() ==> m.converged(iter),
        iter == 0 && m.shift.units() >= m.config.tol.units() ==> !m.converged(iter),
{
    lemma_below_by_value(m.shift, m.config.tol);
}

/// Later iterations end them too when the cost is more than `1 - tol` of the cost before, and in no
/// other case, but for rounding.
pub proof fn law_ends_when_nothing_improves(m: Model, iter: u32)
    requires
        iter > 0,
        m.config.tol.is_finite(),
        0 <= m.config.tol.units() <= pow2(149),
        m.cost.is_finite(),
        m.prev_cost.is_finite(),
        m.prev_cost.units() >= pow2(126),
        m.cost.over(m.prev_cost).is_finite(),
        m.cost.units() * pow2(149) >= 0x80_0000 * m.prev_cost.units(),
    ensures
        ({
            let one = pow2(149) as int;
            let bound = 0x100_0000 * (one - m.config.tol.units());
            &&& 0xff_ffff * (m.cost.units() * one) > m.prev_cost.units() * (bound + one) ==> m.converged(iter)
            &&& 0x100_0001 * (m.cost.units() * one) < m.prev_cost.units() * (bound - one) && m.shift.is_finite()
                && m.shift.units() >= m.config.tol.units() ==> !m.converged(iter)
        }),
{
    let w = pow2(149) as int;
    lemma_pow2_pos(149);
    lemma_pow2_pos(126);
    lemma_one();
    lemma_epsilon();
    let one = Single { bits: ONE };
    let tol = m.config.tol;
    let p = m.prev_cost.units();
    let c = m.cost.units();
    lemma_below_by_value(m.prev_cost, Single { bits: EPSILON });
    assert(m.prev_cost.larger(Single { bits: EPSILON }) == m.prev_cost);
    if m.shift.is_finite() {
        lemma_below_by_value(m.shift, tol);
    }
    assert(c >= 0) by (nonlinear_arith)
        requires
            c * w >= 0x80_0000 * p,
            p > 0,
            w > 0,
    ;
    lemma_quotient_error(m.cost, m.prev_cost);
    let q = m.cost.over(m.prev_cost);
    // One less the tolerance.
    let rest = one.minus(tol);
    lemma_minus(one, tol);
    lemma_pow2_strictly_increases(149, 270);
    lemma_nearest_finite(w - tol.units(), 1);
    lemma_nearest_single(w - tol.units(), w - tol.units(), 1);
    lemma_nearest_single(w - tol.units(), w, 1);
    lemma_exact(one);
    assert(rest.is_finite());
    lemma_order_of_values(rest, one);
    lemma_difference_error(one, tol);
    let u = rest.units();
    lemma_below_by_value(rest, q);
    assert(u >= 0) by {
        lemma_nearest_single(0, w - tol.units(), 1);
        let zero = Single { bits: ZERO };
        lemma_zero();
        lemma_exact(zero);
        lemma_order_of_values(zero, rest);
        lemma_order_of_values(rest, zero);
    }
    assert(near(u, w - tol.units(), w));
    lemma_compared(u, q.units(), p, c, w, w - tol.units());
}

proof fn lemma_compared(u: int, q: int, p: int, c: int, w: int, r: int)
    requires
        p > 0,
        close(q * p, c * w, 1),
        near(u, r, w),
    ensures
        0xff_ffff * (c * w) > p * (0x100_0000 * r + w) ==> u < q,
        0x100_0001 * (c * w) < p * (0x100_0000 * r - w) ==> q < u,
{
    let n: int = 0x100_0000;
    let cw = c * w;
    let qp = q * p;
    if 0xff_ffff * cw > p * (n * r + w) {
        assert(n * qp >= 0xff_ffff * cw);
        assert(p * (n * u) <= p * (n * r + w)) by (nonlinear_arith)
            requires
                n * u <= n * r + w,
                p > 0,
        ;
        assert(u < q) by (nonlinear_arith)
            requires
                n * (q * p) > p * (n * u),
                n == 0x100_0000,
                p > 0,
        ;
    }
    if 0x100_0001 * cw < p * (n * r - w) {
        assert(n * qp <= 0x100_0001 * cw);
        assert(p * (n * u) >= p * (n * r - w)) by (nonlinear_arith)
            requires
                n * u >= n * r - w,
                p > 0,
        ;
        assert(q < u) by (nonlinear_arith)
            requires
                n * (q * p) < p * (n * u),
                n == 0x100_0000,
                p > 0,
        ;
    }
}

/// More dimensions where too much was left over, fewer where little was, and as many as before in
/// between.
pub proof fn law_tuned_direction(config: SuperKMeansConfig, partial_d: u32, vertical_d: nat, share: Single)
    requires
        MIN_PARTIAL_D <= partial_d <= vertical_d <= u32::MAX,
        share.is_finite(),
        config.max_not_pruned_pct.is_finite(),
        config.min_not_pruned_pct.is_finite(),
        config.min_not_pruned_pct.units() <= config.max_not_pruned_pct.units(),
    ensures
        ({
            let r = tuned(config, partial_d, vertical_d, share);
            &&& share.units() > config.max_not_pruned_pct.units() ==> r > partial_d || r == vertical_d
            &&& share.units() < config.min_not_pruned_pct.units() ==> r < partial_d || r == MIN_PARTIAL_D
            &&& config.min_not_pruned_pct.units() <= share.units() <= config.max_not_pruned_pct.units() ==> r
                == partial_d
        }),
{
    lemma_below_by_value(config.max_not_pruned_pct, share);
    lemma_below_by_value(share, config.min_not_pruned_pct);
}

/// Where the step is an integer of dimensions, it is taken down once and up twice, at least one
/// dimension, as far as there is room.
pub proof fn law_tuned_step(config: SuperKMeansConfig, partial_d: u32, vertical_d: nat, share: Single, step: int)
    requires
        MIN_PARTIAL_D <= partial_d <= vertical_d < 0x40_0000,
        share.is_finite(),
        config.max_not_pruned_pct.is_finite(),
        config.min_not_pruned_pct.is_finite(),
        config.min_not_pruned_pct.units() <= config.max_not_pruned_pct.units(),
        config.adjustment_factor_for_partial_d.is_finite(),
        0 <= step < 0x40_0000,
        partial_d * config.adjustment_factor_for_partial_d.units() == step * pow2(149),
    ensures
        ({
            let r = tuned(config, partial_d, vertical_d, share);
            let down = if step < 1 { 1 } else { step };
            let up = if step < 1 { 1 } else { 2 * step };
            &&& share.units() > config.max_not_pruned_pct.units() ==> r == partial_d + up || (r == vertical_d
                && partial_d + up >= vertical_d)
            &&& share.units() < config.min_not_pruned_pct.units() ==> r == partial_d - down || (r == MIN_PARTIAL_D
                && partial_d - down <= MIN_PARTIAL_D)
        }),
{
    let w = pow2(149) as int;
    lemma_below_by_value(config.max_not_pruned_pct, share);
    lemma_below_by_value(share, config.min_not_pruned_pct);
    lemma_from_nat(partial_d as nat);
    let f = config.adjustment_factor_for_partial_d;
    let a = Single::from_nat(partial_d as nat);
    assert((partial_d * w) * f.units() == (step * w) * w) by (nonlinear_arith)
        requires
            partial_d * f.units() == step * w,
    ;
    lemma_exact_times(a, f, step);
    let s = a.times(f);
    law_integer_bits();
    lemma_from_nat(2);
    lemma_whole_times(s, step, Single { bits: TWO }, 2);
    lemma_whole_part(s, step as nat, u32::MAX as nat);
    lemma_whole_part(s.times(Single { bits: TWO }), (step * 2) as nat, u32::MAX as nat);
}

/// The integer part of an integer.
proof fn lemma_whole_part(s: Single, v: nat, max: nat)
    requires
        is_whole(s, v as int),
        v <= max,
    ensures
        s.whole(max) == v,
{
    reveal(Single::whole);
    lemma_format(Format::single());
    let t = pow2(149);
    lemma_pow2_pos(149);
    lemma_order_of_values(s, s);
    assert(v * t >= 0) by (nonlinear_arith)
        requires
            v >= 0,
            t > 0,
    ;
    lemma_fundamental_div_mod_converse((v * t) as int, t as int, v as int, 0);
    if v == 0 {
        assert(0 * t == 0);
        assert(s.order() == 0);
        lemma_units_sign(Format::single(), s.parts().mag as nat);
        lemma_fundamental_div_mod_converse(0, t as int, 0, 0);
    } else {
        assert(v * t > 0) by (nonlinear_arith)
            requires
                v > 0,
                t > 0,
        ;
    }
}

/// The factors by which two rows are moved apart.
proof fn lemma_factors()
    ensures
        grown().is_finite(),
        grown().units() == 1025 * pow2(139),
        shrunk().is_finite(),
        shrunk().units() == 1023 * pow2(139),
        1024 * pow2(139) == pow2(149),
{
    let one = Single { bits: ONE };
    let eps = Single { bits: CENTROID_PERTURBATION_EPS };
    let up = Single { bits: 0x3f80_2000 };
    let down = Single { bits: 0x3f7f_c000 };
    lemma_one();
    assert(0x3a80_0000u32 & 0x7fff_ffff == 0x3a80_0000 && 0x3f80_2000u32 & 0x7fff_ffff == 0x3f80_2000 && 0x3f7f_c000u32
        & 0x7fff_ffff == 0x3f7f_c000) by (bit_vector);
    lemma_format(Format::single());
    lemma2_to64();
    lemma_fundamental_div_mod_converse(0x3a80_0000, 0x80_0000, 117, 0);
    lemma_fundamental_div_mod_converse(0x3f80_2000, 0x80_0000, 127, 0x2000);
    lemma_fundamental_div_mod_converse(0x3f7f_c000, 0x80_0000, 126, 0x7f_c000);
    lemma_pow2_adds(23, 116);
    lemma_pow2_adds(13, 126);
    lemma_pow2_adds(14, 125);
    lemma_pow2_adds(10, 139);
    assert(eps.is_finite() && eps.units() == pow2(139)) by {
        assert((0x80_0000nat + 0) * pow2(116) == pow2(139));
    }
    assert(up.is_finite() && up.units() == 1025 * pow2(139)) by {
        assert((0x80_0000nat + 0x2000) * pow2(126) == 1025 * pow2(139)) by (nonlinear_arith)
            requires
                pow2(139) == 0x2000 * pow2(126),
        ;
    }
    assert(down.is_finite() && down.units() == 1023 * pow2(139)) by {
        assert((0x80_0000nat + 0x7f_c000) * pow2(125) == 1023 * pow2(139)) by (nonlinear_arith)
            requires
                pow2(139) == 0x4000 * pow2(125),
        ;
    }
    lemma_plus(one, eps);
    lemma_exact(up);
    lemma_order_of_values(grown(), up);
    lemma_order_of_values(up, grown());
    lemma_minus(one, eps);
    lemma_exact(down);
    lemma_order_of_values(shrunk(), down);
    lemma_order_of_values(down, shrunk());
}

/// Where the donor's entry is `1024 v`, the two rows get `1025 v` and `1023 v`, in turn: so the donor
/// stays in the middle of the two, and they lie apart in each entry that is not zero. All other rows
/// stay as they are.
pub proof fn law_split_rows(centroids: Seq<Single>, d: int, ci: int, cj: int, j: int, v: int)
    requires
        0 <= j < d,
        0 <= ci,
        0 <= cj,
        ci != cj,
        (ci + 1) * d <= centroids.len(),
        (cj + 1) * d <= centroids.len(),
        is_whole(centroids[cj * d + j], 1024 * v),
        -0x3ff0 < v < 0x3ff0,
    ensures
        ({
            let r = split_rows(centroids, d, ci, cj, d);
            let s = if j % 2 == 0 { 1int } else { -1int };
            &&& is_whole(r[ci * d + j], 1024 * v + s * v)
            &&& is_whole(r[cj * d + j], 1024 * v - s * v)
            &&& r.len() == centroids.len()
            &&& forall|x: int|
                0 <= x < centroids.len() && x / d != ci && x / d != cj ==> #[trigger] r[x] == centroids[x]
        }),
{
    lemma_factors();
    let w = pow2(149) as int;
    let h = pow2(139) as int;
    lemma_fundamental_div_mod_converse(ci * d + j, d, ci, j);
    lemma_fundamental_div_mod_converse(cj * d + j, d, cj, j);
    let a = centroids[cj * d + j];
    assert((ci + 1) * d == ci * d + d && (cj + 1) * d == cj * d + d && 0 <= ci * d && 0 <= cj * d) by (nonlinear_arith)
        requires
            0 <= ci,
            0 <= cj,
            0 < d,
    ;
    assert((1024 * v * w) * (1025 * h) == ((1025 * v) * w) * w && (1024 * v * w) * (1023 * h) == ((1023 * v) * w) * w)
        by (nonlinear_arith)
        requires
            1024 * h == w,
    ;
    lemma_exact_times(a, grown(), 1025 * v);
    lemma_exact_times(a, shrunk(), 1023 * v);
    assert(1024 * v + 1 * v == 1025 * v && 1024 * v - (-1) * v == 1025 * v && 1024 * v - 1 * v == 1023 * v && 1024 * v
        + (-1) * v == 1023 * v);
}

/// An empty cluster and its donor share what the donor had: the same, but for one at most. No other
/// size changes.
pub proof fn law_split_sizes(sizes: Seq<u32>, ci: int, cj: int)
    requires
        0 <= ci < sizes.len(),
        0 <= cj < sizes.len(),
        ci != cj,
        sizes[ci] == 0,
    ensures
        ({
            let r = split_sizes(sizes, ci, cj);
            &&& r.len() == sizes.len()
            &&& r[ci] + r[cj] == sizes[cj]
            &&& r[ci] <= r[cj] <= r[ci] + 1
            &&& forall|c: int| 0 <= c < sizes.len() && c != ci && c != cj ==> #[trigger] r[c] == sizes[c]
        }),
{
}

/// A cluster of `size` members donates with the chance `(size - 1) / (n - k)`, but for rounding: one
/// member alone never, and all that can be spared always.
pub proof fn law_donor_chance(size: u32, n: nat, k: nat)
    requires
        0 < k < n < 0x100_0000,
        0 < size <= n - k + 1,
    ensures
        donor_chance(size, surplus(n, k)).is_finite() ==> close(
            donor_chance(size, surplus(n, k)).units() * (n - k),
            (size - 1) * pow2(149),
            1,
        ),
        size == 1 ==> is_whole(donor_chance(size, surplus(n, k)), 0),
        size == n - k + 1 ==> is_whole(donor_chance(size, surplus(n, k)), 1),
{
    let w = pow2(149) as int;
    lemma_pow2_pos(149);
    lemma_from_nat(n);
    lemma_from_nat(k);
    lemma_from_nat(size as nat);
    law_integer_bits();
    lemma_from_nat(1);
    let one = Single { bits: ONE };
    let a = Single::from_nat(n);
    let b = Single::from_nat(k);
    let c = Single::from_nat(size as nat);
    lemma_whole_minus(a, n as int, b, k as int);
    let rest = a.minus(b);
    lemma_whole_order(one, 1, rest, n - k);
    lemma_below_by_value(rest, one);
    assert(!rest.below(one)) by (nonlinear_arith)
        requires
            rest.below(one) <==> rest.units() < one.units(),
            rest.units() == (n - k) * w,
            one.units() == 1 * w,
            n - k >= 1,
            w > 0,
    ;
    assert(surplus(n, k) == rest);
    lemma_whole_minus(c, size as int, one, 1);
    let less = c.minus(one);
    let chance = donor_chance(size, surplus(n, k));
    let s = size - 1;
    let m = n - k;
    if size == 1 {
        assert(0 * m == 0);
        lemma_whole_over(less, rest, 0, m);
    }
    if size == n - k + 1 {
        assert(1 * m == m);
        lemma_whole_over(less, rest, 1, m);
    }
    if chance.is_finite() {
        lemma2_to64_rest();
        lemma_pow2_strictly_increases(48, 149);
        assert(s * w >= 0 && m * w > 0 && (s > 0 ==> (s * w) * w >= 0x80_0000 * (m * w))) by (nonlinear_arith)
            requires
                s >= 0,
                0 < m < 0x100_0000,
                w >= 0x100_0000 * 0x100_0000,
        {
            if s > 0 {
                assert((s * w) * w >= w * w) by (nonlinear_arith)
                    requires
                        s >= 1,
                        w > 0,
                ;
                assert(w * w >= 0x80_0000 * (m * w)) by (nonlinear_arith)
                    requires
                        0 < m < 0x100_0000,
                        w >= 0x100_0000 * 0x100_0000,
                ;
            }
        }
        lemma_quotient_error(less, rest);
        assert(chance.units() * (m * w) == (chance.units() * m) * w) by (nonlinear_arith);
        lemma_close_cancelled(chance.units() * m, s * w, 1, w);
    }
}

/// A small cluster is pulled to the mean of its own centroid, which weighs as much as it has members,
/// up to 7, and that of the other. All other rows stay as they are.
pub proof fn law_pulled_rows(centroids: Seq<Single>, d: int, ci: int, cj: int, size: u32, j: int, a: int, b: int, mean: int)
    requires
        0 <= j < d,
        0 <= ci,
        0 <= cj,
        (ci + 1) * d <= centroids.len(),
        (cj + 1) * d <= centroids.len(),
        0 < size < 0x100_0000,
        is_whole(centroids[ci * d + j], a),
        is_whole(centroids[cj * d + j], b),
        -0x10_0000 < a < 0x10_0000,
        -0x10_0000 < b < 0x10_0000,
        ({
            let weight = if size < 7 { size as int } else { 7 };
            weight * a + b == mean * (weight + 1)
        }),
    ensures
        is_whole(pulled_rows(centroids, d, ci, cj, size, d)[ci * d + j], mean),
        forall|x: int|
            0 <= x < centroids.len() && x / d != ci ==> #[trigger] pulled_rows(centroids, d, ci, cj, size, d)[x]
                == centroids[x],
{
    let w = pow2(149) as int;
    lemma_pow2_pos(149);
    lemma_fundamental_div_mod_converse(ci * d + j, d, ci, j);
    assert((ci + 1) * d == ci * d + d && (cj + 1) * d == cj * d + d && 0 <= ci * d && 0 <= cj * d) by (nonlinear_arith)
        requires
            0 <= ci,
            0 <= cj,
            0 < d,
    ;
    let one = Single { bits: ONE };
    let seven = Single { bits: CENTER_ADJUSTMENT_WEIGHT };
    lemma_seven();
    law_integer_bits();
    lemma_from_nat(1);
    lemma_from_nat(size as nat);
    let s = Single::from_nat(size as nat);
    lemma_below_by_value(seven, s);
    let weight = if size < 7 {
        size as int
    } else {
        7
    };
    let wc = s.smaller(seven);
    assert(is_whole(wc, weight)) by {
        assert(seven.below(s) <==> 7 < size) by (nonlinear_arith)
            requires
                seven.below(s) <==> seven.units() < s.units(),
                seven.units() == 7 * w,
                s.units() == size * w,
                w > 0,
        ;
    }
    let x = centroids[ci * d + j];
    let y = centroids[cj * d + j];
    assert(-0x80_0000 < weight * a < 0x80_0000 && -0x100_0000 < mean < 0x100_0000) by (nonlinear_arith)
        requires
            1 <= weight <= 7,
            -0x10_0000 < a < 0x10_0000,
            -0x10_0000 < b < 0x10_0000,
            weight * a + b == mean * (weight + 1),
    ;
    lemma_whole_times(wc, weight, x, a);
    assert(1 * b == b);
    lemma_whole_times(one, 1, y, b);
    lemma_whole_plus(wc.times(x), weight * a, one.times(y), b);
    lemma_whole_plus(wc, weight, one, 1);
    lemma_whole_over(wc.times(x).plus(one.times(y)), wc.plus(one), mean, weight + 1);
}

proof fn lemma_seven()
    ensures
        is_whole(Single { bits: CENTER_ADJUSTMENT_WEIGHT }, 7),
{
    assert(0x40e0_0000u32 & 0x7fff_ffff == 0x40e0_0000) by (bit_vector);
    lemma_format(Format::single());
    lemma2_to64();
    lemma_fundamental_div_mod_converse(0x40e0_0000, 0x80_0000, 129, 0x60_0000);
    lemma_pow2_adds(21, 128);
    assert((0x80_0000nat + 0x60_0000) * pow2(128) == 7 * pow2(149)) by (nonlinear_arith)
            requires
                pow2(149) == 0x200000 * pow2(128),
        ;
}

/// A cluster is small if it has members, but not more than a quarter of the average.
pub proof fn law_small_clusters(size: u32, n: nat, k: nat)
    requires
        0 < k,
        n / k < 0x100_0000,
        size < 0x100_0000,
    ensures
        is_small(size, average_size(n, k)) <==> 0 < size && size <= (n / k) / 4,
{
    let average = (n / k) as nat;
    let quarter = Single { bits: BALANCING_THRESHOLD };
    assert(0x3e80_0000u32 & 0x7fff_ffff == 0x3e80_0000) by (bit_vector);
    lemma_format(Format::single());
    lemma2_to64();
    lemma_fundamental_div_mod_converse(0x3e80_0000, 0x80_0000, 125, 0);
    lemma_pow2_adds(23, 124);
    lemma_pow2_adds(2, 147);
    let h = pow2(147) as int;
    let w = pow2(149) as int;
    assert(quarter.is_finite() && quarter.units() == h) by {
        assert((0x80_0000nat + 0) * pow2(124) == pow2(147));
    }
    lemma_from_nat(average);
    let a = Single::from_nat(average);
    // A quarter of a short integer is exact.
    let r = a.times(quarter);
    lemma_quarter(a, quarter, average);
    let c = small_size(average_size(n, k));
    lemma_pow2_pos(147);
    lemma_pow2_pos(149);
    assert(c == average / 4) by {
        reveal(Single::whole);
        assert(average_size(n, k) == a);
        lemma_order_of_values(r, r);
        let u = average * h;
        assert(u >= 0) by (nonlinear_arith)
            requires
                u == average * h,
                h > 0,
        ;
        lemma_units_sign(Format::single(), r.parts().mag as nat);
        let q = (average / 4) as int;
        let rest = (average % 4) as int;
        assert(u == q * w + rest * h && 0 <= rest * h < w) by (nonlinear_arith)
            requires
                u == average * h,
                average == 4 * q + rest,
                0 <= rest <= 3,
                w == 4 * h,
                h > 0,
        ;
        lemma_fundamental_div_mod_converse(u, w, q, rest * h);
        if average == 0 {
            assert(0 * h == 0);
        } else {
            assert(u > 0) by (nonlinear_arith)
                requires
                    u == average * h,
                    average > 0,
                    h > 0,
            ;
        }
    }
    lemma_from_nat(c);
    lemma_from_nat(size as nat);
    lemma_below_by_value(Single::from_nat(c), Single::from_nat(size as nat));
    assert((c * w < size * w) <==> c < size) by (nonlinear_arith)
        requires
            w > 0,
    ;
}

proof fn lemma_quarter(a: Single, quarter: Single, average: nat)
    requires
        is_whole(a, average as int),
        average < 0x100_0000,
        quarter.is_finite(),
        quarter.units() == pow2(147),
    ensures
        a.times(quarter).is_finite(),
        a.times(quarter).units() == average * pow2(147),
{
    let h = pow2(147);
    let w = pow2(149);
    lemma_pow2_pos(147);
    lemma_pow2_pos(149);
    let v = average * h;
    assert(a.units() * quarter.units() == v * w) by (nonlinear_arith)
        requires
            a.units() == average * w,
            quarter.units() == h,
            v == average * h,
    ;
    lemma_times(a, quarter);
    lemma2_to64();
    assert(v * w == w * (average * h)) by (nonlinear_arith)
        requires
            v == average * h,
    ;
    lemma_round_exact(v * w, w, average, 147, 24);
    lemma_pow2_adds(24, 147);
    lemma_pow2_strictly_increases(171, 270);
    assert(v <= pow2(270) && v * w <= pow2(270) * w) by (nonlinear_arith)
        requires
            v == average * h,
            average < 0x100_0000,
            pow2(171) == 0x100_0000 * h,
            pow2(171) < pow2(270),
            h > 0,
            w > 0,
    ;
    assert(v * w >= 0) by (nonlinear_arith)
        requires
            v >= 0,
            w >= 0,
    ;
    let n = nearest_single((v * w) as int, w);
    lemma_nearest_finite((v * w) as int, w);
    lemma_nearest_single((v * w) as int, (v * w) as int, w);
    lemma_format(Format::single());
    lemma_of_parts(rounded(Format::single(), false, v * w, w));
    assert(n.units() == v);
    lemma_order_of_values(n, a.times(quarter));
    lemma_order_of_values(a.times(quarter), n);
}

/// A cluster that pulls a small one has at least the average size.
pub proof fn law_only_large_clusters_pull(sizes: Seq<u32>, n: nat, k: nat, stream: RandomStream, at: nat, rounds: nat)
    requires
        0 < k,
        n / k < 0x100_0000,
        k <= sizes.len(),
        forall|c: int| 0 <= c < k ==> #[trigger] sizes[c] < 0x100_0000,
    ensures
        match large_cluster(sizes, n, k, average_size(n, k), stream, at, rounds).0 {
            Some(c) => c < k && sizes[c as int] >= n / k,
            None => true,
        },
    decreases rounds, k - at,
{
    if rounds > 0 && at < k {
        let average = average_size(n, k);
        let size = sizes[at as int] as nat;
        lemma_from_nat(size);
        lemma_from_nat(n / k);
        lemma_below_by_value(Single::from_nat(size), average);
        lemma_pow2_pos(149);
        let w = pow2(149);
        let a = (n / k) as int;
        assert(size * w < a * w <==> size < a) by (nonlinear_arith)
            requires
                w > 0,
        ;
        let large = !Single::from_nat(size).below(average);
        let next = if large {
            stream.drawn_unit().1
        } else {
            stream
        };
        if at + 1 == k {
            law_only_large_clusters_pull(sizes, n, k, next, 0, (rounds - 1) as nat);
        } else {
            law_only_large_clusters_pull(sizes, n, k, next, at + 1, rounds);
        }
    }
}

/// Such a cluster pulls with the chance `(size - a + 1) / (n - a k + k)`, but for rounding, where `a` is
/// the average size.
pub proof fn law_pull_chance(size: u32, n: nat, k: nat)
    requires
        0 < k <= n,
        n + k < 0x100_0000,
        n / k <= size <= n,
        pull_chance(size, average_size(n, k), n, k).is_finite(),
    ensures
        close(
            pull_chance(size, average_size(n, k), n, k).units() * (n - (n / k) * k + k),
            (size - n / k + 1) * pow2(149),
            1,
        ),
{
    let w = pow2(149) as int;
    lemma_pow2_pos(149);
    let a = (n / k) as int;
    lemma_fundamental_div_mod(n as int, k as int);
    lemma_mod_bound(n as int, k as int);
    assert(a * k == k * a && a >= 0) by (nonlinear_arith)
        requires
            a == n / k,
            n >= 0,
            k > 0,
    ;
    assert(a <= n) by (nonlinear_arith)
        requires
            a * k <= n,
            k >= 1,
            a >= 0,
    ;
    lemma_from_nat(n);
    lemma_from_nat(k);
    lemma_from_nat(size as nat);
    lemma_from_nat(a as nat);
    law_integer_bits();
    lemma_from_nat(1);
    let one = Single { bits: ONE };
    let average = average_size(n, k);
    let c = Single::from_nat(size as nat);
    let all = Single::from_nat(n);
    let many = Single::from_nat(k);
    lemma_whole_minus(c, size as int, average, a);
    lemma_whole_plus(c.minus(average), size - a, one, 1);
    lemma_whole_times(average, a, many, k as int);
    lemma_whole_minus(all, n as int, average.times(many), a * k);
    lemma_whole_plus(all.minus(average.times(many)), n - a * k, many, k as int);
    let top = c.minus(average).plus(one);
    let bottom = all.minus(average.times(many)).plus(many);
    let s = size - a + 1;
    let m = n - a * k + k;
    lemma2_to64_rest();
    lemma_pow2_strictly_increases(48, 149);
    assert(s * w >= 0 && m * w > 0 && (s * w) * w >= 0x80_0000 * (m * w)) by (nonlinear_arith)
        requires
            s >= 1,
            0 < m < 0x100_0000,
            w >= 0x100_0000 * 0x100_0000,
    {
        assert((s * w) * w >= w * w) by (nonlinear_arith)
            requires
                s >= 1,
                w > 0,
        ;
        assert(w * w >= 0x80_0000 * (m * w)) by (nonlinear_arith)
            requires
                0 < m < 0x100_0000,
                w >= 0x100_0000 * 0x100_0000,
        ;
    }
    lemma_quotient_error(top, bottom);
    let u = pull_chance(size, average, n, k).units();
    assert(u * (m * w) == (u * m) * w) by (nonlinear_arith);
    lemma_close_cancelled(u * m, s * w, 1, w);
}

/// Training starts with half of the vertical dimensions, refinement with a third, and the search for
/// the clusters of given vectors with half: rounded down, and not below the fewest that are useful.
pub proof fn law_first_dimensions(m: Model)
    requires
        m.vertical_d <= u32::MAX,
    ensures
        ({
            let v = m.vertical_d as int;
            let p = first_partial_d(m.vertical_d) as int;
            let q = refinement_partial_d(m.vertical_d) as int;
            let r = m.assigning_partial_d() as int;
            &&& v >= 2 * MIN_PARTIAL_D ==> 2 * p <= v <= 2 * p + 1 && p == r
            &&& v >= 3 * MIN_PARTIAL_D ==> 3 * q <= v <= 3 * q + 2
            &&& p <= v
            &&& q >= MIN_PARTIAL_D && r >= MIN_PARTIAL_D
            &&& v >= MIN_PARTIAL_D ==> p >= MIN_PARTIAL_D && q <= v && r <= v
        }),
{
}

/// Where few dimensions or clusters can be pruned, more can; and matrix products alone never prune.
pub proof fn law_pruning_needs_size(d: nat, k: nat, e: nat, l: nat, use_blas_only: bool)
    requires
        d <= e,
        k <= l,
    ensures
        !never_prunes(d, use_blas_only, k) ==> !never_prunes(e, use_blas_only, l),
        never_prunes(d, true, k),
{
}

} // verus!
