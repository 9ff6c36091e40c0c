//! How far rows that are brought to length 1 are from it.
use crate::adsampling::sum_of_squares;
use crate::centroids::{inverse_length, law_normalized_row, normalized};
use crate::common::{lemma_cell, lemma_row};
use crate::double::lemma_units_ordered;
use crate::errors::lemma_factors_finite;
use crate::ieee::{
    integer_root, lemma_format, lemma_integer_root, lemma_units_sign, nan, quotient, root_magnitude, rounded,
    square_root, Format,
};
use crate::numbers::{
    law_plus_commutes, law_plus_nothing_smaller, law_square_not_below_zero, lemma_epsilon, lemma_finite, lemma_nearest_single,
    lemma_one, lemma_order_of_values, lemma_plus, lemma_terms_finite, lemma_times, nearest_single,
};
use crate::rounding::{binade, lemma_binade, lemma_round_error, lemma_units_of, nearest_even, round_magnitude, units};
use crate::single::{lemma_below, lemma_of_parts, lemma_parts_roundtrip, Single, EPSILON, ONE};
use crate::utils::blobs;
use vstd::arithmetic::div_mod::*;
use vstd::arithmetic::power2::*;
use vstd::prelude::*;

verus! {

/// `a` and `b` differ by at most `e / 2^24`.
pub open spec fn near(a: int, b: int, e: int) -> bool {
    0x100_0000 * (a - b) <= e && 0x100_0000 * (b - a) <= e
}

pub open spec fn magnitude(a: int) -> int {
    if a < 0 {
        -a
    } else {
        a
    }
}

/// A rounded value `u` of `n / d` units is off by at most 2^-24 of itself, and of the value, but for
/// half a unit.
pub(crate) proof fn lemma_rounding_error(n: nat, d: nat)
    requires
        d > 0,
    ensures
        ({
            let u = units(round_magnitude(n, d, 24), 24);
            &&& near((u * d) as int, n as int, (n + 0x80_0000 * d) as int)
            &&& d == 1 ==> near(u as int, n as int, u as int)
            &&& n >= 0x80_0000 * d ==> near((u * d) as int, n as int, n as int)
        }),
{
    let k = binade(n, d, 24);
    let u = units(round_magnitude(n, d, 24), 24);
    lemma_round_error(n, d, 24);
    lemma_binade(n, d, 24);
    lemma_format(Format::single());
    let b = pow2(k);
    lemma_pow2_pos(k);
    let m = nearest_even(n, d * b);
    assert(d == 1 ==> u * d == u && d * b == b) by (nonlinear_arith);
    if k == 0 {
        lemma2_to64();
        assert(d * b == d) by (nonlinear_arith)
            requires
                b == 1,
        ;
    } else {
        lemma_pow2_adds(23, k);
        assert(d * (0x80_0000 * b) == 0x80_0000 * (d * b)) by (nonlinear_arith);
        assert(0x80_0000 * (d * b) <= n);
        if d == 1 {
            assert(0x80_0000 * b <= m * b) by (nonlinear_arith)
                requires
                    m >= 0x80_0000,
                    b > 0,
            ;
        }
    }
}

/// A finite number nearest to `v / d` units is off by no more than that.
pub(crate) proof fn lemma_nearest_value(v: int, d: nat)
    requires
        d > 0,
        nearest_single(v, d).is_finite(),
    ensures
        ({
            let u = nearest_single(v, d).units();
            &&& near(u * d, v, magnitude(v) + 0x80_0000 * d)
            &&& d == 1 ==> near(u, v, magnitude(u))
            &&& magnitude(v) >= 0x80_0000 * d ==> near(u * d, v, magnitude(v))
        }),
{
    let f = Format::single();
    lemma_format(f);
    let n = magnitude(v) as nat;
    lemma_rounding_error(n, d);
    let x = rounded(f, v < 0, n, d);
    lemma_of_parts(x);
    let w = units(round_magnitude(n, d, 24), 24);
    let u = nearest_single(v, d).units();
    assert(x.mag == round_magnitude(n, d, 24));
    if v < 0 {
        assert(u * d == -(w * d)) by (nonlinear_arith)
            requires
                u == -w,
        ;
    }
}

/// A value of fewer than 2^276 units becomes a finite number.
pub(crate) proof fn lemma_nearest_finite(v: int, d: nat)
    requires
        d > 0,
        magnitude(v) <= pow2(270) * d,
    ensures
        nearest_single(v, d).is_finite(),
{
    let f = Format::single();
    lemma_format(f);
    let n = magnitude(v) as nat;
    lemma_rounding_error(n, d);
    let w = units(round_magnitude(n, d, 24), 24);
    let top = pow2(270);
    lemma_pow2_adds(7, 270);
    lemma2_to64();
    lemma_pow2_strictly_increases(24, 270);
    lemma2_to64_rest();
    assert(w < 128 * top) by (nonlinear_arith)
        requires
            0x100_0000 * (w * d) <= 0x100_0000 * n + n + 0x80_0000 * d,
            n <= top * d,
            d > 0,
            top > 1,
            w >= 0,
    ;
    lemma_finite(round_magnitude(n, d, 24));
    lemma_of_parts(rounded(f, v < 0, n, d));
}

/// What a sum of two finite numbers is off by.
pub proof fn lemma_sum_error(a: Single, b: Single)
    requires
        a.is_finite(),
        b.is_finite(),
        a.plus(b).is_finite(),
    ensures
        near(a.plus(b).units(), a.units() + b.units(), magnitude(a.plus(b).units())),
{
    lemma_plus(a, b);
    let v = a.units() + b.units();
    let near = nearest_single(v, 1);
    lemma_nearest_single(v, v, 1);
    assert(near.is_finite());
    lemma_order_of_values(near, a.plus(b));
    lemma_order_of_values(a.plus(b), near);
    lemma_nearest_value(v, 1);
}

/// What a product of two finite numbers is off by.
pub proof fn lemma_product_error(a: Single, b: Single)
    requires
        a.is_finite(),
        b.is_finite(),
        a.times(b).is_finite(),
    ensures
        near(
            a.times(b).units() * pow2(149),
            a.units() * b.units(),
            magnitude(a.units() * b.units()) + 0x80_0000 * pow2(149),
        ),
{
    lemma_times(a, b);
    lemma_pow2_pos(149);
    let v = a.units() * b.units();
    let near = nearest_single(v, pow2(149));
    lemma_nearest_single(v, v, pow2(149));
    assert(near.is_finite());
    lemma_order_of_values(near, a.times(b));
    lemma_order_of_values(a.times(b), near);
    lemma_nearest_value(v, pow2(149));
}

/// A product of finite numbers that is not too large is finite.
pub(crate) proof fn lemma_product_finite(a: Single, b: Single)
    requires
        a.is_finite(),
        b.is_finite(),
        magnitude(a.units() * b.units()) <= pow2(270) * pow2(149),
    ensures
        a.times(b).is_finite(),
{
    lemma_times(a, b);
    lemma_pow2_pos(149);
    let v = a.units() * b.units();
    lemma_nearest_finite(v, pow2(149));
    lemma_nearest_single(v, v, pow2(149));
}

/// What one over a number that is not too large is off by.
pub(crate) proof fn lemma_inverse_error(b: Single)
    requires
        b.is_finite(),
        pow2(100) <= b.units() <= pow2(270),
    ensures
        ({
            let g = (Single { bits: ONE }).over(b);
            &&& g.is_finite()
            &&& g.units() >= 0
            &&& near(g.units() * b.units(), (pow2(149) * pow2(149)) as int, (pow2(149) * pow2(149)) as int)
        }),
{
    reveal(Single::over);
    let f = Format::single();
    let one = Single { bits: ONE };
    lemma_one();
    lemma_format(f);
    lemma_order_of_values(b, b);
    lemma_units_sign(f, b.parts().mag as nat);
    lemma_pow2_pos(100);
    let t = pow2(149);
    let u = b.units() as nat;
    let q = t * t;
    lemma_pow2_adds(149, 149);
    lemma_pow2_adds(23, 270);
    lemma_pow2_adds(270, 100);
    lemma_pow2_strictly_increases(293, 298);
    lemma_pow2_strictly_increases(298, 370);
    assert(q <= pow2(270) * u) by (nonlinear_arith)
        requires
            q <= pow2(270) * pow2(100),
            pow2(100) <= u,
            pow2(270) >= 0,
    ;
    lemma_nearest_finite(q as int, u);
    lemma_nearest_value(q as int, u);
    lemma_nearest_single(q as int, q as int, u);
    let x = rounded(f, false, q, u);
    lemma_of_parts(x);
    assert(quotient(f, one.parts(), b.parts()) == x);
    lemma_order_of_values(nearest_single(q as int, u), b);
}

/// The integer side of a rounded square root: `m` places of `w` next to the root of `v`.
pub(crate) proof fn lemma_root_places(v: int, r: int, q: int, w: int, m: int)
    requires
        0 <= r,
        0 < w,
        0 <= q,
        r * r <= v < (r + 1) * (r + 1),
        q * w <= r < (q + 1) * w,
        0x80_0000 * w <= r,
        m == if 4 * v > ((2 * q + 1) * w) * ((2 * q + 1) * w) {
            q + 1
        } else {
            q
        },
    ensures
        near((m * w) * (m * w), v, 3 * v),
{
    let l = m * w;
    let rr = r * r;
    let lw = l * w;
    let rw = r * w;
    let ww = w * w;
    let ll = l * l;
    assert(0x80_0000 * rw <= rr) by (nonlinear_arith)
        requires
            rw == r * w,
            rr == r * r,
            0x80_0000 * w <= r,
            0 <= r,
    ;
    assert(0x80_0000 * ww <= rw) by (nonlinear_arith)
        requires
            rw == r * w,
            ww == w * w,
            0x80_0000 * w <= r,
            0 < w,
    ;
    if m == q + 1 {
        assert(2 * l - w == (2 * q + 1) * w) by (nonlinear_arith)
            requires
                l == (q + 1) * w,
        ;
        assert(4 * ll - 4 * lw + ww == (2 * l - w) * (2 * l - w)) by (nonlinear_arith)
            requires
                ll == l * l,
                lw == l * w,
                ww == w * w,
        ;
        assert(l <= r + w) by (nonlinear_arith)
            requires
                l == (q + 1) * w,
                q * w <= r,
        ;
        assert((r + 1) * (r + 1) <= ll) by (nonlinear_arith)
            requires
                0 <= r,
                r + 1 <= l,
                ll == l * l,
        ;
        assert(lw <= rw + ww) by (nonlinear_arith)
            requires
                l <= r + w,
                lw == l * w,
                rw == r * w,
                ww == w * w,
                0 < w,
        ;
    } else {
        assert(2 * l + w == (2 * q + 1) * w) by (nonlinear_arith)
            requires
                l == q * w,
        ;
        assert(4 * ll + 4 * lw + ww == (2 * l + w) * (2 * l + w)) by (nonlinear_arith)
            requires
                ll == l * l,
                lw == l * w,
                ww == w * w,
        ;
        assert(ll <= rr) by (nonlinear_arith)
            requires
                0 <= l <= r,
                ll == l * l,
                rr == r * r,
        ;
        assert(lw <= rw) by (nonlinear_arith)
            requires
                l <= r,
                lw == l * w,
                rw == r * w,
                0 < w,
        ;
    }
}

/// What a square root is off by.
pub proof fn lemma_root_error(s: Single)
    requires
        s.is_finite(),
        s.order() > 0,
        s.root().is_finite(),
        s.root().units() >= pow2(100),
    ensures
        near(s.root().units() * s.root().units(), s.units() * pow2(149), 3 * (s.units() * pow2(149))),
{
    reveal(Single::root);
    let f = Format::single();
    lemma_format(f);
    lemma_order_of_values(s, s);
    let t = pow2(149);
    let v = units(s.parts().mag as nat, 24) * t;
    let r = integer_root(v);
    let k = binade(r, 1, 24);
    let w = pow2(k);
    let q = r / w;
    let m = if 4 * v > ((2 * q + 1) * w) * ((2 * q + 1) * w) {
        q + 1
    } else {
        q
    };
    let x = square_root(f, s.parts());
    lemma_of_parts(x);
    assert(x.mag == root_magnitude(v, 24));
    lemma_integer_root(v);
    lemma_binade(r, 1, 24);
    lemma_pow2_pos(k);
    lemma_fundamental_div_mod(r as int, w as int);
    lemma_mod_bound(r as int, w as int);
    assert(w * q == q * w && (q + 1) * w == q * w + w) by (nonlinear_arith);
    lemma_pow2_adds(24, k);
    lemma_pow2_adds(23, k);
    assert(q < 0x100_0000) by (nonlinear_arith)
        requires
            q * w <= r < 0x100_0000 * w,
            w > 0,
    ;
    if k == 0 {
        lemma_units_of(0, m, 24);
        lemma2_to64();
        lemma_pow2_strictly_increases(64, 100);
        assert(m * w == m) by (nonlinear_arith)
            requires
                w == 1,
        ;
        assert(0 * pow2(23) == 0);
        assert(false);
    }
    assert(q >= 0x80_0000) by (nonlinear_arith)
        requires
            0x80_0000 * w <= r < (q + 1) * w,
            w > 0,
    ;
    lemma_units_of(k, m, 24);
    lemma_root_places(v as int, r as int, q as int, w as int, m as int);
}

/// The exact sum of the squares of `x[from..to]`, in units of 2^-298.
pub open spec fn exact_squares(x: Seq<Single>, from: int, to: int) -> int
    decreases to - from,
{
    if to <= from {
        0
    } else {
        exact_squares(x, from, to - 1) + x[to - 1].units() * x[to - 1].units()
    }
}

proof fn lemma_exact_squares(x: Seq<Single>, from: int, to: int, j: int)
    requires
        from <= j < to,
    ensures
        0 <= x[j].units() * x[j].units() <= exact_squares(x, from, to),
    decreases to - from,
{
    let a = x[to - 1].units();
    assert(a * a >= 0) by (nonlinear_arith);
    if j < to - 1 {
        lemma_exact_squares(x, from, to - 1, j);
    } else if from < to - 1 {
        lemma_exact_squares(x, from, to - 1, from);
    } else {
        assert(exact_squares(x, from, to - 1) == 0);
    }
}

/// What a sum of squares is off by.
proof fn lemma_squares_error(x: Seq<Single>, from: int, to: int)
    requires
        from <= to,
        sum_of_squares(x, from, to).is_finite(),
    ensures
        sum_of_squares(x, from, to).units() >= 0,
        forall|j: int| from <= j < to ==> (#[trigger] x[j]).is_finite(),
        near(
            sum_of_squares(x, from, to).units() * pow2(149),
            exact_squares(x, from, to),
            (to - from) * (sum_of_squares(x, from, to).units() * pow2(149) + 0x80_0000 * pow2(149)) + exact_squares(
                x,
                from,
                to,
            ),
        ),
    decreases to - from,
{
    let t = pow2(149) as int;
    lemma_pow2_pos(149);
    let s1 = sum_of_squares(x, from, to);
    if from == to {
        lemma_format(Format::single());
        assert(0u32 & 0x7fff_ffff == 0) by (bit_vector);
        lemma_units_sign(Format::single(), 0);
        assert(s1.units() == 0);
        assert(0 * t == 0 && 0 * (0 * t + 0x80_0000 * t) == 0) by (nonlinear_arith);
    } else {
        let s0 = sum_of_squares(x, from, to - 1);
        let a = x[to - 1];
        let p = a.times(a);
        lemma_terms_finite(s0, p);
        lemma_factors_finite(a, a);
        lemma_squares_error(x, from, to - 1);
        law_square_not_below_zero(a);
        lemma_order_of_values(s0, s1);
        lemma_order_of_values(p, s1);
        law_plus_nothing_smaller(s0, p);
        law_plus_nothing_smaller(p, s0);
        law_plus_commutes(s0, p);
        lemma_sum_error(s0, p);
        lemma_product_error(a, a);
        let u0 = s0.units();
        let u1 = s1.units();
        let up = p.units();
        let aa = a.units() * a.units();
        assert(aa >= 0) by (nonlinear_arith)
            requires
                aa == a.units() * a.units(),
        ;
        let c = to - 1 - from;
        let e0 = u0 * t + 0x80_0000 * t;
        let e1 = u1 * t + 0x80_0000 * t;
        assert(c * e0 <= c * e1) by (nonlinear_arith)
            requires
                e0 == u0 * t + 0x80_0000 * t,
                e1 == u1 * t + 0x80_0000 * t,
                u0 <= u1,
                t > 0,
                c >= 0,
        ;
        assert((c + 1) * e1 == c * e1 + e1) by (nonlinear_arith);
        assert(near(u1 * t, u0 * t + up * t, u1 * t)) by (nonlinear_arith)
            requires
                near(u1, u0 + up, u1),
                t > 0,
        ;
    }
}

/// One entry of a row times a factor: what its square is off by.
proof fn lemma_square_error(x: int, y: int, t: int)
    requires
        t >= 0,
        near(y, x, magnitude(x) + 0x80_0000 * t),
    ensures
        near(y * y, x * x, 4 * (x * x) + 0x1_0000_0000_0000 * (t * t)),
{
    let n: int = 0x100_0000;
    let m = magnitude(x);
    let e = magnitude(y - x);
    let xx = x * x;
    let tt = t * t;
    let me = m * e;
    let mt = m * t;
    let ee = e * e;
    assert(m * m == xx && magnitude(y * y - xx) <= 2 * me + ee) by (nonlinear_arith)
        requires
            xx == x * x,
            m == magnitude(x),
            e == magnitude(y - x),
            me == m * e,
            ee == e * e,
    ;
    assert(n * me <= xx + 0x80_0000 * mt) by (nonlinear_arith)
        requires
            n * e <= m + 0x80_0000 * t,
            m >= 0,
            m * m == xx,
            me == m * e,
            mt == m * t,
    ;
    let gap = m - 0x80_0000 * t;
    assert(gap * gap >= 0) by (nonlinear_arith);
    assert(n * mt <= xx + 0x4000_0000_0000 * tt) by (nonlinear_arith)
        requires
            gap == m - 0x80_0000 * t,
            gap * gap >= 0,
            n == 0x100_0000,
            m * m == xx,
            mt == m * t,
            tt == t * t,
    ;
    assert((n * e) * (n * e) <= (m + 0x80_0000 * t) * (m + 0x80_0000 * t)) by (nonlinear_arith)
        requires
            0 <= n * e <= m + 0x80_0000 * t,
    ;
    assert((n * e) * (n * e) == n * n * ee && (m + 0x80_0000 * t) * (m + 0x80_0000 * t) == xx + n * mt + 0x4000_0000_0000
        * tt) by (nonlinear_arith)
        requires
            n == 0x100_0000,
            ee == e * e,
            m * m == xx,
            mt == m * t,
            tt == t * t,
    ;
    assert(n * n == 0x1_0000_0000_0000);
    assert(xx >= 0 && tt >= 0 && ee >= 0) by (nonlinear_arith)
        requires
            xx == x * x,
            tt == t * t,
            ee == e * e,
    ;
}

/// A row times a factor: what the sum of its squares is off by.
proof fn lemma_scaled_error(x: Seq<Single>, y: Seq<Single>, g: Single, from: int, to: int)
    requires
        from <= to,
        g.is_finite(),
        forall|j: int| from <= j < to ==> (#[trigger] x[j]).is_finite(),
        forall|j: int| from <= j < to ==> (#[trigger] y[j]) == x[j].times(g) && y[j].is_finite(),
    ensures
        near(
            exact_squares(y, from, to) * (pow2(149) * pow2(149)),
            exact_squares(x, from, to) * (g.units() * g.units()),
            4 * (exact_squares(x, from, to) * (g.units() * g.units())) + (to - from) * (0x1_0000_0000_0000 * (pow2(149)
                * pow2(149))),
        ),
    decreases to - from,
{
    let t = pow2(149) as int;
    let q = t * t;
    let z = g.units();
    let zz = z * z;
    if from == to {
        assert(0 * q == 0 && 0 * zz == 0 && 0 * (0x1_0000_0000_0000 * q) == 0) by (nonlinear_arith);
    } else {
        lemma_scaled_error(x, y, g, from, to - 1);
        let a = x[to - 1];
        let b = y[to - 1];
        assert(b == a.times(g));
        lemma_product_error(a, g);
        let u = a.units();
        let v = b.units();
        lemma_square_error(u * z, v * t, t);
        assert((u * z) * (u * z) == (u * u) * zz && (v * t) * (v * t) == (v * v) * q) by (nonlinear_arith)
            requires
                zz == z * z,
                q == t * t,
        ;
        let s0 = exact_squares(x, from, to - 1);
        let r0 = exact_squares(y, from, to - 1);
        assert((s0 + u * u) * zz == s0 * zz + (u * u) * zz) by (nonlinear_arith);
        assert((r0 + v * v) * q == r0 * q + (v * v) * q) by (nonlinear_arith);
        let c = to - 1 - from;
        let e = 0x1_0000_0000_0000 * q;
        assert((c + 1) * e == c * e + e) by (nonlinear_arith);
    }
}

/// Putting the errors together: of the sum `s`, computed as `v`, of the length `l` of the row, and of
/// the factor `g`, one over it. `q` stands for 1.
proof fn lemma_factor_error(s: int, v: int, l: int, g: int, d: int, q: int)
    requires
        0 <= d,
        0 < q,
        0 <= v,
        near(v, s, 2 * (d * v) + s),
        near(l * l, v, 3 * v),
        near(g * l, q, q),
    ensures
        near(s * (g * g), q * q, 9 * (q * q) + 3 * (d * (q * q))),
{
    let n: int = 0x100_0000;
    let one = q * q;
    let gg = g * g;
    let x = s * gg;
    let y = v * gg;
    let z = (l * l) * gg;
    let dy = d * y;
    let done = d * one;
    assert(gg >= 0 && one > 0) by (nonlinear_arith)
        requires
            gg == g * g,
            one == q * q,
            q > 0,
    ;
    assert(n * n * z <= (n + 1) * (n + 1) * one && n * n * z >= (n - 1) * (n - 1) * one) by {
        let h = g * l;
        assert(z == h * h) by (nonlinear_arith)
            requires
                z == (l * l) * gg,
                gg == g * g,
                h == g * l,
        ;
        let low = (n - 1) * q;
        let high = (n + 1) * q;
        assert(low * low <= (n * h) * (n * h) <= high * high) by (nonlinear_arith)
            requires
                0 <= low <= n * h <= high,
        ;
        assert((n * h) * (n * h) == n * n * (h * h)) by (nonlinear_arith);
        assert(low * low == (n - 1) * (n - 1) * one) by (nonlinear_arith)
            requires
                low == (n - 1) * q,
                one == q * q,
        ;
        assert(high * high == (n + 1) * (n + 1) * one) by (nonlinear_arith)
            requires
                high == (n + 1) * q,
                one == q * q,
        ;
    }
    assert(near(z, y, 3 * y)) by (nonlinear_arith)
        requires
            near(l * l, v, 3 * v),
            z == (l * l) * gg,
            y == v * gg,
            gg >= 0,
    ;
    let dv = d * v;
    assert(dy == dv * gg) by (nonlinear_arith)
        requires
            dy == d * y,
            y == v * gg,
            dv == d * v,
    ;
    assert(near(y, x, 2 * dy + x)) by (nonlinear_arith)
        requires
            near(v, s, 2 * dv + s),
            y == v * gg,
            x == s * gg,
            dy == dv * gg,
            gg >= 0,
    ;
    assert(0x1_0000_0000_0000 * z <= 0x1_0000_0200_0001 * one && 0x1_0000_0000_0000 * z >= 0xffff_fe00_0001 * one)
        by (nonlinear_arith)
        requires
            n == 0x100_0000,
            n * n * z <= (n + 1) * (n + 1) * one,
            n * n * z >= (n - 1) * (n - 1) * one,
    ;
    assert(0xff_fffd * y <= 0x100_0000 * z && 0x100_0003 * y >= 0x100_0000 * z);
    assert(0x100_0000 * y <= 0x100_0007 * one && 0x100_0000 * y >= 0xff_fff9 * one);
    assert(n * dy <= (n + 7) * done) by (nonlinear_arith)
        requires
            n * y <= (n + 7) * one,
            dy == d * y,
            done == d * one,
            d >= 0,
    ;
    assert(done >= 0) by (nonlinear_arith)
        requires
            done == d * one,
            d >= 0,
            one > 0,
    ;
}

/// The sum of the squares of a row that was brought to length 1.
proof fn lemma_length_error(x: int, r: int, d: int, q: int)
    requires
        0 <= d,
        0x1_0000_0000_0000_0000_0000 <= q,
        near(x, q * q, 9 * (q * q) + 3 * (d * (q * q))),
        near(r * q, x, 4 * x + d * (0x1_0000_0000_0000 * q)),
    ensures
        near(r, q, (4 * d + 14) * q),
{
    let n: int = 0x100_0000;
    let one = q * q;
    let done = d * one;
    let w = r * q;
    let dq = d * (0x1_0000_0000_0000 * q);
    assert(n * dq <= done) by (nonlinear_arith)
        requires
            dq == d * (0x1_0000_0000_0000 * q),
            done == d * (q * q),
            n == 0x100_0000,
            0x1_0000_0000_0000_0000_0000 <= q,
            d >= 0,
    ;
    assert(done >= 0 && one > 0) by (nonlinear_arith)
        requires
            done == d * one,
            one == q * q,
            d >= 0,
            q > 0,
    ;
    assert(n * (w - one) <= 14 * one + 4 * done);
    assert(n * (one - w) <= 14 * one + 4 * done);
    assert(near(r, q, (4 * d + 14) * q)) by (nonlinear_arith)
        requires
            0x100_0000 * (r * q - q * q) <= 14 * (q * q) + 4 * (d * (q * q)),
            0x100_0000 * (q * q - r * q) <= 14 * (q * q) + 4 * (d * (q * q)),
            q > 0,
    ;
}

/// The length of a row, its sum of squares and the factor that brings it to length 1, as far as
/// they are off.
proof fn lemma_row_factor(x: Seq<Single>, from: int, to: int)
    requires
        from < to,
        sum_of_squares(x, from, to).root().at_least(Single { bits: EPSILON }),
        sum_of_squares(x, from, to).root().is_finite(),
    ensures
        ({
            let g = (Single { bits: ONE }).over(sum_of_squares(x, from, to).root());
            let q = (pow2(149) * pow2(149)) as int;
            &&& g.is_finite()
            &&& forall|j: int| from <= j < to ==> (#[trigger] x[j]).is_finite()
            &&& near(
                exact_squares(x, from, to) * (g.units() * g.units()),
                q * q,
                9 * (q * q) + 3 * ((to - from) * (q * q)),
            )
        }),
{
    let s = sum_of_squares(x, from, to);
    let l = s.root();
    let t = pow2(149) as int;
    let q = t * t;
    let d = to - from;
    let f = Format::single();
    lemma_pow2_pos(149);
    lemma_epsilon();
    lemma_below(l, Single { bits: EPSILON });
    lemma_order_of_values(Single { bits: EPSILON }, l);
    lemma_pow2_strictly_increases(100, 126);
    // The sum is a finite number above zero.
    assert(s.is_finite() && s.order() > 0) by {
        reveal(Single::root);
        lemma_format(f);
        lemma_of_parts(nan(f));
        lemma_parts_roundtrip(s);
        if s.parts().mag == 0 {
            lemma_units_sign(f, 0);
        }
        if s.parts().mag == 0 || s.parts().neg || !s.is_finite() {
            lemma_of_parts(square_root(f, s.parts()));
        }
    }
    lemma_order_of_values(s, s);
    lemma_root_error(s);
    lemma_squares_error(x, from, to);
    let v = s.units() * t;
    let u = l.units();
    let ll = u * u;
    // The sum is far above the smallest numbers.
    lemma_pow2_adds(126, 126);
    lemma_pow2_adds(23, 149);
    lemma_pow2_adds(24, 149);
    lemma_format(f);
    lemma_pow2_strictly_increases(173, 252);
    assert(pow2(252) <= ll) by (nonlinear_arith)
        requires
            pow2(126) <= u,
            ll == u * u,
            pow2(252) == pow2(126) * pow2(126),
            pow2(126) >= 0,
    ;
    assert(ll <= 2 * v) by {
        assert(near(ll, v, 3 * v));
    }
    assert(pow2(173) == 0x100_0000 * t) by (nonlinear_arith)
        requires
            pow2(173) == pow2(24) * pow2(149),
            pow2(24) == 0x100_0000,
            t == pow2(149),
    ;
    assert(0x80_0000 * t <= v);
    assert(d * (v + 0x80_0000 * t) <= 2 * (d * v)) by (nonlinear_arith)
        requires
            0x80_0000 * t <= v,
            d >= 0,
    ;
    // The length is far below the largest numbers.
    let top = pow2(277) as int;
    assert(s.units() < top) by {
        lemma_finite_units(s);
    }
    lemma_pow2_adds(277, 149);
    lemma_pow2_adds(1, 426);
    lemma_pow2_adds(270, 270);
    lemma2_to64();
    lemma_pow2_strictly_increases(427, 540);
    assert(v <= pow2(426)) by (nonlinear_arith)
        requires
            v == s.units() * t,
            s.units() < top,
            pow2(426) == top * t,
            t > 0,
    ;
    assert(u <= pow2(270)) by (nonlinear_arith)
        requires
            ll == u * u,
            ll <= 2 * v,
            2 * v <= pow2(427),
            pow2(427) < pow2(540),
            pow2(540) == pow2(270) * pow2(270),
            u >= 0,
            pow2(270) >= 0,
    ;
    lemma_inverse_error(l);
    let g = (Single { bits: ONE }).over(l);
    assert(q > 0) by (nonlinear_arith)
        requires
            q == t * t,
            t > 0,
    ;
    lemma_factor_error(exact_squares(x, from, to), v, u, g.units(), d, q);
}

/// A finite number has fewer than 2^277 units.
pub(crate) proof fn lemma_finite_units(a: Single)
    requires
        a.is_finite(),
    ensures
        a.units() < pow2(277),
{
    lemma_format(Format::single());
    lemma_fundamental_div_mod_converse(0x7f80_0000, 0x80_0000, 255, 0);
    lemma_pow2_adds(23, 254);
    lemma_pow2_pos(277);
    assert(units(0x7f80_0000, 24) == pow2(277)) by {
        assert((0x80_0000nat + 0) * pow2(254) == pow2(277));
    }
    lemma_units_ordered(0x7f80_0000, a.parts().mag as nat, 24);
    lemma_units_sign(Format::single(), a.parts().mag as nat);
}

/// A row of `d` entries that is brought to length 1 has length 1 but for rounding: the exact sum of
/// the squares of its entries differs from 1 by at most `(4 * d + 14) * 2^-24`. This holds where
/// the row's length is a finite number and not below 2^-23; shorter rows stay short.
pub proof fn law_normalized_length(data: Seq<Single>, d: int, n: int, c: int)
    requires
        0 <= c < n,
        0 < d <= u64::MAX,
        n * d <= data.len(),
        sum_of_squares(data, c * d, c * d + d).root().is_finite(),
        sum_of_squares(data, c * d, c * d + d).root().at_least(Single { bits: EPSILON }),
    ensures
        forall|x: int| c * d <= x < c * d + d ==> (#[trigger] normalized(data, d, n)[x]).is_finite(),
        near(
            exact_squares(normalized(data, d, n), c * d, c * d + d),
            pow2(298) as int,
            (4 * d + 14) * pow2(298),
        ),
{
    let from = c * d;
    let to = c * d + d;
    let out = normalized(data, d, n);
    let length = sum_of_squares(data, from, to).root();
    let g = inverse_length(data, d, c);
    let t = pow2(149) as int;
    let q = t * t;
    let one = q * q;
    lemma_row(c, n, d);
    lemma_below(length, Single { bits: EPSILON });
    assert(g == (Single { bits: ONE }).over(length));
    lemma_row_factor(data, from, to);
    lemma_pow2_adds(149, 149);
    lemma_pow2_adds(298, 298);
    lemma_pow2_adds(72, 596);
    lemma_pow2_adds(270, 149);
    lemma_pow2_adds(419, 419);
    lemma2_to64();
    lemma_pow2_adds(64, 8);
    lemma_pow2_strictly_increases(668, 838);
    lemma_pow2_adds(64, 16);
    lemma_pow2_strictly_increases(80, 298);
    let z = g.units();
    let s = exact_squares(data, from, to);
    let x = s * (z * z);
    let dd = d * one;
    assert(dd <= 0xffff_ffff_ffff_ffff * one) by (nonlinear_arith)
        requires
            dd == d * one,
            d <= 0xffff_ffff_ffff_ffff,
            one >= 0,
    ;
    assert(x <= pow2(668)) by (nonlinear_arith)
        requires
            near(x, one, 9 * one + 3 * dd),
            dd <= 0xffff_ffff_ffff_ffff * one,
            pow2(668) == pow2(72) * one,
            pow2(72) == 0x100_0000_0000_0000_0000,
            one >= 0,
    ;
    assert forall|j: int| from <= j < to implies (#[trigger] out[j]) == data[j].times(g) && out[j].is_finite() by {
        lemma_cell(c, j - from, d);
        lemma_exact_squares(data, from, to, j);
        let a = data[j].units();
        let m = magnitude(a * z);
        assert(m * m <= x) by (nonlinear_arith)
            requires
                m == magnitude(a * z),
                a * a <= s,
                x == s * (z * z),
        ;
        assert(m <= pow2(419)) by (nonlinear_arith)
            requires
                m * m <= x,
                x < pow2(838),
                pow2(838) == pow2(419) * pow2(419),
                m >= 0,
                pow2(419) >= 0,
        ;
        lemma_product_finite(data[j], g);
    }
    lemma_scaled_error(data, out, g, from, to);
    lemma_length_error(x, exact_squares(out, from, to), d, q);
}

/// Blobs that are brought to length 1: as many rows as without it, each a multiple of the plain row
/// by one factor above zero, and each of length 1 but for rounding.
pub proof fn law_blobs_have_length_one(
    centers: Seq<Single>,
    choices: Seq<usize>,
    noise: Seq<Single>,
    n_samples: nat,
    n_features: nat,
    i: int,
)
    requires
        0 <= i < n_samples,
        0 < n_features <= u64::MAX,
        ({
            let plain = blobs(centers, choices, noise, n_samples, n_features);
            let length = sum_of_squares(plain, i * n_features, i * n_features + n_features).root();
            length.is_finite() && length.at_least(Single { bits: EPSILON })
        }),
    ensures
        ({
            let d = n_features as int;
            let plain = blobs(centers, choices, noise, n_samples, n_features);
            let data = normalized(plain, d, n_samples as int);
            let factor = inverse_length(plain, d, i);
            &&& data.len() == n_samples * n_features
            &&& factor.is_number() && factor.order() > 0
            &&& forall|x: int| i * d <= x < i * d + d ==> #[trigger] data[x] == plain[x].times(factor) && data[x].is_finite()
            &&& near(exact_squares(data, i * d, i * d + d), pow2(298) as int, (4 * d + 14) * pow2(298))
        }),
{
    let d = n_features as int;
    let n = n_samples as int;
    let plain = blobs(centers, choices, noise, n_samples, n_features);
    let data = normalized(plain, d, n);
    let factor = inverse_length(plain, d, i);
    law_normalized_length(plain, d, n, i);
    law_normalized_row(plain, d, n, i, 0);
    assert forall|x: int| i * d <= x < i * d + d implies #[trigger] data[x] == plain[x].times(factor) && data[x].is_finite() by {
        law_normalized_row(plain, d, n, i, x - i * d);
    }
}

} // verus!
