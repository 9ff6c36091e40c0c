//! How close double-precision results are, and what follows for the pruning ratios and for shares.
use crate::adsampling::pruning_ratio;
use crate::double::{lemma_finite, lemma_from_nat, lemma_of_parts, one, Double};
use crate::errors::{
    close, lemma_close_cancelled, lemma_close_chain, lemma_close_product, lemma_close_scaled, lemma_close_symmetric,
};
use crate::ieee::{
    integer_root, lemma_format, lemma_integer_root, lemma_units_sign, root_magnitude, rounded, square_root, Format,
};
use crate::lengths::{lemma_root_places, lemma_rounding_error};
use crate::numbers::lemma_order_of_values;
use crate::rounding::{binade, lemma_binade, lemma_round_error, lemma_units_of, round_magnitude, units};
use crate::single::Single;
use vstd::arithmetic::div_mod::*;
use vstd::arithmetic::power2::*;
use vstd::prelude::*;

verus! {

/// A finite number that is not below zero.
pub open spec fn plain(x: Double) -> bool {
    !x.parts().neg && x.parts().mag < 0x7ff0_0000_0000_0000
}

/// Its value in units of 2^-1074.
pub open spec fn amount(x: Double) -> int {
    units(x.parts().mag as nat, 53) as int
}

/// A value that is not too small is rounded closely, and to a finite number if it is not too large.
proof fn lemma_rounded_close(n: nat, d: nat)
    requires
        d > 0,
        n >= 0x80_0000 * d,
        n <= d * pow2(2000),
    ensures
        ({
            let x = Double::of_parts(rounded(Format::double(), false, n, d));
            &&& x.parts() == rounded(Format::double(), false, n, d)
            &&& plain(x)
            &&& close(amount(x) * d, n as int, 1)
        }),
{
    let k = binade(n, d, 53);
    let u = units(round_magnitude(n, d, 53), 53);
    lemma_round_error(n, d, 53);
    lemma_binade(n, d, 53);
    lemma_format(Format::double());
    let b = pow2(k);
    lemma_pow2_pos(k);
    if k == 0 {
        lemma2_to64();
        assert(d * b == d) by (nonlinear_arith)
            requires
                b == 1,
        ;
    } else {
        lemma_pow2_adds(52, k);
        assert(d * (0x10_0000_0000_0000 * b) == 0x10_0000_0000_0000 * (d * b)) by (nonlinear_arith);
    }
    assert(close((u * d) as int, n as int, 1));
    lemma_pow2_adds(1, 2000);
    lemma_pow2_strictly_increases(2001, 2098);
    lemma2_to64();
    assert(u <= 2 * pow2(2000)) by (nonlinear_arith)
        requires
            0x100_0000 * (u * d - n) <= n,
            n <= d * pow2(2000),
            d > 0,
            u >= 0,
    ;
    lemma_finite(round_magnitude(n, d, 53));
    lemma_of_parts(rounded(Format::double(), false, n, d));
}

pub proof fn lemma_times_close(a: Double, b: Double)
    requires
        plain(a),
        plain(b),
        amount(a) * amount(b) >= 0x80_0000 * pow2(1074),
        amount(a) * amount(b) <= pow2(1074) * pow2(2000),
    ensures
        plain(a.times(b)),
        close(amount(a.times(b)) * pow2(1074), amount(a) * amount(b), 1),
{
    reveal(Double::times);
    lemma_pow2_pos(1074);
    lemma_rounded_close((amount(a) * amount(b)) as nat, pow2(1074));
}

pub proof fn lemma_over_close(a: Double, b: Double)
    requires
        plain(a),
        plain(b),
        amount(b) > 0,
        amount(a) * pow2(1074) >= 0x80_0000 * amount(b),
        amount(a) * pow2(1074) <= amount(b) * pow2(2000),
    ensures
        plain(a.over(b)),
        close(amount(a.over(b)) * amount(b), amount(a) * pow2(1074), 1),
{
    reveal(Double::over);
    lemma_units_sign(Format::double(), b.parts().mag as nat);
    lemma_rounded_close((amount(a) * pow2(1074)) as nat, amount(b) as nat);
}

pub proof fn lemma_plus_close(a: Double, b: Double)
    requires
        plain(a),
        plain(b),
        amount(a) + amount(b) >= 0x80_0000,
        amount(a) + amount(b) <= pow2(2000),
    ensures
        plain(a.plus(b)),
        close(amount(a.plus(b)), amount(a) + amount(b), 1),
{
    reveal(Double::plus);
    let v = amount(a) + amount(b);
    lemma_rounded_close(v as nat, 1);
    let x = Double::of_parts(rounded(Format::double(), false, v as nat, 1));
    assert(a.plus(b) == x);
    assert(amount(x) * 1 == amount(x));
}

/// The square of a root.
pub proof fn lemma_root_close(a: Double)
    requires
        plain(a),
        amount(a) >= pow2(1074),
        amount(a) <= pow2(1200),
    ensures
        plain(a.root()),
        close(amount(a.root()) * amount(a.root()), amount(a) * pow2(1074), 3),
        pow2(1073) <= amount(a.root()) <= pow2(1200),
{
    reveal(Double::root);
    let f = Format::double();
    lemma_format(f);
    let t = pow2(1074);
    lemma_pow2_pos(1074);
    let v = units(a.parts().mag as nat, 53) * t;
    let r = integer_root(v);
    let k = binade(r, 1, 53);
    let w = pow2(k);
    let q = r / w;
    let m = if 4 * v > ((2 * q + 1) * w) * ((2 * q + 1) * w) {
        q + 1
    } else {
        q
    };
    lemma_units_sign(f, a.parts().mag as nat);
    lemma_integer_root(v);
    lemma_binade(r, 1, 53);
    lemma_pow2_pos(k);
    lemma_fundamental_div_mod(r as int, w as int);
    lemma_mod_bound(r as int, w as int);
    assert(w * q == q * w && (q + 1) * w == q * w + w) by (nonlinear_arith);
    lemma_pow2_adds(53, k);
    lemma_pow2_adds(52, k);
    assert(q < 0x20_0000_0000_0000) by (nonlinear_arith)
        requires
            q * w <= r < 0x20_0000_0000_0000 * w,
            w > 0,
    ;
    // The root is large, so it has all its bits.
    assert(v >= t * t) by (nonlinear_arith)
        requires
            v == units(a.parts().mag as nat, 53) * t,
            units(a.parts().mag as nat, 53) >= t,
    ;
    assert(r >= t) by (nonlinear_arith)
        requires
            v < (r + 1) * (r + 1),
            v >= t * t,
            r >= 0,
            t > 0,
    {
        if r < t {
            assert((r + 1) * (r + 1) <= t * t) by (nonlinear_arith)
                requires
                    0 <= r,
                    r + 1 <= t,
            ;
        }
    }
    lemma_pow2_strictly_increases(53, 1074);
    if k == 0 {
        lemma2_to64();
        assert(1 * pow2(53 + k) == pow2(53));
        assert(false);
    }
    assert(q >= 0x10_0000_0000_0000) by (nonlinear_arith)
        requires
            0x10_0000_0000_0000 * w <= r < (q + 1) * w,
            w > 0,
    ;
    lemma_units_of(k, m, 53);
    assert(0x80_0000 * w <= r);
    lemma_root_places(v as int, r as int, q as int, w as int, m as int);
    let l = m * w;
    // Bounds, which make it finite.
    lemma_pow2_adds(1200, 1074);
    lemma_pow2_adds(1199, 1199);
    lemma_pow2_strictly_increases(2274, 2398);
    assert(v <= pow2(2274)) by (nonlinear_arith)
        requires
            v == units(a.parts().mag as nat, 53) * t,
            units(a.parts().mag as nat, 53) <= pow2(1200),
            pow2(2274) == pow2(1200) * t,
            t > 0,
    ;
    assert(r < pow2(1199)) by (nonlinear_arith)
        requires
            r * r <= v,
            v < pow2(2398),
            pow2(2398) == pow2(1199) * pow2(1199),
            r >= 0,
            pow2(1199) >= 0,
    ;
    assert(l <= q * w + w && q * w <= l) by (nonlinear_arith)
        requires
            l == m * w,
            q <= m <= q + 1,
            w > 0,
    ;
    lemma_pow2_adds(1, 1199);
    lemma_pow2_adds(1, 1073);
    lemma2_to64();
    assert(2 * (q * w) >= r) by (nonlinear_arith)
        requires
            r < q * w + w,
            q >= 1,
            w > 0,
    ;
    lemma_pow2_strictly_increases(1200, 2098);
    lemma_finite(root_magnitude(v, 53));
    let x = square_root(f, a.parts());
    lemma_of_parts(x);
}

/// From single to double precision.
pub proof fn lemma_widened_close(s: Single)
    requires
        s.is_finite(),
        s.units() >= pow2(100),
    ensures
        plain(s.widened()),
        close(amount(s.widened()) * pow2(149), s.units() * pow2(1074), 1),
{
    reveal(Single::widened);
    lemma_order_of_values(s, s);
    lemma_pow2_pos(100);
    let u = units(s.parts().mag as nat, 24);
    let n = u * pow2(1074);
    lemma_pow2_pos(149);
    lemma_pow2_pos(1074);
    lemma_pow2_adds(23, 149);
    lemma_pow2_adds(100, 1074);
    lemma_pow2_strictly_increases(172, 1174);
    lemma_format(Format::single());
    assert(n >= 0x80_0000 * pow2(149)) by (nonlinear_arith)
        requires
            n == u * pow2(1074),
            u >= pow2(100),
            pow2(1174) == pow2(100) * pow2(1074),
            pow2(172) == 0x80_0000 * pow2(149),
            pow2(172) < pow2(1174),
            pow2(1074) > 0,
    ;
    crate::lengths::lemma_finite_units(s);
    lemma_pow2_adds(277, 1074);
    lemma_pow2_adds(149, 2000);
    lemma_pow2_strictly_increases(1351, 2149);
    assert(n <= pow2(149) * pow2(2000)) by (nonlinear_arith)
        requires
            n == u * pow2(1074),
            u < pow2(277),
            pow2(1351) == pow2(277) * pow2(1074),
            pow2(2149) == pow2(149) * pow2(2000),
            pow2(1351) < pow2(2149),
            pow2(1074) > 0,
    ;
    lemma_rounded_close(n, pow2(149));
    assert(!s.parts().neg);
}

/// From double to single precision.
pub proof fn lemma_narrowed_close(x: Double)
    requires
        plain(x),
        x.narrowed().is_finite(),
        amount(x) * pow2(149) >= 0x80_0000 * pow2(1074),
    ensures
        close(x.narrowed().units() * pow2(1074), amount(x) * pow2(149), 1),
        x.narrowed().units() >= 0,
{
    reveal(Double::narrowed);
    let f = Format::single();
    lemma_format(f);
    lemma_pow2_pos(1074);
    let n = (amount(x) * pow2(149)) as nat;
    lemma_pow2_pos(149);
    let y = rounded(f, false, n, pow2(1074));
    crate::single::lemma_of_parts(y);
    lemma_rounding_error(n, pow2(1074));
}

proof fn lemma_root_of_close(a: int, b: int, x: int)
    requires
        0 <= a,
        0 < b,
        0 <= x,
        close(a * a, b * b, x),
    ensures
        close(a, b, x),
{
    let n: int = 0x100_0000;
    let xb = x * b;
    assert(n * (a - b) <= xb && n * (b - a) <= xb) by (nonlinear_arith)
        requires
            n * (a * a - b * b) <= x * (b * b),
            n * (b * b - a * a) <= x * (b * b),
            a >= 0,
            b > 0,
            x >= 0,
            n == 0x100_0000,
            xb == x * b,
    {
        let l = n * (a - b);
        assert(l * (a + b) == n * (a * a - b * b)) by (nonlinear_arith)
            requires
                l == n * (a - b),
        ;
        assert(x * (b * b) <= xb * (a + b)) by (nonlinear_arith)
            requires
                xb == x * b,
                x >= 0,
                a >= 0,
                b > 0,
        ;
        assert(l <= xb && -l <= xb) by (nonlinear_arith)
            requires
                l * (a + b) <= xb * (a + b),
                -(l * (a + b)) <= xb * (a + b),
                a + b > 0,
        ;
    }
}

/// The amounts that a ratio goes through, where `t` stands for 1: `r` the root of `v`, `e` epsilon,
/// `q` their quotient, `s` one more, `a` the share of dimensions, `b` and `c` its products with `s`.
proof fn lemma_ratio(v: int, n: int, t: int, r: int, e: int, q: int, s: int, a: int, b: int, c: int)
    requires
        0 < v,
        0 < n,
        0 < t,
        0 < r,
        0 <= e,
        0 <= q,
        0 <= s,
        0 <= a,
        0 <= b,
        0 <= c,
        close(r * r, v * t * t, 3),
        close(q * r, e * t, 1),
        close(s, t + q, 1),
        close(a * n, v * t, 1),
        close(b * t, a * s, 1),
        close(c * t, b * s, 1),
    ensures
        close(c * t * n, (r + e) * (r + e), 18),
{
    let p = r + e;
    // s * r is close to t * (r + e).
    let sr = s * r;
    let tp = t * p;
    assert(e * t >= 0 && t * r >= 0 && tp >= 0 && tp == t * r + e * t) by (nonlinear_arith)
        requires
            e >= 0,
            t > 0,
            r > 0,
            tp == t * p,
            p == r + e,
    ;
    lemma_close_scaled(s, t + q, 1, r);
    let tq = (t + q) * r;
    assert(tq == t * r + q * r) by (nonlinear_arith)
        requires
            tq == (t + q) * r,
    ;
    assert(close(tq, tp, 1));
    lemma_close_chain(sr, tq, tp, 1, 1);
    lemma_close_product(sr, tp, 3, sr, tp, 3);
    // c t t n is close to v t s s.
    let ss = s * s;
    assert(ss >= 0 && a * ss >= 0 && v * t >= 0) by (nonlinear_arith)
        requires
            ss == s * s,
            a >= 0,
            v > 0,
            t > 0,
    ;
    lemma_close_scaled(c * t, b * s, 1, t);
    lemma_close_scaled(b * t, a * s, 1, s);
    assert((b * s) * t == (b * t) * s && (a * s) * s == a * ss) by (nonlinear_arith)
        requires
            ss == s * s,
    ;
    lemma_close_chain((c * t) * t, (b * s) * t, a * ss, 1, 1);
    lemma_close_scaled((c * t) * t, a * ss, 3, n);
    lemma_close_scaled(a * n, v * t, 1, ss);
    assert((a * ss) * n == (a * n) * ss) by (nonlinear_arith);
    let vts = (v * t) * ss;
    assert(vts >= 0) by (nonlinear_arith)
        requires
            vts == (v * t) * ss,
            v * t >= 0,
            ss >= 0,
    ;
    lemma_close_chain(((c * t) * t) * n, (a * ss) * n, vts, 3, 1);
    // Times r twice.
    let rr = r * r;
    assert(rr > 0) by (nonlinear_arith)
        requires
            rr == r * r,
            r > 0,
    ;
    lemma_close_scaled(((c * t) * t) * n, vts, 5, rr);
    lemma_close_scaled(sr * sr, tp * tp, 7, v * t);
    let pp = p * p;
    assert(vts * rr == (v * t) * (sr * sr)) by (nonlinear_arith)
        requires
            vts == (v * t) * ss,
            ss == s * s,
            rr == r * r,
            sr == s * r,
    ;
    let goal = (v * t) * (tp * tp);
    assert(goal == (v * t * t * t) * pp && goal >= 0) by (nonlinear_arith)
        requires
            goal == (v * t) * (tp * tp),
            tp == t * p,
            pp == p * p,
            v > 0,
            t > 0,
    ;
    let x = ((c * t) * t) * n;
    lemma_close_chain(x * rr, vts * rr, goal, 5, 7);
    // r r is close to v t t.
    let vtt = v * t * t;
    assert(vtt > 0 && x >= 0) by (nonlinear_arith)
        requires
            vtt == v * t * t,
            v > 0,
            t > 0,
            x == ((c * t) * t) * n,
            c >= 0,
            n > 0,
    ;
    lemma_close_symmetric(rr, vtt, 3);
    lemma_close_scaled(vtt, rr, 4, x);
    lemma_close_chain(x * vtt, x * rr, goal, 4, 13);
    let f = v * t * t * t;
    assert(x * vtt == (c * t * n) * f && goal == pp * f && f > 0) by (nonlinear_arith)
        requires
            x == ((c * t) * t) * n,
            vtt == v * t * t,
            goal == (v * t * t * t) * pp,
            f == v * t * t * t,
            v > 0,
            t > 0,
    ;
    lemma_close_cancelled(c * t * n, pp, 18, f);
}

/// The amounts brought to the scale of single precision: `g` stands for the root of `v`, `e` for
/// epsilon, and `u` for the ratio.
proof fn lemma_ratio_scaled(v: int, n: int, t: int, w: int, r: int, e2: int, c: int, u: int, g: int, e: int)
    requires
        0 < v,
        0 < n,
        0 < t,
        0x100_0000 <= w,
        0 < r,
        0 <= e2,
        0 <= c,
        0 <= e,
        close(r * r, v * t * t, 3),
        close(c * t * n, (r + e2) * (r + e2), 18),
        close(u * t, c * w, 1),
        close(e2 * w, e * t, 1),
        0 < g,
        0x400_0000 <= g,
        g * g <= v * (w * w) < (g + 1) * (g + 1),
    ensures
        close(u * n * w, (g + e) * (g + e), 36),
{
    // r w is close to g t.
    let rw = r * w;
    let gt = g * t;
    let vww = v * (w * w);
    let gg = g * g;
    assert(close(vww, gg, 1)) by {
        assert((g + 1) * (g + 1) == gg + 2 * g + 1) by (nonlinear_arith)
            requires
                gg == g * g,
        ;
        assert(0x100_0000 * (2 * g) <= gg) by (nonlinear_arith)
            requires
                gg == g * g,
                g >= 0x400_0000,
        ;
    }
    let tt = t * t;
    let ww = w * w;
    assert(tt > 0 && ww > 0 && gg > 0 && gt > 0 && rw > 0) by (nonlinear_arith)
        requires
            tt == t * t,
            ww == w * w,
            gg == g * g,
            gt == g * t,
            rw == r * w,
            t > 0,
            w > 0,
            g > 0,
            r > 0,
    ;
    lemma_close_scaled(r * r, v * t * t, 3, ww);
    lemma_close_scaled(vww, gg, 1, tt);
    assert((r * r) * ww == rw * rw && (v * t * t) * ww == vww * tt && gg * tt == gt * gt) by (nonlinear_arith)
        requires
            rw == r * w,
            vww == v * (w * w),
            ww == w * w,
            tt == t * t,
            gg == g * g,
            gt == g * t,
    ;
    assert(gt * gt >= 0) by (nonlinear_arith)
        requires
            gt > 0,
    ;
    lemma_close_chain(rw * rw, vww * tt, gt * gt, 3, 1);
    lemma_root_of_close(rw, gt, 5);
    // With epsilon.
    let p = r + e2;
    let h = g + e;
    assert(e * t >= 0) by (nonlinear_arith)
        requires
            e >= 0,
            t > 0,
    ;
    assert(p * w == rw + e2 * w && h * t == gt + e * t && h * t >= 0) by (nonlinear_arith)
        requires
            p == r + e2,
            h == g + e,
            rw == r * w,
            gt == g * t,
            g > 0,
            e >= 0,
            t > 0,
    ;
    assert(close(p * w, h * t, 5));
    lemma_close_product(p * w, h * t, 5, p * w, h * t, 5);
    // The ratio itself.
    let x = u * t * t * n;
    lemma_close_scaled(u * t, c * w, 1, t * n);
    let y = c * t * n;
    let pp = p * p;
    assert(pp >= 0 && y >= 0) by (nonlinear_arith)
        requires
            pp == p * p,
            y == c * t * n,
            c >= 0,
            t > 0,
            n > 0,
    ;
    assert((u * t) * (t * n) == x && (c * w) * (t * n) == y * w) by (nonlinear_arith)
        requires
            x == u * t * t * n,
            y == c * t * n,
    ;
    lemma_close_scaled(y, pp, 18, w);
    assert(pp * w >= 0) by (nonlinear_arith)
        requires
            pp >= 0,
            w > 0,
    ;
    assert(t * n >= 0) by (nonlinear_arith)
        requires
            t > 0,
            n > 0,
    ;
    lemma_close_chain(x, y * w, pp * w, 1, 18);
    lemma_close_scaled(x, pp * w, 20, ww);
    let hh = h * h;
    assert((p * w) * (p * w) == pp * ww && (h * t) * (h * t) == hh * tt) by (nonlinear_arith)
        requires
            pp == p * p,
            ww == w * w,
            hh == h * h,
            tt == t * t,
    ;
    lemma_close_scaled(pp * ww, hh * tt, 11, w);
    assert((pp * w) * ww == (pp * ww) * w) by (nonlinear_arith);
    let goal = (hh * tt) * w;
    assert(goal >= 0) by (nonlinear_arith)
        requires
            goal == (hh * tt) * w,
            hh == h * h,
            tt > 0,
            w > 0,
    ;
    lemma_close_chain(x * ww, (pp * w) * ww, goal, 20, 11);
    let f = tt * w;
    assert(x * ww == (u * n * w) * f && goal == hh * f && f > 0) by (nonlinear_arith)
        requires
            x == u * t * t * n,
            ww == w * w,
            tt == t * t,
            goal == (hh * tt) * w,
            f == tt * w,
            tt > 0,
            w > 0,
    ;
    lemma_close_cancelled(u * n * w, hh, 32, f);
    assert(32 * hh <= 36 * hh) by (nonlinear_arith)
        requires
            hh == h * h,
    ;
}

/// The pruning ratio for `visited` of `total` dimensions is `(sqrt(visited) + epsilon)^2 / total`, but
/// for rounding. The root is taken in units of 2^-149 here, as epsilon and the ratio are.
#[verifier::rlimit(30)]
pub proof fn law_pruning_ratio(visited: nat, total: nat, epsilon0: Single)
    requires
        0 < visited < total <= u32::MAX,
        epsilon0.is_finite(),
        pow2(129) <= epsilon0.units() <= pow2(179),
        pruning_ratio(visited, total, epsilon0).is_finite(),
    ensures
        ({
            let x = integer_root(visited * (pow2(149) * pow2(149))) + epsilon0.units();
            close(pruning_ratio(visited, total, epsilon0).units() * total * pow2(149), x * x, 36)
        }),
{
    let t = pow2(1074);
    let w = pow2(149);
    lemma_pow2_pos(1074);
    lemma_pow2_pos(149);
    lemma2_to64();
    lemma2_to64_rest();
    lemma_from_nat(visited);
    lemma_from_nat(total);
    let v = Double::from_nat(visited);
    let n = Double::from_nat(total);
    let unit = Double { bits: crate::double::ONE };
    lemma_double_one();
    let vt = visited * t;
    let nt = total * t;
    assert(one() * visited == vt && one() * total == nt) by (nonlinear_arith)
        requires
            one() == t,
            vt == visited * t,
            nt == total * t,
    ;
    lemma_pow2_adds(32, 1074);
    lemma_pow2_strictly_increases(1106, 1200);
    assert(t <= vt <= pow2(1106) && t <= nt <= pow2(1106)) by (nonlinear_arith)
        requires
            vt == visited * t,
            nt == total * t,
            1 <= visited <= 0xffff_ffff,
            1 <= total <= 0xffff_ffff,
            pow2(1106) == 0x1_0000_0000 * t,
            t > 0,
    ;
    // The root.
    let root = v.root();
    lemma_root_close(v);
    let r = amount(root);
    assert(amount(v) == vt && amount(n) == nt);
    assert(vt * t == visited * t * t) by (nonlinear_arith)
        requires
            vt == visited * t,
    ;
    lemma_pow2_pos(1073);
    // Epsilon.
    let wide = epsilon0.widened();
    lemma_pow2_strictly_increases(100, 129);
    lemma_widened_close(epsilon0);
    let e = epsilon0.units();
    let e2 = amount(wide);
    lemma_epsilon_bounds(e, e2, t as int, w as int);
    // The quotient, and one more.
    let quot = wide.over(root);
    lemma_quotient_room(e2, r, t as int);
    lemma_over_close(wide, root);
    let q = amount(quot);
    lemma_sum_room(e2, r, q, t as int);
    let slack = unit.plus(quot);
    lemma_pow2_strictly_increases(1110, 2000);
    lemma_plus_close(unit, quot);
    let s = amount(slack);
    // The share of dimensions.
    let share = v.over(n);
    lemma_pow2_adds(23, 1106);
    lemma_pow2_adds(1074, 1074);
    lemma_pow2_adds(1106, 1074);
    lemma_pow2_adds(1074, 2000);
    lemma_pow2_strictly_increases(1129, 2148);
    lemma_pow2_strictly_increases(2180, 3074);
    assert(vt * t >= 0x80_0000 * nt && vt * t <= nt * pow2(2000)) by (nonlinear_arith)
        requires
            vt >= t,
            vt <= pow2(1106),
            t <= nt <= pow2(1106),
            pow2(1129) == 0x80_0000 * pow2(1106),
            pow2(2148) == t * t,
            pow2(1129) < pow2(2148),
            pow2(2180) == pow2(1106) * t,
            pow2(3074) == t * pow2(2000),
            pow2(2180) < pow2(3074),
            t > 0,
            pow2(2000) >= 0,
    ;
    lemma_over_close(v, n);
    let a = amount(share);
    assert(close(a * total, vt as int, 1)) by {
        assert(a * nt == (a * total) * t) by (nonlinear_arith)
            requires
                nt == total * t,
        ;
        lemma_close_cancelled(a * total, vt as int, 1, t as int);
    }
    // The products.
    lemma_product_room(a, s, total as int, visited as int, t as int, q);
    let b1 = share.times(slack);
    lemma_times_close(share, slack);
    let b = amount(b1);
    lemma_second_product_room(a, s, b, t as int);
    let c1 = b1.times(slack);
    lemma_times_close(b1, slack);
    let c = amount(c1);
    assert(a >= 0 && b >= 0 && c >= 0 && s >= 0 && q >= 0);
    assert(close(a * total, (visited * t) as int, 1));
    assert(close(s, t + q, 1));
    lemma_ratio(visited as int, total as int, t as int, r, e2, q, s, a, b, c);
    // In single precision.
    lemma_narrow_room(s, b, c, t as int, w as int);
    lemma_narrowed_close(c1);
    let u = pruning_ratio(visited, total, epsilon0).units();
    let g = integer_root(visited * (w * w));
    lemma_integer_root(visited * (w * w));
    assert(g >= 0x400_0000) by {
        lemma_pow2_strictly_increases(26, 149);
        if g < 0x400_0000 {
            assert((g + 1) * (g + 1) <= 0x400_0000 * 0x400_0000) by (nonlinear_arith)
                requires
                    0 <= g,
                    g + 1 <= 0x400_0000,
            ;
            assert(visited * (w * w) >= 0x400_0000 * 0x400_0000) by (nonlinear_arith)
                requires
                    visited >= 1,
                    w >= 0x400_0000,
            ;
        }
    }
    lemma_pow2_strictly_increases(24, 149);
    lemma_ratio_scaled(visited as int, total as int, t as int, w as int, r, e2, c, u, g as int, e);
}

/// The value of 1.
proof fn lemma_double_one()
    ensures
        plain(Double { bits: crate::double::ONE }),
        amount(Double { bits: crate::double::ONE }) == pow2(1074),
        one() == pow2(1074),
{
    assert(0x3ff0_0000_0000_0000u64 & 0x7fff_ffff_ffff_ffff == 0x3ff0_0000_0000_0000) by (bit_vector);
    lemma_format(Format::double());
    lemma_fundamental_div_mod_converse(0x3ff0_0000_0000_0000, 0x10_0000_0000_0000, 1023, 0);
    lemma_pow2_adds(52, 1022);
    assert((0x10_0000_0000_0000nat + 0) * pow2(1022) == pow2(1074));
}

/// Epsilon in double precision lies between 2^-21 and 2^31.
proof fn lemma_epsilon_bounds(e: int, e2: int, t: int, w: int)
    requires
        t == pow2(1074),
        w == pow2(149),
        pow2(129) <= e <= pow2(179),
        close(e2 * w, e * t, 1),
    ensures
        pow2(1053) <= e2 <= pow2(1105),
{
    lemma_pow2_pos(149);
    lemma_pow2_pos(1074);
    lemma_pow2_adds(129, 1074);
    lemma_pow2_adds(179, 1074);
    lemma_pow2_adds(1053, 149);
    lemma_pow2_adds(1105, 149);
    lemma_pow2_adds(1, 1202);
    lemma_pow2_adds(1, 1253);
    lemma2_to64();
    let et = e * t;
    assert(pow2(1203) <= et <= pow2(1253)) by (nonlinear_arith)
        requires
            et == e * t,
            pow2(129) <= e <= pow2(179),
            pow2(1203) == pow2(129) * t,
            pow2(1253) == pow2(179) * t,
            t > 0,
    ;
    assert(2 * (e2 * w) >= et && e2 * w <= 2 * et);
    assert(e2 >= pow2(1053)) by (nonlinear_arith)
        requires
            2 * (e2 * w) >= pow2(1203),
            pow2(1203) == 2 * pow2(1202),
            pow2(1202) == pow2(1053) * w,
            w > 0,
    ;
    assert(e2 <= pow2(1105)) by (nonlinear_arith)
        requires
            e2 * w <= 2 * pow2(1253),
            pow2(1254) == 2 * pow2(1253),
            pow2(1254) == pow2(1105) * w,
            w > 0,
    ;
}

proof fn lemma_quotient_room(e2: int, r: int, t: int)
    requires
        t == pow2(1074),
        pow2(1053) <= e2 <= pow2(1105),
        pow2(1073) <= r <= pow2(1200),
    ensures
        e2 * t >= 0x80_0000 * r,
        e2 * t <= r * pow2(2000),
{
    lemma_pow2_pos(1074);
    lemma_pow2_adds(1053, 1074);
    lemma_pow2_adds(1105, 1074);
    lemma_pow2_adds(23, 1200);
    lemma_pow2_adds(1073, 2000);
    lemma2_to64();
    lemma2_to64_rest();
    lemma_pow2_strictly_increases(1223, 2127);
    lemma_pow2_strictly_increases(2179, 3073);
    lemma_pow2_pos(2000);
    assert(e2 * t >= 0x80_0000 * r && e2 * t <= r * pow2(2000)) by (nonlinear_arith)
        requires
            pow2(1053) <= e2 <= pow2(1105),
            pow2(1073) <= r <= pow2(1200),
            pow2(2127) == pow2(1053) * t,
            pow2(2179) == pow2(1105) * t,
            pow2(1223) == 0x80_0000 * pow2(1200),
            pow2(3073) == pow2(1073) * pow2(2000),
            pow2(1223) < pow2(2127),
            pow2(2179) < pow2(3073),
            t > 0,
            pow2(2000) > 0,
    ;
}

proof fn lemma_sum_room(e2: int, r: int, q: int, t: int)
    requires
        t == pow2(1074),
        e2 <= pow2(1105),
        pow2(1073) <= r,
        0 <= q,
        close(q * r, e2 * t, 1),
    ensures
        t + q >= 0x80_0000,
        t + q <= pow2(1110),
{
    lemma_pow2_pos(1074);
    lemma_pow2_pos(1073);
    lemma_pow2_adds(1105, 1074);
    lemma_pow2_adds(1107, 1073);
    lemma_pow2_adds(1, 2179);
    lemma_pow2_adds(1, 1109);
    lemma2_to64();
    lemma2_to64_rest();
    lemma_pow2_strictly_increases(23, 1074);
    lemma_pow2_strictly_increases(1074, 1109);
    lemma_pow2_strictly_increases(1107, 1109);
    assert(e2 * t <= pow2(2179)) by (nonlinear_arith)
        requires
            e2 <= pow2(1105),
            pow2(2179) == pow2(1105) * t,
            t > 0,
    ;
    assert(q * r <= 2 * pow2(2179));
    assert(q <= pow2(1107)) by (nonlinear_arith)
        requires
            q * r <= 2 * pow2(2179),
            pow2(2180) == 2 * pow2(2179),
            pow2(2180) == pow2(1107) * pow2(1073),
            r >= pow2(1073),
            pow2(1073) > 0,
            q >= 0,
    ;
}

/// The slack is between a half and 2^37, the share between 2^-33 and 2.
proof fn lemma_product_room(a: int, s: int, n: int, v: int, t: int, q: int)
    requires
        t == pow2(1074),
        0 <= a,
        0 <= s,
        0 <= q,
        t + q <= pow2(1110),
        close(s, t + q, 1),
        0 < v < n <= u32::MAX,
        close(a * n, v * t, 1),
    ensures
        pow2(1041) <= a <= pow2(1075),
        pow2(1073) <= s <= pow2(1111),
        a * s >= 0x80_0000 * t,
        a * s <= t * pow2(2000),
{
    lemma_pow2_pos(1074);
    lemma_pow2_pos(1041);
    lemma_pow2_pos(1073);
    lemma_pow2_adds(1, 1073);
    lemma_pow2_adds(1, 1074);
    lemma_pow2_adds(1, 1110);
    lemma_pow2_adds(32, 1041);
    lemma_pow2_adds(1041, 1073);
    lemma_pow2_adds(1075, 1111);
    lemma_pow2_adds(23, 1074);
    lemma_pow2_adds(1074, 2000);
    lemma2_to64();
    lemma2_to64_rest();
    lemma_pow2_strictly_increases(1097, 2114);
    lemma_pow2_strictly_increases(2186, 3074);
    let vt = v * t;
    let an = a * n;
    assert(t <= vt && vt <= n * t) by (nonlinear_arith)
        requires
            vt == v * t,
            1 <= v <= n,
            t > 0,
    ;
    assert(2 * an >= vt && an <= 2 * vt);
    assert(a >= pow2(1041)) by (nonlinear_arith)
        requires
            2 * (a * n) >= t,
            n <= 0xffff_ffff,
            t == 2 * pow2(1073),
            pow2(1073) == 0x1_0000_0000 * pow2(1041),
            a >= 0,
    ;
    assert(a <= pow2(1075)) by (nonlinear_arith)
        requires
            a * n <= 2 * (n * t),
            pow2(1075) == 2 * t,
            n > 0,
    ;
    assert(2 * s >= t && s <= 2 * pow2(1110));
    assert(a * s >= 0x80_0000 * t && a * s <= t * pow2(2000)) by (nonlinear_arith)
        requires
            pow2(1041) <= a <= pow2(1075),
            pow2(1073) <= s <= pow2(1111),
            pow2(2114) == pow2(1041) * pow2(1073),
            pow2(2186) == pow2(1075) * pow2(1111),
            pow2(1097) == 0x80_0000 * t,
            pow2(3074) == t * pow2(2000),
            pow2(1097) < pow2(2114),
            pow2(2186) < pow2(3074),
            pow2(1041) > 0,
            pow2(1073) > 0,
    ;
}

proof fn lemma_second_product_room(a: int, s: int, b: int, t: int)
    requires
        t == pow2(1074),
        0 <= b,
        pow2(1041) <= a <= pow2(1075),
        pow2(1073) <= s <= pow2(1111),
        close(b * t, a * s, 1),
    ensures
        pow2(1039) <= b <= pow2(1113),
        b * s >= 0x80_0000 * t,
        b * s <= t * pow2(2000),
{
    lemma_pow2_pos(1074);
    lemma_pow2_pos(1041);
    lemma_pow2_pos(1073);
    lemma_pow2_pos(1039);
    lemma_pow2_adds(1041, 1073);
    lemma_pow2_adds(1039, 1074);
    lemma_pow2_adds(1, 2113);
    lemma_pow2_adds(1075, 1111);
    lemma_pow2_adds(1113, 1074);
    lemma_pow2_adds(1, 2186);
    lemma_pow2_adds(1039, 1073);
    lemma_pow2_adds(1113, 1111);
    lemma_pow2_adds(23, 1074);
    lemma_pow2_adds(1074, 2000);
    lemma2_to64();
    lemma2_to64_rest();
    lemma_pow2_strictly_increases(1097, 2112);
    lemma_pow2_strictly_increases(2224, 3074);
    let x = a * s;
    assert(pow2(2114) <= x <= pow2(2186)) by (nonlinear_arith)
        requires
            x == a * s,
            pow2(1041) <= a <= pow2(1075),
            pow2(1073) <= s <= pow2(1111),
            pow2(2114) == pow2(1041) * pow2(1073),
            pow2(2186) == pow2(1075) * pow2(1111),
            pow2(1041) > 0,
            pow2(1073) > 0,
    ;
    assert(2 * (b * t) >= x && b * t <= 2 * x);
    assert(b >= pow2(1039)) by (nonlinear_arith)
        requires
            2 * (b * t) >= pow2(2114),
            pow2(2114) == 2 * pow2(2113),
            pow2(2113) == pow2(1039) * t,
            t > 0,
    ;
    assert(b <= pow2(1113)) by (nonlinear_arith)
        requires
            b * t <= 2 * pow2(2186),
            pow2(2187) == 2 * pow2(2186),
            pow2(2187) == pow2(1113) * t,
            t > 0,
    ;
    assert(b * s >= 0x80_0000 * t && b * s <= t * pow2(2000)) by (nonlinear_arith)
        requires
            pow2(1039) <= b <= pow2(1113),
            pow2(1073) <= s <= pow2(1111),
            pow2(2112) == pow2(1039) * pow2(1073),
            pow2(2224) == pow2(1113) * pow2(1111),
            pow2(1097) == 0x80_0000 * t,
            pow2(3074) == t * pow2(2000),
            pow2(1097) < pow2(2112),
            pow2(2224) < pow2(3074),
            pow2(1039) > 0,
            pow2(1073) > 0,
    ;
}

proof fn lemma_narrow_room(s: int, b: int, c: int, t: int, w: int)
    requires
        t == pow2(1074),
        w == pow2(149),
        0 <= c,
        pow2(1039) <= b,
        pow2(1073) <= s,
        close(c * t, b * s, 1),
    ensures
        c * w >= 0x80_0000 * t,
{
    lemma_pow2_pos(1074);
    lemma_pow2_pos(149);
    lemma_pow2_pos(1039);
    lemma_pow2_pos(1073);
    lemma_pow2_adds(1039, 1073);
    lemma_pow2_adds(1, 2111);
    lemma_pow2_adds(1037, 1074);
    lemma_pow2_adds(1037, 149);
    lemma_pow2_adds(23, 1074);
    lemma2_to64();
    lemma2_to64_rest();
    lemma_pow2_strictly_increases(1097, 1186);
    let x = b * s;
    assert(x >= pow2(2112)) by (nonlinear_arith)
        requires
            x == b * s,
            b >= pow2(1039),
            s >= pow2(1073),
            pow2(2112) == pow2(1039) * pow2(1073),
            pow2(1039) > 0,
            pow2(1073) > 0,
    ;
    assert(2 * (c * t) >= x);
    assert(c >= pow2(1037)) by (nonlinear_arith)
        requires
            2 * (c * t) >= pow2(2112),
            pow2(2112) == 2 * pow2(2111),
            pow2(2111) == pow2(1037) * t,
            t > 0,
    ;
    assert(c * w >= pow2(1186)) by (nonlinear_arith)
        requires
            c >= pow2(1037),
            pow2(1186) == pow2(1037) * w,
            w > 0,
    ;
}

} // verus!
