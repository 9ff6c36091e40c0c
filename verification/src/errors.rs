//! Relative errors: how those of single operations come together.
use crate::ieee::{
    integer_root, lemma_format, lemma_integer_root, lemma_units_sign, nan, product, quotient, root_magnitude, rounded, square_root,
    Format,
};
use crate::lengths::{lemma_finite_units, lemma_nearest_value, lemma_root_error, magnitude, near};
use crate::numbers::{
    lemma_finite, lemma_long_integer, lemma_minus, lemma_nearest_single, lemma_order_of_values, nearest_single,
};
use crate::rounding::{binade, lemma_binade, lemma_units_of, units};
use crate::single::{lemma_of_parts, Single};
use vstd::arithmetic::div_mod::*;
use vstd::arithmetic::power2::*;
use vstd::prelude::*;

verus! {

/// `a` is `b` but for `c` times 2^-24 of `b`.
pub open spec fn close(a: int, b: int, c: int) -> bool {
    near(a, b, c * b)
}

/// Two errors, one after the other.
pub proof fn lemma_close_chain(a: int, b: int, d: int, x: int, y: int)
    requires
        close(a, b, x),
        close(b, d, y),
        0 <= d,
        0 <= x <= 0x800,
        0 <= y <= 0x800,
    ensures
        close(a, d, x + y + 1),
{
    let n: int = 0x100_0000;
    let xb = x * b;
    let yd = y * d;
    let xd = x * d;
    assert(n * xb <= n * xd + x * yd) by (nonlinear_arith)
        requires
            n * (b - d) <= yd,
            x >= 0,
            xb == x * b,
            xd == x * d,
    ;
    assert(x * yd <= n * d) by (nonlinear_arith)
        requires
            yd == y * d,
            0 <= x <= 0x800,
            0 <= y <= 0x800,
            d >= 0,
            n == 0x100_0000,
    ;
    assert((x + y + 1) * d == xd + yd + d) by (nonlinear_arith)
        requires
            xd == x * d,
            yd == y * d,
    ;
}

/// What is close to a value has that value close to it.
pub proof fn lemma_close_symmetric(a: int, b: int, x: int)
    requires
        close(a, b, x),
        0 <= b,
        0 <= x <= 0x800,
    ensures
        close(b, a, x + 1),
        0 <= a,
{
    let n: int = 0x100_0000;
    let xb = x * b;
    let xa = x * a;
    assert(xb <= 0x800 * b) by (nonlinear_arith)
        requires
            xb == x * b,
            x <= 0x800,
            b >= 0,
    ;
    assert(n * xb <= n * xa + x * xb) by (nonlinear_arith)
        requires
            n * (b - a) <= xb,
            x >= 0,
            xb == x * b,
            xa == x * a,
    ;
    assert(x * xb <= 0x40_0000 * b) by (nonlinear_arith)
        requires
            xb <= 0x800 * b,
            0 <= x <= 0x800,
            b >= 0,
    ;
    assert((x + 1) * a == xa + a) by (nonlinear_arith)
        requires
            xa == x * a,
    ;
}

/// A common factor.
pub proof fn lemma_close_scaled(a: int, b: int, x: int, f: int)
    requires
        close(a, b, x),
        0 <= f,
    ensures
        close(a * f, b * f, x),
        close(f * a, f * b, x),
{
    assert(close(a * f, b * f, x)) by (nonlinear_arith)
        requires
            near(a, b, x * b),
            0 <= f,
    ;
    assert(a * f == f * a && b * f == f * b) by (nonlinear_arith);
}

pub proof fn lemma_close_cancelled(a: int, b: int, x: int, f: int)
    requires
        close(a * f, b * f, x),
        0 < f,
    ensures
        close(a, b, x),
{
    let l = 0x100_0000 * (a - b);
    let r = x * b;
    assert(0x100_0000 * (a * f - b * f) == l * f && x * (b * f) == r * f && 0x100_0000 * (b * f - a * f) == (-l) * f)
        by (nonlinear_arith)
        requires
            l == 0x100_0000 * (a - b),
            r == x * b,
    ;
    assert(l <= r && -l <= r) by (nonlinear_arith)
        requires
            l * f <= r * f,
            (-l) * f <= r * f,
            0 < f,
    ;
}

/// Products of close numbers are close.
pub proof fn lemma_close_product(a: int, b: int, x: int, p: int, q: int, y: int)
    requires
        close(a, b, x),
        close(p, q, y),
        0 <= b,
        0 <= q,
        0 <= x <= 0x800,
        0 <= y <= 0x800,
    ensures
        close(a * p, b * q, x + y + 1),
{
    lemma_close_symmetric(p, q, y);
    lemma_close_scaled(a, b, x, p);
    lemma_close_scaled(p, q, y, b);
    assert(b * q >= 0) by (nonlinear_arith)
        requires
            b >= 0,
            q >= 0,
    ;
    lemma_close_chain(a * p, b * p, b * q, x, y);
}

/// An integer of 64 bits as a number.
pub proof fn lemma_integer_error(n: nat)
    requires
        n <= u64::MAX,
    ensures
        Single::from_nat(n).is_finite(),
        Single::from_nat(n).units() >= 0,
        close(Single::from_nat(n).units(), (n * pow2(149)) as int, 1),
        n > 0 ==> Single::from_nat(n).units() >= pow2(148),
{
    lemma_long_integer(n);
    reveal(Single::from_nat);
    let v = n * pow2(149);
    lemma_pow2_pos(149);
    assert(v >= 0 && (n > 0 ==> v >= pow2(149))) by (nonlinear_arith)
        requires
            v == n * pow2(149),
            n >= 0,
            pow2(149) > 0,
    ;
    lemma_nearest_single(v as int, v as int, 1);
    lemma_nearest_value(v as int, 1);
    lemma_pow2_strictly_increases(23, 149);
    lemma_pow2_adds(1, 148);
    lemma2_to64();
    lemma_format(Format::single());
    let s = nearest_single(v as int, 1);
    lemma_order_of_values(s, s);
    assert(s.units() * 1 == s.units());
    if n == 0 {
        assert(v == 0) by (nonlinear_arith)
            requires
                v == n * pow2(149),
                n == 0,
        ;
    }
}

/// A quotient that is not too small.
pub proof fn lemma_quotient_error(a: Single, b: Single)
    requires
        a.is_finite(),
        b.is_finite(),
        a.units() >= 0,
        b.units() > 0,
        a.over(b).is_finite(),
        a.units() > 0 ==> a.units() * pow2(149) >= 0x80_0000 * b.units(),
    ensures
        a.over(b).units() >= 0,
        close(a.over(b).units() * b.units(), a.units() * pow2(149), 1),
        a.units() == 0 ==> a.over(b).units() == 0,
{
    reveal(Single::over);
    let f = Format::single();
    lemma_format(f);
    lemma_order_of_values(a, b);
    lemma_order_of_values(b, a);
    lemma_units_sign(f, a.parts().mag as nat);
    lemma_units_sign(f, b.parts().mag as nat);
    let t = pow2(149);
    lemma_pow2_pos(149);
    let u = units(b.parts().mag as nat, 24);
    let v = units(a.parts().mag as nat, 24) * t;
    assert(v >= 0) by (nonlinear_arith)
        requires
            v == units(a.parts().mag as nat, 24) * t,
            t > 0,
    ;
    assert(b.units() == u);
    let x = quotient(f, a.parts(), b.parts());
    lemma_of_parts(x);
    assert(x == rounded(f, a.parts().neg != b.parts().neg, v, u));
    let q = a.over(b);
    let s = nearest_single(v as int, u);
    lemma_of_parts(rounded(f, false, v, u));
    lemma_nearest_single(v as int, v as int, u);
    if a.units() == 0 {
        assert(v == 0) by (nonlinear_arith)
            requires
                v == units(a.parts().mag as nat, 24) * t,
                units(a.parts().mag as nat, 24) == 0,
        ;
        crate::rounding::lemma_round_zero(u, 24);
        lemma_units_sign(f, 0);
        assert(q.units() == 0);
        assert(0 * b.units() == 0 && 0 * t == 0 && 1 * (0 * t) == 0) by (nonlinear_arith);
    } else {
        assert(s.is_finite());
        lemma_nearest_value(v as int, u);
        lemma_order_of_values(s, s);
        assert(a.units() == units(a.parts().mag as nat, 24));
        assert(q.units() == s.units());
    }
}

/// The square of a root, however small.
pub proof fn lemma_root_error_any(s: Single)
    requires
        s.is_finite(),
        s.order() >= 0,
        s.root().is_finite(),
    ensures
        s.root().units() >= 0,
        near(
            s.root().units() * s.root().units(),
            s.units() * pow2(149),
            3 * (s.units() * pow2(149)) + 0x2_0000_0000_0000,
        ),
{
    let f = Format::single();
    lemma_format(f);
    lemma_order_of_values(s, s);
    let t = pow2(149);
    lemma_pow2_pos(149);
    let v = units(s.parts().mag as nat, 24) * t;
    assert(v >= 0) by (nonlinear_arith)
        requires
            v == units(s.parts().mag as nat, 24) * t,
            t > 0,
    ;
    let x = square_root(f, s.parts());
    reveal(Single::root);
    lemma_of_parts(x);
    lemma_units_sign(f, s.parts().mag as nat);
    if s.order() == 0 {
        lemma_units_sign(f, 0);
        assert(s.units() == 0 && s.root().units() == 0);
        assert(0 * t == 0) by (nonlinear_arith);
    } else {
        lemma_units_sign(f, x.mag as nat);
        let r = integer_root(v);
        let k = binade(r, 1, 24);
        lemma_integer_root(v);
        lemma_binade(r, 1, 24);
        assert(x.mag == root_magnitude(v, 24));
        if s.root().units() >= pow2(100) {
            lemma_root_error(s);
        } else {
            lemma_small_root(s, v, r, k);
        }
    }
}

proof fn lemma_small_root(s: Single, v: nat, r: nat, k: nat)
    requires
        s.is_finite(),
        s.order() > 0,
        v == units(s.parts().mag as nat, 24) * pow2(149),
        r == integer_root(v),
        k == binade(r, 1, 24),
        s.root().is_finite(),
    ensures
        near(
            s.root().units() * s.root().units(),
            s.units() * pow2(149),
            3 * (s.units() * pow2(149)) + 0x2_0000_0000_0000,
        ),
{
    reveal(Single::root);
    let f = Format::single();
    lemma_format(f);
    lemma_order_of_values(s, s);
    let x = square_root(f, s.parts());
    lemma_of_parts(x);
    let w = pow2(k);
    let q = r / w;
    let m = if 4 * v > ((2 * q + 1) * w) * ((2 * q + 1) * w) {
        q + 1
    } else {
        q
    };
    lemma_integer_root(v);
    lemma_binade(r, 1, 24);
    lemma_pow2_pos(k);
    lemma_fundamental_div_mod(r as int, w as int);
    lemma_mod_bound(r as int, w as int);
    assert(w * q == q * w && (q + 1) * w == q * w + w) by (nonlinear_arith);
    lemma_pow2_adds(24, k);
    lemma_pow2_adds(23, k);
    assert(q < 0x100_0000) by (nonlinear_arith)
        requires
            q * w <= r < 0x100_0000 * w,
            w > 0,
    ;
    if k == 0 {
        lemma2_to64();
        assert(q * w == q && (2 * q + 1) * w == 2 * q + 1) by (nonlinear_arith)
            requires
                w == 1,
        ;
        assert(q == r);
        assert(0 * pow2(23) == 0);
        assert(m * pow2(0) == m) by (nonlinear_arith)
            requires
                pow2(0) == 1,
        ;
        lemma_units_of(0, m, 24);
        assert(s.root().units() == m);
        assert((r + 1) * (r + 1) == r * r + 2 * r + 1) by (nonlinear_arith);
    } else {
        assert(q >= 0x80_0000) by (nonlinear_arith)
            requires
                0x80_0000 * w <= r < (q + 1) * w,
                w > 0,
        ;
        lemma_units_of(k, m, 24);
        crate::lengths::lemma_root_places(v as int, r as int, q as int, w as int, m as int);
    }
}

/// What a difference of two finite numbers is off by.
pub proof fn lemma_difference_error(a: Single, b: Single)
    requires
        a.is_finite(),
        b.is_finite(),
        a.minus(b).is_finite(),
    ensures
        near(a.minus(b).units(), a.units() - b.units(), magnitude(a.minus(b).units())),
{
    lemma_minus(a, b);
    let v = a.units() - b.units();
    let s = nearest_single(v, 1);
    lemma_nearest_single(v, v, 1);
    assert(s.is_finite());
    lemma_order_of_values(s, a.minus(b));
    lemma_order_of_values(a.minus(b), s);
    lemma_nearest_value(v, 1);
}

/// The root of a finite number that is not below zero is finite.
pub proof fn lemma_root_finite(s: Single)
    requires
        s.is_finite(),
        s.order() >= 0,
    ensures
        s.root().is_finite(),
{
    reveal(Single::root);
    let f = Format::single();
    lemma_format(f);
    lemma_order_of_values(s, s);
    let x = square_root(f, s.parts());
    lemma_of_parts(x);
    if s.order() > 0 {
        let t = pow2(149);
        let u = units(s.parts().mag as nat, 24);
        let v = u * t;
        let r = integer_root(v);
        let k = binade(r, 1, 24);
        let w = pow2(k);
        let q = r / w;
        let m = if 4 * v > ((2 * q + 1) * w) * ((2 * q + 1) * w) {
            q + 1
        } else {
            q
        };
        lemma_finite_units(s);
        lemma_pow2_pos(149);
        lemma_pow2_pos(k);
        lemma_integer_root(v);
        lemma_binade(r, 1, 24);
        lemma_fundamental_div_mod(r as int, w as int);
        lemma_mod_bound(r as int, w as int);
        assert(w * q == q * w && (q + 1) * w == q * w + w) by (nonlinear_arith);
        lemma_pow2_adds(24, k);
        lemma_pow2_adds(23, k);
        assert(q < 0x100_0000) by (nonlinear_arith)
            requires
                q * w <= r < 0x100_0000 * w,
                w > 0,
        ;
        lemma_pow2_adds(277, 149);
        lemma_pow2_adds(213, 213);
        assert(v < pow2(426)) by (nonlinear_arith)
            requires
                v == u * t,
                u < pow2(277),
                pow2(426) == pow2(277) * t,
                t > 0,
        ;
        assert(r < pow2(213)) by (nonlinear_arith)
            requires
                r * r <= v,
                v < pow2(426),
                pow2(426) == pow2(213) * pow2(213),
                r >= 0,
                pow2(213) >= 0,
        ;
        if k == 0 {
            lemma2_to64();
            assert(0 * pow2(23) == 0);
        } else {
            assert(q >= 0x80_0000) by (nonlinear_arith)
                requires
                    0x80_0000 * w <= r < (q + 1) * w,
                    w > 0,
            ;
        }
        lemma_units_of(k, m, 24);
        lemma2_to64();
        lemma_pow2_adds(1, 213);
        lemma_pow2_adds(1, 214);
        lemma_pow2_strictly_increases(215, 277);
        lemma_pow2_pos(213);
        assert(w <= r + 1) by {
            if k > 0 {
                assert(w <= r) by (nonlinear_arith)
                    requires
                        0x80_0000 * w <= r,
                        w > 0,
                ;
            }
        }
        assert(m * w <= q * w + w) by (nonlinear_arith)
            requires
                m <= q + 1,
                w > 0,
        ;
        lemma_finite(root_magnitude(v, 24));
    }
}

/// A finite product has finite factors.
pub proof fn lemma_factors_finite(a: Single, b: Single)
    requires
        a.times(b).is_finite(),
    ensures
        a.is_finite(),
        b.is_finite(),
{
    reveal(Single::times);
    let f = Format::single();
    lemma_format(f);
    lemma_of_parts(nan(f));
    if !a.is_finite() || !b.is_finite() {
        lemma_of_parts(product(f, a.parts(), b.parts()));
    }
}

} // verus!
