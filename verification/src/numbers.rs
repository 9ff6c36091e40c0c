//! Laws of single-precision arithmetic.
use crate::double::lemma_units_ordered;
use crate::ieee::{
    is_finite, lemma_format, lemma_units_sign, nan, negated, product, quotient, rounded, sum, value, Format, Parts,
};
use crate::rounding::{lemma_round_exact, lemma_round_monotone, lemma_round_zero, round_magnitude, units};
use crate::single::{lemma_of_parts, lemma_parts_roundtrip, Single, EPSILON, ONE, TWO, ZERO};
use vstd::arithmetic::div_mod::*;
use vstd::arithmetic::power2::*;
use vstd::prelude::*;

verus! {

impl Single {
    /// The value of a finite number in units of 2^-149.
    pub open spec fn units(self) -> int {
        value(Format::single(), self.parts())
    }
}

/// Finite numbers are ordered as their values are.
pub proof fn lemma_order_of_values(a: Single, b: Single)
    requires
        a.is_finite(),
        b.is_finite(),
    ensures
        a.order() <= b.order() <==> a.units() <= b.units(),
        a.order() == 0 <==> a.units() == 0,
        a.order() > 0 <==> a.units() > 0,
{
    let x = a.parts();
    let y = b.parts();
    lemma_units_ordered(x.mag as nat, y.mag as nat, 24);
    lemma_units_ordered(y.mag as nat, x.mag as nat, 24);
    lemma_units_sign(Format::single(), x.mag as nat);
    lemma_units_sign(Format::single(), y.mag as nat);
}

/// The number nearest to `v / d` units.
pub open spec fn nearest_single(v: int, d: nat) -> Single {
    Single::of_parts(
        rounded(
            Format::single(),
            v < 0,
            if v < 0 {
                (-v) as nat
            } else {
                v as nat
            },
            d,
        ),
    )
}

/// What rounding makes of a value: a number of the same sign, and larger values do not become
/// smaller.
pub proof fn lemma_nearest_single(v: int, w: int, d: nat)
    requires
        d > 0,
        v <= w,
    ensures
        nearest_single(v, d).is_number(),
        nearest_single(v, d).order() <= nearest_single(w, d).order(),
        v >= 0 ==> nearest_single(v, d).order() >= 0,
        v <= 0 ==> nearest_single(v, d).order() <= 0,
        v == 0 ==> nearest_single(v, d).order() == 0,
{
    let f = Format::single();
    lemma_format(f);
    lemma_round_zero(d, 24);
    let a = if v < 0 {
        (-v) as nat
    } else {
        v as nat
    };
    let b = if w < 0 {
        (-w) as nat
    } else {
        w as nat
    };
    lemma_of_parts(rounded(f, v < 0, a, d));
    lemma_of_parts(rounded(f, w < 0, b, d));
    if v >= 0 {
        assert(a * d <= b * d) by (nonlinear_arith)
            requires
                a <= b,
        ;
        lemma_round_monotone(a, d, b, d, 24);
    } else if w < 0 {
        assert(b * d <= a * d) by (nonlinear_arith)
            requires
                b <= a,
        ;
        lemma_round_monotone(b, d, a, d, 24);
    }
}

/// A sum of finite numbers is the exact sum, rounded.
pub proof fn lemma_plus(a: Single, b: Single)
    requires
        a.is_finite(),
        b.is_finite(),
    ensures
        a.plus(b).is_number(),
        a.plus(b).order() == nearest_single(a.units() + b.units(), 1).order(),
{
    reveal(Single::plus);
    let v = a.units() + b.units();
    lemma_nearest_single(v, v, 1);
    if v == 0 {
        lemma_of_parts(Parts { neg: a.parts().neg && b.parts().neg, mag: 0 });
    }
}

/// A product of finite numbers is the exact product, rounded.
pub proof fn lemma_times(a: Single, b: Single)
    requires
        a.is_finite(),
        b.is_finite(),
    ensures
        a.times(b).is_number(),
        a.times(b).order() == nearest_single(a.units() * b.units(), pow2(149)).order(),
{
    reveal(Single::times);
    let f = Format::single();
    let x = a.parts();
    let y = b.parts();
    let ux = units(x.mag as nat, 24);
    let uy = units(y.mag as nat, 24);
    let v = a.units() * b.units();
    lemma_units_sign(f, x.mag as nat);
    lemma_units_sign(f, y.mag as nat);
    lemma_pow2_pos(149);
    lemma_round_zero(pow2(149), 24);
    lemma_format(f);
    assert(v == if x.neg != y.neg {
        -(ux * uy)
    } else {
        (ux * uy) as int
    }) by (nonlinear_arith)
        requires
            v == a.units() * b.units(),
            a.units() == if x.neg {
                -(ux as int)
            } else {
                ux as int
            },
            b.units() == if y.neg {
                -(uy as int)
            } else {
                uy as int
            },
    ;
    assert(ux * uy >= 0) by (nonlinear_arith)
        requires
            ux >= 0,
            uy >= 0,
    ;
    let r = rounded(f, x.neg != y.neg, ux * uy, pow2(149));
    lemma_of_parts(r);
    lemma_nearest_single(v, v, pow2(149));
    lemma_of_parts(
        rounded(
            f,
            v < 0,
            if v < 0 {
                (-v) as nat
            } else {
                v as nat
            },
            pow2(149),
        ),
    );
}

/// The order of the summands does not matter.
pub proof fn law_plus_commutes(a: Single, b: Single)
    ensures
        a.plus(b) == b.plus(a),
{
    reveal(Single::plus);
    lemma_parts_roundtrip(a);
    lemma_parts_roundtrip(b);
}

/// The order of the factors does not matter.
pub proof fn law_times_commutes(a: Single, b: Single)
    ensures
        a.times(b) == b.times(a),
{
    reveal(Single::times);
    let ux = units(a.parts().mag as nat, 24);
    let uy = units(b.parts().mag as nat, 24);
    assert(ux * uy == uy * ux) by (nonlinear_arith);
}

/// A larger summand does not make a smaller sum.
pub proof fn law_plus_monotone(a: Single, b: Single, c: Single)
    requires
        a.is_finite(),
        b.is_finite(),
        c.is_finite(),
        a.order() <= b.order(),
    ensures
        a.plus(c).order() <= b.plus(c).order(),
        a.plus(c).is_number(),
        b.plus(c).is_number(),
{
    lemma_order_of_values(a, b);
    lemma_plus(a, c);
    lemma_plus(b, c);
    lemma_nearest_single(a.units() + c.units(), b.units() + c.units(), 1);
}

/// A larger factor does not make a smaller product with a number that is not below zero.
pub proof fn law_times_monotone(a: Single, b: Single, c: Single)
    requires
        a.is_finite(),
        b.is_finite(),
        c.is_finite(),
        a.order() <= b.order(),
        0 <= c.order(),
    ensures
        a.times(c).order() <= b.times(c).order(),
        a.times(c).is_number(),
        b.times(c).is_number(),
{
    lemma_order_of_values(a, b);
    lemma_order_of_values(c, c);
    lemma_times(a, c);
    lemma_times(b, c);
    lemma_pow2_pos(149);
    let x = a.units();
    let y = b.units();
    let z = c.units();
    assert(x * z <= y * z) by (nonlinear_arith)
        requires
            x <= y,
            0 <= z,
    ;
    lemma_nearest_single(x * z, y * z, pow2(149));
}

/// Adding a number that is not below zero makes nothing smaller.
pub proof fn law_plus_nothing_smaller(a: Single, b: Single)
    requires
        a.is_finite(),
        b.is_finite(),
        0 <= a.order(),
    ensures
        b.order() <= a.plus(b).order(),
{
    lemma_order_of_values(a, b);
    lemma_plus(a, b);
    lemma_nearest_single(b.units(), a.units() + b.units(), 1);
    lemma_exact(b);
}

/// A finite number is the number nearest to its own value.
pub proof fn lemma_exact(a: Single)
    requires
        a.is_finite(),
    ensures
        nearest_single(a.units(), 1).order() == a.order(),
{
    let f = Format::single();
    lemma_format(f);
    let x = a.parts();
    let u = units(x.mag as nat, 24);
    lemma_round_of_units(x.mag as nat);
    lemma_units_sign(f, x.mag as nat);
    lemma_of_parts(
        rounded(
            f,
            a.units() < 0,
            u,
            1,
        ),
    );
    lemma_round_zero(1, 24);
}

/// Rounding leaves a value that the format has as it is.
pub proof fn lemma_round_of_units(mag: nat)
    ensures
        round_magnitude(units(mag, 24), 1, 24) == mag,
{
    let h = pow2(23);
    lemma_format(Format::single());
    let u = units(mag, 24);
    let r = round_magnitude(u, 1, 24);
    lemma_pow2_pos(0);
    if mag < h {
        lemma2_to64();
        lemma_round_exact(u, 1, mag, 0, 24);
    } else {
        let q = mag / h;
        let m = h + mag % h;
        let e = (q - 1) as nat;
        lemma_mod_bound(mag as int, h as int);
        lemma_div_is_ordered(h as int, mag as int, h as int);
        lemma_div_by_self(h as int);
        assert(u == 1 * (m * pow2(e)));
        lemma_round_exact(u, 1, m, e, 24);
    }
    lemma_units_ordered(r, mag, 24);
    lemma_units_ordered(mag, r, 24);
}

/// The squared difference does not depend on the order of its arguments.
pub proof fn law_squared_difference_symmetric(a: Single, b: Single)
    ensures
        a.minus(b).times(a.minus(b)) == b.minus(a).times(b.minus(a)),
{
    reveal(Single::minus);
    reveal(Single::times);
    let f = Format::single();
    lemma_format(f);
    lemma_parts_roundtrip(a);
    lemma_parts_roundtrip(b);
    let p = sum(f, a.parts(), negated(b.parts()));
    let q = sum(f, b.parts(), negated(a.parts()));
    lemma2_to64();
    assert(p.mag < 0x8000_0000 && q.mag < 0x8000_0000);
    lemma_of_parts(p);
    lemma_of_parts(q);
    assert(p.mag == q.mag);
}

/// A magnitude that stands for few units is finite.
pub proof fn lemma_finite(mag: nat)
    requires
        units(mag, 24) < pow2(277),
    ensures
        mag < 0x7f80_0000,
{
    lemma_format(Format::single());
    lemma_fundamental_div_mod_converse(0x7f80_0000, 0x80_0000, 255, 0);
    lemma_pow2_adds(23, 254);
    assert(units(0x7f80_0000, 24) == pow2(277)) by {
        assert((0x80_0000nat + 0) * pow2(254) == pow2(277));
    }
    lemma_units_ordered(0x7f80_0000, mag, 24);
}

/// A short integer is held exactly.
pub proof fn lemma_from_nat(n: nat)
    requires
        n < 0x100_0000,
    ensures
        Single::from_nat(n).is_finite(),
        Single::from_nat(n).units() == n * pow2(149),
        Single::from_nat(n).order() >= 0,
{
    reveal(Single::from_nat);
    lemma_format(Format::single());
    let v = n * pow2(149);
    assert(v == 1 * (n * pow2(149)));
    lemma_round_exact(v, 1, n, 149, 24);
    lemma_pow2_pos(149);
    lemma_pow2_adds(24, 149);
    lemma_pow2_strictly_increases(173, 277);
    assert(v < pow2(173)) by (nonlinear_arith)
        requires
            v == n * pow2(149),
            n < 0x100_0000,
            pow2(173) == 0x100_0000 * pow2(149),
            pow2(149) > 0,
    ;
    lemma_finite(round_magnitude(v, 1, 24));
    lemma_of_parts(rounded(Format::single(), false, v, 1));
}

/// A difference of finite numbers is the exact difference, rounded.
pub proof fn lemma_minus(a: Single, b: Single)
    requires
        a.is_finite(),
        b.is_finite(),
    ensures
        a.minus(b).is_number(),
        a.minus(b).order() == nearest_single(a.units() - b.units(), 1).order(),
{
    reveal(Single::minus);
    let v = a.units() - b.units();
    lemma_nearest_single(v, v, 1);
    if v == 0 {
        lemma_of_parts(Parts { neg: a.parts().neg && !b.parts().neg, mag: 0 });
    }
}

/// A quotient of a number that is not above zero and one that is above zero is not above zero.
pub proof fn lemma_over_sign(a: Single, b: Single)
    requires
        a.is_number(),
        b.is_number(),
        a.order() <= 0,
        b.order() > 0,
    ensures
        a.over(b).is_number() ==> a.over(b).order() <= 0,
{
    reveal(Single::over);
    let f = Format::single();
    lemma_format(f);
    lemma2_to64();
    let q = quotient(f, a.parts(), b.parts());
    lemma_units_sign(f, a.parts().mag as nat);
    lemma_units_sign(f, b.parts().mag as nat);
    if a.parts().mag == 0 && b.parts().mag < f.inf {
        let d = units(b.parts().mag as nat, 24);
        lemma_round_zero(d, 24);
        assert(0 * pow2(149) == 0);
    }
    assert(q.mag < 0x8000_0000);
    lemma_of_parts(q);
}

/// The value of 1.
pub proof fn lemma_one()
    ensures
        (Single { bits: ONE }).is_finite(),
        (Single { bits: ONE }).units() == pow2(149),
        (Single { bits: ONE }).order() == 0x3f80_0000,
{
    assert(0x3f80_0000u32 & 0x7fff_ffff == 0x3f80_0000) by (bit_vector);
    lemma_format(Format::single());
    lemma_fundamental_div_mod_converse(0x3f80_0000, 0x80_0000, 127, 0);
    lemma_pow2_adds(23, 126);
    assert((0x80_0000nat + 0) * pow2(126) == pow2(149));
}

/// The value of 2^-23.
pub proof fn lemma_epsilon()
    ensures
        (Single { bits: EPSILON }).is_finite(),
        (Single { bits: EPSILON }).units() == pow2(126),
        (Single { bits: EPSILON }).order() > 0,
{
    assert(0x3400_0000u32 & 0x7fff_ffff == 0x3400_0000) by (bit_vector);
    lemma_format(Format::single());
    lemma_fundamental_div_mod_converse(0x3400_0000, 0x80_0000, 104, 0);
    lemma_pow2_adds(23, 103);
    assert((0x80_0000nat + 0) * pow2(103) == pow2(126));
}

/// A short integer times 2^-23 lies between 0 and 1 - 2^-23, as long as the integer is below 2^23.
pub proof fn lemma_unit(n: nat)
    requires
        n < 0x80_0000,
    ensures
        ({
            let r = Single::from_nat(n).times(Single { bits: EPSILON });
            r.is_finite() && 0 <= r.order() <= 0x3f7f_fffe
        }),
{
    let eps = Single { bits: EPSILON };
    let a = Single::from_nat(n);
    let b = Single::from_nat(0x7f_ffff);
    lemma_from_nat(n);
    lemma_from_nat(0x7f_ffff);
    lemma_epsilon();
    lemma_order_of_values(a, b);
    lemma_pow2_pos(149);
    assert(n * pow2(149) <= 0x7f_ffff * pow2(149)) by (nonlinear_arith)
        requires
            n <= 0x7f_ffff,
    ;
    law_times_monotone(a, b, eps);
    // The largest of them is exact.
    lemma_times(a, eps);
    lemma_times(b, eps);
    let d = pow2(149);
    let v = b.units() * eps.units();
    let m: nat = 0x7f_ffff;
    lemma_pow2_pos(126);
    assert(v == d * (m * pow2(126))) by (nonlinear_arith)
        requires
            v == (m * d) * pow2(126),
    ;
    lemma_format(Format::single());
    lemma_round_exact(v as nat, d, m, 126, 24);
    let mag = round_magnitude(v as nat, d, 24);
    lemma_fundamental_div_mod_converse(0x3f7f_fffe, 0x80_0000, 126, 0x7f_fffe);
    lemma_pow2_unfold(126);
    assert(units(0x3f7f_fffe, 24) == (0x80_0000nat + 0x7f_fffe) * pow2(125));
    assert(units(0x3f7f_fffe, 24) == m * pow2(126)) by (nonlinear_arith)
        requires
            units(0x3f7f_fffe, 24) == 0xff_fffe * pow2(125),
            pow2(126) == 2 * pow2(125),
            m == 0x7f_ffff,
    ;
    lemma_units_ordered(mag, 0x3f7f_fffe, 24);
    lemma_units_ordered(0x3f7f_fffe, mag, 24);
    assert(mag == 0x3f7f_fffe);
    lemma_of_parts(rounded(Format::single(), false, v as nat, d));
    // All of them are at least 0.
    let w = a.units() * eps.units();
    assert(w >= 0) by (nonlinear_arith)
        requires
            w == (n * d) * pow2(126),
            n >= 0,
            d > 0,
            pow2(126) > 0,
    ;
    lemma_nearest_single(w, w, d);
}

/// One times a finite number is that number.
pub proof fn law_times_one(a: Single)
    requires
        a.is_finite(),
    ensures
        a.times(Single { bits: ONE }).order() == a.order(),
        a.times(Single { bits: ONE }) == a,
{
    reveal(Single::times);
    lemma_one();
    lemma_format(Format::single());
    let x = a.parts();
    let one = Single { bits: ONE };
    let u = units(x.mag as nat, 24);
    let d = pow2(149);
    lemma_pow2_pos(149);
    assert(units(one.parts().mag as nat, 24) == d);
    lemma_round_of_units(x.mag as nat);
    assert((u * d) * 1 == u * d);
    lemma_round_monotone(u * d, d, u, 1, 24);
    lemma_round_monotone(u, 1, u * d, d, 24);
    lemma_parts_roundtrip(a);
    lemma_of_parts(rounded(Format::single(), x.neg, u * d, d));
}

/// Adding a zero leaves a finite number where it is.
pub proof fn law_plus_zero(zero: Single, a: Single)
    requires
        zero.is_finite(),
        zero.order() == 0,
        a.is_finite(),
    ensures
        zero.plus(a).order() == a.order(),
{
    lemma_order_of_values(zero, a);
    lemma_plus(zero, a);
    lemma_exact(a);
}

/// A product of finite numbers that are not below zero is not below zero.
pub proof fn law_times_not_below_zero(a: Single, b: Single)
    requires
        a.is_finite(),
        b.is_finite(),
        0 <= a.order(),
        0 <= b.order(),
    ensures
        0 <= a.times(b).order(),
{
    lemma_order_of_values(a, b);
    lemma_order_of_values(b, a);
    lemma_times(a, b);
    lemma_pow2_pos(149);
    let v = a.units() * b.units();
    assert(v >= 0) by (nonlinear_arith)
        requires
            v == a.units() * b.units(),
            a.units() >= 0,
            b.units() >= 0,
    ;
    lemma_nearest_single(v, v, pow2(149));
}

/// The bits of a number for a value above zero.
pub proof fn lemma_positive_bits(v: int)
    requires
        v > 0,
    ensures
        nearest_single(v, 1).bits == nearest_single(v, 1).parts().mag,
{
    let x = rounded(Format::single(), false, v as nat, 1);
    lemma_format(Format::single());
    lemma_of_parts(x);
}

/// Short integers are added exactly.
pub proof fn law_integers_add(a: nat, b: nat)
    requires
        a + b < 0x100_0000,
    ensures
        Single::from_nat(a).plus(Single::from_nat(b)) == Single::from_nat(a + b),
{
    lemma_from_nat(a);
    lemma_from_nat(b);
    lemma_from_nat_parts(a);
    lemma_from_nat_parts(b);
    reveal(Single::plus);
    reveal(Single::from_nat);
    lemma_round_zero(1, 24);
    lemma_format(Format::single());
    assert((a + b) * pow2(149) == a * pow2(149) + b * pow2(149)) by (nonlinear_arith);
    if a + b == 0 {
        assert(0 * pow2(149) == 0);
    }
}

/// Short integers are subtracted exactly.
pub proof fn law_integers_subtract(a: nat, b: nat)
    requires
        b <= a < 0x100_0000,
    ensures
        Single::from_nat(a).minus(Single::from_nat(b)) == Single::from_nat((a - b) as nat),
{
    lemma_from_nat(a);
    lemma_from_nat(b);
    lemma_from_nat_parts(a);
    lemma_from_nat_parts(b);
    reveal(Single::minus);
    reveal(Single::from_nat);
    lemma_round_zero(1, 24);
    lemma_format(Format::single());
    lemma_pow2_pos(149);
    let c = (a - b) as nat;
    let t = pow2(149);
    assert(c * t == a * t - b * t && c * t >= 0 && (c * t == 0 ==> c == 0)) by (nonlinear_arith)
        requires
            c == a - b,
            c >= 0,
            t > 0,
    ;
}

/// Short integers are multiplied exactly.
pub proof fn law_integers_multiply(a: nat, b: nat)
    requires
        a < 0x100_0000,
        b < 0x100_0000,
        a * b < 0x100_0000,
    ensures
        Single::from_nat(a).times(Single::from_nat(b)) == Single::from_nat(a * b),
{
    lemma_from_nat(a);
    lemma_from_nat(b);
    lemma_from_nat_parts(a);
    lemma_from_nat_parts(b);
    reveal(Single::times);
    reveal(Single::from_nat);
    let t = pow2(149);
    lemma_pow2_pos(149);
    let v = (a * t) * (b * t);
    let w = (a * b) * t;
    assert(v * 1 == w * t) by (nonlinear_arith)
        requires
            v == (a * t) * (b * t),
            w == (a * b) * t,
    ;
    lemma_round_monotone(v, t, w, 1, 24);
    lemma_round_monotone(w, 1, v, t, 24);
}

/// The bits of 0, 1 and 2.
pub proof fn law_integer_bits()
    ensures
        Single::from_nat(0) == (Single { bits: ZERO }),
        Single::from_nat(1) == (Single { bits: ONE }),
        Single::from_nat(2) == (Single { bits: TWO }),
{
    reveal(Single::from_nat);
    lemma_format(Format::single());
    lemma_round_zero(1, 24);
    lemma_one();
    assert(0 * pow2(149) == 0);
    assert(0x4000_0000u32 & 0x7fff_ffff == 0x4000_0000) by (bit_vector);
    lemma_pow2_adds(23, 127);
    lemma_pow2_adds(1, 149);
    lemma2_to64();
    lemma_round_of_units(0x3f80_0000);
    lemma_round_of_units(0x4000_0000);
    assert(units(0x4000_0000, 24) == 2 * pow2(149)) by {
        assert((0x80_0000nat + 0) * pow2(127) == pow2(150));
    }
    lemma_of_parts(rounded(Format::single(), false, 0, 1));
    lemma_of_parts(rounded(Format::single(), false, 1 * pow2(149), 1));
    lemma_of_parts(rounded(Format::single(), false, 2 * pow2(149), 1));
}

/// A short integer has no sign, and its magnitude stands for its value.
pub proof fn lemma_from_nat_parts(n: nat)
    requires
        n < 0x100_0000,
    ensures
        !Single::from_nat(n).parts().neg,
        units(Single::from_nat(n).parts().mag as nat, 24) == n * pow2(149),
        Single::from_nat(n).parts().mag < 0x7f80_0000,
{
    lemma_from_nat(n);
    reveal(Single::from_nat);
    lemma_format(Format::single());
    lemma_of_parts(rounded(Format::single(), false, n * pow2(149), 1));
}

/// Integers keep their order, and none is below zero.
pub proof fn lemma_from_nat_ordered(m: nat, n: nat)
    requires
        m <= n,
    ensures
        Single::from_nat(m).is_number(),
        Single::from_nat(n).is_number(),
        0 <= Single::from_nat(m).order() <= Single::from_nat(n).order(),
{
    reveal(Single::from_nat);
    let t = pow2(149);
    assert(0 <= m * t <= n * t) by (nonlinear_arith)
        requires
            0 <= m <= n,
            t >= 0,
    ;
    lemma_nearest_single((m * t) as int, (n * t) as int, 1);
    lemma_nearest_single((n * t) as int, (n * t) as int, 1);
}

/// An integer of 64 bits is a finite number.
pub proof fn lemma_long_integer(n: nat)
    requires
        n <= u64::MAX,
    ensures
        Single::from_nat(n).is_finite(),
{
    let two64 = Single { bits: 0x5f80_0000 };
    assert(0x5f80_0000u32 & 0x7fff_ffff == 0x5f80_0000) by (bit_vector);
    lemma_format(Format::single());
    lemma_fundamental_div_mod_converse(0x5f80_0000, 0x80_0000, 191, 0);
    lemma_pow2_adds(23, 190);
    lemma_pow2_adds(64, 149);
    lemma2_to64();
    assert(units(0x5f80_0000, 24) == pow2(213)) by {
        assert((0x80_0000nat + 0) * pow2(190) == pow2(213));
    }
    lemma_exact(two64);
    reveal(Single::from_nat);
    let t = pow2(149);
    assert(0 <= n * t <= pow2(213)) by (nonlinear_arith)
        requires
            0 <= n <= 0xffff_ffff_ffff_ffff,
            pow2(213) == 0x1_0000_0000_0000_0000 * t,
            t >= 0,
    ;
    lemma_nearest_single((n * t) as int, pow2(213) as int, 1);
}

/// A number from 1 on, divided by a finite number above zero, is above zero.
pub proof fn lemma_over_positive(a: Single, b: Single)
    requires
        a.is_number(),
        a.order() >= 0x3f80_0000,
        b.is_finite(),
        b.order() > 0,
    ensures
        a.over(b).is_number(),
        a.over(b).order() > 0,
{
    reveal(Single::over);
    let f = Format::single();
    lemma_format(f);
    let x = a.parts();
    let y = b.parts();
    let q = quotient(f, x, y);
    if x.mag < f.inf {
        let one = Single { bits: ONE };
        let t = pow2(149);
        lemma_one();
        lemma_order_of_values(one, a);
        lemma_order_of_values(b, b);
        let ux = units(x.mag as nat, 24);
        let uy = units(y.mag as nat, 24);
        lemma_units_ordered(0x7f80_0000, y.mag as nat, 24);
        lemma_fundamental_div_mod_converse(0x7f80_0000, 0x80_0000, 255, 0);
        lemma_pow2_adds(23, 254);
        assert(units(0x7f80_0000, 24) == pow2(277)) by {
            assert((0x80_0000nat + 0) * pow2(254) == pow2(277));
        }
        lemma_pow2_adds(149, 149);
        lemma_pow2_strictly_increases(277, 298);
        assert(1 * uy <= (ux * t) * 1) by (nonlinear_arith)
            requires
                ux >= t,
                t > 0,
                uy < pow2(277),
                pow2(277) < pow2(298),
                pow2(298) == t * t,
        ;
        lemma_round_monotone(1, 1, ux * t, uy, 24);
        lemma_round_of_units(1);
        lemma2_to64();
        assert(units(1, 24) == 1);
    }
    lemma_of_parts(q);
}

/// A finite sum has finite terms.
pub proof fn lemma_terms_finite(a: Single, b: Single)
    requires
        a.plus(b).is_finite(),
    ensures
        a.is_finite(),
        b.is_finite(),
{
    reveal(Single::plus);
    let f = Format::single();
    lemma_format(f);
    lemma_of_parts(nan(f));
    if !a.is_finite() || !b.is_finite() {
        lemma_of_parts(sum(f, a.parts(), b.parts()));
    }
}

/// No number below zero.
pub open spec fn not_below_zero(a: Single) -> bool {
    a.is_number() ==> a.order() >= 0
}

/// Nothing below zero comes out of a sum of what is not below zero.
pub proof fn law_sum_not_below_zero(a: Single, b: Single)
    requires
        not_below_zero(a),
        not_below_zero(b),
    ensures
        not_below_zero(a.plus(b)),
{
    if a.is_finite() && b.is_finite() {
        law_plus_nothing_smaller(a, b);
    } else {
        reveal(Single::plus);
        let f = Format::single();
        lemma_format(f);
        lemma_of_parts(nan(f));
        lemma_of_parts(sum(f, a.parts(), b.parts()));
    }
}

/// No square is below zero.
pub proof fn law_square_not_below_zero(a: Single)
    ensures
        not_below_zero(a.times(a)),
{
    reveal(Single::times);
    let f = Format::single();
    lemma_format(f);
    lemma_of_parts(product(f, a.parts(), a.parts()));
}

} // verus!
