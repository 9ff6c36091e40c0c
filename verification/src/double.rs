//! Double-precision numbers, held as their 64 bits.
use crate::ieee::{
    converted, fp_add, fp_convert, fp_div, fp_from_integer, fp_mul, fp_round, fp_sqrt, fp_truncate, nearest,
    of_integer, product, quotient, square_root, sum, truncated, Format, Parts,
};
use crate::ieee::{integer_root, lemma_format, lemma_integer_root, lemma_units_increase, root_magnitude, rounded};
use crate::rounding::{
    binade, lemma_binade, lemma_units_of, lemma_round_error, lemma_round_exact, lemma_round_monotone, round_magnitude, units,
};
use crate::single::Single;
use vstd::arithmetic::div_mod::*;
use vstd::arithmetic::mul::lemma_mul_is_commutative;
use vstd::arithmetic::power2::*;
use vstd::prelude::*;

verus! {

/// The bits of 0.
pub const ZERO: u64 = 0;

/// The bits of 1.
pub const ONE: u64 = 0x3ff0_0000_0000_0000;

/// An IEEE 754 binary64 number.
#[derive(Copy, Clone, Debug, PartialEq, Eq, Structural)]
pub struct Double {
    pub bits: u64,
}

pub(crate) fn double_format() -> (f: Format)
    ensures
        f == Format::double(),
{
    Format { p: 53, unit: 1074, inf: 0x7ff0_0000_0000_0000 }
}

impl Double {
    /// The sign and the magnitude.
    pub open spec fn parts(self) -> Parts {
        Parts { neg: self.bits >= 0x8000_0000_0000_0000, mag: self.bits & 0x7fff_ffff_ffff_ffff }
    }

    /// The number with this sign and this magnitude.
    pub open spec fn of_parts(x: Parts) -> Double {
        Double {
            bits: if x.neg {
                x.mag | 0x8000_0000_0000_0000
            } else {
                x.mag
            },
        }
    }

    fn unpack(self) -> (x: Parts)
        ensures
            x == self.parts(),
    {
        Parts { neg: self.bits >= 0x8000_0000_0000_0000, mag: self.bits & 0x7fff_ffff_ffff_ffff }
    }

    pub(crate) fn pack(x: Parts) -> (r: Double)
        ensures
            r == Double::of_parts(x),
    {
        Double {
            bits: if x.neg {
                x.mag | 0x8000_0000_0000_0000
            } else {
                x.mag
            },
        }
    }

    #[verifier::opaque]
    pub open spec fn plus(self, rhs: Double) -> Double {
        Double::of_parts(sum(Format::double(), self.parts(), rhs.parts()))
    }

    #[verifier::opaque]
    pub open spec fn times(self, rhs: Double) -> Double {
        Double::of_parts(product(Format::double(), self.parts(), rhs.parts()))
    }

    #[verifier::opaque]
    pub open spec fn over(self, rhs: Double) -> Double {
        Double::of_parts(quotient(Format::double(), self.parts(), rhs.parts()))
    }

    #[verifier::opaque]
    pub open spec fn root(self) -> Double {
        Double::of_parts(square_root(Format::double(), self.parts()))
    }

    #[verifier::opaque]
    pub open spec fn from_nat(n: nat) -> Double {
        Double::of_parts(of_integer(Format::double(), n))
    }

    /// The integer part, from `0` to `max`.
    #[verifier::opaque]
    pub open spec fn whole(self, max: nat) -> nat {
        truncated(Format::double(), self.parts(), max)
    }

    /// The nearest integer from `0` to `max`.
    #[verifier::opaque]
    pub open spec fn closest(self, max: nat) -> nat {
        nearest(Format::double(), self.parts(), max)
    }

    #[verifier::opaque]
    pub open spec fn narrowed(self) -> Single {
        Single::of_parts(converted(Format::double(), Format::single(), self.parts()))
    }

    pub fn add(self, rhs: Double) -> (r: Double)
        ensures
            r == self.plus(rhs),
    {
        reveal(Double::plus);
        Double::pack(fp_add(double_format(), self.unpack(), rhs.unpack()))
    }

    pub fn mul(self, rhs: Double) -> (r: Double)
        ensures
            r == self.times(rhs),
    {
        reveal(Double::times);
        Double::pack(fp_mul(double_format(), self.unpack(), rhs.unpack()))
    }

    pub fn div(self, rhs: Double) -> (r: Double)
        ensures
            r == self.over(rhs),
    {
        reveal(Double::over);
        Double::pack(fp_div(double_format(), self.unpack(), rhs.unpack()))
    }

    pub fn sqrt(self) -> (r: Double)
        ensures
            r == self.root(),
    {
        reveal(Double::root);
        Double::pack(fp_sqrt(double_format(), self.unpack()))
    }

    /// The integer `n`, rounded to double precision.
    pub fn from_integer(n: u64) -> (r: Double)
        ensures
            r == Double::from_nat(n as nat),
    {
        reveal(Double::from_nat);
        Double::pack(fp_from_integer(double_format(), n as u128))
    }

    /// The integer `n`, rounded to double precision.
    pub fn from_wide_integer(n: u128) -> (r: Double)
        ensures
            r == Double::from_nat(n as nat),
    {
        reveal(Double::from_nat);
        Double::pack(fp_from_integer(double_format(), n))
    }

    /// The integer part, cut to the range of `usize`; 0 where this is no number.
    pub fn to_usize(self) -> (r: usize)
        ensures
            r == self.whole(usize::MAX as nat),
    {
        reveal(Double::whole);
        fp_truncate(double_format(), self.unpack(), usize::MAX as u64) as usize
    }

    /// The nearest integer, halves going up, cut to the range of `usize`; 0 where this is no
    /// number.
    pub fn round_to_usize(self) -> (r: usize)
        ensures
            r == self.closest(usize::MAX as nat),
    {
        reveal(Double::closest);
        fp_round(double_format(), self.unpack(), usize::MAX as u64) as usize
    }

    /// The value rounded to single precision.
    pub fn to_single(self) -> (r: Single)
        ensures
            r == self.narrowed(),
    {
        reveal(Double::narrowed);
        Single::pack(fp_convert(double_format(), crate::single::single_format(), self.unpack()))
    }
}

/// The number of units of the format in 1.
pub open spec fn one() -> nat {
    pow2(1074)
}

pub proof fn lemma_of_parts(x: Parts)
    requires
        x.mag < 0x8000_0000_0000_0000,
    ensures
        Double::of_parts(x).parts() == x,
{
    let m = x.mag;
    assert(m < 0x8000_0000_0000_0000 ==> (m | 0x8000_0000_0000_0000) >= 0x8000_0000_0000_0000 && (m
        | 0x8000_0000_0000_0000) & 0x7fff_ffff_ffff_ffff == m && m & 0x7fff_ffff_ffff_ffff == m)
        by (bit_vector);
}

/// A magnitude that stands for few units is finite.
pub proof fn lemma_finite(mag: nat)
    requires
        units(mag, 53) < pow2(2098),
    ensures
        mag < 0x7ff0_0000_0000_0000,
{
    lemma_format(Format::double());
    let inf: nat = 0x7ff0_0000_0000_0000;
    let h = pow2(52);
    lemma_fundamental_div_mod_converse(inf as int, h as int, 2047, 0);
    lemma_pow2_adds(52, 2046);
    assert(units(inf, 53) == pow2(2098));
    if mag > inf {
        lemma_units_increase(inf, mag, 53);
    }
}

/// A value `n / d` of fewer than 66 integer digits, rounded: it is finite, off by at most 2^11,
/// and exact where it has few enough digits.
pub proof fn lemma_rounded(n: nat, d: nat)
    requires
        d > 0,
        n < d * pow2(1140),
    ensures
        ({
            let x = Double::of_parts(rounded(Format::double(), false, n, d)).parts();
            let u = units(x.mag as nat, 53);
            &&& x == rounded(Format::double(), false, n, d)
            &&& !x.neg
            &&& x.mag < 0x7ff0_0000_0000_0000
            &&& u == units(round_magnitude(n, d, 53), 53)
            &&& u * d <= n + d * pow2(1086)
            &&& n <= u * d + d * pow2(1086)
        }),
{
    let k = binade(n, d, 53);
    lemma_binade(n, d, 53);
    lemma_round_error(n, d, 53);
    if k > 1087 {
        if 1140 < 53 + k - 1 {
            lemma_pow2_strictly_increases(1140, (53 + k - 1) as nat);
        }
        assert(d * pow2((53 + k - 1) as nat) >= d * pow2(1140)) by (nonlinear_arith)
            requires
                pow2((53 + k - 1) as nat) >= pow2(1140),
                d > 0,
        ;
    }
    if k < 1087 {
        lemma_pow2_strictly_increases(k, 1087);
    }
    lemma_pow2_unfold(1087);
    assert(d * pow2(k) <= 2 * (d * pow2(1086))) by (nonlinear_arith)
        requires
            pow2(k) <= 2 * pow2(1086),
            d > 0,
    ;
    let mag = round_magnitude(n, d, 53);
    let u = units(mag, 53);
    lemma_pow2_strictly_increases(1086, 1140);
    assert(u * d < d * (2 * pow2(1140))) by (nonlinear_arith)
        requires
            u * d <= n + d * pow2(1086),
            n < d * pow2(1140),
            pow2(1086) < pow2(1140),
            d > 0,
    ;
    assert(u < 2 * pow2(1140)) by (nonlinear_arith)
        requires
            u * d < d * (2 * pow2(1140)),
            d > 0,
    ;
    lemma_pow2_unfold(1141);
    lemma_pow2_strictly_increases(1141, 2098);
    lemma_finite(mag);
    lemma_of_parts(rounded(Format::double(), false, n, d));
}

/// An integer in double precision: off by at most 2^12, and exact below 2^53.
pub proof fn lemma_from_nat(n: nat)
    requires
        n <= u64::MAX,
    ensures
        ({
            let x = Double::from_nat(n).parts();
            let u = units(x.mag as nat, 53);
            &&& !x.neg
            &&& x.mag < 0x7ff0_0000_0000_0000
            &&& u <= one() * (n + 0x1000)
            &&& u + one() * 0x1000 >= one() * n
            &&& n < 0x20_0000_0000_0000 ==> u == one() * n
        }),
{
    reveal(Double::from_nat);
    let v = n * pow2(1074);
    lemma_pow2_adds(64, 1074);
    lemma_pow2_strictly_increases(1138, 1140);
    lemma2_to64();
    assert(v < 1 * pow2(1140)) by (nonlinear_arith)
        requires
            v == n * pow2(1074),
            n <= 0xffff_ffff_ffff_ffff,
            pow2(1138) == 0x1_0000_0000_0000_0000 * pow2(1074),
            pow2(1138) < pow2(1140),
            pow2(1074) >= 0,
    ;
    lemma_rounded(v, 1);
    lemma_pow2_adds(12, 1074);
    let u = units(Double::from_nat(n).parts().mag as nat, 53);
    assert(u * 1 == u);
    assert(one() * (n + 0x1000) == v + 0x1000 * one()) by (nonlinear_arith)
        requires
            v == n * one(),
    ;
    assert(one() * n == v) by (nonlinear_arith)
        requires
            v == n * one(),
    ;
    if n < 0x20_0000_0000_0000 {
        lemma_format(Format::double());
        lemma_round_exact(v, 1, n, 1074, 53);
    }
}

/// Smaller values have smaller magnitudes, and the other way round.
pub proof fn lemma_units_ordered(x: nat, y: nat, p: nat)
    requires
        p > 0,
    ensures
        x <= y <==> units(x, p) <= units(y, p),
{
    if x < y {
        lemma_units_increase(x, y, p);
    } else if y < x {
        lemma_units_increase(y, x, p);
    }
}

/// A single that is positive and not above 1 is at most 1 in double precision too.
proof fn lemma_widened_share(f: Single)
    requires
        (Single { bits: crate::single::ZERO }).below(f),
        !(Single { bits: crate::single::ONE }).below(f),
    ensures
        ({
            let y = f.widened().parts();
            &&& !y.neg
            &&& y.mag < 0x7ff0_0000_0000_0000
            &&& units(y.mag as nat, 53) <= one()
        }),
{
    reveal(Single::below);
    reveal(Single::widened);
    let z: u32 = 0;
    let o: u32 = 0x3f80_0000;
    assert(z & 0x7fff_ffff == 0 && o & 0x7fff_ffff == 0x3f80_0000) by (bit_vector)
        requires
            z == 0,
            o == 0x3f80_0000,
    ;
    let x = f.parts();
    assert(!x.neg && x.mag <= 0x3f80_0000);
    lemma_format(Format::single());
    lemma_format(Format::double());
    let u = units(x.mag as nat, 24);
    lemma_fundamental_div_mod_converse(0x3f80_0000, 0x80_0000, 127, 0);
    lemma_pow2_adds(23, 126);
    assert(units(0x3f80_0000, 24) == pow2(149)) by {
        assert((0x80_0000nat + 0) * pow2(126) == pow2(149));
    }
    lemma_units_ordered(x.mag as nat, 0x3f80_0000, 24);
    let n = u * pow2(1074);
    let d = pow2(149);
    lemma_pow2_pos(149);
    lemma_pow2_pos(1074);
    assert(n * 1 <= pow2(1074) * d) by (nonlinear_arith)
        requires
            n == u * pow2(1074),
            u <= d,
            pow2(1074) > 0,
    ;
    lemma_round_monotone(n, d, pow2(1074), 1, 53);
    lemma_round_exact(pow2(1074), 1, 1, 1074, 53);
    lemma_units_ordered(round_magnitude(n, d, 53), round_magnitude(pow2(1074), 1, 53), 53);
    lemma_pow2_strictly_increases(1074, 1140);
    assert(n < d * pow2(1140)) by (nonlinear_arith)
        requires
            n <= pow2(1074) * d,
            pow2(1074) < pow2(1140),
            d > 0,
    ;
    lemma_rounded(n, d);
}

/// A share of at most 1 of `n` is at most `n`.
pub proof fn lemma_share(n: nat, f: Single, max: nat)
    requires
        n < 0x20_0000_0000_0000,
        (Single { bits: crate::single::ZERO }).below(f),
        !(Single { bits: crate::single::ONE }).below(f),
    ensures
        Double::from_nat(n).times(f.widened()).whole(max) <= n,
{
    reveal(Double::times);
    reveal(Double::whole);
    lemma_from_nat(n);
    lemma_widened_share(f);
    let t = one();
    let x = Double::from_nat(n).parts();
    let y = f.widened().parts();
    let ux = units(x.mag as nat, 53);
    let uy = units(y.mag as nat, 53);
    lemma_pow2_pos(1074);
    let v = ux * uy;
    assert(v * 1 <= (t * n) * t) by (nonlinear_arith)
        requires
            v == ux * uy,
            ux == t * n,
            0 <= uy <= t,
            t > 0,
            n >= 0,
    ;
    lemma_round_monotone(v, t, t * n, 1, 53);
    lemma_format(Format::double());
    assert(t * n == 1 * (n * pow2(1074))) by (nonlinear_arith)
        requires
            t == pow2(1074),
    ;
    lemma_round_exact(t * n, 1, n, 1074, 53);
    lemma_units_ordered(round_magnitude(v, t, 53), round_magnitude(t * n, 1, 53), 53);
    lemma_pow2_adds(66, 1074);
    lemma2_to64();
    lemma_pow2_adds(2, 64);
    assert(v < t * pow2(1140)) by (nonlinear_arith)
        requires
            v <= (t * n) * t,
            n < 0x20_0000_0000_0000,
            pow2(1140) == 0x4_0000_0000_0000_0000 * t,
            t > 0,
    ;
    lemma_rounded(v, t);
    let u = units(Double::from_nat(n).times(f.widened()).parts().mag as nat, 53);
    assert(u <= n * t) by (nonlinear_arith)
        requires
            u <= n * pow2(1074),
            t == pow2(1074),
    ;
    lemma_div_is_ordered(u as int, (n * t) as int, t as int);
    lemma_div_multiples_vanish(n as int, t as int);
    lemma_mul_is_commutative(n as int, t as int);
}

/// The square root of an integer lies between integers whose squares do.
pub proof fn lemma_root_bounds(n: nat, a: nat, b: nat)
    requires
        n <= u32::MAX,
        a * a <= n <= b * b,
        b <= u32::MAX,
    ensures
        ({
            let x = Double::from_nat(n).root().parts();
            &&& !x.neg
            &&& x.mag < 0x7ff0_0000_0000_0000
            &&& one() * a <= units(x.mag as nat, 53) <= one() * b
        }),
{
    reveal(Double::root);
    lemma_from_nat(n);
    let t = one();
    lemma_pow2_pos(1074);
    let x = Double::from_nat(n).parts();
    lemma_format(Format::double());
    if n == 0 {
        assert(t * n == 0) by (nonlinear_arith)
            requires
                n == 0,
        ;
        if x.mag > 0 {
            lemma_units_increase(0, x.mag as nat, 53);
        }
        assert(x.mag == 0);
        lemma_of_parts(x);
        assert(a == 0) by (nonlinear_arith)
            requires
                a * a <= 0,
        ;
        assert(t * a == 0) by (nonlinear_arith)
            requires
                a == 0,
        ;
        assert(0 <= t * b) by (nonlinear_arith);
    } else {
        assert(t * n > 0) by (nonlinear_arith)
            requires
                n > 0,
                t > 0,
        ;
        assert(x.mag > 0);
        let v = (t * n) * t;
        let r = integer_root(v);
        lemma_integer_root(v);
        // The root of v lies between t * a and t * b.
        assert(t * a <= r) by (nonlinear_arith)
            requires
                v < (r + 1) * (r + 1),
                v == (t * n) * t,
                a * a <= n,
                t > 0,
                a >= 0,
                r >= 0,
        ;
        assert(r <= t * b) by (nonlinear_arith)
            requires
                r * r <= v,
                v == (t * n) * t,
                n <= b * b,
                t > 0,
                b >= 0,
                r >= 0,
        ;
        let k = binade(r, 1, 53);
        lemma_binade(r, 1, 53);
        lemma_pow2_adds(32, 1074);
        lemma2_to64();
        if k > 1074 {
            if 1106 < 53 + k - 1 {
                lemma_pow2_strictly_increases(1106, (53 + k - 1) as nat);
            }
            assert(t * b < pow2(1106)) by (nonlinear_arith)
                requires
                    b < 0x1_0000_0000,
                    pow2(1106) == 0x1_0000_0000 * t,
                    t > 0,
            ;
        }
        let c = pow2(k);
        let e = pow2((1074 - k) as nat);
        lemma_pow2_adds(k, (1074 - k) as nat);
        lemma_pow2_pos(k);
        let q = r / c;
        lemma_fundamental_div_mod(r as int, c as int);
        lemma_mod_bound(r as int, c as int);
        // q * c is not below t * a, which is a multiple of c.
        assert(e * a <= q) by (nonlinear_arith)
            requires
                t * a <= r,
                r < c * q + c,
                t == c * e,
                c > 0,
        ;
        assert(q <= e * b) by (nonlinear_arith)
            requires
                r <= t * b,
                c * q <= r,
                t == c * e,
                c > 0,
        ;
        let up = 4 * v > ((2 * q + 1) * c) * ((2 * q + 1) * c);
        let m = if up {
            q + 1
        } else {
            q
        };
        if up {
            let s = (2 * q + 1) * c;
            assert(s < 2 * (t * b)) by (nonlinear_arith)
                requires
                    4 * v > s * s,
                    v == (t * n) * t,
                    n <= b * b,
                    t > 0,
                    b >= 0,
                    s >= 0,
            ;
            assert(q + 1 <= e * b) by (nonlinear_arith)
                requires
                    (2 * q + 1) * c < 2 * (t * b),
                    t == c * e,
                    c > 0,
            ;
        }
        lemma_pow2_adds(53, k);
        assert(q < pow2(53)) by (nonlinear_arith)
            requires
                c * q <= r,
                r < 1 * pow2(53 + k),
                pow2(53 + k) == pow2(53) * c,
                c > 0,
        ;
        if k > 0 {
            lemma_pow2_adds(52, k);
            assert(q >= pow2(52)) by (nonlinear_arith)
                requires
                    r < c * q + c,
                    r >= 1 * pow2(52 + k),
                    pow2(52 + k) == pow2(52) * c,
                    c > 0,
            ;
        }
        lemma_units_of(k, m, 53);
        let mag = root_magnitude(v, 53);
        let u = units(mag, 53);
        assert(u == m * c);
        assert(t * a <= u <= t * b) by (nonlinear_arith)
            requires
                u == m * c,
                e * a <= m <= e * b,
                t == c * e,
                c > 0,
        ;
        assert(t * b < pow2(1106)) by (nonlinear_arith)
            requires
                b < 0x1_0000_0000,
                pow2(1106) == 0x1_0000_0000 * t,
                t > 0,
        ;
        lemma_pow2_strictly_increases(1106, 2098);
        lemma_finite(mag);
        lemma_of_parts(Parts { neg: false, mag: mag as u64 });
    }
}

/// The square root of an integer cut to an integer, and rounded to one, lies between integers
/// whose squares do.
pub proof fn lemma_integer_root_bounds(n: nat, a: nat, b: nat, max: nat)
    requires
        n <= u32::MAX,
        a * a <= n <= b * b,
        b <= u32::MAX,
        b <= max,
    ensures
        a <= Double::from_nat(n).root().whole(max) <= b,
        a <= Double::from_nat(n).root().closest(max) <= b,
{
    reveal(Double::whole);
    reveal(Double::closest);
    lemma_root_bounds(n, a, b);
    let t = one();
    lemma_pow2_pos(1074);
    let u = units(Double::from_nat(n).root().parts().mag as nat, 53);
    lemma_fundamental_div_mod(u as int, t as int);
    lemma_mod_bound(u as int, t as int);
    let w = u / t;
    assert(a <= w <= b) by (nonlinear_arith)
        requires
            t * w <= u < t * w + t,
            t * a <= u <= t * b,
            t > 0,
    ;
    let twice = 2 * u + t;
    lemma_fundamental_div_mod(twice as int, 2 * t as int);
    lemma_mod_bound(twice as int, 2 * t as int);
    let c = twice / (2 * t);
    assert(a <= c <= b) by (nonlinear_arith)
        requires
            (2 * t) * c <= twice < (2 * t) * c + 2 * t,
            twice == 2 * u + t,
            t * a <= u <= t * b,
            t > 0,
    ;
}

/// A quotient of less than 2^34, rounded: off by at most 2^-20.
proof fn lemma_rounded_closely(n: nat, d: nat)
    requires
        d > 0,
        n < d * pow2(1108),
    ensures
        ({
            let x = Double::of_parts(rounded(Format::double(), false, n, d)).parts();
            let u = units(x.mag as nat, 53);
            &&& x == rounded(Format::double(), false, n, d)
            &&& !x.neg
            &&& x.mag < 0x7ff0_0000_0000_0000
            &&& u * d <= n + d * pow2(1054)
            &&& n <= u * d + d * pow2(1054)
        }),
{
    lemma_pow2_strictly_increases(1108, 1140);
    assert(n < d * pow2(1140)) by (nonlinear_arith)
        requires
            n < d * pow2(1108),
            pow2(1108) < pow2(1140),
            d > 0,
    ;
    lemma_rounded(n, d);
    let k = binade(n, d, 53);
    lemma_binade(n, d, 53);
    lemma_round_error(n, d, 53);
    if k > 1055 {
        if 1108 < 53 + k - 1 {
            lemma_pow2_strictly_increases(1108, (53 + k - 1) as nat);
        }
        assert(d * pow2((53 + k - 1) as nat) >= d * pow2(1108)) by (nonlinear_arith)
            requires
                pow2((53 + k - 1) as nat) >= pow2(1108),
                d > 0,
        ;
    }
    if k < 1055 {
        lemma_pow2_strictly_increases(k, 1055);
    }
    lemma_pow2_unfold(1055);
    assert(d * pow2(k) <= 2 * (d * pow2(1054))) by (nonlinear_arith)
        requires
            pow2(k) <= 2 * pow2(1054),
            d > 0,
    ;
}

/// `c * m / s`, computed in double precision and rounded to an integer, lies between
/// `c - (s - m)` and `m`, as the exact quotient does.
pub proof fn lemma_proportion(c: nat, m: nat, s: nat, max: nat)
    requires
        0 < s <= u32::MAX,
        c <= s,
        m <= s,
        m <= max,
    ensures
        ({
            let r = Double::from_nat(c).times(Double::from_nat(m)).over(Double::from_nat(s)).closest(max);
            c + m - s <= r <= m
        }),
{
    reveal(Double::times);
    reveal(Double::over);
    reveal(Double::closest);
    let t = one();
    lemma_pow2_pos(1074);
    lemma_from_nat(c);
    lemma_from_nat(m);
    lemma_from_nat(s);
    lemma_format(Format::double());
    let cm = c * m;
    assert(0 <= cm <= s * s && cm <= s * m) by (nonlinear_arith)
        requires
            cm == c * m,
            0 <= c <= s,
            0 <= m <= s,
    ;
    assert(s * s <= 0xffff_ffff * 0xffff_ffff) by (nonlinear_arith)
        requires
            s <= 0xffff_ffff,
    ;
    // The product.
    let a = Double::from_nat(c).parts();
    let b = Double::from_nat(m).parts();
    let v = (t * c) * (t * m);
    assert(v == t * (t * cm)) by (nonlinear_arith)
        requires
            v == (t * c) * (t * m),
            cm == c * m,
    ;
    lemma_pow2_adds(66, 1074);
    lemma_pow2_adds(2, 64);
    lemma2_to64();
    assert(v < t * pow2(1140)) by (nonlinear_arith)
        requires
            v == t * (t * cm),
            cm < 0x1_0000_0000_0000_0000,
            pow2(1140) == 0x4_0000_0000_0000_0000 * t,
            t > 0,
    ;
    lemma_rounded(v, t);
    let product = Double::from_nat(c).times(Double::from_nat(m));
    let u1 = units(product.parts().mag as nat, 53);
    lemma_pow2_adds(12, 1074);
    assert(u1 <= t * cm + 0x1000 * t && t * cm <= u1 + 0x1000 * t) by (nonlinear_arith)
        requires
            u1 * t <= v + t * pow2(1086),
            v <= u1 * t + t * pow2(1086),
            v == t * (t * cm),
            pow2(1086) == 0x1000 * t,
            t > 0,
    ;
    if cm < 0x20_0000_0000_0000 {
        assert(t * cm == cm * pow2(1074)) by (nonlinear_arith)
            requires
                t == pow2(1074),
        ;
        lemma_round_exact(v, t, cm, 1074, 53);
        assert(u1 == t * cm);
    } else {
        assert(s >= 0x400_0000) by (nonlinear_arith)
            requires
                s * s >= 0x20_0000_0000_0000,
        ;
    }
    let slack: nat = if cm < 0x20_0000_0000_0000 {
        0
    } else {
        0x1000 * t
    };
    assert(4 * slack <= s * t) by (nonlinear_arith)
        requires
            slack == 0 || (slack == 0x1000 * t && s >= 0x400_0000),
            t > 0,
            s > 0,
    ;
    // The quotient.
    let z = Double::from_nat(s).parts();
    let den = t * s;
    let num = u1 * t;
    assert(den > 0) by (nonlinear_arith)
        requires
            den == t * s,
            t > 0,
            s > 0,
    ;
    lemma_pow2_adds(34, 1074);
    lemma_pow2_adds(2, 32);
    assert(num < den * pow2(1108)) by (nonlinear_arith)
        requires
            num == u1 * t,
            u1 <= t * cm + slack,
            4 * slack <= s * t,
            cm <= s * m,
            m <= 0xffff_ffff,
            den == t * s,
            pow2(1108) == 0x4_0000_0000 * t,
            t > 0,
            s > 0,
    ;
    lemma_rounded_closely(num, den);
    assert(z.mag > 0) by {
        if z.mag == 0 {
            assert(t * s == 0);
        }
    }
    let q = product.over(Double::from_nat(s));
    let u2 = units(q.parts().mag as nat, 53);
    lemma_pow2_adds(20, 1054);
    let f = pow2(1054);
    assert(u2 * s <= u1 + s * f && u1 <= u2 * s + s * f) by (nonlinear_arith)
        requires
            u2 * den <= num + den * f,
            num <= u2 * den + den * f,
            den == t * s,
            num == u1 * t,
            t > 0,
    ;
    // Both bounds are kept, since the error is less than a half.
    assert(2 * u2 < 2 * (t * m) + t) by (nonlinear_arith)
        requires
            u2 * s <= u1 + s * f,
            u1 <= t * cm + slack,
            4 * slack <= s * t,
            cm <= s * m,
            t == 0x10_0000 * f,
            f > 0,
            s > 0,
    ;
    let k = c + m - s;
    assert(k * s <= cm) by (nonlinear_arith)
        requires
            k == c + m - s,
            cm == c * m,
            c <= s,
            m <= s,
    ;
    assert(2 * u2 + t >= 2 * (t * k)) by (nonlinear_arith)
        requires
            u1 <= u2 * s + s * f,
            t * cm <= u1 + slack,
            4 * slack <= s * t,
            k * s <= cm,
            t == 0x10_0000 * f,
            f > 0,
            s > 0,
    ;
    let twice = 2 * u2 + t;
    lemma_fundamental_div_mod(twice as int, 2 * t as int);
    lemma_mod_bound(twice as int, 2 * t as int);
    let r = twice / (2 * t);
    assert(k <= r <= m) by (nonlinear_arith)
        requires
            (2 * t) * r <= twice < (2 * t) * r + 2 * t,
            twice < 2 * (t * m) + 2 * t,
            twice >= 2 * (t * k),
            t > 0,
    ;
}

} // verus!
