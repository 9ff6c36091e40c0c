//! How the dimensions are divided for the pruning search.
//!
//! The search walks the dimensions in a fixed order: the leading vertical ones in one slab, the
//! horizontal ones behind them in blocks of `H_DIM_SIZE`.
use crate::common::{H_DIM_SIZE, PROPORTION_HORIZONTAL_DIM, SMALL_PROPORTION_HORIZONTAL_DIM};
use crate::double::{lemma_from_nat, lemma_rounded, one, Double};
use crate::ieee::{lemma_format, lemma_units_sign, product, Format, Parts};
use crate::rounding::{lemma_round_exact, units};
use vstd::arithmetic::div_mod::*;
use vstd::arithmetic::mul::*;
use vstd::arithmetic::power2::*;
use vstd::prelude::*;

verus! {

#[derive(Copy, Clone, Debug, PartialEq, Eq, Structural)]
pub struct PdxDimensionSplit {
    /// Number of "horizontal" dimensions (processed in `H_DIM_SIZE` blocks).
    pub horizontal_d: usize,
    /// Number of "vertical" dimensions (processed as a single trailing slab).
    pub vertical_d: usize,
}

/// The share of `d` that is horizontal, before it is brought to whole blocks.
pub open spec fn raw_horizontal(d: nat) -> nat {
    let share = if d <= 256 {
        SMALL_PROPORTION_HORIZONTAL_DIM
    } else {
        PROPORTION_HORIZONTAL_DIM
    };
    Double::from_nat(d).times(Double { bits: share }).whole(usize::MAX as nat)
}

/// `h` brought to the nearest whole number of blocks.
pub open spec fn whole_blocks(h: nat) -> nat {
    if h % 64 > 0 {
        Double::from_nat(h).over(Double::from_nat(64)).closest(usize::MAX as nat) * 64
    } else {
        h
    }
}

/// The number of horizontal dimensions out of `d`, in double precision throughout.
pub open spec fn horizontal_dimensions(d: nat) -> nat {
    if d <= 64 {
        0
    } else {
        whole_blocks(raw_horizontal(d))
    }
}

/// The same in integers: a quarter of up to 256 dimensions, three quarters of more, to the
/// nearest 64.
pub open spec fn plain_horizontal_dimensions(d: nat) -> nat {
    if d <= 64 {
        0
    } else if d <= 256 {
        ((d / 4 + 32) / 64) * 64
    } else {
        (((3 * d) / 4 + 32) / 64) * 64
    }
}

/// 25% vertical / 75% horizontal by default, with tweaks for small `d`.
pub fn get_dimension_split(d: usize) -> (r: PdxDimensionSplit)
    requires
        d > 0,
    ensures
        r.horizontal_d == horizontal_dimensions(d as nat),
        r.vertical_d == d - r.horizontal_d,
        d < 0x8_0000_0000_0000 ==> r.horizontal_d == plain_horizontal_dimensions(d as nat),
        r.vertical_d > 0,
        r.horizontal_d % 64 == 0 || d >= 0x8_0000_0000_0000,
{
    proof {
        lemma_split(d as nat);
    }
    let share: u64 = if d <= 256 {
        SMALL_PROPORTION_HORIZONTAL_DIM
    } else {
        PROPORTION_HORIZONTAL_DIM
    };
    let raw: usize = Double::from_integer(d as u64).mul(Double { bits: share }).to_usize();
    let mut horizontal_d: usize = raw;
    if raw % H_DIM_SIZE > 0 {
        let blocks: usize = Double::from_integer(raw as u64).div(
            Double::from_integer(H_DIM_SIZE as u64),
        ).round_to_usize();
        horizontal_d = blocks * H_DIM_SIZE;
    }
    if d <= H_DIM_SIZE {
        horizontal_d = 0;
    }
    PdxDimensionSplit { horizontal_d, vertical_d: d - horizontal_d }
}

/// What the split comes to: there are vertical dimensions left, and, as long as the arithmetic is
/// exact, the integer formula holds.
pub proof fn lemma_split(d: nat)
    requires
        0 < d <= usize::MAX,
    ensures
        whole_blocks(raw_horizontal(d)) <= d,
        horizontal_dimensions(d) < d,
        d < 0x8_0000_0000_0000 ==> horizontal_dimensions(d) == plain_horizontal_dimensions(d),
        d < 0x8_0000_0000_0000 ==> horizontal_dimensions(d) % 64 == 0,
{
    let h = raw_horizontal(d);
    lemma_raw_horizontal(d);
    if h % 64 > 0 {
        lemma_blocks(h);
    }
    if d < 0x8_0000_0000_0000 {
        lemma_to_blocks(h);
        assert(whole_blocks(h) == ((h + 32) / 64) * 64);
    } else {
        assert(whole_blocks(h) <= h + 0x10_0000);
    }
}

proof fn lemma_to_blocks(h: nat)
    ensures
        ((h + 32) / 64) * 64 <= h + 32,
        h % 64 == 0 ==> ((h + 32) / 64) * 64 == h,
        (((h + 32) / 64) * 64) % 64 == 0,
{
}

/// A product of a double with `c * 2^-2`, where `c` is 1 or 3.
proof fn lemma_quarters(x: Parts, c: nat, y: Parts, w: nat)
    requires
        !x.neg,
        x.mag < 0x7ff0_0000_0000_0000,
        units(x.mag as nat, 53) <= one() * 0x1_0000_0000_0000_2000,
        !y.neg,
        y.mag < 0x7ff0_0000_0000_0000,
        units(y.mag as nat, 53) == c * pow2(1072),
        c == 1 || c == 3,
    ensures
        ({
            let r = Double::of_parts(product(Format::double(), x, y)).parts();
            let u = units(r.mag as nat, 53);
            let v = units(x.mag as nat, 53);
            &&& !r.neg
            &&& r.mag < 0x7ff0_0000_0000_0000
            &&& 4 * u <= c * v + 4 * (one() * 0x1000)
            &&& c * w < 0x20_0000_0000_0000 && v == one() * w ==> u * 4 == one() * (c * w)
        }),
{
    let v = units(x.mag as nat, 53);
    let n = v * (c * pow2(1072));
    let t = one();
    lemma_pow2_unfold(1074);
    lemma_pow2_unfold(1073);
    lemma_pow2_pos(1072);
    lemma_pow2_adds(64, 1074);
    lemma_pow2_adds(66, 1074);
    lemma_pow2_unfold(66);
    lemma_pow2_unfold(65);
    lemma2_to64();
    assert(4 * n == t * (c * v)) by (nonlinear_arith)
        requires
            n == v * (c * pow2(1072)),
            t == 4 * pow2(1072),
    ;
    assert(n < t * pow2(1140)) by (nonlinear_arith)
        requires
            4 * n == t * (c * v),
            c <= 3,
            v <= t * 0x1_0000_0000_0000_2000,
            pow2(1140) == 0x4_0000_0000_0000_0000 * t,
            t > 0,
            v >= 0,
    ;
    lemma_rounded(n, t);
    let r = Double::of_parts(product(Format::double(), x, y)).parts();
    let u = units(r.mag as nat, 53);
    lemma_pow2_adds(12, 1074);
    assert(4 * u <= c * v + 4 * (t * 0x1000)) by (nonlinear_arith)
        requires
            u * t <= n + t * pow2(1086),
            4 * n == t * (c * v),
            pow2(1086) == 0x1000 * t,
            t > 0,
    ;
    if c * w < 0x20_0000_0000_0000 && v == one() * w {
        lemma_format(Format::double());
        let m = c * w;
        assert(n == t * (m * pow2(1072))) by (nonlinear_arith)
            requires
                n == v * (c * pow2(1072)),
                v == t * w,
                m == c * w,
        ;
        lemma_round_exact(n, t, m, 1072, 53);
        assert(u * 4 == t * m) by (nonlinear_arith)
            requires
                u == m * pow2(1072),
                t == 4 * pow2(1072),
        ;
    }
}

/// What `v` units over `4 t` counts, where `t` units make 1.
proof fn lemma_raw_horizontal(d: nat)
    requires
        0 < d <= usize::MAX,
    ensures
        d < 0x8_0000_0000_0000 ==> raw_horizontal(d) == if d <= 256 {
            d / 4
        } else {
            (3 * d) / 4
        },
        d >= 0x8_0000_0000_0000 ==> raw_horizontal(d) <= d - 0x10_0000,
{
    reveal(Double::times);
    reveal(Double::whole);
    let t = one();
    lemma_pow2_pos(1074);
    lemma_from_nat(d);
    let x = Double::from_nat(d);
    let c: nat = if d <= 256 {
        1
    } else {
        3
    };
    let y = Double {
        bits: if d <= 256 {
            SMALL_PROPORTION_HORIZONTAL_DIM
        } else {
            PROPORTION_HORIZONTAL_DIM
        },
    };
    lemma_shares();
    assert(units(x.parts().mag as nat, 53) <= t * 0x1_0000_0000_0000_2000) by (nonlinear_arith)
        requires
            units(x.parts().mag as nat, 53) <= t * (d + 0x1000),
            d <= 0xffff_ffff_ffff_ffff,
            t > 0,
    ;
    lemma_quarters(x.parts(), c, y.parts(), d);
    let r = x.times(y).parts();
    let u = units(r.mag as nat, 53);
    let v = units(x.parts().mag as nat, 53);
    if d < 0x8_0000_0000_0000 {
        assert(u * 4 == t * (c * d));
        let n = c * d;
        // u == t * n / 4
        lemma_fundamental_div_mod(n as int, 4);
        let q = n / 4;
        let rest = (n % 4) as int;
        assert(4 * u == 4 * (q * t) + rest * t) by (nonlinear_arith)
            requires
                u * 4 == t * n,
                n == 4 * q + rest,
        ;
        let low = u - q * t;
        assert(0 <= low < t) by (nonlinear_arith)
            requires
                4 * low == rest * t,
                0 <= rest < 4,
                t > 0,
        ;
        lemma_fundamental_div_mod_converse(u as int, t as int, q as int, low);
    } else {
        assert(4 * u <= t * (3 * d + 3 * 0x1000 + 4 * 0x1000)) by (nonlinear_arith)
            requires
                4 * u <= 3 * v + 4 * (t * 0x1000),
                v <= t * (d + 0x1000),
                t > 0,
        ;
        assert(u <= t * (d - 0x10_0000)) by (nonlinear_arith)
            requires
                4 * u <= t * (3 * d + 7 * 0x1000),
                d >= 0x8_0000_0000_0000,
                t > 0,
        ;
        lemma_mul_is_commutative(t as int, d - 0x10_0000);
        lemma_div_is_ordered(u as int, t * (d - 0x10_0000), t as int);
        lemma_div_multiples_vanish(d - 0x10_0000, t as int);
    }
}

/// The two shares are 1/4 and 3/4.
proof fn lemma_shares()
    ensures
        ({
            let x = (Double { bits: SMALL_PROPORTION_HORIZONTAL_DIM }).parts();
            &&& !x.neg
            &&& x.mag == 0x3fd0_0000_0000_0000
            &&& units(x.mag as nat, 53) == 1 * pow2(1072)
        }),
        ({
            let x = (Double { bits: PROPORTION_HORIZONTAL_DIM }).parts();
            &&& !x.neg
            &&& x.mag == 0x3fe8_0000_0000_0000
            &&& units(x.mag as nat, 53) == 3 * pow2(1072)
        }),
{
    assert(0x3fd0_0000_0000_0000u64 & 0x7fff_ffff_ffff_ffff == 0x3fd0_0000_0000_0000) by (bit_vector);
    assert(0x3fe8_0000_0000_0000u64 & 0x7fff_ffff_ffff_ffff == 0x3fe8_0000_0000_0000) by (bit_vector);
    lemma_format(Format::double());
    lemma2_to64();
    let h = pow2(52);
    lemma_fundamental_div_mod_converse(0x3fd0_0000_0000_0000, h as int, 1021, 0);
    lemma_fundamental_div_mod_converse(0x3fe8_0000_0000_0000, h as int, 1022, 0x8_0000_0000_0000);
    lemma_pow2_adds(52, 1020);
    lemma_pow2_adds(51, 1021);
    lemma2_to64_rest();
    assert(0x18_0000_0000_0000 * pow2(1021) == 3 * (0x8_0000_0000_0000 * pow2(1021))) by (nonlinear_arith);
}

proof fn lemma_blocks(h: nat)
    requires
        h <= u64::MAX - 0x10_0000,
        h <= usize::MAX - 0x10_0000 || h < 0x8_0000_0000_0000,
        h % 64 > 0,
    ensures
        ({
            let b = Double::from_nat(h).over(Double::from_nat(64)).closest(usize::MAX as nat);
            &&& h < 0x8_0000_0000_0000 && h <= usize::MAX ==> b == (h + 32) / 64
            &&& b * 64 <= h + 0x10_0000
        }),
{
    reveal(Double::over);
    reveal(Double::closest);
    let t = one();
    lemma_pow2_pos(1074);
    lemma_from_nat(h);
    lemma_from_nat(64);
    let x = Double::from_nat(h).parts();
    let y = Double::from_nat(64).parts();
    let v = units(x.mag as nat, 53);
    let d = t * 64;
    let n = v * t;
    lemma_units_sign(Format::double(), y.mag as nat);
    lemma_pow2_adds(66, 1074);
    lemma_pow2_unfold(66);
    lemma_pow2_unfold(65);
    lemma2_to64();
    assert(n < d * pow2(1140)) by (nonlinear_arith)
        requires
            n == v * t,
            v <= t * (h + 0x1000),
            h <= 0xffff_ffff_ffff_ffff,
            d == t * 64,
            pow2(1140) == 0x4_0000_0000_0000_0000 * t,
            t > 0,
    ;
    lemma_rounded(n, d);
    let r = Double::from_nat(h).over(Double::from_nat(64)).parts();
    let u = units(r.mag as nat, 53);
    lemma_pow2_adds(12, 1074);
    let twice = 2 * u + t;
    let b = twice / (2 * t);
    assert(64 * u <= v + 64 * (0x1000 * t)) by (nonlinear_arith)
        requires
            u * d <= n + d * pow2(1086),
            d == t * 64,
            n == v * t,
            pow2(1086) == 0x1000 * t,
            t > 0,
    ;
    if h < 0x8_0000_0000_0000 {
        lemma_format(Format::double());
        lemma_pow2_adds(6, 1068);
        assert(n == d * (h * pow2(1068))) by (nonlinear_arith)
            requires
                n == v * t,
                v == t * h,
                d == t * 64,
                t == 64 * pow2(1068),
        ;
        lemma_round_exact(n, d, h, 1068, 53);
        let g = pow2(1068);
        lemma_pow2_pos(1068);
        let q = (h + 32) / 64;
        let rest = ((h + 32) % 64) as int;
        lemma_fundamental_div_mod((h + 32) as int, 64);
        assert(twice == q * (2 * t) + (2 * g) * rest) by (nonlinear_arith)
            requires
                twice == 2 * (h * g) + t,
                t == 64 * g,
                h + 32 == 64 * q + rest,
        ;
        assert(0 <= (2 * g) * rest < 2 * t) by (nonlinear_arith)
            requires
                0 <= rest < 64,
                t == 64 * g,
                g > 0,
        ;
        lemma_fundamental_div_mod_converse(twice as int, (2 * t) as int, q as int, (2 * g) * rest);
        assert(b == q);
        assert(q * 64 <= h + 32);
    } else {
        assert(64 * twice <= (2 * t) * (h + 0x1000 + 64 * 0x1000 + 32)) by (nonlinear_arith)
            requires
                twice == 2 * u + t,
                64 * u <= v + 64 * (0x1000 * t),
                v <= t * (h + 0x1000),
        ;
    }
    lemma_fundamental_div_mod(twice as int, (2 * t) as int);
    lemma_mod_bound(twice as int, (2 * t) as int);
    assert(b * 64 <= h + 0x1000 + 64 * 0x1000 + 32 || h < 0x4_0000_0000_0000) by {
        if h >= 0x8_0000_0000_0000 {
            assert(b * 64 <= h + 0x1000 + 64 * 0x1000 + 32) by (nonlinear_arith)
                requires
                    (2 * t) * b <= twice,
                    64 * twice <= (2 * t) * (h + 0x1000 + 64 * 0x1000 + 32),
                    t > 0,
            ;
        }
    }
}

/// The horizontal dimensions come in whole blocks, as near as that allows to a quarter of up to 256
/// dimensions and to three quarters of more. One block or less is all vertical, and some dimensions
/// always are.
pub proof fn law_dimension_split(d: nat)
    requires
        0 < d < 0x8_0000_0000_0000,
        d <= usize::MAX,
    ensures
        ({
            let h = horizontal_dimensions(d) as int;
            &&& h % 64 == 0
            &&& 0 <= h < d
            &&& d <= 64 ==> h == 0
            &&& 64 < d <= 256 ==> -131 <= 4 * h - d <= 128
            &&& d > 256 ==> -131 <= 4 * h - 3 * d <= 128
        }),
{
    lemma_split(d);
}

} // verus!
