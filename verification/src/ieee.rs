//! IEEE 754 arithmetic in round-to-nearest-even, on integers.
//!
//! The operations are written once for both binary formats. A value is a sign and a magnitude
//! (the bit pattern without the sign bit); `Format` says how a magnitude is to be read.
use crate::rounding::{
    binade, bit_length, brackets, lemma_binade_unique, lemma_round_zero, lemma_shl_u128, round_bracketed, round_magnitude, round_short, units,
};
use vstd::arithmetic::div_mod::*;
use vstd::arithmetic::mul::*;
use vstd::arithmetic::power2::*;
use vstd::prelude::*;

verus! {

/// A binary interchange format: `p` significant bits, the smallest positive value `2^-unit`, and
/// the magnitude of infinity.
#[derive(Copy, Clone, Debug)]
pub struct Format {
    pub p: u32,
    pub unit: u32,
    pub inf: u64,
}

/// A sign and a magnitude.
#[derive(Copy, Clone, Debug)]
pub struct Parts {
    pub neg: bool,
    pub mag: u64,
}

impl Format {
    pub open spec fn single() -> Format {
        Format { p: 24, unit: 149, inf: 0x7f80_0000 }
    }

    pub open spec fn double() -> Format {
        Format { p: 53, unit: 1074, inf: 0x7ff0_0000_0000_0000 }
    }

    pub open spec fn wf(self) -> bool {
        self == Format::single() || self == Format::double()
    }
}

pub open spec fn is_nan(f: Format, x: Parts) -> bool {
    x.mag > f.inf
}

pub open spec fn is_inf(f: Format, x: Parts) -> bool {
    x.mag == f.inf
}

pub open spec fn is_finite(f: Format, x: Parts) -> bool {
    x.mag < f.inf
}

/// The value of a finite number, counted in units of `2^-unit`.
pub open spec fn value(f: Format, x: Parts) -> int {
    if x.neg {
        -(units(x.mag as nat, f.p as nat) as int)
    } else {
        units(x.mag as nat, f.p as nat) as int
    }
}

/// The quiet NaN that every invalid operation gives.
pub open spec fn nan(f: Format) -> Parts {
    Parts { neg: false, mag: (f.inf + pow2((f.p - 2) as nat)) as u64 }
}

/// A magnitude that outgrows the format becomes infinite.
pub open spec fn clamp_mag(f: Format, mag: nat) -> u64 {
    if mag >= f.inf {
        f.inf
    } else {
        mag as u64
    }
}

/// The number nearest to `n / d` units, with the given sign.
pub open spec fn rounded(f: Format, neg: bool, n: nat, d: nat) -> Parts {
    Parts { neg, mag: clamp_mag(f, round_magnitude(n, d, f.p as nat)) }
}

pub open spec fn sum(f: Format, a: Parts, b: Parts) -> Parts {
    if is_nan(f, a) || is_nan(f, b) {
        nan(f)
    } else if is_inf(f, a) {
        if is_inf(f, b) && a.neg != b.neg {
            nan(f)
        } else {
            a
        }
    } else if is_inf(f, b) {
        b
    } else {
        let v = value(f, a) + value(f, b);
        if v > 0 {
            rounded(f, false, v as nat, 1)
        } else if v < 0 {
            rounded(f, true, (-v) as nat, 1)
        } else {
            Parts { neg: a.neg && b.neg, mag: 0 }
        }
    }
}

pub open spec fn negated(x: Parts) -> Parts {
    Parts { neg: !x.neg, mag: x.mag }
}

pub open spec fn product(f: Format, a: Parts, b: Parts) -> Parts {
    let neg = a.neg != b.neg;
    if is_nan(f, a) || is_nan(f, b) {
        nan(f)
    } else if is_inf(f, a) || is_inf(f, b) {
        if a.mag == 0 || b.mag == 0 {
            nan(f)
        } else {
            Parts { neg, mag: f.inf }
        }
    } else {
        rounded(
            f,
            neg,
            units(a.mag as nat, f.p as nat) * units(b.mag as nat, f.p as nat),
            pow2(f.unit as nat),
        )
    }
}

pub open spec fn quotient(f: Format, a: Parts, b: Parts) -> Parts {
    let neg = a.neg != b.neg;
    if is_nan(f, a) || is_nan(f, b) {
        nan(f)
    } else if is_inf(f, a) {
        if is_inf(f, b) {
            nan(f)
        } else {
            Parts { neg, mag: f.inf }
        }
    } else if is_inf(f, b) {
        Parts { neg, mag: 0 }
    } else if b.mag == 0 {
        if a.mag == 0 {
            nan(f)
        } else {
            Parts { neg, mag: f.inf }
        }
    } else {
        rounded(
            f,
            neg,
            units(a.mag as nat, f.p as nat) * pow2(f.unit as nat),
            units(b.mag as nat, f.p as nat),
        )
    }
}

/// The largest integer whose square is at most `v`.
pub open spec fn integer_root(v: nat) -> nat
    decreases v,
{
    if v == 0 {
        0
    } else {
        let r = integer_root((v - 1) as nat);
        if (r + 1) * (r + 1) <= v {
            r + 1
        } else {
            r
        }
    }
}

/// The magnitude nearest to the square root of `v`.
pub open spec fn root_magnitude(v: nat, p: nat) -> nat {
    let r = integer_root(v);
    let k = binade(r, 1, p);
    let q = r / pow2(k);
    k * pow2((p - 1) as nat) + if 4 * v > ((2 * q + 1) * pow2(k)) * ((2 * q + 1) * pow2(k)) {
        q + 1
    } else {
        q
    }
}

pub open spec fn square_root(f: Format, x: Parts) -> Parts {
    if is_nan(f, x) {
        nan(f)
    } else if x.mag == 0 {
        x
    } else if x.neg {
        nan(f)
    } else if is_inf(f, x) {
        x
    } else {
        Parts {
            neg: false,
            mag: clamp_mag(
                f,
                root_magnitude(units(x.mag as nat, f.p as nat) * pow2(f.unit as nat), f.p as nat),
            ),
        }
    }
}

/// Where a number stands in the order of the format; both zeros stand at `0`.
pub open spec fn rank(x: Parts) -> int {
    if x.neg {
        -(x.mag as int)
    } else {
        x.mag as int
    }
}

pub open spec fn less(f: Format, a: Parts, b: Parts) -> bool {
    !is_nan(f, a) && !is_nan(f, b) && rank(a) < rank(b)
}

/// The integer `n` in the format.
pub open spec fn of_integer(f: Format, n: nat) -> Parts {
    rounded(f, false, n * pow2(f.unit as nat), 1)
}

/// `x` cut down to an integer from `0` to `max`; what is no number counts as `0`.
pub open spec fn truncated(f: Format, x: Parts, max: nat) -> nat {
    if is_nan(f, x) || x.neg {
        0
    } else if is_inf(f, x) || units(x.mag as nat, f.p as nat) / pow2(f.unit as nat) > max {
        max
    } else {
        units(x.mag as nat, f.p as nat) / pow2(f.unit as nat)
    }
}

/// `x` rounded to the nearest integer from `0` to `max`, halves going up; what is no number
/// counts as `0`.
pub open spec fn nearest(f: Format, x: Parts, max: nat) -> nat {
    if is_nan(f, x) || x.neg {
        0
    } else {
        let twice = 2 * units(x.mag as nat, f.p as nat) + pow2(f.unit as nat);
        let n = twice / (2 * pow2(f.unit as nat));
        if is_inf(f, x) || n > max {
            max
        } else {
            n
        }
    }
}

/// A number of format `f` in format `g`.
pub open spec fn converted(f: Format, g: Format, x: Parts) -> Parts {
    if is_nan(f, x) {
        nan(g)
    } else if is_inf(f, x) {
        Parts { neg: x.neg, mag: g.inf }
    } else {
        rounded(
            g,
            x.neg,
            units(x.mag as nat, f.p as nat) * pow2(g.unit as nat),
            pow2(f.unit as nat),
        )
    }
}

pub proof fn lemma_format(f: Format)
    requires
        f.wf(),
    ensures
        pow2((f.p - 1) as nat) == if f.p == 24 {
            0x80_0000nat
        } else {
            0x10_0000_0000_0000nat
        },
        pow2(f.p as nat) == 2 * pow2((f.p - 1) as nat),
        pow2((f.p - 1) as nat) == 2 * pow2((f.p - 2) as nat),
        f.inf == (if f.p == 24 {
            255int
        } else {
            2047
        }) * pow2((f.p - 1) as nat),
{
    lemma2_to64();
    lemma2_to64_rest();
    lemma_pow2_unfold(f.p as nat);
    lemma_pow2_unfold((f.p - 1) as nat);
}

/// A larger magnitude stands for a larger value.
pub proof fn lemma_units_increase(x: nat, y: nat, p: nat)
    requires
        p > 0,
        x < y,
    ensures
        units(x, p) < units(y, p),
{
    let h = pow2((p - 1) as nat);
    lemma_pow2_pos((p - 1) as nat);
    lemma_fundamental_div_mod(x as int, h as int);
    lemma_fundamental_div_mod(y as int, h as int);
    lemma_mod_bound(x as int, h as int);
    lemma_mod_bound(y as int, h as int);
    let qx = x / h;
    let qy = y / h;
    if y >= h {
        assert(qy >= 1) by {
            lemma_div_is_ordered(h as int, y as int, h as int);
            lemma_div_by_self(h as int);
        }
        let b = pow2((qy - 1) as nat);
        lemma_pow2_pos((qy - 1) as nat);
        assert((h + y % h) * b >= h * b) by (nonlinear_arith)
            requires
                y % h >= 0,
                b > 0,
        ;
        if x < h {
            assert(h * b >= h) by (nonlinear_arith)
                requires
                    b > 0,
            ;
        } else {
            assert(qx >= 1) by {
                lemma_div_is_ordered(h as int, x as int, h as int);
                lemma_div_by_self(h as int);
            }
            let a = pow2((qx - 1) as nat);
            lemma_pow2_pos((qx - 1) as nat);
            lemma_div_is_ordered(x as int, y as int, h as int);
            if qx == qy {
                let rx = x % h;
                let ry = y % h;
                assert(rx < ry);
                assert((h + rx) * a < (h + ry) * a) by (nonlinear_arith)
                    requires
                        rx < ry,
                        a > 0,
                ;
            } else {
                lemma_pow2_unfold(qx);
                if qx < qy - 1 {
                    lemma_pow2_strictly_increases(qx, (qy - 1) as nat);
                }
                assert((h + x % h) * a < h * b) by (nonlinear_arith)
                    requires
                        x % h < h,
                        b >= 2 * a,
                        a > 0,
                        h > 0,
                ;
            }
        }
    }
}

/// Splits a finite magnitude into its significant bits and their binade.
#[inline(always)]
fn decode(f: Format, mag: u64) -> (r: (u64, u32))
    requires
        f.wf(),
        mag < f.inf,
    ensures
        units(mag as nat, f.p as nat) == r.0 * pow2(r.1 as nat),
        r.0 < pow2(f.p as nat),
        r.1 > 0 ==> r.0 >= pow2((f.p - 1) as nat),
        r.1 <= 2045,
        r.1 <= 253 || f.p == 53,
        mag > 0 ==> r.0 > 0,
        r.1 == if mag < pow2((f.p - 1) as nat) {
            0
        } else {
            mag as nat / pow2((f.p - 1) as nat) - 1
        },
{
    let w: u64 = (f.p - 1) as u64;
    proof {
        lemma_format(f);
        vstd::bits::lemma_u64_shr_is_div(mag, w);
        lemma_fundamental_div_mod(mag as int, pow2(w as nat) as int);
        lemma_mod_bound(mag as int, pow2(w as nat) as int);
        lemma2_to64();
    }
    let q: u64 = mag >> w;
    if q == 0 {
        proof {
            lemma_mul_by_zero_is_zero(pow2(w as nat) as int);
            assert(mag < pow2(w as nat));
            assert(mag * pow2(0) == mag) by (nonlinear_arith)
                requires
                    pow2(0) == 1,
            ;
        }
        (mag, 0)
    } else {
        proof {
            assert(mag >= pow2(w as nat)) by (nonlinear_arith)
                requires
                    q >= 1,
                    mag >= pow2(w as nat) * q,
            ;
            vstd::bits::lemma_u64_shl_is_mul(1, w);
            assert(q * pow2(w as nat) == pow2(w as nat) * q) by (nonlinear_arith);
            vstd::bits::lemma_u64_shl_is_mul(q, w);
            assert(q <= 2046 && (f.p == 24 ==> q <= 254));
        }
        let frac: u64 = mag - (q << w);
        assert(frac == mag as nat % pow2(w as nat));
        let sig: u64 = (1u64 << w) + frac;
        assert(sig == pow2(w as nat) + mag as nat % pow2(w as nat));
        (sig, (q - 1) as u32)
    }
}

/// Rounds a bracketed value and turns what outgrows the format into infinity.
#[inline(always)]
fn finish(f: Format, m: u128, e: i32, sticky: bool, Ghost(n): Ghost<nat>, Ghost(d): Ghost<nat>) -> (mag: u64)
    requires
        f.wf(),
        d > 0,
        m < 0x7fff_ffff_ffff_ffff_ffff_ffff_ffff_ffff,
        -10_000 < e < 10_000,
        brackets(n, d, m as nat, e as int, sticky),
        sticky ==> m >= pow2(f.p as nat),
    ensures
        mag == clamp_mag(f, round_magnitude(n, d, f.p as nat)),
{
    if f.p == 24 && !sticky && m < 0x4000_0000_0000_0000 {
        let r: u64 = round_short(m as u64, e, Ghost(n), Ghost(d));
        return if r >= f.inf {
            f.inf
        } else {
            r
        };
    }
    let r: u128 = round_bracketed(m, e, sticky, f.p, Ghost(n), Ghost(d));
    if r >= f.inf as u128 {
        f.inf
    } else {
        r as u64
    }
}

/// The sum of two finite magnitudes, `x` the larger.
fn sum_of_magnitudes(f: Format, x: u64, y: u64) -> (mag: u64)
    requires
        f.wf(),
        y <= x < f.inf,
    ensures
        mag == clamp_mag(
            f,
            round_magnitude(
                units(x as nat, f.p as nat) + units(y as nat, f.p as nat),
                1,
                f.p as nat,
            ),
        ),
{
    let (sx, kx) = decode(f, x);
    let (sy, ky) = decode(f, y);
    proof {
        lemma_format(f);
        lemma_div_is_ordered(y as int, x as int, pow2((f.p - 1) as nat) as int);
        if x >= pow2((f.p - 1) as nat) {
            lemma_div_is_ordered(pow2((f.p - 1) as nat) as int, x as int, pow2((f.p - 1) as nat) as int);
            lemma_div_by_self(pow2((f.p - 1) as nat) as int);
        }
    }
    assert(ky <= kx);
    let ghost n: nat = units(x as nat, f.p as nat) + units(y as nat, f.p as nat);
    let gap: u32 = kx - ky;
    if gap <= 70 {
        proof {
            lemma_near(sx as nat, kx as nat, sy as nat, ky as nat);
        }
        let m: u128 = ((sx as u128) << (gap as u128)) + sy as u128;
        proof {
            let a = sx * pow2(gap as nat);
            assert(pow2(ky as nat) * (a + sy) == sx * pow2(kx as nat) + sy * pow2(ky as nat))
                by (nonlinear_arith)
                requires
                    a == sx * pow2(gap as nat),
                    pow2(kx as nat) == pow2(gap as nat) * pow2(ky as nat),
            ;
            assert((1 * pow2(ky as nat)) == pow2(ky as nat));
        }
        finish(f, m, ky as i32, false, Ghost(n), Ghost(1))
    } else {
        proof {
            lemma_far(sx as nat, kx as nat, sy as nat, ky as nat);
            assert((1 * pow2((kx - 18) as nat)) == pow2((kx - 18) as nat));
        }
        let m: u128 = (sx as u128) << 18u128;
        let sticky = sy != 0;
        proof {
            let b = pow2((kx - 18) as nat);
            if sticky {
                lemma_pow2_pos(ky as nat);
                assert(sy * pow2(ky as nat) > 0) by (nonlinear_arith)
                    requires
                        sy > 0,
                        pow2(ky as nat) > 0,
                ;
            } else {
                lemma_mul_by_zero_is_zero(pow2(ky as nat) as int);
            }
            assert(b * (m + 1) == b * m + b) by (nonlinear_arith);
        }
        finish(f, m, kx as i32 - 18, sticky, Ghost(n), Ghost(1))
    }
}

/// The difference of two finite magnitudes, `x` the larger.
fn difference_of_magnitudes(f: Format, x: u64, y: u64) -> (mag: u64)
    requires
        f.wf(),
        y <= x < f.inf,
    ensures
        units(y as nat, f.p as nat) <= units(x as nat, f.p as nat),
        mag == clamp_mag(
            f,
            round_magnitude(
                (units(x as nat, f.p as nat) - units(y as nat, f.p as nat)) as nat,
                1,
                f.p as nat,
            ),
        ),
{
    let (sx, kx) = decode(f, x);
    let (sy, ky) = decode(f, y);
    proof {
        lemma_format(f);
        lemma_div_is_ordered(y as int, x as int, pow2((f.p - 1) as nat) as int);
        if x >= pow2((f.p - 1) as nat) {
            lemma_div_is_ordered(pow2((f.p - 1) as nat) as int, x as int, pow2((f.p - 1) as nat) as int);
            lemma_div_by_self(pow2((f.p - 1) as nat) as int);
        }
        if y < x {
            lemma_units_increase(y as nat, x as nat, f.p as nat);
        }
    }
    assert(ky <= kx);
    let ghost n: nat = (units(x as nat, f.p as nat) - units(y as nat, f.p as nat)) as nat;
    let gap: u32 = kx - ky;
    if gap <= 70 {
        proof {
            lemma_near(sx as nat, kx as nat, sy as nat, ky as nat);
            let a = sx * pow2(gap as nat);
            lemma_pow2_pos(ky as nat);
            assert(pow2(ky as nat) * (a - sy) == sx * pow2(kx as nat) - sy * pow2(ky as nat))
                by (nonlinear_arith)
                requires
                    a == sx * pow2(gap as nat),
                    pow2(kx as nat) == pow2(gap as nat) * pow2(ky as nat),
            ;
            assert(a >= sy) by (nonlinear_arith)
                requires
                    pow2(ky as nat) * (a - sy) >= 0,
                    pow2(ky as nat) > 0,
            ;
            assert((1 * pow2(ky as nat)) == pow2(ky as nat));
        }
        let m: u128 = ((sx as u128) << (gap as u128)) - sy as u128;
        finish(f, m, ky as i32, false, Ghost(n), Ghost(1))
    } else {
        proof {
            lemma_far(sx as nat, kx as nat, sy as nat, ky as nat);
            assert((1 * pow2((kx - 18) as nat)) == pow2((kx - 18) as nat));
        }
        let whole: u128 = (sx as u128) << 18u128;
        let sticky = sy != 0;
        let m: u128 = if sticky {
            whole - 1
        } else {
            whole
        };
        proof {
            let b = pow2((kx - 18) as nat);
            if sticky {
                lemma_pow2_pos(ky as nat);
                assert(sy * pow2(ky as nat) > 0) by (nonlinear_arith)
                    requires
                        sy > 0,
                        pow2(ky as nat) > 0,
                ;
                assert(b * m == b * whole - b) by (nonlinear_arith)
                    requires
                        m == whole - 1,
                ;
            } else {
                lemma_mul_by_zero_is_zero(pow2(ky as nat) as int);
            }
            assert(m + 1 == whole || !sticky);
        }
        finish(f, m, kx as i32 - 18, sticky, Ghost(n), Ghost(1))
    }
}

/// The sum or the difference of two finite magnitudes, `x` the larger.
#[inline(always)]
fn combined(f: Format, x: u64, y: u64, same: bool) -> (mag: u64)
    requires
        f.wf(),
        y <= x < f.inf,
    ensures
        units(y as nat, f.p as nat) <= units(x as nat, f.p as nat),
        mag == clamp_mag(
            f,
            round_magnitude(
                (units(x as nat, f.p as nat) + if same {
                    units(y as nat, f.p as nat) as int
                } else {
                    -(units(y as nat, f.p as nat) as int)
                }) as nat,
                1,
                f.p as nat,
            ),
        ),
{
    let (sx, kx) = decode(f, x);
    let (sy, ky) = decode(f, y);
    proof {
        lemma_format(f);
        lemma_div_is_ordered(y as int, x as int, pow2((f.p - 1) as nat) as int);
        if x >= pow2((f.p - 1) as nat) {
            lemma_div_is_ordered(pow2((f.p - 1) as nat) as int, x as int, pow2((f.p - 1) as nat) as int);
            lemma_div_by_self(pow2((f.p - 1) as nat) as int);
        }
        if y < x {
            lemma_units_increase(y as nat, x as nat, f.p as nat);
        }
    }
    assert(ky <= kx);
    let gap: u32 = kx - ky;
    if f.p == 24 && gap <= 36 {
        let ghost n: nat = (units(x as nat, 24) + if same {
            units(y as nat, 24) as int
        } else {
            -(units(y as nat, 24) as int)
        }) as nat;
        let ghost a = sx * pow2(gap as nat);
        proof {
            lemma_short_gap(sx, gap);
            lemma_pow2_adds(gap as nat, ky as nat);
            lemma_pow2_pos(ky as nat);
            assert(pow2(ky as nat) * (a + sy) == sx * pow2(kx as nat) + sy * pow2(ky as nat) && pow2(ky as nat) * (a - sy)
                == sx * pow2(kx as nat) - sy * pow2(ky as nat)) by (nonlinear_arith)
                requires
                    a == sx * pow2(gap as nat),
                    pow2(kx as nat) == pow2(gap as nat) * pow2(ky as nat),
            ;
            assert(a >= sy) by (nonlinear_arith)
                requires
                    pow2(ky as nat) * (a - sy) >= 0,
                    pow2(ky as nat) > 0,
            ;
            assert((1 * pow2(ky as nat)) == pow2(ky as nat));
        }
        let wide: u64 = sx << (gap as u64);
        let m: u64 = if same {
            wide + sy
        } else {
            wide - sy
        };
        let r: u64 = round_short(m, ky as i32, Ghost(n), Ghost(1));
        if r >= f.inf {
            f.inf
        } else {
            r
        }
    } else if same {
        sum_of_magnitudes(f, x, y)
    } else {
        difference_of_magnitudes(f, x, y)
    }
}

proof fn lemma_short_gap(sx: u64, gap: u32)
    requires
        sx < 0x100_0000,
        gap <= 36,
    ensures
        sx << (gap as u64) == sx * pow2(gap as nat),
        0 <= sx * pow2(gap as nat) < 0x1000_0000_0000_0000,
{
    lemma2_to64();
    lemma_pow2_adds(32, 4);
    if gap < 36 {
        lemma_pow2_strictly_increases(gap as nat, 36);
    }
    assert(0 <= sx * pow2(gap as nat) < 0x1000_0000_0000_0000) by (nonlinear_arith)
        requires
            0 <= sx < 0x100_0000,
            0 <= pow2(gap as nat) <= 0x10_0000_0000,
    ;
    vstd::bits::lemma_u64_shl_is_mul(sx, gap as u64);
}

proof fn lemma_near(sx: nat, kx: nat, sy: nat, ky: nat)
    requires
        ky <= kx <= ky + 70,
        sx < 0x20_0000_0000_0000,
        sy < 0x20_0000_0000_0000,
    ensures
        pow2(kx) == pow2((kx - ky) as nat) * pow2(ky),
        sx * pow2((kx - ky) as nat) < 0x800_0000_0000_0000_0000_0000_0000_0000,
        (sx as u128) << ((kx - ky) as u128) == sx * pow2((kx - ky) as nat),
{
    let gap = (kx - ky) as nat;
    lemma_pow2_adds(gap, ky);
    lemma2_to64();
    lemma_pow2_adds(64, 6);
    if gap < 70 {
        lemma_pow2_strictly_increases(gap, 70);
    }
    assert(sx * pow2(gap) < 0x20_0000_0000_0000 * 0x40_0000_0000_0000_0000) by (nonlinear_arith)
        requires
            sx < 0x20_0000_0000_0000,
            pow2(gap) <= 0x40_0000_0000_0000_0000,
            pow2(gap) >= 0,
    ;
    lemma_shl_u128(sx as u128, gap as u128);
}

proof fn lemma_far(sx: nat, kx: nat, sy: nat, ky: nat)
    requires
        ky + 71 <= kx,
        0x80_0000 <= sx < 0x20_0000_0000_0000,
        sy < 0x20_0000_0000_0000,
    ensures
        pow2((kx - 18) as nat) * (sx * 0x4_0000) == sx * pow2(kx),
        sy * pow2(ky) < pow2((kx - 18) as nat),
        (sx as u128) << 18u128 == sx * 0x4_0000,
{
    lemma2_to64();
    lemma2_to64_rest();
    lemma_pow2_adds((kx - 18) as nat, 18);
    let b = pow2((kx - 18) as nat);
    assert(b * (sx * 0x4_0000) == sx * (b * 0x4_0000)) by (nonlinear_arith);
    lemma_pow2_adds(53, ky);
    lemma_pow2_pos(ky);
    assert(sy * pow2(ky) < 0x20_0000_0000_0000 * pow2(ky)) by (nonlinear_arith)
        requires
            sy < 0x20_0000_0000_0000,
            pow2(ky) > 0,
    ;
    if 53 + ky < kx - 18 {
        lemma_pow2_strictly_increases(53 + ky, (kx - 18) as nat);
    }
    lemma_shl_u128(sx as u128, 18);
}

pub(crate) fn fp_nan(f: Format) -> (r: Parts)
    requires
        f.wf(),
    ensures
        r == nan(f),
{
    proof {
        lemma_format(f);
        vstd::bits::lemma_u64_shl_is_mul(1, (f.p - 2) as u64);
    }
    Parts { neg: false, mag: f.inf + (1u64 << ((f.p - 2) as u64)) }
}

#[inline(always)]
pub(crate) fn fp_add(f: Format, a: Parts, b: Parts) -> (r: Parts)
    requires
        f.wf(),
    ensures
        r == sum(f, a, b),
{
    if a.mag >= f.inf || b.mag >= f.inf {
        if a.mag > f.inf || b.mag > f.inf {
            return fp_nan(f);
        }
        if a.mag == f.inf {
            if b.mag == f.inf && a.neg != b.neg {
                return fp_nan(f);
            }
            return a;
        }
        return b;
    }
    proof {
        lemma_format(f);
        lemma_units_sign(f, a.mag as nat);
        lemma_units_sign(f, b.mag as nat);
    }
    let same: bool = a.neg == b.neg;
    let (x, y, neg) = if a.mag >= b.mag {
        (a.mag, b.mag, a.neg)
    } else {
        (b.mag, a.mag, b.neg)
    };
    if !same && x == y {
        return Parts { neg: false, mag: 0 };
    }
    proof {
        lemma_round_zero(1, f.p as nat);
        if y < x {
            lemma_units_increase(y as nat, x as nat, f.p as nat);
        }
    }
    Parts { neg, mag: combined(f, x, y, same) }
}

pub proof fn lemma_units_sign(f: Format, mag: nat)
    requires
        f.wf(),
    ensures
        units(mag, f.p as nat) >= 0,
        units(mag, f.p as nat) == 0 <==> mag == 0,
{
    lemma_format(f);
    if mag > 0 {
        lemma_units_increase(0, mag, f.p as nat);
    }
}

#[inline(always)]
pub(crate) fn fp_mul(f: Format, a: Parts, b: Parts) -> (r: Parts)
    requires
        f.wf(),
    ensures
        r == product(f, a, b),
{
    let neg = a.neg != b.neg;
    if a.mag >= f.inf || b.mag >= f.inf {
        if a.mag > f.inf || b.mag > f.inf {
            return fp_nan(f);
        }
        if a.mag == 0 || b.mag == 0 {
            return fp_nan(f);
        }
        return Parts { neg, mag: f.inf };
    }
    let (sx, kx) = decode(f, a.mag);
    let (sy, ky) = decode(f, b.mag);
    let ghost n: nat = units(a.mag as nat, f.p as nat) * units(b.mag as nat, f.p as nat);
    proof {
        lemma_format(f);
        assert(sx * sy < 0x20_0000_0000_0000 * 0x20_0000_0000_0000) by (nonlinear_arith)
            requires
                0 <= sx < 0x20_0000_0000_0000,
                0 <= sy < 0x20_0000_0000_0000,
        ;
        assert(sx * sy >= 0) by (nonlinear_arith)
            requires
                sx >= 0,
                sy >= 0,
        ;
    }
    let m: u128 = (sx as u128) * (sy as u128);
    let e: i32 = kx as i32 + ky as i32 - f.unit as i32;
    proof {
        lemma_pow2_adds(kx as nat, ky as nat);
        lemma_pow2_pos(f.unit as nat);
        assert(n == m * pow2((kx + ky) as nat)) by (nonlinear_arith)
            requires
                n == (sx * pow2(kx as nat)) * (sy * pow2(ky as nat)),
                m == sx * sy,
                pow2((kx + ky) as nat) == pow2(kx as nat) * pow2(ky as nat),
        ;
        let d = pow2(f.unit as nat);
        if e >= 0 {
            lemma_pow2_adds(f.unit as nat, e as nat);
            lemma_mul_is_commutative(m as int, (d * pow2(e as nat)) as int);
        } else {
            lemma_pow2_adds((kx + ky) as nat, (-e) as nat);
            assert(n * pow2((-e) as nat) == d * m) by (nonlinear_arith)
                requires
                    n == m * pow2((kx + ky) as nat),
                    d == pow2((kx + ky) as nat) * pow2((-e) as nat),
            ;
        }
    }
    if f.p == 24 {
        assert(sx * sy < 0x100_0000 * 0x100_0000) by (nonlinear_arith)
            requires
                0 <= sx < 0x100_0000,
                0 <= sy < 0x100_0000,
        ;
        let r: u64 = round_short(sx * sy, e, Ghost(n), Ghost(pow2(f.unit as nat)));
        let mag: u64 = if r >= f.inf {
            f.inf
        } else {
            r
        };
        return Parts { neg, mag };
    }
    let mag: u64 = finish(f, m, e, false, Ghost(n), Ghost(pow2(f.unit as nat)));
    Parts { neg, mag }
}

pub(crate) fn fp_div(f: Format, a: Parts, b: Parts) -> (r: Parts)
    requires
        f.wf(),
    ensures
        r == quotient(f, a, b),
{
    let neg = a.neg != b.neg;
    if a.mag > f.inf || b.mag > f.inf {
        return fp_nan(f);
    }
    if a.mag == f.inf {
        if b.mag == f.inf {
            return fp_nan(f);
        }
        return Parts { neg, mag: f.inf };
    }
    if b.mag == f.inf {
        return Parts { neg, mag: 0 };
    }
    if b.mag == 0 {
        if a.mag == 0 {
            return fp_nan(f);
        }
        return Parts { neg, mag: f.inf };
    }
    let ghost n: nat = units(a.mag as nat, f.p as nat) * pow2(f.unit as nat);
    let ghost d: nat = units(b.mag as nat, f.p as nat);
    proof {
        lemma_format(f);
        lemma_units_sign(f, a.mag as nat);
        lemma_units_sign(f, b.mag as nat);
    }
    if a.mag == 0 {
        proof {
            lemma_mul_by_zero_is_zero(pow2(f.unit as nat) as int);
            lemma_round_zero(d, f.p as nat);
        }
        return Parts { neg, mag: 0 };
    }
    let (sx, kx) = decode(f, a.mag);
    let (sy, ky) = decode(f, b.mag);
    let len: u32 = bit_length(sx as u128);
    proof {
        if len > f.p {
            if len > f.p + 1 {
                lemma_pow2_strictly_increases(f.p as nat, (len - 1) as nat);
            }
        }
    }
    assert(len <= f.p);
    let t: u32 = f.p - len + 73;
    proof {
        lemma_scaled_numerator(f, sx as nat, len as nat, t as nat);
    }
    let num: u128 = (sx as u128) << (t as u128);
    let m: u128 = num / (sy as u128);
    let sticky = num % (sy as u128) != 0;
    let e: i32 = kx as i32 - ky as i32 + f.unit as i32 - t as i32;
    proof {
        let rem = num % (sy as u128);
        lemma_fundamental_div_mod(num as int, sy as int);
        lemma_mod_bound(num as int, sy as int);
        assert(m <= num) by {
            lemma_div_nonincreasing(num as int, sy as int);
        }
        // m is at least 2^p
        lemma2_to64();
        assert(m >= pow2(f.p as nat)) by {
            lemma_div_is_ordered_by_denominator(num as int, sy as int, pow2(f.p as nat) as int);
            lemma_div_is_ordered(
                pow2((f.p + 72) as nat) as int,
                num as int,
                pow2(f.p as nat) as int,
            );
            lemma_pow2_adds(f.p as nat, 72);
            lemma_div_multiples_vanish(pow2(72) as int, pow2(f.p as nat) as int);
            lemma_pow2_strictly_increases(f.p as nat, 72);
        }
        lemma_divided(sx as nat, kx as nat, sy as nat, ky as nat, f.unit as nat, t as nat, num as nat, m as nat, rem as nat, e as int);
    }
    let mag: u64 = finish(f, m, e, sticky, Ghost(n), Ghost(d));
    Parts { neg, mag }
}

proof fn lemma_scaled_numerator(f: Format, sx: nat, len: nat, t: nat)
    requires
        f.wf(),
        0 < len <= f.p,
        pow2((len - 1) as nat) <= sx < pow2(len),
        t == f.p - len + 73,
    ensures
        (sx as u128) << (t as u128) == sx * pow2(t),
        pow2((f.p + 72) as nat) <= sx * pow2(t) < 0x4000_0000_0000_0000_0000_0000_0000_0000,
{
    lemma_pow2_adds(len, t);
    lemma_pow2_adds((len - 1) as nat, t);
    lemma_pow2_pos(t);
    assert(sx * pow2(t) < pow2(len) * pow2(t)) by (nonlinear_arith)
        requires
            sx < pow2(len),
            pow2(t) > 0,
    ;
    assert(pow2((len - 1) as nat) * pow2(t) <= sx * pow2(t)) by (nonlinear_arith)
        requires
            pow2((len - 1) as nat) <= sx,
            pow2(t) > 0,
    ;
    lemma2_to64();
    lemma2_to64_rest();
    lemma_pow2_adds(63, 63);
    if len + t < 126 {
        lemma_pow2_strictly_increases(len + t, 126);
    }
    lemma_format(f);
    if len < f.p {
        lemma_pow2_strictly_increases(len, f.p as nat);
    }
    lemma_shl_u128(sx as u128, t as u128);
}

/// What long division of the significant bits says of the quotient of the values.
proof fn lemma_divided(sx: nat, kx: nat, sy: nat, ky: nat, unit: nat, t: nat, num: nat, m: nat, rem: nat, e: int)
    requires
        sy > 0,
        num == sx * pow2(t),
        num == sy * m + rem,
        rem < sy,
        e == kx - ky + unit - t,
    ensures
        brackets((sx * pow2(kx)) * pow2(unit), sy * pow2(ky), m, e, rem != 0),
{
    let n = (sx * pow2(kx)) * pow2(unit);
    let d = sy * pow2(ky);
    lemma_pow2_adds(kx, unit);
    assert(n == sx * pow2(kx + unit)) by (nonlinear_arith)
        requires
            n == (sx * pow2(kx)) * pow2(unit),
            pow2(kx + unit) == pow2(kx) * pow2(unit),
    ;
    if e >= 0 {
        let c = (e + ky) as nat;
        let b = pow2(c);
        lemma_pow2_adds(ky, e as nat);
        lemma_pow2_adds(t, c);
        lemma_pow2_pos(c);
        let den = d * pow2(e as nat);
        assert(den == sy * b) by (nonlinear_arith)
            requires
                den == (sy * pow2(ky)) * pow2(e as nat),
                b == pow2(ky) * pow2(e as nat),
        ;
        assert(n == num * b) by (nonlinear_arith)
            requires
                n == sx * pow2(kx + unit),
                pow2(kx + unit) == pow2(t) * b,
                num == sx * pow2(t),
        ;
        assert(n == den * m + rem * b) by (nonlinear_arith)
            requires
                n == num * b,
                num == sy * m + rem,
                den == sy * b,
        ;
        assert(0 <= rem * b < sy * b) by (nonlinear_arith)
            requires
                0 <= rem < sy,
                b > 0,
        ;
        assert(rem * b == 0 <==> rem == 0) by (nonlinear_arith)
            requires
                b > 0,
        ;
        assert(den * (m + 1) == den * m + den) by (nonlinear_arith);
    } else {
        let a = (-e) as nat;
        let b = pow2(ky);
        lemma_pow2_adds(kx + unit, a);
        lemma_pow2_adds(t, ky);
        lemma_pow2_pos(ky);
        let up = n * pow2(a);
        assert(up == num * b) by (nonlinear_arith)
            requires
                up == (sx * pow2(kx + unit)) * pow2(a),
                pow2(kx + unit) * pow2(a) == pow2(t) * b,
                num == sx * pow2(t),
        ;
        assert(up == d * m + rem * b) by (nonlinear_arith)
            requires
                up == num * b,
                num == sy * m + rem,
                d == sy * b,
        ;
        assert(0 <= rem * b < sy * b) by (nonlinear_arith)
            requires
                0 <= rem < sy,
                b > 0,
        ;
        assert(rem * b == 0 <==> rem == 0) by (nonlinear_arith)
            requires
                b > 0,
        ;
        assert(d * (m + 1) == d * m + d) by (nonlinear_arith);
    }
}

/// What `integer_root` is.
pub proof fn lemma_integer_root(v: nat)
    ensures
        integer_root(v) * integer_root(v) <= v,
        v < (integer_root(v) + 1) * (integer_root(v) + 1),
    decreases v,
{
    if v > 0 {
        let r = integer_root((v - 1) as nat);
        let t = r + 1;
        lemma_integer_root((v - 1) as nat);
        assert((t + 1) * (t + 1) > t * t) by (nonlinear_arith)
            requires
                t >= 0,
        ;
        if t * t <= v {
            assert(integer_root(v) == t);
        } else {
            assert(integer_root(v) == r);
        }
    } else {
        assert(integer_root(0) == 0);
        assert((0 + 1) * (0 + 1) == 1nat) by (nonlinear_arith);
    }
}

/// The integer square root of `x`, which has 123 or 124 bits.
fn root_of(x: u128) -> (r: u64)
    requires
        0x400_0000_0000_0000_0000_0000_0000_0000 <= x < 0x1000_0000_0000_0000_0000_0000_0000_0000,
    ensures
        r * r <= x < (r + 1) * (r + 1),
        0x2000_0000_0000_0000 <= r < 0x4000_0000_0000_0000,
{
    let mut lo: u64 = 0x2000_0000_0000_0000;
    let mut hi: u64 = 0x4000_0000_0000_0000;
    while hi - lo > 1
        invariant
            0x2000_0000_0000_0000 <= lo < hi <= 0x4000_0000_0000_0000,
            lo * lo <= x < hi * hi,
        decreases hi - lo,
    {
        let mid: u64 = lo + (hi - lo) / 2;
        assert(mid * mid < 0x4000_0000_0000_0000 * 0x4000_0000_0000_0000) by (nonlinear_arith)
            requires
                0 <= mid < 0x4000_0000_0000_0000,
        ;
        if (mid as u128) * (mid as u128) <= x {
            lo = mid;
        } else {
            hi = mid;
        }
    }
    lo
}

/// The magnitude nearest to a root, from the root of its leading bits.
proof fn lemma_root_magnitude(v: nat, x: nat, h: nat, m: nat, p: nat)
    requires
        h > 0,
        v == x * (pow2(h) * pow2(h)),
        m * m <= x < (m + 1) * (m + 1),
        pow2(61) <= m < pow2(62),
        0 < p < 62,
    ensures
        ({
            let s = (62 - p) as nat;
            let q = m / pow2(s);
            let r = m % pow2(s);
            let half = pow2((s - 1) as nat);
            root_magnitude(v, p) == (62 + h - p) * pow2((p - 1) as nat) + if r > half || (r == half
                && m * m != x) {
                q + 1
            } else {
                q
            }
        }),
{
    let b = pow2(h);
    lemma_pow2_pos(h);
    let root = integer_root(v);
    lemma_integer_root(v);
    // m * b <= root < (m + 1) * b
    assert((m * b) * (m * b) <= v) by (nonlinear_arith)
        requires
            v == x * (b * b),
            m * m <= x,
    ;
    assert(v < ((m + 1) * b) * ((m + 1) * b)) by (nonlinear_arith)
        requires
            v == x * (b * b),
            x < (m + 1) * (m + 1),
            b > 0,
    ;
    if root < m * b {
        assert((root + 1) * (root + 1) <= (m * b) * (m * b)) by (nonlinear_arith)
            requires
                0 <= root,
                root + 1 <= m * b,
        ;
    }
    if root >= (m + 1) * b {
        assert(root * root >= ((m + 1) * b) * ((m + 1) * b)) by (nonlinear_arith)
            requires
                root >= (m + 1) * b,
                (m + 1) * b >= 0,
        ;
    }
    let s = (62 - p) as nat;
    let k = (s + h) as nat;
    // root lies in the binade k
    lemma_pow2_adds(61, h);
    lemma_pow2_adds(62, h);
    assert(root < pow2((62 + h) as nat)) by (nonlinear_arith)
        requires
            root < (m + 1) * b,
            m + 1 <= pow2(62),
            pow2((62 + h) as nat) == pow2(62) * b,
            b > 0,
    ;
    assert(root >= pow2((61 + h) as nat)) by (nonlinear_arith)
        requires
            root >= m * b,
            m >= pow2(61),
            pow2((61 + h) as nat) == pow2(61) * b,
            b > 0,
    ;
    assert(1 * pow2(p + k) == pow2((62 + h) as nat));
    assert(1 * pow2((p + k - 1) as nat) == pow2((61 + h) as nat));
    lemma_binade_unique(root, 1, p, k);
    // root / 2^k == m / 2^s
    let big = pow2(s);
    lemma_pow2_adds(s, h);
    lemma_pow2_pos(s);
    lemma_pow2_unfold(s);
    let half = pow2((s - 1) as nat);
    let q = m / big;
    let r = m % big;
    lemma_fundamental_div_mod(m as int, big as int);
    lemma_mod_bound(m as int, big as int);
    let low = root - q * (big * b);
    assert(m * b == q * (big * b) + r * b) by (nonlinear_arith)
        requires
            m == big * q + r,
    ;
    assert((m + 1) * b == q * (big * b) + (r + 1) * b) by (nonlinear_arith)
        requires
            m == big * q + r,
    ;
    assert((r + 1) * b <= big * b && r * b >= 0) by (nonlinear_arith)
        requires
            0 <= r,
            r + 1 <= big,
            b > 0,
    ;
    assert(pow2(k) == big * b);
    lemma_fundamental_div_mod_converse(root as int, pow2(k) as int, q as int, low);
    // 4 v > ((2 q + 1) 2^k)^2 exactly where x > w^2, w the midpoint in the scale of m
    let w = q * big + half;
    assert((2 * q + 1) * pow2(k) == 2 * (w * b)) by (nonlinear_arith)
        requires
            pow2(k) == big * b,
            big == 2 * half,
            w == q * big + half,
    ;
    let mid = (2 * q + 1) * pow2(k);
    assert(mid * mid == 4 * ((w * w) * (b * b))) by (nonlinear_arith)
        requires
            mid == 2 * (w * b),
    ;
    assert((4 * v > mid * mid) <==> x > w * w) by (nonlinear_arith)
        requires
            v == x * (b * b),
            mid * mid == 4 * ((w * w) * (b * b)),
            b > 0,
    ;
    assert(m == w + (r - half)) by (nonlinear_arith)
        requires
            m == big * q + r,
            w == q * big + half,
    ;
    if r > half {
        assert(m * m > w * w) by (nonlinear_arith)
            requires
                m > w,
                w >= 0,
        ;
    } else if r < half {
        assert((m + 1) * (m + 1) <= w * w) by (nonlinear_arith)
            requires
                m + 1 <= w,
                m >= 0,
        ;
    }
}

pub(crate) fn fp_sqrt(f: Format, a: Parts) -> (r: Parts)
    requires
        f.wf(),
    ensures
        r == square_root(f, a),
{
    if a.mag > f.inf {
        return fp_nan(f);
    }
    if a.mag == 0 {
        return a;
    }
    if a.neg {
        return fp_nan(f);
    }
    if a.mag == f.inf {
        return a;
    }
    let (sx, kx) = decode(f, a.mag);
    let len: u32 = bit_length(sx as u128);
    proof {
        lemma_format(f);
        if len > f.p + 1 {
            lemma_pow2_strictly_increases(f.p as nat, (len - 1) as nat);
        }
    }
    assert(len <= f.p);
    let t0: u32 = 123 - len;
    let t: u32 = if (kx + f.unit - t0) % 2 == 0 {
        t0
    } else {
        t0 + 1
    };
    let h: u32 = (kx + f.unit - t) / 2;
    let ghost v: nat = units(a.mag as nat, f.p as nat) * pow2(f.unit as nat);
    proof {
        lemma_root_scale(sx as nat, kx as nat, f.unit as nat, len as nat, t as nat, h as nat, v);
    }
    let x: u128 = (sx as u128) << (t as u128);
    let m: u64 = root_of(x);
    let s: u64 = (62 - f.p) as u64;
    proof {
        lemma2_to64();
        lemma2_to64_rest();
        lemma_root_magnitude(v, x as nat, h as nat, m as nat, f.p as nat);
        assert(m * m < 0x4000_0000_0000_0000 * 0x4000_0000_0000_0000) by (nonlinear_arith)
            requires
                0 <= m < 0x4000_0000_0000_0000,
        ;
        vstd::bits::lemma_u64_shr_is_div(m, s);
        lemma_fundamental_div_mod(m as int, pow2(s as nat) as int);
        lemma_mod_bound(m as int, pow2(s as nat) as int);
        lemma_pow2_unfold(s as nat);
        let q = m as nat / pow2(s as nat);
        assert(q * pow2(s as nat) == pow2(s as nat) * q) by (nonlinear_arith);
        vstd::bits::lemma_u64_shl_is_mul((m >> s), s);
        lemma_pow2_strictly_increases((s - 1) as nat, 63);
        vstd::bits::lemma_u64_shl_is_mul(1, (s - 1) as u64);
        vstd::bits::lemma_u64_shl_is_mul(1, (f.p - 1) as u64);
    }
    let q: u64 = m >> s;
    let r: u64 = m - (q << s);
    let half: u64 = 1u64 << ((s - 1) as u64);
    let up = r > half || (r == half && (m as u128) * (m as u128) != x);
    let k: u64 = (62 + h - f.p) as u64;
    let step: u64 = 1u64 << ((f.p - 1) as u64);
    proof {
        assert(k * step <= 1700 * 0x10_0000_0000_0000) by (nonlinear_arith)
            requires
                0 <= k <= 1700,
                0 <= step <= 0x10_0000_0000_0000,
        ;
        assert(k * step >= 0) by (nonlinear_arith)
            requires
                0 <= k,
                0 <= step,
        ;
    }
    let mag: u64 = k * step + q + if up {
        1
    } else {
        0
    };
    Parts {
        neg: false,
        mag: if mag >= f.inf {
            f.inf
        } else {
            mag
        },
    }
}

proof fn lemma_root_scale(sx: nat, kx: nat, unit: nat, len: nat, t: nat, h: nat, v: nat)
    requires
        0 < len <= 53,
        pow2((len - 1) as nat) <= sx < pow2(len),
        len + t == 123 || len + t == 124,
        kx + unit - t == 2 * h,
        t <= kx + unit,
        v == (sx * pow2(kx)) * pow2(unit),
    ensures
        (sx as u128) << (t as u128) == sx * pow2(t),
        0x400_0000_0000_0000_0000_0000_0000_0000 <= sx * pow2(t)
            < 0x1000_0000_0000_0000_0000_0000_0000_0000,
        v == (sx * pow2(t)) * (pow2(h) * pow2(h)),
{
    lemma_pow2_adds(kx, unit);
    lemma_pow2_adds(h, h);
    lemma_pow2_adds(t, 2 * h);
    assert(v == (sx * pow2(t)) * (pow2(h) * pow2(h))) by (nonlinear_arith)
        requires
            v == (sx * pow2(kx)) * pow2(unit),
            pow2(kx) * pow2(unit) == pow2(t) * pow2(2 * h),
            pow2(2 * h) == pow2(h) * pow2(h),
    ;
    lemma_pow2_adds(len, t);
    lemma_pow2_adds((len - 1) as nat, t);
    lemma_pow2_pos(t);
    assert(sx * pow2(t) < pow2(len) * pow2(t)) by (nonlinear_arith)
        requires
            sx < pow2(len),
            pow2(t) > 0,
    ;
    assert(pow2((len - 1) as nat) * pow2(t) <= sx * pow2(t)) by (nonlinear_arith)
        requires
            pow2((len - 1) as nat) <= sx,
            pow2(t) > 0,
    ;
    lemma2_to64();
    lemma2_to64_rest();
    lemma_pow2_adds(61, 61);
    lemma_pow2_adds(61, 62);
    lemma_pow2_adds(62, 62);
    lemma_pow2_strictly_increases(0, len);
    if len < 53 {
        lemma_pow2_strictly_increases(len, 53);
    }
    lemma_shl_u128(sx as u128, t as u128);
}

#[inline]
pub(crate) fn fp_lt(f: Format, a: Parts, b: Parts) -> (r: bool)
    ensures
        r == less(f, a, b),
{
    if a.mag > f.inf || b.mag > f.inf {
        false
    } else if a.neg {
        if b.neg {
            b.mag < a.mag
        } else {
            a.mag > 0 || b.mag > 0
        }
    } else {
        !b.neg && a.mag < b.mag
    }
}

pub(crate) fn fp_from_integer(f: Format, n: u128) -> (r: Parts)
    requires
        f.wf(),
    ensures
        r == of_integer(f, n as nat),
{
    let ghost u = pow2(f.unit as nat);
    let ghost v: nat = n as nat * u;
    if n >= 0x7fff_ffff_ffff_ffff_ffff_ffff_ffff_ffff {
        let quarter: u128 = n / 4;
        let rest: bool = n % 4 != 0;
        proof {
            lemma_pow2_unfold((f.unit + 1) as nat);
            lemma_pow2_unfold((f.unit + 2) as nat);
            lemma_digits(f);
            let den = pow2((f.unit + 2) as nat);
            assert(1 * den == den);
            assert(rest ==> den * quarter < v < den * (quarter + 1)) by (nonlinear_arith)
                requires
                    v == n * u,
                    den == 4 * u,
                    u > 0,
                    rest ==> 4 * quarter < n < 4 * quarter + 4,
            ;
            assert(!rest ==> v == den * quarter) by (nonlinear_arith)
                requires
                    v == n * u,
                    den == 4 * u,
                    !rest ==> n == 4 * quarter,
            ;
        }
        let mag: u64 = finish(f, quarter, f.unit as i32 + 2, rest, Ghost(v), Ghost(1));
        return Parts { neg: false, mag };
    }
    assert(1 * u == u);
    assert(u * n == v) by (nonlinear_arith)
        requires
            v == n * u,
    ;
    let mag: u64 = finish(f, n, f.unit as i32, false, Ghost(v), Ghost(1));
    Parts { neg: false, mag }
}

/// No format has 64 digits.
proof fn lemma_digits(f: Format)
    requires
        f.wf(),
    ensures
        pow2(f.p as nat) <= 0x1_0000_0000_0000_0000,
        pow2(f.unit as nat) > 0,
{
    lemma_pow2_pos(f.unit as nat);
    lemma2_to64();
    if f.p < 64 {
        lemma_pow2_strictly_increases(f.p as nat, 64);
    }
}

pub(crate) fn fp_convert(f: Format, g: Format, x: Parts) -> (r: Parts)
    requires
        f.wf(),
        g.wf(),
    ensures
        r == converted(f, g, x),
{
    if x.mag > f.inf {
        return fp_nan(g);
    }
    if x.mag == f.inf {
        return Parts { neg: x.neg, mag: g.inf };
    }
    let (sx, kx) = decode(f, x.mag);
    let e: i32 = kx as i32 + g.unit as i32 - f.unit as i32;
    let ghost n: nat = units(x.mag as nat, f.p as nat) * pow2(g.unit as nat);
    let ghost d: nat = pow2(f.unit as nat);
    proof {
        lemma_pow2_pos(f.unit as nat);
        lemma_pow2_adds(kx as nat, g.unit as nat);
        assert(n == sx * pow2((kx + g.unit) as nat)) by (nonlinear_arith)
            requires
                n == (sx * pow2(kx as nat)) * pow2(g.unit as nat),
                pow2((kx + g.unit) as nat) == pow2(kx as nat) * pow2(g.unit as nat),
        ;
        if e >= 0 {
            lemma_pow2_adds(f.unit as nat, e as nat);
            lemma_mul_is_commutative(sx as int, (d * pow2(e as nat)) as int);
        } else {
            lemma_pow2_adds((kx + g.unit) as nat, (-e) as nat);
            assert(n * pow2((-e) as nat) == d * sx) by (nonlinear_arith)
                requires
                    n == sx * pow2((kx + g.unit) as nat),
                    d == pow2((kx + g.unit) as nat) * pow2((-e) as nat),
            ;
        }
    }
    let mag: u64 = finish(g, sx as u128, e, false, Ghost(n), Ghost(d));
    Parts { neg: x.neg, mag }
}

pub(crate) fn fp_truncate(f: Format, x: Parts, max: u64) -> (r: u64)
    requires
        f.wf(),
    ensures
        r == truncated(f, x, max as nat),
{
    if x.mag > f.inf || x.neg {
        return 0;
    }
    if x.mag == f.inf {
        return max;
    }
    let (sx, kx) = decode(f, x.mag);
    let ghost u: nat = units(x.mag as nat, f.p as nat);
    proof {
        lemma_format(f);
    }
    if kx >= f.unit {
        let up: u32 = kx - f.unit;
        proof {
            lemma_whole(sx as nat, kx as nat, f.unit as nat, u);
        }
        if up >= 64 {
            proof {
                lemma_large(sx as nat, up as nat);
            }
            return max;
        }
        proof {
            lemma2_to64();
            lemma_pow2_strictly_increases(up as nat, 64);
            assert(sx * pow2(up as nat) <= 0x20_0000_0000_0000 * 0x1_0000_0000_0000_0000)
                by (nonlinear_arith)
                requires
                    0 <= sx < 0x20_0000_0000_0000,
                    0 <= pow2(up as nat) <= 0x1_0000_0000_0000_0000,
            ;
            lemma_shl_u128(sx as u128, up as u128);
        }
        let n: u128 = (sx as u128) << (up as u128);
        if n > max as u128 {
            max
        } else {
            n as u64
        }
    } else {
        let down: u32 = f.unit - kx;
        proof {
            lemma_fraction(sx as nat, kx as nat, down as nat, f.unit as nat, u);
        }
        if down >= 64 {
            proof {
                lemma2_to64();
                if down > 64 {
                    lemma_pow2_strictly_increases(64, down as nat);
                }
                lemma_basic_div(sx as int, pow2(down as nat) as int);
            }
            return 0;
        }
        proof {
            vstd::bits::lemma_u64_shr_is_div(sx, down as u64);
        }
        let n: u64 = sx >> (down as u64);
        if n > max {
            max
        } else {
            n
        }
    }
}

proof fn lemma_whole(sx: nat, kx: nat, unit: nat, u: nat)
    requires
        kx >= unit,
        u == sx * pow2(kx),
    ensures
        u / pow2(unit) == sx * pow2((kx - unit) as nat),
        (2 * u + pow2(unit)) / (2 * pow2(unit)) == sx * pow2((kx - unit) as nat),
{
    let up = (kx - unit) as nat;
    let b = pow2(unit);
    lemma_pow2_adds(up, unit);
    lemma_pow2_pos(unit);
    let w = sx * pow2(up);
    assert(u == w * b) by (nonlinear_arith)
        requires
            u == sx * pow2(kx),
            pow2(kx) == pow2(up) * b,
            w == sx * pow2(up),
    ;
    lemma_fundamental_div_mod_converse(u as int, b as int, w as int, 0);
    assert(2 * u + b == w * (2 * b) + b) by (nonlinear_arith)
        requires
            u == w * b,
    ;
    lemma_fundamental_div_mod_converse((2 * u + b) as int, (2 * b) as int, w as int, b as int);
}

proof fn lemma_large(sx: nat, up: nat)
    requires
        sx >= 1,
        up >= 64,
    ensures
        sx * pow2(up) > u64::MAX,
{
    lemma2_to64();
    if up > 64 {
        lemma_pow2_strictly_increases(64, up);
    }
    assert(sx * pow2(up) >= pow2(up)) by (nonlinear_arith)
        requires
            sx >= 1,
            pow2(up) >= 0,
    ;
}

proof fn lemma_fraction(sx: nat, kx: nat, down: nat, unit: nat, u: nat)
    requires
        down > 0,
        kx + down == unit,
        u == sx * pow2(kx),
    ensures
        u / pow2(unit) == sx / pow2(down),
        (2 * u + pow2(unit)) / (2 * pow2(unit)) == (sx + pow2((down - 1) as nat)) / pow2(down),
{
    let b = pow2(kx);
    let c = pow2(down);
    let h = pow2((down - 1) as nat);
    lemma_pow2_adds(kx, down);
    lemma_pow2_unfold(down);
    lemma_pow2_pos(kx);
    lemma_pow2_pos(down);
    lemma_mul_is_commutative(sx as int, b as int);
    lemma_truncate(sx, b, c);
    assert(2 * u + pow2(unit) == (2 * b) * (sx + h)) by (nonlinear_arith)
        requires
            u == sx * b,
            pow2(unit) == b * c,
            c == 2 * h,
    ;
    assert(2 * pow2(unit) == (2 * b) * c) by (nonlinear_arith)
        requires
            pow2(unit) == b * c,
    ;
    lemma_truncate(sx + h, 2 * b, c);
}

proof fn lemma_truncate(x: nat, b: nat, c: nat)
    requires
        b > 0,
        c > 0,
    ensures
        (b * x) / (b * c) == x / c,
{
    lemma_fundamental_div_mod(x as int, c as int);
    lemma_mod_bound(x as int, c as int);
    let q = x / c;
    let r = x % c;
    assert(b * x == q * (b * c) + b * r) by (nonlinear_arith)
        requires
            x == c * q + r,
    ;
    assert(0 <= b * r < b * c) by (nonlinear_arith)
        requires
            0 <= r < c,
            b > 0,
    ;
    lemma_fundamental_div_mod_converse((b * x) as int, (b * c) as int, q as int, (b * r) as int);
}

pub(crate) fn fp_round(f: Format, x: Parts, max: u64) -> (r: u64)
    requires
        f.wf(),
    ensures
        r == nearest(f, x, max as nat),
{
    if x.mag > f.inf || x.neg {
        return 0;
    }
    if x.mag == f.inf {
        return max;
    }
    let (sx, kx) = decode(f, x.mag);
    let ghost u: nat = units(x.mag as nat, f.p as nat);
    proof {
        lemma_format(f);
    }
    if kx >= f.unit {
        let up: u32 = kx - f.unit;
        proof {
            lemma_whole(sx as nat, kx as nat, f.unit as nat, u);
        }
        if up >= 64 {
            proof {
                lemma_large(sx as nat, up as nat);
            }
            return max;
        }
        proof {
            lemma2_to64();
            lemma_pow2_strictly_increases(up as nat, 64);
            assert(sx * pow2(up as nat) <= 0x20_0000_0000_0000 * 0x1_0000_0000_0000_0000)
                by (nonlinear_arith)
                requires
                    0 <= sx < 0x20_0000_0000_0000,
                    0 <= pow2(up as nat) <= 0x1_0000_0000_0000_0000,
            ;
            lemma_shl_u128(sx as u128, up as u128);
        }
        let n: u128 = (sx as u128) << (up as u128);
        if n > max as u128 {
            max
        } else {
            n as u64
        }
    } else {
        let down: u32 = f.unit - kx;
        proof {
            lemma_fraction(sx as nat, kx as nat, down as nat, f.unit as nat, u);
        }
        if down >= 63 {
            proof {
                lemma2_to64();
                lemma2_to64_rest();
                lemma_pow2_unfold(down as nat);
                if down > 63 {
                    lemma_pow2_strictly_increases(62, (down - 1) as nat);
                }
                lemma_basic_div(sx + pow2((down - 1) as nat), pow2(down as nat) as int);
            }
            return 0;
        }
        proof {
            lemma2_to64();
            lemma2_to64_rest();
            if down < 62 {
                lemma_pow2_strictly_increases((down - 1) as nat, 61);
            }
            vstd::bits::lemma_u64_shl_is_mul(1, (down - 1) as u64);
            vstd::bits::lemma_u64_shr_is_div((sx + pow2((down - 1) as nat)) as u64, down as u64);
        }
        let n: u64 = (sx + (1u64 << ((down - 1) as u64))) >> (down as u64);
        if n > max {
            max
        } else {
            n
        }
    }
}

} // verus!
