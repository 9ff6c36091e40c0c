//! Rounding of nonnegative rationals to a fixed number of significant bits.
//!
//! A floating-point magnitude is handled as its bit pattern without the sign: an integer that
//! grows with the value it stands for. All values are counted in multiples of the smallest
//! positive number of the format, so that every finite value is a natural number.
use vstd::arithmetic::div_mod::*;
use vstd::arithmetic::mul::*;
use vstd::arithmetic::power2::*;
use vstd::prelude::*;

verus! {

/// `n / d` rounded to the nearest integer, a tie going to the even one.
pub open spec fn nearest_even(n: nat, d: nat) -> nat {
    let q = n / d;
    let r = n % d;
    if 2 * r < d || (2 * r == d && q % 2 == 0) {
        q
    } else {
        q + 1
    }
}

/// How often the unit `d` has to double before `n` counts fewer than `2^p` of it.
pub open spec fn binade(n: nat, d: nat, p: nat) -> nat
    decreases n - d,
    when d > 0
{
    if n < d * pow2(p) || p == 0 {
        0
    } else {
        proof {
            lemma_pow2_unfold(p);
            lemma_pow2_pos((p - 1) as nat);
            assert(d * pow2(p) >= 2 * d) by (nonlinear_arith)
                requires
                    pow2(p) >= 2,
                    d > 0,
            ;
        }
        1 + binade(n, 2 * d, p)
    }
}

/// The magnitude, in a format of `p` significant bits, nearest to `n / d` units.
pub open spec fn round_magnitude(n: nat, d: nat, p: nat) -> nat {
    let k = binade(n, d, p);
    k * pow2((p - 1) as nat) + nearest_even(n, d * pow2(k))
}

/// How many units the magnitude `mag` stands for.
pub open spec fn units(mag: nat, p: nat) -> nat {
    let h = pow2((p - 1) as nat);
    if mag < h {
        mag
    } else {
        (h + mag % h) * pow2((mag / h - 1) as nat)
    }
}

/// `n / d` equals `m * 2^e`, or, where `sticky`, lies strictly between that and `(m + 1) * 2^e`.
pub open spec fn brackets(n: nat, d: nat, m: nat, e: int, sticky: bool) -> bool {
    let num = if e >= 0 {
        n
    } else {
        n * pow2((-e) as nat)
    };
    let den = if e >= 0 {
        d * pow2(e as nat)
    } else {
        d
    };
    if sticky {
        den * m < num < den * (m + 1)
    } else {
        num == den * m
    }
}

pub proof fn lemma_nearest_even_scale(n: nat, d: nat, c: nat)
    requires
        d > 0,
        c > 0,
    ensures
        nearest_even(n * c, d * c) == nearest_even(n, d),
{
    let q = n / d;
    let r = n % d;
    lemma_fundamental_div_mod(n as int, d as int);
    assert(n * c == q * (d * c) + r * c) by (nonlinear_arith)
        requires
            n == d * q + r,
    ;
    assert(0 <= r * c < d * c) by (nonlinear_arith)
        requires
            0 <= r < d,
            c > 0,
    ;
    lemma_fundamental_div_mod_converse((n * c) as int, (d * c) as int, q as int, (r * c) as int);
    assert(2 * (r * c) < d * c <==> 2 * r < d) by (nonlinear_arith)
        requires
            c > 0,
    ;
    assert(2 * (r * c) == d * c <==> 2 * r == d) by (nonlinear_arith)
        requires
            c > 0,
    ;
}

pub proof fn lemma_binade_unique(n: nat, d: nat, p: nat, k: nat)
    requires
        d > 0,
        p > 0,
        n < d * pow2(p + k),
        k > 0 ==> n >= d * pow2((p + k - 1) as nat),
    ensures
        binade(n, d, p) == k,
    decreases k,
{
    if k > 0 {
        assert(n >= d * pow2(p)) by {
            if k > 1 {
                lemma_pow2_strictly_increases(p, (p + k - 1) as nat);
            }
            assert(d * pow2((p + k - 1) as nat) >= d * pow2(p)) by (nonlinear_arith)
                requires
                    pow2((p + k - 1) as nat) >= pow2(p),
                    d > 0,
            ;
        }
        lemma_pow2_unfold(p + k);
        assert(d * pow2(p + k) == (2 * d) * pow2((p + (k - 1)) as nat)) by (nonlinear_arith)
            requires
                pow2(p + k) == 2 * pow2((p + k - 1) as nat),
        ;
        if k > 1 {
            lemma_pow2_unfold((p + k - 1) as nat);
            assert(d * pow2((p + k - 1) as nat) == (2 * d) * pow2((p + (k - 1) - 1) as nat))
                by (nonlinear_arith)
                requires
                    pow2((p + k - 1) as nat) == 2 * pow2((p + k - 2) as nat),
            ;
        }
        lemma_binade_unique(n, 2 * d, p, (k - 1) as nat);
    }
}

/// Rounding off the low `s > 0` bits of a bracketed value only asks how those bits compare with
/// one half, and whether anything lies below them.
proof fn lemma_nearest_even_shift(num: nat, den: nat, m: nat, s: nat, sticky: bool)
    requires
        den > 0,
        s > 0,
        if sticky {
            den * m < num < den * (m + 1)
        } else {
            num == den * m
        },
    ensures
        ({
            let q = m / pow2(s);
            let r = m % pow2(s);
            let h = pow2((s - 1) as nat);
            nearest_even(num, den * pow2(s)) == if r < h || (r == h && !sticky && q % 2 == 0) {
                q
            } else {
                q + 1
            }
        }),
{
    let big = pow2(s);
    let h = pow2((s - 1) as nat);
    lemma_pow2_unfold(s);
    lemma_pow2_pos((s - 1) as nat);
    let q = m / big;
    let r = m % big;
    lemma_fundamental_div_mod(m as int, big as int);
    lemma_mod_bound(m as int, big as int);
    let low = (num - q * (den * big)) as int;
    assert(den * m == q * (den * big) + den * r) by (nonlinear_arith)
        requires
            m == big * q + r,
    ;
    assert(den * (m + 1) == q * (den * big) + den * (r + 1)) by (nonlinear_arith)
        requires
            m == big * q + r,
    ;
    assert(den * (r + 1) <= den * big && den * r <= den * big && den * r >= 0) by (nonlinear_arith)
        requires
            r + 1 <= big,
            r >= 0,
            den > 0,
    ;
    assert(den * r < den * big) by (nonlinear_arith)
        requires
            r < big,
            den > 0,
    ;
    lemma_fundamental_div_mod_converse(num as int, (den * big) as int, q as int, low);
    assert(den * big == 2 * (den * h)) by (nonlinear_arith)
        requires
            big == 2 * h,
    ;
    if r < h {
        assert(den * (r + 1) <= den * h) by (nonlinear_arith)
            requires
                r + 1 <= h,
                den > 0,
        ;
        assert(den * r < den * h) by (nonlinear_arith)
            requires
                r < h,
                den > 0,
        ;
    } else if r > h {
        assert(den * r > den * h) by (nonlinear_arith)
            requires
                r > h,
                den > 0,
        ;
    }
}

/// The magnitude nearest to a bracketed value, from the bits of `m` alone.
///
/// `k` is the binade of the value: `len` is the number of bits of `m`.
proof fn lemma_round_bracketed(n: nat, d: nat, m: nat, e: int, sticky: bool, p: nat, len: nat, k: nat)
    requires
        d > 0,
        p > 0,
        m > 0,
        brackets(n, d, m, e, sticky),
        pow2((len - 1) as nat) <= m < pow2(len),
        len > 0,
        k == if len + e > p {
            len + e - p
        } else {
            0
        },
        sticky ==> k > e,
    ensures
        k <= e ==> round_magnitude(n, d, p) == k * pow2((p - 1) as nat) + m * pow2((e - k) as nat),
        k > e ==> ({
            let s = (k - e) as nat;
            let q = m / pow2(s);
            let r = m % pow2(s);
            let h = pow2((s - 1) as nat);
            round_magnitude(n, d, p) == k * pow2((p - 1) as nat) + if r < h || (r == h && !sticky && q
                % 2 == 0) {
                q
            } else {
                q + 1
            }
        }),
{
    let top = pow2(len);
    let bot = pow2((len - 1) as nat);
    if e >= 0 {
        let x = pow2(e as nat);
        let den = d * x;
        lemma_pow2_pos(e as nat);
        assert(den > 0) by (nonlinear_arith)
            requires
                d > 0,
                x > 0,
                den == d * x,
        ;
        assert(n < den * top) by (nonlinear_arith)
            requires
                n < den * (m + 1) || n == den * m,
                m + 1 <= top,
                den > 0,
        ;
        assert(n >= den * bot) by (nonlinear_arith)
            requires
                n >= den * m,
                m >= bot,
                den > 0,
        ;
        lemma_pow2_adds(e as nat, len);
        lemma_pow2_adds(e as nat, (len - 1) as nat);
        assert(den * top == d * pow2((len + e) as nat)) by (nonlinear_arith)
            requires
                den == d * x,
                x * top == pow2((len + e) as nat),
        ;
        assert(den * bot == d * pow2((len + e - 1) as nat)) by (nonlinear_arith)
            requires
                den == d * x,
                x * bot == pow2((len + e - 1) as nat),
        ;
        if len + e < p {
            lemma_pow2_strictly_increases((len + e) as nat, p);
            assert(d * pow2((len + e) as nat) <= d * pow2(p)) by (nonlinear_arith)
                requires
                    pow2((len + e) as nat) <= pow2(p),
            ;
        }
        lemma_binade_unique(n, d, p, k);
        if k <= e {
            lemma_pow2_adds(k, (e - k) as nat);
            let v = m * pow2((e - k) as nat);
            let dk = d * pow2(k);
            lemma_pow2_pos(k);
            assert(dk > 0) by (nonlinear_arith)
                requires
                    dk == d * pow2(k),
                    d > 0,
                    pow2(k) > 0,
            ;
            assert(n == dk * v) by (nonlinear_arith)
                requires
                    n == (d * x) * m,
                    x == pow2(k) * pow2((e - k) as nat),
                    dk == d * pow2(k),
                    v == m * pow2((e - k) as nat),
            ;
            lemma_fundamental_div_mod_converse(n as int, dk as int, v as int, 0);
        } else {
            let s = (k - e) as nat;
            lemma_pow2_adds(e as nat, s);
            assert(den * pow2(s) == d * pow2(k)) by (nonlinear_arith)
                requires
                    den == d * x,
                    x * pow2(s) == pow2(k),
            ;
            lemma_nearest_even_shift(n, den, m, s, sticky);
        }
    } else {
        let a = (-e) as nat;
        let x = pow2(a);
        let num = n * x;
        lemma_pow2_pos(a);
        assert(num < d * top) by (nonlinear_arith)
            requires
                num < d * (m + 1) || num == d * m,
                m + 1 <= top,
                d > 0,
        ;
        assert(num >= d * bot) by (nonlinear_arith)
            requires
                num >= d * m,
                m >= bot,
                d > 0,
        ;
        // Compare with d * 2^(p + k), scaled by 2^a.
        lemma_pow2_adds(p + k, a);
        if len < p + k + a {
            lemma_pow2_strictly_increases(len, p + k + a);
        }
        assert(top <= pow2(p + k + a));
        assert(n < d * pow2(p + k)) by (nonlinear_arith)
            requires
                n * x < d * top,
                top <= pow2(p + k) * x,
                d > 0,
                x > 0,
        ;
        if k > 0 {
            lemma_pow2_adds((p + k - 1) as nat, a);
            assert(bot == pow2((p + k - 1) as nat) * x);
            assert(n >= d * pow2((p + k - 1) as nat)) by (nonlinear_arith)
                requires
                    n * x >= d * bot,
                    bot == pow2((p + k - 1) as nat) * x,
                    d > 0,
                    x > 0,
            ;
        }
        lemma_binade_unique(n, d, p, k);
        let s = (k - e) as nat;
        lemma_pow2_adds(k, a);
        lemma_pow2_pos(k);
        assert(d * pow2(k) > 0) by (nonlinear_arith)
            requires
                d > 0,
                pow2(k) > 0,
        ;
        lemma_nearest_even_scale(n, d * pow2(k), x);
        assert((d * pow2(k)) * x == d * pow2(s)) by (nonlinear_arith)
            requires
                pow2(k) * x == pow2(s),
        ;
        lemma_nearest_even_shift(num, d, m, s, sticky);
    }
}

/// Zero rounds to zero.
pub proof fn lemma_round_zero(d: nat, p: nat)
    requires
        d > 0,
        p > 0,
    ensures
        round_magnitude(0, d, p) == 0,
{
    lemma_pow2_pos(p);
    assert(0 < d * pow2(p)) by (nonlinear_arith)
        requires
            d > 0,
            pow2(p) > 0,
    ;
    lemma_binade_unique(0, d, p, 0);
    lemma_pow2_pos(0);
    assert(d * pow2(0) > 0) by (nonlinear_arith)
        requires
            d > 0,
            pow2(0) > 0,
    ;
    lemma_fundamental_div_mod_converse(0, (d * pow2(0)) as int, 0, 0);
    lemma_mul_by_zero_is_zero(pow2((p - 1) as nat) as int);
}

proof fn lemma_leading_zeros(i: u64)
    requires
        i > 0,
    ensures
        0 <= vstd::std_specs::bits::u64_leading_zeros(i) < 64,
        pow2((63 - vstd::std_specs::bits::u64_leading_zeros(i)) as nat) <= i,
        i < pow2((64 - vstd::std_specs::bits::u64_leading_zeros(i)) as nat),
    decreases i,
{
    reveal(vstd::std_specs::bits::u64_leading_zeros);
    let z = vstd::std_specs::bits::u64_leading_zeros(i);
    vstd::std_specs::bits::axiom_u64_leading_zeros(i);
    if i == 1 {
        assert(z == 63) by {
            reveal_with_fuel(vstd::std_specs::bits::u64_leading_zeros, 2);
        }
        lemma2_to64();
    } else {
        lemma_leading_zeros(i / 2);
        lemma_pow2_unfold((63 - z) as nat);
        lemma_pow2_unfold((64 - z) as nat);
    }
}

pub(crate) proof fn lemma_shl_u128(x: u128, s: u128)
    requires
        s < 128,
        x * pow2(s as nat) <= u128::MAX,
    ensures
        (x << s) == x * pow2(s as nat),
    decreases s,
{
    if s == 0 {
        assert(x << 0u128 == x) by (bit_vector);
        lemma2_to64();
    } else {
        let t = (s - 1) as u128;
        lemma_pow2_unfold(s as nat);
        lemma_pow2_pos(t as nat);
        assert(x * pow2(s as nat) == 2 * (x * pow2(t as nat))) by (nonlinear_arith)
            requires
                pow2(s as nat) == 2 * pow2(t as nat),
        ;
        lemma_shl_u128(x, t);
        let y: u128 = x << t;
        assert(x << s == y << 1u128) by (bit_vector)
            requires
                y == x << t,
                s == t + 1,
                s < 128,
        ;
        assert(y << 1u128 == 2 * y) by (bit_vector)
            requires
                y <= 0x7fff_ffff_ffff_ffff_ffff_ffff_ffff_ffffu128,
        ;
    }
}

/// The number of bits of `m`.
pub(crate) fn bit_length(m: u128) -> (len: u32)
    requires
        m > 0,
    ensures
        0 < len <= 128,
        pow2((len - 1) as nat) <= m < pow2(len as nat),
{
    let hi: u64 = (m >> 64u128) as u64;
    proof {
        lemma2_to64();
        vstd::bits::lemma_u128_shr_is_div(m, 64);
        assert(m >> 64u128 <= 0xffff_ffff_ffff_ffffu128) by (bit_vector);
    }
    if hi > 0 {
        let z: u32 = hi.leading_zeros();
        proof {
            lemma_leading_zeros(hi);
            let a = (63 - z) as nat;
            lemma_pow2_adds(a, 64);
            lemma_pow2_adds(a + 1, 64);
            lemma_fundamental_div_mod(m as int, 0x1_0000_0000_0000_0000);
            assert(pow2(a) * 0x1_0000_0000_0000_0000 <= m);
            assert(m < pow2(a + 1) * 0x1_0000_0000_0000_0000);
        }
        128 - z
    } else {
        let lo: u64 = m as u64;
        proof {
            lemma_leading_zeros(lo);
        }
        64 - lo.leading_zeros()
    }
}

/// The magnitude nearest to the value that `m`, `e` and `sticky` bracket.
pub(crate) fn round_bracketed(m: u128, e: i32, sticky: bool, p: u32, Ghost(n): Ghost<nat>, Ghost(d): Ghost<nat>) -> (mag: u128)
    requires
        d > 0,
        0 < p <= 64,
        m < 0x7fff_ffff_ffff_ffff_ffff_ffff_ffff_ffff,
        -10_000 < e < 10_000,
        brackets(n, d, m as nat, e as int, sticky),
        sticky ==> m >= pow2(p as nat),
    ensures
        mag == round_magnitude(n, d, p as nat),
{
    if m == 0 {
        proof {
            lemma_pow2_pos(p as nat);
            assert(n == 0) by {
                if e >= 0 {
                    lemma_mul_by_zero_is_zero((d * pow2(e as nat)) as int);
                } else {
                    lemma_mul_by_zero_is_zero(d as int);
                    lemma_pow2_pos((-e) as nat);
                    assert(n == 0) by (nonlinear_arith)
                        requires
                            n * pow2((-e) as nat) == 0,
                            pow2((-e) as nat) > 0,
                    ;
                }
            }
            lemma_round_zero(d, p as nat);
        }
        return 0;
    }
    let len: u32 = bit_length(m);
    let excess: i32 = len as i32 + e - p as i32;
    let k: i32 = if excess > 0 {
        excess
    } else {
        0
    };
    proof {
        if sticky {
            if len <= p {
                if len < p {
                    lemma_pow2_strictly_increases(len as nat, p as nat);
                }
                assert(false);
            }
        }
        lemma_round_bracketed(n, d, m as nat, e as int, sticky, p as nat, len as nat, k as nat);
    }
    let step: u128 = 1u128 << ((p - 1) as u128);
    proof {
        lemma_shl_one((p - 1) as u128);
        lemma2_to64();
        lemma2_to64_rest();
        if p < 64 {
            lemma_pow2_strictly_increases((p - 1) as nat, 63);
        }
        assert(k * step <= 20_100 * 0x8000_0000_0000_0000) by (nonlinear_arith)
            requires
                0 <= k <= 20_100,
                0 <= step <= 0x8000_0000_0000_0000,
        ;
        assert(k * step >= 0) by (nonlinear_arith)
            requires
                0 <= k,
                0 <= step,
        ;
    }
    let base: u128 = (k as u128) * step;
    if k <= e {
        let up: u128 = (e - k) as u128;
        proof {
            // m has at most p bits once it is shifted to its place.
            let l = len as nat;
            lemma_pow2_adds(l, up as nat);
            assert(l + up <= p);
            if l + up < p {
                lemma_pow2_strictly_increases(l + up as nat, p as nat);
            }
            if p < 64 {
                lemma_pow2_strictly_increases(p as nat, 64);
            }
            lemma_pow2_pos(up as nat);
            assert(m * pow2(up as nat) < pow2(l) * pow2(up as nat)) by (nonlinear_arith)
                requires
                    m < pow2(l),
                    pow2(up as nat) > 0,
            ;
            lemma_shl_u128(m, up);
        }
        base + (m << up)
    } else {
        let s: u128 = (k - e) as u128;
        if s >= 128 {
            proof {
                lemma_pow2_values();
                if s > 128 {
                    lemma_pow2_strictly_increases(128, s as nat);
                    lemma_pow2_strictly_increases(127, (s - 1) as nat);
                }
                lemma_basic_div(m as int, pow2(s as nat) as int);
                lemma_small_mod(m as nat, pow2(s as nat));
            }
            base
        } else {
            let q: u128 = m >> s;
            proof {
                vstd::bits::lemma_u128_shr_is_div(m, s);
                lemma_shl_one((s - 1) as u128);
                lemma_pow2_unfold(s as nat);
                lemma_pow2_pos((s - 1) as nat);
                lemma_fundamental_div_mod(m as int, pow2(s as nat) as int);
                lemma_mod_bound(m as int, pow2(s as nat) as int);
                assert(q * pow2(s as nat) == pow2(s as nat) * q) by (nonlinear_arith);
                lemma_shl_u128(q, s);
                assert(q <= m) by (nonlinear_arith)
                    requires
                        q * pow2(s as nat) <= m,
                        pow2(s as nat) >= 1,
                        q >= 0,
                ;
                // q is at most m / 2
                assert(2 * q <= m) by (nonlinear_arith)
                    requires
                        q * pow2(s as nat) <= m,
                        pow2(s as nat) >= 2,
                        q >= 0,
                ;
            }
            let r: u128 = m - (q << s);
            let h: u128 = 1u128 << ((s - 1) as u128);
            if r < h || (r == h && !sticky && q % 2 == 0) {
                base + q
            } else {
                base + q + 1
            }
        }
    }
}

/// The single-precision magnitude nearest to `m * 2^e`, where `m` is short.
#[inline(always)]
pub(crate) fn round_short(m: u64, e: i32, Ghost(n): Ghost<nat>, Ghost(d): Ghost<nat>) -> (mag: u64)
    requires
        d > 0,
        m < 0x4000_0000_0000_0000,
        -10_000 < e < 10_000,
        brackets(n, d, m as nat, e as int, false),
    ensures
        mag == round_magnitude(n, d, 24),
{
    if m == 0 {
        proof {
            assert(n == 0) by {
                if e >= 0 {
                    lemma_mul_by_zero_is_zero((d * pow2(e as nat)) as int);
                } else {
                    lemma_mul_by_zero_is_zero(d as int);
                    lemma_pow2_pos((-e) as nat);
                    assert(n == 0) by (nonlinear_arith)
                        requires
                            n * pow2((-e) as nat) == 0,
                            pow2((-e) as nat) > 0,
                    ;
                }
            }
            lemma_round_zero(d, 24);
        }
        return 0;
    }
    let len: u32 = 64 - m.leading_zeros();
    let excess: i32 = len as i32 + e - 24;
    let k: i32 = if excess > 0 {
        excess
    } else {
        0
    };
    proof {
        lemma_leading_zeros(m);
        lemma_round_bracketed(n, d, m as nat, e as int, false, 24, len as nat, k as nat);
        lemma2_to64();
        lemma2_to64_rest();
    }
    let base: u64 = k as u64 * 0x80_0000;
    if k <= e {
        let up: u64 = (e - k) as u64;
        proof {
            let l = len as nat;
            lemma_pow2_adds(l, up as nat);
            if l + up < 24 {
                lemma_pow2_strictly_increases(l + up as nat, 24);
            }
            lemma_pow2_pos(up as nat);
            assert(m * pow2(up as nat) < pow2(l) * pow2(up as nat)) by (nonlinear_arith)
                requires
                    m < pow2(l),
                    pow2(up as nat) > 0,
            ;
            vstd::bits::lemma_u64_shl_is_mul(m, up);
        }
        base + (m << up)
    } else {
        let s: u64 = (k - e) as u64;
        if s >= 64 {
            proof {
                if s > 64 {
                    lemma_pow2_strictly_increases(64, s as nat);
                    lemma_pow2_strictly_increases(63, (s - 1) as nat);
                }
                lemma_basic_div(m as int, pow2(s as nat) as int);
                lemma_small_mod(m as nat, pow2(s as nat));
            }
            base
        } else {
            let q: u64 = m >> s;
            proof {
                vstd::bits::lemma_u64_shr_is_div(m, s);
                if s - 1 < 63 {
                    lemma_pow2_strictly_increases((s - 1) as nat, 63);
                }
                vstd::bits::lemma_u64_shl_is_mul(1, (s - 1) as u64);
                lemma_pow2_unfold(s as nat);
                lemma_pow2_pos((s - 1) as nat);
                lemma_fundamental_div_mod(m as int, pow2(s as nat) as int);
                lemma_mod_bound(m as int, pow2(s as nat) as int);
                assert(q * pow2(s as nat) == pow2(s as nat) * q) by (nonlinear_arith);
                vstd::bits::lemma_u64_shl_is_mul(q, s);
                assert(q <= m) by (nonlinear_arith)
                    requires
                        q * pow2(s as nat) <= m,
                        pow2(s as nat) >= 1,
                        q >= 0,
                ;
            }
            let r: u64 = m - (q << s);
            let h: u64 = 1u64 << ((s - 1) as u64);
            let up: u64 = if r < h || (r == h && q % 2 == 0) {
                0
            } else {
                1
            };
            base + q + up
        }
    }
}

pub(crate) proof fn lemma_shl_one(s: u128)
    requires
        s < 128,
    ensures
        (1u128 << s) == pow2(s as nat),
{
    lemma_pow2_values();
    if s < 127 {
        lemma_pow2_strictly_increases(s as nat, 127);
    }
    lemma_shl_u128(1, s);
}

pub(crate) proof fn lemma_pow2_values()
    ensures
        pow2(127) == 0x8000_0000_0000_0000_0000_0000_0000_0000,
        pow2(128) == 0x1_0000_0000_0000_0000_0000_0000_0000_0000,
{
    lemma2_to64();
    lemma2_to64_rest();
    lemma_pow2_adds(63, 64);
    lemma_pow2_adds(64, 64);
}

/// What `binade` says of `n` and `d`.
pub proof fn lemma_binade(n: nat, d: nat, p: nat)
    requires
        d > 0,
        p > 0,
    ensures
        n < d * pow2(p + binade(n, d, p)),
        binade(n, d, p) > 0 ==> n >= d * pow2((p + binade(n, d, p) - 1) as nat),
    decreases n - d,
{
    if n >= d * pow2(p) {
        lemma_pow2_unfold(p);
        lemma_pow2_pos((p - 1) as nat);
        assert(d * pow2(p) >= 2 * d) by (nonlinear_arith)
            requires
                pow2(p) >= 2,
                d > 0,
        ;
        lemma_binade(n, 2 * d, p);
        let k = binade(n, 2 * d, p);
        assert(binade(n, d, p) == 1 + k);
        lemma_pow2_unfold(p + k + 1);
        assert((2 * d) * pow2(p + k) == d * pow2(p + k + 1)) by (nonlinear_arith)
            requires
                pow2(p + k + 1) == 2 * pow2(p + k),
        ;
        if k > 0 {
            lemma_pow2_unfold(p + k);
            assert((2 * d) * pow2((p + k - 1) as nat) == d * pow2(p + k)) by (nonlinear_arith)
                requires
                    pow2(p + k) == 2 * pow2((p + k - 1) as nat),
            ;
        }
    }
}

/// The magnitude of `mant` significant bits in binade `k` stands for `mant * 2^k` units.
pub proof fn lemma_units_of(k: nat, mant: nat, p: nat)
    requires
        p > 0,
        mant <= pow2(p),
        k == 0 || mant >= pow2((p - 1) as nat),
    ensures
        units(k * pow2((p - 1) as nat) + mant, p) == mant * pow2(k),
{
    let h = pow2((p - 1) as nat);
    lemma_pow2_unfold(p);
    lemma_pow2_pos((p - 1) as nat);
    let mag = k * h + mant;
    if mant < h {
        lemma_mul_by_zero_is_zero(h as int);
        lemma2_to64();
        assert(mant * pow2(0) == mant) by (nonlinear_arith)
            requires
                pow2(0) == 1,
        ;
    } else if mant < 2 * h {
        assert(mag == (k + 1) * h + (mant - h)) by (nonlinear_arith)
            requires
                mag == k * h + mant,
        ;
        lemma_fundamental_div_mod_converse(mag as int, h as int, (k + 1) as int, mant - h);
        assert(mag >= h) by (nonlinear_arith)
            requires
                mag == k * h + mant,
                mant >= h,
                k >= 0,
        ;
        assert((mag / h - 1) as nat == k);
        assert(h + mag % h == mant);
    } else {
        assert(mag == (k + 2) * h) by (nonlinear_arith)
            requires
                mag == k * h + 2 * h,
        ;
        lemma_fundamental_div_mod_converse(mag as int, h as int, (k + 2) as int, 0);
        assert(mag >= h) by (nonlinear_arith)
            requires
                mag == k * h + mant,
                mant >= h,
                k >= 0,
        ;
        assert((mag / h - 1) as nat == k + 1);
        lemma_pow2_unfold(k + 1);
        assert(h * pow2(k + 1) == mant * pow2(k)) by (nonlinear_arith)
            requires
                mant == 2 * h,
                pow2(k + 1) == 2 * pow2(k),
        ;
    }
}

/// A rounded value is off by at most half of the last place it keeps.
pub proof fn lemma_round_error(n: nat, d: nat, p: nat)
    requires
        d > 0,
        p > 0,
    ensures
        ({
            let k = binade(n, d, p);
            let u = units(round_magnitude(n, d, p), p);
            &&& 2 * (u * d) <= 2 * n + d * pow2(k)
            &&& 2 * n <= 2 * (u * d) + d * pow2(k)
            &&& u == nearest_even(n, d * pow2(k)) * pow2(k)
            &&& nearest_even(n, d * pow2(k)) <= pow2(p)
            &&& k == 0 || nearest_even(n, d * pow2(k)) >= pow2((p - 1) as nat)
        }),
{
    let k = binade(n, d, p);
    lemma_binade(n, d, p);
    let b = pow2(k);
    lemma_pow2_pos(k);
    let dk = d * b;
    assert(dk > 0) by (nonlinear_arith)
        requires
            dk == d * b,
            d > 0,
            b > 0,
    ;
    let q = n / dk;
    let r = n % dk;
    let mant = nearest_even(n, dk);
    lemma_fundamental_div_mod(n as int, dk as int);
    lemma_mod_bound(n as int, dk as int);
    lemma_pow2_adds(p, k);
    assert(d * pow2(p + k) == dk * pow2(p)) by (nonlinear_arith)
        requires
            dk == d * b,
            pow2(p + k) == pow2(p) * b,
    ;
    assert(q < pow2(p)) by (nonlinear_arith)
        requires
            dk * q <= n,
            n < dk * pow2(p),
            dk > 0,
    ;
    if k > 0 {
        let h = pow2((p - 1) as nat);
        lemma_pow2_adds((p - 1) as nat, k);
        assert(d * pow2((p + k - 1) as nat) == dk * h) by (nonlinear_arith)
            requires
                dk == d * b,
                pow2((p + k - 1) as nat) == h * b,
        ;
        assert(q >= h) by (nonlinear_arith)
            requires
                n == dk * q + r,
                r < dk,
                n >= dk * h,
                dk > 0,
        ;
    }
    lemma_units_of(k, mant, p);
    let u = mant * b;
    assert(u * d == dk * mant) by (nonlinear_arith)
        requires
            u == mant * b,
            dk == d * b,
    ;
    assert(dk * (q + 1) == dk * q + dk) by (nonlinear_arith);
}

/// A value of at most `p` bits is kept as it is.
pub proof fn lemma_round_exact(n: nat, d: nat, m: nat, e: nat, p: nat)
    requires
        d > 0,
        p > 0,
        m < pow2(p),
        n == d * (m * pow2(e)),
    ensures
        units(round_magnitude(n, d, p), p) == m * pow2(e),
{
    let k = binade(n, d, p);
    lemma_binade(n, d, p);
    lemma_round_error(n, d, p);
    lemma_pow2_pos(k);
    lemma_pow2_pos(e);
    if k > e {
        if p + e < p + k - 1 {
            lemma_pow2_strictly_increases(p + e, (p + k - 1) as nat);
        }
        lemma_pow2_adds(p, e);
        assert(m * pow2(e) < pow2(p) * pow2(e)) by (nonlinear_arith)
            requires
                m < pow2(p),
                pow2(e) > 0,
        ;
        assert(d * (m * pow2(e)) < d * pow2((p + k - 1) as nat)) by (nonlinear_arith)
            requires
                m * pow2(e) < pow2((p + k - 1) as nat),
                d > 0,
        ;
    }
    let v = m * pow2((e - k) as nat);
    let dk = d * pow2(k);
    lemma_pow2_adds(k, (e - k) as nat);
    assert(dk > 0) by (nonlinear_arith)
        requires
            dk == d * pow2(k),
            d > 0,
            pow2(k) > 0,
    ;
    assert(n == dk * v) by (nonlinear_arith)
        requires
            n == d * (m * pow2(e)),
            pow2(e) == pow2(k) * pow2((e - k) as nat),
            dk == d * pow2(k),
            v == m * pow2((e - k) as nat),
    ;
    lemma_fundamental_div_mod_converse(n as int, dk as int, v as int, 0);
    assert(v * pow2(k) == m * pow2(e)) by (nonlinear_arith)
        requires
            v == m * pow2((e - k) as nat),
            pow2(e) == pow2(k) * pow2((e - k) as nat),
    ;
}

/// Rounding keeps the order of values.
pub proof fn lemma_round_monotone(n1: nat, d1: nat, n2: nat, d2: nat, p: nat)
    requires
        d1 > 0,
        d2 > 0,
        p > 0,
        n1 * d2 <= n2 * d1,
    ensures
        round_magnitude(n1, d1, p) <= round_magnitude(n2, d2, p),
{
    let k1 = binade(n1, d1, p);
    let k2 = binade(n2, d2, p);
    let h = pow2((p - 1) as nat);
    lemma_binade(n1, d1, p);
    lemma_binade(n2, d2, p);
    lemma_round_error(n1, d1, p);
    lemma_round_error(n2, d2, p);
    lemma_pow2_unfold(p);
    let m1 = nearest_even(n1, d1 * pow2(k1));
    let m2 = nearest_even(n2, d2 * pow2(k2));
    if k1 > k2 {
        // Then n2 / d2 lies below the binade of n1 / d1.
        if p + k2 < p + k1 - 1 {
            lemma_pow2_strictly_increases(p + k2, (p + k1 - 1) as nat);
        }
        let top = pow2(p + k2);
        let bot = pow2((p + k1 - 1) as nat);
        assert(n2 * d1 < n1 * d2) by (nonlinear_arith)
            requires
                n2 < d2 * top,
                n1 >= d1 * bot,
                bot >= top,
                d1 > 0,
                d2 > 0,
        ;
    } else if k1 < k2 {
        assert(k1 * h + m1 <= k2 * h + m2) by (nonlinear_arith)
            requires
                k1 + 1 <= k2,
                m1 <= 2 * h,
                m2 >= h,
                h >= 0,
        ;
    } else {
        let b = pow2(k1);
        lemma_pow2_pos(k1);
        let e1 = d1 * b;
        let e2 = d2 * b;
        assert(e1 > 0 && e2 > 0) by (nonlinear_arith)
            requires
                e1 == d1 * b,
                e2 == d2 * b,
                d1 > 0,
                d2 > 0,
                b > 0,
        ;
        // Over the common denominator e1 * e2.
        assert(n1 * e2 <= n2 * e1) by (nonlinear_arith)
            requires
                n1 * d2 <= n2 * d1,
                e1 == d1 * b,
                e2 == d2 * b,
        ;
        lemma_nearest_even_scale(n1, e1, e2);
        lemma_nearest_even_scale(n2, e2, e1);
        lemma_mul_is_commutative(e1 as int, e2 as int);
        assert(e1 * e2 > 0) by (nonlinear_arith)
            requires
                e1 > 0,
                e2 > 0,
        ;
        lemma_nearest_even_monotone(n1 * e2, n2 * e1, e1 * e2);
    }
}

proof fn lemma_nearest_even_monotone(n1: nat, n2: nat, d: nat)
    requires
        d > 0,
        n1 <= n2,
    ensures
        nearest_even(n1, d) <= nearest_even(n2, d),
{
    lemma_fundamental_div_mod(n1 as int, d as int);
    lemma_fundamental_div_mod(n2 as int, d as int);
    lemma_mod_bound(n1 as int, d as int);
    lemma_mod_bound(n2 as int, d as int);
    lemma_div_is_ordered(n1 as int, n2 as int, d as int);
}

} // verus!
