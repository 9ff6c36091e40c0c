//! What the summary of cluster sizes says: their mean, and how far they are from it.
use crate::balance::{lemma_members_total, mean_size, members_squared, members_total, size_deviation};
use crate::centroids::members;
use crate::errors::{
    close, lemma_close_cancelled, lemma_close_chain, lemma_close_product, lemma_close_scaled, lemma_close_symmetric,
    lemma_difference_error, lemma_integer_error, lemma_quotient_error, lemma_root_error_any, lemma_root_finite,
};
use crate::lengths::{lemma_nearest_finite, lemma_product_error, lemma_product_finite, magnitude, near};
use crate::numbers::{lemma_minus, lemma_nearest_single, lemma_order_of_values};
use crate::single::{lemma_below, Single, ZERO};
use vstd::arithmetic::power2::*;
use vstd::prelude::*;

verus! {

/// The squared differences between `k` times a size and the number of samples, over the first `c` of
/// the `k` clusters, added up. Divided by `k` three times, that is the mean of the squared
/// differences between the sizes and their mean.
pub open spec fn squared_differences(assignments: Seq<u32>, n: nat, k: nat, c: nat) -> int
    decreases c,
{
    if c == 0 {
        0
    } else {
        let x = k * members(assignments, c - 1, n) - n;
        squared_differences(assignments, n, k, (c - 1) as nat) + x * x
    }
}

/// `sum (k m - n)^2 = k^2 sum m^2 - 2 k n sum m + c n^2`.
proof fn lemma_squared_differences(assignments: Seq<u32>, n: nat, k: nat, c: nat)
    ensures
        squared_differences(assignments, n, k, c) == k * k * members_squared(assignments, n, c) - 2 * k * n
            * members_total(assignments, n, c) + c * n * n,
        squared_differences(assignments, n, k, c) >= 0,
    decreases c,
{
    if c > 0 {
        lemma_squared_differences(assignments, n, k, (c - 1) as nat);
        let m = members(assignments, c - 1, n);
        let q = members_squared(assignments, n, (c - 1) as nat);
        let s = members_total(assignments, n, (c - 1) as nat);
        let x = k * m - n;
        assert(x * x == k * k * (m * m) - 2 * k * n * m + n * n && x * x >= 0) by (nonlinear_arith)
            requires
                x == k * m - n,
        ;
        assert(k * k * (q + m * m) == k * k * q + k * k * (m * m)) by (nonlinear_arith);
        assert(2 * k * n * (s + m) == 2 * k * n * s + 2 * k * n * m) by (nonlinear_arith);
        assert(c * n * n == (c - 1) * n * n + n * n) by (nonlinear_arith);
    } else {
        assert(k * k * 0 == 0 && 2 * k * n * 0 == 0 && 0 * n * n == 0) by (nonlinear_arith);
    }
}

/// No cluster has more members than squares of them.
proof fn lemma_total_below_squared(assignments: Seq<u32>, n: nat, k: nat)
    ensures
        members_total(assignments, n, k) <= members_squared(assignments, n, k),
    decreases k,
{
    if k > 0 {
        lemma_total_below_squared(assignments, n, (k - 1) as nat);
        let m = members(assignments, k - 1, n);
        assert(m <= m * m) by (nonlinear_arith)
            requires
                m >= 0,
        ;
    }
}

/// An integer divided by an integer, both of 64 bits.
proof fn lemma_integer_quotient(a: nat, k: nat)
    requires
        a <= u64::MAX,
        0 < k <= u64::MAX,
    ensures
        ({
            let q = Single::from_nat(a).over(Single::from_nat(k));
            &&& q.is_finite()
            &&& q.units() >= 0
            &&& close(q.units() * k, (a * pow2(149)) as int, 6)
        }),
{
    let t = pow2(149) as int;
    lemma_pow2_pos(149);
    let x = Single::from_nat(a);
    let y = Single::from_nat(k);
    lemma_integer_error(a);
    lemma_integer_error(k);
    lemma_pow2_pos(148);
    let u = x.units();
    let w = y.units();
    // Neither too large nor too small.
    lemma_pow2_adds(64, 149);
    lemma_pow2_adds(1, 213);
    lemma_pow2_adds(23, 214);
    lemma_pow2_adds(148, 149);
    lemma_pow2_adds(270, 148);
    lemma2_to64();
    lemma2_to64_rest();
    lemma_pow2_strictly_increases(237, 297);
    assert(w <= pow2(214) && u <= pow2(214)) by {
        assert(a * t <= pow2(213) && k * t <= pow2(213)) by (nonlinear_arith)
            requires
                a <= 0xffff_ffff_ffff_ffff,
                k <= 0xffff_ffff_ffff_ffff,
                pow2(213) == 0x1_0000_0000_0000_0000 * t,
                t > 0,
        ;
    }
    assert(u > 0 ==> u * t >= 0x80_0000 * w) by {
        if a == 0 {
            assert(0 * t == 0);
            assert(u == 0);
        } else {
            assert(u * t >= pow2(148) * t) by (nonlinear_arith)
                requires
                    u >= pow2(148),
                    t > 0,
            ;
        }
    }
    let q = x.over(y);
    assert(q.is_finite()) by {
        reveal(Single::over);
        let f = crate::ieee::Format::single();
        crate::ieee::lemma_format(f);
        lemma_order_of_values(x, y);
        lemma_order_of_values(y, x);
        crate::ieee::lemma_units_sign(f, x.parts().mag as nat);
        crate::ieee::lemma_units_sign(f, y.parts().mag as nat);
        let v = u * t;
        lemma_pow2_adds(214, 149);
        lemma_pow2_strictly_increases(363, 418);
        assert(0 <= v <= pow2(270) * w) by (nonlinear_arith)
            requires
                v == u * t,
                0 <= u <= pow2(214),
                pow2(363) == pow2(214) * t,
                pow2(363) < pow2(418),
                pow2(418) == pow2(270) * pow2(148),
                w >= pow2(148),
                t > 0,
                pow2(270) >= 0,
        ;
        lemma_nearest_finite(v, w as nat);
        let r = crate::ieee::quotient(f, x.parts(), y.parts());
        crate::single::lemma_of_parts(r);
        crate::single::lemma_of_parts(crate::ieee::rounded(f, false, v as nat, w as nat));
    }
    lemma_quotient_error(x, y);
    let z = q.units();
    let kt = k * t;
    assert(kt > 0) by (nonlinear_arith)
        requires
            kt == k * t,
            k > 0,
            t > 0,
    ;
    lemma_close_symmetric(w, kt, 1);
    lemma_close_scaled(kt, w, 2, z);
    assert(u * t >= 0) by (nonlinear_arith)
        requires
            u >= 0,
            t > 0,
    ;
    lemma_close_chain(z * kt, z * w, u * t, 2, 1);
    assert(z * kt == (z * k) * t) by (nonlinear_arith)
        requires
            kt == k * t,
    ;
    lemma_close_cancelled(z * k, u, 4, t);
    assert(a * t >= 0) by (nonlinear_arith)
        requires
            t > 0,
            a >= 0,
    ;
    lemma_close_chain(z * k, u, a * t, 4, 1);
}

/// The mean size is the number of samples divided by the number of clusters, but for rounding.
pub proof fn law_mean_size(assignments: Seq<u32>, n: nat, k: nat)
    requires
        n <= assignments.len(),
        n <= u64::MAX,
        0 < k <= u64::MAX,
        forall|i: int| 0 <= i < n ==> #[trigger] assignments[i] < k,
    ensures
        mean_size(assignments, n, k).is_finite(),
        mean_size(assignments, n, k).units() >= 0,
        close(mean_size(assignments, n, k).units() * k, (n * pow2(149)) as int, 6),
{
    lemma_members_total(assignments, n, k);
    lemma_integer_quotient(n, k);
}

/// The numbers that a deviation is made of, all brought to the same scale: `kq` and `nn` for the
/// squares, the mean of the squares `v`, the squared mean `m`, their difference `x`, cut at zero to
/// `l`, and the square `r` of its root.
proof fn lemma_deviation(kq: int, nn: int, v: int, m: int, x: int, l: int, r: int)
    requires
        0 <= nn <= kq,
        close(v, kq, 6),
        near(m, nn, 15 * nn + kq),
        0 <= v,
        0 <= m,
        near(x, v - m, magnitude(x)),
        l == if x < 0 {
            0
        } else {
            x
        },
        near(r, l, 3 * l + kq),
    ensures
        near(r, kq - nn, 32 * kq),
{
    assert(0x100_0000 * v <= 0x100_0006 * kq);
    assert(0x100_0000 * m <= 0x100_0010 * kq);
    assert(magnitude(x) <= 2 * kq);
    assert(magnitude(v - m) <= 2 * kq);
}

proof fn lemma_squared_mean(ak: int, nn: int, m: int, e: int, kq: int)
    requires
        close(ak, nn, 13),
        0 <= nn,
        near(m, ak, ak + e),
        e <= kq,
    ensures
        near(m, nn, 15 * nn + kq),
{
    assert(0x100_0000 * ak <= 0x100_000d * nn);
}

/// The square of the deviation is the mean of the squared differences between the sizes and their
/// mean, but for rounding: it is off by at most `32 * 2^-24` of the mean of the squared sizes.
pub proof fn law_size_deviation(assignments: Seq<u32>, n: nat, k: nat)
    requires
        n <= assignments.len(),
        0 < n,
        0 < k <= u64::MAX,
        forall|i: int| 0 <= i < n ==> #[trigger] assignments[i] < k,
        members_squared(assignments, n, k) <= u64::MAX,
    ensures
        ({
            let s = size_deviation(assignments, n, k);
            &&& s.is_finite()
            &&& s.units() >= 0
            &&& near(
                (k * k * k) * (s.units() * s.units()),
                squared_differences(assignments, n, k, k) * pow2(298),
                (32 * ((k * k) * members_squared(assignments, n, k) * pow2(298))) as int,
            )
        }),
{
    let t = pow2(149) as int;
    let tt = t * t;
    let q = members_squared(assignments, n, k);
    lemma_pow2_pos(149);
    lemma_pow2_adds(149, 149);
    lemma_members_total(assignments, n, k);
    lemma_total_below_squared(assignments, n, k);
    lemma_squared_differences(assignments, n, k, k);
    lemma_integer_quotient(q, k);
    lemma_integer_quotient(n, k);
    let big = Single::from_nat(q).over(Single::from_nat(k));
    let mean = mean_size(assignments, n, k);
    let v = big.units();
    let a = mean.units();
    // The squared mean does not exceed the mean of the squares.
    let kq0 = k * q;
    let nn0 = n * n;
    let dev = squared_differences(assignments, n, k, k);
    assert(dev == k * (kq0 - nn0)) by (nonlinear_arith)
        requires
            dev == k * k * q - 2 * k * n * n + k * n * n,
            kq0 == k * q,
            nn0 == n * n,
    ;
    assert(nn0 <= kq0) by (nonlinear_arith)
        requires
            k * (kq0 - nn0) >= 0,
            k > 0,
    ;
    let kq = kq0 * tt;
    let nn = nn0 * tt;
    assert(0 <= nn <= kq && tt > 0) by (nonlinear_arith)
        requires
            kq == kq0 * tt,
            nn == nn0 * tt,
            nn0 == n * n,
            nn0 <= kq0,
            tt == t * t,
            t > 0,
    ;
    let kk = k * k;
    assert(kk > 0) by (nonlinear_arith)
        requires
            kk == k * k,
            k > 0,
    ;
    // The squared mean.
    lemma_sizes_fit(mean, big, n, k, q);
    let square = mean.times(mean);
    lemma_product_error(mean, mean);
    let s2 = square.units();
    assert(s2 >= 0) by {
        crate::numbers::law_square_not_below_zero(mean);
        lemma_order_of_values(square, square);
    }
    assert(q * t >= 0 && n * t >= 0) by (nonlinear_arith)
        requires
            t > 0,
            q >= 0,
            n >= 0,
    ;
    lemma_close_product(a * k, n * t, 6, a * k, n * t, 6);
    assert((a * k) * (a * k) == (a * a) * kk && (n * t) * (n * t) == nn) by (nonlinear_arith)
        requires
            kk == k * k,
            nn == (n * n) * (t * t),
    ;
    let m = s2 * t * kk;
    let aa = a * a;
    assert(aa >= 0) by (nonlinear_arith)
        requires
            aa == a * a,
    ;
    assert(near(m, aa * kk, aa * kk + 0x80_0000 * t * kk)) by (nonlinear_arith)
        requires
            near(s2 * t, aa, aa + 0x80_0000 * t),
            m == s2 * t * kk,
            kk > 0,
    ;
    lemma_pow2_adds(64, 23);
    lemma2_to64();
    lemma2_to64_rest();
    lemma_pow2_strictly_increases(87, 149);
    assert(0x80_0000 * t * kk <= kq) by (nonlinear_arith)
        requires
            kk == k * k,
            k <= 0xffff_ffff_ffff_ffff,
            kq == (k * q) * (t * t),
            q >= 1,
            k >= 1,
            t >= 0x80_0000_0000_0000_0000_0000,
    ;
    lemma_squared_mean(aa * kk, nn, m, 0x80_0000 * t * kk, kq);
    // The mean of the squares.
    let vv = v * t * kk;
    assert(close(vv, kq, 6)) by {
        lemma_close_scaled(v * k, q * t, 6, k * t);
        assert((v * k) * (k * t) == vv && (q * t) * (k * t) == kq) by (nonlinear_arith)
            requires
                vv == v * t * kk,
                kk == k * k,
                kq == (k * q) * (t * t),
        ;
    }
    assert(vv >= 0 && m >= 0) by (nonlinear_arith)
        requires
            vv == v * t * kk,
            m == s2 * t * kk,
            v >= 0,
            s2 >= 0,
            t > 0,
            kk > 0,
    ;
    // Their difference.
    let diff = big.minus(square);
    lemma_difference_error(big, square);
    let x0 = diff.units();
    let x = x0 * t * kk;
    assert(near(x, vv - m, magnitude(x))) by {
        let e = t * kk;
        assert(e > 0) by (nonlinear_arith)
            requires
                e == t * kk,
                t > 0,
                kk > 0,
        ;
        assert(x == x0 * e && vv == v * e && m == s2 * e) by (nonlinear_arith)
            requires
                x == x0 * t * kk,
                vv == v * t * kk,
                m == s2 * t * kk,
                e == t * kk,
        ;
        assert(near(x0 * e, v * e - s2 * e, magnitude(x0) * e)) by (nonlinear_arith)
            requires
                near(x0, v - s2, magnitude(x0)),
                e > 0,
        ;
        assert(magnitude(x0 * e) == magnitude(x0) * e) by (nonlinear_arith)
            requires
                e > 0,
        ;
    }
    // Cut at zero, and its root.
    let zero = Single { bits: ZERO };
    let cut = diff.larger(zero);
    crate::searches::lemma_ends();
    lemma_below(diff, zero);
    crate::exact::lemma_zero();
    lemma_order_of_values(diff, zero);
    lemma_order_of_values(zero, diff);
    let l0 = cut.units();
    assert(0 * pow2(149) == 0);
    assert(zero.units() == 0);
    assert(l0 == if x0 < 0 {
        0
    } else {
        x0
    });
    lemma_order_of_values(cut, cut);
    lemma_root_finite(cut);
    lemma_root_error_any(cut);
    let s = cut.root();
    let ss = s.units() * s.units();
    let l = l0 * t * kk;
    assert(l == if x < 0 {
        0
    } else {
        x
    }) by (nonlinear_arith)
        requires
            l == l0 * t * kk,
            x == x0 * t * kk,
            l0 == if x0 < 0 {
                0
            } else {
                x0
            },
            t > 0,
            kk > 0,
    ;
    let r = kk * ss;
    assert(0x2_0000_0000_0000 * kk <= kq) by (nonlinear_arith)
        requires
            kk == k * k,
            k <= 0xffff_ffff_ffff_ffff,
            kq == (k * q) * (t * t),
            q >= 1,
            k >= 1,
            t >= 0x80_0000_0000_0000_0000_0000,
    ;
    assert(near(r, l, 3 * l + kq)) by {
        assert(near(kk * ss, kk * (l0 * t), kk * (3 * (l0 * t)) + kk * 0x2_0000_0000_0000)) by (nonlinear_arith)
            requires
                near(ss, l0 * t, 3 * (l0 * t) + 0x2_0000_0000_0000),
                kk > 0,
        ;
        assert(kk * (l0 * t) == l && kk * (3 * (l0 * t)) == 3 * l) by (nonlinear_arith)
            requires
                l == l0 * t * kk,
        ;
    }
    lemma_deviation(kq, nn, vv, m, x, l, r);
    // In terms of the differences.
    assert(near(k * r, k * (kq - nn), k * (32 * kq))) by (nonlinear_arith)
        requires
            near(r, kq - nn, 32 * kq),
            k > 0,
    ;
    assert(k * r == (k * k * k) * ss) by (nonlinear_arith)
        requires
            r == kk * ss,
            kk == k * k,
    ;
    assert(k * (kq - nn) == dev * tt) by (nonlinear_arith)
        requires
            kq == kq0 * tt,
            nn == nn0 * tt,
            dev == k * (kq0 - nn0),
    ;
    assert(k * (32 * kq) == 32 * ((k * k) * q * tt)) by (nonlinear_arith)
        requires
            kq == (k * q) * tt,
    ;
}

/// Means of 64-bit integers can be squared and subtracted.
proof fn lemma_sizes_fit(mean: Single, big: Single, n: nat, k: nat, q: nat)
    requires
        mean.is_finite(),
        mean.units() >= 0,
        big.is_finite(),
        big.units() >= 0,
        q <= u64::MAX,
        0 < k,
        n * n <= k * q,
        close(mean.units() * k, (n * pow2(149)) as int, 6),
        close(big.units() * k, (q * pow2(149)) as int, 6),
    ensures
        mean.times(mean).is_finite(),
        big.minus(mean.times(mean)).is_finite(),
{
    let t = pow2(149) as int;
    let a = mean.units();
    let v = big.units();
    lemma_pow2_pos(149);
    lemma_pow2_adds(64, 149);
    lemma_pow2_adds(1, 213);
    lemma_pow2_adds(1, 214);
    lemma_pow2_adds(1, 215);
    lemma2_to64();
    lemma_pow2_strictly_increases(215, 270);
    lemma_pow2_strictly_increases(216, 270);
    assert(q * t <= pow2(213)) by (nonlinear_arith)
        requires
            q <= 0xffff_ffff_ffff_ffff,
            pow2(213) == 0x1_0000_0000_0000_0000 * t,
            t > 0,
    ;
    assert(v <= v * k) by (nonlinear_arith)
        requires
            v >= 0,
            k >= 1,
    ;
    assert(v <= pow2(214));
    let nt = n * t;
    assert(nt >= 0) by (nonlinear_arith)
        requires
            nt == n * t,
            n >= 0,
            t > 0,
    ;
    let ak = a * k;
    assert(0 <= ak) by (nonlinear_arith)
        requires
            ak == a * k,
            a >= 0,
            k >= 1,
    ;
    assert(5 * ak <= 6 * nt);
    assert(25 * (ak * ak) <= 36 * (nt * nt)) by (nonlinear_arith)
        requires
            0 <= 5 * ak <= 6 * nt,
    ;
    let aa = a * a;
    assert(ak * ak == aa * (k * k) && nt * nt == (n * n) * (t * t)) by (nonlinear_arith)
        requires
            ak == a * k,
            nt == n * t,
            aa == a * a,
    ;
    assert((n * n) * (t * t) <= (k * q) * (t * t)) by (nonlinear_arith)
        requires
            n * n <= k * q,
            t > 0,
    ;
    assert(aa * k <= 2 * (q * (t * t))) by (nonlinear_arith)
        requires
            25 * (aa * (k * k)) <= 36 * ((k * q) * (t * t)),
            k > 0,
            q * (t * t) >= 0,
    ;
    assert(0 <= aa <= aa * k) by (nonlinear_arith)
        requires
            aa == a * a,
            k >= 1,
    ;
    assert(q * (t * t) == (q * t) * t) by (nonlinear_arith);
    assert(aa <= pow2(214) * t) by (nonlinear_arith)
        requires
            aa <= 2 * ((q * t) * t),
            q * t <= pow2(213),
            pow2(214) == 2 * pow2(213),
            t > 0,
    ;
    assert(pow2(214) * t <= pow2(270) * t) by (nonlinear_arith)
        requires
            pow2(214) <= pow2(270),
            t > 0,
    ;
    lemma_product_finite(mean, mean);
    lemma_product_error(mean, mean);
    let square = mean.times(mean);
    let s2 = square.units();
    crate::numbers::law_square_not_below_zero(mean);
    lemma_order_of_values(square, square);
    lemma_pow2_strictly_increases(24, 214);
    lemma2_to64_rest();
    assert(s2 <= pow2(215)) by (nonlinear_arith)
        requires
            0x100_0000 * (s2 * t - aa) <= aa + 0x80_0000 * t,
            aa <= pow2(214) * t,
            pow2(215) == 2 * pow2(214),
            pow2(214) >= 0x100_0000,
            t > 0,
    ;
    let w = v - s2;
    assert(magnitude(w) <= pow2(270) * 1);
    lemma_nearest_finite(w, 1);
    lemma_minus(big, square);
    lemma_nearest_single(w, w, 1);
}

} // verus!
