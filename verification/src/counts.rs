//! What the counts come to that are computed from shares: how many vectors are clustered, how many
//! clusters a mesocluster gets, how many mesoclusters there are, and which share was not pruned.
use crate::double::{lemma_from_nat, lemma_proportion, one, Double};
use crate::doubles::{
    amount, lemma_narrowed_close, lemma_over_close, lemma_root_close, lemma_times_close, lemma_widened_close,
};
use crate::errors::{
    close, lemma_close_cancelled, lemma_close_chain, lemma_close_scaled,
};
use crate::hierarchical::{hierarchical_sample_count, mesocluster_count};
use crate::ieee::{lemma_format, Format};
use crate::partition::{allocation, count_sum};
use crate::single::{Single, ONE};
use crate::superkmeans::{not_pruned_share, total_count, Model};
use vstd::arithmetic::div_mod::*;
use vstd::arithmetic::power2::*;
use vstd::prelude::*;

verus! {

/// `r` is the integer part of `n` times `f`, but for rounding.
pub open spec fn is_part(r: nat, n: nat, f: Single) -> bool {
    &&& 0x100_0000 * (r * pow2(149) - n * f.units()) <= 3 * (n * f.units())
    &&& 0x100_0000 * (n * f.units() - (r + 1) * pow2(149)) < 3 * (n * f.units())
}

#[verifier::rlimit(30)]
proof fn lemma_part(n: nat, f: Single, max: nat)
    requires
        0 < n < 0x20_0000_0000_0000,
        n <= max,
        f.is_finite(),
        pow2(100) <= f.units() <= pow2(149),
        Double::from_nat(n).times(f.widened()).whole(max) <= n,
        n < max,
    ensures
        is_part(Double::from_nat(n).times(f.widened()).whole(max), n, f),
{
    reveal(Double::whole);
    let t = pow2(1074);
    let w = pow2(149);
    lemma_pow2_pos(1074);
    lemma_pow2_pos(149);
    lemma_pow2_pos(100);
    lemma_from_nat(n);
    lemma_widened_close(f);
    let e = f.units();
    let a = Double::from_nat(n);
    let b = f.widened();
    let g = amount(b);
    assert(amount(a) == n * t) by (nonlinear_arith)
        requires
            amount(a) == one() * n,
            one() == t,
    ;
    // The factor is neither too small nor too large.
    let et = e * t;
    lemma_pow2_adds(100, 1074);
    lemma_pow2_adds(149, 1074);
    lemma_pow2_adds(1, 1173);
    lemma_pow2_adds(1024, 149);
    lemma_pow2_adds(1, 1074);
    lemma_pow2_adds(1, 1223);
    lemma_pow2_adds(1075, 149);
    lemma2_to64();
    lemma2_to64_rest();
    assert(pow2(1174) <= et <= pow2(1223)) by (nonlinear_arith)
        requires
            et == e * t,
            pow2(100) <= e <= pow2(149),
            pow2(1174) == pow2(100) * t,
            pow2(1223) == pow2(149) * t,
            t > 0,
    ;
    assert(2 * (g * w) >= et && g * w <= 2 * et);
    assert(pow2(1024) <= g <= pow2(1075)) by (nonlinear_arith)
        requires
            2 * (g * w) >= pow2(1174),
            pow2(1174) == 2 * pow2(1173),
            pow2(1173) == pow2(1024) * w,
            g * w <= 2 * pow2(1223),
            pow2(1224) == 2 * pow2(1223),
            pow2(1224) == pow2(1075) * w,
            w > 0,
    ;
    let nt = n * t;
    lemma_pow2_adds(1024, 1074);
    lemma_pow2_adds(23, 1074);
    lemma_pow2_adds(53, 1075);
    lemma_pow2_strictly_increases(1097, 2098);
    lemma_pow2_strictly_increases(1128, 2000);
    lemma_pow2_strictly_increases(23, 1024);
    lemma_pow2_pos(1075);
    assert(nt * g >= 0x80_0000 * t && nt * g <= t * pow2(2000)) by (nonlinear_arith)
        requires
            nt == n * t,
            1 <= n <= 0x20_0000_0000_0000,
            pow2(1024) <= g <= pow2(1075),
            0x80_0000 < pow2(1024),
            pow2(1128) == 0x20_0000_0000_0000 * pow2(1075),
            pow2(1128) < pow2(2000),
            t > 0,
    ;
    lemma_times_close(a, b);
    let p = amount(a.times(b));
    assert(nt * g == (n * g) * t) by (nonlinear_arith)
        requires
            nt == n * t,
    ;
    lemma_close_cancelled(p, n * g, 1, t as int);
    lemma_close_scaled(p, n * g, 1, w as int);
    lemma_close_scaled(g * w, et, 1, n as int);
    assert((n * g) * w == (g * w) * n && et * n == (n * e) * t) by (nonlinear_arith)
        requires
            et == e * t,
    ;
    let ne = n * e;
    assert(ne * t >= 0) by (nonlinear_arith)
        requires
            ne == n * e,
            n >= 0,
            e >= 0,
            t > 0,
    ;
    lemma_close_chain(p * w, (n * g) * w, ne * t, 1, 1);
    // Cut down.
    lemma_format(Format::double());
    let r = a.times(b).whole(max);
    let q = p / (t as int);
    lemma_fundamental_div_mod(p, t as int);
    lemma_mod_bound(p, t as int);
    assert(t * q == q * t) by (nonlinear_arith);
    assert(r == q) by {
        assert(p as nat / t == q);
    }
    let rw = r * w;
    lemma_cut(r as int, p, w as int, t as int, ne as int);
    assert((r + 1) * w == rw + w) by (nonlinear_arith)
        requires
            rw == r * w,
    ;
}

proof fn lemma_cut(r: int, p: int, w: int, t: int, ne: int)
    requires
        r * t <= p < r * t + t,
        close(p * w, ne * t, 3),
        0 < t,
        0 < w,
    ensures
        0x100_0000 * (r * w - ne) <= 3 * ne,
        0x100_0000 * (ne - r * w - w) < 3 * ne,
{
    let rw = r * w;
    let rt = r * t;
    assert(rw * t == rt * w && (rw + w) * t == (rt + t) * w) by (nonlinear_arith)
        requires
            rw == r * w,
            rt == r * t,
    ;
    assert(rt * w <= p * w && p * w < (rt + t) * w) by (nonlinear_arith)
        requires
            rt <= p < rt + t,
            w > 0,
    ;
    let x = rw - ne;
    let y = ne - rw - w;
    assert(x * t == rw * t - ne * t && y * t == ne * t - (rw + w) * t) by (nonlinear_arith)
        requires
            x == rw - ne,
            y == ne - rw - w,
    ;
    assert(0x100_0000 * x <= 3 * ne) by (nonlinear_arith)
        requires
            0x100_0000 * (x * t) <= 3 * (ne * t),
            t > 0,
    ;
    assert(0x100_0000 * y < 3 * ne) by (nonlinear_arith)
        requires
            0x100_0000 * (y * t) < 3 * (ne * t),
            t > 0,
    ;
}

/// A share from just above 0 up to 1.
pub open spec fn is_fraction(f: Single) -> bool {
    f.is_finite() && pow2(100) <= f.units() <= pow2(149)
}

proof fn lemma_fraction(n: nat, f: Single, max: nat)
    requires
        n < 0x20_0000_0000_0000,
        is_fraction(f),
    ensures
        Double::from_nat(n).times(f.widened()).whole(max) <= n,
{
    let zero = Single { bits: crate::single::ZERO };
    crate::exact::lemma_zero();
    crate::numbers::lemma_one();
    lemma_pow2_pos(100);
    lemma_pow2_pos(149);
    crate::numbers::lemma_order_of_values(f, Single { bits: ONE });
    crate::numbers::lemma_order_of_values(zero, f);
    assert(zero.below(f) && !(Single { bits: ONE }).below(f)) by {
        reveal(Single::below);
    }
    crate::double::lemma_share(n, f, max);
}

/// Without hierarchies, the vectors that are clustered are the given share of all, unless that is
/// more than the clusters may have: then they are as many as the clusters may have.
pub proof fn law_sample_count(m: Model, n: nat)
    requires
        0 < n < 0x20_0000_0000_0000,
        n < usize::MAX,
        is_fraction(m.config.sampling_fraction),
    ensures
        m.config.sampling_fraction.bits == ONE ==> m.sample_count(n) == n,
        m.config.sampling_fraction.bits != ONE ==> {
            let r = m.sample_count(n);
            let cap = m.n_clusters * m.config.max_points_per_cluster;
            &&& r <= cap
            &&& r <= n
            &&& r == cap || is_part(r, n, m.config.sampling_fraction)
        },
        m.config.sampling_fraction.bits != ONE ==> exists|r: nat| #[trigger]
            is_part(r, n, m.config.sampling_fraction) && m.sample_count(n) <= r,
{
    let f = m.config.sampling_fraction;
    lemma_fraction(n, f, usize::MAX as nat);
    lemma_part(n, f, usize::MAX as nat);
    let r = Double::from_nat(n).times(f.widened()).whole(usize::MAX as nat);
    assert(is_part(r, n, f));
}

/// With hierarchies, they are the given share of all.
pub proof fn law_hierarchical_sample_count(f: Single, n: nat)
    requires
        0 < n < 0x20_0000_0000_0000,
        n < usize::MAX,
        is_fraction(f),
    ensures
        f.bits == ONE ==> hierarchical_sample_count(f, n) == n,
        f.bits != ONE ==> is_part(hierarchical_sample_count(f, n), n, f) && hierarchical_sample_count(f, n) <= n,
{
    lemma_fraction(n, f, usize::MAX as nat);
    lemma_part(n, f, usize::MAX as nat);
}

/// The number of mesoclusters is the integer next to the square root of the number of clusters, but
/// for rounding.
pub proof fn law_mesocluster_count(k: nat)
    requires
        0 < k < u32::MAX,
    ensures
        ({
            let r = mesocluster_count(k) as int;
            &&& 0x100_0000 * ((2 * r - 1) * (2 * r - 1)) <= 0x100_0003 * (4 * k)
            &&& 0xff_fffd * (4 * k) < 0x100_0000 * ((2 * r + 1) * (2 * r + 1))
            &&& r >= 1
        }),
{
    reveal(Double::closest);
    let t = pow2(1074);
    lemma_pow2_pos(1074);
    lemma_from_nat(k);
    let a = Double::from_nat(k);
    let kt = k * t;
    assert(amount(a) == kt) by (nonlinear_arith)
        requires
            amount(a) == one() * k,
            one() == t,
            kt == k * t,
    ;
    lemma_pow2_adds(32, 1074);
    lemma2_to64();
    lemma2_to64_rest();
    lemma_pow2_strictly_increases(1106, 1200);
    assert(t <= kt <= pow2(1106)) by (nonlinear_arith)
        requires
            kt == k * t,
            1 <= k <= 0xffff_ffff,
            pow2(1106) == 0x1_0000_0000 * t,
            t > 0,
    ;
    lemma_root_close(a);
    let p = amount(a.root());
    assert(k <= k * k) by (nonlinear_arith)
        requires
            k >= 1,
    ;
    crate::double::lemma_integer_root_bounds(k, 1, k, usize::MAX as nat);
    lemma_format(Format::double());
    let r = mesocluster_count(k) as int;
    let q = (2 * p + t) / (2 * (t as int));
    lemma_fundamental_div_mod(2 * p + t, 2 * (t as int));
    lemma_mod_bound(2 * p + t, 2 * (t as int));
    assert((2 * t) * q == 2 * (q * t)) by (nonlinear_arith);
    assert(r == q) by {
        assert((2 * (p as nat) + t) / (2 * t) == q);
    }
    let x = 2 * r - 1;
    let y = 2 * r + 1;
    let l = 2 * p;
    assert(x * t <= l && l < y * t) by (nonlinear_arith)
        requires
            x == 2 * r - 1,
            y == 2 * r + 1,
            l == 2 * p,
            2 * (r * t) <= 2 * p + t < 2 * (r * t) + 2 * t,
    ;
    let tt = t * t;
    let pp = p * p;
    assert(kt * t == k * tt) by (nonlinear_arith)
        requires
            kt == k * t,
            tt == t * t,
    ;
    assert((x * x) * tt <= 4 * pp && 4 * pp < (y * y) * tt) by (nonlinear_arith)
        requires
            x * t <= l,
            l < y * t,
            x >= 1,
            l >= 0,
            t > 0,
            l == 2 * p,
            pp == p * p,
            tt == t * t,
    {
        let xt = x * t;
        let yt = y * t;
        assert(xt >= 0) by (nonlinear_arith)
            requires
                xt == x * t,
                x >= 1,
                t > 0,
        ;
        assert(xt * xt <= l * l && l * l < yt * yt) by (nonlinear_arith)
            requires
                0 <= xt <= l,
                l < yt,
        ;
        assert(xt * xt == (x * x) * (t * t) && yt * yt == (y * y) * (t * t) && l * l == 4 * (p * p)) by (nonlinear_arith)
            requires
                xt == x * t,
                yt == y * t,
                l == 2 * p,
        ;
    }
    let xx = x * x;
    let yy = y * y;
    assert(tt > 0) by (nonlinear_arith)
        requires
            tt == t * t,
            t > 0,
    ;
    assert(0x100_0000 * xx <= 0x100_0003 * (4 * k)) by (nonlinear_arith)
        requires
            xx * tt <= 4 * pp,
            0x100_0000 * (pp - k * tt) <= 3 * (k * tt),
            tt > 0,
    ;
    assert(0xff_fffd * (4 * k) < 0x100_0000 * yy) by (nonlinear_arith)
        requires
            4 * pp < yy * tt,
            0x100_0000 * (k * tt - pp) <= 3 * (k * tt),
            tt > 0,
    ;
}

/// A mesocluster of `size` of `s` samples gets the integer next to `c * size / s` of `c` clusters, but
/// for rounding, unless that is none, or leaves too few for the `others`.
#[verifier::rlimit(30)]
pub proof fn law_allocation(size: u32, c: nat, s: nat, others: nat)
    requires
        0 < c <= s <= u32::MAX,
        0 < size <= s,
        size < u32::MAX,
    ensures
        ({
            let r = allocation(size, c, s, others) as int;
            let cm = c * size;
            &&& r >= 1
            &&& c > others ==> r <= c - others
            &&& r == 1 || 0x100_0000 * (2 * (r * s) - 2 * cm - s) <= 6 * cm
            &&& (c >= others && r >= c - others) || 0x100_0000 * (2 * cm - 2 * (r * s) - s) <= 6 * cm
        }),
{
    reveal(Double::closest);
    let t = pow2(1074);
    lemma_pow2_pos(1074);
    let m = size as nat;
    lemma_from_nat(c);
    lemma_from_nat(m);
    lemma_from_nat(s);
    let a = Double::from_nat(c);
    let b = Double::from_nat(m);
    let g = Double::from_nat(s);
    let ct = c * t;
    let mt = m * t;
    let st = s * t;
    assert(amount(a) == ct && amount(b) == mt && amount(g) == st) by (nonlinear_arith)
        requires
            amount(a) == one() * c,
            amount(b) == one() * m,
            amount(g) == one() * s,
            one() == t,
            ct == c * t,
            mt == m * t,
            st == s * t,
    ;
    let cm = c * m;
    assert(ct * mt == (cm * t) * t) by (nonlinear_arith)
        requires
            ct == c * t,
            mt == m * t,
            cm == c * m,
    ;
    assert(1 <= cm <= 0xffff_ffff * 0xffff_ffff) by (nonlinear_arith)
        requires
            cm == c * m,
            1 <= c <= 0xffff_ffff,
            1 <= m <= 0xffff_ffff,
    ;
    let cmt = cm * t;
    lemma_pow2_adds(64, 1074);
    lemma2_to64();
    lemma2_to64_rest();
    lemma_pow2_strictly_increases(1138, 2000);
    lemma_pow2_strictly_increases(23, 1074);
    assert(t <= cmt <= pow2(1138)) by (nonlinear_arith)
        requires
            cmt == cm * t,
            1 <= cm <= 0xffff_ffff * 0xffff_ffff,
            pow2(1138) == 0x1_0000_0000_0000_0000 * t,
            t > 0,
    ;
    assert(cmt * t >= 0x80_0000 * t && cmt * t <= t * pow2(2000)) by (nonlinear_arith)
        requires
            0x80_0000 <= t <= cmt,
            cmt <= pow2(2000),
    ;
    lemma_times_close(a, b);
    let x = amount(a.times(b));
    lemma_close_cancelled(x, cmt as int, 1, t as int);
    // The quotient.
    lemma_pow2_adds(1, 1073);
    lemma_pow2_adds(1, 1138);
    lemma_pow2_adds(32, 1074);
    lemma_pow2_adds(23, 1106);
    lemma_pow2_adds(1073, 1074);
    lemma_pow2_adds(1139, 1074);
    lemma_pow2_adds(1074, 2000);
    lemma_pow2_strictly_increases(1129, 2147);
    lemma_pow2_strictly_increases(2213, 3074);
    lemma_pow2_pos(2000);
    assert(pow2(1073) <= x <= pow2(1139));
    assert(x * t >= 0x80_0000 * st && x * t <= st * pow2(2000)) by (nonlinear_arith)
        requires
            pow2(1073) <= x <= pow2(1139),
            st == s * t,
            1 <= s <= 0xffff_ffff,
            pow2(1106) == 0x1_0000_0000 * t,
            pow2(1129) == 0x80_0000 * pow2(1106),
            pow2(2147) == pow2(1073) * t,
            pow2(1129) < pow2(2147),
            pow2(2213) == pow2(1139) * t,
            pow2(3074) == t * pow2(2000),
            pow2(2213) < pow2(3074),
            t > 0,
            pow2(2000) > 0,
    ;
    assert(st > 0) by (nonlinear_arith)
        requires
            st == s * t,
            s > 0,
            t > 0,
    ;
    lemma_over_close(a.times(b), g);
    let y = amount(a.times(b).over(g));
    assert(y * st == (y * s) * t) by (nonlinear_arith)
        requires
            st == s * t,
    ;
    lemma_close_cancelled(y * s, x, 1, t as int);
    lemma_close_chain(y * s, x, cmt as int, 1, 1);
    // Rounded to an integer.
    lemma_proportion(c, m, s, usize::MAX as nat);
    lemma_format(Format::double());
    let r = a.times(b).over(g).closest(usize::MAX as nat) as int;
    let q = (2 * y + t) / (2 * (t as int));
    lemma_fundamental_div_mod(2 * y + t, 2 * (t as int));
    lemma_mod_bound(2 * y + t, 2 * (t as int));
    assert((2 * t) * q == 2 * (q * t)) by (nonlinear_arith);
    assert(r == q) by {
        assert((2 * (y as nat) + t) / (2 * t) == q);
    }
    lemma_rounded_share(r, s as int, cm as int, y, t as int);
    let all = allocation(size, c, s, others) as int;
    assert(all * s <= r * s || all == 1) by (nonlinear_arith)
        requires
            all <= r || all == 1,
            s > 0,
    ;
    assert((c >= others && all >= c - others) || all * s >= r * s) by (nonlinear_arith)
        requires
            (c >= others && all >= c - others) || all >= r,
            s > 0,
    ;
}

proof fn lemma_rounded_share(r: int, s: int, cm: int, y: int, t: int)
    requires
        0 < t,
        0 < s,
        close(y * s, cm * t, 3),
        2 * (r * t) <= 2 * y + t < 2 * (r * t) + 2 * t,
    ensures
        0x100_0000 * (2 * (r * s) - 2 * cm - s) <= 6 * cm,
        0x100_0000 * (2 * cm - 2 * (r * s) - s) <= 6 * cm,
{
    let rs = r * s;
    assert(2 * (rs * t) <= 2 * (y * s) + s * t && 2 * (y * s) <= 2 * (rs * t) + s * t) by (nonlinear_arith)
        requires
            rs == r * s,
            2 * (r * t) <= 2 * y + t < 2 * (r * t) + 2 * t,
            s > 0,
    ;
    let x = 2 * rs - 2 * cm - s;
    let z = 2 * cm - 2 * rs - s;
    assert(x * t == 2 * (rs * t) - 2 * (cm * t) - s * t && z * t == 2 * (cm * t) - 2 * (rs * t) - s * t) by (nonlinear_arith)
        requires
            x == 2 * rs - 2 * cm - s,
            z == 2 * cm - 2 * rs - s,
    ;
    assert(0x100_0000 * x <= 6 * cm) by (nonlinear_arith)
        requires
            0x100_0000 * (x * t) <= 6 * (cm * t),
            t > 0,
    ;
    assert(0x100_0000 * z <= 6 * cm) by (nonlinear_arith)
        requires
            0x100_0000 * (z * t) <= 6 * (cm * t),
            t > 0,
    ;
}

/// Counts are added without error.
proof fn lemma_total(counts: Seq<usize>, n: nat)
    requires
        n <= counts.len(),
        count_sum(counts.take(n as int)) < 0x20_0000_0000_0000,
    ensures
        total_count(counts, n) == Double::from_nat(count_sum(counts.take(n as int))),
    decreases n,
{
    let s = counts.take(n as int);
    if n == 0 {
        lemma_from_nat(0);
        reveal(Double::from_nat);
        crate::rounding::lemma_round_zero(1, 53);
        lemma_pow2_pos(1074);
        lemma_format(Format::double());
        assert(0 * pow2(1074) == 0);
        assert(Double::from_nat(0) == (Double { bits: crate::double::ZERO }));
    } else {
        let before = counts.take(n - 1);
        assert(s.drop_last() =~= before);
        lemma_total(counts, (n - 1) as nat);
        let a = count_sum(before);
        let b = counts[n - 1] as nat;
        assert(s.last() == counts[n - 1]);
        assert(count_sum(s) == a + b);
        crate::rounding::lemma_round_zero(1, 53);
        lemma_from_nat(a);
        lemma_from_nat(b);
        reveal(Double::plus);
        reveal(Double::from_nat);
        let t = pow2(1074);
        lemma_format(Format::double());
        assert(t * a + t * b == (a + b) * t) by (nonlinear_arith);
        let v = (a + b) * t;
        assert(amount(Double::from_nat(a)) + amount(Double::from_nat(b)) == v);
        lemma_pow2_pos(1074);
        assert(v > 0 <==> a + b > 0) by (nonlinear_arith)
            requires
                v == (a + b) * t,
                t > 0,
        ;
    }
}

/// The share that was not pruned is the number of candidates left over for all samples, out of all
/// pairs of a sample and a cluster, but for rounding.
#[verifier::rlimit(30)]
pub proof fn law_not_pruned_share(counts: Seq<usize>, n: nat, k: nat)
    requires
        0 < n <= counts.len(),
        0 < k,
        n * k <= u32::MAX,
        0 < count_sum(counts.take(n as int)) <= n * k,
        not_pruned_share(counts, n, k).is_finite(),
    ensures
        close(
            not_pruned_share(counts, n, k).units() * (n * k),
            (count_sum(counts.take(n as int)) * pow2(149)) as int,
            7,
        ),
{
    let t = pow2(1074);
    let w = pow2(149);
    lemma_pow2_pos(1074);
    lemma_pow2_pos(149);
    assert(n <= n * k && k <= n * k) by (nonlinear_arith)
        requires
            n >= 1,
            k >= 1,
    ;
    let total = count_sum(counts.take(n as int));
    lemma_total(counts, n);
    lemma_from_nat(total);
    lemma_from_nat(n);
    lemma_from_nat(k);
    let a = Double::from_nat(n);
    let b = Double::from_nat(k);
    let g = Double::from_nat(total);
    assert(if n < counts.len() {
        n
    } else {
        counts.len()
    } == n);
    let nt = n * t;
    let kt = k * t;
    let st = total * t;
    assert(amount(a) == nt && amount(b) == kt && amount(g) == st) by (nonlinear_arith)
        requires
            amount(a) == one() * n,
            amount(b) == one() * k,
            amount(g) == one() * total,
            one() == t,
            nt == n * t,
            kt == k * t,
            st == total * t,
    ;
    let nk = n * k;
    let nkt = nk * t;
    assert(nt * kt == nkt * t) by (nonlinear_arith)
        requires
            nt == n * t,
            kt == k * t,
            nkt == nk * t,
            nk == n * k,
    ;
    lemma_pow2_adds(32, 1074);
    lemma2_to64();
    lemma2_to64_rest();
    lemma_pow2_strictly_increases(1106, 2000);
    lemma_pow2_strictly_increases(23, 1074);
    assert(t <= nkt <= pow2(1106) && t <= st <= pow2(1106)) by (nonlinear_arith)
        requires
            nkt == nk * t,
            st == total * t,
            1 <= total <= nk <= 0xffff_ffff,
            pow2(1106) == 0x1_0000_0000 * t,
            t > 0,
    ;
    assert(nkt * t >= 0x80_0000 * t && nkt * t <= t * pow2(2000)) by (nonlinear_arith)
        requires
            0x80_0000 <= t <= nkt,
            nkt <= pow2(2000),
    ;
    lemma_times_close(a, b);
    let x = amount(a.times(b));
    lemma_close_cancelled(x, nkt as int, 1, t as int);
    lemma_pow2_adds(1, 1106);
    lemma_pow2_adds(1, 1073);
    assert(pow2(1073) <= x <= pow2(1107));
    lemma_pow2_adds(23, 1107);
    lemma_pow2_adds(1074, 1074);
    lemma_pow2_adds(1106, 1074);
    lemma_pow2_adds(1073, 2000);
    lemma_pow2_strictly_increases(1130, 2148);
    lemma_pow2_strictly_increases(2180, 3073);
    lemma_pow2_pos(1073);
    lemma_pow2_pos(2000);
    assert(st * t >= 0x80_0000 * x && st * t <= x * pow2(2000)) by (nonlinear_arith)
        requires
            t <= st <= pow2(1106),
            pow2(1073) <= x <= pow2(1107),
            pow2(1130) == 0x80_0000 * pow2(1107),
            pow2(2148) == t * t,
            pow2(1130) < pow2(2148),
            pow2(2180) == pow2(1106) * t,
            pow2(3073) == pow2(1073) * pow2(2000),
            pow2(2180) < pow2(3073),
            t > 0,
            pow2(2000) > 0,
    ;
    lemma_over_close(g, a.times(b));
    let y = amount(g.over(a.times(b)));
    // y * x is close to st * t, and x to nk * t.
    lemma_share_scaled(y, x, nk as int, total as int, t as int);
    // In single precision.
    assert(y * nk <= 2 * st && 2 * (y * nk) >= st);
    lemma_pow2_adds(1041, 32);
    lemma_pow2_adds(1, 1041);
    lemma_pow2_adds(1041, 149);
    lemma_pow2_adds(23, 1074);
    lemma_pow2_strictly_increases(1097, 1190);
    assert(y >= pow2(1041)) by (nonlinear_arith)
        requires
            2 * (y * nk) >= t,
            nk <= 0xffff_ffff,
            t == 2 * pow2(1073),
            pow2(1073) == pow2(1041) * 0x1_0000_0000,
            y >= 0,
    ;
    assert(y * w >= 0x80_0000 * t) by (nonlinear_arith)
        requires
            y >= pow2(1041),
            pow2(1190) == pow2(1041) * w,
            pow2(1097) == 0x80_0000 * t,
            pow2(1097) < pow2(1190),
            w > 0,
    ;
    lemma_narrowed_close(g.over(a.times(b)));
    let u = not_pruned_share(counts, n, k).units();
    lemma_close_scaled(u * t, y * w, 1, nk as int);
    lemma_close_scaled(y * nk, st as int, 4, w as int);
    assert((y * w) * nk == (y * nk) * w && (u * t) * nk == (u * nk) * t && st * w == (total * w) * t) by (nonlinear_arith)
        requires
            st == total * t,
    ;
    assert(st * w >= 0) by (nonlinear_arith)
        requires
            st >= 0,
            w >= 0,
    ;
    lemma_close_chain((u * t) * nk, (y * w) * nk, (st * w) as int, 1, 4);
    lemma_close_cancelled(u * nk, (total * w) as int, 6, t as int);
}

proof fn lemma_share_scaled(y: int, x: int, nk: int, total: int, t: int)
    requires
        0 <= y,
        0 < t,
        0 < nk,
        0 < total,
        close(x, nk * t, 1),
        close(y * x, (total * t) * t, 1),
    ensures
        close(y * nk, total * t, 4),
{
    let nkt = nk * t;
    assert(nkt > 0 && (total * t) * t >= 0) by (nonlinear_arith)
        requires
            nkt == nk * t,
            nk > 0,
            t > 0,
            total > 0,
    ;
    crate::errors::lemma_close_symmetric(x, nkt, 1);
    lemma_close_scaled(nkt, x, 2, y);
    lemma_close_chain(y * nkt, y * x, (total * t) * t, 2, 1);
    assert(y * nkt == (y * nk) * t) by (nonlinear_arith)
        requires
            nkt == nk * t,
    ;
    lemma_close_cancelled(y * nk, total * t, 4, t);
}

} // verus!
