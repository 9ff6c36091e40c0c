//! Whole numbers in single precision: sums, products and distances of them are exact as long as
//! they are short.
use crate::adsampling::sum_of_squares;
use crate::batch::{dot, from_dot};
use crate::distance::{l2_distance, lane_sum, lanes_total, squared_difference, terms_from};
use crate::gemm::row_times_column;
use crate::ieee::{lemma_format, lemma_units_sign, negated, quotient, rounded, Format};
use crate::numbers::{
    law_integer_bits, lemma_exact, lemma_from_nat, lemma_from_nat_parts, lemma_minus, lemma_order_of_values, lemma_plus,
    lemma_times, nearest_single,
};
use crate::rounding::{lemma_round_monotone, lemma_round_zero, units};
use crate::single::{lemma_of_parts, Single, MINUS_TWO, TWO, ZERO};
use crate::utils::plain_distance;
use vstd::arithmetic::div_mod::*;
use vstd::arithmetic::power2::*;
use vstd::prelude::*;

verus! {

/// `s` is the integer `v`.
pub open spec fn is_whole(s: Single, v: int) -> bool {
    s.is_finite() && s.units() == v * pow2(149)
}

/// `x` holds the integers `v`, none of which is larger than `bound`.
pub open spec fn whole_table(x: Seq<Single>, v: Seq<int>, bound: int) -> bool {
    &&& x.len() == v.len()
    &&& forall|t: int|
        #![trigger x[t]]
        #![trigger v[t]]
        0 <= t < x.len() ==> is_whole(x[t], v[t]) && -bound <= v[t] <= bound
}

/// A number that stands where a short integer stands is that integer.
proof fn lemma_whole_of(r: Single, v: int)
    requires
        -0x100_0000 < v < 0x100_0000,
        r.is_number(),
        r.order() == nearest_single(v * pow2(149), 1).order(),
    ensures
        is_whole(r, v),
{
    let t = pow2(149);
    let n = (if v < 0 {
        -v
    } else {
        v
    }) as nat;
    lemma_from_nat(n);
    let e = if v < 0 {
        Single::from_nat(n).opposite()
    } else {
        Single::from_nat(n)
    };
    if v < 0 {
        reveal(Single::opposite);
        lemma_of_parts(negated(Single::from_nat(n).parts()));
        assert(-(n * t) == v * t) by (nonlinear_arith)
            requires
                n == -v,
        ;
        lemma_from_nat_parts(n);
    }
    assert(e.units() == v * t);
    lemma_exact(e);
    lemma_order_of_values(r, e);
    lemma_order_of_values(e, r);
}

/// Whole numbers stand in the order of their values.
pub proof fn lemma_whole_order(a: Single, va: int, b: Single, vb: int)
    requires
        is_whole(a, va),
        is_whole(b, vb),
    ensures
        a.is_number(),
        b.is_number(),
        a.order() <= b.order() <==> va <= vb,
        a.order() >= 0 <==> va >= 0,
{
    lemma_order_of_values(a, b);
    lemma_order_of_values(a, a);
    lemma_pow2_pos(149);
    let t = pow2(149);
    assert((va * t <= vb * t <==> va <= vb) && (va * t >= 0 <==> va >= 0) && (va * t > 0 <==> va > 0)) by (nonlinear_arith)
        requires
            t > 0,
    ;
}

pub proof fn lemma_whole_plus(a: Single, va: int, b: Single, vb: int)
    requires
        is_whole(a, va),
        is_whole(b, vb),
        -0x100_0000 < va + vb < 0x100_0000,
    ensures
        is_whole(a.plus(b), va + vb),
{
    lemma_plus(a, b);
    assert((va + vb) * pow2(149) == va * pow2(149) + vb * pow2(149)) by (nonlinear_arith);
    lemma_whole_of(a.plus(b), va + vb);
}

pub proof fn lemma_whole_minus(a: Single, va: int, b: Single, vb: int)
    requires
        is_whole(a, va),
        is_whole(b, vb),
        -0x100_0000 < va - vb < 0x100_0000,
    ensures
        is_whole(a.minus(b), va - vb),
{
    lemma_minus(a, b);
    assert((va - vb) * pow2(149) == va * pow2(149) - vb * pow2(149)) by (nonlinear_arith);
    lemma_whole_of(a.minus(b), va - vb);
}

pub proof fn lemma_whole_times(a: Single, va: int, b: Single, vb: int)
    requires
        is_whole(a, va),
        is_whole(b, vb),
        -0x100_0000 < va * vb < 0x100_0000,
    ensures
        is_whole(a.times(b), va * vb),
{
    let t = pow2(149);
    assert((va * t) * (vb * t) == ((va * vb) * t) * t) by (nonlinear_arith);
    lemma_exact_times(a, b, va * vb);
}

/// A product of any numbers that is a short integer is exact.
pub proof fn lemma_exact_times(a: Single, b: Single, x: int)
    requires
        a.is_finite(),
        b.is_finite(),
        -0x100_0000 < x < 0x100_0000,
        a.units() * b.units() == (x * pow2(149)) * pow2(149),
    ensures
        is_whole(a.times(b), x),
{
    lemma_times(a, b);
    let t = pow2(149);
    lemma_pow2_pos(149);
    let v = a.units() * b.units();
    let w = x * t;
    assert((v < 0 <==> w < 0) && (-v) == (-w) * t) by (nonlinear_arith)
        requires
            v == w * t,
            t > 0,
    ;
    let nv = (if v < 0 {
        -v
    } else {
        v
    }) as nat;
    let nw = (if w < 0 {
        -w
    } else {
        w
    }) as nat;
    assert(nv * 1 == nw * t);
    lemma_round_monotone(nv, t, nw, 1, 24);
    lemma_round_monotone(nw, 1, nv, t, 24);
    assert(nearest_single(v, t) == nearest_single(w, 1));
    lemma_whole_of(a.times(b), x);
}

/// An integer divided by one of its divisors.
pub proof fn lemma_whole_over(a: Single, b: Single, x: int, vb: int)
    requires
        is_whole(a, x * vb),
        is_whole(b, vb),
        vb > 0,
        -0x100_0000 < x < 0x100_0000,
    ensures
        is_whole(a.over(b), x),
{
    reveal(Single::over);
    let f = Format::single();
    lemma_format(f);
    let t = pow2(149);
    lemma_pow2_pos(149);
    lemma_order_of_values(a, a);
    lemma_order_of_values(b, b);
    let ua = units(a.parts().mag as nat, 24);
    let ub = units(b.parts().mag as nat, 24);
    lemma_units_sign(f, a.parts().mag as nat);
    lemma_units_sign(f, b.parts().mag as nat);
    assert(b.units() > 0) by (nonlinear_arith)
        requires
            b.units() == vb * t,
            vb > 0,
            t > 0,
    ;
    assert(b.units() == ub);
    let w = x * t;
    let nw = (if w < 0 {
        -w
    } else {
        w
    }) as nat;
    assert((w < 0 <==> a.units() < 0) && (w == 0 <==> a.units() == 0)) by (nonlinear_arith)
        requires
            w == x * t,
            a.units() == (x * vb) * t,
            vb > 0,
            t > 0,
    ;
    assert(ua * t * 1 == nw * ub) by (nonlinear_arith)
        requires
            w == x * t,
            a.units() == (x * vb) * t,
            ub == vb * t,
            (w < 0 && nw == -w && ua == -a.units()) || (w >= 0 && nw == w && ua == a.units()),
    ;
    lemma_round_monotone(ua * t, ub, nw, 1, 24);
    lemma_round_monotone(nw, 1, ua * t, ub, 24);
    let q = quotient(f, a.parts(), b.parts());
    assert(q == rounded(f, a.parts().neg != b.parts().neg, ua * t, ub));
    assert(!b.parts().neg);
    lemma_of_parts(q);
    lemma_of_parts(rounded(f, w < 0, nw, 1));
    if w == 0 {
        lemma_round_zero(1, 24);
    } else {
        assert(a.parts().neg == (w < 0));
    }
    lemma_whole_of(a.over(b), x);
}

/// The products of the entries of `v` from `p` on and of `w` from `q` on, the first `n`, added up.
pub open spec fn product_sum(v: Seq<int>, p: int, w: Seq<int>, q: int, n: nat) -> int
    decreases n,
{
    if n == 0 {
        0
    } else {
        product_sum(v, p, w, q, (n - 1) as nat) + v[p + n - 1] * w[q + n - 1]
    }
}

/// The squares of the differences of the entries of `v` behind `p` and of `w` behind `q`, from
/// `from` to `to`, added up.
pub open spec fn gap_sum(v: Seq<int>, p: int, w: Seq<int>, q: int, from: int, to: int) -> int
    decreases to - from,
{
    if to <= from {
        0
    } else {
        let x = v[p + to - 1] - w[q + to - 1];
        gap_sum(v, p, w, q, from, to - 1) + x * x
    }
}

/// A sum of squared differences is not below zero, and small as long as the entries are.
pub proof fn lemma_gap_bound(v: Seq<int>, p: int, w: Seq<int>, q: int, from: int, to: int, bound: int)
    requires
        from <= to,
        bound >= 0,
        forall|t: int| p + from <= t < p + to ==> -bound <= #[trigger] v[t] <= bound,
        forall|t: int| q + from <= t < q + to ==> -bound <= #[trigger] w[t] <= bound,
    ensures
        0 <= gap_sum(v, p, w, q, from, to) <= 4 * bound * bound * (to - from),
    decreases to - from,
{
    if from < to {
        lemma_gap_bound(v, p, w, q, from, to - 1, bound);
        let x = v[p + to - 1] - w[q + to - 1];
        lemma_square_bound(x, 2 * bound);
        let b2 = bound * bound;
        assert((2 * bound) * (2 * bound) == 4 * b2) by (nonlinear_arith)
            requires
                b2 == bound * bound,
        ;
        assert(4 * bound * bound * (to - from) == 4 * b2 * (to - 1 - from) + 4 * b2 && 4 * bound * bound * (to - 1 - from)
            == 4 * b2 * (to - 1 - from)) by (nonlinear_arith)
            requires
                b2 == bound * bound,
        ;
    } else {
        assert(4 * bound * bound * 0 == 0) by (nonlinear_arith);
    }
}

proof fn lemma_square_bound(x: int, b: int)
    requires
        -b <= x <= b,
    ensures
        0 <= x * x <= b * b,
{
    assert(0 <= x * x <= b * b) by (nonlinear_arith)
        requires
            -b <= x <= b,
    ;
}

proof fn lemma_product_bound(x: int, y: int, b: int)
    requires
        -b <= x <= b,
        -b <= y <= b,
    ensures
        -(b * b) <= x * y <= b * b,
{
    assert(-(b * b) <= x * y <= b * b) by (nonlinear_arith)
        requires
            -b <= x <= b,
            -b <= y <= b,
    ;
}

proof fn lemma_product_sum_bound(v: Seq<int>, p: int, w: Seq<int>, q: int, n: nat, bound: int)
    requires
        bound >= 0,
        forall|t: int| p <= t < p + n ==> -bound <= #[trigger] v[t] <= bound,
        forall|t: int| q <= t < q + n ==> -bound <= #[trigger] w[t] <= bound,
    ensures
        -(bound * bound * n) <= product_sum(v, p, w, q, n) <= bound * bound * n,
    decreases n,
{
    let b2 = bound * bound;
    if n > 0 {
        lemma_product_sum_bound(v, p, w, q, (n - 1) as nat, bound);
        lemma_product_bound(v[p + n - 1], w[q + n - 1], bound);
        assert(b2 * n == b2 * (n - 1) + b2) by (nonlinear_arith);
    } else {
        assert(b2 * 0 == 0) by (nonlinear_arith);
    }
}

/// What is true of squares: `|x|^2 + |y|^2 - 2 x y = |x - y|^2`.
pub proof fn lemma_gap_expanded(v: Seq<int>, p: int, w: Seq<int>, q: int, n: nat)
    ensures
        gap_sum(v, p, w, q, 0, n as int) == product_sum(v, p, v, p, n) + product_sum(w, q, w, q, n) - 2 * product_sum(
            v,
            p,
            w,
            q,
            n,
        ),
    decreases n,
{
    if n > 0 {
        lemma_gap_expanded(v, p, w, q, (n - 1) as nat);
        let a = v[p + n - 1];
        let b = w[q + n - 1];
        assert((a - b) * (a - b) == a * a + b * b - 2 * (a * b)) by (nonlinear_arith);
    }
}

pub proof fn lemma_gap_split(v: Seq<int>, p: int, w: Seq<int>, q: int, from: int, mid: int, to: int)
    requires
        from <= mid <= to,
    ensures
        gap_sum(v, p, w, q, from, to) == gap_sum(v, p, w, q, from, mid) + gap_sum(v, p, w, q, mid, to),
    decreases to - mid,
{
    if mid < to {
        lemma_gap_split(v, p, w, q, from, mid, to - 1);
    }
}

/// The same entries give the same sum, wherever they stand.
pub proof fn lemma_gap_moved(v: Seq<int>, p: int, w: Seq<int>, q: int, from: int, to: int, v1: Seq<int>, p1: int, w1: Seq<int>, q1: int, by: int)
    requires
        forall|t: int| from <= t < to ==> #[trigger] v[p + t] == v1[p1 + t + by],
        forall|t: int| from <= t < to ==> #[trigger] w[q + t] == w1[q1 + t + by],
    ensures
        gap_sum(v, p, w, q, from, to) == gap_sum(v1, p1, w1, q1, from + by, to + by),
    decreases to - from,
{
    if from < to {
        lemma_gap_moved(v, p, w, q, from, to - 1, v1, p1, w1, q1, by);
        assert(v[p + (to - 1)] == v1[p1 + (to - 1) + by]);
        assert(w[q + (to - 1)] == w1[q1 + (to - 1) + by]);
    }
}

pub(crate) proof fn lemma_zero()
    ensures
        is_whole(Single { bits: ZERO }, 0),
        is_whole(Single { bits: TWO }, 2),
        is_whole(Single { bits: MINUS_TWO }, -2),
{
    law_integer_bits();
    lemma_from_nat(0);
    lemma_from_nat(2);
    assert(0xc000_0000u32 & 0x7fff_ffff == 0x4000_0000 && 0x4000_0000u32 & 0x7fff_ffff == 0x4000_0000) by (bit_vector);
    assert(0 * pow2(149) == 0);
    assert(-2 * pow2(149) == -(2 * pow2(149))) by (nonlinear_arith);
}

/// The squared difference of two whole numbers.
pub(crate) proof fn lemma_whole_squared_difference(a: Single, va: int, b: Single, vb: int, bound: int)
    requires
        is_whole(a, va),
        is_whole(b, vb),
        -bound <= va <= bound,
        -bound <= vb <= bound,
        4 * bound * bound < 0x100_0000,
    ensures
        is_whole(a.minus(b).times(a.minus(b)), (va - vb) * (va - vb)),
{
    let x = va - vb;
    lemma_square_bound(x, 2 * bound);
    assert((2 * bound) * (2 * bound) == 4 * bound * bound && (x * x < 0x100_0000 ==> -0x100_0000 < x < 0x100_0000)) by (nonlinear_arith)
        requires
            -2 * bound <= x <= 2 * bound,
    ;
    lemma_whole_minus(a, va, b, vb);
    lemma_whole_times(a.minus(b), x, a.minus(b), x);
}

/// What the bounds on the entries say of `k` of `n` terms.
pub proof fn lemma_room(bound: int, k: int, n: int)
    requires
        0 <= k <= n,
        4 * bound * bound * n < 0x100_0000,
    ensures
        0 <= bound * bound * k <= bound * bound * n,
        4 * bound * bound * k <= 4 * bound * bound * n,
        4 * bound * bound * n == 4 * (bound * bound * n),
        k > 0 ==> 4 * bound * bound < 0x100_0000,
{
    let b2 = bound * bound;
    lemma_square_bound(bound, if bound < 0 {
        -bound
    } else {
        bound
    });
    assert(4 * bound * bound * n == 4 * (b2 * n) && 4 * bound * bound * k == 4 * (b2 * k) && 4 * bound * bound == 4 * b2) by (nonlinear_arith)
        requires
            b2 == bound * bound,
    ;
    assert(0 <= b2 * k <= b2 * n && (k > 0 ==> b2 <= b2 * n)) by (nonlinear_arith)
        requires
            b2 >= 0,
            0 <= k <= n,
    ;
}

/// Products of whole rows are exact.
pub proof fn lemma_whole_dot(x: Seq<Single>, v: Seq<int>, y: Seq<Single>, w: Seq<int>, d: int, e: nat, i: int, c: int, bound: int, n: int)
    requires
        whole_table(x, v, bound),
        whole_table(y, w, bound),
        bound >= 0,
        0 <= i * d,
        i * d + e <= x.len(),
        0 <= c * d,
        c * d + e <= y.len(),
        e <= n,
        4 * bound * bound * n < 0x100_0000,
    ensures
        is_whole(dot(x, y, d, e, i, c), product_sum(v, i * d, w, c * d, e)),
        -(bound * bound * e) <= product_sum(v, i * d, w, c * d, e) <= bound * bound * e,
    decreases e,
{
    lemma_room(bound, e as int, n);
    lemma_product_sum_bound(v, i * d, w, c * d, e, bound);
    if e == 0 {
        lemma_zero();
    } else {
        lemma_whole_dot(x, v, y, w, d, (e - 1) as nat, i, c, bound, n);
        let a = i * d + e - 1;
        let b = c * d + e - 1;
        lemma_product_bound(v[a], w[b], bound);
        lemma_room(bound, 1, n);
        assert(4 * bound * bound < 0x100_0000 ==> bound * bound < 0x100_0000) by (nonlinear_arith);
        assert(is_whole(x[a], v[a]) && is_whole(y[b], w[b]));
        lemma_whole_times(x[a], v[a], y[b], w[b]);
        lemma_whole_plus(
            dot(x, y, d, (e - 1) as nat, i, c),
            product_sum(v, i * d, w, c * d, (e - 1) as nat),
            x[a].times(y[b]),
            v[a] * w[b],
        );
        reveal_with_fuel(row_times_column, 2);
    }
}

/// Norms of whole rows are exact.
pub proof fn lemma_whole_norm(x: Seq<Single>, v: Seq<int>, from: int, e: nat, bound: int, n: int)
    requires
        whole_table(x, v, bound),
        bound >= 0,
        0 <= from,
        from + e <= x.len(),
        e <= n,
        4 * bound * bound * n < 0x100_0000,
    ensures
        is_whole(sum_of_squares(x, from, from + e), product_sum(v, from, v, from, e)),
        0 <= product_sum(v, from, v, from, e) <= bound * bound * e,
    decreases e,
{
    lemma_room(bound, e as int, n);
    lemma_product_sum_bound(v, from, v, from, e, bound);
    if e == 0 {
        lemma_zero();
    } else {
        lemma_whole_norm(x, v, from, (e - 1) as nat, bound, n);
        let a = from + e - 1;
        lemma_square_bound(v[a], bound);
        lemma_room(bound, 1, n);
        assert(4 * bound * bound < 0x100_0000 ==> bound * bound < 0x100_0000) by (nonlinear_arith);
        assert(is_whole(x[a], v[a]));
        lemma_whole_times(x[a], v[a], x[a], v[a]);
        lemma_whole_plus(
            sum_of_squares(x, from, from + e - 1),
            product_sum(v, from, v, from, (e - 1) as nat),
            x[a].times(x[a]),
            v[a] * v[a],
        );
    }
}

/// The distance from products and norms is exact.
pub proof fn lemma_whole_from_dot(product: Single, p: int, norm_x: Single, nx: int, norm_y: Single, ny: int, room: int)
    requires
        is_whole(product, p),
        is_whole(norm_x, nx),
        is_whole(norm_y, ny),
        -room <= p <= room,
        0 <= nx <= room,
        0 <= ny <= room,
        4 * room < 0x100_0000,
    ensures
        is_whole(from_dot(product, norm_x, norm_y), nx + ny - 2 * p),
        is_whole(norm_x.plus(norm_y).minus((Single { bits: TWO }).times(product)), nx + ny - 2 * p),
{
    lemma_zero();
    let minus_two = Single { bits: MINUS_TWO };
    lemma_whole_times(minus_two, -2, product, p);
    lemma_whole_plus(minus_two.times(product), -2 * p, norm_x, nx);
    lemma_whole_plus(minus_two.times(product).plus(norm_x), -2 * p + nx, norm_y, ny);
    let two = Single { bits: TWO };
    lemma_whole_times(two, 2, product, p);
    lemma_whole_plus(norm_x, nx, norm_y, ny);
    lemma_whole_minus(norm_x.plus(norm_y), nx + ny, two.times(product), 2 * p);
}

/// A distance added up one by one is exact.
pub proof fn lemma_whole_plain_distance(x: Seq<Single>, v: Seq<int>, p: int, y: Seq<Single>, w: Seq<int>, q: int, e: nat, bound: int, n: int)
    requires
        whole_table(x, v, bound),
        whole_table(y, w, bound),
        bound >= 0,
        0 <= p,
        p + e <= x.len(),
        0 <= q,
        q + e <= y.len(),
        e <= n,
        4 * bound * bound * n < 0x100_0000,
    ensures
        is_whole(plain_distance(x, p, y, q, e), gap_sum(v, p, w, q, 0, e as int)),
        0 <= gap_sum(v, p, w, q, 0, e as int) < 0x100_0000,
    decreases e,
{
    lemma_room(bound, e as int, n);
    lemma_gap_bound(v, p, w, q, 0, e as int, bound);
    if e == 0 {
        lemma_zero();
    } else {
        lemma_whole_plain_distance(x, v, p, y, w, q, (e - 1) as nat, bound, n);
        let a = p + e - 1;
        let b = q + e - 1;
        lemma_room(bound, 1, n);
        assert(is_whole(x[a], v[a]) && is_whole(y[b], w[b]));
        lemma_whole_squared_difference(x[a], v[a], y[b], w[b], bound);
        let g = v[a] - w[b];
        lemma_whole_plus(
            plain_distance(x, p, y, q, (e - 1) as nat),
            gap_sum(v, p, w, q, 0, e - 1),
            x[a].minus(y[b]).times(x[a].minus(y[b])),
            g * g,
        );
    }
}

/// The squares that lane `l` adds up.
pub open spec fn lane_gap(v: Seq<int>, w: Seq<int>, l: int, groups: nat) -> int
    decreases groups,
{
    if groups == 0 {
        0
    } else {
        let x = v[(groups - 1) * 8 + l] - w[(groups - 1) * 8 + l];
        lane_gap(v, w, l, (groups - 1) as nat) + x * x
    }
}

pub open spec fn lanes_gap(v: Seq<int>, w: Seq<int>, groups: nat, lanes: nat) -> int
    decreases lanes,
{
    if lanes == 0 {
        0
    } else {
        lanes_gap(v, w, groups, (lanes - 1) as nat) + lane_gap(v, w, lanes - 1, groups)
    }
}

/// One more group adds its entries lane by lane.
proof fn lemma_lanes_gap_step(v: Seq<int>, w: Seq<int>, groups: nat, lanes: nat)
    requires
        groups > 0,
    ensures
        lanes_gap(v, w, groups, lanes) == lanes_gap(v, w, (groups - 1) as nat, lanes) + gap_sum(
            v,
            0,
            w,
            0,
            (groups - 1) * 8,
            (groups - 1) * 8 + lanes,
        ),
    decreases lanes,
{
    if lanes > 0 {
        lemma_lanes_gap_step(v, w, groups, (lanes - 1) as nat);
    }
}

/// Lane by lane, the sum is the same.
proof fn lemma_lanes_gap(v: Seq<int>, w: Seq<int>, groups: nat)
    ensures
        lanes_gap(v, w, groups, 8) == gap_sum(v, 0, w, 0, 0, (groups * 8) as int),
    decreases groups,
{
    if groups > 0 {
        lemma_lanes_gap(v, w, (groups - 1) as nat);
        lemma_lanes_gap_step(v, w, groups, 8);
        lemma_gap_split(v, 0, w, 0, 0, (groups - 1) * 8, (groups * 8) as int);
    } else {
        lemma_no_lanes(v, w, 8);
    }
}

proof fn lemma_no_lanes(v: Seq<int>, w: Seq<int>, lanes: nat)
    ensures
        lanes_gap(v, w, 0, lanes) == 0,
    decreases lanes,
{
    if lanes > 0 {
        lemma_no_lanes(v, w, (lanes - 1) as nat);
    }
}

proof fn lemma_lane_bound(v: Seq<int>, w: Seq<int>, l: int, groups: nat, bound: int)
    requires
        bound >= 0,
        0 <= l < 8,
        forall|t: int| 0 <= t < groups * 8 ==> -bound <= #[trigger] v[t] <= bound,
        forall|t: int| 0 <= t < groups * 8 ==> -bound <= #[trigger] w[t] <= bound,
    ensures
        0 <= lane_gap(v, w, l, groups) <= 4 * bound * bound * groups,
    decreases groups,
{
    if groups > 0 {
        lemma_lane_bound(v, w, l, (groups - 1) as nat, bound);
        let t = (groups - 1) * 8 + l;
        let x = v[t] - w[t];
        lemma_square_bound(x, 2 * bound);
        let b2 = bound * bound;
        assert((2 * bound) * (2 * bound) == 4 * b2) by (nonlinear_arith)
            requires
                b2 == bound * bound,
        ;
        assert(4 * bound * bound * groups == 4 * b2 * (groups - 1) + 4 * b2 && 4 * bound * bound * (groups - 1) == 4 * b2
            * (groups - 1)) by (nonlinear_arith)
            requires
                b2 == bound * bound,
        ;
    } else {
        assert(4 * bound * bound * 0 == 0) by (nonlinear_arith);
    }
}

proof fn lemma_whole_lane(a: Seq<Single>, v: Seq<int>, b: Seq<Single>, w: Seq<int>, l: int, groups: nat, bound: int)
    requires
        whole_table(a, v, bound),
        whole_table(b, w, bound),
        a.len() == b.len(),
        bound >= 0,
        0 <= l < 8,
        groups * 8 <= a.len(),
        4 * bound * bound * a.len() < 0x100_0000,
    ensures
        is_whole(lane_sum(a, b, l, groups), lane_gap(v, w, l, groups)),
        0 <= lane_gap(v, w, l, groups) <= 4 * bound * bound * groups,
    decreases groups,
{
    lemma_lane_bound(v, w, l, groups, bound);
    lemma_room(bound, groups as int, a.len() as int);
    if groups == 0 {
        lemma_zero();
    } else {
        lemma_whole_lane(a, v, b, w, l, (groups - 1) as nat, bound);
        let t = (groups - 1) * 8 + l;
        assert(is_whole(a[t], v[t]) && is_whole(b[t], w[t]));
        lemma_whole_squared_difference(a[t], v[t], b[t], w[t], bound);
        let x = v[t] - w[t];
        lemma_whole_plus(
            lane_sum(a, b, l, (groups - 1) as nat),
            lane_gap(v, w, l, (groups - 1) as nat),
            squared_difference(a, b, t),
            x * x,
        );
    }
}

proof fn lemma_whole_lanes(a: Seq<Single>, v: Seq<int>, b: Seq<Single>, w: Seq<int>, groups: nat, lanes: nat, bound: int)
    requires
        whole_table(a, v, bound),
        whole_table(b, w, bound),
        a.len() == b.len(),
        bound >= 0,
        lanes <= 8,
        groups * 8 <= a.len(),
        4 * bound * bound * a.len() < 0x100_0000,
    ensures
        is_whole(lanes_total(a, b, groups, lanes), lanes_gap(v, w, groups, lanes)),
        0 <= lanes_gap(v, w, groups, lanes) <= 4 * bound * bound * (groups * lanes),
    decreases lanes,
{
    if lanes == 0 {
        lemma_zero();
        assert(4 * bound * bound * (groups * 0) == 0) by (nonlinear_arith);
    } else {
        lemma_whole_lanes(a, v, b, w, groups, (lanes - 1) as nat, bound);
        lemma_whole_lane(a, v, b, w, lanes - 1, groups, bound);
        let f = 4 * bound * bound;
        assert(f * (groups * lanes) == f * (groups * (lanes - 1)) + f * groups) by (nonlinear_arith);
        assert(groups * lanes <= groups * 8) by (nonlinear_arith)
            requires
                0 <= lanes <= 8,
        ;
        lemma_room(bound, (groups * lanes) as int, a.len() as int);
        lemma_whole_plus(
            lanes_total(a, b, groups, (lanes - 1) as nat),
            lanes_gap(v, w, groups, (lanes - 1) as nat),
            lane_sum(a, b, lanes - 1, groups),
            lane_gap(v, w, lanes - 1, groups),
        );
    }
}

proof fn lemma_whole_terms(a: Seq<Single>, v: Seq<int>, b: Seq<Single>, w: Seq<int>, start: Single, from: int, to: int, bound: int)
    requires
        whole_table(a, v, bound),
        whole_table(b, w, bound),
        a.len() == b.len(),
        bound >= 0,
        0 <= from <= to <= a.len(),
        is_whole(start, gap_sum(v, 0, w, 0, 0, from)),
        4 * bound * bound * a.len() < 0x100_0000,
    ensures
        is_whole(terms_from(a, b, start, from, to), gap_sum(v, 0, w, 0, 0, to)),
    decreases to - from,
{
    if from < to {
        lemma_whole_terms(a, v, b, w, start, from, to - 1, bound);
        lemma_gap_bound(v, 0, w, 0, 0, to, bound);
        lemma_room(bound, to, a.len() as int);
        let t = to - 1;
        assert(is_whole(a[t], v[t]) && is_whole(b[t], w[t]));
        lemma_whole_squared_difference(a[t], v[t], b[t], w[t], bound);
        let x = v[t] - w[t];
        lemma_whole_plus(
            terms_from(a, b, start, from, to - 1),
            gap_sum(v, 0, w, 0, 0, to - 1),
            squared_difference(a, b, t),
            x * x,
        );
    }
}

/// The distance of whole vectors is exact.
pub proof fn law_whole_distance(a: Seq<Single>, v: Seq<int>, b: Seq<Single>, w: Seq<int>, bound: int)
    requires
        whole_table(a, v, bound),
        whole_table(b, w, bound),
        a.len() == b.len(),
        bound >= 0,
        4 * bound * bound * a.len() < 0x100_0000,
    ensures
        is_whole(l2_distance(a, b), gap_sum(v, 0, w, 0, 0, a.len() as int)),
        0 <= gap_sum(v, 0, w, 0, 0, a.len() as int) < 0x100_0000,
{
    let groups = a.len() / 8;
    lemma_whole_lanes(a, v, b, w, groups, 8, bound);
    lemma_lanes_gap(v, w, groups);
    lemma_gap_bound(v, 0, w, 0, 0, a.len() as int, bound);
    lemma_whole_terms(
        a,
        v,
        b,
        w,
        lanes_total(a, b, groups, 8),
        (groups * 8) as int,
        a.len() as int,
        bound,
    );
}

/// A short integer is below the largest number.
pub proof fn lemma_short_below_largest(a: Single, v: int)
    requires
        is_whole(a, v),
        0 <= v < 0x100_0000,
    ensures
        a.order() < 0x7f7f_ffff,
{
    let limit = Single { bits: 0x4b80_0000 };
    assert(0x4b80_0000u32 & 0x7fff_ffff == 0x4b80_0000) by (bit_vector);
    lemma_format(Format::single());
    lemma_fundamental_div_mod_converse(0x4b80_0000, 0x80_0000, 151, 0);
    lemma_pow2_adds(23, 150);
    lemma_pow2_adds(24, 149);
    lemma2_to64();
    assert(limit.units() == 0x100_0000 * pow2(149)) by {
        assert((0x80_0000nat + 0) * pow2(150) == pow2(173));
    }
    lemma_whole_order(limit, 0x100_0000, a, v);
}

/// A distance is the same from both ends.
pub proof fn lemma_gap_symmetric(v: Seq<int>, p: int, w: Seq<int>, q: int, from: int, to: int)
    ensures
        gap_sum(v, p, w, q, from, to) == gap_sum(w, q, v, p, from, to),
    decreases to - from,
{
    if from < to {
        lemma_gap_symmetric(v, p, w, q, from, to - 1);
        let a = v[p + to - 1];
        let b = w[q + to - 1];
        assert((a - b) * (a - b) == (b - a) * (b - a)) by (nonlinear_arith);
    }
}

/// The distance of parts of two rows.
pub proof fn lemma_whole_part(x: Seq<Single>, v: Seq<int>, p: int, y: Seq<Single>, w: Seq<int>, q: int, from: int, to: int, bound: int, n: int)
    requires
        whole_table(x, v, bound),
        whole_table(y, w, bound),
        bound >= 0,
        0 <= from <= to,
        0 <= p,
        p + to <= x.len(),
        0 <= q,
        q + to <= y.len(),
        to - from <= n,
        4 * bound * bound * n < 0x100_0000,
    ensures
        is_whole(
            l2_distance(x.subrange(p + from, p + to), y.subrange(q + from, q + to)),
            gap_sum(v, p, w, q, from, to),
        ),
        0 <= gap_sum(v, p, w, q, from, to) < 0x100_0000,
{
    let a = x.subrange(p + from, p + to);
    let b = y.subrange(q + from, q + to);
    let va = v.subrange(p + from, p + to);
    let wb = w.subrange(q + from, q + to);
    lemma_room(bound, to - from, n);
    law_whole_distance(a, va, b, wb, bound);
    lemma_gap_moved(va, 0, wb, 0, 0, to - from, v, p, w, q, from);
}

/// A number in the place of a short integer is that integer.
pub proof fn lemma_same_order_whole(a: Single, v: int, b: Single)
    requires
        is_whole(a, v),
        -0x100_0000 < v < 0x100_0000,
        b.is_number(),
        a.order() == b.order(),
    ensures
        is_whole(b, v),
{
    lemma_exact(a);
    lemma_whole_of(b, v);
}

} // verus!
