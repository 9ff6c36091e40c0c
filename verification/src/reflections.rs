//! What a reflection does: it turns its own vector round, and keeps the products of rows and of
//! columns. Where the numbers are short integers, it does so exactly.
use crate::adsampling::{column_product, reflect_columns, reflect_rows, reflector, row_product, sum_of_squares};
use crate::common::{lemma_cell, lemma_row};
use crate::decisions::lemma_below_by_value;
use crate::errors::{close, lemma_difference_error, lemma_quotient_error, lemma_root_error_any};
use crate::exact::{
    is_whole, lemma_exact_times, lemma_whole_minus, lemma_whole_plus, lemma_whole_times, lemma_zero, whole_table,
};
use crate::ieee::negated;
use crate::lengths::{magnitude, near};
use crate::numbers::lemma_order_of_values;
use crate::single::{lemma_of_parts, Single, TWO, ZERO};
use vstd::arithmetic::power2::*;
use vstd::prelude::*;

verus! {

/// The first `n` products of the entries of `x` and `y`, added up.
pub open spec fn dot_with(x: Seq<int>, y: Seq<int>, n: nat) -> int
    decreases n,
{
    if n == 0 {
        0
    } else {
        dot_with(x, y, (n - 1) as nat) + x[n - 1] * y[n - 1]
    }
}

/// The entries of row `r` from column `j` on; the table holds its `d` columns one after the other.
pub open spec fn row_line(x: Seq<int>, d: int, r: int, j: int) -> Seq<int> {
    Seq::new((d - j) as nat, |i: int| x[(j + i) * d + r])
}

/// The entries of column `c` from row `j` on.
pub open spec fn column_line(x: Seq<int>, d: int, c: int, j: int) -> Seq<int> {
    Seq::new((d - j) as nat, |i: int| x[c * d + i + j])
}

/// A reflection on short integers: the table `q` holds the integers `vq`, the vector `v` holds `vv`,
/// and `inv` is exactly 2 over the sum of the squares of `vv`.
pub open spec fn reflects_integers(q: Seq<Single>, vq: Seq<int>, d: int, j: int, v: Seq<Single>, vv: Seq<int>, inv: Single, bound: int) -> bool {
    &&& 0 <= j < d
    &&& q.len() == d * d
    &&& v.len() == d - j
    &&& whole_table(q, vq, bound)
    &&& whole_table(v, vv, bound)
    &&& 1 <= bound
    &&& bound * bound * d < 0x100_0000
    &&& inv.is_finite()
    &&& inv.units() * dot_with(vv, vv, (d - j) as nat) == 2 * pow2(149)
}

/// `line` is `t / 2` times as long along `v` as `v` itself, and subtracting `t` times `v` stays short.
pub open spec fn turns_by(line: Seq<int>, vv: Seq<int>, t: int, bound: int) -> bool {
    &&& 2 * dot_with(line, vv, vv.len()) == t * dot_with(vv, vv, vv.len())
    &&& magnitude(t) * bound + bound < 0x100_0000
}

proof fn lemma_dot_bound(x: Seq<int>, y: Seq<int>, n: nat, bound: int)
    requires
        n <= x.len(),
        n <= y.len(),
        bound >= 0,
        forall|i: int| 0 <= i < n ==> -bound <= #[trigger] x[i] <= bound,
        forall|i: int| 0 <= i < n ==> -bound <= #[trigger] y[i] <= bound,
    ensures
        -(bound * bound * n) <= dot_with(x, y, n) <= bound * bound * n,
    decreases n,
{
    let b2 = bound * bound;
    if n > 0 {
        lemma_dot_bound(x, y, (n - 1) as nat, bound);
        let p = x[n - 1];
        let q = y[n - 1];
        assert(-b2 <= p * q <= b2) by (nonlinear_arith)
            requires
                -bound <= p <= bound,
                -bound <= q <= bound,
                b2 == bound * bound,
        ;
        assert(b2 * n == b2 * (n - 1) + b2) by (nonlinear_arith);
    } else {
        assert(b2 * 0 == 0) by (nonlinear_arith);
    }
}

/// One more term of a product of integers.
proof fn lemma_dot_step(s: Single, x: Single, y: Single, line: Seq<int>, vv: Seq<int>, n: nat, bound: int, d: int)
    requires
        0 < n <= line.len(),
        n <= vv.len(),
        n <= d,
        bound >= 0,
        bound * bound * d < 0x100_0000,
        forall|i: int| 0 <= i < n ==> -bound <= #[trigger] line[i] <= bound,
        forall|i: int| 0 <= i < n ==> -bound <= #[trigger] vv[i] <= bound,
        is_whole(s, dot_with(line, vv, (n - 1) as nat)),
        is_whole(x, line[n - 1]),
        is_whole(y, vv[n - 1]),
    ensures
        is_whole(s.plus(x.times(y)), dot_with(line, vv, n)),
        is_whole(s.plus(y.times(x)), dot_with(line, vv, n)),
{
    let b2 = bound * bound;
    lemma_dot_bound(line, vv, n, bound);
    lemma_dot_bound(line, vv, (n - 1) as nat, bound);
    let p = line[n - 1];
    let q = vv[n - 1];
    assert(-b2 <= p * q <= b2 && p * q == q * p) by (nonlinear_arith)
        requires
            -bound <= p <= bound,
            -bound <= q <= bound,
            b2 == bound * bound,
    ;
    assert(b2 <= b2 * d && b2 * n <= b2 * d) by (nonlinear_arith)
        requires
            b2 == bound * bound,
            1 <= n <= d,
    ;
    lemma_whole_times(x, p, y, q);
    lemma_whole_times(y, q, x, p);
    lemma_whole_plus(s, dot_with(line, vv, (n - 1) as nat), x.times(y), p * q);
    lemma_whole_plus(s, dot_with(line, vv, (n - 1) as nat), y.times(x), p * q);
}

proof fn lemma_row_dot(q: Seq<Single>, vq: Seq<int>, d: int, j: int, v: Seq<Single>, vv: Seq<int>, inv: Single, bound: int, r: int, n: nat)
    requires
        reflects_integers(q, vq, d, j, v, vv, inv, bound),
        0 <= r < d,
        n <= d - j,
    ensures
        is_whole(row_product(q, d, r, j, v, n), dot_with(row_line(vq, d, r, j), vv, n)),
    decreases n,
{
    let line = row_line(vq, d, r, j);
    if n > 0 {
        lemma_row_dot(q, vq, d, j, v, vv, inv, bound, r, (n - 1) as nat);
        assert forall|i: int| 0 <= i < n implies -bound <= #[trigger] line[i] <= bound by {
            lemma_row(j + i, d, d);
            assert(is_whole(q[(j + i) * d + r], vq[(j + i) * d + r]));
        }
        lemma_row(j + (n - 1), d, d);
        assert(is_whole(q[(j + (n - 1)) * d + r], line[n - 1]));
        lemma_dot_step(
            row_product(q, d, r, j, v, (n - 1) as nat),
            q[(j + (n - 1)) * d + r],
            v[n - 1],
            line,
            vv,
            n,
            bound,
            d,
        );
    } else {
        lemma_zero();
    }
}

proof fn lemma_column_dot(a: Seq<Single>, va: Seq<int>, d: int, j: int, v: Seq<Single>, vv: Seq<int>, inv: Single, bound: int, c: int, n: nat)
    requires
        reflects_integers(a, va, d, j, v, vv, inv, bound),
        0 <= c < d,
        n <= d - j,
    ensures
        is_whole(column_product(a, d, c, j, v, n), dot_with(column_line(va, d, c, j), vv, n)),
    decreases n,
{
    let line = column_line(va, d, c, j);
    lemma_row(c, d, d);
    if n > 0 {
        lemma_column_dot(a, va, d, j, v, vv, inv, bound, c, (n - 1) as nat);
        assert forall|i: int| 0 <= i < n implies -bound <= #[trigger] line[i] <= bound by {
            assert(is_whole(a[c * d + i + j], va[c * d + i + j]));
        }
        assert(is_whole(a[c * d + (n - 1) + j], line[n - 1]));
        lemma_dot_step(
            column_product(a, d, c, j, v, (n - 1) as nat),
            a[c * d + (n - 1) + j],
            v[n - 1],
            line,
            vv,
            n,
            bound,
            d,
        );
    } else {
        lemma_zero();
    }
}

/// One entry of a reflected line.
proof fn lemma_entry(x: Single, vx: int, y: Single, vy: int, inv: Single, product: Single, s: int, t: int, length: int, bound: int)
    requires
        is_whole(x, vx),
        is_whole(y, vy),
        -bound <= vx <= bound,
        -bound <= vy <= bound,
        is_whole(product, s),
        inv.is_finite(),
        inv.units() * length == 2 * pow2(149),
        2 * s == t * length,
        1 <= bound,
        magnitude(t) * bound + bound < 0x100_0000,
    ensures
        is_whole(x.minus(inv.times(product).times(y)), vx - t * vy),
{
    let w = pow2(149) as int;
    lemma_pow2_pos(149);
    let u = inv.units();
    assert(u * (s * w) == (t * w) * w) by (nonlinear_arith)
        requires
            u * length == 2 * w,
            2 * s == t * length,
    {
        assert(2 * (u * s) == t * (u * length)) by (nonlinear_arith)
            requires
                2 * s == t * length,
        ;
        assert(t * (u * length) == 2 * (t * w)) by (nonlinear_arith)
            requires
                u * length == 2 * w,
        ;
        assert(u * (s * w) == (u * s) * w) by (nonlinear_arith);
    }
    let mt = magnitude(t) * bound;
    assert(-mt <= t * vy <= mt) by (nonlinear_arith)
        requires
            mt == magnitude(t) * bound,
            (t >= 0 && magnitude(t) == t) || (t < 0 && magnitude(t) == -t),
            -bound <= vy <= bound,
    ;
    assert(magnitude(t) <= mt) by (nonlinear_arith)
        requires
            mt == magnitude(t) * bound,
            magnitude(t) >= 0,
            bound >= 1,
    ;
    lemma_exact_times(inv, product, t);
    lemma_whole_times(inv.times(product), t, y, vy);
    lemma_whole_minus(x, vx, inv.times(product).times(y), t * vy);
}

/// Row `r` of a table, reflected: `t` times the vector is subtracted from it, where `t` is twice its
/// product with the vector, over the squared length of the vector. Columns before `j` stay.
pub proof fn law_reflected_row(q: Seq<Single>, vq: Seq<int>, d: int, j: int, v: Seq<Single>, vv: Seq<int>, inv: Single, bound: int, r: int, t: int, c: int)
    requires
        reflects_integers(q, vq, d, j, v, vv, inv, bound),
        0 <= r < d,
        0 <= c < d,
        turns_by(row_line(vq, d, r, j), vv, t, bound),
    ensures
        c >= j ==> is_whole(reflect_rows(q, d, j, v, inv, d)[c * d + r], vq[c * d + r] - t * vv[c - j]),
        c < j ==> reflect_rows(q, d, j, v, inv, d)[c * d + r] == q[c * d + r],
{
    let m = (d - j) as nat;
    lemma_row(c, d, d);
    lemma_cell(c, r, d);
    if c >= j {
        lemma_row_dot(q, vq, d, j, v, vv, inv, bound, r, m);
        let length = dot_with(vv, vv, m);
        assert(is_whole(q[c * d + r], vq[c * d + r]));
        assert(is_whole(v[c - j], vv[c - j]));
        lemma_entry(
            q[c * d + r],
            vq[c * d + r],
            v[c - j],
            vv[c - j],
            inv,
            row_product(q, d, r, j, v, m),
            dot_with(row_line(vq, d, r, j), vv, m),
            t,
            length,
            bound,
        );
    }
}

/// Column `c` of a table, reflected in the same way. Rows before `j` stay.
pub proof fn law_reflected_column(a: Seq<Single>, va: Seq<int>, d: int, j: int, v: Seq<Single>, vv: Seq<int>, inv: Single, bound: int, c: int, t: int, r: int)
    requires
        reflects_integers(a, va, d, j, v, vv, inv, bound),
        j <= c < d,
        0 <= r < d,
        turns_by(column_line(va, d, c, j), vv, t, bound),
    ensures
        r >= j ==> is_whole(reflect_columns(a, d, j, v, inv, d)[c * d + r], va[c * d + r] - t * vv[r - j]),
        r < j ==> reflect_columns(a, d, j, v, inv, d)[c * d + r] == a[c * d + r],
{
    let m = (d - j) as nat;
    lemma_row(c, d, d);
    lemma_cell(c, r, d);
    if r >= j {
        lemma_column_dot(a, va, d, j, v, vv, inv, bound, c, m);
        let length = dot_with(vv, vv, m);
        assert(is_whole(a[c * d + r], va[c * d + r]));
        assert(is_whole(v[r - j], vv[r - j]));
        lemma_entry(
            a[c * d + r],
            va[c * d + r],
            v[r - j],
            vv[r - j],
            inv,
            column_product(a, d, c, j, v, m),
            dot_with(column_line(va, d, c, j), vv, m),
            t,
            length,
            bound,
        );
    }
}

/// The products of two lines that were each changed along `v`.
proof fn lemma_products(x: Seq<int>, y: Seq<int>, x2: Seq<int>, y2: Seq<int>, v: Seq<int>, tx: int, ty: int, n: nat)
    requires
        forall|i: int| 0 <= i < n ==> #[trigger] x2[i] == x[i] - tx * v[i],
        forall|i: int| 0 <= i < n ==> #[trigger] y2[i] == y[i] - ty * v[i],
    ensures
        dot_with(x2, y2, n) == dot_with(x, y, n) - ty * dot_with(x, v, n) - tx * dot_with(y, v, n) + tx * ty * dot_with(
            v,
            v,
            n,
        ),
    decreases n,
{
    if n > 0 {
        let e = (n - 1) as nat;
        lemma_products(x, y, x2, y2, v, tx, ty, e);
        let a = x[n - 1];
        let b = y[n - 1];
        let c = v[n - 1];
        let a2 = x2[n - 1];
        let b2 = y2[n - 1];
        let dx = dot_with(x, v, e);
        let dy = dot_with(y, v, e);
        let dv = dot_with(v, v, e);
        let p = tx * c;
        let o = ty * c;
        assert(a2 * b2 == a * b - a * o - p * b + p * o) by (nonlinear_arith)
            requires
                a2 == a - p,
                b2 == b - o,
        ;
        assert(a * o == ty * (a * c)) by (nonlinear_arith)
            requires
                o == ty * c,
        ;
        assert(p * b == tx * (b * c)) by (nonlinear_arith)
            requires
                p == tx * c,
        ;
        assert(p * o == tx * ty * (c * c)) by (nonlinear_arith)
            requires
                p == tx * c,
                o == ty * c,
        ;
        assert(ty * (dx + a * c) == ty * dx + ty * (a * c) && tx * (dy + b * c) == tx * dy + tx * (b * c) && tx * ty * (dv
            + c * c) == tx * ty * dv + tx * ty * (c * c)) by (nonlinear_arith);
    } else {
        assert(ty * 0 == 0 && tx * 0 == 0 && tx * ty * 0 == 0) by (nonlinear_arith);
    }
}

/// So a reflection keeps the products of any two rows, and with them their lengths and angles:
/// `vo` are the integers that the reflected table holds.
pub proof fn law_reflection_keeps_products(
    q: Seq<Single>,
    vq: Seq<int>,
    d: int,
    j: int,
    v: Seq<Single>,
    vv: Seq<int>,
    inv: Single,
    bound: int,
    r: int,
    s: int,
    tr: int,
    ts: int,
    vo: Seq<int>,
    bo: int,
)
    requires
        reflects_integers(q, vq, d, j, v, vv, inv, bound),
        0 <= r < d,
        0 <= s < d,
        turns_by(row_line(vq, d, r, j), vv, tr, bound),
        turns_by(row_line(vq, d, s, j), vv, ts, bound),
        whole_table(reflect_rows(q, d, j, v, inv, d), vo, bo),
    ensures
        dot_with(row_line(vo, d, r, j), row_line(vo, d, s, j), (d - j) as nat) == dot_with(
            row_line(vq, d, r, j),
            row_line(vq, d, s, j),
            (d - j) as nat,
        ),
{
    let m = (d - j) as nat;
    let x = row_line(vq, d, r, j);
    let y = row_line(vq, d, s, j);
    let x2 = row_line(vo, d, r, j);
    let y2 = row_line(vo, d, s, j);
    assert forall|i: int| 0 <= i < m implies #[trigger] x2[i] == x[i] - tr * vv[i] by {
        lemma_value(q, vq, d, j, v, vv, inv, bound, r, tr, j + i, vo, bo);
    }
    assert forall|i: int| 0 <= i < m implies #[trigger] y2[i] == y[i] - ts * vv[i] by {
        lemma_value(q, vq, d, j, v, vv, inv, bound, s, ts, j + i, vo, bo);
    }
    lemma_products(x, y, x2, y2, vv, tr, ts, m);
    let dx = dot_with(x, vv, m);
    let dy = dot_with(y, vv, m);
    let l = dot_with(vv, vv, m);
    assert(ts * dx + tr * dy == tr * ts * l) by (nonlinear_arith)
        requires
            2 * dx == tr * l,
            2 * dy == ts * l,
    {
        assert(2 * (ts * dx) == ts * (tr * l) && 2 * (tr * dy) == tr * (ts * l)) by (nonlinear_arith)
            requires
                2 * dx == tr * l,
                2 * dy == ts * l,
        ;
        assert(ts * (tr * l) == tr * ts * l && tr * (ts * l) == tr * ts * l) by (nonlinear_arith);
    }
}

proof fn lemma_value(
    q: Seq<Single>,
    vq: Seq<int>,
    d: int,
    j: int,
    v: Seq<Single>,
    vv: Seq<int>,
    inv: Single,
    bound: int,
    r: int,
    t: int,
    c: int,
    vo: Seq<int>,
    bo: int,
)
    requires
        reflects_integers(q, vq, d, j, v, vv, inv, bound),
        0 <= r < d,
        j <= c < d,
        turns_by(row_line(vq, d, r, j), vv, t, bound),
        whole_table(reflect_rows(q, d, j, v, inv, d), vo, bo),
    ensures
        vo[c * d + r] == vq[c * d + r] - t * vv[c - j],
{
    law_reflected_row(q, vq, d, j, v, vv, inv, bound, r, t, c);
    lemma_row(c, d, d);
    let out = reflect_rows(q, d, j, v, inv, d);
    let a = vo[c * d + r];
    let b = vq[c * d + r] - t * vv[c - j];
    assert(is_whole(out[c * d + r], a));
    lemma_pow2_pos(149);
    assert(a == b) by (nonlinear_arith)
        requires
            a * pow2(149) == b * pow2(149),
            pow2(149) > 0,
    ;
}

/// The reflection that clears a column: its vector is the column from the diagonal on, but its first
/// entry has grown, away from zero, by the length of that column; and it is scaled so that `inv` times
/// its squared length is 2. All but for rounding.
pub proof fn law_reflector(a: Seq<Single>, d: int, j: int)
    requires
        0 <= j < d,
        a.len() == d * d,
        reflector(a, d, j) is Some,
        a[j * d + j].is_finite(),
        sum_of_squares(a, j * d + j, j * d + d).is_finite(),
        sum_of_squares(a, j * d + j, j * d + d).units() >= 0,
        reflector(a, d, j)->0.v[0].is_finite(),
        sum_of_squares(reflector(a, d, j)->0.v, 0, d - j).is_finite(),
        pow2(23) <= sum_of_squares(reflector(a, d, j)->0.v, 0, d - j).units() <= pow2(275),
        reflector(a, d, j)->0.inv.is_finite(),
    ensures
        ({
            let h = reflector(a, d, j)->0;
            let column = sum_of_squares(a, j * d + j, j * d + d).units() * pow2(149);
            let head = a[j * d + j].units();
            let length = sum_of_squares(a, j * d + j, j * d + d).root().units();
            &&& h.v.len() == d - j
            &&& forall|i: int| 0 < i < d - j ==> #[trigger] h.v[i] == a[j * d + j + i]
            &&& length >= 0
            &&& near(length * length, column, 3 * column + 0x2_0000_0000_0000)
            &&& near(
                h.v[0].units(),
                if head >= 0 {
                    head + length
                } else {
                    head - length
                },
                magnitude(h.v[0].units()),
            )
            &&& close(
                h.inv.units() * sum_of_squares(h.v, 0, d - j).units(),
                ((2 * pow2(149)) * pow2(149)) as int,
                1,
            )
        }),
{
    let h = reflector(a, d, j)->0;
    let s = sum_of_squares(a, j * d + j, j * d + d);
    let zero = Single { bits: ZERO };
    lemma_zero();
    assert(0 * pow2(149) == 0);
    lemma_order_of_values(s, s);
    lemma_order_of_values(zero, s);
    crate::errors::lemma_root_finite(s);
    lemma_root_error_any(s);
    let norm = s.root();
    let head = a[j * d + j];
    lemma_below_by_value(head, zero);
    let alpha = if head.at_least(zero) {
        norm.opposite()
    } else {
        norm
    };
    assert(norm.opposite().is_finite() && norm.opposite().units() == -norm.units()) by {
        reveal(Single::opposite);
        lemma_of_parts(negated(norm.parts()));
    }
    assert(h.v[0] == head.minus(alpha));
    lemma_difference_error(head, alpha);
    let l = sum_of_squares(h.v, 0, d - j);
    let two = Single { bits: TWO };
    lemma_pow2_pos(23);
    lemma_pow2_pos(149);
    lemma_pow2_adds(1, 149);
    lemma_pow2_adds(150, 149);
    lemma_pow2_adds(23, 275);
    lemma2_to64();
    lemma_pow2_strictly_increases(298, 299);
    assert(two.units() * pow2(149) >= 0x80_0000 * l.units());
    assert(two.units() > 0);
    lemma_quotient_error(two, l);
}

} // verus!
