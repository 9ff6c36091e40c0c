//! ADSampling-style random rotation and per-dimension pruning thresholds.
//!
//! The rotation is the orthonormal factor of a matrix of independent normal numbers, found with
//! Householder reflections. The numbers are drawn by the caller.
use crate::common::{lemma_cell, lemma_position, lemma_row, KnnCandidate};
use crate::double::Double;
use crate::gemm::{gemm_result, lemma_fits, sgemm_ld, sgemm_row_major};
use crate::single::{Single, ONE, TWO, ZERO};
use vstd::prelude::*;

verus! {

/// The bits of 1e-12.
pub const SMALLEST_NORM: u32 = 0x2b8c_bccc;

/// The bits of 1e-30.
pub const SMALLEST_REFLECTOR: u32 = 0x0da2_4260;

/// The share of the best distance that the first `visited` of `total` dimensions may take.
pub open spec fn pruning_ratio(visited: nat, total: nat, epsilon0: Single) -> Single {
    if visited == 0 || visited == total {
        Single { bits: ONE }
    } else {
        let v = Double::from_nat(visited);
        let t = Double::from_nat(total);
        let one = Double { bits: crate::double::ONE };
        let slack = one.plus(epsilon0.widened().over(v.root()));
        v.over(t).times(slack).times(slack).narrowed()
    }
}

pub open spec fn pruning_ratios(d: nat, epsilon0: Single) -> Seq<Single> {
    Seq::new(d + 1, |i: int| pruning_ratio(i as nat, d, epsilon0))
}

fn compute_ratio(visited: usize, total: usize, epsilon0: Single) -> (r: Single)
    ensures
        r == pruning_ratio(visited as nat, total as nat, epsilon0),
{
    if visited == 0 || visited == total {
        return Single { bits: ONE };
    }
    let v: Double = Double::from_integer(visited as u64);
    let t: Double = Double::from_integer(total as u64);
    let one: Double = Double { bits: crate::double::ONE };
    let slack: Double = one.add(epsilon0.to_double().div(v.sqrt()));
    v.div(t).mul(slack).mul(slack).to_single()
}

/// The sum of the squares of `x[from..to]`.
pub open spec fn sum_of_squares(x: Seq<Single>, from: int, to: int) -> Single
    decreases to - from,
{
    if to <= from {
        Single { bits: ZERO }
    } else {
        sum_of_squares(x, from, to - 1).plus(x[to - 1].times(x[to - 1]))
    }
}

pub(crate) fn square_sum(x: &[Single], from: usize, to: usize) -> (s: Single)
    requires
        from <= to <= x@.len(),
    ensures
        s == sum_of_squares(x@, from as int, to as int),
{
    let mut s: Single = Single { bits: ZERO };
    let mut i: usize = from;
    while i < to
        invariant
            from <= i <= to <= x@.len(),
            s == sum_of_squares(x@, from as int, i as int),
        decreases to - i,
    {
        s = s.add(x[i].mul(x[i]));
        i = i + 1;
    }
    s
}

/// What one reflection is made of.
pub struct Reflector {
    pub v: Seq<Single>,
    pub inv: Single,
}

/// The vector of the reflection that clears column `j` of `a` below its diagonal. `a` holds its
/// `d` columns one after the other.
pub open spec fn reflector_vector(a: Seq<Single>, d: int, j: int) -> Seq<Single> {
    let norm = sum_of_squares(a, j * d + j, j * d + d).root();
    let head = a[j * d + j];
    let alpha = if head.at_least(Single { bits: ZERO }) {
        norm.opposite()
    } else {
        norm
    };
    Seq::new(
        (d - j) as nat,
        |i: int|
            if i == 0 {
                head.minus(alpha)
            } else {
                a[j * d + j + i]
            },
    )
}

/// The reflection, unless the column is too short to give one.
pub open spec fn reflector(a: Seq<Single>, d: int, j: int) -> Option<Reflector> {
    let norm = sum_of_squares(a, j * d + j, j * d + d).root();
    let v = reflector_vector(a, d, j);
    let length = sum_of_squares(v, 0, d - j);
    if norm.below(Single { bits: SMALLEST_NORM }) || length.below(
        Single { bits: SMALLEST_REFLECTOR },
    ) {
        None
    } else {
        Some(Reflector { v, inv: (Single { bits: TWO }).over(length) })
    }
}

/// The first `n` terms of `v` times column `c` of `a` from row `j` on.
pub open spec fn column_product(a: Seq<Single>, d: int, c: int, j: int, v: Seq<Single>, n: nat) -> Single
    decreases n,
{
    if n == 0 {
        Single { bits: ZERO }
    } else {
        column_product(a, d, c, j, v, (n - 1) as nat).plus(v[n - 1].times(a[c * d + (n - 1) + j]))
    }
}

/// The first `n` terms of row `r` of `q` from column `j` on times `v`.
pub open spec fn row_product(q: Seq<Single>, d: int, r: int, j: int, v: Seq<Single>, n: nat) -> Single
    decreases n,
{
    if n == 0 {
        Single { bits: ZERO }
    } else {
        row_product(q, d, r, j, v, (n - 1) as nat).plus(q[(j + (n - 1)) * d + r].times(v[n - 1]))
    }
}

/// The reflection applied to the columns of `a` from `j` up to `end`.
pub open spec fn reflect_columns(a: Seq<Single>, d: int, j: int, v: Seq<Single>, inv: Single, end: int) -> Seq<Single> {
    Seq::new(
        a.len(),
        |x: int|
            if j <= x / d < end && x % d >= j {
                a[x].minus(
                    inv.times(column_product(a, d, x / d, j, v, (d - j) as nat)).times(v[x % d - j]),
                )
            } else {
                a[x]
            },
    )
}

/// The reflection applied from the right to the first `end` rows of `q`.
pub open spec fn reflect_rows(q: Seq<Single>, d: int, j: int, v: Seq<Single>, inv: Single, end: int) -> Seq<Single> {
    Seq::new(
        q.len(),
        |x: int|
            if x % d < end && x / d >= j {
                q[x].minus(
                    inv.times(row_product(q, d, x % d, j, v, (d - j) as nat)).times(v[x / d - j]),
                )
            } else {
                q[x]
            },
    )
}

/// `a` reduced and `q` accumulated over the first `steps` columns.
pub open spec fn factor(a: Seq<Single>, d: int, steps: nat) -> (Seq<Single>, Seq<Single>)
    decreases steps,
{
    if steps == 0 {
        (
            a,
            Seq::new(
                (d * d) as nat,
                |x: int|
                    if x / d == x % d {
                        Single { bits: ONE }
                    } else {
                        Single { bits: ZERO }
                    },
            ),
        )
    } else {
        let (b, q) = factor(a, d, (steps - 1) as nat);
        let j = steps - 1;
        match reflector(b, d, j) {
            Some(h) => (
                reflect_columns(b, d, j, h.v, h.inv, d),
                reflect_rows(q, d, j, h.v, h.inv, d),
            ),
            None => (b, q),
        }
    }
}

/// The orthonormal factor of the `d` columns `normals`, row by row.
pub open spec fn orthonormal_factor(normals: Seq<Single>, d: int) -> Seq<Single> {
    let q = factor(normals, d, d as nat).1;
    Seq::new((d * d) as nat, |x: int| q[(x % d) * d + x / d])
}

/// Subtracts from column `c`, which is still as in `start`, its reflection.
fn reflect_column(a: &mut Vec<Single>, d: usize, c: usize, j: usize, v: &Vec<Single>, inv: Single, Ghost(start): Ghost<Seq<Single>>)
    requires
        j <= c < d,
        start.len() == d * d,
        v@.len() == d - j,
        old(a)@ == reflect_columns(start, d as int, j as int, v@, inv, c as int),
    ensures
        final(a)@ == reflect_columns(start, d as int, j as int, v@, inv, c + 1),
{
    let m: usize = d - j;
    let mut dot: Single = Single { bits: ZERO };
    let mut i: usize = 0;
    proof {
        lemma_row(c as int, d as int, d as int);
    }
    while i < m
        invariant
            i <= m,
            m == d - j,
            j <= c < d,
            v@.len() == m,
            a@.len() == start.len() == d * d,
            c * d + d <= d * d,
            c * d >= 0,
            a@ == reflect_columns(start, d as int, j as int, v@, inv, c as int),
            dot == column_product(start, d as int, c as int, j as int, v@, i as nat),
        decreases m - i,
    {
        proof {
            lemma_cell(c as int, i + j, d as int);
            assert(a@.len() <= usize::MAX) by {
                assert(a.len() <= usize::MAX);
            }
        }
        let x: Single = a[c * d + (i + j)];
        assert(x == start[c * d + i + j]);
        dot = dot.add(v[i].mul(x));
        i = i + 1;
    }
    let scale: Single = inv.mul(dot);
    let mut i: usize = 0;
    while i < m
        invariant
            i <= m,
            m == d - j,
            j <= c < d,
            v@.len() == m,
            a@.len() == start.len() == d * d,
            c * d + d <= d * d,
            c * d >= 0,
            scale == inv.times(column_product(start, d as int, c as int, j as int, v@, m as nat)),
            forall|x: int|
                0 <= x < a@.len() ==> #[trigger] a@[x] == if x / (d as int) == c && x % (d as int) >= j + i {
                    start[x]
                } else {
                    reflect_columns(start, d as int, j as int, v@, inv, c + 1)[x]
                },
        decreases m - i,
    {
        proof {
            lemma_cell(c as int, i + j, d as int);
            assert(a@.len() <= usize::MAX) by {
                assert(a.len() <= usize::MAX);
            }
        }
        let pos: usize = c * d + (i + j);
        let ghost before = a@;
        let x: Single = a[pos].sub(scale.mul(v[i]));
        a.set(pos, x);
        proof {
            assert forall|y: int| 0 <= y < a@.len() implies #[trigger] a@[y] == if y / (d as int) == c && y
                % (d as int) >= j + i + 1 {
                start[y]
            } else {
                reflect_columns(start, d as int, j as int, v@, inv, c + 1)[y]
            } by {
                assert(y != pos ==> a@[y] == before[y]);
                if y != pos {
                    lemma_position(y, d as int, d as int);
                }
            }
        }
        i = i + 1;
    }
    proof {
        assert forall|x: int| 0 <= x < a@.len() implies #[trigger] a@[x] == reflect_columns(start, d as int, j as int, v@, inv, c + 1)[x] by {
            lemma_position(x, d as int, d as int);
        }
        assert(a@ =~= reflect_columns(start, d as int, j as int, v@, inv, c + 1));
    }
}

/// Subtracts from row `r`, which is still as in `start`, its reflection.
fn reflect_row(q: &mut Vec<Single>, d: usize, r: usize, j: usize, v: &Vec<Single>, inv: Single, Ghost(start): Ghost<Seq<Single>>)
    requires
        j < d,
        r < d,
        start.len() == d * d,
        v@.len() == d - j,
        old(q)@ == reflect_rows(start, d as int, j as int, v@, inv, r as int),
    ensures
        final(q)@ == reflect_rows(start, d as int, j as int, v@, inv, r + 1),
{
    let m: usize = d - j;
    let mut dot: Single = Single { bits: ZERO };
    let mut i: usize = 0;
    while i < m
        invariant
            i <= m,
            m == d - j,
            j < d,
            r < d,
            v@.len() == m,
            q@.len() == start.len() == d * d,
            q@ == reflect_rows(start, d as int, j as int, v@, inv, r as int),
            dot == row_product(start, d as int, r as int, j as int, v@, i as nat),
        decreases m - i,
    {
        proof {
            lemma_row(j + i, d as int, d as int);
            lemma_cell(j + i, r as int, d as int);
            assert(q@.len() <= usize::MAX) by {
                assert(q.len() <= usize::MAX);
            }
        }
        let x: Single = q[(j + i) * d + r];
        assert(x == start[(j + i) * d + r]);
        dot = dot.add(x.mul(v[i]));
        i = i + 1;
    }
    let scale: Single = inv.mul(dot);
    let mut i: usize = 0;
    while i < m
        invariant
            i <= m,
            m == d - j,
            j < d,
            r < d,
            v@.len() == m,
            q@.len() == start.len() == d * d,
            scale == inv.times(row_product(start, d as int, r as int, j as int, v@, m as nat)),
            forall|x: int|
                0 <= x < q@.len() ==> #[trigger] q@[x] == if x % (d as int) == r && x / (d as int) >= j + i {
                    start[x]
                } else {
                    reflect_rows(start, d as int, j as int, v@, inv, r + 1)[x]
                },
        decreases m - i,
    {
        proof {
            lemma_row(j + i, d as int, d as int);
            lemma_cell(j + i, r as int, d as int);
            assert(q@.len() <= usize::MAX) by {
                assert(q.len() <= usize::MAX);
            }
        }
        let pos: usize = (j + i) * d + r;
        let ghost before = q@;
        let x: Single = q[pos].sub(scale.mul(v[i]));
        q.set(pos, x);
        proof {
            assert forall|y: int| 0 <= y < q@.len() implies #[trigger] q@[y] == if y % (d as int) == r && y
                / (d as int) >= j + i + 1 {
                start[y]
            } else {
                reflect_rows(start, d as int, j as int, v@, inv, r + 1)[y]
            } by {
                assert(y != pos ==> q@[y] == before[y]);
                if y != pos {
                    lemma_position(y, d as int, d as int);
                }
            }
        }
        i = i + 1;
    }
    proof {
        assert forall|x: int| 0 <= x < q@.len() implies #[trigger] q@[x] == reflect_rows(start, d as int, j as int, v@, inv, r + 1)[x] by {
            lemma_position(x, d as int, d as int);
        }
        assert(q@ =~= reflect_rows(start, d as int, j as int, v@, inv, r + 1));
    }
}

fn identity(d: usize) -> (q: Vec<Single>)
    requires
        d * d <= usize::MAX,
    ensures
        q@ == factor(Seq::empty(), d as int, 0).1,
{
    let mut q: Vec<Single> = vec![Single { bits: ZERO };d * d];
    let mut c: usize = 0;
    while c < d
        invariant
            c <= d,
            d * d <= usize::MAX,
            q@.len() == d * d,
            forall|x: int|
                0 <= x < d * d ==> #[trigger] q@[x] == if x / (d as int) == x % (d as int) && x / (d as int) < c {
                    Single { bits: ONE }
                } else {
                    Single { bits: ZERO }
                },
        decreases d - c,
    {
        proof {
            lemma_row(c as int, d as int, d as int);
            lemma_cell(c as int, c as int, d as int);
        }
        let ghost before = q@;
        q.set(c * d + c, Single { bits: ONE });
        proof {
            assert forall|x: int| 0 <= x < d * d implies #[trigger] q@[x] == if x / (d as int) == x % (d as int) && x
                / (d as int) < c + 1 {
                Single { bits: ONE }
            } else {
                Single { bits: ZERO }
            } by {
                assert(x != c * d + c ==> q@[x] == before[x]);
                lemma_position(x, d as int, d as int);
            }
        }
        c = c + 1;
    }
    proof {
        assert forall|x: int| 0 <= x < d * d implies #[trigger] q@[x] == factor(Seq::empty(), d as int, 0).1[x] by {
            lemma_position(x, d as int, d as int);
        }
    }
    q
}

/// The number of elements never changes.
proof fn lemma_factor_len(a: Seq<Single>, d: int, steps: nat)
    requires
        a.len() == d * d,
    ensures
        factor(a, d, steps).0.len() == d * d,
        factor(a, d, steps).1.len() == d * d,
    decreases steps,
{
    if steps > 0 {
        lemma_factor_len(a, d, (steps - 1) as nat);
    } else {
        assert(d * d >= 0) by (nonlinear_arith);
    }
}

/// One reflection: applied to `a` from the left and to `q` from the right.
fn reflect(a: &mut Vec<Single>, q: &mut Vec<Single>, d: usize, j: usize)
    requires
        j < d,
        old(a)@.len() == d * d,
        old(q)@.len() == d * d,
    ensures
        match reflector(old(a)@, d as int, j as int) {
            Some(h) => final(a)@ == reflect_columns(old(a)@, d as int, j as int, h.v, h.inv, d as int)
                && final(q)@ == reflect_rows(old(q)@, d as int, j as int, h.v, h.inv, d as int),
            None => final(a)@ == old(a)@ && final(q)@ == old(q)@,
        },
{
    let ghost a0 = a@;
    let ghost q0 = q@;
    proof {
        lemma_row(j as int, d as int, d as int);
        assert(a@.len() <= usize::MAX) by {
            assert(a.len() <= usize::MAX);
        }
    }
    let from: usize = j * d + j;
    let norm: Single = square_sum(a.as_slice(), from, j * d + d).sqrt();
    if norm.lt(Single { bits: SMALLEST_NORM }) {
        return;
    }
    let head: Single = a[from];
    let alpha: Single = if head.ge(Single { bits: ZERO }) {
        norm.neg()
    } else {
        norm
    };
    let m: usize = d - j;
    let mut v: Vec<Single> = Vec::new();
    v.push(head.sub(alpha));
    let mut i: usize = 1;
    while i < m
        invariant
            1 <= i <= m,
            m == d - j,
            j < d,
            from == j * d + j,
            j * d + d <= a@.len() <= usize::MAX,
            a@ == a0,
            v@ == reflector_vector(a0, d as int, j as int).take(i as int),
        decreases m - i,
    {
        v.push(a[from + i]);
        proof {
            assert(v@ =~= reflector_vector(a0, d as int, j as int).take(i + 1));
        }
        i = i + 1;
    }
    assert(v@ =~= reflector_vector(a0, d as int, j as int));
    let length: Single = square_sum(v.as_slice(), 0, m);
    if length.lt(Single { bits: SMALLEST_REFLECTOR }) {
        return;
    }
    let inv: Single = (Single { bits: TWO }).div(length);
    proof {
        assert(a@ =~= reflect_columns(a0, d as int, j as int, v@, inv, j as int));
        assert(q@ =~= reflect_rows(q0, d as int, j as int, v@, inv, 0)) by {
            assert forall|x: int| 0 <= x < q0.len() implies #[trigger] q0[x] == reflect_rows(q0, d as int, j as int, v@, inv, 0)[x] by {
                lemma_position(x, d as int, d as int);
            }
        }
    }
    let mut c: usize = j;
    while c < d
        invariant
            j <= c <= d,
            a0.len() == d * d,
            v@.len() == d - j,
            a@ == reflect_columns(a0, d as int, j as int, v@, inv, c as int),
        decreases d - c,
    {
        reflect_column(a, d, c, j, &v, inv, Ghost(a0));
        c = c + 1;
    }
    let mut r: usize = 0;
    while r < d
        invariant
            j < d,
            r <= d,
            q0.len() == d * d,
            v@.len() == d - j,
            q@ == reflect_rows(q0, d as int, j as int, v@, inv, r as int),
        decreases d - r,
    {
        reflect_row(q, d, r, j, &v, inv, Ghost(q0));
        r = r + 1;
    }
}

/// The orthonormal factor of a `d` by `d` matrix, found with Householder reflections. `normals`
/// holds the columns of the matrix one after the other.
pub fn random_orthonormal_matrix(d: usize, normals: &[Single]) -> (out: Vec<Single>)
    requires
        normals@.len() == d * d,
    ensures
        out@ == orthonormal_factor(normals@, d as int),
{
    assert(normals.len() <= usize::MAX);
    let mut a: Vec<Single> = vstd::slice::slice_to_vec(normals);
    assert(a@ =~= normals@);
    let mut q: Vec<Single> = identity(d);
    let mut j: usize = 0;
    while j < d
        invariant
            j <= d,
            normals@.len() == d * d,
            (a@, q@) == factor(normals@, d as int, j as nat),
        decreases d - j,
    {
        proof {
            lemma_factor_len(normals@, d as int, j as nat);
        }
        reflect(&mut a, &mut q, d, j);
        j = j + 1;
    }
    proof {
        lemma_factor_len(normals@, d as int, d as nat);
    }
    let total: usize = normals.len();
    let mut out: Vec<Single> = Vec::new();
    let mut x: usize = 0;
    while x < total
        invariant
            x <= total,
            total == d * d,
            q@.len() == d * d,
            q@ == factor(normals@, d as int, d as nat).1,
            out@ == orthonormal_factor(normals@, d as int).take(x as int),
        decreases total - x,
    {
        proof {
            if d == 0 {
                assert(d * d == 0) by (nonlinear_arith)
                    requires
                        d == 0,
                ;
            }
            lemma_position(x as int, d as int, d as int);
            lemma_row(x as int % d as int, d as int, d as int);
        }
        out.push(q[(x % d) * d + x / d]);
        proof {
            assert(out@ =~= orthonormal_factor(normals@, d as int).take(x + 1));
        }
        x = x + 1;
    }
    assert(out@ =~= orthonormal_factor(normals@, d as int));
    out
}

/// A random rotation and the pruning thresholds for every number of visited dimensions.
pub struct ADSamplingPruner {
    pub num_dimensions: usize,
    pub ratios: Vec<Single>,
    pub epsilon0: Single,
    /// Random orthonormal d × d rotation matrix, row-major.
    pub matrix: Vec<Single>,
}

/// What a pruner holds.
#[verifier::ext_equal]
pub ghost struct Pruner {
    pub num_dimensions: nat,
    pub ratios: Seq<Single>,
    pub epsilon0: Single,
    pub matrix: Seq<Single>,
}

impl Pruner {
    pub open spec fn wf(self) -> bool {
        &&& self.ratios == pruning_ratios(self.num_dimensions, self.epsilon0)
        &&& self.matrix.len() == self.num_dimensions * self.num_dimensions
    }

    /// The pruner with another epsilon.
    pub open spec fn with_epsilon0(self, epsilon0: Single) -> Pruner {
        Pruner { epsilon0, ratios: pruning_ratios(self.num_dimensions, epsilon0), ..self }
    }

    /// `out` with the first `n` vectors rotated into it.
    pub open spec fn rotated(self, vectors: Seq<Single>, out: Seq<Single>, n: nat) -> Seq<Single> {
        let d = self.num_dimensions;
        gemm_result(false, true, n, d, d, vectors, d as int, self.matrix, d as int, out, d as int)
    }

    /// `out` with the first `n` vectors rotated back into it.
    pub open spec fn unrotated(self, vectors: Seq<Single>, out: Seq<Single>, n: nat) -> Seq<Single> {
        let d = self.num_dimensions;
        gemm_result(false, false, n, d, d, vectors, d as int, self.matrix, d as int, out, d as int)
    }
}

impl View for ADSamplingPruner {
    type V = Pruner;

    open spec fn view(&self) -> Pruner {
        Pruner {
            num_dimensions: self.num_dimensions as nat,
            ratios: self.ratios@,
            epsilon0: self.epsilon0,
            matrix: self.matrix@,
        }
    }
}

impl ADSamplingPruner {
    /// A pruner that rotates by the orthonormal factor of `normals`, the `num_dimensions` columns
    /// of a matrix of independent draws from the standard normal distribution.
    pub fn new(num_dimensions: usize, epsilon0: Single, normals: &[Single]) -> (me: ADSamplingPruner)
        requires
            num_dimensions < usize::MAX,
            normals@.len() == num_dimensions * num_dimensions,
        ensures
            me@.wf(),
            me@.num_dimensions == num_dimensions,
            me@.epsilon0 == epsilon0,
            me@.matrix == orthonormal_factor(normals@, num_dimensions as int),
    {
        let matrix: Vec<Single> = random_orthonormal_matrix(num_dimensions, normals);
        let mut me: ADSamplingPruner = ADSamplingPruner {
            num_dimensions,
            ratios: Vec::new(),
            epsilon0,
            matrix,
        };
        proof {
            assert(num_dimensions * num_dimensions >= 0) by (nonlinear_arith);
        }
        me.initialize_ratios();
        me
    }

    pub(crate) fn duplicate(&self) -> (r: ADSamplingPruner)
        ensures
            r@ == self@,
    {
        let ratios: Vec<Single> = self.ratios.clone();
        let matrix: Vec<Single> = self.matrix.clone();
        assert(ratios@ =~= self.ratios@);
        assert(matrix@ =~= self.matrix@);
        ADSamplingPruner { num_dimensions: self.num_dimensions, ratios, epsilon0: self.epsilon0, matrix }
    }

    pub fn set_epsilon0(&mut self, eps0: Single)
        requires
            old(self).num_dimensions < usize::MAX,
        ensures
            final(self)@ == old(self)@.with_epsilon0(eps0),
    {
        self.epsilon0 = eps0;
        self.initialize_ratios();
    }

    fn initialize_ratios(&mut self)
        requires
            old(self).num_dimensions < usize::MAX,
        ensures
            final(self)@ == old(self)@.with_epsilon0(old(self).epsilon0),
    {
        let d: usize = self.num_dimensions;
        let eps: Single = self.epsilon0;
        let mut ratios: Vec<Single> = Vec::new();
        let mut i: usize = 0;
        while i <= d
            invariant
                i <= d + 1,
                d < usize::MAX,
                ratios@ == pruning_ratios(d as nat, eps).take(i as int),
            decreases d + 1 - i,
        {
            ratios.push(compute_ratio(i, d, eps));
            proof {
                assert(ratios@ =~= pruning_ratios(d as nat, eps).take(i + 1));
            }
            i = i + 1;
        }
        assert(ratios@ =~= pruning_ratios(d as nat, eps));
        self.ratios = ratios;
    }

    /// Threshold = best_distance * ratio(current_dim).
    pub fn pruning_threshold(&self, best: &KnnCandidate, current_dim: usize) -> (r: Single)
        requires
            current_dim < self.ratios@.len(),
        ensures
            r == best.distance.times(self@.ratios[current_dim as int]),
    {
        best.distance.mul(self.ratios[current_dim])
    }

    /// out = vectors * matrix^T
    pub fn rotate(&self, vectors: &[Single], out: &mut [Single], n: usize)
        requires
            self.matrix@.len() == self.num_dimensions * self.num_dimensions,
            vectors@.len() >= n * self.num_dimensions,
            old(out)@.len() >= n * self.num_dimensions,
        ensures
            final(out)@ == self@.rotated(vectors@, old(out)@, n as nat),
    {
        let d: usize = self.num_dimensions;
        proof {
            lemma_fits(n as int, d as int);
            lemma_fits(d as int, d as int);
        }
        sgemm_ld(false, true, n, d, d, vectors, d, self.matrix.as_slice(), d, out, d);
    }

    /// out = rotated * matrix   (inverse of `rotate` for orthonormal matrix).
    pub fn unrotate(&self, rotated: &[Single], out: &mut [Single], n: usize)
        requires
            self.matrix@.len() == self.num_dimensions * self.num_dimensions,
            rotated@.len() >= n * self.num_dimensions,
            old(out)@.len() >= n * self.num_dimensions,
        ensures
            final(out)@ == self@.unrotated(rotated@, old(out)@, n as nat),
    {
        let d: usize = self.num_dimensions;
        sgemm_row_major(n, d, d, rotated, self.matrix.as_slice(), out);
    }
}

} // verus!
