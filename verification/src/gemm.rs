//! Products of row-major matrices.
use crate::single::{Single, ZERO};
use vstd::prelude::*;

verus! {

/// Entry `(i, t)` of an operand stored with leading dimension `ld`, or of its transpose.
pub open spec fn entry(a: Seq<Single>, trans: bool, ld: int, i: int, t: int) -> Single {
    if trans {
        a[t * ld + i]
    } else {
        a[i * ld + t]
    }
}

/// The first `k` terms of row `i` of `a` times column `j` of `b`, added up from the left.
pub open spec fn row_times_column(
    a: Seq<Single>,
    trans_a: bool,
    lda: int,
    b: Seq<Single>,
    trans_b: bool,
    ldb: int,
    i: int,
    j: int,
    k: nat,
) -> Single
    decreases k,
{
    if k == 0 {
        Single { bits: ZERO }
    } else {
        row_times_column(a, trans_a, lda, b, trans_b, ldb, i, j, (k - 1) as nat).plus(
            entry(a, trans_a, lda, i, k - 1).times(entry(b, trans_b, ldb, k - 1, j)),
        )
    }
}

/// An operand of `rows` rows and `cols` columns fits into `len` elements.
pub open spec fn operand_fits(len: int, trans: bool, ld: int, rows: int, cols: int) -> bool {
    rows > 0 && cols > 0 ==> if trans {
        (cols - 1) * ld + rows <= len
    } else {
        (rows - 1) * ld + cols <= len
    }
}

proof fn lemma_entry_index(len: int, ld: int, rows: int, cols: int, i: int, t: int)
    requires
        0 <= i < rows,
        0 <= t < cols,
        0 <= ld,
        (rows - 1) * ld + cols <= len,
    ensures
        0 <= i * ld <= i * ld + t < len,
{
    assert(0 <= i * ld <= (rows - 1) * ld) by (nonlinear_arith)
        requires
            0 <= i <= rows - 1,
            0 <= ld,
    ;
}

fn load(a: &[Single], trans: bool, ld: usize, i: usize, t: usize, Ghost(rows): Ghost<int>, Ghost(cols): Ghost<int>) -> (x: Single)
    requires
        0 <= i < rows,
        0 <= t < cols,
        operand_fits(a@.len() as int, trans, ld as int, rows, cols),
    ensures
        x == entry(a@, trans, ld as int, i as int, t as int),
{
    assert(a.len() <= usize::MAX);
    if trans {
        proof {
            lemma_entry_index(a@.len() as int, ld as int, cols, rows, t as int, i as int);
        }
        a[t * ld + i]
    } else {
        proof {
            lemma_entry_index(a@.len() as int, ld as int, rows, cols, i as int, t as int);
        }
        a[i * ld + t]
    }
}

/// Whether element `x` of the result is entry `(i, j)` of the first `rows` rows.
pub open spec fn in_result(x: int, rows: int, n: int, ldc: int) -> bool {
    ldc > 0 && 0 <= x && x / ldc < rows && x % ldc < n
}

/// What `sgemm_ld` leaves in `c`: the product in the `m` by `n` window, everything else as it was.
pub open spec fn gemm_result(
    trans_a: bool,
    trans_b: bool,
    m: nat,
    k: nat,
    n: nat,
    a: Seq<Single>,
    lda: int,
    b: Seq<Single>,
    ldb: int,
    c: Seq<Single>,
    ldc: int,
) -> Seq<Single> {
    Seq::new(
        c.len(),
        |x: int|
            if in_result(x, m as int, n as int, ldc) {
                row_times_column(a, trans_a, lda, b, trans_b, ldb, x / ldc, x % ldc, k)
            } else {
                c[x]
            },
    )
}

/// General SGEMM: `c = op(a) * op(b)`, row-major, with explicit leading
/// dimensions. `trans_a`/`trans_b` transpose the respective operand.
///   a: (trans_a ? k×m : m×k), leading dim `lda`
///   b: (trans_b ? n×k : k×n), leading dim `ldb`
///   c: m×n, leading dim `ldc`
pub fn sgemm_ld(
    trans_a: bool,
    trans_b: bool,
    m: usize,
    k: usize,
    n: usize,
    a: &[Single],
    lda: usize,
    b: &[Single],
    ldb: usize,
    c: &mut [Single],
    ldc: usize,
)
    requires
        operand_fits(a@.len() as int, trans_a, lda as int, m as int, k as int),
        operand_fits(b@.len() as int, trans_b, ldb as int, k as int, n as int),
        operand_fits(old(c)@.len() as int, false, ldc as int, m as int, n as int),
        m > 0 && n > 0 ==> n <= ldc,
    ensures
        final(c)@ == gemm_result(
            trans_a,
            trans_b,
            m as nat,
            k as nat,
            n as nat,
            a@,
            lda as int,
            b@,
            ldb as int,
            old(c)@,
            ldc as int,
        ),
{
    let ghost start = c@;
    let mut i: usize = 0;
    while i < m
        invariant
            i <= m,
            operand_fits(a@.len() as int, trans_a, lda as int, m as int, k as int),
            operand_fits(b@.len() as int, trans_b, ldb as int, k as int, n as int),
            operand_fits(start.len() as int, false, ldc as int, m as int, n as int),
            m > 0 && n > 0 ==> n <= ldc,
            c@.len() == start.len(),
            c@ == gemm_result(trans_a, trans_b, i as nat, k as nat, n as nat, a@, lda as int, b@, ldb as int, start, ldc as int),
        decreases m - i,
    {
        let mut j: usize = 0;
        while j < n
            invariant
                i < m,
                j <= n,
                operand_fits(a@.len() as int, trans_a, lda as int, m as int, k as int),
                operand_fits(b@.len() as int, trans_b, ldb as int, k as int, n as int),
                operand_fits(start.len() as int, false, ldc as int, m as int, n as int),
                m > 0 && n > 0 ==> n <= ldc,
                c@.len() == start.len(),
                forall|x: int|
                    0 <= x < c@.len() ==> #[trigger] c@[x] == if in_result(x, i as int, n as int, ldc as int) || (
                    ldc > 0 && x / (ldc as int) == i && x % (ldc as int) < j) {
                        row_times_column(a@, trans_a, lda as int, b@, trans_b, ldb as int, x / (ldc as int), x % (ldc as int), k as nat)
                    } else {
                        start[x]
                    },
            decreases n - j,
        {
            let mut s: Single = Single { bits: ZERO };
            let mut t: usize = 0;
            while t < k
                invariant
                    i < m,
                    j < n,
                    t <= k,
                    operand_fits(a@.len() as int, trans_a, lda as int, m as int, k as int),
                    operand_fits(b@.len() as int, trans_b, ldb as int, k as int, n as int),
                    s == row_times_column(a@, trans_a, lda as int, b@, trans_b, ldb as int, i as int, j as int, t as nat),
                decreases k - t,
            {
                let x: Single = load(a, trans_a, lda, i, t, Ghost(m as int), Ghost(k as int));
                let y: Single = load(b, trans_b, ldb, t, j, Ghost(k as int), Ghost(n as int));
                s = s.add(x.mul(y));
                t = t + 1;
            }
            proof {
                lemma_entry_index(start.len() as int, ldc as int, m as int, n as int, i as int, j as int);
            }
            let ghost before = c@;
            assert(c.len() <= usize::MAX);
            c[i * ldc + j] = s;
            proof {
                let pos = i * ldc + j;
                let ld = ldc as int;
                vstd::arithmetic::div_mod::lemma_fundamental_div_mod_converse(pos, ld, i as int, j as int);
                assert forall|x: int| 0 <= x < c@.len() implies #[trigger] c@[x] == if in_result(x, i as int, n as int, ld) || (ld > 0
                    && x / ld == i && x % ld < j + 1) {
                    row_times_column(a@, trans_a, lda as int, b@, trans_b, ldb as int, x / ld, x % ld, k as nat)
                } else {
                    start[x]
                } by {
                    assert(x != pos ==> c@[x] == before[x]);
                    if x != pos {
                        vstd::arithmetic::div_mod::lemma_fundamental_div_mod(x, ld);
                        if x / ld == i && x % ld == j {
                            assert(x == pos) by (nonlinear_arith)
                                requires
                                    x == ld * (x / ld) + x % ld,
                                    x / ld == i,
                                    x % ld == j,
                                    pos == i * ld + j,
                            ;
                        }
                    }
                }
            }
            j = j + 1;
        }
        proof {
            assert(c@ =~= gemm_result(trans_a, trans_b, (i + 1) as nat, k as nat, n as nat, a@, lda as int, b@, ldb as int, start, ldc as int)) by {
                assert forall|x: int| 0 <= x < c@.len() implies #[trigger] c@[x] == gemm_result(trans_a, trans_b, (i + 1) as nat, k as nat, n as nat, a@, lda as int, b@, ldb as int, start, ldc as int)[x] by {
                    if ldc > 0 {
                        vstd::arithmetic::div_mod::lemma_mod_bound(x, ldc as int);
                    }
                }
            }
        }
        i = i + 1;
    }
}

/// Computes `c = a * b` (no transposes), all row-major.
///   `a`: m × k, `b`: k × n, `c`: m × n
pub fn sgemm_row_major(m: usize, k: usize, n: usize, a: &[Single], b: &[Single], c: &mut [Single])
    requires
        a@.len() >= m * k,
        b@.len() >= k * n,
        old(c)@.len() >= m * n,
    ensures
        final(c)@ == gemm_result(false, false, m as nat, k as nat, n as nat, a@, k as int, b@, n as int, old(c)@, n as int),
{
    proof {
        lemma_fits(m as int, k as int);
        lemma_fits(k as int, n as int);
        lemma_fits(m as int, n as int);
    }
    sgemm_ld(false, false, m, k, n, a, k, b, n, c, n);
}

/// Computes `c = a * b^T`, all row-major in storage.
///   `a`: m × k, `b`: n × k (accessed transposed), `c`: m × n
pub fn sgemm_row_major_b_transposed(m: usize, k: usize, n: usize, a: &[Single], b: &[Single], c: &mut [Single])
    requires
        a@.len() >= m * k,
        b@.len() >= n * k,
        old(c)@.len() >= m * n,
    ensures
        final(c)@ == gemm_result(false, true, m as nat, k as nat, n as nat, a@, k as int, b@, k as int, old(c)@, n as int),
{
    proof {
        lemma_fits(m as int, k as int);
        lemma_fits(n as int, k as int);
        lemma_fits(m as int, n as int);
    }
    sgemm_ld(false, true, m, k, n, a, k, b, k, c, n);
}

/// A matrix without gaps takes `rows * cols` elements.
pub proof fn lemma_fits(rows: int, cols: int)
    ensures
        rows > 0 ==> (rows - 1) * cols + cols == rows * cols,
{
    assert((rows - 1) * cols + cols == rows * cols) by (nonlinear_arith);
}

} // verus!
