//! Batched nearest-neighbour search built on top of matrix products and the pruning search.
use crate::adsampling::ADSamplingPruner;
use crate::common::{lemma_cell, lemma_row, KnnCandidate, X_BATCH_SIZE, Y_BATCH_SIZE};
use crate::distance::{l2_distance, l2_squared};
use crate::gemm::{lemma_fits, row_times_column, sgemm_ld};
use crate::pdxearch::{top1_partial_search, top1_search, Found};
use crate::single::{Single, LARGEST, MINUS_TWO, TWO, ZERO};
use vstd::prelude::*;

verus! {

/// The product of the first `e` entries of row `i` of `x` and row `c` of `y`, both of width `d`.
pub open spec fn dot(x: Seq<Single>, y: Seq<Single>, d: int, e: nat, i: int, c: int) -> Single {
    row_times_column(x, false, d, y, true, d, i, c, e)
}

/// Rows keep their products when they are cut out together with others.
proof fn lemma_dot_shift(x: Seq<Single>, y: Seq<Single>, d: int, e: nat, i: int, r: int, m: int, j: int, c: int, n: int)
    requires
        0 <= i,
        0 <= r < m,
        0 <= j,
        0 <= c < n,
        0 <= e <= d,
        (i + m) * d <= x.len(),
        (j + n) * d <= y.len(),
    ensures
        dot(x.subrange(i * d, (i + m) * d), y.subrange(j * d, (j + n) * d), d, e, r, c) == dot(
            x,
            y,
            d,
            e,
            i + r,
            j + c,
        ),
    decreases e,
{
    if e > 0 {
        lemma_dot_shift(x, y, d, (e - 1) as nat, i, r, m, j, c, n);
        lemma_inside(i, r, m, d, e - 1);
        lemma_inside(j, c, n, d, e - 1);
    }
}

/// Entry `t` of row `r`, counted from row `i` on.
proof fn lemma_inside(i: int, r: int, m: int, d: int, t: int)
    requires
        0 <= i,
        0 <= r < m,
        0 <= t < d,
    ensures
        0 <= i * d <= (i + m) * d,
        0 <= r * d + t < (i + m) * d - i * d,
        i * d + (r * d + t) == (i + r) * d + t,
{
    assert(0 <= i * d <= (i + m) * d && 0 <= r * d + t < (i + m) * d - i * d && i * d + (r * d + t) == (i + r) * d + t)
        by (nonlinear_arith)
        requires
            0 <= i,
            0 <= r < m,
            0 <= t < d,
    ;
}

/// Compute `out[i, j] = dot(x[i, :effective_d], y[j, :effective_d])`.
fn blas_dot_products(
    x_batch: &[Single],
    y_batch: &[Single],
    batch_n_x: usize,
    batch_n_y: usize,
    d: usize,
    effective_d: usize,
    out: &mut [Single],
)
    requires
        effective_d <= d,
        x_batch@.len() >= batch_n_x * d,
        y_batch@.len() >= batch_n_y * d,
        old(out)@.len() >= batch_n_x * batch_n_y,
    ensures
        final(out)@.len() == old(out)@.len(),
        forall|r: int, c: int|
            0 <= r < batch_n_x && 0 <= c < batch_n_y ==> #[trigger] final(out)@[r * batch_n_y + c] == dot(
                x_batch@,
                y_batch@,
                d as int,
                effective_d as nat,
                r,
                c,
            ),
{
    proof {
        lemma_fits(batch_n_x as int, d as int);
        lemma_fits(batch_n_y as int, d as int);
        lemma_fits(batch_n_x as int, batch_n_y as int);
    }
    sgemm_ld(false, true, batch_n_x, effective_d, batch_n_y, x_batch, d, y_batch, d, out, batch_n_y);
    proof {
        assert forall|r: int, c: int| 0 <= r < batch_n_x && 0 <= c < batch_n_y implies #[trigger] out@[r * batch_n_y + c] == dot(
            x_batch@,
            y_batch@,
            d as int,
            effective_d as nat,
            r,
            c,
        ) by {
            lemma_cell(r, c, batch_n_y as int);
            lemma_row(r, batch_n_x as int, batch_n_y as int);
        }
    }
}

/// The number of elements that one batch takes.
pub open spec fn batch_room(n_x: int, n_y: int) -> int {
    (if n_x < X_BATCH_SIZE {
        n_x
    } else {
        X_BATCH_SIZE as int
    }) * (if n_y < Y_BATCH_SIZE {
        n_y
    } else {
        Y_BATCH_SIZE as int
    })
}

fn smaller(a: usize, b: usize) -> (r: usize)
    ensures
        r == if a < b {
            a
        } else {
            b
        },
{
    if a < b {
        a
    } else {
        b
    }
}

proof fn lemma_batch_room(n_x: int, n_y: int, m: int, n: int)
    requires
        0 <= m <= n_x,
        0 <= n <= n_y,
        m <= X_BATCH_SIZE,
        n <= Y_BATCH_SIZE,
    ensures
        0 <= m * n <= batch_room(n_x, n_y),
{
    let a = if n_x < X_BATCH_SIZE {
        n_x
    } else {
        X_BATCH_SIZE as int
    };
    let b = if n_y < Y_BATCH_SIZE {
        n_y
    } else {
        Y_BATCH_SIZE as int
    };
    assert(0 <= m * n <= a * b) by (nonlinear_arith)
        requires
            0 <= m <= a,
            0 <= n <= b,
    ;
}

/// Grow `buf` so that one batch (up to `X_BATCH_SIZE × Y_BATCH_SIZE`, clamped
/// to the problem size) fits. The used region is written before it is read,
/// so stale contents are fine.
fn ensure_buf(buf: &mut Vec<Single>, n_x: usize, n_y: usize)
    ensures
        final(buf)@.len() == if old(buf)@.len() < batch_room(n_x as int, n_y as int) {
            batch_room(n_x as int, n_y as int)
        } else {
            old(buf)@.len() as int
        },
{
    let a: usize = smaller(n_x, X_BATCH_SIZE);
    let b: usize = smaller(n_y, Y_BATCH_SIZE);
    assert(a * b <= 4096 * 1024) by (nonlinear_arith)
        requires
            a <= 4096,
            b <= 1024,
    ;
    assert(a * b == batch_room(n_x as int, n_y as int));
    let required: usize = a * b;
    if buf.len() < required {
        buf.resize(required, Single { bits: ZERO });
    }
}

/// The products of a batch of rows, stored row by row at the front of `buf`.
fn fill_products(
    x: &[Single],
    y: &[Single],
    i: usize,
    m: usize,
    j: usize,
    n: usize,
    d: usize,
    e: usize,
    buf: &mut Vec<Single>,
)
    requires
        e <= d,
        (i + m) * d <= x@.len(),
        (j + n) * d <= y@.len(),
        old(buf)@.len() >= m * n,
    ensures
        final(buf)@.len() == old(buf)@.len(),
        forall|r: int, c: int|
            0 <= r < m && 0 <= c < n ==> #[trigger] final(buf)@[r * n + c] == dot(
                x@,
                y@,
                d as int,
                e as nat,
                i + r,
                j + c,
            ),
{
    proof {
        assert(x.len() <= usize::MAX);
        assert(y.len() <= usize::MAX);
        assert(0 <= i * d <= (i + m) * d && (i + m) * d - i * d == m * d) by (nonlinear_arith);
        assert(0 <= j * d <= (j + n) * d && (j + n) * d - j * d == n * d) by (nonlinear_arith);
        if d > 0 {
            assert(i + m <= (i + m) * d) by (nonlinear_arith)
                requires
                    d > 0,
                    0 <= i + m,
            ;
            assert(j + n <= (j + n) * d) by (nonlinear_arith)
                requires
                    d > 0,
                    0 <= j + n,
            ;
        }
    }
    let x_from: usize = i * d;
    let y_from: usize = j * d;
    proof {
        assert((i + m) * d == i * d + m * d) by (nonlinear_arith);
        assert((j + n) * d == j * d + n * d) by (nonlinear_arith);
    }
    let x_batch: &[Single] = &x[x_from..x_from + m * d];
    let y_batch: &[Single] = &y[y_from..y_from + n * d];
    blas_dot_products(x_batch, y_batch, m, n, d, e, buf.as_mut_slice());
    proof {
        assert forall|r: int, c: int| 0 <= r < m && 0 <= c < n implies #[trigger] buf@[r * n + c] == dot(
            x@,
            y@,
            d as int,
            e as nat,
            i + r,
            j + c,
        ) by {
            lemma_dot_shift(x@, y@, d as int, e as nat, i as int, r, m as int, j as int, c, n as int);
        }
    }
}

/// A set of queries `x` and a set of candidates `y` of width `d`, with their squared norms.
pub ghost struct Problem {
    pub x: Seq<Single>,
    pub y: Seq<Single>,
    pub n_y: nat,
    pub d: nat,
    pub norms_x: Seq<Single>,
    pub norms_y: Seq<Single>,
}

/// How many candidates the batch from `j` on holds.
pub open spec fn tile(n_y: int, j: int) -> int {
    if n_y - j < Y_BATCH_SIZE {
        n_y - j
    } else {
        Y_BATCH_SIZE as int
    }
}

/// The squared distance from the product of two vectors and their squared norms.
pub open spec fn from_dot(product: Single, norm_x: Single, norm_y: Single) -> Single {
    (Single { bits: MINUS_TWO }).times(product).plus(norm_x).plus(norm_y)
}

impl Problem {
    /// The squared distance of query `i` and candidate `c`.
    pub open spec fn distance(self, i: int, c: int) -> Single {
        from_dot(dot(self.x, self.y, self.d as int, self.d, i, c), self.norms_x[i], self.norms_y[c])
    }

    /// The smallest of the `n` distances from candidate `j` on, and where it stands there; the
    /// first one where several are equal.
    pub open spec fn tile_min(self, i: int, j: int, n: nat) -> (Single, nat)
        decreases n,
    {
        if n == 0 {
            (Single { bits: LARGEST }, 0)
        } else {
            let before = self.tile_min(i, j, (n - 1) as nat);
            let v = self.distance(i, j + n - 1);
            if v.below(before.0) {
                (v, (n - 1) as nat)
            } else {
                before
            }
        }
    }

    /// The better of `best` and the candidates of the batch from `j` on.
    pub open spec fn with_tile(self, i: int, best: KnnCandidate, j: int) -> KnnCandidate {
        let (v, c) = self.tile_min(i, j, tile(self.n_y as int, j) as nat);
        if v.below(best.distance) {
            KnnCandidate { index: (j + c) as u32, distance: v.larger(Single { bits: ZERO }) }
        } else {
            best
        }
    }

    /// The best of `best` and the candidates from `j` on, batch by batch.
    pub open spec fn nearest_from(self, i: int, best: KnnCandidate, j: int) -> KnnCandidate
        decreases self.n_y - j,
    {
        if j >= self.n_y {
            best
        } else {
            self.nearest_from(i, self.with_tile(i, best, j), j + tile(self.n_y as int, j))
        }
    }

    /// The candidate that is nearest to query `i`.
    pub open spec fn nearest(self, i: int) -> KnnCandidate {
        self.nearest_from(i, KnnCandidate { index: 0, distance: Single { bits: LARGEST } }, 0)
    }

    /// The nearest candidates of the first `n_x` queries in place of what was there.
    pub open spec fn indices(self, n_x: nat, old_indices: Seq<u32>) -> Seq<u32> {
        Seq::new(
            old_indices.len(),
            |i: int|
                if i < n_x {
                    self.nearest(i).index
                } else {
                    old_indices[i]
                },
        )
    }

    pub open spec fn distances(self, n_x: nat, old_distances: Seq<Single>) -> Seq<Single> {
        Seq::new(
            old_distances.len(),
            |i: int|
                if i < n_x {
                    self.nearest(i).distance
                } else {
                    old_distances[i]
                },
        )
    }
}

proof fn lemma_tile_min(p: Problem, i: int, j: int, n: nat)
    ensures
        n > 0 ==> p.tile_min(i, j, n).1 < n,
        n == 0 ==> p.tile_min(i, j, n).1 == 0,
    decreases n,
{
    if n > 0 {
        lemma_tile_min(p, i, j, (n - 1) as nat);
    }
}

/// The nearest candidate is one of the candidates, as long as there is one.
pub proof fn lemma_nearest_in_range(p: Problem, i: int, best: KnnCandidate, j: int)
    requires
        0 <= j,
        0 < p.n_y <= 0x1_0000_0000,
        best.index < p.n_y,
    ensures
        p.nearest_from(i, best, j).index < p.n_y,
    decreases p.n_y - j,
{
    if j < p.n_y {
        lemma_tile_min(p, i, j, tile(p.n_y as int, j) as nat);
        lemma_nearest_in_range(p, i, p.with_tile(i, best, j), j + tile(p.n_y as int, j));
    }
}

/// The smallest distance of one row of products, and where it stands.
fn scan_row(
    buf: &Vec<Single>,
    from: usize,
    n: usize,
    norm_x: Single,
    norms_y: &[Single],
    j: usize,
    Ghost(p): Ghost<Problem>,
    Ghost(i): Ghost<int>,
) -> (r: (Single, usize))
    requires
        from + n <= buf@.len(),
        j + n <= norms_y@.len(),
        norms_y@ == p.norms_y,
        norm_x == p.norms_x[i],
        forall|c: int|
            0 <= c < n ==> #[trigger] buf@[from + c] == dot(p.x, p.y, p.d as int, p.d, i, j + c),
    ensures
        r.0 == p.tile_min(i, j as int, n as nat).0,
        r.1 == p.tile_min(i, j as int, n as nat).1,
{
    let mut min_v: Single = Single { bits: LARGEST };
    let mut min_c: usize = 0;
    let mut c: usize = 0;
    while c < n
        invariant
            c <= n,
            from + n <= buf@.len(),
            j + n <= norms_y@.len(),
            norms_y@ == p.norms_y,
            norm_x == p.norms_x[i],
            forall|c: int|
                0 <= c < n ==> #[trigger] buf@[from + c] == dot(p.x, p.y, p.d as int, p.d, i, j + c),
            min_v == p.tile_min(i, j as int, c as nat).0,
            min_c == p.tile_min(i, j as int, c as nat).1,
        decreases n - c,
    {
        assert(buf.len() <= usize::MAX);
        assert(norms_y.len() <= usize::MAX);
        let product: Single = buf[from + c];
        assert(product == buf@[from + c as int]);
        let v: Single = (Single { bits: MINUS_TWO }).mul(product).add(norm_x).add(norms_y[j + c]);
        if v.lt(min_v) {
            min_v = v;
            min_c = c;
        }
        c = c + 1;
    }
    (min_v, min_c)
}

/// Brute-force top-1 nearest-centroid search via batched matrix products.
pub fn find_nearest_neighbor(
    x: &[Single],
    y: &[Single],
    n_x: usize,
    n_y: usize,
    d: usize,
    norms_x: &[Single],
    norms_y: &[Single],
    out_knn: &mut [u32],
    out_distances: &mut [Single],
    buf: &mut Vec<Single>,
)
    requires
        n_x * d <= x@.len(),
        n_y * d <= y@.len(),
        n_x <= norms_x@.len(),
        n_y <= norms_y@.len(),
        n_x <= old(out_knn)@.len(),
        n_x <= old(out_distances)@.len(),
        n_y <= 0x1_0000_0000,
    ensures
        ({
            let p = Problem {
                x: x@,
                y: y@,
                n_y: n_y as nat,
                d: d as nat,
                norms_x: norms_x@,
                norms_y: norms_y@,
            };
            &&& final(out_knn)@ == p.indices(n_x as nat, old(out_knn)@)
            &&& final(out_distances)@ == p.distances(n_x as nat, old(out_distances)@)
        }),
        n_y > 0 ==> forall|i: int| 0 <= i < n_x ==> #[trigger] final(out_knn)@[i] < n_y,
        final(buf)@.len() >= old(buf)@.len(),
{
    let ghost p = Problem {
        x: x@,
        y: y@,
        n_y: n_y as nat,
        d: d as nat,
        norms_x: norms_x@,
        norms_y: norms_y@,
    };
    let ghost old_knn = out_knn@;
    let ghost old_dist = out_distances@;
    let ghost none = KnnCandidate { index: 0, distance: Single { bits: LARGEST } };
    let mut t: usize = 0;
    while t < n_x
        invariant
            t <= n_x,
            n_x <= old_knn.len(),
            n_x <= old_dist.len(),
            out_knn@.len() == old_knn.len(),
            out_distances@.len() == old_dist.len(),
            none == (KnnCandidate { index: 0, distance: Single { bits: LARGEST } }),
            forall|q: int| 0 <= q < t ==> #[trigger] out_knn@[q] == none.index,
            forall|q: int| 0 <= q < t ==> #[trigger] out_distances@[q] == none.distance,
            forall|q: int| t <= q < old_knn.len() ==> #[trigger] out_knn@[q] == old_knn[q],
            forall|q: int| t <= q < old_dist.len() ==> #[trigger] out_distances@[q] == old_dist[q],
        decreases n_x - t,
    {
        out_distances[t] = Single { bits: LARGEST };
        out_knn[t] = 0;
        t = t + 1;
    }
    ensure_buf(buf, n_x, n_y);
    let ghost room = buf@.len();
    let mut i: usize = 0;
    while i < n_x
        invariant
            i <= n_x,
            n_x * d <= x@.len(),
            n_y * d <= y@.len(),
            n_x <= norms_x@.len(),
            n_y <= norms_y@.len(),
            n_x <= old_knn.len(),
            n_x <= old_dist.len(),
            n_y <= 0x1_0000_0000,
            p == (Problem { x: x@, y: y@, n_y: n_y as nat, d: d as nat, norms_x: norms_x@, norms_y: norms_y@ }),
            none == (KnnCandidate { index: 0, distance: Single { bits: LARGEST } }),
            out_knn@.len() == old_knn.len(),
            out_distances@.len() == old_dist.len(),
            buf@.len() == room,
            room >= batch_room(n_x as int, n_y as int),
            forall|q: int| 0 <= q < i ==> #[trigger] out_knn@[q] == p.nearest(q).index,
            forall|q: int| 0 <= q < i ==> #[trigger] out_distances@[q] == p.nearest(q).distance,
            forall|q: int| i <= q < n_x ==> #[trigger] out_knn@[q] == none.index,
            forall|q: int| i <= q < n_x ==> #[trigger] out_distances@[q] == none.distance,
            forall|q: int| n_x <= q < old_knn.len() ==> #[trigger] out_knn@[q] == old_knn[q],
            forall|q: int| n_x <= q < old_dist.len() ==> #[trigger] out_distances@[q] == old_dist[q],
        decreases n_x - i,
    {
        let m: usize = smaller(n_x - i, X_BATCH_SIZE);
        let mut j: usize = 0;
        while j < n_y
            invariant
                j <= n_y,
                i + m <= n_x,
                0 < m <= X_BATCH_SIZE,
                n_x * d <= x@.len(),
                n_y * d <= y@.len(),
                n_x <= norms_x@.len(),
                n_y <= norms_y@.len(),
                n_x <= old_knn.len(),
                n_x <= old_dist.len(),
                n_y <= 0x1_0000_0000,
                p == (Problem { x: x@, y: y@, n_y: n_y as nat, d: d as nat, norms_x: norms_x@, norms_y: norms_y@ }),
                out_knn@.len() == old_knn.len(),
                out_distances@.len() == old_dist.len(),
                buf@.len() == room,
                room >= batch_room(n_x as int, n_y as int),
                forall|q: int| 0 <= q < i ==> #[trigger] out_knn@[q] == p.nearest(q).index,
                forall|q: int| 0 <= q < i ==> #[trigger] out_distances@[q] == p.nearest(q).distance,
                forall|q: int|
                    #![trigger out_knn@[q]]
                    #![trigger out_distances@[q]]
                    i <= q < i + m ==> p.nearest(q) == p.nearest_from(
                        q,
                        KnnCandidate { index: out_knn@[q], distance: out_distances@[q] },
                        j as int,
                    ),
                forall|q: int| i + m <= q < n_x ==> #[trigger] out_knn@[q] == none.index,
                forall|q: int| i + m <= q < n_x ==> #[trigger] out_distances@[q] == none.distance,
                forall|q: int| n_x <= q < old_knn.len() ==> #[trigger] out_knn@[q] == old_knn[q],
                forall|q: int| n_x <= q < old_dist.len() ==> #[trigger] out_distances@[q] == old_dist[q],
            decreases n_y - j,
        {
            let n: usize = smaller(n_y - j, Y_BATCH_SIZE);
            assert(n == tile(n_y as int, j as int));
            proof {
                lemma_batch_room(n_x as int, n_y as int, m as int, n as int);
                assert((i + m) * d <= n_x * d) by (nonlinear_arith)
                    requires
                        i + m <= n_x,
                ;
                assert((j + n) * d <= n_y * d) by (nonlinear_arith)
                    requires
                        j + n <= n_y,
                ;
            }
            fill_products(x, y, i, m, j, n, d, d, buf);
            let mut r: usize = 0;
            while r < m
                invariant
                    r <= m,
                    j < n_y,
                    0 < n,
                    j + n <= n_y,
                    n == tile(n_y as int, j as int),
                    i + m <= n_x,
                    m <= X_BATCH_SIZE,
                    n_x <= norms_x@.len(),
                    n_y <= norms_y@.len(),
                    n_x <= old_knn.len(),
                    n_x <= old_dist.len(),
                    n_y <= 0x1_0000_0000,
                    m * n <= buf@.len(),
                    buf@.len() == room,
                    p == (Problem { x: x@, y: y@, n_y: n_y as nat, d: d as nat, norms_x: norms_x@, norms_y: norms_y@ }),
                    out_knn@.len() == old_knn.len(),
                    out_distances@.len() == old_dist.len(),
                    forall|r: int, c: int|
                        0 <= r < m && 0 <= c < n ==> #[trigger] buf@[r * n + c] == dot(x@, y@, d as int, d as nat, i + r, j + c),
                    forall|q: int| 0 <= q < i ==> #[trigger] out_knn@[q] == p.nearest(q).index,
                    forall|q: int| 0 <= q < i ==> #[trigger] out_distances@[q] == p.nearest(q).distance,
                    forall|q: int|
                        #![trigger out_knn@[q]]
                        #![trigger out_distances@[q]]
                        i <= q < i + r ==> p.nearest(q) == p.nearest_from(
                            q,
                            KnnCandidate { index: out_knn@[q], distance: out_distances@[q] },
                            j + n,
                        ),
                    forall|q: int|
                        #![trigger out_knn@[q]]
                        #![trigger out_distances@[q]]
                        i + r <= q < i + m ==> p.nearest(q) == p.nearest_from(
                            q,
                            KnnCandidate { index: out_knn@[q], distance: out_distances@[q] },
                            j as int,
                        ),
                    forall|q: int| i + m <= q < n_x ==> #[trigger] out_knn@[q] == none.index,
                    forall|q: int| i + m <= q < n_x ==> #[trigger] out_distances@[q] == none.distance,
                    forall|q: int| n_x <= q < old_knn.len() ==> #[trigger] out_knn@[q] == old_knn[q],
                    forall|q: int| n_x <= q < old_dist.len() ==> #[trigger] out_distances@[q] == old_dist[q],
                decreases m - r,
            {
                proof {
                    lemma_row(r as int, m as int, n as int);
                    lemma_tile_min(p, i + r, j as int, n as nat);
                    assert(buf.len() <= usize::MAX);
                }
                let ghost was = KnnCandidate { index: out_knn@[i + r], distance: out_distances@[i + r] };
                let (min_v, min_c) = scan_row(buf, r * n, n, norms_x[i + r], norms_y, j, Ghost(p), Ghost(i + r));
                if min_v.lt(out_distances[i + r]) {
                    out_distances[i + r] = min_v.max(Single { bits: ZERO });
                    out_knn[i + r] = (j + min_c) as u32;
                }
                assert(p.with_tile(i + r, was, j as int) == (KnnCandidate {
                    index: out_knn@[i + r],
                    distance: out_distances@[i + r],
                }));
                r = r + 1;
            }
            j = j + n;
        }
        i = i + m;
    }
    proof {
        assert(out_knn@ =~= p.indices(n_x as nat, old_knn));
        assert(out_distances@ =~= p.distances(n_x as nat, old_dist));
        assert forall|q: int| n_y > 0 && 0 <= q < n_x implies #[trigger] out_knn@[q] < n_y by {
            lemma_nearest_in_range(p, q, none, 0);
        }
    }
}

/// A search that starts from known candidates and prunes.
pub ghost struct Refinement {
    pub x: Seq<Single>,
    pub y: Seq<Single>,
    pub n_y: nat,
    pub d: nat,
    pub vertical_d: nat,
    pub horizontal_d: nat,
    pub norms_x: Seq<Single>,
    pub norms_y: Seq<Single>,
    pub ratios: Seq<Single>,
    pub partial_d: nat,
}

/// The best candidate so far, and how many candidates were not pruned at once.
pub ghost struct Refined {
    pub best: KnnCandidate,
    pub not_pruned: nat,
}

impl Refinement {
    /// The squared distance of query `i` and candidate `c` over the first `partial_d` dimensions.
    pub open spec fn partial_distance(self, i: int, c: int) -> Single {
        self.norms_x[i].plus(self.norms_y[c]).minus(
            (Single { bits: TWO }).times(dot(self.x, self.y, self.d as int, self.partial_d, i, c)),
        )
    }

    /// What the pruning search finds among the candidates of the batch from `j` on. For the first
    /// batch the distance to the known candidate is measured anew.
    pub open spec fn found(self, i: int, best: KnnCandidate, j: int) -> Found {
        let d = self.d as int;
        let n = tile(self.n_y as int, j);
        let query = self.x.subrange(i * d, i * d + d);
        let known = if j == 0 {
            l2_distance(self.y.subrange(best.index * d, best.index * d + d), query)
        } else {
            best.distance
        };
        top1_search(
            self.ratios,
            query,
            self.y.subrange(j * d, j * d + n * d),
            n as nat,
            d,
            self.vertical_d as int,
            self.horizontal_d as int,
            Seq::new(n as nat, |c: int| self.partial_distance(i, j + c)),
            self.partial_d as int,
            best.index,
            known,
            j,
        )
    }

    pub open spec fn with_tile(self, i: int, s: Refined, j: int) -> Refined {
        let found = self.found(i, s.best, j);
        Refined {
            best: KnnCandidate {
                index: found.top.index,
                distance: found.top.distance.larger(Single { bits: ZERO }),
            },
            not_pruned: s.not_pruned + found.not_pruned,
        }
    }

    /// The candidates from `j` on, batch by batch.
    pub open spec fn refined_from(self, i: int, s: Refined, j: int) -> Refined
        decreases self.n_y - j,
    {
        if j >= self.n_y {
            s
        } else {
            self.refined_from(i, self.with_tile(i, s, j), j + tile(self.n_y as int, j))
        }
    }

    /// What is found for query `i` from candidate `index` on.
    pub open spec fn refined(self, i: int, index: u32, distance: Single, count: nat) -> Refined {
        self.refined_from(i, Refined { best: KnnCandidate { index, distance }, not_pruned: count }, 0)
    }

    pub open spec fn indices(self, n_x: nat, knn: Seq<u32>, dist: Seq<Single>) -> Seq<u32> {
        Seq::new(
            knn.len(),
            |i: int|
                if i < n_x {
                    self.refined(i, knn[i], dist[i], 0).best.index
                } else {
                    knn[i]
                },
        )
    }

    pub open spec fn distances(self, n_x: nat, knn: Seq<u32>, dist: Seq<Single>) -> Seq<Single> {
        Seq::new(
            dist.len(),
            |i: int|
                if i < n_x {
                    self.refined(i, knn[i], dist[i], 0).best.distance
                } else {
                    dist[i]
                },
        )
    }

    /// The counts, each with the number of candidates that were not pruned at once.
    pub open spec fn counts(self, n_x: nat, knn: Seq<u32>, dist: Seq<Single>, counts: Seq<usize>) -> Seq<usize> {
        Seq::new(
            counts.len(),
            |i: int|
                if i < n_x {
                    (counts[i] + self.refined(i, knn[i], dist[i], 0).not_pruned) as usize
                } else {
                    counts[i]
                },
        )
    }
}

/// Counting starts where it is told to.
proof fn lemma_refined_count(p: Refinement, i: int, best: KnnCandidate, count: nat, j: int)
    ensures
        p.refined_from(i, Refined { best, not_pruned: count }, j).best == p.refined_from(
            i,
            Refined { best, not_pruned: 0 },
            j,
        ).best,
        p.refined_from(i, Refined { best, not_pruned: count }, j).not_pruned == count + p.refined_from(
            i,
            Refined { best, not_pruned: 0 },
            j,
        ).not_pruned,
    decreases p.n_y - j,
{
    if j < p.n_y {
        let a = p.with_tile(i, Refined { best, not_pruned: count }, j);
        let b = p.with_tile(i, Refined { best, not_pruned: 0 }, j);
        let next = j + tile(p.n_y as int, j);
        lemma_refined_count(p, i, a.best, a.not_pruned, next);
        lemma_refined_count(p, i, b.best, b.not_pruned, next);
    }
}

/// What was known of each query, as a candidate and a count.
pub open spec fn known(knn: Seq<u32>, dist: Seq<Single>, counts: Seq<usize>, i: int) -> Refined {
    Refined { best: KnnCandidate { index: knn[i], distance: dist[i] }, not_pruned: counts[i] as nat }
}

/// One query against the candidates of the batch from `j` on; its products stand in `buf`.
fn refine_row(
    x: &[Single],
    y: &[Single],
    i: usize,
    j: usize,
    n: usize,
    n_y: usize,
    d: usize,
    vertical_d: usize,
    horizontal_d: usize,
    norms_x: &[Single],
    norms_y: &[Single],
    pruner: &ADSamplingPruner,
    partial_d: usize,
    index: u32,
    distance: Single,
    buf: &Vec<Single>,
    from: usize,
    positions: &mut Vec<u32>,
    Ghost(p): Ghost<Refinement>,
) -> (r: (KnnCandidate, usize))
    requires
        p == (Refinement {
            x: x@,
            y: y@,
            n_y: n_y as nat,
            d: d as nat,
            vertical_d: vertical_d as nat,
            horizontal_d: horizontal_d as nat,
            norms_x: norms_x@,
            norms_y: norms_y@,
            ratios: pruner.ratios@,
            partial_d: partial_d as nat,
        }),
        j < n_y,
        n == tile(n_y as int, j as int),
        n_y <= 0x1_0000_0000,
        i < norms_x@.len(),
        n_y <= norms_y@.len(),
        (i + 1) * d <= x@.len(),
        n_y * d <= y@.len(),
        (index + 1) * d <= y@.len(),
        vertical_d + horizontal_d == d,
        partial_d <= vertical_d,
        pruner.ratios@.len() == d + 1,
        from + n <= buf@.len(),
        forall|c: int|
            0 <= c < n ==> #[trigger] buf@[from + c] == dot(
                x@,
                y@,
                d as int,
                partial_d as nat,
                i as int,
                j + c,
            ),
    ensures
        ({
            let best = KnnCandidate { index, distance };
            &&& r.0 == p.with_tile(i as int, Refined { best, not_pruned: 0 }, j as int).best
            &&& r.1 == p.found(i as int, best, j as int).not_pruned
        }),
        r.1 <= n,
        r.0.index == index || r.0.index < n_y,
{
    let ghost best = KnnCandidate { index, distance };
    let norm_x: Single = norms_x[i];
    let mut row: Vec<Single> = Vec::new();
    let mut c: usize = 0;
    while c < n
        invariant
            c <= n,
            j + n <= n_y,
            n_y <= norms_y@.len(),
            from + n <= buf@.len(),
            norm_x == p.norms_x[i as int],
            norms_y@ == p.norms_y,
            x@ == p.x,
            y@ == p.y,
            d == p.d,
            partial_d == p.partial_d,
            forall|c: int|
                0 <= c < n ==> #[trigger] buf@[from + c] == dot(x@, y@, d as int, partial_d as nat, i as int, j + c),
            row@ == Seq::new(c as nat, |c: int| p.partial_distance(i as int, j + c)),
        decreases n - c,
    {
        assert(buf.len() <= usize::MAX);
        assert(norms_y.len() <= usize::MAX);
        let product: Single = buf[from + c];
        assert(product == buf@[from + c as int]);
        row.push(norm_x.add(norms_y[j + c]).sub((Single { bits: TWO }).mul(product)));
        c = c + 1;
        assert(row@ =~= Seq::new(c as nat, |c: int| p.partial_distance(i as int, j + c)));
    }
    proof {
        assert(x.len() <= usize::MAX);
        assert(y.len() <= usize::MAX);
        lemma_row(i as int, i + 1, d as int);
        lemma_row(index as int, index + 1, d as int);
        assert(0 <= j * d && j * d + n * d <= n_y * d) by (nonlinear_arith)
            requires
                0 <= j,
                j + n <= n_y,
                0 <= d,
        ;
        assert(0 <= n * d) by (nonlinear_arith);
    }
    let query: &[Single] = &x[i * d..i * d + d];
    let known: Single = if j == 0 {
        let start: usize = index as usize * d;
        l2_squared(&y[start..start + d], query)
    } else {
        distance
    };
    let y_batch: &[Single] = &y[j * d..j * d + n * d];
    let (top, not_pruned) = top1_partial_search(
        pruner,
        query,
        y_batch,
        n,
        d,
        vertical_d,
        horizontal_d,
        row.as_mut_slice(),
        partial_d,
        index,
        known,
        j as u32,
        positions,
    );
    (KnnCandidate::new(top.index, top.distance.max(Single { bits: ZERO })), not_pruned)
}

/// Matrix products with pruning. `norms_x_partial` and `norms_y_partial` are
/// squared L2 norms restricted to the first `partial_d` dimensions.
/// `out_knn` / `out_distances` come in seeded from the previous iteration and
/// are refined in place.
pub fn find_nearest_neighbor_with_pruning(
    x: &[Single],
    y: &[Single],
    n_x: usize,
    n_y: usize,
    d: usize,
    vertical_d: usize,
    horizontal_d: usize,
    norms_x_partial: &[Single],
    norms_y_partial: &[Single],
    out_knn: &mut [u32],
    out_distances: &mut [Single],
    pruner: &ADSamplingPruner,
    partial_d: usize,
    out_not_pruned_counts: &mut [usize],
    buf: &mut Vec<Single>,
)
    requires
        n_x * d <= x@.len(),
        n_y * d <= y@.len(),
        n_x <= norms_x_partial@.len(),
        n_y <= norms_y_partial@.len(),
        n_x <= old(out_knn)@.len(),
        n_x <= old(out_distances)@.len(),
        n_x <= old(out_not_pruned_counts)@.len(),
        n_y <= 0x1_0000_0000,
        vertical_d + horizontal_d == d,
        partial_d <= vertical_d,
        pruner.ratios@.len() == d + 1,
        forall|i: int| 0 <= i < n_x ==> (#[trigger] old(out_knn)@[i] + 1) * d <= y@.len(),
        forall|i: int|
            0 <= i < n_x ==> #[trigger] old(out_not_pruned_counts)@[i] + n_y <= usize::MAX,
    ensures
        ({
            let p = Refinement {
                x: x@,
                y: y@,
                n_y: n_y as nat,
                d: d as nat,
                vertical_d: vertical_d as nat,
                horizontal_d: horizontal_d as nat,
                norms_x: norms_x_partial@,
                norms_y: norms_y_partial@,
                ratios: pruner.ratios@,
                partial_d: partial_d as nat,
            };
            let knn = old(out_knn)@;
            let dist = old(out_distances)@;
            &&& final(out_knn)@ == p.indices(n_x as nat, knn, dist)
            &&& final(out_distances)@ == p.distances(n_x as nat, knn, dist)
            &&& final(out_not_pruned_counts)@ == p.counts(
                n_x as nat,
                knn,
                dist,
                old(out_not_pruned_counts)@,
            )
        }),
        forall|i: int|
            0 <= i < n_x ==> #[trigger] final(out_knn)@[i] == old(out_knn)@[i] || final(out_knn)@[i] < n_y,
        final(buf)@.len() >= old(buf)@.len(),
{
    let ghost p = Refinement {
        x: x@,
        y: y@,
        n_y: n_y as nat,
        d: d as nat,
        vertical_d: vertical_d as nat,
        horizontal_d: horizontal_d as nat,
        norms_x: norms_x_partial@,
        norms_y: norms_y_partial@,
        ratios: pruner.ratios@,
        partial_d: partial_d as nat,
    };
    let ghost knn0 = out_knn@;
    let ghost dist0 = out_distances@;
    let ghost counts0 = out_not_pruned_counts@;
    ensure_buf(buf, n_x, n_y);
    let ghost room = buf@.len();
    let mut positions: Vec<u32> = Vec::new();
    let mut i: usize = 0;
    while i < n_x
        invariant
            i <= n_x,
            n_x * d <= x@.len(),
            n_y * d <= y@.len(),
            n_x <= norms_x_partial@.len(),
            n_y <= norms_y_partial@.len(),
            n_x <= knn0.len(),
            n_x <= dist0.len(),
            n_x <= counts0.len(),
            n_y <= 0x1_0000_0000,
            vertical_d + horizontal_d == d,
            partial_d <= vertical_d,
            pruner.ratios@.len() == d + 1,
            p == (Refinement {
                x: x@,
                y: y@,
                n_y: n_y as nat,
                d: d as nat,
                vertical_d: vertical_d as nat,
                horizontal_d: horizontal_d as nat,
                norms_x: norms_x_partial@,
                norms_y: norms_y_partial@,
                ratios: pruner.ratios@,
                partial_d: partial_d as nat,
            }),
            forall|q: int| 0 <= q < n_x ==> (#[trigger] knn0[q] + 1) * d <= y@.len(),
            forall|q: int| 0 <= q < n_x ==> #[trigger] counts0[q] + n_y <= usize::MAX,
            out_knn@.len() == knn0.len(),
            out_distances@.len() == dist0.len(),
            out_not_pruned_counts@.len() == counts0.len(),
            buf@.len() == room,
            room >= batch_room(n_x as int, n_y as int),
            forall|q: int|
                0 <= q < i ==> #[trigger] known(out_knn@, out_distances@, out_not_pruned_counts@, q) == p.refined_from(
                    q,
                    known(knn0, dist0, counts0, q),
                    0,
                ),
            forall|q: int| 0 <= q < i ==> #[trigger] out_knn@[q] == knn0[q] || out_knn@[q] < n_y,
            forall|q: int| i <= q < knn0.len() ==> #[trigger] out_knn@[q] == knn0[q],
            forall|q: int| i <= q < dist0.len() ==> #[trigger] out_distances@[q] == dist0[q],
            forall|q: int| i <= q < counts0.len() ==> #[trigger] out_not_pruned_counts@[q] == counts0[q],
        decreases n_x - i,
    {
        let m: usize = smaller(n_x - i, X_BATCH_SIZE);
        let mut j: usize = 0;
        while j < n_y
            invariant
                j <= n_y,
                i + m <= n_x,
                0 < m <= X_BATCH_SIZE,
                n_x * d <= x@.len(),
                n_y * d <= y@.len(),
                n_x <= norms_x_partial@.len(),
                n_y <= norms_y_partial@.len(),
                n_x <= knn0.len(),
                n_x <= dist0.len(),
                n_x <= counts0.len(),
                n_y <= 0x1_0000_0000,
                vertical_d + horizontal_d == d,
                partial_d <= vertical_d,
                pruner.ratios@.len() == d + 1,
                p == (Refinement {
                    x: x@,
                    y: y@,
                    n_y: n_y as nat,
                    d: d as nat,
                    vertical_d: vertical_d as nat,
                    horizontal_d: horizontal_d as nat,
                    norms_x: norms_x_partial@,
                    norms_y: norms_y_partial@,
                    ratios: pruner.ratios@,
                    partial_d: partial_d as nat,
                }),
                forall|q: int| 0 <= q < n_x ==> (#[trigger] knn0[q] + 1) * d <= y@.len(),
                forall|q: int| 0 <= q < n_x ==> #[trigger] counts0[q] + n_y <= usize::MAX,
                out_knn@.len() == knn0.len(),
                out_distances@.len() == dist0.len(),
                out_not_pruned_counts@.len() == counts0.len(),
                buf@.len() == room,
                room >= batch_room(n_x as int, n_y as int),
                forall|q: int|
                    0 <= q < i ==> #[trigger] known(out_knn@, out_distances@, out_not_pruned_counts@, q)
                        == p.refined_from(q, known(knn0, dist0, counts0, q), 0),
                forall|q: int|
                    i <= q < i + m ==> p.refined_from(
                        q,
                        #[trigger] known(out_knn@, out_distances@, out_not_pruned_counts@, q),
                        j as int,
                    ) == p.refined_from(q, known(knn0, dist0, counts0, q), 0),
                forall|q: int| i <= q < i + m ==> #[trigger] out_not_pruned_counts@[q] <= counts0[q] + j,
                forall|q: int| 0 <= q < i + m ==> #[trigger] out_knn@[q] == knn0[q] || out_knn@[q] < n_y,
                forall|q: int| i + m <= q < knn0.len() ==> #[trigger] out_knn@[q] == knn0[q],
                forall|q: int| i + m <= q < dist0.len() ==> #[trigger] out_distances@[q] == dist0[q],
                forall|q: int|
                    i + m <= q < counts0.len() ==> #[trigger] out_not_pruned_counts@[q] == counts0[q],
            decreases n_y - j,
        {
            let n: usize = smaller(n_y - j, Y_BATCH_SIZE);
            assert(n == tile(n_y as int, j as int));
            proof {
                lemma_batch_room(n_x as int, n_y as int, m as int, n as int);
                assert((i + m) * d <= n_x * d) by (nonlinear_arith)
                    requires
                        i + m <= n_x,
                ;
                assert((j + n) * d <= n_y * d) by (nonlinear_arith)
                    requires
                        j + n <= n_y,
                ;
            }
            fill_products(x, y, i, m, j, n, d, partial_d, buf);
            let mut r: usize = 0;
            while r < m
                invariant
                    r <= m,
                    j < n_y,
                    0 < n,
                    j + n <= n_y,
                    n == tile(n_y as int, j as int),
                    i + m <= n_x,
                    0 < m <= X_BATCH_SIZE,
                    n_x * d <= x@.len(),
                    n_y * d <= y@.len(),
                    n_x <= norms_x_partial@.len(),
                    n_y <= norms_y_partial@.len(),
                    n_x <= knn0.len(),
                    n_x <= dist0.len(),
                    n_x <= counts0.len(),
                    n_y <= 0x1_0000_0000,
                    vertical_d + horizontal_d == d,
                    partial_d <= vertical_d,
                    pruner.ratios@.len() == d + 1,
                    p == (Refinement {
                        x: x@,
                        y: y@,
                        n_y: n_y as nat,
                        d: d as nat,
                        vertical_d: vertical_d as nat,
                        horizontal_d: horizontal_d as nat,
                        norms_x: norms_x_partial@,
                        norms_y: norms_y_partial@,
                        ratios: pruner.ratios@,
                        partial_d: partial_d as nat,
                    }),
                    m * n <= buf@.len(),
                    buf@.len() == room,
                    forall|r: int, c: int|
                        0 <= r < m && 0 <= c < n ==> #[trigger] buf@[r * n + c] == dot(x@, y@, d as int, partial_d as nat, i + r, j + c),
                    forall|q: int| 0 <= q < n_x ==> (#[trigger] knn0[q] + 1) * d <= y@.len(),
                    forall|q: int| 0 <= q < n_x ==> #[trigger] counts0[q] + n_y <= usize::MAX,
                    out_knn@.len() == knn0.len(),
                    out_distances@.len() == dist0.len(),
                    out_not_pruned_counts@.len() == counts0.len(),
                    forall|q: int|
                        0 <= q < i ==> #[trigger] known(out_knn@, out_distances@, out_not_pruned_counts@, q)
                            == p.refined_from(q, known(knn0, dist0, counts0, q), 0),
                    forall|q: int|
                        i <= q < i + r ==> p.refined_from(
                            q,
                            #[trigger] known(out_knn@, out_distances@, out_not_pruned_counts@, q),
                            j + n,
                        ) == p.refined_from(q, known(knn0, dist0, counts0, q), 0),
                    forall|q: int|
                        i + r <= q < i + m ==> p.refined_from(
                            q,
                            #[trigger] known(out_knn@, out_distances@, out_not_pruned_counts@, q),
                            j as int,
                        ) == p.refined_from(q, known(knn0, dist0, counts0, q), 0),
                    forall|q: int|
                        i <= q < i + r ==> #[trigger] out_not_pruned_counts@[q] <= counts0[q] + j + n,
                    forall|q: int|
                        i + r <= q < i + m ==> #[trigger] out_not_pruned_counts@[q] <= counts0[q] + j,
                    forall|q: int|
                        0 <= q < i + m ==> #[trigger] out_knn@[q] == knn0[q] || out_knn@[q] < n_y,
                    forall|q: int| i + m <= q < knn0.len() ==> #[trigger] out_knn@[q] == knn0[q],
                    forall|q: int| i + m <= q < dist0.len() ==> #[trigger] out_distances@[q] == dist0[q],
                    forall|q: int|
                        i + m <= q < counts0.len() ==> #[trigger] out_not_pruned_counts@[q] == counts0[q],
                decreases m - r,
            {
                let ghost q = i + r;
                let ghost knn1 = out_knn@;
                let ghost dist1 = out_distances@;
                let ghost counts1 = out_not_pruned_counts@;
                let ghost was = known(knn1, dist1, counts1, q);
                proof {
                    lemma_row(r as int, m as int, n as int);
                    lemma_row(q, n_x as int, d as int);
                    assert(buf.len() <= usize::MAX);
                    assert(counts0[q] + n_y <= usize::MAX);
                    assert((knn1[q] + 1) * d <= y@.len()) by {
                        assert((knn0[q] + 1) * d <= y@.len());
                        if knn1[q] != knn0[q] {
                            lemma_row(knn1[q] as int, n_y as int, d as int);
                        }
                    }
                }
                let (top, not_pruned) = refine_row(
                    x,
                    y,
                    i + r,
                    j,
                    n,
                    n_y,
                    d,
                    vertical_d,
                    horizontal_d,
                    norms_x_partial,
                    norms_y_partial,
                    pruner,
                    partial_d,
                    out_knn[i + r],
                    out_distances[i + r],
                    buf,
                    r * n,
                    &mut positions,
                    Ghost(p),
                );
                out_not_pruned_counts[i + r] = out_not_pruned_counts[i + r] + not_pruned;
                out_knn[i + r] = top.index;
                out_distances[i + r] = top.distance;
                proof {
                    assert(known(out_knn@, out_distances@, out_not_pruned_counts@, q) == p.with_tile(q, was, j as int));
                    assert forall|k: int| 0 <= k < n_x && k != q implies #[trigger] known(
                        out_knn@,
                        out_distances@,
                        out_not_pruned_counts@,
                        k,
                    ) == known(knn1, dist1, counts1, k) by {}
                }
                r = r + 1;
            }
            j = j + n;
        }
        i = i + m;
    }
    proof {
        assert forall|q: int| 0 <= q < n_x implies #[trigger] known(
            out_knn@,
            out_distances@,
            out_not_pruned_counts@,
            q,
        ) == (Refined {
            best: p.refined(q, knn0[q], dist0[q], 0).best,
            not_pruned: counts0[q] as nat + p.refined(q, knn0[q], dist0[q], 0).not_pruned,
        }) by {
            lemma_refined_count(
                p,
                q,
                KnnCandidate { index: knn0[q], distance: dist0[q] },
                counts0[q] as nat,
                0,
            );
        }
        assert forall|q: int| 0 <= q < knn0.len() implies #[trigger] out_knn@[q] == p.indices(n_x as nat, knn0, dist0)[q] by {
            if q < n_x {
                let k = known(out_knn@, out_distances@, out_not_pruned_counts@, q);
            }
        }
        assert forall|q: int| 0 <= q < dist0.len() implies #[trigger] out_distances@[q] == p.distances(n_x as nat, knn0, dist0)[q] by {
            if q < n_x {
                let k = known(out_knn@, out_distances@, out_not_pruned_counts@, q);
            }
        }
        assert forall|q: int| 0 <= q < counts0.len() implies #[trigger] out_not_pruned_counts@[q] == p.counts(
            n_x as nat,
            knn0,
            dist0,
            counts0,
        )[q] by {
            if q < n_x {
                let k = known(out_knn@, out_distances@, out_not_pruned_counts@, q);
            }
        }
        assert(out_knn@ =~= p.indices(n_x as nat, knn0, dist0));
        assert(out_distances@ =~= p.distances(n_x as nat, knn0, dist0));
        assert(out_not_pruned_counts@ =~= p.counts(n_x as nat, knn0, dist0, counts0));
    }
}

/// Where `e` goes among the first `n` candidates, sought from the back: behind the last one that
/// is not farther.
pub open spec fn place(s: Seq<KnnCandidate>, e: KnnCandidate, n: nat) -> nat
    decreases n,
{
    if n > 0 && e.distance.below(s[n - 1].distance) {
        place(s, e, (n - 1) as nat)
    } else {
        n
    }
}

/// `s` with `e` in its place, cut to `k` candidates.
pub open spec fn with_candidate(s: Seq<KnnCandidate>, e: KnnCandidate, k: nat) -> Seq<KnnCandidate> {
    let all = s.insert(place(s, e, s.len()) as int, e);
    if all.len() > k {
        all.take(k as int)
    } else {
        all
    }
}

/// The `k` nearest of the first `n` candidates, nearest first; of two equals, the earlier first.
pub open spec fn k_best(candidates: Seq<KnnCandidate>, k: nat, n: nat) -> Seq<KnnCandidate>
    decreases n,
{
    if n == 0 {
        Seq::empty()
    } else {
        with_candidate(k_best(candidates, k, (n - 1) as nat), candidates[n - 1], k)
    }
}

/// The first `n` of `row`, without those that stand for nothing.
pub open spec fn live(row: Seq<KnnCandidate>, n: nat) -> Seq<KnnCandidate>
    decreases n,
{
    if n == 0 {
        Seq::empty()
    } else {
        let before = live(row, (n - 1) as nat);
        if row[n - 1].distance.below(Single { bits: LARGEST }) {
            before.push(row[n - 1])
        } else {
            before
        }
    }
}

/// What stands where there is no candidate.
pub open spec fn no_candidate() -> KnnCandidate {
    KnnCandidate { index: u32::MAX, distance: Single { bits: LARGEST } }
}

/// `k` places filled with the candidates in `top`, their distances not below zero.
pub open spec fn filled(top: Seq<KnnCandidate>, k: nat) -> Seq<KnnCandidate> {
    Seq::new(
        k,
        |t: int|
            if t < top.len() {
                KnnCandidate { index: top[t].index, distance: top[t].distance.larger(Single { bits: ZERO }) }
            } else {
                no_candidate()
            },
    )
}

impl Problem {
    /// The candidates that compete for the places of `row` when the batch from `j` on is seen.
    pub open spec fn contenders(self, i: int, row: Seq<KnnCandidate>, j: int) -> Seq<KnnCandidate> {
        live(row, row.len()) + Seq::new(
            tile(self.n_y as int, j) as nat,
            |c: int| KnnCandidate { index: (j + c) as u32, distance: self.distance(i, j + c) },
        )
    }

    pub open spec fn with_tile_in_row(self, i: int, row: Seq<KnnCandidate>, j: int) -> Seq<KnnCandidate> {
        let all = self.contenders(i, row, j);
        filled(k_best(all, row.len(), all.len()), row.len())
    }

    /// The row after the candidates from `j` on, batch by batch.
    pub open spec fn k_nearest_from(self, i: int, row: Seq<KnnCandidate>, j: int) -> Seq<KnnCandidate>
        decreases self.n_y - j,
    {
        if j >= self.n_y {
            row
        } else {
            self.k_nearest_from(i, self.with_tile_in_row(i, row, j), j + tile(self.n_y as int, j))
        }
    }

    /// The `k` candidates nearest to query `i`.
    pub open spec fn k_nearest(self, i: int, k: nat) -> Seq<KnnCandidate> {
        self.k_nearest_from(i, Seq::new(k, |t: int| no_candidate()), 0)
    }
}

/// Row `i` of the two tables of width `k`.
pub open spec fn row_of(knn: Seq<u32>, dist: Seq<Single>, i: int, k: nat) -> Seq<KnnCandidate> {
    Seq::new(k, |t: int| KnnCandidate { index: knn[i * k + t], distance: dist[i * k + t] })
}

proof fn lemma_place(s: Seq<KnnCandidate>, e: KnnCandidate, n: nat)
    ensures
        place(s, e, n) <= n,
    decreases n,
{
    if n > 0 && e.distance.below(s[n - 1].distance) {
        lemma_place(s, e, (n - 1) as nat);
    }
}

/// Puts `e` among the nearest candidates, as long as there are no `k` nearer ones.
fn insert_candidate(top: &mut Vec<KnnCandidate>, e: KnnCandidate, k: usize)
    requires
        old(top)@.len() <= k,
    ensures
        final(top)@ == with_candidate(old(top)@, e, k as nat),
        final(top)@.len() <= k,
{
    let ghost start = top@;
    let mut at: usize = top.len();
    while at > 0 && e.distance.lt(top[at - 1].distance)
        invariant
            at <= top@.len(),
            top@ == start,
            place(start, e, at as nat) == place(start, e, start.len()),
        decreases at,
    {
        at = at - 1;
    }
    if at < k {
        if top.len() == k {
            top.truncate(k - 1);
        }
        top.insert(at, e);
    }
    proof {
        let all = start.insert(at as int, e);
        if start.len() == k {
            if at < k {
                assert(top@ =~= all.take(k as int));
            } else {
                assert(all.take(k as int) =~= start);
            }
        }
    }
}

/// The row after one more batch of products.
fn merge_row(
    buf: &Vec<Single>,
    from: usize,
    n: usize,
    norm_x: Single,
    norms_y: &[Single],
    j: usize,
    row: &Vec<KnnCandidate>,
    Ghost(p): Ghost<Problem>,
    Ghost(i): Ghost<int>,
) -> (r: Vec<KnnCandidate>)
    requires
        from + n <= buf@.len(),
        j + n <= norms_y@.len(),
        j + n <= 0x1_0000_0000,
        n == tile(p.n_y as int, j as int),
        norms_y@ == p.norms_y,
        norm_x == p.norms_x[i],
        forall|c: int|
            0 <= c < n ==> #[trigger] buf@[from + c] == dot(p.x, p.y, p.d as int, p.d, i, j + c),
    ensures
        r@ == p.with_tile_in_row(i, row@, j as int),
{
    let k: usize = row.len();
    let ghost all = p.contenders(i, row@, j as int);
    let ghost old_ones = live(row@, row@.len());
    let mut top: Vec<KnnCandidate> = Vec::new();
    let mut t: usize = 0;
    proof {
        lemma_live_len(row@, row@.len());
    }
    while t < k
        invariant
            t <= k,
            k == row@.len(),
            old_ones == live(row@, k as nat),
            all == p.contenders(i, row@, j as int),
            top@.len() <= k,
            live(row@, t as nat).len() <= old_ones.len(),
            forall|q: int| 0 <= q < live(row@, t as nat).len() ==> live(row@, t as nat)[q] == #[trigger] all[q],
            top@ == k_best(all, k as nat, live(row@, t as nat).len()),
        decreases k - t,
    {
        proof {
            lemma_live_prefix(row@, (t + 1) as nat, k as nat);
        }
        if row[t].distance.lt(Single { bits: LARGEST }) {
            assert(all[live(row@, t as nat).len() as int] == row@[t as int]);
            insert_candidate(&mut top, row[t], k);
        }
        t = t + 1;
    }
    let mut c: usize = 0;
    while c < n
        invariant
            c <= n,
            from + n <= buf@.len(),
            j + n <= norms_y@.len(),
            j + n <= 0x1_0000_0000,
            n == tile(p.n_y as int, j as int),
            norms_y@ == p.norms_y,
            norm_x == p.norms_x[i],
            forall|c: int|
                0 <= c < n ==> #[trigger] buf@[from + c] == dot(p.x, p.y, p.d as int, p.d, i, j + c),
            old_ones == live(row@, k as nat),
            k == row@.len(),
            all == p.contenders(i, row@, j as int),
            top@.len() <= k,
            top@ == k_best(all, k as nat, old_ones.len() + c as nat),
        decreases n - c,
    {
        assert(buf.len() <= usize::MAX);
        assert(norms_y.len() <= usize::MAX);
        let product: Single = buf[from + c];
        assert(product == buf@[from + c as int]);
        let v: Single = (Single { bits: MINUS_TWO }).mul(product).add(norm_x).add(norms_y[j + c]);
        let e: KnnCandidate = KnnCandidate::new((j + c) as u32, v);
        assert(all[old_ones.len() + c] == e);
        insert_candidate(&mut top, e, k);
        c = c + 1;
    }
    let mut r: Vec<KnnCandidate> = Vec::new();
    let mut t: usize = 0;
    while t < k
        invariant
            t <= k,
            top@.len() <= k,
            r@ == filled(top@, k as nat).take(t as int),
        decreases k - t,
    {
        if t < top.len() {
            r.push(KnnCandidate::new(top[t].index, top[t].distance.max(Single { bits: ZERO })));
        } else {
            r.push(KnnCandidate::new(u32::MAX, Single { bits: LARGEST }));
        }
        t = t + 1;
        assert(r@ =~= filled(top@, k as nat).take(t as int));
    }
    assert(r@ =~= filled(top@, k as nat));
    r
}

proof fn lemma_live_len(row: Seq<KnnCandidate>, n: nat)
    ensures
        live(row, n).len() <= n,
    decreases n,
{
    if n > 0 {
        lemma_live_len(row, (n - 1) as nat);
    }
}

proof fn lemma_live_prefix(row: Seq<KnnCandidate>, m: nat, n: nat)
    requires
        m <= n,
    ensures
        live(row, m).len() <= live(row, n).len(),
        forall|q: int| 0 <= q < live(row, m).len() ==> live(row, m)[q] == #[trigger] live(row, n)[q],
    decreases n,
{
    if m < n {
        lemma_live_prefix(row, m, (n - 1) as nat);
    }
}

fn read_row(knn: &[u32], dist: &[Single], i: usize, k: usize) -> (row: Vec<KnnCandidate>)
    requires
        i * k + k <= knn@.len(),
        i * k + k <= dist@.len(),
    ensures
        row@ == row_of(knn@, dist@, i as int, k as nat),
{
    assert(knn.len() <= usize::MAX);
    assert(0 <= i * k) by (nonlinear_arith);
    let base: usize = i * k;
    let mut row: Vec<KnnCandidate> = Vec::new();
    let mut t: usize = 0;
    while t < k
        invariant
            t <= k,
            base == i * k,
            base + k <= knn@.len() <= usize::MAX,
            base + k <= dist@.len(),
            row@ == row_of(knn@, dist@, i as int, k as nat).take(t as int),
        decreases k - t,
    {
        row.push(KnnCandidate::new(knn[base + t], dist[base + t]));
        t = t + 1;
        assert(row@ =~= row_of(knn@, dist@, i as int, k as nat).take(t as int));
    }
    assert(row@ =~= row_of(knn@, dist@, i as int, k as nat));
    row
}

fn write_row(knn: &mut [u32], dist: &mut [Single], i: usize, row: &Vec<KnnCandidate>)
    requires
        i * row@.len() + row@.len() <= old(knn)@.len(),
        i * row@.len() + row@.len() <= old(dist)@.len(),
    ensures
        final(knn)@.len() == old(knn)@.len(),
        final(dist)@.len() == old(dist)@.len(),
        row_of(final(knn)@, final(dist)@, i as int, row@.len()) == row@,
        forall|z: int|
            0 <= z < old(knn)@.len() && !(i * row@.len() <= z < i * row@.len() + row@.len()) ==> #[trigger] final(knn)@[z] == old(knn)@[z],
        forall|z: int|
            0 <= z < old(dist)@.len() && !(i * row@.len() <= z < i * row@.len() + row@.len()) ==> #[trigger] final(dist)@[z] == old(dist)@[z],
{
    assert(knn.len() <= usize::MAX);
    let k: usize = row.len();
    assert(0 <= i * k) by (nonlinear_arith);
    let base: usize = i * k;
    let ghost knn0 = knn@;
    let ghost dist0 = dist@;
    let mut t: usize = 0;
    while t < k
        invariant
            t <= k,
            k == row@.len(),
            base + k <= knn0.len() <= usize::MAX,
            base + k <= dist0.len(),
            knn@.len() == knn0.len(),
            dist@.len() == dist0.len(),
            forall|z: int| base <= z < base + t ==> #[trigger] knn@[z] == row@[z - base].index,
            forall|z: int| base <= z < base + t ==> #[trigger] dist@[z] == row@[z - base].distance,
            forall|z: int|
                0 <= z < knn0.len() && !(base <= z < base + t) ==> #[trigger] knn@[z] == knn0[z],
            forall|z: int|
                0 <= z < dist0.len() && !(base <= z < base + t) ==> #[trigger] dist@[z] == dist0[z],
        decreases k - t,
    {
        knn[base + t] = row[t].index;
        dist[base + t] = row[t].distance;
        t = t + 1;
    }
    assert(row_of(knn@, dist@, i as int, k as nat) =~= row@);
}

/// Two rows of one table share no place.
proof fn lemma_rows_apart(p: int, q: int, k: int)
    requires
        p != q,
        0 <= k,
    ensures
        p < q ==> p * k + k <= q * k,
        q < p ==> q * k + k <= p * k,
{
    assert((p < q ==> p * k + k <= q * k) && (q < p ==> q * k + k <= p * k)) by (nonlinear_arith)
        requires
            p != q,
            0 <= k,
    ;
}

/// The nearest candidates of the first `n_x` queries, `k` for each; nothing behind them.
pub open spec fn k_nearest_indices(p: Problem, n_x: nat, k: nat, len: nat) -> Seq<u32> {
    Seq::new(
        len,
        |z: int|
            if z / (k as int) < n_x {
                p.k_nearest(z / (k as int), k)[z % (k as int)].index
            } else {
                u32::MAX
            },
    )
}

pub open spec fn k_nearest_distances(p: Problem, n_x: nat, k: nat, len: nat) -> Seq<Single> {
    Seq::new(
        len,
        |z: int|
            if z / (k as int) < n_x {
                p.k_nearest(z / (k as int), k)[z % (k as int)].distance
            } else {
                Single { bits: LARGEST }
            },
    )
}

/// k-nearest neighbours brute-force via batched matrix products.
pub fn find_k_nearest_neighbors(
    x: &[Single],
    y: &[Single],
    n_x: usize,
    n_y: usize,
    d: usize,
    norms_x: &[Single],
    norms_y: &[Single],
    k: usize,
    out_knn: &mut [u32],
    out_distances: &mut [Single],
)
    requires
        k > 0,
        n_x * d <= x@.len(),
        n_y * d <= y@.len(),
        n_x <= norms_x@.len(),
        n_y <= norms_y@.len(),
        n_x * k <= old(out_knn)@.len(),
        n_x * k <= old(out_distances)@.len(),
        n_y <= 0x1_0000_0000,
    ensures
        ({
            let p = Problem {
                x: x@,
                y: y@,
                n_y: n_y as nat,
                d: d as nat,
                norms_x: norms_x@,
                norms_y: norms_y@,
            };
            &&& final(out_knn)@ == k_nearest_indices(p, n_x as nat, k as nat, old(out_knn)@.len())
            &&& final(out_distances)@ == k_nearest_distances(
                p,
                n_x as nat,
                k as nat,
                old(out_distances)@.len(),
            )
        }),
{
    let ghost p = Problem {
        x: x@,
        y: y@,
        n_y: n_y as nat,
        d: d as nat,
        norms_x: norms_x@,
        norms_y: norms_y@,
    };
    let ghost kk = k as nat;
    let ghost len_knn = out_knn@.len();
    let ghost len_dist = out_distances@.len();
    let ghost none = Seq::new(kk, |t: int| no_candidate());
    let total: usize = out_knn.len();
    let mut t: usize = 0;
    while t < total
        invariant
            t <= total,
            total == out_knn@.len(),
            forall|z: int| 0 <= z < t ==> #[trigger] out_knn@[z] == u32::MAX,
        decreases total - t,
    {
        out_knn[t] = u32::MAX;
        t = t + 1;
    }
    let total: usize = out_distances.len();
    let mut t: usize = 0;
    while t < total
        invariant
            t <= total,
            total == out_distances@.len(),
            forall|z: int| 0 <= z < t ==> #[trigger] out_distances@[z] == (Single { bits: LARGEST }),
        decreases total - t,
    {
        out_distances[t] = Single { bits: LARGEST };
        t = t + 1;
    }
    proof {
        assert forall|q: int| 0 <= q < n_x implies #[trigger] row_of(out_knn@, out_distances@, q, kk) == none by {
            lemma_row(q, n_x as int, k as int);
            assert(row_of(out_knn@, out_distances@, q, kk) =~= none);
        }
    }
    let mut buf: Vec<Single> = Vec::new();
    ensure_buf(&mut buf, n_x, n_y);
    let mut i: usize = 0;
    while i < n_x
        invariant
            i <= n_x,
            k > 0,
            kk == k,
            n_x * d <= x@.len(),
            n_y * d <= y@.len(),
            n_x <= norms_x@.len(),
            n_y <= norms_y@.len(),
            n_y <= 0x1_0000_0000,
            n_x * k <= len_knn,
            n_x * k <= len_dist,
            p == (Problem { x: x@, y: y@, n_y: n_y as nat, d: d as nat, norms_x: norms_x@, norms_y: norms_y@ }),
            none == Seq::new(kk, |t: int| no_candidate()),
            out_knn@.len() == len_knn,
            out_distances@.len() == len_dist,
            buf@.len() >= batch_room(n_x as int, n_y as int),
            forall|q: int|
                0 <= q < i ==> #[trigger] row_of(out_knn@, out_distances@, q, kk) == p.k_nearest(q, kk),
            forall|q: int| i <= q < n_x ==> #[trigger] row_of(out_knn@, out_distances@, q, kk) == none,
            forall|z: int| n_x * k <= z < len_knn ==> #[trigger] out_knn@[z] == u32::MAX,
            forall|z: int| n_x * k <= z < len_dist ==> #[trigger] out_distances@[z] == (Single { bits: LARGEST }),
        decreases n_x - i,
    {
        let m: usize = smaller(n_x - i, X_BATCH_SIZE);
        let mut j: usize = 0;
        while j < n_y
            invariant
                j <= n_y,
                i + m <= n_x,
                0 < m <= X_BATCH_SIZE,
                k > 0,
                kk == k,
                n_x * d <= x@.len(),
                n_y * d <= y@.len(),
                n_x <= norms_x@.len(),
                n_y <= norms_y@.len(),
                n_y <= 0x1_0000_0000,
                n_x * k <= len_knn,
                n_x * k <= len_dist,
                p == (Problem { x: x@, y: y@, n_y: n_y as nat, d: d as nat, norms_x: norms_x@, norms_y: norms_y@ }),
                out_knn@.len() == len_knn,
                out_distances@.len() == len_dist,
                buf@.len() >= batch_room(n_x as int, n_y as int),
                forall|q: int|
                    0 <= q < i ==> #[trigger] row_of(out_knn@, out_distances@, q, kk) == p.k_nearest(q, kk),
                forall|q: int|
                    i <= q < i + m ==> p.k_nearest_from(
                        q,
                        #[trigger] row_of(out_knn@, out_distances@, q, kk),
                        j as int,
                    ) == p.k_nearest(q, kk),
                forall|q: int| i + m <= q < n_x ==> #[trigger] row_of(out_knn@, out_distances@, q, kk) == none,
                forall|z: int| n_x * k <= z < len_knn ==> #[trigger] out_knn@[z] == u32::MAX,
                forall|z: int|
                    n_x * k <= z < len_dist ==> #[trigger] out_distances@[z] == (Single { bits: LARGEST }),
            decreases n_y - j,
        {
            let n: usize = smaller(n_y - j, Y_BATCH_SIZE);
            assert(n == tile(n_y as int, j as int));
            proof {
                lemma_batch_room(n_x as int, n_y as int, m as int, n as int);
                assert((i + m) * d <= n_x * d) by (nonlinear_arith)
                    requires
                        i + m <= n_x,
                ;
                assert((j + n) * d <= n_y * d) by (nonlinear_arith)
                    requires
                        j + n <= n_y,
                ;
            }
            fill_products(x, y, i, m, j, n, d, d, &mut buf);
            let mut r: usize = 0;
            while r < m
                invariant
                    r <= m,
                    j < n_y,
                    0 < n,
                    j + n <= n_y,
                    n == tile(n_y as int, j as int),
                    i + m <= n_x,
                    m <= X_BATCH_SIZE,
                    k > 0,
                    kk == k,
                    n_x <= norms_x@.len(),
                    n_y <= norms_y@.len(),
                    n_y <= 0x1_0000_0000,
                    n_x * k <= len_knn,
                    n_x * k <= len_dist,
                    m * n <= buf@.len(),
                    p == (Problem { x: x@, y: y@, n_y: n_y as nat, d: d as nat, norms_x: norms_x@, norms_y: norms_y@ }),
                    out_knn@.len() == len_knn,
                    out_distances@.len() == len_dist,
                    forall|r: int, c: int|
                        0 <= r < m && 0 <= c < n ==> #[trigger] buf@[r * n + c] == dot(x@, y@, d as int, d as nat, i + r, j + c),
                    forall|q: int|
                        0 <= q < i ==> #[trigger] row_of(out_knn@, out_distances@, q, kk) == p.k_nearest(q, kk),
                    forall|q: int|
                        i <= q < i + r ==> p.k_nearest_from(
                            q,
                            #[trigger] row_of(out_knn@, out_distances@, q, kk),
                            j + n,
                        ) == p.k_nearest(q, kk),
                    forall|q: int|
                        i + r <= q < i + m ==> p.k_nearest_from(
                            q,
                            #[trigger] row_of(out_knn@, out_distances@, q, kk),
                            j as int,
                        ) == p.k_nearest(q, kk),
                    forall|q: int|
                        i + m <= q < n_x ==> #[trigger] row_of(out_knn@, out_distances@, q, kk) == none,
                    forall|z: int| n_x * k <= z < len_knn ==> #[trigger] out_knn@[z] == u32::MAX,
                    forall|z: int|
                        n_x * k <= z < len_dist ==> #[trigger] out_distances@[z] == (Single { bits: LARGEST }),
                decreases m - r,
            {
                let ghost at = i + r;
                let ghost knn1 = out_knn@;
                let ghost dist1 = out_distances@;
                proof {
                    lemma_row(r as int, m as int, n as int);
                    lemma_row(at, n_x as int, k as int);
                    assert(buf.len() <= usize::MAX);
                }
                let row: Vec<KnnCandidate> = read_row(&*out_knn, &*out_distances, i + r, k);
                let merged: Vec<KnnCandidate> = merge_row(
                    &buf,
                    r * n,
                    n,
                    norms_x[i + r],
                    norms_y,
                    j,
                    &row,
                    Ghost(p),
                    Ghost(at),
                );
                write_row(out_knn, out_distances, i + r, &merged);
                proof {
                    assert(row@ == row_of(knn1, dist1, at, kk));
                    assert forall|q: int| 0 <= q < n_x && q != at implies #[trigger] row_of(out_knn@, out_distances@, q, kk)
                        == row_of(knn1, dist1, q, kk) by {
                        lemma_row(q, n_x as int, k as int);
                        lemma_rows_apart(q, at, k as int);
                        assert(row_of(out_knn@, out_distances@, q, kk) =~= row_of(knn1, dist1, q, kk));
                    }
                }
                r = r + 1;
            }
            j = j + n;
        }
        i = i + m;
    }
    proof {
        assert forall|z: int| 0 <= z < len_knn implies #[trigger] out_knn@[z] == k_nearest_indices(p, n_x as nat, kk, len_knn)[z] by {
            lemma_in_table(z, n_x as int, k as int);
            if z < n_x * k {
                let row = row_of(out_knn@, out_distances@, z / (k as int), kk);
                assert(row[z % (k as int)].index == out_knn@[z]);
            }
        }
        assert forall|z: int| 0 <= z < len_dist implies #[trigger] out_distances@[z] == k_nearest_distances(p, n_x as nat, kk, len_dist)[z] by {
            lemma_in_table(z, n_x as int, k as int);
            if z < n_x * k {
                let row = row_of(out_knn@, out_distances@, z / (k as int), kk);
                assert(row[z % (k as int)].distance == out_distances@[z]);
            }
        }
        assert(out_knn@ =~= k_nearest_indices(p, n_x as nat, kk, len_knn));
        assert(out_distances@ =~= k_nearest_distances(p, n_x as nat, kk, len_dist));
    }
}

/// Place `z` belongs to one of the first `n` rows exactly if it is below `n * k`.
proof fn lemma_in_table(z: int, n: int, k: int)
    requires
        0 <= z,
        0 <= n,
        0 < k,
    ensures
        z < n * k <==> z / k < n,
        0 <= z / k,
        0 <= z % k < k,
        z == (z / k) * k + z % k,
{
    vstd::arithmetic::div_mod::lemma_fundamental_div_mod(z, k);
    vstd::arithmetic::div_mod::lemma_mod_bound(z, k);
    let q = z / k;
    let r = z % k;
    assert((z < n * k <==> q < n) && 0 <= q && z == q * k + r) by (nonlinear_arith)
        requires
            z == k * q + r,
            0 <= r < k,
            0 <= z,
    ;
}

} // verus!
