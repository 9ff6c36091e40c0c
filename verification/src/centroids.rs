//! The steps that turn assignments into new centroids.
use crate::adsampling::{square_sum, sum_of_squares};
use crate::common::{lemma_cell, lemma_row};
use crate::numbers::{lemma_one, lemma_over_positive};
use crate::single::{lemma_below, Single, EPSILON, ONE, ZERO};
use vstd::prelude::*;

verus! {

/// The squared norms of the first `n` rows, each over its first `p` entries.
pub open spec fn partial_norms(data: Seq<Single>, n: nat, d: nat, p: nat) -> Seq<Single> {
    let width = if p < d {
        p
    } else {
        d
    };
    Seq::new(n, |i: int| sum_of_squares(data, i * d, i * d + width))
}

/// The squared norms of the first `n` rows.
pub open spec fn norms(data: Seq<Single>, n: nat, d: nat) -> Seq<Single> {
    partial_norms(data, n, d, d)
}

pub fn compute_norms_row_major(data: &[Single], n: usize, d: usize) -> (out: Vec<Single>)
    requires
        n * d <= data@.len(),
    ensures
        out@ == norms(data@, n as nat, d as nat),
{
    compute_partial_norms_row_major(data, n, d, d)
}

pub fn compute_partial_norms_row_major(data: &[Single], n: usize, d: usize, partial_d: usize) -> (out: Vec<Single>)
    requires
        n * d <= data@.len(),
    ensures
        out@ == partial_norms(data@, n as nat, d as nat, partial_d as nat),
{
    let p: usize = if partial_d < d {
        partial_d
    } else {
        d
    };
    let mut out: Vec<Single> = Vec::new();
    let mut i: usize = 0;
    assert(data.len() <= usize::MAX);
    while i < n
        invariant
            i <= n,
            n * d <= data@.len() <= usize::MAX,
            p <= d,
            p == if partial_d < d {
                partial_d
            } else {
                d
            },
            out@ == partial_norms(data@, n as nat, d as nat, partial_d as nat).take(i as int),
        decreases n - i,
    {
        proof {
            lemma_row(i as int, n as int, d as int);
        }
        out.push(square_sum(data, i * d, i * d + p));
        i = i + 1;
        assert(out@ =~= partial_norms(data@, n as nat, d as nat, partial_d as nat).take(i as int));
    }
    assert(out@ =~= partial_norms(data@, n as nat, d as nat, partial_d as nat));
    out
}

/// How many of the first `m` samples belong to cluster `c`.
pub open spec fn members(assignments: Seq<u32>, c: int, m: nat) -> nat
    decreases m,
{
    if m == 0 {
        0
    } else {
        members(assignments, c, (m - 1) as nat) + if assignments[m - 1] == c {
            1nat
        } else {
            0
        }
    }
}

/// `start` and then entry `j` of those of the first `m` samples that belong to cluster `c`.
pub open spec fn cluster_sum(
    start: Single,
    data: Seq<Single>,
    assignments: Seq<u32>,
    d: int,
    c: int,
    j: int,
    m: nat,
) -> Single
    decreases m,
{
    if m == 0 {
        start
    } else {
        let before = cluster_sum(start, data, assignments, d, c, j, (m - 1) as nat);
        if assignments[m - 1] == c {
            before.plus(data[(m - 1) * d + j])
        } else {
            before
        }
    }
}

/// The rows of the first `k` clusters with the first `m` samples added to them.
pub open spec fn summed_centroids(
    centroids: Seq<Single>,
    data: Seq<Single>,
    assignments: Seq<u32>,
    d: int,
    k: int,
    m: nat,
) -> Seq<Single> {
    Seq::new(
        centroids.len(),
        |x: int|
            if x / d < k {
                cluster_sum(centroids[x], data, assignments, d, x / d, x % d, m)
            } else {
                centroids[x]
            },
    )
}

/// The sizes of the first `k` clusters with the first `m` samples counted.
pub open spec fn counted_sizes(sizes: Seq<u32>, assignments: Seq<u32>, k: int, m: nat) -> Seq<u32> {
    Seq::new(
        sizes.len(),
        |c: int|
            if c < k {
                (sizes[c] + members(assignments, c, m)) as u32
            } else {
                sizes[c]
            },
    )
}

/// No cluster has more members than there are samples.
pub proof fn lemma_members_bound(assignments: Seq<u32>, c: int, m: nat)
    ensures
        members(assignments, c, m) <= m,
    decreases m,
{
    if m > 0 {
        lemma_members_bound(assignments, c, (m - 1) as nat);
    }
}

/// Members are only added as samples are counted; sample `i` itself is one more of its cluster.
pub proof fn lemma_members_grow(assignments: Seq<u32>, c: int, m: nat, n: nat)
    requires
        m <= n,
    ensures
        members(assignments, c, m) <= members(assignments, c, n),
        m < n && assignments[m as int] == c ==> members(assignments, c, m) < members(assignments, c, n),
    decreases n,
{
    if m < n {
        lemma_members_grow(assignments, c, m, (n - 1) as nat);
    }
}

/// The sum of the first `k` sizes.
pub open spec fn size_sum(sizes: Seq<u32>, k: nat) -> nat
    decreases k,
{
    if k == 0 {
        0
    } else {
        size_sum(sizes, (k - 1) as nat) + sizes[k - 1] as nat
    }
}

/// What a changed size does to the sum.
pub proof fn lemma_size_sum_update(sizes: Seq<u32>, c: int, v: u32, k: nat)
    requires
        0 <= c < sizes.len(),
        k <= sizes.len(),
    ensures
        size_sum(sizes.update(c, v), k) == if c < k {
            size_sum(sizes, k) - sizes[c] + v
        } else {
            size_sum(sizes, k) as int
        },
    decreases k,
{
    if k > 0 {
        lemma_size_sum_update(sizes, c, v, (k - 1) as nat);
    }
}

/// The sizes of clusters that nothing was counted in.
proof fn lemma_size_sum_zero(sizes: Seq<u32>, k: nat)
    requires
        forall|c: int| 0 <= c < k ==> #[trigger] sizes[c] == 0,
    ensures
        size_sum(sizes, k) == 0,
    decreases k,
{
    if k > 0 {
        lemma_size_sum_zero(sizes, (k - 1) as nat);
        assert(sizes[k - 1] == 0);
    }
}

/// Counting from zero, the sizes of all clusters together are the number of samples.
pub proof fn lemma_counted_total(zero: Seq<u32>, assignments: Seq<u32>, k: nat, m: nat)
    requires
        k <= zero.len(),
        m <= u32::MAX,
        m <= assignments.len(),
        forall|c: int| 0 <= c < k ==> #[trigger] zero[c] == 0,
        forall|i: int| 0 <= i < m ==> #[trigger] assignments[i] < k,
    ensures
        size_sum(counted_sizes(zero, assignments, k as int, m), k) == m,
    decreases m,
{
    let now = counted_sizes(zero, assignments, k as int, m);
    if m == 0 {
        lemma_size_sum_zero(now, k);
    } else {
        let before = counted_sizes(zero, assignments, k as int, (m - 1) as nat);
        lemma_counted_total(zero, assignments, k, (m - 1) as nat);
        let c = assignments[m - 1] as int;
        lemma_members_bound(assignments, c, (m - 1) as nat);
        assert(zero[c] == 0);
        assert(now =~= before.update(c, (before[c] + 1) as u32));
        lemma_size_sum_update(before, c, (before[c] + 1) as u32, k);
    }
}

/// Adds each of the `n_samples` samples to the row of its cluster, in order, and counts it. A
/// sample whose cluster is not among the first `n_clusters` is left out.
pub fn add_samples(
    centroids: &mut Vec<Single>,
    sizes: &mut Vec<u32>,
    data: &[Single],
    assignments: &Vec<u32>,
    d: usize,
    n_samples: usize,
    n_clusters: usize,
)
    requires
        d > 0,
        n_samples * d <= data@.len(),
        n_samples <= assignments@.len(),
        n_clusters * d <= old(centroids)@.len(),
        n_clusters <= old(sizes)@.len(),
        forall|c: int|
            0 <= c < n_clusters ==> #[trigger] old(sizes)@[c] + members(assignments@, c, n_samples as nat) <= u32::MAX,
    ensures
        final(centroids)@ == summed_centroids(
            old(centroids)@,
            data@,
            assignments@,
            d as int,
            n_clusters as int,
            n_samples as nat,
        ),
        final(sizes)@ == counted_sizes(old(sizes)@, assignments@, n_clusters as int, n_samples as nat),
{
    let ghost hc = centroids@;
    let ghost cs = sizes@;
    let ghost dd = d as int;
    let ghost kk = n_clusters as int;
    let mut i: usize = 0;
    assert(data.len() <= usize::MAX);
    assert(centroids@ =~= summed_centroids(hc, data@, assignments@, dd, kk, 0));
    assert(sizes@ =~= counted_sizes(cs, assignments@, kk, 0));
    while i < n_samples
        invariant
            i <= n_samples,
            d > 0,
            dd == d,
            kk == n_clusters,
            n_samples * d <= data@.len() <= usize::MAX,
            n_samples <= assignments@.len(),
            n_clusters * d <= hc.len(),
            n_clusters <= cs.len(),
            forall|c: int|
                0 <= c < n_clusters ==> #[trigger] cs[c] + members(assignments@, c, n_samples as nat) <= u32::MAX,
            centroids@ == summed_centroids(hc, data@, assignments@, dd, kk, i as nat),
            sizes@ == counted_sizes(cs, assignments@, kk, i as nat),
        decreases n_samples - i,
    {
        let ci: usize = assignments[i] as usize;
        let ghost before = centroids@;
        let ghost sizes1 = sizes@;
        proof {
            lemma_row(i as int, n_samples as int, dd);
        }
        if ci < n_clusters {
            proof {
                lemma_members_grow(assignments@, ci as int, i as nat, n_samples as nat);
                assert(cs[ci as int] + members(assignments@, ci as int, n_samples as nat) <= u32::MAX);
                lemma_row(ci as int, kk, dd);
                assert(centroids.len() <= usize::MAX);
            }
            sizes.set(ci, sizes[ci] + 1);
            let mut j: usize = 0;
            while j < d
                invariant
                    j <= d,
                    d > 0,
                    dd == d,
                    kk == n_clusters,
                    i < n_samples,
                    ci == assignments@[i as int],
                    ci < n_clusters,
                    i * d + d <= data@.len() <= usize::MAX,
                    ci * d + d <= hc.len(),
                    hc.len() <= usize::MAX,
                    0 <= i * d,
                    0 <= ci * d,
                    before == summed_centroids(hc, data@, assignments@, dd, kk, i as nat),
                    centroids@.len() == hc.len(),
                    forall|x: int|
                        0 <= x < hc.len() ==> #[trigger] centroids@[x] == if x / dd == ci && x % dd < j {
                            before[x].plus(data@[i * d + x % dd])
                        } else {
                            before[x]
                        },
                decreases d - j,
            {
                proof {
                    lemma_cell(ci as int, j as int, dd);
                }
                let pos: usize = ci * d + j;
                let ghost now = centroids@;
                let v: Single = centroids[pos].add(data[i * d + j]);
                centroids.set(pos, v);
                proof {
                    assert forall|x: int| 0 <= x < hc.len() implies #[trigger] centroids@[x] == if x / dd == ci && x % dd < j + 1 {
                        before[x].plus(data@[i * d + x % dd])
                    } else {
                        before[x]
                    } by {
                        assert(x != pos ==> centroids@[x] == now[x]);
                        if x != pos {
                            lemma_divided(x, dd);
                        }
                    }
                }
                j = j + 1;
            }
        }
        proof {
            let next = summed_centroids(hc, data@, assignments@, dd, kk, (i + 1) as nat);
            assert forall|x: int| 0 <= x < hc.len() implies #[trigger] centroids@[x] == next[x] by {
                lemma_divided(x, dd);
            }
            assert(centroids@ =~= next);
            assert forall|c: int| 0 <= c < cs.len() implies #[trigger] sizes@[c] == counted_sizes(
                cs,
                assignments@,
                kk,
                (i + 1) as nat,
            )[c] by {
                lemma_members_grow(assignments@, c, (i + 1) as nat, n_samples as nat);
            }
            assert(sizes@ =~= counted_sizes(cs, assignments@, kk, (i + 1) as nat));
        }
        i = i + 1;
    }
}

/// Where element `x` of a table of width `d` stands.
pub proof fn lemma_divided(x: int, d: int)
    requires
        0 <= x,
        0 < d,
    ensures
        0 <= x / d,
        0 <= x % d < d,
        x == (x / d) * d + x % d,
{
    vstd::arithmetic::div_mod::lemma_fundamental_div_mod(x, d);
    vstd::arithmetic::div_mod::lemma_mod_bound(x, d);
    vstd::arithmetic::div_mod::lemma_div_pos_is_pos(x, d);
    assert(d * (x / d) == (x / d) * d) by (nonlinear_arith);
}

/// Each row divided by the size of its cluster; an empty cluster keeps its row.
pub open spec fn averaged(centroids: Seq<Single>, sizes: Seq<u32>, d: int) -> Seq<Single> {
    Seq::new(
        centroids.len(),
        |x: int|
            if x / d < sizes.len() && sizes[x / d] != 0 {
                centroids[x].times((Single { bits: ONE }).over(Single::from_nat(sizes[x / d] as nat)))
            } else {
                centroids[x]
            },
    )
}

/// Divides each row by the size of its cluster.
pub fn average(centroids: &mut Vec<Single>, sizes: &Vec<u32>, d: usize)
    requires
        d > 0,
    ensures
        final(centroids)@ == averaged(old(centroids)@, sizes@, d as int),
{
    let ghost hc = centroids@;
    let n: usize = centroids.len();
    let mut x: usize = 0;
    let mut c: usize = 0;
    let mut mult: Single = Single { bits: ONE };
    while x < n
        invariant
            x <= n,
            n == hc.len(),
            d > 0,
            centroids@.len() == hc.len(),
            forall|y: int| 0 <= y < x ==> #[trigger] centroids@[y] == averaged(hc, sizes@, d as int)[y],
            forall|y: int| x <= y < n ==> #[trigger] centroids@[y] == hc[y],
            x > 0 ==> c == (x - 1) / (d as int),
            x > 0 && c < sizes@.len() && sizes@[c as int] != 0 ==> mult == (Single { bits: ONE }).over(
                Single::from_nat(sizes@[c as int] as nat),
            ),
        decreases n - x,
    {
        let row: usize = x / d;
        if x == 0 || row != c {
            c = row;
            if c < sizes.len() && sizes[c] != 0 {
                mult = (Single { bits: ONE }).div(Single::from_integer(sizes[c] as u64));
            }
        }
        if c < sizes.len() && sizes[c] != 0 {
            let v: Single = centroids[x].mul(mult);
            centroids.set(x, v);
        }
        x = x + 1;
    }
    assert(centroids@ =~= averaged(hc, sizes@, d as int));
}

/// One over the length of row `c`, or over the smallest length that counts.
pub open spec fn inverse_length(data: Seq<Single>, d: int, c: int) -> Single {
    (Single { bits: ONE }).over(sum_of_squares(data, c * d, c * d + d).root().larger(Single { bits: EPSILON }))
}

/// The first `n` rows brought to length 1.
pub open spec fn normalized(data: Seq<Single>, d: int, n: int) -> Seq<Single> {
    Seq::new(
        data.len(),
        |x: int|
            if x / d < n {
                data[x].times(inverse_length(data, d, x / d))
            } else {
                data[x]
            },
    )
}

/// Brings the first `n` rows to length 1.
pub fn normalize_rows(data: &mut Vec<Single>, d: usize, n: usize)
    requires
        d > 0,
        n * d <= old(data)@.len(),
    ensures
        final(data)@ == normalized(old(data)@, d as int, n as int),
{
    let ghost start = data@;
    let ghost dd = d as int;
    let mut c: usize = 0;
    assert(data.len() <= usize::MAX);
    proof {
        assert forall|x: int| 0 <= x < start.len() implies #[trigger] data@[x] == normalized(start, dd, 0)[x] by {
            lemma_divided(x, dd);
        }
    }
    while c < n
        invariant
            c <= n,
            d > 0,
            dd == d,
            n * d <= start.len() <= usize::MAX,
            data@.len() == start.len(),
            forall|x: int| 0 <= x < start.len() ==> #[trigger] data@[x] == normalized(start, dd, c as int)[x],
        decreases n - c,
    {
        proof {
            lemma_row(c as int, n as int, dd);
            assert forall|x: int| c * d <= x < c * d + d implies #[trigger] data@[x] == start[x] by {
                lemma_cell(c as int, x - c * d, dd);
            }
            lemma_same_sum_of_squares(data@, start, c * d, c * d + d);
        }
        let base: usize = c * d;
        let norm: Single = (Single { bits: ONE }).div(
            square_sum(data.as_slice(), base, base + d).sqrt().max(Single { bits: EPSILON }),
        );
        let ghost before = data@;
        let mut j: usize = 0;
        while j < d
            invariant
                j <= d,
                d > 0,
                dd == d,
                base == c * d,
                base + d <= start.len() <= usize::MAX,
                norm == inverse_length(start, dd, c as int),
                data@.len() == start.len(),
                before.len() == start.len(),
                forall|x: int| 0 <= x < start.len() ==> #[trigger] before[x] == normalized(start, dd, c as int)[x],
                forall|x: int| base <= x < base + d ==> #[trigger] before[x] == start[x],
                forall|x: int|
                    0 <= x < start.len() ==> #[trigger] data@[x] == if base <= x < base + j {
                        start[x].times(norm)
                    } else {
                        before[x]
                    },
            decreases d - j,
        {
            let v: Single = data[base + j].mul(norm);
            data.set(base + j, v);
            j = j + 1;
        }
        proof {
            assert forall|x: int| 0 <= x < start.len() implies #[trigger] data@[x] == normalized(start, dd, c + 1)[x] by {
                lemma_divided(x, dd);
                if x / dd == c {
                } else if base <= x < base + d {
                    lemma_cell(c as int, x - base, dd);
                }
            }
        }
        c = c + 1;
    }
    assert(data@ =~= normalized(start, dd, n as int));
}

pub proof fn lemma_same_sum_of_squares(x: Seq<Single>, y: Seq<Single>, from: int, to: int)
    requires
        forall|i: int| from <= i < to ==> #[trigger] x[i] == y[i],
    ensures
        sum_of_squares(x, from, to) == sum_of_squares(y, from, to),
    decreases to - from,
{
    if from < to {
        lemma_same_sum_of_squares(x, y, from, to - 1);
        assert(x[to - 1] == y[to - 1]);
    }
}

/// The sum of the first `n` numbers.
pub open spec fn total(x: Seq<Single>, n: nat) -> Single
    decreases n,
{
    if n == 0 {
        Single { bits: ZERO }
    } else {
        total(x, (n - 1) as nat).plus(x[n - 1])
    }
}

pub fn add_up(x: &Vec<Single>) -> (s: Single)
    ensures
        s == total(x@, x@.len()),
{
    let mut s: Single = Single { bits: ZERO };
    let mut i: usize = 0;
    while i < x.len()
        invariant
            i <= x@.len(),
            s == total(x@, i as nat),
        decreases x@.len() - i,
    {
        s = s.add(x[i]);
        i = i + 1;
    }
    s
}

/// The squared distance of two rows that start at `at`, over `n` entries.
pub open spec fn row_shift(a: Seq<Single>, b: Seq<Single>, at: int, n: nat) -> Single
    decreases n,
{
    if n == 0 {
        Single { bits: ZERO }
    } else {
        let x = a[at + n - 1].minus(b[at + n - 1]);
        row_shift(a, b, at, (n - 1) as nat).plus(x.times(x))
    }
}

/// How far the first `n` rows have moved: the squared distances, added up row by row.
pub open spec fn total_shift(a: Seq<Single>, b: Seq<Single>, d: nat, n: nat) -> Single
    decreases n,
{
    if n == 0 {
        Single { bits: ZERO }
    } else {
        total_shift(a, b, d, (n - 1) as nat).plus(row_shift(a, b, (n - 1) * d, d))
    }
}

pub fn measure_shift(a: &Vec<Single>, b: &Vec<Single>, d: usize, n: usize) -> (s: Single)
    requires
        n * d <= a@.len(),
        n * d <= b@.len(),
    ensures
        s == total_shift(a@, b@, d as nat, n as nat),
{
    let mut s: Single = Single { bits: ZERO };
    let mut c: usize = 0;
    assert(a.len() <= usize::MAX);
    while c < n
        invariant
            c <= n,
            n * d <= a@.len() <= usize::MAX,
            n * d <= b@.len(),
            s == total_shift(a@, b@, d as nat, c as nat),
        decreases n - c,
    {
        proof {
            lemma_row(c as int, n as int, d as int);
        }
        let base: usize = c * d;
        let mut acc: Single = Single { bits: ZERO };
        let mut j: usize = 0;
        while j < d
            invariant
                j <= d,
                base + d <= a@.len() <= usize::MAX,
                base + d <= b@.len(),
                acc == row_shift(a@, b@, base as int, j as nat),
            decreases d - j,
        {
            let x: Single = a[base + j].sub(b[base + j]);
            acc = acc.add(x.mul(x));
            j = j + 1;
        }
        s = s.add(acc);
        c = c + 1;
    }
    s
}

/// A row brought to length 1 is its old self times one factor, the same for all its entries; and
/// that factor is above zero where the row's length is a finite number.
pub proof fn law_normalized_row(data: Seq<Single>, d: int, n: int, c: int, j: int)
    requires
        0 <= c < n,
        0 <= j < d,
        n * d <= data.len(),
        sum_of_squares(data, c * d, c * d + d).root().is_finite(),
    ensures
        normalized(data, d, n).len() == data.len(),
        normalized(data, d, n)[c * d + j] == data[c * d + j].times(inverse_length(data, d, c)),
        inverse_length(data, d, c).is_number(),
        inverse_length(data, d, c).order() > 0,
{
    lemma_row(c, n, d);
    lemma_cell(c, j, d);
    let length = sum_of_squares(data, c * d, c * d + d).root();
    let least = Single { bits: EPSILON };
    assert(0x3400_0000u32 & 0x7fff_ffff == 0x3400_0000) by (bit_vector);
    lemma_one();
    lemma_below(length, least);
    lemma_over_positive(Single { bits: ONE }, length.larger(least));
}

} // verus!
