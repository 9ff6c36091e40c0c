//! How the clusters of the mesoclusters come together: each mesocluster has a range of rows of its
//! own, and later mesoclusters leave it alone.
use crate::centroids::{averaged, norms, size_sum};
use crate::common::{lemma_cell, lemma_row};
use crate::double::{lemma_proportion, lemma_share};
use crate::hierarchical::{
    law_translated, lemma_mesocluster_count, mesocluster_count, placed, translated, Fine, Hierarchy,
};
use crate::partition::{
    allocation, fine_counts, law_every_sample_listed, less, lemma_nonempty_bound, lemma_size_sum_grows,
    lemma_sum_from, listed_at, nonempty, sample_list, sizes_are_counts, sum_from,
};
use crate::rng::shuffled;
use crate::runs::{consistent, lemma_phase_consistent};
use crate::single::Single;
use crate::spaces::{lemma_phase_keeps, lemma_picked_row};
use crate::superkmeans::{
    first_partial_d, lemma_balanced, never_prunes, no_counts, no_members, picked_rows, zeros, Model,
};
use vstd::prelude::*;

verus! {

/// The sum of the first `c` counts: where the range of mesocluster `c` starts.
pub open spec fn counts_before(counts: Seq<usize>, c: nat) -> nat
    decreases c,
{
    if c == 0 {
        0
    } else {
        counts_before(counts, (c - 1) as nat) + counts[c - 1] as nat
    }
}

proof fn lemma_counts_before_grow(counts: Seq<usize>, a: nat, b: nat)
    requires
        a <= b,
    ensures
        counts_before(counts, a) <= counts_before(counts, b),
    decreases b,
{
    if a < b {
        lemma_counts_before_grow(counts, a, (b - 1) as nat);
    }
}

proof fn lemma_counts_before_shift(first: usize, rest: Seq<usize>, c: nat)
    requires
        c <= rest.len(),
    ensures
        counts_before(seq![first] + rest, c + 1) == first + counts_before(rest, c),
    decreases c,
{
    let all = seq![first] + rest;
    if c > 0 {
        lemma_counts_before_shift(first, rest, (c - 1) as nat);
        assert(all[c as int] == rest[c - 1]);
    } else {
        assert(counts_before(all, 1) == counts_before(all, 0) + all[0] as nat);
    }
}

/// The clusters are shared out: all of them; a mesocluster gets none exactly where it has no
/// samples, and never more than it has samples.
pub proof fn law_shares(sizes: Seq<u32>, n: nat, i: nat, c: nat, s: nat, filled: nat)
    requires
        i < n <= sizes.len(),
        filled == nonempty(sizes, i, n),
        filled <= c <= s <= u32::MAX,
        s == sum_from(sizes, i, n),
    ensures
        ({
            let out = fine_counts(sizes, n, i, c, s, filled);
            &&& out.len() == n - i
            &&& counts_before(out, (n - i) as nat) == c
            &&& forall|j: int| 0 <= j < n - i ==> #[trigger] out[j] <= sizes[i + j]
            &&& forall|j: int| 0 <= j < n - i ==> (#[trigger] out[j] == 0 <==> sizes[i + j] == 0)
        }),
    decreases n - i,
{
    let size = sizes[i as int];
    let others = less(filled, 1);
    let here = if i + 1 == n {
        c
    } else if size == 0 {
        0
    } else {
        allocation(size, c, s, others)
    };
    let out = fine_counts(sizes, n, i, c, s, filled);
    if i + 1 == n {
        assert(sum_from(sizes, i + 1, n) == 0);
        assert(nonempty(sizes, i + 1, n) == 0);
        let rest = fine_counts(sizes, n, i + 1, less(c, here), less(s, size as nat), filled);
        assert(rest =~= Seq::empty());
        assert(out =~= seq![c as usize]);
        lemma_counts_before_shift(c as usize, rest, 0);
        assert(seq![c as usize] + rest =~= out);
    } else {
        let left = if size == 0 {
            filled
        } else {
            others
        };
        if size > 0 {
            lemma_proportion(c, size as nat, s, usize::MAX as nat);
            lemma_nonempty_bound(sizes, i + 1, n);
        }
        law_shares(sizes, n, i + 1, less(c, here), less(s, size as nat), left);
        let rest = fine_counts(sizes, n, i + 1, less(c, here), less(s, size as nat), left);
        assert(out == seq![here as usize] + rest);
        lemma_counts_before_shift(here as usize, rest, (n - i - 1) as nat);
        assert forall|j: int| 0 <= j < n - i implies #[trigger] out[j] <= sizes[i + j] && (out[j] == 0 <==> sizes[i + j]
            == 0) by {
            if j > 0 {
                assert(out[j] == rest[j - 1]);
            }
        }
    }
}

/// All that the clustering within the mesoclusters goes by.
pub ghost struct FineRun {
    pub start: Fine,
    pub samples: Seq<Single>,
    pub list: Seq<usize>,
    pub sizes: Seq<u32>,
    pub counts: Seq<usize>,
    pub all_norms: Seq<Single>,
    pub partial_d: u32,
    pub iters: u32,
}

impl FineRun {
    /// The samples of mesocluster `c`.
    pub open spec fn part(self, c: nat) -> Seq<usize> {
        let from = size_sum(self.sizes, c) as int;
        self.list.subrange(from, from + self.sizes[c as int])
    }

    /// Their vectors.
    pub open spec fn rows(self, c: nat) -> Seq<Single> {
        picked_rows(self.samples, self.part(c), self.start.base.d, self.part(c).len())
    }

    /// How far the clustering has come before mesocluster `c`.
    #[verifier::opaque]
    pub open spec fn stage(self, c: nat) -> Fine
        decreases c,
    {
        if c == 0 {
            self.start
        } else {
            let before = self.stage((c - 1) as nat);
            if self.counts[c - 1] == 0 {
                before
            } else {
                before.with_mesocluster(
                    self.samples,
                    self.part((c - 1) as nat),
                    self.all_norms,
                    self.counts[c - 1] as nat,
                    self.partial_d,
                    self.iters,
                )
            }
        }
    }

    /// The clustering of mesocluster `c` before its first iteration.
    pub open spec fn own_start(self, c: nat) -> Model {
        self.stage(c).prepared(
            self.rows(c),
            self.part(c),
            self.all_norms,
            self.counts[c as int] as nat,
            self.partial_d,
        )
    }

    /// What the clustering of mesocluster `c` by itself ends with.
    #[verifier::opaque]
    pub open spec fn own(self, c: nat) -> Model {
        let base = self.start.base;
        self.own_start(c).phase_from(
            self.rows(c),
            no_counts(self.part(c).len()),
            0,
            self.iters,
            true,
            never_prunes(base.d, base.config.use_blas_only, self.counts[c as int] as nat),
            base.config.early_termination,
            false,
        ).0
    }

    pub open spec fn total(self) -> nat {
        counts_before(self.counts, self.counts.len())
    }

    /// Everything fits together: the parts list samples, no sample twice, and there is a row for
    /// each of the clusters.
    pub open spec fn fits(self) -> bool {
        let n = self.list.len();
        let k = self.total();
        let m = self.start.base;
        &&& 0 < m.d
        &&& 0 < self.iters
        &&& n <= u32::MAX
        &&& k <= u32::MAX
        &&& self.counts.len() <= self.sizes.len()
        &&& size_sum(self.sizes, self.counts.len()) <= n
        &&& self.list.no_duplicates()
        &&& forall|i: int| 0 <= i < n ==> #[trigger] self.list[i] < n
        &&& forall|c: int| 0 <= c < self.counts.len() ==> #[trigger] self.counts[c] <= self.sizes[c]
        &&& self.start.centroids.len() == k * m.d
        &&& self.start.assignments.len() == n
        &&& self.start.offset == 0
        &&& spacious(m, k, n)
    }
}

/// The tables of a clustering have room for `k` clusters and `n` samples.
pub open spec fn spacious(m: Model, k: nat, n: nat) -> bool {
    &&& m.horizontal_centroids.len() == k * m.d
    &&& m.prev_centroids.len() == k * m.d
    &&& k <= m.cluster_sizes.len()
    &&& n <= m.assignments.len()
}

/// One iteration keeps the lengths of the tables.
pub(crate) proof fn lemma_iterated_spacious(m: Model, data: Seq<Single>, iter: u32, first: bool, gemm_only: bool, counts: Seq<usize>, k: nat, n: nat)
    requires
        spacious(m, k, n),
        m.n_clusters <= k,
    ensures
        spacious(m.iterated(data, iter, first, gemm_only, counts).0, k, n),
{
    let m0 = if first {
        m
    } else {
        m.exchanged()
    };
    let a = if gemm_only {
        m0.assigned_by_products(data)
    } else {
        m0.assigned_by_pruning(data)
    };
    let g = a.gathered(data);
    let c = (Model {
        horizontal_centroids: averaged(g.horizontal_centroids, g.cluster_sizes, m.d as int),
        ..g
    }).clusters();
    lemma_balanced(c, m.d as int, m.n_samples, m.n_clusters, m.config.use_aggressive_split);
}

/// A phase keeps the lengths of the tables.
pub proof fn lemma_phase_spacious(
    m: Model,
    data: Seq<Single>,
    counts: Seq<usize>,
    iter: u32,
    iters: u32,
    fresh: bool,
    products_only: bool,
    early: bool,
    partial: bool,
    k: nat,
    n: nat,
)
    requires
        spacious(m, k, n),
        m.n_clusters <= k,
    ensures
        spacious(m.phase_from(data, counts, iter, iters, fresh, products_only, early, partial).0, k, n),
    decreases iters - iter,
{
    if iter < iters {
        let first = fresh && iter == 0;
        let gemm_only = first || products_only;
        let m0 = if !gemm_only && !partial {
            Model {
                data_norms: crate::centroids::partial_norms(data, m.n_samples, m.d, m.partial_d as nat),
                ..m
            }
        } else {
            m
        };
        lemma_iterated_spacious(m0, data, iter, first, gemm_only, counts, k, n);
        let (m1, counts1) = m0.iterated(data, iter, first, gemm_only, counts);
        lemma_phase_spacious(
            m1,
            data,
            counts1,
            (iter + 1) as u32,
            iters,
            fresh,
            products_only,
            early,
            partial || !gemm_only,
            k,
            n,
        );
    }
}

/// What stands before mesocluster `c`, and what its own clustering ends with.
#[verifier::rlimit(30)]
proof fn lemma_stage(run: FineRun, c: nat)
    requires
        run.fits(),
        c <= run.counts.len(),
    ensures
        ({
            let f = run.stage(c);
            let m = run.start.base;
            &&& f.offset == counts_before(run.counts, c)
            &&& f.centroids.len() == run.start.centroids.len()
            &&& f.assignments.len() == run.start.assignments.len()
            &&& spacious(f.base, run.total(), run.list.len())
            &&& f.base.d == m.d
            &&& f.base.config == m.config
            &&& f.base.n_clusters == m.n_clusters
        }),
    decreases c,
{
    reveal(FineRun::stage);
    reveal(FineRun::own);
    if c > 0 {
        let e = (c - 1) as nat;
        lemma_stage(run, e);
        if run.counts[e as int] > 0 {
            lemma_own(run, e);
            let own = run.own(e);
            lemma_size_sum_grows(run.sizes, e + 1, run.counts.len());
            assert(size_sum(run.sizes, e + 1) == size_sum(run.sizes, e) + run.sizes[e as int]);
            assert forall|j: int| 0 <= j < run.part(e).len() implies #[trigger] run.part(e)[j] < run.list.len() by {
                assert(run.list[size_sum(run.sizes, e) + j] < run.list.len());
            }
            lemma_translated_len(run.stage(e).assignments, run.part(e), own.assignments, run.stage(e).offset, run.part(e).len());
        }
    }
}

proof fn lemma_translated_len(out: Seq<u32>, list: Seq<usize>, input: Seq<u32>, offset: nat, m: nat)
    requires
        m <= list.len(),
        forall|j: int| 0 <= j < list.len() ==> #[trigger] list[j] < out.len(),
    ensures
        translated(out, list, input, offset, m).len() == out.len(),
    decreases m,
{
    if m > 0 {
        lemma_translated_len(out, list, input, offset, (m - 1) as nat);
        assert(list[m - 1] < out.len());
    }
}

/// What the clustering of one mesocluster ends with.
#[verifier::rlimit(30)]
proof fn lemma_own(run: FineRun, c: nat)
    requires
        run.fits(),
        c < run.counts.len(),
        run.counts[c as int] > 0,
        run.stage(c).base.d == run.start.base.d,
        run.stage(c).base.config == run.start.base.config,
        spacious(run.stage(c).base, run.total(), run.list.len()),
    ensures
        ({
            let own = run.own(c);
            let k = run.counts[c as int] as nat;
            &&& spacious(own, run.total(), run.list.len())
            &&& own.d == run.start.base.d
            &&& own.config == run.start.base.config
            &&& own.n_clusters == k
            &&& own.n_samples == run.part(c).len()
            &&& consistent(own)
            &&& k <= run.total()
            &&& k * own.d <= own.horizontal_centroids.len()
            &&& run.part(c).len() == run.sizes[c as int] <= run.list.len()
        }),
{
    reveal(FineRun::own);
    let n = run.list.len();
    let d = run.start.base.d as int;
    let k = run.counts[c as int] as nat;
    let m = run.own_start(c);
    lemma_counts_before_grow(run.counts, c + 1, run.counts.len());
    lemma_size_sum_grows(run.sizes, c + 1, run.counts.len());
    assert(size_sum(run.sizes, c + 1) == size_sum(run.sizes, c) + run.sizes[c as int]);
    assert(k * d <= run.total() * d) by (nonlinear_arith)
        requires
            k <= run.total(),
            d >= 0,
    ;
    assert(run.part(c).len() == run.sizes[c as int]);
    assert(spacious(m, run.total(), n));
    let base = run.start.base;
    let by_products = never_prunes(base.d, base.config.use_blas_only, k);
    let early = base.config.early_termination;
    lemma_phase_spacious(
        m,
        run.rows(c),
        no_counts(run.part(c).len()),
        0,
        run.iters,
        true,
        by_products,
        early,
        false,
        run.total(),
        n,
    );
    lemma_phase_keeps(m, run.rows(c), no_counts(run.part(c).len()), 0, run.iters, true, by_products, early, false);
    lemma_phase_consistent(m, run.rows(c), no_counts(run.part(c).len()), 0, run.iters, true, by_products, early, false);
}

/// The parts of two mesoclusters have no sample in common.
proof fn lemma_parts_apart(run: FineRun, c: nat, e: nat, p: int, q: int)
    requires
        run.fits(),
        c < e < run.counts.len(),
        0 <= p < run.part(c).len(),
        0 <= q < run.part(e).len(),
    ensures
        run.part(c)[p] != run.part(e)[q],
{
    lemma_size_sum_grows(run.sizes, c + 1, e);
    lemma_size_sum_grows(run.sizes, e + 1, run.counts.len());
    lemma_size_sum_grows(run.sizes, c + 1, run.counts.len());
    assert(size_sum(run.sizes, c + 1) == size_sum(run.sizes, c) + run.sizes[c as int]);
    assert(size_sum(run.sizes, e + 1) == size_sum(run.sizes, e) + run.sizes[e as int]);
    let a = size_sum(run.sizes, c) + p;
    let b = size_sum(run.sizes, e) + q;
    assert(run.list[a] != run.list[b]);
}

/// The rows of mesocluster `b`, put into the range that starts at row `at`.
proof fn lemma_rows_placed(run: FineRun, b: nat)
    requires
        b < run.counts.len(),
        run.counts[b as int] > 0,
        run.stage(b).base.d == run.start.base.d,
        run.stage(b).base.config == run.start.base.config,
    ensures
        run.stage(b + 1).centroids == placed(
            run.stage(b).centroids,
            run.own(b).horizontal_centroids.take((run.counts[b as int] * run.stage(b).base.d) as int),
            (run.stage(b).offset * run.stage(b).base.d) as int,
        ),
        run.stage(b + 1).assignments == translated(
            run.stage(b).assignments,
            run.part(b),
            run.own(b).assignments,
            run.stage(b).offset,
            run.part(b).len(),
        ),
{
    reveal(FineRun::stage);
    reveal(FineRun::own);
}

/// What the clustering of mesocluster `b` changes: its own range of rows and its own samples.
#[verifier::rlimit(30)]
proof fn lemma_step(run: FineRun, b: nat)
    requires
        run.fits(),
        b < run.counts.len(),
        run.counts[b as int] > 0,
    ensures
        ({
            let f = run.stage(b + 1);
            let g = run.stage(b);
            let own = run.own(b);
            let at = counts_before(run.counts, b);
            let d = run.start.base.d as int;
            let k = run.counts[b as int] as int;
            &&& forall|r: int, j: int|
                0 <= r < k && 0 <= j < d ==> #[trigger] f.centroids[(at + r) * d + j] == own.horizontal_centroids[r * d + j]
            &&& forall|r: int, j: int|
                0 <= r < at && 0 <= j < d ==> #[trigger] f.centroids[r * d + j] == g.centroids[r * d + j]
            &&& forall|p: int|
                0 <= p < run.part(b).len() ==> #[trigger] f.assignments[run.part(b)[p] as int] == at + own.assignments[p]
                    && own.assignments[p] < k
            &&& forall|x: int|
                0 <= x < run.list.len() && (forall|p: int| 0 <= p < run.part(b).len() ==> #[trigger] run.part(b)[p] != x)
                    ==> #[trigger] f.assignments[x] == g.assignments[x]
        }),
{
    let f = run.stage(b + 1);
    let g = run.stage(b);
    let own = run.own(b);
    let at = counts_before(run.counts, b);
    let d = run.start.base.d as int;
    let k = run.counts[b as int] as int;
    lemma_stage(run, b);
    lemma_own(run, b);
    lemma_rows_placed(run, b);
    lemma_counts_before_grow(run.counts, b + 1, run.counts.len());
    lemma_size_sum_grows(run.sizes, b + 1, run.counts.len());
    assert(size_sum(run.sizes, b + 1) == size_sum(run.sizes, b) + run.sizes[b as int]);
    let front = own.horizontal_centroids.take(k * d);
    assert(0 <= at * d) by (nonlinear_arith)
        requires
            at >= 0,
            d >= 0,
    ;
    assert forall|r: int, j: int| 0 <= r < k && 0 <= j < d implies #[trigger] f.centroids[(at + r) * d + j]
        == own.horizontal_centroids[r * d + j] by {
        lemma_row(r, k, d);
        lemma_row(at + r, run.total() as int, d);
        assert((at + r) * d == at * d + r * d) by (nonlinear_arith);
        assert(front[r * d + j] == own.horizontal_centroids[r * d + j]);
    }
    assert forall|r: int, j: int| 0 <= r < at && 0 <= j < d implies #[trigger] f.centroids[r * d + j] == g.centroids[r * d
        + j] by {
        lemma_row(r, at as int, d);
        lemma_row(r, run.total() as int, d);
    }
    assert forall|j: int| 0 <= j < run.part(b).len() implies #[trigger] run.part(b)[j] < g.assignments.len() by {
        assert(run.list[size_sum(run.sizes, b) + j] < run.list.len());
    }
    assert(own.assigned());
    assert forall|j: int| 0 <= j < run.part(b).len() implies #[trigger] own.assignments[j] + at <= u32::MAX by {
        assert(own.assignments[j] < own.n_clusters);
    }
    assert(run.part(b).no_duplicates());
    law_translated(g.assignments, run.part(b), own.assignments, at, run.part(b).len());
    assert forall|p: int| 0 <= p < run.part(b).len() implies #[trigger] f.assignments[run.part(b)[p] as int] == at
        + own.assignments[p] && own.assignments[p] < k by {
        assert(own.assignments[p] < own.n_clusters);
    }
}

/// After mesocluster `e - 1`, and so after all of them, the range of mesocluster `c` holds the
/// centroids that its own clustering ended with, and its samples have their own clusters, counted
/// from the start of the range.
#[verifier::rlimit(30)]
pub proof fn law_ranges(run: FineRun, c: nat, e: nat)
    requires
        run.fits(),
        c < e <= run.counts.len(),
        run.counts[c as int] > 0,
    ensures
        ({
            let f = run.stage(e);
            let own = run.own(c);
            let from = counts_before(run.counts, c);
            let d = run.start.base.d as int;
            &&& forall|r: int, j: int|
                0 <= r < run.counts[c as int] && 0 <= j < d ==> #[trigger] f.centroids[(from + r) * d + j]
                    == own.horizontal_centroids[r * d + j]
            &&& forall|p: int|
                0 <= p < run.part(c).len() ==> #[trigger] f.assignments[run.part(c)[p] as int] == from
                    + own.assignments[p] && own.assignments[p] < run.counts[c as int]
        }),
    decreases e,
{
    let b = (e - 1) as nat;
    if b == c {
        lemma_step(run, c);
    } else {
        law_ranges(run, c, b);
        let g = run.stage(b);
        let f = run.stage(e);
        let own = run.own(c);
        let from = counts_before(run.counts, c);
        let d = run.start.base.d as int;
        assert(e == b + 1);
        lemma_counts_before_grow(run.counts, c + 1, b);
        lemma_stage(run, c);
        lemma_own(run, c);
        if run.counts[b as int] > 0 {
            lemma_step(run, b);
            let k = run.counts[c as int] as int;
            assert forall|r: int, j: int| 0 <= r < k && 0 <= j < d implies #[trigger] f.centroids[(from + r) * d + j]
                == own.horizontal_centroids[r * d + j] by {
                assert(f.centroids[(from + r) * d + j] == g.centroids[(from + r) * d + j]);
            }
            lemma_size_sum_grows(run.sizes, c + 1, run.counts.len());
            assert(size_sum(run.sizes, c + 1) == size_sum(run.sizes, c) + run.sizes[c as int]);
            assert forall|p: int| 0 <= p < run.part(c).len() implies #[trigger] f.assignments[run.part(c)[p] as int]
                == from + own.assignments[p] && own.assignments[p] < run.counts[c as int] by {
                let x = run.part(c)[p] as int;
                assert(run.list[size_sum(run.sizes, c) + p] < run.list.len());
                assert forall|q: int| 0 <= q < run.part(b).len() implies #[trigger] run.part(b)[q] != x by {
                    lemma_parts_apart(run, c, b, p, q);
                }
                assert(g.assignments[x] == from + own.assignments[p]);
            }
        } else {
            assert(f == g) by {
                reveal(FineRun::stage);
            }
        }
    }
}

/// The clustering of a mesocluster starts from its own samples: row `r` of its first centroids is the
/// vector of the sample drawn for it, and the norms that it starts with are those of its own samples
/// and of those centroids.
#[verifier::rlimit(30)]
pub proof fn law_starts_from_own_samples(run: FineRun, c: nat, r: int, p: int, j: int)
    requires
        run.fits(),
        c < run.counts.len(),
        run.counts[c as int] > 0,
        0 <= r < run.counts[c as int],
        0 <= p < run.part(c).len(),
        0 <= j < run.start.base.d,
        shuffled(run.part(c).len(), run.start.base.config.seed)[r] == p,
    ensures
        ({
            let own = run.own_start(c);
            let d = run.start.base.d as int;
            let at = run.part(c)[p] as int;
            &&& own.horizontal_centroids[r * d + j] == run.samples[at * d + j]
            &&& own.prev_centroids[r * d + j] == run.samples[at * d + j]
            &&& run.rows(c)[p * d + j] == run.samples[at * d + j]
            &&& own.data_norms[p] == run.all_norms[at]
            &&& own.n_samples == run.sizes[c as int]
            &&& own.n_clusters == run.counts[c as int]
            &&& own.centroid_norms == norms(own.prev_centroids, run.counts[c as int] as nat, run.start.base.d)
        }),
{
    let d = run.start.base.d as int;
    let list = run.part(c);
    let k = run.counts[c as int] as nat;
    let base = run.stage(c).base;
    lemma_stage(run, c);
    lemma_own(run, c);
    let rows = run.rows(c);
    lemma_picked_row(run.samples, list, d as nat, list.len(), p, j);
    let order = shuffled(list.len(), run.start.base.config.seed);
    lemma_picked_row(rows, order, d as nat, k, r, j);
    lemma_row(r, k as int, d);
    assert(k * d <= run.total() * d) by (nonlinear_arith)
        requires
            k <= run.total(),
            d > 0,
    ;
    let own = run.own_start(c);
    assert(base.horizontal_centroids.len() == run.total() * d);
    let first = own.horizontal_centroids;
    assert(first[r * d + j] == rows[p * d + j]);
    assert(first.take((k * d) as int)[r * d + j] == first[r * d + j]);
}

impl Hierarchy {
    /// The clustering within the mesoclusters.
    pub open spec fn fine_run(self, data: Seq<Single>, n: nat) -> FineRun {
        let m = self.meso(data, n);
        let k = self.base.n_clusters;
        let samples = m.samples(data, n, !m.config.data_already_rotated);
        FineRun {
            start: Fine {
                base: Model { n_clusters: k, iteration_stats: self.base.iteration_stats, ..m },
                centroids: zeros(k * m.d),
                assignments: no_members(m.n_samples),
                stats: Seq::empty(),
                offset: 0,
            },
            samples,
            list: sample_list(m.assignments, m.cluster_sizes, m.n_samples, m.n_samples),
            sizes: m.cluster_sizes,
            counts: self.shares(data, n),
            all_norms: norms(samples, m.n_samples, m.d),
            partial_d: first_partial_d(m.vertical_d) as u32,
            iters: self.config.iters_fineclustering,
        }
    }
}

proof fn lemma_run(run: FineRun, c: nat)
    requires
        c <= run.counts.len(),
    ensures
        run.stage(c).with_mesoclusters(
            run.samples,
            run.list,
            run.sizes,
            run.counts,
            run.all_norms,
            run.partial_d,
            run.iters,
            c,
        ) == run.stage(run.counts.len()),
    decreases run.counts.len() - c,
{
    if c < run.counts.len() {
        reveal(FineRun::stage);
        lemma_run(run, c + 1);
    }
}

/// The places of the list hold each sample once.
proof fn lemma_list_holds_each(assignments: Seq<u32>, sizes: Seq<u32>, k: nat, n: nat)
    requires
        sizes_are_counts(assignments, sizes, k, n),
        size_sum(sizes, k) == n <= usize::MAX,
        forall|i: int| 0 <= i < n ==> #[trigger] assignments[i] < k,
    ensures
        ({
            let list = sample_list(assignments, sizes, n, n);
            &&& list.len() == n
            &&& list.no_duplicates()
            &&& forall|p: int| 0 <= p < n ==> #[trigger] list[p] < n
        }),
{
    let list = sample_list(assignments, sizes, n, n);
    // As many places as samples, and each sample has a place of its own: so the places are all taken.
    if n > 0 {
        law_every_sample_listed(assignments, sizes, k, n, n, 0);
        let f = Seq::new(n, |i: int| listed_at(assignments, sizes, i as nat) as int);
        assert forall|i: int| 0 <= i < n implies 0 <= #[trigger] f[i] < n && list[f[i]] == i by {
            law_every_sample_listed(assignments, sizes, k, n, n, i as nat);
        }
        assert(f.no_duplicates()) by {
            assert forall|i: int, j: int| 0 <= i < n && 0 <= j < n && i != j implies f[i] != f[j] by {
                assert(list[f[i]] == i);
                assert(list[f[j]] == j);
            }
        }
        lemma_onto(f, n);
        assert forall|p: int| 0 <= p < n implies #[trigger] list[p] < n && f[list[p] as int] == p by {
            assert(f.contains(p));
            let i = choose|i: int| 0 <= i < n && f[i] == p;
            assert(list[f[i]] == i);
        }
    }
}

/// A sequence of `n` different numbers below `n` holds all of them.
proof fn lemma_onto(f: Seq<int>, n: nat)
    requires
        f.len() == n,
        f.no_duplicates(),
        forall|i: int| 0 <= i < n ==> 0 <= #[trigger] f[i] < n,
    ensures
        forall|p: int| 0 <= p < n ==> #[trigger] f.contains(p),
{
    let s = f.to_set();
    let all = vstd::set_lib::set_int_range(0, n as int);
    vstd::set_lib::lemma_int_range(0, n as int);
    f.unique_seq_to_set();
    assert(s.subset_of(all)) by {
        assert forall|x: int| s.contains(x) implies all.contains(x) by {
            let i = choose|i: int| 0 <= i < f.len() && f[i] == x;
            assert(0 <= f[i] < n);
        }
    }
    vstd::set_lib::lemma_subset_equality(s, all);
    assert forall|p: int| 0 <= p < n implies #[trigger] f.contains(p) by {
        assert(all.contains(p));
        assert(s.contains(p));
    }
}

/// What the clustering into mesoclusters leaves, where its last iteration split none of them.
#[verifier::rlimit(30)]
proof fn lemma_meso(h: Hierarchy, data: Seq<Single>, n: nat)
    requires
        h.trainable(data.len(), n),
        h.meso(data, n).n_split == 0,
    ensures
        unsplit(h.meso(data, n), h.base.n_clusters, mesocluster_count(h.base.n_clusters)),
        h.meso(data, n).d == h.base.d,
        h.meso(data, n).config == h.base.config,
        0 < mesocluster_count(h.base.n_clusters) <= h.base.n_clusters <= u32::MAX,
{
    let k = h.base.n_clusters;
    let n_meso = mesocluster_count(k);
    lemma_mesocluster_count(k);
    lemma_share(n, h.base.config.sampling_fraction, usize::MAX as nat);
    let p = h.base.meso_prepared(data, n, n_meso);
    let samples = p.samples(data, n, !p.config.data_already_rotated);
    let by_products = never_prunes(p.d, p.config.use_blas_only, n_meso);
    let iters = h.config.iters_mesoclustering;
    let early = p.config.early_termination;
    assert(n_meso * p.d <= k * p.d) by (nonlinear_arith)
        requires
            n_meso <= k,
            p.d >= 0,
    ;
    assert(spacious(p, k, p.n_samples));
    lemma_phase_consistent(p, samples, no_counts(p.n_samples), 0, iters, true, by_products, early, false);
    lemma_phase_keeps(p, samples, no_counts(p.n_samples), 0, iters, true, by_products, early, false);
    lemma_phase_spacious(
        p,
        samples,
        no_counts(p.n_samples),
        0,
        iters,
        true,
        by_products,
        early,
        false,
        k,
        p.n_samples,
    );
}

/// A clustering into `n_meso` clusters, none of them just split, with room for `k`.
pub open spec fn unsplit(m: Model, k: nat, n_meso: nat) -> bool {
    &&& consistent(m)
    &&& sizes_are_counts(m.assignments, m.cluster_sizes, n_meso, m.n_samples)
    &&& m.n_clusters == n_meso
    &&& spacious(m, k, m.n_samples)
    &&& 0 < m.d
    &&& k <= m.n_samples <= u32::MAX
}

/// The clustering within the mesoclusters that `m` has found.
pub open spec fn run_within(m: Model, k: nat, n_meso: nat, run: FineRun, iters: u32) -> bool {
    &&& spacious(run.start.base, k, m.n_samples)
    &&& run.start.base.d == m.d
    &&& run.start.centroids == zeros(k * m.d)
    &&& run.start.assignments == no_members(m.n_samples)
    &&& run.start.offset == 0
    &&& run.list == sample_list(m.assignments, m.cluster_sizes, m.n_samples, m.n_samples)
    &&& run.sizes == m.cluster_sizes
    &&& run.counts == fine_counts(
        m.cluster_sizes.take(n_meso as int),
        n_meso,
        0,
        k,
        m.n_samples,
        nonempty(m.cluster_sizes.take(n_meso as int), 0, n_meso),
    )
    &&& run.iters == iters
}

/// Then everything fits together.
proof fn lemma_run_fits(m: Model, k: nat, n_meso: nat, run: FineRun, iters: u32)
    requires
        unsplit(m, k, n_meso),
        run_within(m, k, n_meso, run, iters),
        0 < n_meso <= k,
        0 < iters,
    ensures
        run.fits(),
        run.total() == k,
        run.counts.len() == n_meso,
        forall|c: int|
            0 <= c < n_meso ==> (#[trigger] run.counts[c] == 0 <==> m.cluster_sizes[c] == 0),
{
    let sizes = m.cluster_sizes.take(n_meso as int);
    lemma_size_sum_taken(m.cluster_sizes, n_meso, n_meso);
    lemma_sum_from(sizes, 0, n_meso);
    lemma_nonempty_bound(sizes, 0, n_meso);
    law_shares(sizes, n_meso, 0, k, m.n_samples, nonempty(sizes, 0, n_meso));
    lemma_list_holds_each(m.assignments, m.cluster_sizes, n_meso, m.n_samples);
    assert forall|c: int| 0 <= c < n_meso implies #[trigger] run.counts[c] <= run.sizes[c] && (run.counts[c] == 0
        <==> m.cluster_sizes[c] == 0) by {
        assert(sizes[c] == m.cluster_sizes[c]);
        assert(run.counts[c] <= sizes[0 + c]);
    }
}

/// Where the last iteration split no mesocluster, everything fits together.
#[verifier::rlimit(30)]
pub proof fn lemma_fine_run_fits(h: Hierarchy, data: Seq<Single>, n: nat)
    requires
        h.trainable(data.len(), n),
        h.meso(data, n).n_split == 0,
    ensures
        h.fine_run(data, n).fits(),
        h.fine_run(data, n).total() == h.base.n_clusters,
        h.fine_run(data, n).counts.len() == mesocluster_count(h.base.n_clusters),
        h.fine(data, n) == h.fine_run(data, n).stage(h.fine_run(data, n).counts.len()),
        unsplit(h.meso(data, n), h.base.n_clusters, mesocluster_count(h.base.n_clusters)),
        h.meso(data, n).d == h.base.d,
        forall|c: int|
            0 <= c < h.fine_run(data, n).counts.len() ==> (#[trigger] h.fine_run(data, n).counts[c] == 0 <==> h.meso(
                data,
                n,
            ).cluster_sizes[c] == 0),
{
    let k = h.base.n_clusters;
    let n_meso = mesocluster_count(k);
    lemma_meso(h, data, n);
    let run = h.fine_run(data, n);
    lemma_run_fits(h.meso(data, n), k, n_meso, run, h.config.iters_fineclustering);
    lemma_run(run, 0);
    assert(run.stage(0) == run.start) by {
        reveal(FineRun::stage);
    }
}

/// One sample of a clustering within mesoclusters.
#[verifier::rlimit(30)]
proof fn lemma_run_rows(m: Model, k: nat, n_meso: nat, run: FineRun, iters: u32, i: int)
    requires
        unsplit(m, k, n_meso),
        run_within(m, k, n_meso, run, iters),
        0 < n_meso <= k,
        0 < iters,
        0 <= i < m.n_samples,
    ensures
        ({
            let c = m.assignments[i] as nat;
            let p = listed_at(m.assignments, m.cluster_sizes, i as nat) - size_sum(m.cluster_sizes, c);
            let own = run.own(c);
            let from = counts_before(run.counts, c);
            let f = run.stage(run.counts.len());
            let d = m.d as int;
            &&& c < run.counts.len()
            &&& 0 <= p < run.part(c).len()
            &&& run.part(c)[p] == i
            &&& own.assignments[p] < run.counts[c as int]
            &&& f.assignments[i] == from + own.assignments[p] < k
            &&& forall|j: int|
                0 <= j < d ==> #[trigger] f.centroids[f.assignments[i] * d + j] == own.horizontal_centroids[own.assignments[p]
                    * d + j]
            &&& forall|j: int| 0 <= j < d ==> #[trigger] run.rows(c)[p * d + j] == run.samples[i * d + j]
        }),
{
    let c = m.assignments[i] as nat;
    let d = m.d as int;
    lemma_run_fits(m, k, n_meso, run, iters);
    assert(m.assigned());
    assert(c < n_meso);
    law_every_sample_listed(m.assignments, m.cluster_sizes, n_meso, m.n_samples, m.n_samples, i as nat);
    let p = listed_at(m.assignments, m.cluster_sizes, i as nat) - size_sum(m.cluster_sizes, c);
    assert(size_sum(m.cluster_sizes, c + 1) == size_sum(m.cluster_sizes, c) + m.cluster_sizes[c as int]);
    assert(run.part(c)[p] == i);
    assert(run.counts[c as int] > 0);
    law_ranges(run, c, run.counts.len());
    let own = run.own(c);
    let from = counts_before(run.counts, c);
    let f = run.stage(run.counts.len());
    lemma_counts_before_grow(run.counts, c + 1, run.counts.len());
    assert(f.assignments[run.part(c)[p] as int] == from + own.assignments[p]);
    let a = own.assignments[p] as int;
    assert forall|j: int| 0 <= j < d implies #[trigger] f.centroids[f.assignments[i] * d + j] == own.horizontal_centroids[a
        * d + j] by {
        assert(f.centroids[(from + a) * d + j] == own.horizontal_centroids[a * d + j]);
    }
    assert forall|j: int| 0 <= j < d implies #[trigger] run.rows(c)[p * d + j] == run.samples[i * d + j] by {
        lemma_row(p, run.part(c).len() as int, d);
        lemma_cell(p, j, d);
    }
}

proof fn lemma_size_sum_taken(sizes: Seq<u32>, n: nat, k: nat)
    requires
        k <= n <= sizes.len(),
    ensures
        size_sum(sizes.take(n as int), k) == size_sum(sizes, k),
    decreases k,
{
    if k > 0 {
        lemma_size_sum_taken(sizes, n, (k - 1) as nat);
    }
}

/// What hierarchical training without refinement hands back. Sample `i` is in mesocluster `c`, and
/// at place `p` among its samples. The cluster that it is assigned to is the one that the clustering
/// of that mesocluster by itself put it into, counted behind the clusters of the mesoclusters before;
/// and the row of that cluster is the centroid that it ended with.
#[verifier::rlimit(30)]
pub proof fn law_hierarchy_rows(h: Hierarchy, data: Seq<Single>, n: nat, i: int)
    requires
        h.trainable(data.len(), n),
        h.meso(data, n).n_split == 0,
        h.config.iters_refinement == 0,
        0 <= i < h.meso(data, n).n_samples,
    ensures
        ({
            let m = h.meso(data, n);
            let run = h.fine_run(data, n);
            let c = m.assignments[i] as nat;
            let p = listed_at(m.assignments, m.cluster_sizes, i as nat) - size_sum(m.cluster_sizes, c);
            let own = run.own(c);
            let from = counts_before(run.counts, c);
            let r = h.trained_on(data, n).base;
            let d = h.base.d as int;
            &&& c < run.counts.len()
            &&& 0 <= p < run.part(c).len()
            &&& run.part(c)[p] == i
            &&& own.assignments[p] < run.counts[c as int]
            &&& r.assignments[i] == from + own.assignments[p] < h.base.n_clusters
            &&& forall|j: int|
                0 <= j < d ==> #[trigger] r.horizontal_centroids[r.assignments[i] * d + j]
                    == own.horizontal_centroids[own.assignments[p] * d + j]
            &&& forall|j: int|
                0 <= j < d ==> #[trigger] run.rows(c)[p * d + j] == m.samples(data, n, !m.config.data_already_rotated)[i * d
                    + j]
        }),
{
    lemma_fine_run_fits(h, data, n);
    lemma_meso(h, data, n);
    let m = h.meso(data, n);
    let run = h.fine_run(data, n);
    let n_meso = mesocluster_count(h.base.n_clusters);
    lemma_run_rows(m, h.base.n_clusters, n_meso, run, h.config.iters_fineclustering, i);
    lemma_no_refinement(h, data, n);
}

/// Without refinement the clusters stay as the mesoclusters left them.
proof fn lemma_no_refinement(h: Hierarchy, data: Seq<Single>, n: nat)
    requires
        h.config.iters_refinement == 0,
    ensures
        h.trained_on(data, n).base.horizontal_centroids == h.fine(data, n).centroids,
        h.trained_on(data, n).base.assignments == h.fine(data, n).assignments,
{
}

/// The rows split into one range for each mesocluster, from the sum of the shares before it on, and
/// no row is left over.
#[verifier::rlimit(30)]
pub proof fn law_hierarchy_ranges(h: Hierarchy, data: Seq<Single>, n: nat, c: nat, r: int, j: int)
    requires
        h.trainable(data.len(), n),
        h.meso(data, n).n_split == 0,
        h.config.iters_refinement == 0,
        c < h.fine_run(data, n).counts.len(),
        0 <= r < h.fine_run(data, n).counts[c as int],
        0 <= j < h.base.d,
    ensures
        ({
            let run = h.fine_run(data, n);
            let from = counts_before(run.counts, c);
            let t = h.trained_on(data, n).base;
            &&& counts_before(run.counts, run.counts.len()) == h.base.n_clusters
            &&& t.horizontal_centroids.len() == h.base.n_clusters * h.base.d
            &&& t.horizontal_centroids[(from + r) * h.base.d + j] == run.own(c).horizontal_centroids[r * h.base.d + j]
        }),
{
    lemma_fine_run_fits(h, data, n);
    let run = h.fine_run(data, n);
    law_ranges(run, c, run.counts.len());
    lemma_stage(run, run.counts.len());
    let f = h.fine(data, n);
    let from = counts_before(run.counts, c);
    assert(f.centroids[(from + r) * (h.base.d as int) + j] == run.own(c).horizontal_centroids[r * (h.base.d as int) + j]);
    lemma_no_refinement(h, data, n);
}

} // verus!
