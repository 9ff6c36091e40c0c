//! How evenly the samples are spread over the clusters.
use crate::centroids::{lemma_members_bound, members};
use crate::single::{Single, ZERO};
use crate::superkmeans::SuperKMeans;
use vstd::prelude::*;

verus! {

/// Summary of the cluster sizes.
#[derive(Copy, Clone, Debug, PartialEq, Eq, Structural)]
pub struct ClusterBalanceStats {
    pub mean: Single,
    pub geometric_mean: Single,
    pub stdev: Single,
    pub cv: Single,
    pub min: usize,
    pub max: usize,
}

impl Default for ClusterBalanceStats {
    fn default() -> (r: Self)
        ensures
            r == (ClusterBalanceStats {
                mean: Single { bits: ZERO },
                geometric_mean: Single { bits: ZERO },
                stdev: Single { bits: ZERO },
                cv: Single { bits: ZERO },
                min: 0,
                max: 0,
            }),
    {
        let zero: Single = Single { bits: ZERO };
        ClusterBalanceStats { mean: zero, geometric_mean: zero, stdev: zero, cv: zero, min: 0, max: 0 }
    }
}

/// The sizes of the first `k` clusters, added up.
pub open spec fn members_total(assignments: Seq<u32>, n: nat, k: nat) -> nat
    decreases k,
{
    if k == 0 {
        0
    } else {
        members_total(assignments, n, (k - 1) as nat) + members(assignments, k - 1, n)
    }
}

/// The squares of the sizes of the first `k` clusters, added up.
pub open spec fn members_squared(assignments: Seq<u32>, n: nat, k: nat) -> nat
    decreases k,
{
    if k == 0 {
        0
    } else {
        let m = members(assignments, k - 1, n);
        members_squared(assignments, n, (k - 1) as nat) + m * m
    }
}

/// The mean size.
pub open spec fn mean_size(assignments: Seq<u32>, n: nat, k: nat) -> Single {
    Single::from_nat(members_total(assignments, n, k)).over(Single::from_nat(k))
}

/// The standard deviation of the sizes.
pub open spec fn size_deviation(assignments: Seq<u32>, n: nat, k: nat) -> Single {
    let mean = mean_size(assignments, n, k);
    Single::from_nat(members_squared(assignments, n, k)).over(Single::from_nat(k)).minus(
        mean.times(mean),
    ).larger(Single { bits: ZERO }).root()
}

/// The standard deviation in proportion to the mean; zero where the mean is zero.
pub open spec fn relative_deviation(stdev: Single, mean: Single) -> Single {
    if mean.parts().mag != 0 {
        stdev.over(mean)
    } else {
        Single { bits: ZERO }
    }
}

/// One more sample belongs to one more cluster.
proof fn lemma_total_step(assignments: Seq<u32>, n: nat, k: nat)
    requires
        n > 0,
    ensures
        members_total(assignments, n, k) == members_total(assignments, (n - 1) as nat, k) + if assignments[n - 1] < k {
            1nat
        } else {
            0
        },
    decreases k,
{
    if k > 0 {
        lemma_total_step(assignments, n, (k - 1) as nat);
    }
}

/// Every sample is counted in exactly one cluster.
pub proof fn lemma_members_total(assignments: Seq<u32>, n: nat, k: nat)
    requires
        n <= assignments.len(),
        forall|i: int| 0 <= i < n ==> #[trigger] assignments[i] < k,
    ensures
        members_total(assignments, n, k) == n,
    decreases n,
{
    if n > 0 {
        lemma_total_step(assignments, n, k);
        lemma_members_total(assignments, (n - 1) as nat, k);
    } else {
        lemma_nothing_counted(assignments, k);
    }
}

proof fn lemma_nothing_counted(assignments: Seq<u32>, k: nat)
    ensures
        members_total(assignments, 0, k) == 0,
    decreases k,
{
    if k > 0 {
        lemma_nothing_counted(assignments, (k - 1) as nat);
    }
}

/// The squares of the sizes add up to at most the square of the sum of the sizes.
pub proof fn law_squares_bounded(assignments: Seq<u32>, n: nat, k: nat)
    ensures
        members_squared(assignments, n, k) <= members_total(assignments, n, k) * members_total(
            assignments,
            n,
            k,
        ),
    decreases k,
{
    if k > 0 {
        law_squares_bounded(assignments, n, (k - 1) as nat);
        let a = members_total(assignments, n, (k - 1) as nat);
        let m = members(assignments, k - 1, n);
        assert(a * a + m * m <= (a + m) * (a + m)) by (nonlinear_arith)
            requires
                a >= 0,
                m >= 0,
        ;
    }
}

proof fn lemma_squared_grows(assignments: Seq<u32>, n: nat, j: nat, k: nat)
    requires
        j <= k,
    ensures
        members_squared(assignments, n, j) <= members_squared(assignments, n, k),
        members_total(assignments, n, j) <= members_total(assignments, n, k),
    decreases k,
{
    if j < k {
        lemma_squared_grows(assignments, n, j, (k - 1) as nat);
        let m = members(assignments, k - 1, n);
        assert(m * m >= 0) by (nonlinear_arith);
    }
}

/// The size of each cluster.
pub fn count_members(assignments: &[u32], n_samples: usize, n_clusters: usize) -> (sizes: Vec<usize>)
    requires
        n_samples <= assignments@.len(),
        forall|i: int| 0 <= i < n_samples ==> #[trigger] assignments@[i] < n_clusters,
    ensures
        sizes@.len() == n_clusters,
        forall|c: int| 0 <= c < n_clusters ==> #[trigger] sizes@[c] == members(assignments@, c, n_samples as nat),
{
    let mut sizes: Vec<usize> = vec![0usize;n_clusters];
    let mut i: usize = 0;
    while i < n_samples
        invariant
            i <= n_samples <= assignments@.len(),
            forall|i: int| 0 <= i < n_samples ==> #[trigger] assignments@[i] < n_clusters,
            sizes@.len() == n_clusters,
            forall|c: int| 0 <= c < n_clusters ==> #[trigger] sizes@[c] == members(assignments@, c, i as nat),
        decreases n_samples - i,
    {
        let c: usize = assignments[i] as usize;
        proof {
            lemma_members_bound(assignments@, c as int, i as nat);
        }
        sizes.set(c, sizes[c] + 1);
        i = i + 1;
    }
    sizes
}

impl SuperKMeans {
    /// Cluster-balance summary stats over the assignments. The geometric mean of the sizes that
    /// are not zero comes from the caller.
    pub fn cluster_balance_stats(
        assignments: &[u32],
        n_samples: usize,
        n_clusters: usize,
        geometric_mean: Single,
    ) -> (r: ClusterBalanceStats)
        requires
            n_samples <= assignments@.len(),
            forall|i: int| 0 <= i < n_samples ==> #[trigger] assignments@[i] < n_clusters,
            members_squared(assignments@, n_samples as nat, n_clusters as nat) <= usize::MAX,
        ensures
            r.mean == mean_size(assignments@, n_samples as nat, n_clusters as nat),
            r.geometric_mean == geometric_mean,
            r.stdev == size_deviation(assignments@, n_samples as nat, n_clusters as nat),
            r.cv == if r.mean.parts().mag != 0 {
                r.stdev.over(r.mean)
            } else {
                Single { bits: ZERO }
            },
            r.cv == relative_deviation(r.stdev, r.mean),
            forall|c: int|
                0 <= c < n_clusters ==> r.min <= #[trigger] members(assignments@, c, n_samples as nat) <= r.max,
            n_clusters > 0 ==> (exists|c: int|
                0 <= c < n_clusters && r.min == #[trigger] members(assignments@, c, n_samples as nat)),
            n_clusters > 0 ==> (exists|c: int|
                0 <= c < n_clusters && r.max == #[trigger] members(assignments@, c, n_samples as nat)),
            n_clusters == 0 ==> r.min == 0 && r.max == 0,
    {
        let ghost a = assignments@;
        let ghost n = n_samples as nat;
        let sizes: Vec<usize> = count_members(assignments, n_samples, n_clusters);
        proof {
            lemma_members_total(a, n, n_clusters as nat);
        }
        let mut sum: usize = 0;
        let mut sq_sum: usize = 0;
        let mut min: usize = 0;
        let mut max: usize = 0;
        let ghost mut at_min: int = 0;
        let ghost mut at_max: int = 0;
        let mut c: usize = 0;
        while c < n_clusters
            invariant
                c <= n_clusters,
                sizes@.len() == n_clusters,
                forall|b: int| 0 <= b < n_clusters ==> #[trigger] sizes@[b] == members(a, b, n),
                members_total(a, n, n_clusters as nat) == n_samples,
                members_squared(a, n, n_clusters as nat) <= usize::MAX,
                sum == members_total(a, n, c as nat),
                sq_sum == members_squared(a, n, c as nat),
                forall|b: int| 0 <= b < c ==> min <= #[trigger] members(a, b, n) <= max,
                c > 0 ==> 0 <= at_min < c && min == members(a, at_min, n),
                c > 0 ==> 0 <= at_max < c && max == members(a, at_max, n),
                c == 0 ==> min == 0 && max == 0,
            decreases n_clusters - c,
        {
            let s: usize = sizes[c];
            proof {
                lemma_squared_grows(a, n, (c + 1) as nat, n_clusters as nat);
                assert(s * s >= 0) by (nonlinear_arith);
            }
            sum = sum + s;
            sq_sum = sq_sum + s * s;
            if c == 0 || s < min {
                min = s;
                proof {
                    at_min = c as int;
                }
            }
            if c == 0 || s > max {
                max = s;
                proof {
                    at_max = c as int;
                }
            }
            c = c + 1;
        }
        let k: Single = Single::from_integer(n_clusters as u64);
        let mean: Single = Single::from_integer(sum as u64).div(k);
        let stdev: Single = Single::from_integer(sq_sum as u64).div(k).sub(mean.mul(mean)).max(
            Single { bits: ZERO },
        ).sqrt();
        let cv: Single = if mean.is_zero() {
            Single { bits: ZERO }
        } else {
            stdev.div(mean)
        };
        ClusterBalanceStats { mean, geometric_mean, stdev, cv, min, max }
    }
}

} // verus!
