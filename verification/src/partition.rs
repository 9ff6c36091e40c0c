//! How the members of the mesoclusters are listed, and how the clusters are shared out among them.
use crate::centroids::{lemma_members_grow, members, size_sum};
use crate::double::{lemma_proportion, Double};
use vstd::prelude::*;

verus! {

/// How many of the sizes from `i` up to `n` are not zero.
pub open spec fn nonempty(sizes: Seq<u32>, i: nat, n: nat) -> nat
    decreases n - i,
{
    if i >= n {
        0
    } else {
        nonempty(sizes, i + 1, n) + if sizes[i as int] > 0 {
            1nat
        } else {
            0
        }
    }
}

/// The sum of the sizes from `i` up to `n`.
pub open spec fn sum_from(sizes: Seq<u32>, i: nat, n: nat) -> nat
    decreases n - i,
{
    if i >= n {
        0
    } else {
        sum_from(sizes, i + 1, n) + sizes[i as int] as nat
    }
}

/// The sum of all counts.
pub open spec fn count_sum(counts: Seq<usize>) -> nat
    decreases counts.len(),
{
    if counts.len() == 0 {
        0
    } else {
        count_sum(counts.drop_last()) + counts.last() as nat
    }
}

/// How many of the `c` clusters left go to a mesocluster of `size` of the `s` samples left: in
/// proportion, but at least one, and so that one is left for each of the `others` that are not
/// empty.
pub open spec fn allocation(size: u32, c: nat, s: nat, others: nat) -> nat {
    let share = Double::from_nat(c).times(Double::from_nat(size as nat)).over(Double::from_nat(s)).closest(
        usize::MAX as nat,
    );
    let limited = if c >= others && share > c - others {
        (c - others) as nat
    } else {
        share
    };
    if limited < 1 {
        1
    } else {
        limited
    }
}

pub open spec fn less(a: nat, b: nat) -> nat {
    if a < b {
        0
    } else {
        (a - b) as nat
    }
}

/// How many of `c` clusters each mesocluster from `i` on gets, where `s` samples and `filled`
/// mesoclusters that are not empty are left. The last one gets what is left.
pub open spec fn fine_counts(sizes: Seq<u32>, n: nat, i: nat, c: nat, s: nat, filled: nat) -> Seq<usize>
    decreases n - i,
{
    if i >= n {
        Seq::empty()
    } else {
        let size = sizes[i as int];
        let others = less(filled, 1);
        let here = if i + 1 == n {
            c
        } else if size == 0 {
            0
        } else {
            allocation(size, c, s, others)
        };
        seq![here as usize] + fine_counts(
            sizes,
            n,
            i + 1,
            less(c, here),
            less(s, size as nat),
            if i + 1 == n || size == 0 {
                filled
            } else {
                others
            },
        )
    }
}

/// There are no more filled ones than members, nor than there are in all.
pub proof fn lemma_nonempty_bound(sizes: Seq<u32>, i: nat, n: nat)
    ensures
        nonempty(sizes, i, n) <= sum_from(sizes, i, n),
        i <= n ==> nonempty(sizes, i, n) <= n - i,
    decreases n - i,
{
    if i < n {
        lemma_nonempty_bound(sizes, i + 1, n);
    }
}

/// Summing from the front or from the back gives the same.
pub proof fn lemma_sum_from(sizes: Seq<u32>, i: nat, n: nat)
    requires
        i <= n,
    ensures
        size_sum(sizes, n) == size_sum(sizes, i) + sum_from(sizes, i, n),
    decreases n - i,
{
    if i < n {
        lemma_sum_from(sizes, i + 1, n);
    }
}

proof fn lemma_count_sum_push(counts: Seq<usize>, x: usize)
    ensures
        count_sum(counts.push(x)) == count_sum(counts) + x,
{
    assert(counts.push(x).drop_last() =~= counts);
}

/// Cutting off what is not summed leaves the sum.
pub proof fn lemma_size_sum_take(sizes: Seq<u32>, n: nat, k: nat)
    requires
        k <= n <= sizes.len(),
    ensures
        size_sum(sizes.take(n as int), k) == size_sum(sizes, k),
    decreases k,
{
    if k > 0 {
        lemma_size_sum_take(sizes, n, (k - 1) as nat);
    }
}

/// Shares the clusters out among the mesoclusters, in proportion to their sizes. All clusters are
/// given out, each mesocluster with samples gets one at least, and none gets more than it has
/// samples.
pub fn arrange_fine_clusters(n_clusters: usize, n_mesoclusters: usize, n_samples: usize, mesocluster_sizes: &[u32]) -> (out: Vec<usize>)
    requires
        n_mesoclusters == mesocluster_sizes@.len(),
        nonempty(mesocluster_sizes@, 0, n_mesoclusters as nat) <= n_clusters <= n_samples <= u32::MAX,
        size_sum(mesocluster_sizes@, n_mesoclusters as nat) == n_samples,
    ensures
        out@ == fine_counts(
            mesocluster_sizes@,
            n_mesoclusters as nat,
            0,
            n_clusters as nat,
            n_samples as nat,
            nonempty(mesocluster_sizes@, 0, n_mesoclusters as nat),
        ),
        out@.len() == n_mesoclusters,
        count_sum(out@) == n_clusters,
        forall|i: int| 0 <= i < n_mesoclusters ==> #[trigger] out@[i] <= mesocluster_sizes@[i],
        forall|i: int| 0 <= i < n_mesoclusters ==> (#[trigger] out@[i] == 0 <==> mesocluster_sizes@[i] == 0),
{
    let ghost sizes = mesocluster_sizes@;
    let ghost n = n_mesoclusters as nat;
    let ghost goal = fine_counts(sizes, n, 0, n_clusters as nat, n_samples as nat, nonempty(sizes, 0, n));
    let mut filled: usize = 0;
    let mut i: usize = n_mesoclusters;
    while i > 0
        invariant
            i <= n_mesoclusters <= sizes.len(),
            sizes == mesocluster_sizes@,
            n == n_mesoclusters,
            filled == nonempty(sizes, i as nat, n),
        decreases i,
    {
        i = i - 1;
        proof {
            lemma_nonempty_bound(sizes, i as nat, n);
        }
        if mesocluster_sizes[i] > 0 {
            filled = filled + 1;
        }
    }
    proof {
        lemma_sum_from(sizes, 0, n);
        lemma_nonempty_bound(sizes, 0, n);
    }
    let mut out: Vec<usize> = Vec::new();
    let mut clusters: usize = n_clusters;
    let mut samples: usize = n_samples;
    let mut i: usize = 0;
    while i < n_mesoclusters
        invariant
            i <= n_mesoclusters <= sizes.len(),
            sizes == mesocluster_sizes@,
            n == n_mesoclusters,
            n_samples <= u32::MAX,
            n_clusters <= u32::MAX,
            out@.len() == i,
            goal == out@ + fine_counts(sizes, n, i as nat, clusters as nat, samples as nat, filled as nat),
            samples == sum_from(sizes, i as nat, n),
            samples <= n_samples,
            clusters <= samples,
            i < n ==> filled == nonempty(sizes, i as nat, n),
            i < n ==> filled <= clusters,
            i == n ==> clusters == 0,
            count_sum(out@) + clusters == n_clusters,
            forall|j: int| 0 <= j < i ==> #[trigger] out@[j] <= sizes[j],
            forall|j: int| 0 <= j < i ==> (#[trigger] out@[j] == 0 <==> sizes[j] == 0),
        decreases n_mesoclusters - i,
    {
        let ghost before = out@;
        let size: u32 = mesocluster_sizes[i];
        let here: usize;
        if i < n_mesoclusters - 1 {
            if size == 0 {
                here = 0;
            } else {
                let ghost all = filled;
                filled = filled - 1;
                proof {
                    lemma_proportion(clusters as nat, size as nat, samples as nat, usize::MAX as nat);
                    lemma_nonempty_bound(sizes, (i + 1) as nat, n);
                }
                let share: usize = Double::from_integer(clusters as u64).mul(Double::from_integer(size as u64)).div(
                    Double::from_integer(samples as u64),
                ).round_to_usize();
                let limited: usize = if share > clusters - filled {
                    clusters - filled
                } else {
                    share
                };
                here = if limited < 1 {
                    1
                } else {
                    limited
                };
                assert(here == allocation(size, clusters as nat, samples as nat, filled as nat));
            }
        } else {
            here = clusters;
            assert(sum_from(sizes, (i + 1) as nat, n) == 0);
        }
        out.push(here);
        clusters = clusters - here;
        samples = samples - size as usize;
        proof {
            lemma_count_sum_push(before, here);
            let rest = fine_counts(sizes, n, (i + 1) as nat, clusters as nat, samples as nat, filled as nat);
            assert(out@ + rest =~= before + (seq![here] + rest));
        }
        i = i + 1;
    }
    assert(out@ + Seq::<usize>::empty() =~= out@);
    out
}

/// Where sample `i` is listed: behind the samples of the clusters before its own, and behind the
/// earlier samples of its own.
pub open spec fn listed_at(assignments: Seq<u32>, sizes: Seq<u32>, i: nat) -> nat {
    size_sum(sizes, assignments[i as int] as nat) + members(assignments, assignments[i as int] as int, i)
}

/// Each of the `n` samples has its place in a list of length `n`.
pub open spec fn list_fits(assignments: Seq<u32>, sizes: Seq<u32>, n: nat) -> bool {
    forall|i: nat| i < n ==> #[trigger] listed_at(assignments, sizes, i) < n
}

/// The list of `n` samples, cluster by cluster, with the first `m` of them in place.
pub open spec fn sample_list(assignments: Seq<u32>, sizes: Seq<u32>, n: nat, m: nat) -> Seq<usize>
    decreases m,
{
    if m == 0 {
        Seq::new(n, |i: int| 0usize)
    } else {
        sample_list(assignments, sizes, n, (m - 1) as nat).update(
            listed_at(assignments, sizes, (m - 1) as nat) as int,
            (m - 1) as usize,
        )
    }
}

/// Where the list of each cluster starts.
pub fn cluster_offsets(sizes: &[u32], k: usize) -> (offsets: Vec<usize>)
    requires
        k <= sizes@.len(),
        size_sum(sizes@, k as nat) <= usize::MAX,
    ensures
        offsets@.len() == k + 1,
        forall|c: int| 0 <= c <= k ==> #[trigger] offsets@[c] == size_sum(sizes@, c as nat),
{
    let mut offsets: Vec<usize> = Vec::new();
    offsets.push(0);
    let mut c: usize = 0;
    while c < k
        invariant
            c <= k <= sizes@.len(),
            size_sum(sizes@, k as nat) <= usize::MAX,
            offsets@.len() == c + 1,
            forall|b: int| 0 <= b <= c ==> #[trigger] offsets@[b] == size_sum(sizes@, b as nat),
        decreases k - c,
    {
        proof {
            lemma_size_sum_grows(sizes@, (c + 1) as nat, k as nat);
        }
        offsets.push(offsets[c] + sizes[c] as usize);
        c = c + 1;
    }
    offsets
}

pub proof fn lemma_size_sum_grows(sizes: Seq<u32>, a: nat, b: nat)
    requires
        a <= b,
    ensures
        size_sum(sizes, a) <= size_sum(sizes, b),
    decreases b,
{
    if a < b {
        lemma_size_sum_grows(sizes, a, (b - 1) as nat);
    }
}

/// Lists the samples cluster by cluster. There is no list where a sample would fall out of it,
/// which can be only where the sizes are not those of the assignments.
pub fn list_samples(assignments: &[u32], sizes: &[u32], k: usize, n: usize) -> (r: Option<Vec<usize>>)
    requires
        k <= sizes@.len(),
        n <= assignments@.len(),
        size_sum(sizes@, k as nat) <= n,
        forall|i: int| 0 <= i < n ==> #[trigger] assignments@[i] < k,
    ensures
        r is Some <==> list_fits(assignments@, sizes@, n as nat),
        r matches Some(list) ==> {
            &&& list@ == sample_list(assignments@, sizes@, n as nat, n as nat)
            &&& list@.len() == n
            &&& forall|i: int| 0 <= i < n ==> #[trigger] list@[i] < n
        },
{
    let ghost a = assignments@;
    let ghost s = sizes@;
    let mut next: Vec<usize> = cluster_offsets(sizes, k);
    let mut list: Vec<usize> = vec![0usize;n];
    assert(list@ =~= sample_list(a, s, n as nat, 0));
    proof {
        assert forall|c: int| 0 <= c < k implies #[trigger] next@[c] <= n by {
            lemma_size_sum_grows(s, c as nat, k as nat);
        }
    }
    let mut i: usize = 0;
    while i < n
        invariant
            i <= n,
            n <= assignments@.len(),
            a == assignments@,
            s == sizes@,
            size_sum(s, k as nat) <= n,
            forall|i: int| 0 <= i < n ==> #[trigger] a[i] < k,
            next@.len() == k + 1,
            list@.len() == n,
            list@ == sample_list(a, s, n as nat, i as nat),
            forall|j: int| 0 <= j < n ==> #[trigger] list@[j] < n,
            forall|j: nat| j < i ==> #[trigger] listed_at(a, s, j) < n,
            forall|c: int|
                0 <= c < k ==> #[trigger] next@[c] == size_sum(s, c as nat) + members(a, c, i as nat),
            forall|c: int| 0 <= c < k ==> #[trigger] next@[c] <= n,
        decreases n - i,
    {
        let c: usize = assignments[i] as usize;
        let at: usize = next[c];
        assert(at == listed_at(a, s, i as nat));
        if at >= n {
            return None;
        }
        list.set(at, i);
        next.set(c, at + 1);
        i = i + 1;
    }
    Some(list)
}

/// The sizes are exactly the numbers of members.
pub open spec fn sizes_are_counts(assignments: Seq<u32>, sizes: Seq<u32>, k: nat, n: nat) -> bool {
    forall|c: int| 0 <= c < k ==> #[trigger] sizes[c] == members(assignments, c, n)
}

/// Where the sizes are the numbers of members, each sample is listed within its own cluster's part
/// of the list.
proof fn lemma_listed_in_part(assignments: Seq<u32>, sizes: Seq<u32>, k: nat, n: nat, i: nat)
    requires
        sizes_are_counts(assignments, sizes, k, n),
        i < n,
        assignments[i as int] < k,
    ensures
        ({
            let c = assignments[i as int] as nat;
            size_sum(sizes, c) <= listed_at(assignments, sizes, i) < size_sum(sizes, c + 1)
        }),
{
    let c = assignments[i as int] as int;
    lemma_members_grow(assignments, c, i, n);
    assert(sizes[c] == members(assignments, c, n));
}

/// Where the sizes are the numbers of members, no two samples are listed at one place.
proof fn lemma_listed_apart(assignments: Seq<u32>, sizes: Seq<u32>, k: nat, n: nat, i: nat, j: nat)
    requires
        sizes_are_counts(assignments, sizes, k, n),
        i < j < n,
        assignments[i as int] < k,
        assignments[j as int] < k,
    ensures
        listed_at(assignments, sizes, i) != listed_at(assignments, sizes, j),
{
    let a = assignments[i as int] as nat;
    let b = assignments[j as int] as nat;
    lemma_listed_in_part(assignments, sizes, k, n, i);
    lemma_listed_in_part(assignments, sizes, k, n, j);
    if a == b {
        lemma_members_grow(assignments, a as int, i, j);
    } else if a < b {
        lemma_size_sum_grows(sizes, a + 1, b);
    } else {
        lemma_size_sum_grows(sizes, b + 1, a);
    }
}

/// Where the sizes are the numbers of members, the list of all samples exists.
pub proof fn law_counted_samples_fit(assignments: Seq<u32>, sizes: Seq<u32>, k: nat, n: nat)
    requires
        sizes_are_counts(assignments, sizes, k, n),
        size_sum(sizes, k) <= n,
        forall|i: int| 0 <= i < n ==> #[trigger] assignments[i] < k,
    ensures
        list_fits(assignments, sizes, n),
{
    assert forall|i: nat| i < n implies #[trigger] listed_at(assignments, sizes, i) < n by {
        let c = assignments[i as int] as nat;
        lemma_listed_in_part(assignments, sizes, k, n, i);
        lemma_size_sum_grows(sizes, c + 1, k);
    }
}

/// Where the sizes are the numbers of members, every sample stands in the list, in the part of its
/// own cluster.
pub proof fn law_every_sample_listed(assignments: Seq<u32>, sizes: Seq<u32>, k: nat, n: nat, m: nat, i: nat)
    requires
        sizes_are_counts(assignments, sizes, k, n),
        size_sum(sizes, k) <= n <= usize::MAX,
        forall|i: int| 0 <= i < n ==> #[trigger] assignments[i] < k,
        i < m <= n,
    ensures
        ({
            let c = assignments[i as int] as nat;
            let at = listed_at(assignments, sizes, i);
            let list = sample_list(assignments, sizes, n, m);
            &&& list.len() == n
            &&& list[at as int] == i
            &&& size_sum(sizes, c) <= at < size_sum(sizes, c + 1) <= n
        }),
    decreases m,
{
    let c = assignments[i as int] as nat;
    lemma_listed_in_part(assignments, sizes, k, n, i);
    lemma_size_sum_grows(sizes, c + 1, k);
    law_counted_samples_fit(assignments, sizes, k, n);
    lemma_list_len(assignments, sizes, n, (m - 1) as nat);
    assert(listed_at(assignments, sizes, (m - 1) as nat) < n);
    if i < m - 1 {
        law_every_sample_listed(assignments, sizes, k, n, (m - 1) as nat, i);
        lemma_listed_apart(assignments, sizes, k, n, i, (m - 1) as nat);
    }
}

proof fn lemma_list_len(assignments: Seq<u32>, sizes: Seq<u32>, n: nat, m: nat)
    requires
        list_fits(assignments, sizes, n),
        m <= n,
    ensures
        sample_list(assignments, sizes, n, m).len() == n,
    decreases m,
{
    if m > 0 {
        lemma_list_len(assignments, sizes, n, (m - 1) as nat);
        assert(listed_at(assignments, sizes, (m - 1) as nat) < n);
    }
}

} // verus!
