//! Filling empty clusters and strengthening small ones.
use crate::centroids::{lemma_divided, lemma_size_sum_update, size_sum};
use crate::common::{
    lemma_cell, lemma_row, BALANCING_THRESHOLD, CENTER_ADJUSTMENT_WEIGHT, CENTROID_PERTURBATION_EPS,
};
use crate::numbers::{
    lemma_exact, lemma_from_nat, lemma_from_nat_ordered, lemma_long_integer, lemma_minus, lemma_nearest_single, lemma_one,
    lemma_order_of_values, lemma_over_positive, lemma_over_sign, lemma_unit,
};
use crate::rng::{word_draw, RandomStream};
use crate::single::{lemma_below, Single, ONE, ZERO};
use vstd::arithmetic::power2::{lemma_pow2_pos, pow2};
use vstd::prelude::*;

verus! {

/// How many rounds over all clusters a search makes at most: 2^68. That is the number of words of a
/// stream, which then starts again from its first word. So a search that has found nothing in so
/// many rounds has twice begun a round at the same word, and would go round for ever.
pub const ROUNDS: u128 = 0x10_0000_0000_0000_0000;

/// The centroids with their sizes, the random stream, and the number of changes made.
#[verifier::ext_equal]
pub ghost struct Clusters {
    pub centroids: Seq<Single>,
    pub sizes: Seq<u32>,
    pub stream: RandomStream,
    pub split: nat,
}

/// The number of samples less the number of clusters, at least 1.
pub open spec fn surplus(n_samples: nat, n_clusters: nat) -> Single {
    Single::from_nat(n_samples).minus(Single::from_nat(n_clusters)).larger(Single { bits: ONE })
}

/// The chance that a cluster of this size donates to an empty one.
pub open spec fn donor_chance(size: u32, surplus: Single) -> Single {
    Single::from_nat(size as nat).minus(Single { bits: ONE }).over(surplus)
}

/// The donor for an empty cluster, sought from `cj` on, round and round, within `rounds` rounds;
/// and the stream behind the search.
pub open spec fn donor(
    sizes: Seq<u32>,
    n_clusters: nat,
    surplus: Single,
    stream: RandomStream,
    cj: nat,
    rounds: nat,
) -> (Option<nat>, RandomStream)
    decreases rounds, n_clusters - cj,
{
    if rounds == 0 || cj >= n_clusters {
        (None, stream)
    } else {
        let (r, next) = stream.drawn_unit();
        if r.below(donor_chance(sizes[cj as int], surplus)) {
            (Some(cj), next)
        } else if cj + 1 == n_clusters {
            donor(sizes, n_clusters, surplus, next, 0, (rounds - 1) as nat)
        } else {
            donor(sizes, n_clusters, surplus, next, cj + 1, rounds)
        }
    }
}

/// The factors 1 + 1/1024 and 1 - 1/1024.
pub open spec fn grown() -> Single {
    (Single { bits: ONE }).plus(Single { bits: CENTROID_PERTURBATION_EPS })
}

pub open spec fn shrunk() -> Single {
    (Single { bits: ONE }).minus(Single { bits: CENTROID_PERTURBATION_EPS })
}

/// Row `ci` becomes a copy of row `cj`, and the two are moved apart by a little: where one grows,
/// the other shrinks, in turn from entry to entry.
pub open spec fn split_rows(centroids: Seq<Single>, d: int, ci: int, cj: int, upto: int) -> Seq<Single> {
    Seq::new(
        centroids.len(),
        |x: int|
            if x / d == cj && x % d < upto {
                centroids[x].times(
                    if x % d % 2 == 0 {
                        shrunk()
                    } else {
                        grown()
                    },
                )
            } else if x / d == ci && x % d < upto {
                centroids[cj * d + x % d].times(
                    if x % d % 2 == 0 {
                        grown()
                    } else {
                        shrunk()
                    },
                )
            } else {
                centroids[x]
            },
    )
}

/// Cluster `ci` gets half of what cluster `cj` has.
pub open spec fn split_sizes(sizes: Seq<u32>, ci: int, cj: int) -> Seq<u32> {
    let half = (sizes[cj] / 2) as u32;
    let given = sizes.update(ci, half);
    given.update(cj, (given[cj] - half) as u32)
}

impl Clusters {
    /// Cluster `ci`, if it is empty, filled from a donor.
    pub open spec fn with_donor(self, d: int, n_clusters: nat, surplus: Single, ci: int) -> Clusters {
        if self.sizes[ci] != 0 {
            self
        } else {
            match donor(self.sizes, n_clusters, surplus, self.stream, 0, ROUNDS as nat) {
                (Some(cj), next) => Clusters {
                    centroids: split_rows(self.centroids, d, ci, cj as int, d),
                    sizes: split_sizes(self.sizes, ci, cj as int),
                    stream: next,
                    split: self.split + 1,
                },
                (None, next) => Clusters { stream: next, ..self },
            }
        }
    }

    /// The clusters from `ci` on, the empty ones filled one after the other.
    pub open spec fn filled_from(self, d: int, n_clusters: nat, surplus: Single, ci: nat) -> Clusters
        decreases n_clusters - ci,
    {
        if ci >= n_clusters {
            self
        } else {
            self.with_donor(d, n_clusters, surplus, ci as int).filled_from(d, n_clusters, surplus, ci + 1)
        }
    }
}

/// A donor is one of the clusters.
pub proof fn lemma_donor_in_range(
    sizes: Seq<u32>,
    n_clusters: nat,
    surplus: Single,
    stream: RandomStream,
    cj: nat,
    rounds: nat,
)
    ensures
        donor(sizes, n_clusters, surplus, stream, cj, rounds).0 matches Some(c) ==> c < n_clusters,
    decreases rounds, n_clusters - cj,
{
    if rounds > 0 && cj < n_clusters {
        let next = stream.drawn_unit().1;
        if cj + 1 == n_clusters {
            lemma_donor_in_range(sizes, n_clusters, surplus, next, 0, (rounds - 1) as nat);
        } else {
            lemma_donor_in_range(sizes, n_clusters, surplus, next, cj + 1, rounds);
        }
    }
}

/// Filling empty clusters moves members between clusters; together they have as many as before.
/// The tables keep their lengths.
pub proof fn lemma_filled_keeps_total(c: Clusters, d: int, n_clusters: nat, surplus: Single, ci: nat)
    requires
        n_clusters <= c.sizes.len(),
    ensures
        size_sum(c.filled_from(d, n_clusters, surplus, ci).sizes, n_clusters) == size_sum(
            c.sizes,
            n_clusters,
        ),
        c.filled_from(d, n_clusters, surplus, ci).sizes.len() == c.sizes.len(),
        c.filled_from(d, n_clusters, surplus, ci).centroids.len() == c.centroids.len(),
    decreases n_clusters - ci,
{
    if ci < n_clusters {
        let next = c.with_donor(d, n_clusters, surplus, ci as int);
        if c.sizes[ci as int] == 0 {
            lemma_donor_in_range(c.sizes, n_clusters, surplus, c.stream, 0, ROUNDS as nat);
            if let Some(cj) = donor(c.sizes, n_clusters, surplus, c.stream, 0, ROUNDS as nat).0 {
                let half = (c.sizes[cj as int] / 2) as u32;
                let given = c.sizes.update(ci as int, half);
                lemma_size_sum_update(c.sizes, ci as int, half, n_clusters);
                lemma_size_sum_update(given, cj as int, (given[cj as int] - half) as u32, n_clusters);
            }
        }
        lemma_filled_keeps_total(next, d, n_clusters, surplus, ci + 1);
    }
}

/// Pulling small clusters changes no size and keeps the table's length.
pub proof fn lemma_pulled_keeps_sizes(c: Clusters, d: int, n_samples: nat, n_clusters: nat, average: Single, ci: nat)
    ensures
        c.pulled_from(d, n_samples, n_clusters, average, ci).sizes == c.sizes,
        c.pulled_from(d, n_samples, n_clusters, average, ci).centroids.len() == c.centroids.len(),
    decreases n_clusters - ci,
{
    if ci < n_clusters {
        lemma_pulled_keeps_sizes(
            c.with_pull(d, n_samples, n_clusters, average, ci as int),
            d,
            n_samples,
            n_clusters,
            average,
            ci + 1,
        );
    }
}

/// Looks for the donor of an empty cluster.
fn find_donor(sizes: &Vec<u32>, n_clusters: usize, surplus: Single, stream: &mut RandomStream) -> (r: Option<usize>)
    requires
        0 < n_clusters <= sizes@.len(),
    ensures
        ({
            let s = donor(sizes@, n_clusters as nat, surplus, *old(stream), 0, ROUNDS as nat);
            &&& *final(stream) == s.1
            &&& match r {
                Some(cj) => s.0 == Some(cj as nat) && cj < n_clusters,
                None => s.0 is None,
            }
        }),
{
    let ghost start = *stream;
    let mut left: u128 = ROUNDS;
    let mut cj: usize = 0;
    while left > 0
        invariant
            cj < n_clusters <= sizes@.len(),
            start == *old(stream),
            donor(sizes@, n_clusters as nat, surplus, *stream, cj as nat, left as nat) == donor(
                sizes@,
                n_clusters as nat,
                surplus,
                start,
                0,
                ROUNDS as nat,
            ),
        decreases left, n_clusters - cj,
    {
        let p: Single = Single::from_integer(sizes[cj] as u64).sub(Single { bits: ONE }).div(surplus);
        let r: Single = stream.unit();
        if r.lt(p) {
            return Some(cj);
        }
        if cj + 1 == n_clusters {
            cj = 0;
            left = left - 1;
        } else {
            cj = cj + 1;
        }
    }
    None
}

/// Copies row `cj` to row `ci` and moves the two apart.
fn split_two_rows(centroids: &mut Vec<Single>, d: usize, ci: usize, cj: usize)
    requires
        d > 0,
        (ci + 1) * d <= old(centroids)@.len(),
        (cj + 1) * d <= old(centroids)@.len(),
    ensures
        final(centroids)@ == split_rows(old(centroids)@, d as int, ci as int, cj as int, d as int),
{
    let ghost start = centroids@;
    let ghost dd = d as int;
    let up: Single = (Single { bits: ONE }).add(Single { bits: CENTROID_PERTURBATION_EPS });
    let down: Single = (Single { bits: ONE }).sub(Single { bits: CENTROID_PERTURBATION_EPS });
    proof {
        lemma_row(ci as int, ci + 1, dd);
        lemma_row(cj as int, cj + 1, dd);
        assert(centroids.len() <= usize::MAX);
        assert forall|x: int| 0 <= x < start.len() implies #[trigger] centroids@[x] == split_rows(start, dd, ci as int, cj as int, 0)[x] by {
            lemma_divided(x, dd);
        }
    }
    let mut j: usize = 0;
    while j < d
        invariant
            j <= d,
            d > 0,
            dd == d,
            0 <= ci * d,
            0 <= cj * d,
            ci * d + d <= start.len() <= usize::MAX,
            cj * d + d <= start.len(),
            up == grown(),
            down == shrunk(),
            centroids@.len() == start.len(),
            forall|x: int|
                0 <= x < start.len() ==> #[trigger] centroids@[x] == split_rows(start, dd, ci as int, cj as int, j as int)[x],
        decreases d - j,
    {
        proof {
            lemma_cell(ci as int, j as int, dd);
            lemma_cell(cj as int, j as int, dd);
        }
        let ghost before = centroids@;
        let v: Single = centroids[cj * d + j];
        assert(v == start[cj * d + j]);
        if j % 2 == 0 {
            centroids.set(ci * d + j, v.mul(up));
            centroids.set(cj * d + j, v.mul(down));
        } else {
            centroids.set(ci * d + j, v.mul(down));
            centroids.set(cj * d + j, v.mul(up));
        }
        proof {
            assert forall|x: int| 0 <= x < start.len() implies #[trigger] centroids@[x] == split_rows(start, dd, ci as int, cj as int, j + 1)[x] by {
                assert(x != ci * d + j && x != cj * d + j ==> centroids@[x] == before[x]);
                lemma_divided(x, dd);
            }
        }
        j = j + 1;
    }
    assert(centroids@ =~= split_rows(start, dd, ci as int, cj as int, dd));
}

/// Fills each empty cluster from a donor: its row is copied and moved a little, and half of its
/// members are counted over.
pub fn fill_empty_clusters(
    centroids: &mut Vec<Single>,
    sizes: &mut Vec<u32>,
    stream: &mut RandomStream,
    d: usize,
    n_samples: usize,
    n_clusters: usize,
) -> (split: usize)
    requires
        d > 0,
        n_clusters * d <= old(centroids)@.len(),
        n_clusters <= old(sizes)@.len(),
    ensures
        (Clusters { centroids: final(centroids)@, sizes: final(sizes)@, stream: *final(stream), split: split as nat })
            == (Clusters { centroids: old(centroids)@, sizes: old(sizes)@, stream: *old(stream), split: 0 }).filled_from(
            d as int,
            n_clusters as nat,
            surplus(n_samples as nat, n_clusters as nat),
            0,
        ),
        split <= n_clusters,
{
    let ghost start = Clusters { centroids: centroids@, sizes: sizes@, stream: *stream, split: 0 };
    let rest: Single = Single::from_integer(n_samples as u64).sub(Single::from_integer(n_clusters as u64)).max(
        Single { bits: ONE },
    );
    let mut split: usize = 0;
    let mut ci: usize = 0;
    while ci < n_clusters
        invariant
            ci <= n_clusters,
            d > 0,
            split <= ci,
            rest == surplus(n_samples as nat, n_clusters as nat),
            n_clusters * d <= centroids@.len(),
            n_clusters <= sizes@.len(),
            (Clusters { centroids: centroids@, sizes: sizes@, stream: *stream, split: split as nat }).filled_from(
                d as int,
                n_clusters as nat,
                rest,
                ci as nat,
            ) == start.filled_from(d as int, n_clusters as nat, rest, 0),
        decreases n_clusters - ci,
    {
        if sizes[ci] == 0 {
            let found: Option<usize> = find_donor(sizes, n_clusters, rest, stream);
            if let Some(cj) = found {
                proof {
                    lemma_row(ci as int, n_clusters as int, d as int);
                    lemma_row(cj as int, n_clusters as int, d as int);
                }
                split_two_rows(centroids, d, ci, cj);
                let half: u32 = sizes[cj] / 2;
                sizes.set(ci, half);
                sizes.set(cj, sizes[cj] - half);
                split = split + 1;
            }
        }
        ci = ci + 1;
    }
    split
}

/// The average size of a cluster.
pub open spec fn average_size(n_samples: nat, n_clusters: nat) -> Single {
    Single::from_nat(
        n_samples / if n_clusters == 0 {
            1
        } else {
            n_clusters
        },
    )
}

/// The size up to which a cluster is small: a quarter of the average.
pub open spec fn small_size(average: Single) -> nat {
    average.times(Single { bits: BALANCING_THRESHOLD }).whole(u32::MAX as nat)
}

/// The chance that a cluster of this size, at least the average, pulls a small one.
pub open spec fn pull_chance(size: u32, average: Single, n_samples: nat, n_clusters: nat) -> Single {
    let k = Single::from_nat(n_clusters);
    Single::from_nat(size as nat).minus(average).plus(Single { bits: ONE }).over(
        Single::from_nat(n_samples).minus(average.times(k)).plus(k),
    )
}

/// The large cluster for a small one, sought from `at` on, round and round, within `rounds` rounds;
/// and the stream behind the search. Clusters below the average cost no draw.
pub open spec fn large_cluster(
    sizes: Seq<u32>,
    n_samples: nat,
    n_clusters: nat,
    average: Single,
    stream: RandomStream,
    at: nat,
    rounds: nat,
) -> (Option<nat>, RandomStream)
    decreases rounds, n_clusters - at,
{
    if rounds == 0 || at >= n_clusters {
        (None, stream)
    } else {
        let large = !Single::from_nat(sizes[at as int] as nat).below(average);
        let (r, next) = if large {
            stream.drawn_unit()
        } else {
            (Single { bits: ONE }, stream)
        };
        if large && r.below(pull_chance(sizes[at as int], average, n_samples, n_clusters)) {
            (Some(at), next)
        } else if at + 1 == n_clusters {
            large_cluster(sizes, n_samples, n_clusters, average, next, 0, (rounds - 1) as nat)
        } else {
            large_cluster(sizes, n_samples, n_clusters, average, next, at + 1, rounds)
        }
    }
}

/// Row `ci` moved towards row `cj`: the mean of the two, where row `ci` weighs as much as the
/// cluster has members, up to 7.
pub open spec fn pulled_rows(centroids: Seq<Single>, d: int, ci: int, cj: int, size: u32, upto: int) -> Seq<Single> {
    let one = Single { bits: ONE };
    let wc = Single::from_nat(size as nat).smaller(Single { bits: CENTER_ADJUSTMENT_WEIGHT });
    Seq::new(
        centroids.len(),
        |x: int|
            if x / d == ci && x % d < upto {
                wc.times(centroids[x]).plus(one.times(centroids[cj * d + x % d])).over(wc.plus(one))
            } else {
                centroids[x]
            },
    )
}

pub open spec fn is_small(size: u32, average: Single) -> bool {
    size != 0 && !Single::from_nat(small_size(average)).below(Single::from_nat(size as nat))
}

impl Clusters {
    /// Cluster `ci`, if it is small, pulled towards a large one.
    pub open spec fn with_pull(self, d: int, n_samples: nat, n_clusters: nat, average: Single, ci: int) -> Clusters {
        if !is_small(self.sizes[ci], average) {
            self
        } else {
            match large_cluster(self.sizes, n_samples, n_clusters, average, self.stream, 0, ROUNDS as nat) {
                (Some(cj), next) => Clusters {
                    centroids: pulled_rows(self.centroids, d, ci, cj as int, self.sizes[ci], d),
                    stream: next,
                    split: self.split + 1,
                    ..self
                },
                (None, next) => Clusters { stream: next, ..self },
            }
        }
    }

    /// The clusters from `ci` on, the small ones pulled one after the other.
    pub open spec fn pulled_from(self, d: int, n_samples: nat, n_clusters: nat, average: Single, ci: nat) -> Clusters
        decreases n_clusters - ci,
    {
        if ci >= n_clusters {
            self
        } else {
            self.with_pull(d, n_samples, n_clusters, average, ci as int).pulled_from(
                d,
                n_samples,
                n_clusters,
                average,
                ci + 1,
            )
        }
    }

    /// The empty clusters filled and, where that is asked for, the small ones pulled.
    pub open spec fn balanced(self, d: int, n_samples: nat, n_clusters: nat, aggressive: bool) -> Clusters {
        let full = self.filled_from(d, n_clusters, surplus(n_samples, n_clusters), 0);
        if aggressive {
            full.pulled_from(d, n_samples, n_clusters, average_size(n_samples, n_clusters), 0)
        } else {
            full
        }
    }
}

/// Looks for the large cluster that pulls a small one.
fn find_large(
    sizes: &Vec<u32>,
    n_samples: usize,
    n_clusters: usize,
    average: Single,
    stream: &mut RandomStream,
) -> (r: Option<usize>)
    requires
        0 < n_clusters <= sizes@.len(),
    ensures
        ({
            let s = large_cluster(
                sizes@,
                n_samples as nat,
                n_clusters as nat,
                average,
                *old(stream),
                0,
                ROUNDS as nat,
            );
            &&& *final(stream) == s.1
            &&& match r {
                Some(cj) => s.0 == Some(cj as nat) && cj < n_clusters,
                None => s.0 is None,
            }
        }),
{
    let ghost start = *stream;
    let k: Single = Single::from_integer(n_clusters as u64);
    let room: Single = Single::from_integer(n_samples as u64).sub(average.mul(k)).add(k);
    let mut left: u128 = ROUNDS;
    let mut at: usize = 0;
    while left > 0
        invariant
            at < n_clusters <= sizes@.len(),
            start == *old(stream),
            k == Single::from_nat(n_clusters as nat),
            room == Single::from_nat(n_samples as nat).minus(average.times(k)).plus(k),
            large_cluster(
                sizes@,
                n_samples as nat,
                n_clusters as nat,
                average,
                *stream,
                at as nat,
                left as nat,
            ) == large_cluster(sizes@, n_samples as nat, n_clusters as nat, average, start, 0, ROUNDS as nat),
        decreases left, n_clusters - at,
    {
        let size: Single = Single::from_integer(sizes[at] as u64);
        if !size.lt(average) {
            let p: Single = size.sub(average).add(Single { bits: ONE }).div(room);
            let r: Single = stream.unit();
            if r.lt(p) {
                return Some(at);
            }
        }
        if at + 1 == n_clusters {
            at = 0;
            left = left - 1;
        } else {
            at = at + 1;
        }
    }
    None
}

/// Moves row `ci` towards row `cj`.
fn pull_row(centroids: &mut Vec<Single>, d: usize, ci: usize, cj: usize, size: u32)
    requires
        d > 0,
        (ci + 1) * d <= old(centroids)@.len(),
        (cj + 1) * d <= old(centroids)@.len(),
    ensures
        final(centroids)@ == pulled_rows(old(centroids)@, d as int, ci as int, cj as int, size, d as int),
{
    let ghost start = centroids@;
    let ghost dd = d as int;
    let one: Single = Single { bits: ONE };
    let wc: Single = Single::from_integer(size as u64).min(Single { bits: CENTER_ADJUSTMENT_WEIGHT });
    let weight: Single = wc.add(one);
    proof {
        lemma_row(ci as int, ci + 1, dd);
        lemma_row(cj as int, cj + 1, dd);
        assert(centroids.len() <= usize::MAX);
        assert forall|x: int| 0 <= x < start.len() implies #[trigger] centroids@[x] == pulled_rows(start, dd, ci as int, cj as int, size, 0)[x] by {
            lemma_divided(x, dd);
        }
    }
    let mut j: usize = 0;
    while j < d
        invariant
            j <= d,
            d > 0,
            dd == d,
            0 <= ci * d,
            0 <= cj * d,
            ci * d + d <= start.len() <= usize::MAX,
            cj * d + d <= start.len(),
            one == (Single { bits: ONE }),
            wc == Single::from_nat(size as nat).smaller(Single { bits: CENTER_ADJUSTMENT_WEIGHT }),
            weight == wc.plus(one),
            centroids@.len() == start.len(),
            forall|x: int|
                0 <= x < start.len() ==> #[trigger] centroids@[x] == pulled_rows(start, dd, ci as int, cj as int, size, j as int)[x],
        decreases d - j,
    {
        proof {
            lemma_cell(ci as int, j as int, dd);
            lemma_cell(cj as int, j as int, dd);
        }
        let ghost before = centroids@;
        let v: Single = wc.mul(centroids[ci * d + j]).add(one.mul(centroids[cj * d + j])).div(weight);
        centroids.set(ci * d + j, v);
        proof {
            assert forall|x: int| 0 <= x < start.len() implies #[trigger] centroids@[x] == pulled_rows(start, dd, ci as int, cj as int, size, j + 1)[x] by {
                assert(x != ci * d + j ==> centroids@[x] == before[x]);
                lemma_divided(x, dd);
            }
        }
        j = j + 1;
    }
    assert(centroids@ =~= pulled_rows(start, dd, ci as int, cj as int, size, dd));
}

/// Pulls each small cluster towards a large one. `split` counts on.
pub fn pull_small_clusters(
    centroids: &mut Vec<Single>,
    sizes: &Vec<u32>,
    stream: &mut RandomStream,
    d: usize,
    n_samples: usize,
    n_clusters: usize,
    split: usize,
) -> (changed: usize)
    requires
        d > 0,
        n_clusters * d <= old(centroids)@.len(),
        n_clusters <= sizes@.len(),
        split + n_clusters <= usize::MAX,
    ensures
        (Clusters { centroids: final(centroids)@, sizes: sizes@, stream: *final(stream), split: changed as nat })
            == (Clusters { centroids: old(centroids)@, sizes: sizes@, stream: *old(stream), split: split as nat }).pulled_from(
            d as int,
            n_samples as nat,
            n_clusters as nat,
            average_size(n_samples as nat, n_clusters as nat),
            0,
        ),
{
    let ghost start = Clusters { centroids: centroids@, sizes: sizes@, stream: *stream, split: split as nat };
    let average: Single = Single::from_integer(
        (n_samples / if n_clusters == 0 {
            1
        } else {
            n_clusters
        }) as u64,
    );
    let threshold: Single = Single::from_integer(average.mul(Single { bits: BALANCING_THRESHOLD }).to_u32() as u64);
    let mut changed: usize = split;
    let mut ci: usize = 0;
    while ci < n_clusters
        invariant
            ci <= n_clusters,
            d > 0,
            changed <= split + ci,
            split + n_clusters <= usize::MAX,
            average == average_size(n_samples as nat, n_clusters as nat),
            threshold == Single::from_nat(small_size(average)),
            n_clusters * d <= centroids@.len(),
            n_clusters <= sizes@.len(),
            (Clusters { centroids: centroids@, sizes: sizes@, stream: *stream, split: changed as nat }).pulled_from(
                d as int,
                n_samples as nat,
                n_clusters as nat,
                average,
                ci as nat,
            ) == start.pulled_from(d as int, n_samples as nat, n_clusters as nat, average, 0),
        decreases n_clusters - ci,
    {
        let size: u32 = sizes[ci];
        if size != 0 && !threshold.lt(Single::from_integer(size as u64)) {
            let found: Option<usize> = find_large(sizes, n_samples, n_clusters, average, stream);
            if let Some(cj) = found {
                proof {
                    lemma_row(ci as int, n_clusters as int, d as int);
                    lemma_row(cj as int, n_clusters as int, d as int);
                }
                pull_row(centroids, d, ci, cj, size);
                changed = changed + 1;
            }
        }
        ci = ci + 1;
    }
    changed
}

/// A cluster without members to spare never donates.
proof fn lemma_donor_chance(size: u32, n_samples: nat, n_clusters: nat, stream: RandomStream)
    requires
        stream.drawn_unit().0.below(donor_chance(size, surplus(n_samples, n_clusters))),
    ensures
        size >= 2,
{
    let one = Single { bits: ONE };
    let r = stream.drawn_unit().0;
    let rest = surplus(n_samples, n_clusters);
    let chance = donor_chance(size, rest);
    let word = word_draw(stream.seed, stream.position).0;
    lemma_unit((word / 512) as nat);
    lemma_one();
    lemma_below(r, chance);
    let x = Single::from_nat(n_samples).minus(Single::from_nat(n_clusters));
    lemma_below(x, one);
    assert(rest.is_number() && rest.order() > 0);
    if size < 2 {
        lemma_from_nat(size as nat);
        lemma_minus(Single::from_nat(size as nat), one);
        lemma_pow2_pos(149);
        let v = Single::from_nat(size as nat).units() - one.units();
        assert(v <= 0) by (nonlinear_arith)
            requires
                v == size * pow2(149) - pow2(149),
                size <= 1,
                pow2(149) > 0,
        ;
        lemma_nearest_single(v, v, 1);
        lemma_over_sign(Single::from_nat(size as nat).minus(one), rest);
    }
}

/// A donor has at least two members; so it is never the empty cluster itself, and both clusters
/// have members after the split.
pub proof fn law_donor_has_members(
    sizes: Seq<u32>,
    n_samples: nat,
    n_clusters: nat,
    stream: RandomStream,
    cj: nat,
    rounds: nat,
)
    ensures
        donor(sizes, n_clusters, surplus(n_samples, n_clusters), stream, cj, rounds).0 matches Some(c) ==> {
            &&& c < n_clusters
            &&& sizes[c as int] >= 2
        },
    decreases rounds, n_clusters - cj,
{
    let rest = surplus(n_samples, n_clusters);
    if rounds > 0 && cj < n_clusters {
        let (r, next) = stream.drawn_unit();
        if r.below(donor_chance(sizes[cj as int], rest)) {
            lemma_donor_chance(sizes[cj as int], n_samples, n_clusters, stream);
        } else if cj + 1 == n_clusters {
            law_donor_has_members(sizes, n_samples, n_clusters, next, 0, (rounds - 1) as nat);
        } else {
            law_donor_has_members(sizes, n_samples, n_clusters, next, cj + 1, rounds);
        }
    }
}

/// How many of the first `k` clusters are empty.
pub open spec fn empty_clusters(sizes: Seq<u32>, k: nat) -> nat
    decreases k,
{
    if k == 0 {
        0
    } else {
        empty_clusters(sizes, (k - 1) as nat) + if sizes[k - 1] == 0 {
            1nat
        } else {
            0
        }
    }
}

proof fn lemma_empty_update(sizes: Seq<u32>, c: int, v: u32, k: nat)
    requires
        0 <= c < k <= sizes.len(),
    ensures
        empty_clusters(sizes.update(c, v), k) == empty_clusters(sizes, k) - (if sizes[c] == 0 {
            1int
        } else {
            0
        }) + if v == 0 {
            1int
        } else {
            0
        },
    decreases k,
{
    if k - 1 > c {
        lemma_empty_update(sizes, c, v, (k - 1) as nat);
    } else {
        lemma_empty_unchanged(sizes, c, v, (k - 1) as nat);
    }
}

proof fn lemma_empty_unchanged(sizes: Seq<u32>, c: int, v: u32, k: nat)
    requires
        0 <= k <= c < sizes.len(),
    ensures
        empty_clusters(sizes.update(c, v), k) == empty_clusters(sizes, k),
    decreases k,
{
    if k > 0 {
        lemma_empty_unchanged(sizes, c, v, (k - 1) as nat);
    }
}

/// Each split fills exactly one empty cluster and empties none.
pub proof fn law_each_split_fills_one(c: Clusters, d: int, n_samples: nat, n_clusters: nat, ci: nat)
    requires
        n_clusters <= c.sizes.len(),
    ensures
        ({
            let r = c.filled_from(d, n_clusters, surplus(n_samples, n_clusters), ci);
            empty_clusters(r.sizes, n_clusters) + r.split == empty_clusters(c.sizes, n_clusters) + c.split
        }),
    decreases n_clusters - ci,
{
    let rest = surplus(n_samples, n_clusters);
    if ci < n_clusters {
        let next = c.with_donor(d, n_clusters, rest, ci as int);
        if c.sizes[ci as int] == 0 {
            law_donor_has_members(c.sizes, n_samples, n_clusters, c.stream, 0, ROUNDS as nat);
            if let Some(cj) = donor(c.sizes, n_clusters, rest, c.stream, 0, ROUNDS as nat).0 {
                let half = (c.sizes[cj as int] / 2) as u32;
                let given = c.sizes.update(ci as int, half);
                lemma_empty_update(c.sizes, ci as int, half, n_clusters);
                lemma_empty_update(given, cj as int, (given[cj as int] - half) as u32, n_clusters);
            }
        }
        law_each_split_fills_one(next, d, n_samples, n_clusters, ci + 1);
    }
}

/// Each empty cluster from `ci` on finds a donor.
pub open spec fn donors_found(c: Clusters, d: int, n_clusters: nat, surplus: Single, ci: nat) -> bool
    decreases n_clusters - ci,
{
    ci >= n_clusters || {
        &&& c.sizes[ci as int] == 0 ==> donor(c.sizes, n_clusters, surplus, c.stream, 0, ROUNDS as nat).0 is Some
        &&& donors_found(c.with_donor(d, n_clusters, surplus, ci as int), d, n_clusters, surplus, ci + 1)
    }
}

proof fn lemma_filled_from(c: Clusters, d: int, n_samples: nat, n_clusters: nat, ci: nat)
    requires
        n_clusters <= c.sizes.len(),
        donors_found(c, d, n_clusters, surplus(n_samples, n_clusters), ci),
        forall|k: int| 0 <= k < ci && k < n_clusters ==> #[trigger] c.sizes[k] > 0,
    ensures
        forall|k: int|
            0 <= k < n_clusters ==> #[trigger] c.filled_from(
                d,
                n_clusters,
                surplus(n_samples, n_clusters),
                ci,
            ).sizes[k] > 0,
    decreases n_clusters - ci,
{
    let rest = surplus(n_samples, n_clusters);
    if ci < n_clusters {
        let next = c.with_donor(d, n_clusters, rest, ci as int);
        law_donor_has_members(c.sizes, n_samples, n_clusters, c.stream, 0, ROUNDS as nat);
        assert forall|k: int| 0 <= k < ci + 1 && k < n_clusters implies #[trigger] next.sizes[k] > 0 by {
            assert(k < ci ==> c.sizes[k] > 0);
        }
        lemma_filled_from(next, d, n_samples, n_clusters, ci + 1);
        let r = next.filled_from(d, n_clusters, rest, ci + 1);
        assert(c.filled_from(d, n_clusters, rest, ci) == r);
        assert forall|k: int| 0 <= k < n_clusters implies #[trigger] c.filled_from(
            d,
            n_clusters,
            surplus(n_samples, n_clusters),
            ci,
        ).sizes[k] > 0 by {
            assert(r.sizes[k] > 0);
        }
    }
}

/// Every empty cluster is filled, and nothing else is split, unless a search for a donor would go
/// on for ever.
pub proof fn law_every_empty_cluster_filled(c: Clusters, d: int, n_samples: nat, n_clusters: nat)
    requires
        n_clusters <= c.sizes.len(),
        donors_found(c, d, n_clusters, surplus(n_samples, n_clusters), 0),
    ensures
        ({
            let r = c.filled_from(d, n_clusters, surplus(n_samples, n_clusters), 0);
            &&& forall|k: int| 0 <= k < n_clusters ==> #[trigger] r.sizes[k] > 0
            &&& r.split == c.split + empty_clusters(c.sizes, n_clusters)
        }),
{
    lemma_filled_from(c, d, n_samples, n_clusters, 0);
    law_each_split_fills_one(c, d, n_samples, n_clusters, 0);
    let r = c.filled_from(d, n_clusters, surplus(n_samples, n_clusters), 0);
    lemma_none_empty(r.sizes, n_clusters);
}

/// A cluster that was left empty stays so.
proof fn lemma_stays_empty(c: Clusters, d: int, n_samples: nat, n_clusters: nat, ci: nat, k: int)
    requires
        n_clusters <= c.sizes.len(),
        0 <= k < ci,
        k < n_clusters,
        c.sizes[k] == 0,
    ensures
        c.filled_from(d, n_clusters, surplus(n_samples, n_clusters), ci).sizes[k] == 0,
    decreases n_clusters - ci,
{
    if ci < n_clusters {
        law_donor_has_members(c.sizes, n_samples, n_clusters, c.stream, 0, ROUNDS as nat);
        let next = c.with_donor(d, n_clusters, surplus(n_samples, n_clusters), ci as int);
        lemma_stays_empty(next, d, n_samples, n_clusters, ci + 1, k);
    }
}

/// A cluster is left empty only where its search for a donor does not end, and wherever it does
/// not.
pub proof fn law_filled_where_donors_found(c: Clusters, d: int, n_samples: nat, n_clusters: nat)
    requires
        n_clusters <= c.sizes.len(),
    ensures
        donors_found(c, d, n_clusters, surplus(n_samples, n_clusters), 0) <==> empty_clusters(
            c.filled_from(d, n_clusters, surplus(n_samples, n_clusters), 0).sizes,
            n_clusters,
        ) == 0,
{
    let rest = surplus(n_samples, n_clusters);
    let r = c.filled_from(d, n_clusters, rest, 0);
    lemma_none_empty(r.sizes, n_clusters);
    if donors_found(c, d, n_clusters, rest, 0) {
        law_every_empty_cluster_filled(c, d, n_samples, n_clusters);
    } else {
        lemma_one_left_empty(c, d, n_samples, n_clusters, 0);
    }
}

proof fn lemma_one_left_empty(c: Clusters, d: int, n_samples: nat, n_clusters: nat, ci: nat)
    requires
        n_clusters <= c.sizes.len(),
        !donors_found(c, d, n_clusters, surplus(n_samples, n_clusters), ci),
    ensures
        exists|k: int|
            0 <= k < n_clusters && #[trigger] c.filled_from(d, n_clusters, surplus(n_samples, n_clusters), ci).sizes[k]
                == 0,
    decreases n_clusters - ci,
{
    let rest = surplus(n_samples, n_clusters);
    if ci < n_clusters {
        let next = c.with_donor(d, n_clusters, rest, ci as int);
        law_donor_has_members(c.sizes, n_samples, n_clusters, c.stream, 0, ROUNDS as nat);
        if c.sizes[ci as int] == 0 && donor(c.sizes, n_clusters, rest, c.stream, 0, ROUNDS as nat).0 is None {
            lemma_stays_empty(next, d, n_samples, n_clusters, ci + 1, ci as int);
            assert(c.filled_from(d, n_clusters, rest, ci).sizes[ci as int] == 0);
        } else {
            lemma_one_left_empty(next, d, n_samples, n_clusters, ci + 1);
            let k = choose|k: int|
                0 <= k < n_clusters && #[trigger] next.filled_from(d, n_clusters, rest, ci + 1).sizes[k] == 0;
            assert(c.filled_from(d, n_clusters, rest, ci).sizes[k] == 0);
        }
    }
}

/// No cluster is empty where none is counted as empty.
pub proof fn lemma_none_empty(sizes: Seq<u32>, k: nat)
    ensures
        (forall|c: int| 0 <= c < k ==> #[trigger] sizes[c] > 0) <==> empty_clusters(sizes, k) == 0,
    decreases k,
{
    if k > 0 {
        lemma_none_empty(sizes, (k - 1) as nat);
        if empty_clusters(sizes, k) == 0 {
            assert forall|c: int| 0 <= c < k implies #[trigger] sizes[c] > 0 by {
                assert(c < k - 1 ==> sizes[c] > 0);
            }
        } else if forall|c: int| 0 <= c < k ==> #[trigger] sizes[c] > 0 {
            assert(sizes[k - 1] > 0);
        }
    }
}

/// Where no cluster is empty, nothing changes.
pub proof fn law_nothing_to_fill(c: Clusters, d: int, n_clusters: nat, surplus: Single, ci: nat)
    requires
        forall|k: int| 0 <= k < n_clusters ==> #[trigger] c.sizes[k] > 0,
    ensures
        c.filled_from(d, n_clusters, surplus, ci) == c,
    decreases n_clusters - ci,
{
    if ci < n_clusters {
        assert(c.sizes[ci as int] > 0);
        law_nothing_to_fill(c, d, n_clusters, surplus, ci + 1);
    }
}

/// The largest of the first `k` sizes is at least 2 where they add up to `k` or more and one of
/// them is 0.
proof fn lemma_spare_member(sizes: Seq<u32>, k: nat) -> (c: int)
    requires
        k <= size_sum(sizes, k) + 1,
        size_sum(sizes, k) + empty_clusters(sizes, k) > k,
    ensures
        0 <= c < k,
        sizes[c] >= 2,
    decreases k,
{
    if sizes[k - 1] >= 2 {
        k - 1
    } else {
        lemma_spare_member(sizes, (k - 1) as nat)
    }
}

/// Where there are as many samples as clusters, and one cluster is empty, there is a donor to find:
/// a cluster whose chance is above zero.
pub proof fn law_donor_exists(sizes: Seq<u32>, n_samples: nat, n_clusters: nat) -> (c: int)
    requires
        size_sum(sizes, n_clusters) == n_samples,
        n_clusters <= n_samples <= u64::MAX,
        empty_clusters(sizes, n_clusters) > 0,
    ensures
        0 <= c < n_clusters,
        sizes[c] >= 2,
        (Single { bits: ZERO }).below(donor_chance(sizes[c], surplus(n_samples, n_clusters))),
{
    let c = lemma_spare_member(sizes, n_clusters);
    let one = Single { bits: ONE };
    let size = Single::from_nat(sizes[c] as nat);
    let x = Single::from_nat(n_samples);
    let y = Single::from_nat(n_clusters);
    lemma_one();
    lemma_pow2_pos(149);
    // The size less 1 is at least 1.
    lemma_from_nat(2);
    lemma_long_integer(sizes[c] as nat);
    lemma_from_nat_ordered(2, sizes[c] as nat);
    lemma_order_of_values(Single::from_nat(2), size);
    lemma_minus(size, one);
    lemma_exact(one);
    lemma_nearest_single(pow2(149) as int, size.units() - one.units(), 1);
    // What it is divided by is finite.
    lemma_long_integer(n_samples);
    lemma_long_integer(n_clusters);
    lemma_from_nat_ordered(n_clusters, n_samples);
    lemma_order_of_values(y, y);
    lemma_minus(x, y);
    lemma_exact(x);
    lemma_nearest_single(x.units() - y.units(), x.units(), 1);
    lemma_below(x.minus(y), one);
    let rest = surplus(n_samples, n_clusters);
    assert(rest.is_finite() && rest.order() > 0);
    lemma_over_positive(size.minus(one), rest);
    assert(0u32 & 0x7fff_ffff == 0) by (bit_vector);
    lemma_below(Single { bits: ZERO }, donor_chance(sizes[c], rest));
    c
}

/// Where nothing was split, no size has changed.
pub proof fn law_without_splits_sizes_stay(c: Clusters, d: int, n_clusters: nat, surplus: Single, ci: nat)
    ensures
        ({
            let r = c.filled_from(d, n_clusters, surplus, ci);
            r.split >= c.split && (r.split == c.split ==> r.sizes == c.sizes)
        }),
    decreases n_clusters - ci,
{
    if ci < n_clusters {
        let next = c.with_donor(d, n_clusters, surplus, ci as int);
        law_without_splits_sizes_stay(next, d, n_clusters, surplus, ci + 1);
    }
}

/// Pulling small clusters counts as splitting them.
pub proof fn lemma_pulled_split(c: Clusters, d: int, n_samples: nat, n_clusters: nat, average: Single, ci: nat)
    ensures
        c.pulled_from(d, n_samples, n_clusters, average, ci).split >= c.split,
    decreases n_clusters - ci,
{
    if ci < n_clusters {
        lemma_pulled_split(
            c.with_pull(d, n_samples, n_clusters, average, ci as int),
            d,
            n_samples,
            n_clusters,
            average,
            ci + 1,
        );
    }
}

} // verus!
