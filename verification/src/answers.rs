//! What the searches answer: the nearest centroids, and where the search for training points starts.
use crate::assigning::{
    group_representatives, nearest_centroids, vector_at, with_drawn, with_groups, with_known, DENSE_SAMPLING,
};
use crate::batch::{k_nearest_distances, k_nearest_indices, Problem};
use crate::centroids::norms;
use crate::common::{lemma_cell, lemma_row};
use crate::exact::{gap_sum, is_whole, lemma_short_below_largest, lemma_whole_order, whole_table};
use crate::laws::{entry, law_k_nearest, measured};
use crate::means::law_nearest_on_integers;
use crate::pruning::{clamped, lemma_clamped};
use crate::rng::{is_permutation, RandomStream};
use crate::searches::{law_searches_agree_on_integers, lemma_ends};
use crate::single::{lemma_below, Single, LARGEST, ONE};
use crate::superkmeans::{no_members, Model};
use vstd::prelude::*;

verus! {

/// Assigning vectors, on short integers: each of the first `n` vectors gets the first of the
/// centroids that are nearest to it.
pub proof fn law_assign_on_integers(
    vectors: Seq<Single>,
    centroids: Seq<Single>,
    n: nat,
    d: nat,
    vx: Seq<int>,
    vy: Seq<int>,
    bound: int,
    i: int,
    c: int,
)
    requires
        0 < d,
        whole_table(vectors, vx, bound),
        whole_table(centroids, vy, bound),
        bound >= 0,
        4 * bound * bound * d < 0x100_0000,
        n * d <= vectors.len(),
        0 < centroids.len() / d <= 0x1_0000_0000,
        0 <= i < n,
        0 <= c < centroids.len() / d,
    ensures
        ({
            let r = nearest_centroids(vectors, centroids, n, d);
            let e = d as int;
            let gap = gap_sum(vx, i * e, vy, r[i] * e, 0, e);
            &&& r.len() == n
            &&& r[i] < centroids.len() / d
            &&& gap <= gap_sum(vx, i * e, vy, c * e, 0, e)
            &&& c < r[i] ==> gap < gap_sum(vx, i * e, vy, c * e, 0, e)
        }),
{
    let k = centroids.len() / d;
    let p = Problem {
        x: vectors,
        y: centroids,
        n_y: k,
        d,
        norms_x: norms(vectors, n, d),
        norms_y: norms(centroids, k, d),
    };
    vstd::arithmetic::div_mod::lemma_fundamental_div_mod(centroids.len() as int, d as int);
    vstd::arithmetic::div_mod::lemma_mod_bound(centroids.len() as int, d as int);
    assert(k * d == d * k) by (nonlinear_arith);
    law_nearest_on_integers(p, vx, vy, bound, n, i, c);
}

/// The `k` nearest candidates, on short integers: row `i` of the tables holds different candidates
/// with their distances, nearest first; every candidate is among them or is not nearer than the last
/// of them; and where there are fewer than `k`, the places behind hold nothing.
pub proof fn law_k_nearest_on_integers(
    p: Problem,
    vx: Seq<int>,
    vy: Seq<int>,
    bound: int,
    n_x: nat,
    k: nat,
    len: nat,
    i: int,
    t: int,
    c: int,
)
    requires
        whole_table(p.x, vx, bound),
        whole_table(p.y, vy, bound),
        bound >= 0,
        4 * bound * bound * p.d < 0x100_0000,
        n_x * p.d <= p.x.len(),
        p.n_y * p.d <= p.y.len(),
        p.n_y <= 0x1_0000_0000,
        p.norms_x == norms(p.x, n_x, p.d),
        p.norms_y == norms(p.y, p.n_y, p.d),
        n_x * k <= len,
        0 <= i < n_x,
        0 <= t < k,
        0 <= c < p.n_y,
    ensures
        ({
            let knn = k_nearest_indices(p, n_x, k, len);
            let dist = k_nearest_distances(p, n_x, k, len);
            let d = p.d as int;
            let at = knn[i * k + t];
            let gap = gap_sum(vx, i * d, vy, at * d, 0, d);
            let to_c = gap_sum(vx, i * d, vy, c * d, 0, d);
            &&& t < p.n_y ==> at < p.n_y && is_whole(dist[i * k + t], gap)
            &&& t < p.n_y ==> forall|s: int| 0 <= s < t ==> #[trigger] knn[i * k + s] != at
            &&& t >= p.n_y ==> at == u32::MAX && dist[i * k + t] == (Single { bits: LARGEST })
            &&& 0 < t < p.n_y ==> gap_sum(vx, i * d, vy, knn[i * k + (t - 1)] * d, 0, d) <= gap
            &&& (exists|s: int| 0 <= s < k && #[trigger] knn[i * k + s] == c) || (t < p.n_y ==> gap <= to_c)
        }),
{
    let d = p.d as int;
    let largest = Single { bits: LARGEST };
    let row = p.k_nearest(i, k);
    let knn = k_nearest_indices(p, n_x, k, len);
    let dist = k_nearest_distances(p, n_x, k, len);
    law_searches_agree_on_integers(p, vx, vy, bound, n_x, i);
    lemma_ends();
    assert forall|b: int| 0 <= b < p.n_y implies (#[trigger] p.distance(i, b)).below(largest) && p.distance(
        i,
        b,
    ).is_number() && is_whole(p.distance(i, b), gap_sum(vx, i * d, vy, b * d, 0, d)) && clamped(p.distance(i, b))
        == p.distance(i, b) by {
        let gap = gap_sum(vx, i * d, vy, b * d, 0, d);
        lemma_row(i, n_x as int, d);
        lemma_row(b, p.n_y as int, d);
        crate::exact::lemma_whole_part(p.x, vx, i * d, p.y, vy, b * d, 0, d, bound, d);
        lemma_short_below_largest(p.distance(i, b), gap);
        lemma_below(p.distance(i, b), largest);
        lemma_whole_order(p.distance(i, b), gap, p.distance(i, b), gap);
        lemma_clamped(p.distance(i, b));
    }
    assert(measured(p, i)) by {
        assert forall|b: int| 0 <= b < p.n_y implies (#[trigger] p.distance(i, b)).is_number() && !largest.below(
            p.distance(i, b),
        ) by {
            lemma_below(p.distance(i, b), largest);
            lemma_below(largest, p.distance(i, b));
        }
    }
    law_k_nearest(p, i, k, c);
    lemma_row(i, n_x as int, k as int);
    assert forall|s: int| 0 <= s < k implies #[trigger] knn[i * k + s] == row[s].index && dist[i * k + s]
        == row[s].distance by {
        lemma_cell(i, s, k as int);
    }
    assert(knn[i * k + t] == row[t].index);
    if t < p.n_y {
        let at = row[t].index as int;
        assert(row[t] == entry(p, i, at));
        assert forall|s: int| 0 <= s < t implies #[trigger] knn[i * k + s] != knn[i * k + t] by {
            assert(row[s].index != row[t].index);
        }
        let gap = gap_sum(vx, i * d, vy, at * d, 0, d);
        assert(is_whole(p.distance(i, at), gap));
        if t > 0 {
            let before = row[t - 1].index as int;
            assert(knn[i * k + (t - 1)] == row[t - 1].index);
            assert(row[t - 1] == entry(p, i, before));
            assert(row[t - 1].distance.order() <= row[t].distance.order());
            lemma_whole_order(
                row[t - 1].distance,
                gap_sum(vx, i * d, vy, before * d, 0, d),
                row[t].distance,
                gap,
            );
        }
        let e = entry(p, i, c);
        if row.contains(e) {
            let s = choose|s: int| 0 <= s < row.len() && row[s] == e;
            assert(knn[i * k + s] == c);
        } else {
            assert(row[t].distance.order() <= row[k - 1].distance.order());
            assert(is_whole(e.distance, gap_sum(vx, i * d, vy, c * d, 0, d)));
            lemma_whole_order(row[t].distance, gap, e.distance, gap_sum(vx, i * d, vy, c * d, 0, d));
        }
    }
}

/// What stands at a place that only one of the first `cur` samples comes from.
proof fn lemma_known(seeds: Seq<u32>, sampled: Seq<usize>, assignments: Seq<u32>, cur: nat, s: int)
    requires
        cur <= sampled.len(),
        is_permutation(sampled),
        0 <= s < cur,
        sampled[s] < seeds.len(),
    ensures
        with_known(seeds, sampled, assignments, cur).len() == seeds.len(),
        with_known(seeds, sampled, assignments, cur)[sampled[s] as int] == assignments[s],
    decreases cur,
{
    lemma_known_len(seeds, sampled, assignments, cur);
    lemma_known_len(seeds, sampled, assignments, (cur - 1) as nat);
    if s < cur - 1 {
        lemma_known(seeds, sampled, assignments, (cur - 1) as nat, s);
        assert(sampled[s] != sampled[cur - 1]);
    }
}

proof fn lemma_known_len(seeds: Seq<u32>, sampled: Seq<usize>, assignments: Seq<u32>, cur: nat)
    ensures
        with_known(seeds, sampled, assignments, cur).len() == seeds.len(),
    decreases cur,
{
    if cur > 0 {
        lemma_known_len(seeds, sampled, assignments, (cur - 1) as nat);
    }
}

proof fn lemma_drawn_keeps(seeds: Seq<u32>, sampled: Seq<usize>, weights: Seq<u32>, stream: RandomStream, cur: nat, s: int)
    requires
        is_permutation(sampled),
        0 <= s < cur,
        s < sampled.len(),
        sampled[s] < seeds.len(),
    ensures
        with_drawn(seeds, sampled, weights, stream, cur)[sampled[s] as int] == seeds[sampled[s] as int],
    decreases seeds.len() - cur,
{
    if cur < seeds.len() {
        let v = vector_at(sampled, cur);
        if cur < sampled.len() {
            assert(sampled[s] != sampled[cur as int]);
        }
        assert(sampled[s] < sampled.len());
        assert(v != sampled[s]);
        if v < seeds.len() {
            let (c, next) = stream.drawn_weighted(weights);
            lemma_drawn_keeps(seeds.update(v as int, c as u32), sampled, weights, next, cur + 1, s);
        } else {
            lemma_drawn_keeps(seeds, sampled, weights, stream, cur + 1, s);
        }
    }
}

proof fn lemma_groups_keep(
    seeds: Seq<u32>,
    sampled: Seq<usize>,
    groups: Seq<u32>,
    representatives: Seq<u32>,
    from: nat,
    cur: nat,
    s: int,
)
    requires
        is_permutation(sampled),
        0 <= s < from,
        s < sampled.len(),
        sampled[s] < seeds.len(),
    ensures
        with_groups(seeds, sampled, groups, representatives, from, cur).len() == seeds.len(),
        with_groups(seeds, sampled, groups, representatives, from, cur)[sampled[s] as int] == seeds[sampled[s] as int],
    decreases cur - from,
{
    if cur > from {
        lemma_groups_keep(seeds, sampled, groups, representatives, from, (cur - 1) as nat, s);
        let e = (cur - 1) as nat;
        if e < sampled.len() {
            assert(sampled[s] != sampled[e as int]);
        }
        assert(sampled[s] < sampled.len());
    }
}

/// The search for a vector that training sampled starts from the cluster that training gave it,
/// whatever share of the vectors was sampled.
pub proof fn law_samples_start_from_their_clusters(m: Model, vectors: Seq<Single>, centroids: Seq<Single>, n: nat, s: int)
    requires
        m.fitted(),
        0 <= s < m.n_samples,
        m.sampled_indices[s] < n,
        m.config.sampling_fraction == (Single { bits: ONE }) ==> m.sampled_indices[s] == s && n <= m.n_samples,
    ensures
        m.starting_points(vectors, centroids, n)[m.sampled_indices[s] as int] == m.assignments[s],
{
    let sampled = m.sampled_indices;
    let none = no_members(n);
    let known = with_known(none, sampled, m.assignments, m.n_samples);
    lemma_known(none, sampled, m.assignments, m.n_samples, s);
    if m.config.sampling_fraction == (Single { bits: ONE }) {
    } else if (Single { bits: DENSE_SAMPLING }).below(m.config.sampling_fraction) {
        lemma_drawn_keeps(
            known,
            sampled,
            crate::assigning::weights_of(m.cluster_sizes),
            RandomStream::start(m.config.seed.wrapping_add(1)),
            m.n_samples,
            s,
        );
    } else {
        let k = centroids.len() / m.d;
        let centres = m.groups(centroids);
        lemma_groups_keep(
            known,
            sampled,
            nearest_centroids(vectors, centres, n, m.d),
            group_representatives(
                nearest_centroids(centroids, centres, k, m.d),
                Model::group_count(k),
                k,
            ),
            m.n_samples,
            n,
            s,
        );
    }
}

/// The cluster that stands for a group is in it, if any of the first `n` is.
proof fn lemma_representative(groups: Seq<u32>, n_groups: nat, n: nat, g: int, c: int)
    requires
        n <= groups.len(),
        n <= 0x1_0000_0000,
        0 <= g < n_groups,
        0 <= c < n,
        groups[c] == g,
        forall|b: int| 0 <= b < n ==> #[trigger] groups[b] < n_groups,
    ensures
        ({
            let r = group_representatives(groups, n_groups, n);
            &&& r.len() == n_groups
            &&& r[g] < n
            &&& groups[r[g] as int] == g
        }),
    decreases n,
{
    lemma_representatives_len(groups, n_groups, n);
    lemma_representatives_len(groups, n_groups, (n - 1) as nat);
    assert(groups[n - 1] < n_groups);
    if groups[n - 1] != g {
        lemma_representative(groups, n_groups, (n - 1) as nat, g, c);
    }
}

proof fn lemma_representatives_len(groups: Seq<u32>, n_groups: nat, n: nat)
    requires
        n <= groups.len(),
        forall|b: int| 0 <= b < n ==> #[trigger] groups[b] < n_groups,
    ensures
        group_representatives(groups, n_groups, n).len() == n_groups,
    decreases n,
{
    if n > 0 {
        lemma_representatives_len(groups, n_groups, (n - 1) as nat);
        assert(groups[n - 1] < n_groups);
    }
}

proof fn lemma_grouped(
    seeds: Seq<u32>,
    sampled: Seq<usize>,
    groups: Seq<u32>,
    representatives: Seq<u32>,
    from: nat,
    cur: nat,
    e: nat,
)
    requires
        is_permutation(sampled),
        sampled.len() == seeds.len(),
        from <= e < cur <= seeds.len(),
    ensures
        with_groups(seeds, sampled, groups, representatives, from, cur).len() == seeds.len(),
        with_groups(seeds, sampled, groups, representatives, from, cur)[sampled[e as int] as int]
            == representatives[groups[sampled[e as int] as int] as int],
    decreases cur,
{
    let v = sampled[e as int] as int;
    assert(sampled[e as int] < sampled.len());
    lemma_grouped_len(seeds, sampled, groups, representatives, from, cur);
    lemma_grouped_len(seeds, sampled, groups, representatives, from, (cur - 1) as nat);
    if e < cur - 1 {
        lemma_grouped(seeds, sampled, groups, representatives, from, (cur - 1) as nat, e);
        assert(sampled[e as int] != sampled[cur - 1]);
    }
}

proof fn lemma_grouped_len(seeds: Seq<u32>, sampled: Seq<usize>, groups: Seq<u32>, representatives: Seq<u32>, from: nat, cur: nat)
    ensures
        with_groups(seeds, sampled, groups, representatives, from, cur).len() == seeds.len(),
    decreases cur,
{
    if cur > from {
        lemma_grouped_len(seeds, sampled, groups, representatives, from, (cur - 1) as nat);
    }
}

/// Where few vectors were sampled, the search for any other vector starts from a centroid of its own
/// group: one whose nearest centre is the centre that is nearest to the vector, if there is any.
pub proof fn law_others_start_from_their_group(m: Model, vectors: Seq<Single>, centroids: Seq<Single>, n: nat, e: nat, c: int)
    requires
        m.fitted(),
        m.sampled_indices.len() == n,
        m.n_samples <= e < n,
        m.config.sampling_fraction != (Single { bits: ONE }),
        !(Single { bits: DENSE_SAMPLING }).below(m.config.sampling_fraction),
        centroids.len() / m.d <= 0x1_0000_0000,
        0 <= c < centroids.len() / m.d,
        ({
            let centres = m.groups(centroids);
            let k = centroids.len() / m.d;
            let of_vectors = nearest_centroids(vectors, centres, n, m.d);
            let of_centroids = nearest_centroids(centroids, centres, k, m.d);
            &&& of_centroids[c] == of_vectors[m.sampled_indices[e as int] as int]
            &&& forall|b: int| 0 <= b < k ==> #[trigger] of_centroids[b] < Model::group_count(k)
        }),
    ensures
        ({
            let centres = m.groups(centroids);
            let k = centroids.len() / m.d;
            let of_vectors = nearest_centroids(vectors, centres, n, m.d);
            let of_centroids = nearest_centroids(centroids, centres, k, m.d);
            let v = m.sampled_indices[e as int] as int;
            let start = m.starting_points(vectors, centroids, n)[v];
            &&& start < k
            &&& of_centroids[start as int] == of_vectors[v]
        }),
{
    let centres = m.groups(centroids);
    let k = centroids.len() / m.d;
    let of_vectors = nearest_centroids(vectors, centres, n, m.d);
    let of_centroids = nearest_centroids(centroids, centres, k, m.d);
    let none = no_members(n);
    let known = with_known(none, m.sampled_indices, m.assignments, m.n_samples);
    lemma_known_len(none, m.sampled_indices, m.assignments, m.n_samples);
    let representatives = group_representatives(of_centroids, Model::group_count(k), k);
    lemma_grouped(known, m.sampled_indices, of_vectors, representatives, m.n_samples, n, e);
    lemma_representative(of_centroids, Model::group_count(k), k, of_centroids[c] as int, c);
}

} // verus!
