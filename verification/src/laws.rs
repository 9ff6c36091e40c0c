//! What holds of the library as a whole.
use crate::assigning::nearest_centroids;
use crate::batch::{filled, k_best, live, no_candidate, place, tile, with_candidate, Problem};
use crate::centroids::norms;
use crate::common::{KnnCandidate, MIN_PARTIAL_D};
use crate::pdxearch::{best_of, horizontal_phase, survivors, top1_search, vertical_phase, Search};
use crate::single::{lemma_below, Single, LARGEST, ZERO};
use crate::superkmeans::{tuned, SuperKMeansConfig};
use crate::utils::{plain_distance, plain_nearest};
use vstd::prelude::*;

verus! {

pub(crate) proof fn lemma_constants()
    ensures
        (Single { bits: ZERO }).is_number(),
        (Single { bits: ZERO }).order() == 0,
        (Single { bits: LARGEST }).is_number(),
{
    assert(0u32 & 0x7fff_ffff == 0 && 0x7f7f_ffffu32 & 0x7fff_ffff == 0x7f7f_ffff) by (bit_vector);
}

/// The minimum over part of a batch: it is one of the distances or the largest number, and no
/// distance is below it.
pub(crate) proof fn lemma_tile_min_is_minimum(p: Problem, i: int, j: int, n: nat)
    ensures
        ({
            let (v, c) = p.tile_min(i, j, n);
            &&& v.is_number()
            &&& (v == Single { bits: LARGEST } && c == 0) || (c < n && v == p.distance(i, j + c))
            &&& forall|b: int| j <= b < j + n ==> !(#[trigger] p.distance(i, b)).below(v)
        }),
    decreases n,
{
    lemma_constants();
    if n > 0 {
        lemma_tile_min_is_minimum(p, i, j, (n - 1) as nat);
        let (v0, c0) = p.tile_min(i, j, (n - 1) as nat);
        let d = p.distance(i, j + n - 1);
        let (v, c) = p.tile_min(i, j, n);
        lemma_below(d, v0);
        lemma_below(d, d);
        assert forall|b: int| j <= b < j + n implies !(#[trigger] p.distance(i, b)).below(v) by {
            lemma_below(p.distance(i, b), v);
            lemma_below(p.distance(i, b), v0);
        }
    }
}

/// What is known after the candidates below `j`: the best distance is not above any of them, cut
/// off at zero, and it is the distance of the best candidate, unless all are the largest number
/// or above.
pub open spec fn best_so_far(p: Problem, i: int, best: KnnCandidate, j: int) -> bool {
    let zero = Single { bits: ZERO };
    &&& best.distance.is_number()
    &&& !best.distance.below(zero)
    &&& !(Single { bits: LARGEST }).below(best.distance)
    &&& (best == KnnCandidate { index: 0, distance: Single { bits: LARGEST } }) || (best.index < j && best.distance
        == p.distance(i, best.index as int).larger(zero))
    &&& forall|c: int|
        0 <= c < j && (#[trigger] p.distance(i, c)).is_number() ==> !p.distance(i, c).larger(zero).below(best.distance)
}

proof fn lemma_nearest_from(p: Problem, i: int, best: KnnCandidate, j: int)
    requires
        0 <= j <= p.n_y <= 0x1_0000_0000,
        best_so_far(p, i, best, j),
    ensures
        best_so_far(p, i, p.nearest_from(i, best, j), p.n_y as int),
    decreases p.n_y - j,
{
    if j < p.n_y {
        let w = tile(p.n_y as int, j);
        let zero = Single { bits: ZERO };
        lemma_constants();
        lemma_tile_min_is_minimum(p, i, j, w as nat);
        let (v, c) = p.tile_min(i, j, w as nat);
        let next = p.with_tile(i, best, j);
        lemma_below(v, best.distance);
        lemma_below(v, zero);
        lemma_below(zero, v);
        lemma_below(best.distance, zero);
        assert forall|b: int| 0 <= b < j + w && (#[trigger] p.distance(i, b)).is_number() implies !p.distance(i, b).larger(zero).below(next.distance) by {
            let d = p.distance(i, b);
            lemma_below(d, zero);
            lemma_below(d.larger(zero), next.distance);
            lemma_below(d.larger(zero), best.distance);
            lemma_below(d, v);
        }
        lemma_below(next.distance, zero);
        lemma_below(Single { bits: LARGEST }, best.distance);
        lemma_below(Single { bits: LARGEST }, next.distance);
        lemma_nearest_from(p, i, next, j + w);
    }
}

/// The centroid that is found for a vector is a nearest one: no other is nearer, where distances
/// below zero, which only rounding makes, count as zero.
pub proof fn law_nearest_is_minimal(p: Problem, i: int, c: int)
    requires
        0 <= c < p.n_y <= 0x1_0000_0000,
        p.distance(i, c).is_number(),
    ensures
        ({
            let zero = Single { bits: ZERO };
            let r = p.nearest(i);
            &&& !p.distance(i, c).larger(zero).below(r.distance)
            &&& r.index < p.n_y
            &&& r.distance == p.distance(i, r.index as int).larger(zero) || r.distance == (Single {
                bits: LARGEST,
            })
        }),
{
    lemma_constants();
    let none = KnnCandidate { index: 0, distance: Single { bits: LARGEST } };
    lemma_below(none.distance, Single { bits: ZERO });
    lemma_below(none.distance, none.distance);
    assert(0x7f7f_ffffu32 & 0x7fff_ffff == 0x7f7f_ffff) by (bit_vector);
    lemma_nearest_from(p, i, none, 0);
}

/// Every vector is assigned to a nearest centroid.
pub proof fn law_assigned_to_a_nearest_centroid(vectors: Seq<Single>, centroids: Seq<Single>, n: nat, d: nat, i: int, c: int)
    requires
        0 < d,
        0 <= i < n,
        0 <= c < centroids.len() / d <= 0x1_0000_0000,
        ({
            let k = centroids.len() / d;
            let p = Problem {
                x: vectors,
                y: centroids,
                n_y: k,
                d,
                norms_x: norms(vectors, n, d),
                norms_y: norms(centroids, k, d),
            };
            p.distance(i, c).is_number() && p.distance(i, c).below(Single { bits: LARGEST })
        }),
    ensures
        ({
            let zero = Single { bits: ZERO };
            let k = centroids.len() / d;
            let p = Problem {
                x: vectors,
                y: centroids,
                n_y: k,
                d,
                norms_x: norms(vectors, n, d),
                norms_y: norms(centroids, k, d),
            };
            let r = nearest_centroids(vectors, centroids, n, d)[i] as int;
            &&& r < k
            &&& !p.distance(i, c).larger(zero).below(p.distance(i, r).larger(zero))
        }),
{
    let k = centroids.len() / d;
    let p = Problem {
        x: vectors,
        y: centroids,
        n_y: k,
        d,
        norms_x: norms(vectors, n, d),
        norms_y: norms(centroids, k, d),
    };
    law_nearest_is_minimal(p, i, c);
    let zero = Single { bits: ZERO };
    let largest = Single { bits: LARGEST };
    lemma_constants();
    lemma_below(p.distance(i, c), largest);
    lemma_below(p.distance(i, c), zero);
    lemma_below(p.distance(i, c).larger(zero), largest);
    assert(0x7f7f_ffffu32 & 0x7fff_ffff == 0x7f7f_ffff) by (bit_vector);
}

/// Ascending distances, all of them numbers.
pub open spec fn ascending(s: Seq<KnnCandidate>) -> bool {
    &&& forall|a: int| 0 <= a < s.len() ==> #[trigger] s[a].distance.is_number()
    &&& forall|a: int, b: int|
        0 <= a <= b < s.len() ==> #[trigger] s[a].distance.order() <= #[trigger] s[b].distance.order()
}

pub(crate) proof fn lemma_place(s: Seq<KnnCandidate>, e: KnnCandidate, n: nat)
    requires
        n <= s.len(),
        ascending(s),
        e.distance.is_number(),
    ensures
        place(s, e, n) <= n,
        forall|t: int| place(s, e, n) <= t < n ==> e.distance.order() < #[trigger] s[t].distance.order(),
        forall|t: int| 0 <= t < place(s, e, n) ==> #[trigger] s[t].distance.order() <= e.distance.order(),
    decreases n,
{
    if n > 0 {
        lemma_below(e.distance, s[n - 1].distance);
        if e.distance.below(s[n - 1].distance) {
            lemma_place(s, e, (n - 1) as nat);
        }
    }
}

/// A candidate put in where it belongs.
pub(crate) proof fn lemma_inserted(s: Seq<KnnCandidate>, e: KnnCandidate, p: int)
    requires
        ascending(s),
        e.distance.is_number(),
        0 <= p <= s.len(),
        forall|t: int| p <= t < s.len() ==> e.distance.order() < #[trigger] s[t].distance.order(),
        forall|t: int| 0 <= t < p ==> #[trigger] s[t].distance.order() <= e.distance.order(),
    ensures
        ascending(s.insert(p, e)),
        s.insert(p, e).len() == s.len() + 1,
        s.insert(p, e)[p] == e,
        forall|t: int| 0 <= t < p ==> #[trigger] s.insert(p, e)[t] == s[t],
        forall|t: int| p < t <= s.len() ==> #[trigger] s.insert(p, e)[t] == s[t - 1],
{
    let all = s.insert(p, e);
    assert forall|a: int, b: int| 0 <= a <= b < all.len() implies #[trigger] all[a].distance.order()
        <= #[trigger] all[b].distance.order() by {
        if a < p {
            assert(all[a] == s[a]);
        } else if a > p {
            assert(all[a] == s[a - 1]);
        }
        if b < p {
            assert(all[b] == s[b]);
        } else if b > p {
            assert(all[b] == s[b - 1]);
        }
    }
    assert forall|a: int| 0 <= a < all.len() implies #[trigger] all[a].distance.is_number() by {
        if a < p {
            assert(all[a] == s[a]);
        } else if a > p {
            assert(all[a] == s[a - 1]);
        }
    }
}

/// What `with_candidate` makes of ascending candidates: they stay ascending, each of them and the
/// new one is kept or is not nearer than the last one kept, and nothing is left out while there is
/// room.
#[verifier::rlimit(30)]
proof fn lemma_with_candidate(s: Seq<KnnCandidate>, e: KnnCandidate, k: nat)
    requires
        ascending(s),
        e.distance.is_number(),
        0 < k,
        s.len() <= k,
    ensures
        ({
            let r = with_candidate(s, e, k);
            &&& ascending(r)
            &&& r.len() == if s.len() < k {
                s.len() + 1
            } else {
                k
            }
            &&& r.contains(e) || e.distance.order() >= r.last().distance.order()
            &&& forall|t: int|
                0 <= t < s.len() ==> r.contains(#[trigger] s[t]) || s[t].distance.order()
                    >= r.last().distance.order()
            &&& forall|t: int| 0 <= t < r.len() ==> #[trigger] r[t] == e || s.contains(r[t])
            &&& s.len() == k ==> r.last().distance.order() <= s.last().distance.order()
        }),
{
    let p = place(s, e, s.len()) as int;
    lemma_place(s, e, s.len());
    let all = s.insert(p, e);
    let r = with_candidate(s, e, k);
    lemma_inserted(s, e, p);
    assert forall|t: int| 0 <= t < r.len() implies #[trigger] r[t] == all[t] by {}
    if p < r.len() {
        assert(r[p] == e);
    }
    assert forall|t: int| 0 <= t < s.len() implies r.contains(#[trigger] s[t]) || s[t].distance.order()
        >= r.last().distance.order() by {
        let u = if t < p {
            t
        } else {
            t + 1
        };
        assert(all[u] == s[t]);
        if u < r.len() {
            assert(r[u] == s[t]);
        } else {
            assert(all[r.len() - 1].distance.order() <= all[u].distance.order());
        }
    }
    assert forall|t: int| 0 <= t < r.len() implies #[trigger] r[t] == e || s.contains(r[t]) by {
        if t != p {
            let u = if t < p {
                t
            } else {
                t - 1
            };
            assert(s[u] == r[t]);
        }
    }
    if !r.contains(e) {
        assert(p >= r.len());
        assert(all[r.len() - 1].distance.order() <= all[p].distance.order());
    }
}

/// The `k` best of some candidates are candidates, in ascending order, as many as there can be;
/// and every candidate is among them or is not nearer than the last of them.
pub proof fn law_k_best_are_the_nearest(candidates: Seq<KnnCandidate>, k: nat, n: nat)
    requires
        0 < k,
        n <= candidates.len(),
        forall|i: int| 0 <= i < n ==> #[trigger] candidates[i].distance.is_number(),
    ensures
        ({
            let r = k_best(candidates, k, n);
            &&& ascending(r)
            &&& r.len() == if n < k {
                n
            } else {
                k
            }
            &&& forall|i: int|
                0 <= i < n ==> r.contains(#[trigger] candidates[i]) || candidates[i].distance.order()
                    >= r.last().distance.order()
            &&& forall|t: int| 0 <= t < r.len() ==> candidates.take(n as int).contains(#[trigger] r[t])
        }),
    decreases n,
{
    if n > 0 {
        let s = k_best(candidates, k, (n - 1) as nat);
        let e = candidates[n - 1];
        law_k_best_are_the_nearest(candidates, k, (n - 1) as nat);
        lemma_with_candidate(s, e, k);
        let r = k_best(candidates, k, n);
        assert forall|i: int| 0 <= i < n implies r.contains(#[trigger] candidates[i]) || candidates[i].distance.order()
            >= r.last().distance.order() by {
            if i < n - 1 {
                if s.contains(candidates[i]) {
                    let t = choose|t: int| 0 <= t < s.len() && s[t] == candidates[i];
                    assert(s[t] == candidates[i]);
                } else {
                    assert(s.len() > 0 ==> candidates[i].distance.order() >= s.last().distance.order());
                    if s.len() < k {
                        // With room left, everything is kept.
                        lemma_all_kept(candidates, k, (n - 1) as nat, i);
                    }
                }
            }
        }
        assert forall|t: int| 0 <= t < r.len() implies candidates.take(n as int).contains(#[trigger] r[t]) by {
            if r[t] == e {
                assert(candidates.take(n as int)[n - 1] == e);
            } else {
                let u = choose|u: int| 0 <= u < s.len() && s[u] == r[t];
                let earlier = candidates.take(n - 1);
                assert(earlier.contains(s[u]));
                let w = choose|w: int| 0 <= w < earlier.len() && earlier[w] == s[u];
                assert(candidates.take(n as int)[w] == r[t]);
            }
        }
    }
}

proof fn lemma_all_kept(candidates: Seq<KnnCandidate>, k: nat, n: nat, i: int)
    requires
        0 <= i < n < k,
        n <= candidates.len(),
    ensures
        k_best(candidates, k, n).contains(candidates[i]),
        k_best(candidates, k, n).len() == n,
    decreases n,
{
    let s = k_best(candidates, k, (n - 1) as nat);
    let e = candidates[n - 1];
    lemma_kept_len(candidates, k, (n - 1) as nat);
    lemma_place_bound(s, e, s.len());
    let p = place(s, e, s.len()) as int;
    let r = k_best(candidates, k, n);
    assert(r == s.insert(p, e));
    if i == n - 1 {
        assert(r[p] == e);
    } else {
        lemma_all_kept(candidates, k, (n - 1) as nat, i);
        let t = choose|t: int| 0 <= t < s.len() && s[t] == candidates[i];
        if t < p {
            assert(r[t] == candidates[i]);
        } else {
            assert(r[t + 1] == candidates[i]);
        }
    }
}

proof fn lemma_kept_len(candidates: Seq<KnnCandidate>, k: nat, n: nat)
    requires
        n <= k,
    ensures
        k_best(candidates, k, n).len() == n,
    decreases n,
{
    if n > 0 {
        lemma_kept_len(candidates, k, (n - 1) as nat);
        let s = k_best(candidates, k, (n - 1) as nat);
        lemma_place_bound(s, candidates[n - 1], s.len());
    }
}

proof fn lemma_place_bound(s: Seq<KnnCandidate>, e: KnnCandidate, n: nat)
    ensures
        place(s, e, n) <= n,
    decreases n,
{
    if n > 0 && e.distance.below(s[n - 1].distance) {
        lemma_place_bound(s, e, (n - 1) as nat);
    }
}

/// Candidate `c` of query `i`, its distance not below zero.
pub open spec fn entry(p: Problem, i: int, c: int) -> KnnCandidate {
    KnnCandidate { index: c as u32, distance: p.distance(i, c).larger(Single { bits: ZERO }) }
}

/// The first candidates all have their place in `row`, or are not nearer than its last one.
pub open spec fn covers(p: Problem, i: int, row: Seq<KnnCandidate>, j: int) -> bool {
    forall|c: int|
        0 <= c < j && (#[trigger] p.distance(i, c)).below(Single { bits: LARGEST }) ==> row.contains(
            entry(p, i, c),
        ) || entry(p, i, c).distance.order() >= row.last().distance.order()
}

/// All distances of query `i` are numbers, and none is infinite upwards.
pub open spec fn measured(p: Problem, i: int) -> bool {
    forall|c: int|
        0 <= c < p.n_y ==> (#[trigger] p.distance(i, c)).is_number() && !(Single { bits: LARGEST }).below(
            p.distance(i, c),
        )
}

/// A row of nearest candidates: ascending, none below zero or above the largest number, and
/// covering the first `j` candidates.
pub open spec fn is_row(p: Problem, i: int, row: Seq<KnnCandidate>, j: int) -> bool {
    &&& ascending(row)
    &&& forall|t: int|
        0 <= t < row.len() ==> 0 <= (#[trigger] row[t]).distance.order() <= (Single { bits: LARGEST }).order()
    &&& covers(p, i, row, j)
}

proof fn lemma_cut(x: Single)
    requires
        x.is_number(),
    ensures
        x.larger(Single { bits: ZERO }).is_number(),
        x.larger(Single { bits: ZERO }).order() == if x.order() < 0 {
            0
        } else {
            x.order()
        },
        x.order() >= 0 ==> x.larger(Single { bits: ZERO }) == x,
{
    lemma_constants();
    lemma_below(x, Single { bits: ZERO });
}

proof fn lemma_live(row: Seq<KnnCandidate>, n: nat)
    requires
        n <= row.len(),
    ensures
        forall|q: int| 0 <= q < live(row, n).len() ==> row.contains(#[trigger] live(row, n)[q]),
        forall|t: int|
            0 <= t < n && (#[trigger] row[t]).distance.below(Single { bits: LARGEST }) ==> live(row, n).contains(
                row[t],
            ),
        (forall|t: int| 0 <= t < n ==> (#[trigger] row[t]).distance.below(Single { bits: LARGEST })) ==> live(row, n)
            == row.take(n as int),
    decreases n,
{
    if n > 0 {
        lemma_live(row, (n - 1) as nat);
        let before = live(row, (n - 1) as nat);
        let now = live(row, n);
        assert forall|t: int| 0 <= t < n && (#[trigger] row[t]).distance.below(Single { bits: LARGEST }) implies now.contains(row[t]) by {
            if t == n - 1 {
                assert(now.last() == row[t]);
            } else {
                let q = choose|q: int| 0 <= q < before.len() && before[q] == row[t];
                assert(now[q] == row[t]);
            }
        }
        if forall|t: int| 0 <= t < n ==> (#[trigger] row[t]).distance.below(Single { bits: LARGEST }) {
            assert(row[n - 1].distance.below(Single { bits: LARGEST }));
            assert(now =~= row.take(n as int));
        }
    } else {
        assert(row.take(0) =~= Seq::empty());
    }
}

/// With more candidates the last of the `k` best only comes nearer.
proof fn lemma_last_comes_nearer(all: Seq<KnnCandidate>, k: nat, m: nat, n: nat)
    requires
        0 < k <= m <= n <= all.len(),
        forall|i: int| 0 <= i < n ==> #[trigger] all[i].distance.is_number(),
    ensures
        k_best(all, k, n).last().distance.order() <= k_best(all, k, m).last().distance.order(),
    decreases n,
{
    if m < n {
        lemma_last_comes_nearer(all, k, m, (n - 1) as nat);
        law_k_best_are_the_nearest(all, k, (n - 1) as nat);
        lemma_with_candidate(k_best(all, k, (n - 1) as nat), all[n - 1], k);
    }
}

/// A contender has its place in the filled row, or is not nearer than its last entry.
proof fn lemma_contender_covered(all: Seq<KnnCandidate>, k: nat, q: int)
    requires
        0 < k,
        0 <= q < all.len(),
        forall|i: int| 0 <= i < all.len() ==> #[trigger] all[i].distance.is_number(),
    ensures
        ({
            let row = filled(k_best(all, k, all.len()), k);
            let e = KnnCandidate { index: all[q].index, distance: all[q].distance.larger(Single { bits: ZERO }) };
            row.contains(e) || e.distance.order() >= row.last().distance.order()
        }),
{
    let n = all.len();
    let top = k_best(all, k, n);
    let row = filled(top, k);
    let e = KnnCandidate { index: all[q].index, distance: all[q].distance.larger(Single { bits: ZERO }) };
    law_k_best_are_the_nearest(all, k, n);
    if n < k {
        lemma_all_kept(all, k, n, q);
    }
    if top.contains(all[q]) {
        let t = choose|t: int| 0 <= t < top.len() && top[t] == all[q];
        assert(row[t] == e);
    } else {
        lemma_cut(all[q].distance);
        lemma_cut(top.last().distance);
        assert(row.last().distance == top.last().distance.larger(Single { bits: ZERO }));
    }
}

proof fn lemma_row_step(p: Problem, i: int, row: Seq<KnnCandidate>, j: int)
    requires
        0 <= j < p.n_y <= 0x1_0000_0000,
        row.len() > 0,
        measured(p, i),
        is_row(p, i, row, j),
    ensures
        is_row(p, i, p.with_tile_in_row(i, row, j), j + tile(p.n_y as int, j)),
        p.with_tile_in_row(i, row, j).len() == row.len(),
{
    let k = row.len();
    let w = tile(p.n_y as int, j);
    let zero = Single { bits: ZERO };
    let largest = Single { bits: LARGEST };
    let old_ones = live(row, k);
    let all = p.contenders(i, row, j);
    let n = all.len();
    let top = k_best(all, k, n);
    let out = filled(top, k);
    lemma_constants();
    lemma_live(row, k);
    assert(largest.order() == 0x7f7f_ffff) by {
        assert(0x7f7f_ffffu32 & 0x7fff_ffff == 0x7f7f_ffff) by (bit_vector);
    }
    assert forall|q: int| 0 <= q < n implies (#[trigger] all[q]).distance.is_number() && all[q].distance.order()
        <= largest.order() by {
        if q < old_ones.len() {
            assert(all[q] == old_ones[q]);
            let t = choose|t: int| 0 <= t < row.len() && row[t] == old_ones[q];
            assert(row[t].distance.is_number());
        } else {
            let c = j + q - old_ones.len();
            assert(all[q].distance == p.distance(i, c));
            lemma_below(largest, p.distance(i, c));
        }
    }
    law_k_best_are_the_nearest(all, k, n);
    // The entries are in order and in range.
    assert forall|t: int| 0 <= t < top.len() implies (#[trigger] top[t]).distance.order() <= largest.order() by {
        assert(all.take(n as int).contains(top[t]));
        let q = choose|q: int| 0 <= q < all.take(n as int).len() && all.take(n as int)[q] == top[t];
        assert(all[q] == top[t]);
    }
    assert forall|t: int| 0 <= t < k implies (#[trigger] out[t]).distance.is_number() && 0 <= out[t].distance.order()
        <= largest.order() by {
        if t < top.len() {
            lemma_cut(top[t].distance);
            assert(top[t].distance.order() <= largest.order());
        }
    }
    assert forall|a: int, b: int| 0 <= a <= b < k implies #[trigger] out[a].distance.order() <= #[trigger] out[b].distance.order() by {
        if a < top.len() {
            lemma_cut(top[a].distance);
            if b < top.len() {
                lemma_cut(top[b].distance);
                assert(top[a].distance.order() <= top[b].distance.order());
            }
        }
    }
    // Every candidate is covered.
    assert forall|c: int| 0 <= c < j + w && (#[trigger] p.distance(i, c)).below(largest) implies out.contains(
        entry(p, i, c),
    ) || entry(p, i, c).distance.order() >= out.last().distance.order() by {
        let e = entry(p, i, c);
        lemma_below(p.distance(i, c), largest);
        lemma_cut(p.distance(i, c));
        if c >= j {
            let q = old_ones.len() + c - j;
            assert(all[q] == (KnnCandidate { index: c as u32, distance: p.distance(i, c) }));
            lemma_contender_covered(all, k, q);
        } else if row.contains(e) {
            let t = choose|t: int| 0 <= t < row.len() && row[t] == e;
            lemma_below(e.distance, largest);
            assert(old_ones.contains(row[t]));
            let q = choose|q: int| 0 <= q < old_ones.len() && old_ones[q] == row[t];
            assert(all[q] == e);
            lemma_cut(e.distance);
            lemma_contender_covered(all, k, q);
        } else {
            assert forall|t: int| 0 <= t < k implies (#[trigger] row[t]).distance.below(largest) by {
                assert(row[t].distance.order() <= row[k - 1].distance.order());
                lemma_below(row[t].distance, largest);
            }
            assert(old_ones =~= row);
            law_k_best_are_the_nearest(all, k, k);
            let first = k_best(all, k, k);
            assert(all.take(k as int) =~= row);
            assert(all.take(k as int).contains(first.last())) by {
                assert(first[k - 1] == first.last());
            }
            let t = choose|t: int| 0 <= t < row.len() && row[t] == first.last();
            assert(row[t].distance.order() <= row[k - 1].distance.order());
            lemma_last_comes_nearer(all, k, k, n);
            lemma_cut(top.last().distance);
        }
    }
}

proof fn lemma_k_nearest_from(p: Problem, i: int, row: Seq<KnnCandidate>, j: int)
    requires
        0 <= j <= p.n_y <= 0x1_0000_0000,
        row.len() > 0,
        measured(p, i),
        is_row(p, i, row, j),
    ensures
        is_row(p, i, p.k_nearest_from(i, row, j), p.n_y as int),
        p.k_nearest_from(i, row, j).len() == row.len(),
    decreases p.n_y - j,
{
    if j < p.n_y {
        lemma_row_step(p, i, row, j);
        lemma_k_nearest_from(p, i, p.with_tile_in_row(i, row, j), j + tile(p.n_y as int, j));
    }
}

/// No index occurs twice.
pub open spec fn distinct(s: Seq<KnnCandidate>) -> bool {
    forall|a: int, b: int| 0 <= a < b < s.len() ==> (#[trigger] s[a]).index != (#[trigger] s[b]).index
}

/// Of distinct candidates, the best ones are distinct.
proof fn lemma_k_best_distinct(candidates: Seq<KnnCandidate>, k: nat, n: nat)
    requires
        n <= candidates.len(),
        distinct(candidates),
    ensures
        distinct(k_best(candidates, k, n)),
        forall|t: int|
            0 <= t < k_best(candidates, k, n).len() ==> exists|q: int|
                0 <= q < n && candidates[q] == #[trigger] k_best(candidates, k, n)[t],
        k_best(candidates, k, n).len() == if n < k {
            n
        } else {
            k
        },
    decreases n,
{
    if n > 0 {
        lemma_k_best_distinct(candidates, k, (n - 1) as nat);
        let s = k_best(candidates, k, (n - 1) as nat);
        let e = candidates[n - 1];
        let r = k_best(candidates, k, n);
        lemma_place_bound(s, e, s.len());
        let at = place(s, e, s.len()) as int;
        let all = s.insert(at, e);
        assert forall|t: int| 0 <= t < s.len() implies (#[trigger] s[t]).index != e.index by {
            let q = choose|q: int| 0 <= q < n - 1 && candidates[q] == s[t];
            assert(candidates[q].index != candidates[n - 1].index);
        }
        assert forall|t: int| 0 <= t < r.len() implies exists|q: int| 0 <= q < n && candidates[q] == #[trigger] r[t] by {
            assert(r[t] == all[t]);
            if t == at {
                assert(candidates[n - 1] == r[t]);
            } else {
                let u = if t < at {
                    t
                } else {
                    t - 1
                };
                assert(r[t] == s[u]);
                let q = choose|q: int| 0 <= q < n - 1 && candidates[q] == s[u];
                assert(candidates[q] == r[t]);
            }
        }
        assert forall|a: int, b: int| 0 <= a < b < r.len() implies (#[trigger] r[a]).index != (#[trigger] r[b]).index by {
            assert(r[a] == all[a] && r[b] == all[b]);
            if a != at && b != at {
                let u = if a < at {
                    a
                } else {
                    a - 1
                };
                let v = if b < at {
                    b
                } else {
                    b - 1
                };
                assert(s[u].index != s[v].index);
            }
        }
    }
}

/// A row after `j` candidates: first as many of them as there are and as find room, each once and
/// with its own distance, then nothing.
pub open spec fn lists_candidates(p: Problem, i: int, row: Seq<KnnCandidate>, j: int) -> bool {
    forall|t: int|
        0 <= t < row.len() ==> if t < j {
            &&& (#[trigger] row[t]).index < j
            &&& row[t] == entry(p, i, row[t].index as int)
            &&& forall|s: int| 0 <= s < t ==> (#[trigger] row[s]).index != row[t].index
        } else {
            row[t] == no_candidate()
        }
}

/// The entries of a row that stand for something come first.
proof fn lemma_live_front(row: Seq<KnnCandidate>, m: int, n: nat)
    requires
        0 <= m <= n <= row.len(),
        forall|t: int| 0 <= t < m ==> (#[trigger] row[t]).distance.below(Single { bits: LARGEST }),
        forall|t: int| m <= t < n ==> !(#[trigger] row[t]).distance.below(Single { bits: LARGEST }),
    ensures
        live(row, n) == row.take(m),
    decreases n,
{
    if m == n {
        lemma_live(row, n);
    } else {
        lemma_live_front(row, m, (n - 1) as nat);
        assert(!row[n - 1].distance.below(Single { bits: LARGEST }));
    }
}

proof fn lemma_lists_step(p: Problem, i: int, row: Seq<KnnCandidate>, j: int)
    requires
        0 <= j < p.n_y <= 0x1_0000_0000,
        forall|c: int| 0 <= c < p.n_y ==> (#[trigger] p.distance(i, c)).below(Single { bits: LARGEST }),
        lists_candidates(p, i, row, j),
    ensures
        lists_candidates(p, i, p.with_tile_in_row(i, row, j), j + tile(p.n_y as int, j)),
{
    let k = row.len();
    let w = tile(p.n_y as int, j);
    let largest = Single { bits: LARGEST };
    let m = if j < k {
        j
    } else {
        k as int
    };
    lemma_constants();
    assert(0x7f7f_ffffu32 & 0x7fff_ffff == 0x7f7f_ffff) by (bit_vector);
    assert forall|c: int| 0 <= c < p.n_y implies (#[trigger] entry(p, i, c)).distance.below(largest) && entry(
        p,
        i,
        c,
    ).distance.larger(Single { bits: ZERO }) == entry(p, i, c).distance by {
        let x = p.distance(i, c);
        lemma_below(x, largest);
        lemma_cut(x);
        lemma_below(entry(p, i, c).distance, largest);
        lemma_cut(entry(p, i, c).distance);
    }
    assert forall|t: int| 0 <= t < m implies (#[trigger] row[t]).distance.below(largest) by {
        assert(entry(p, i, row[t].index as int).distance.below(largest));
    }
    lemma_below(largest, largest);
    assert forall|t: int| m <= t < k implies !(#[trigger] row[t]).distance.below(largest) by {
        assert(row[t] == no_candidate());
    }
    lemma_live_front(row, m, k);
    let all = p.contenders(i, row, j);
    let n = all.len();
    assert(n == m + w);
    assert forall|q: int| 0 <= q < n implies 0 <= (#[trigger] all[q]).index < j + w && KnnCandidate {
        index: all[q].index,
        distance: all[q].distance.larger(Single { bits: ZERO }),
    } == entry(p, i, all[q].index as int) && (q >= m ==> all[q].index == j + q - m) && (q < m ==> all[q] == row[q]) by {
        if q < m {
            assert(all[q] == row[q]);
            assert(entry(p, i, row[q].index as int).distance.below(largest));
        } else {
            assert(all[q] == (KnnCandidate { index: (j + (q - m)) as u32, distance: p.distance(i, j + (q - m)) }));
        }
    }
    assert(distinct(all)) by {
        assert forall|a: int, b: int| 0 <= a < b < n implies (#[trigger] all[a]).index != (#[trigger] all[b]).index by {
            if b < m {
                assert(row[a].index != row[b].index);
            } else if a < m {
                assert(row[a].index < j);
            }
        }
    }
    lemma_k_best_distinct(all, k, n);
    let top = k_best(all, k, n);
    let out = filled(top, k);
    assert forall|t: int| 0 <= t < k implies if t < j + w {
        &&& (#[trigger] out[t]).index < j + w
        &&& out[t] == entry(p, i, out[t].index as int)
        &&& forall|s: int| 0 <= s < t ==> (#[trigger] out[s]).index != out[t].index
    } else {
        out[t] == no_candidate()
    } by {
        if t < j + w {
            assert(t < top.len());
            let q = choose|q: int| 0 <= q < n && all[q] == top[t];
            assert(0 <= all[q].index < j + w);
            assert forall|s: int| 0 <= s < t implies (#[trigger] out[s]).index != out[t].index by {
                assert(top[s].index != top[t].index);
            }
        }
    }
}

proof fn lemma_lists_from(p: Problem, i: int, row: Seq<KnnCandidate>, j: int)
    requires
        0 <= j <= p.n_y <= 0x1_0000_0000,
        forall|c: int| 0 <= c < p.n_y ==> (#[trigger] p.distance(i, c)).below(Single { bits: LARGEST }),
        lists_candidates(p, i, row, j),
    ensures
        lists_candidates(p, i, p.k_nearest_from(i, row, j), p.n_y as int),
        p.k_nearest_from(i, row, j).len() == row.len(),
    decreases p.n_y - j,
{
    if j < p.n_y {
        lemma_lists_step(p, i, row, j);
        lemma_lists_from(p, i, p.with_tile_in_row(i, row, j), j + tile(p.n_y as int, j));
    }
}

/// Where all distances are below the largest number, the first places hold candidates, as many as
/// there are or as find room: each once, and with its own distance. Nothing stands behind them.
pub proof fn law_k_nearest_distinct(p: Problem, i: int, k: nat)
    requires
        p.n_y <= 0x1_0000_0000,
        forall|c: int| 0 <= c < p.n_y ==> (#[trigger] p.distance(i, c)).below(Single { bits: LARGEST }),
    ensures
        p.k_nearest(i, k).len() == k,
        lists_candidates(p, i, p.k_nearest(i, k), p.n_y as int),
{
    lemma_lists_from(p, i, Seq::new(k, |t: int| no_candidate()), 0);
}

/// The `k` nearest candidates that are found for a query come in ascending order, and every
/// candidate is among them or is not nearer than the last of them. Where all distances are below the
/// largest number, each place holds a candidate of its own, as long as there are any.
pub proof fn law_k_nearest(p: Problem, i: int, k: nat, c: int)
    requires
        0 < k,
        p.n_y <= 0x1_0000_0000,
        measured(p, i),
        0 <= c < p.n_y,
        p.distance(i, c).below(Single { bits: LARGEST }),
    ensures
        ascending(p.k_nearest(i, k)),
        p.k_nearest(i, k).len() == k,
        p.k_nearest(i, k).contains(entry(p, i, c)) || entry(p, i, c).distance.order() >= p.k_nearest(
            i,
            k,
        ).last().distance.order(),
        (forall|b: int| 0 <= b < p.n_y ==> (#[trigger] p.distance(i, b)).below(Single { bits: LARGEST }))
            ==> lists_candidates(p, i, p.k_nearest(i, k), p.n_y as int),
{
    if forall|b: int| 0 <= b < p.n_y ==> (#[trigger] p.distance(i, b)).below(Single { bits: LARGEST }) {
        law_k_nearest_distinct(p, i, k);
    }
    let none = Seq::new(k, |t: int| no_candidate());
    lemma_constants();
    assert(0x7f7f_ffffu32 & 0x7fff_ffff == 0x7f7f_ffff) by (bit_vector);
    assert(is_row(p, i, none, 0));
    lemma_k_nearest_from(p, i, none, 0);
}

proof fn lemma_best_of(top: KnnCandidate, positions: Seq<u32>, distances: Seq<Single>, offset: int, n: nat)
    ensures
        ({
            let r = best_of(top, positions, distances, offset, n);
            r == top || r.distance.below(top.distance)
        }),
    decreases n,
{
    if n > 0 {
        lemma_best_of(top, positions, distances, offset, (n - 1) as nat);
        let before = best_of(top, positions, distances, offset, (n - 1) as nat);
        let d = distances[positions[n - 1] as int];
        lemma_below(d, before.distance);
        lemma_below(before.distance, top.distance);
        lemma_below(d, top.distance);
    }
}

/// The pruning search never makes things worse: it keeps the candidate that it starts from, or
/// finds a nearer one.
pub proof fn law_search_never_worse(
    ratios: Seq<Single>,
    query: Seq<Single>,
    centroids: Seq<Single>,
    batch_n_y: nat,
    d: int,
    vertical_d: int,
    horizontal_d: int,
    partial_distances: Seq<Single>,
    partial_d: int,
    prev_top_1: u32,
    prev_threshold: Single,
    offset: int,
)
    ensures
        ({
            let r = top1_search(
                ratios,
                query,
                centroids,
                batch_n_y,
                d,
                vertical_d,
                horizontal_d,
                partial_distances,
                partial_d,
                prev_top_1,
                prev_threshold,
                offset,
            ).top;
            r == (KnnCandidate { index: prev_top_1, distance: prev_threshold }) || r.distance.below(prev_threshold)
        }),
{
    let top = KnnCandidate { index: prev_top_1, distance: prev_threshold };
    let s0 = Search {
        distances: partial_distances,
        positions: survivors(
            partial_distances,
            prev_threshold.times(ratios[partial_d]),
            batch_n_y,
        ),
    };
    let s1 = horizontal_phase(
        s0,
        query,
        centroids,
        d,
        vertical_d,
        horizontal_d,
        partial_d,
        ratios,
        prev_threshold,
        0,
    );
    let s2 = vertical_phase(
        s1,
        query,
        centroids,
        d,
        vertical_d,
        partial_d,
        ratios,
        prev_threshold,
    );
    lemma_best_of(top, s2.positions, s2.distances, offset, s2.positions.len());
}

/// No candidate of a search one by one is nearer than the one that it finds, and what it reports
/// is the distance of that one, unless no candidate is below the largest number.
pub proof fn law_plain_nearest_is_minimal(x: Seq<Single>, y: Seq<Single>, d: nat, i: int, n: nat, c: int)
    requires
        0 <= c < n <= 0x1_0000_0000,
    ensures
        ({
            let (index, distance) = plain_nearest(x, y, d, i, n);
            &&& index < n
            &&& !plain_distance(x, i * d, y, c * d, d).below(distance)
            &&& distance == plain_distance(x, i * d, y, index * d, d) || distance == (Single { bits: LARGEST })
        }),
    decreases n,
{
    let far = Single { bits: LARGEST };
    lemma_constants();
    lemma_below(far, far);
    lemma_plain_nearest(x, y, d, i, n);
    if c < n - 1 {
        law_plain_nearest_is_minimal(x, y, d, i, (n - 1) as nat, c);
        lemma_plain_nearest(x, y, d, i, (n - 1) as nat);
    }
    let here = plain_distance(x, i * d, y, c * d, d);
    let last = plain_distance(x, i * d, y, (n - 1) * d, d);
    let before = plain_nearest(x, y, d, i, (n - 1) as nat).1;
    lemma_plain_nearest(x, y, d, i, (n - 1) as nat);
    lemma_below(last, before);
    lemma_below(here, before);
    lemma_below(here, last);
    lemma_below(here, here);
}

pub(crate) proof fn lemma_plain_nearest(x: Seq<Single>, y: Seq<Single>, d: nat, i: int, n: nat)
    requires
        n <= 0x1_0000_0000,
    ensures
        ({
            let (index, distance) = plain_nearest(x, y, d, i, n);
            &&& n > 0 ==> index < n
            &&& n == 0 ==> index == 0
            &&& distance.is_number()
            &&& (distance == plain_distance(x, i * d, y, index * d, d) && n > 0) || distance == (Single { bits: LARGEST })
        }),
    decreases n,
{
    lemma_constants();
    if n > 0 {
        lemma_plain_nearest(x, y, d, i, (n - 1) as nat);
        let last = plain_distance(x, i * d, y, (n - 1) * d, d);
        lemma_below(last, plain_nearest(x, y, d, i, (n - 1) as nat).1);
    }
}

/// The number of dimensions for the next matrix product stays within what the search can use.
pub proof fn law_tuning_stays_in_bounds(config: SuperKMeansConfig, partial_d: u32, vertical_d: nat, share: Single)
    requires
        MIN_PARTIAL_D <= partial_d <= vertical_d <= u32::MAX,
    ensures
        MIN_PARTIAL_D <= tuned(config, partial_d, vertical_d, share) <= vertical_d,
{
}

} // verus!
