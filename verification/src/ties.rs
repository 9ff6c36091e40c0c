//! Which of several equally near candidates is found: always the first one.
use crate::batch::{k_best, place, tile, with_candidate, Problem};
use crate::common::KnnCandidate;
use crate::laws::{
    law_k_best_are_the_nearest, law_plain_nearest_is_minimal, lemma_constants, lemma_inserted, lemma_place,
    lemma_plain_nearest, lemma_tile_min_is_minimum,
};
use crate::single::{lemma_below, Single, LARGEST, ZERO};
use crate::utils::{plain_distance, plain_nearest};
use vstd::prelude::*;

verus! {

/// A search one by one finds the first of the nearest: all before it are farther away.
pub proof fn law_plain_nearest_is_first(x: Seq<Single>, y: Seq<Single>, d: nat, i: int, n: nat, c: int)
    requires
        n <= 0x1_0000_0000,
        0 <= c < plain_nearest(x, y, d, i, n).0,
    ensures
        plain_distance(x, i * d, y, c * d, d).is_number() ==> plain_nearest(x, y, d, i, n).1.below(
            plain_distance(x, i * d, y, c * d, d),
        ),
    decreases n,
{
    lemma_plain_nearest(x, y, d, i, n);
    if n > 0 {
        let before = plain_nearest(x, y, d, i, (n - 1) as nat);
        let last = plain_distance(x, i * d, y, (n - 1) * d, d);
        lemma_plain_nearest(x, y, d, i, (n - 1) as nat);
        lemma_below(last, before.1);
        if last.below(before.1) {
            law_plain_nearest_is_minimal(x, y, d, i, (n - 1) as nat, c);
            let here = plain_distance(x, i * d, y, c * d, d);
            lemma_below(here, before.1);
            lemma_below(last, here);
        } else {
            law_plain_nearest_is_first(x, y, d, i, (n - 1) as nat, c);
        }
    }
}

/// All candidates of a batch before the one that is found are farther away.
proof fn lemma_tile_first(p: Problem, i: int, j: int, n: nat, b: int)
    requires
        0 <= b < p.tile_min(i, j, n).1,
        p.distance(i, j + b).is_number(),
    ensures
        p.tile_min(i, j, n).0.order() < p.distance(i, j + b).order(),
    decreases n,
{
    if n > 0 {
        let (v0, c0) = p.tile_min(i, j, (n - 1) as nat);
        let v = p.distance(i, j + n - 1);
        lemma_tile_min_is_minimum(p, i, j, (n - 1) as nat);
        lemma_below(v, v0);
        if v.below(v0) {
            lemma_below(p.distance(i, j + b), v0);
        } else {
            lemma_tile_first(p, i, j, (n - 1) as nat, b);
        }
    }
}

/// Among the candidates below `j`: none is nearer than the best, and all before it are farther.
pub open spec fn first_so_far(p: Problem, i: int, best: KnnCandidate, j: int) -> bool {
    &&& best.distance.is_number()
    &&& best.index <= j
    &&& forall|c: int|
        0 <= c < j && (#[trigger] p.distance(i, c)).is_number() ==> best.distance.order() <= p.distance(i, c).order()
    &&& forall|c: int|
        0 <= c < best.index && (#[trigger] p.distance(i, c)).is_number() ==> best.distance.order() < p.distance(i, c).order()
}

/// No distance is below zero.
pub open spec fn no_distance_below_zero(p: Problem, i: int) -> bool {
    forall|c: int| 0 <= c < p.n_y && (#[trigger] p.distance(i, c)).is_number() ==> p.distance(i, c).order() >= 0
}

proof fn lemma_first_from(p: Problem, i: int, best: KnnCandidate, j: int)
    requires
        0 <= j <= p.n_y <= 0x1_0000_0000,
        no_distance_below_zero(p, i),
        first_so_far(p, i, best, j),
    ensures
        first_so_far(p, i, p.nearest_from(i, best, j), p.n_y as int),
    decreases p.n_y - j,
{
    if j < p.n_y {
        let w = tile(p.n_y as int, j);
        let zero = Single { bits: ZERO };
        lemma_constants();
        lemma_tile_min_is_minimum(p, i, j, w as nat);
        let (v, c) = p.tile_min(i, j, w as nat);
        let next = p.with_tile(i, best, j);
        lemma_below(v, best.distance);
        lemma_below(v, zero);
        if v.below(best.distance) {
            assert(v.order() >= 0) by {
                assert(c < w ==> p.distance(i, j + c).is_number() ==> p.distance(i, j + c).order() >= 0);
            }
            assert(v.larger(zero) == v);
            assert(next.index == j + c);
        }
        assert forall|b: int| 0 <= b < j + w && (#[trigger] p.distance(i, b)).is_number() implies next.distance.order()
            <= p.distance(i, b).order() by {
            lemma_below(p.distance(i, b), v);
        }
        assert forall|b: int| 0 <= b < next.index && (#[trigger] p.distance(i, b)).is_number() implies next.distance.order()
            < p.distance(i, b).order() by {
            if v.below(best.distance) && b >= j {
                assert(p.distance(i, j + (b - j)) == p.distance(i, b));
                lemma_tile_first(p, i, j, w as nat, b - j);
            }
        }
        lemma_first_from(p, i, next, j + w);
    }
}

/// A search over all distances finds the first of the nearest: all before it are farther away, where
/// rounding makes no distance fall below zero.
pub proof fn law_nearest_is_first(p: Problem, i: int, c: int)
    requires
        p.n_y <= 0x1_0000_0000,
        no_distance_below_zero(p, i),
        0 <= c < p.nearest(i).index,
        p.distance(i, c).is_number(),
    ensures
        p.nearest(i).distance.below(p.distance(i, c)),
{
    let none = KnnCandidate { index: 0, distance: Single { bits: LARGEST } };
    lemma_constants();
    lemma_first_from(p, i, none, 0);
    lemma_below(p.nearest(i).distance, p.distance(i, c));
}

/// Equally near candidates come in the order of their numbers.
pub open spec fn equals_in_order(s: Seq<KnnCandidate>) -> bool {
    forall|t: int, u: int|
        0 <= t < u < s.len() && (#[trigger] s[t]).distance.order() == (#[trigger] s[u]).distance.order() ==> s[t].index
            < s[u].index
}

/// The nearest of several candidates list equally near ones in the order of their numbers.
pub proof fn law_k_best_keep_the_order(candidates: Seq<KnnCandidate>, k: nat, n: nat)
    requires
        0 < k,
        n <= candidates.len(),
        forall|i: int| 0 <= i < n ==> #[trigger] candidates[i].distance.is_number(),
        forall|i: int, j: int| 0 <= i < j < n ==> (#[trigger] candidates[i]).index < (#[trigger] candidates[j]).index,
    ensures
        equals_in_order(k_best(candidates, k, n)),
    decreases n,
{
    if n > 0 {
        let s = k_best(candidates, k, (n - 1) as nat);
        let e = candidates[n - 1];
        law_k_best_keep_the_order(candidates, k, (n - 1) as nat);
        law_k_best_are_the_nearest(candidates, k, (n - 1) as nat);
        lemma_place(s, e, s.len());
        let p = place(s, e, s.len()) as int;
        lemma_inserted(s, e, p);
        let all = s.insert(p, e);
        let r = with_candidate(s, e, k);
        assert forall|t: int| 0 <= t < s.len() implies (#[trigger] s[t]).index < e.index by {
            let earlier = candidates.take(n - 1);
            assert(earlier.contains(s[t]));
            let w = choose|w: int| 0 <= w < earlier.len() && earlier[w] == s[t];
            assert(candidates[w] == s[t]);
        }
        assert forall|t: int, u: int|
            0 <= t < u < r.len() && (#[trigger] r[t]).distance.order() == (#[trigger] r[u]).distance.order() implies r[t].index
            < r[u].index by {
            assert(r[t] == all[t] && r[u] == all[u]);
            if t < p {
                assert(all[t] == s[t]);
                if u < p {
                    assert(all[u] == s[u]);
                } else if u > p {
                    assert(all[u] == s[u - 1]);
                }
            } else if t == p {
                assert(all[u] == s[u - 1]);
            } else {
                assert(all[t] == s[t - 1] && all[u] == s[u - 1]);
            }
        }
    }
}

} // verus!
