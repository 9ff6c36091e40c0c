//! What holds of the searches for the nearest: that they agree, that pruning makes nothing worse,
//! and when it loses nothing.
use crate::batch::{dot, tile, Problem};
use crate::centroids::norms;
use crate::common::{lemma_row, KnnCandidate};
use crate::exact::{
    gap_sum, is_whole, lemma_gap_expanded, lemma_whole_dot, lemma_whole_from_dot, lemma_whole_norm, lemma_whole_order,
    lemma_whole_plain_distance, product_sum, whole_table,
};
use crate::pdxearch::{kept, survivors};
use crate::single::{lemma_below, Single, LARGEST, ZERO};
use crate::utils::{plain_distance, plain_nearest};
use vstd::prelude::*;

verus! {

pub(crate) proof fn lemma_ends()
    ensures
        (Single { bits: ZERO }).is_number(),
        (Single { bits: ZERO }).order() == 0,
        (Single { bits: LARGEST }).is_number(),
        (Single { bits: LARGEST }).order() == 0x7f7f_ffff,
{
    assert(0u32 & 0x7fff_ffff == 0 && 0x7f7f_ffffu32 & 0x7fff_ffff == 0x7f7f_ffff) by (bit_vector);
}

/// The search by products and the search one by one measure the same distances from query `i`.
pub open spec fn same_distances(p: Problem, i: int) -> bool {
    forall|c: int|
        0 <= c < p.n_y ==> {
            let a = #[trigger] p.distance(i, c);
            let b = plain_distance(p.x, i * p.d, p.y, c * p.d, p.d);
            a.is_number() && b.is_number() && a.order() == b.order() && 0 <= a.order()
        }
}

/// What a batch adds to the search one by one.
proof fn lemma_tile_agrees(p: Problem, i: int, j: nat, n: nat)
    requires
        same_distances(p, i),
        j + n <= p.n_y <= 0x1_0000_0000,
        plain_nearest(p.x, p.y, p.d, i, j).1.is_number(),
        plain_nearest(p.x, p.y, p.d, i, j).1.order() <= 0x7f7f_ffff,
    ensures
        ({
            let (v, c) = p.tile_min(i, j as int, n);
            let before = plain_nearest(p.x, p.y, p.d, i, j);
            let after = plain_nearest(p.x, p.y, p.d, i, j + n);
            &&& v.is_number()
            &&& 0 <= v.order() <= 0x7f7f_ffff
            &&& if v.order() < before.1.order() {
                &&& after.0 == j + c
                &&& after.1.is_number()
                &&& after.1.order() == v.order()
            } else {
                after == before
            }
        }),
    decreases n,
{
    lemma_ends();
    if n > 0 {
        lemma_tile_agrees(p, i, j, (n - 1) as nat);
        let m = (j + n - 1) as nat;
        let a = p.distance(i, m as int);
        let b = plain_distance(p.x, i * p.d, p.y, (m * p.d) as int, p.d);
        assert(a.order() == b.order() && a.is_number() && b.is_number() && 0 <= a.order());
        lemma_below(a, p.tile_min(i, j as int, (n - 1) as nat).0);
        lemma_below(b, plain_nearest(p.x, p.y, p.d, i, m).1);
    }
}

proof fn lemma_nearest_agrees(p: Problem, i: int, best: KnnCandidate, j: nat)
    requires
        same_distances(p, i),
        j <= p.n_y <= 0x1_0000_0000,
        best.distance.is_number(),
        0 <= best.distance.order() <= 0x7f7f_ffff,
        plain_nearest(p.x, p.y, p.d, i, j).1.is_number(),
        plain_nearest(p.x, p.y, p.d, i, j).1.order() == best.distance.order(),
        plain_nearest(p.x, p.y, p.d, i, j).0 == best.index,
    ensures
        ({
            let r = p.nearest_from(i, best, j as int);
            let q = plain_nearest(p.x, p.y, p.d, i, p.n_y);
            &&& r.index == q.0
            &&& r.distance.is_number() && q.1.is_number()
            &&& r.distance.order() == q.1.order()
            &&& 0 <= r.distance.order()
        }),
    decreases p.n_y - j,
{
    if j < p.n_y {
        let n = tile(p.n_y as int, j as int) as nat;
        lemma_ends();
        lemma_tile_agrees(p, i, j, n);
        let v = p.tile_min(i, j as int, n).0;
        lemma_below(v, best.distance);
        lemma_below(v, Single { bits: ZERO });
        lemma_nearest_agrees(p, i, p.with_tile(i, best, j as int), j + n);
    }
}

/// Where both measure the same distances, the search by products finds what the search one by one
/// finds: the first of the nearest, and its distance.
pub proof fn law_product_search_agrees(p: Problem, i: int)
    requires
        same_distances(p, i),
        p.n_y <= 0x1_0000_0000,
    ensures
        ({
            let r = p.nearest(i);
            let q = plain_nearest(p.x, p.y, p.d, i, p.n_y);
            &&& r.index == q.0
            &&& r.distance.is_number() && q.1.is_number()
            &&& r.distance.order() == q.1.order()
            &&& 0 <= r.distance.order()
        }),
{
    lemma_ends();
    lemma_nearest_agrees(p, i, KnnCandidate { index: 0, distance: Single { bits: LARGEST } }, 0);
}

/// On short integers the arithmetic is exact, so the two searches agree.
pub proof fn law_searches_agree_on_integers(p: Problem, vx: Seq<int>, vy: Seq<int>, bound: int, n_x: nat, i: int)
    requires
        whole_table(p.x, vx, bound),
        whole_table(p.y, vy, bound),
        bound >= 0,
        4 * bound * bound * p.d < 0x100_0000,
        n_x * p.d <= p.x.len(),
        p.n_y * p.d <= p.y.len(),
        p.n_y <= 0x1_0000_0000,
        p.norms_x == norms(p.x, n_x, p.d),
        p.norms_y == norms(p.y, p.n_y, p.d),
        0 <= i < n_x,
    ensures
        same_distances(p, i),
        forall|c: int|
            0 <= c < p.n_y ==> is_whole(
                #[trigger] p.distance(i, c),
                gap_sum(vx, i * p.d, vy, c * p.d, 0, p.d as int),
            ),
        ({
            let r = p.nearest(i);
            let q = plain_nearest(p.x, p.y, p.d, i, p.n_y);
            &&& r.index == q.0
            &&& r.distance.is_number() && q.1.is_number()
            &&& r.distance.order() == q.1.order() && 0 <= q.1.order()
            &&& p.n_y == 0 ==> r.index == 0 && r.distance == (Single { bits: LARGEST })
        }),
{
    let d = p.d as int;
    assert forall|c: int| 0 <= c < p.n_y implies {
        let a = #[trigger] p.distance(i, c);
        let b = plain_distance(p.x, i * p.d, p.y, c * p.d, p.d);
        &&& a.is_number() && b.is_number() && a.order() == b.order() && 0 <= a.order()
        &&& is_whole(a, gap_sum(vx, i * d, vy, c * d, 0, d))
    } by {
        lemma_row(i, n_x as int, d);
        lemma_row(c, p.n_y as int, d);
        let gap = gap_sum(vx, i * d, vy, c * d, 0, d);
        lemma_whole_dot(p.x, vx, p.y, vy, d, p.d, i, c, bound, d);
        lemma_whole_norm(p.x, vx, i * d, p.d, bound, d);
        lemma_whole_norm(p.y, vy, c * d, p.d, bound, d);
        lemma_gap_expanded(vx, i * d, vy, c * d, p.d);
        assert(4 * bound * bound * d == 4 * (bound * bound * d)) by (nonlinear_arith);
        lemma_whole_from_dot(
            dot(p.x, p.y, d, p.d, i, c),
            product_sum(vx, i * d, vy, c * d, p.d),
            p.norms_x[i],
            product_sum(vx, i * d, vx, i * d, p.d),
            p.norms_y[c],
            product_sum(vy, c * d, vy, c * d, p.d),
            bound * bound * d,
        );
        lemma_whole_plain_distance(p.x, vx, i * d, p.y, vy, c * d, p.d, bound, d);
        let b = plain_distance(p.x, i * p.d, p.y, c * p.d, p.d);
        lemma_whole_order(p.distance(i, c), gap, b, gap);
        lemma_whole_order(b, gap, p.distance(i, c), gap);
    }
    law_product_search_agrees(p, i);
}

/// How many of the first `n` distances are below the threshold.
pub open spec fn count_below(distances: Seq<Single>, threshold: Single, n: nat) -> nat
    decreases n,
{
    if n == 0 {
        0
    } else {
        count_below(distances, threshold, (n - 1) as nat) + if distances[n - 1].below(threshold) {
            1nat
        } else {
            0
        }
    }
}

/// The survivors are exactly the indices whose distance is below the threshold, in ascending order,
/// each of them once.
pub proof fn law_survivors_are_those_below(distances: Seq<Single>, threshold: Single, n: nat)
    requires
        n <= 0x1_0000_0000,
    ensures
        ({
            let s = survivors(distances, threshold, n);
            &&& s.len() == count_below(distances, threshold, n)
            &&& forall|q: u32| #[trigger] s.contains(q) <==> q < n && distances[q as int].below(threshold)
            &&& forall|a: int, b: int| 0 <= a < b < s.len() ==> #[trigger] s[a] < #[trigger] s[b]
            &&& forall|a: int| 0 <= a < s.len() ==> #[trigger] s[a] < n
        }),
    decreases n,
{
    let s = survivors(distances, threshold, n);
    if n > 0 {
        law_survivors_are_those_below(distances, threshold, (n - 1) as nat);
        let before = survivors(distances, threshold, (n - 1) as nat);
        assert forall|q: u32| #[trigger] s.contains(q) <==> q < n && distances[q as int].below(threshold) by {
            if distances[n - 1].below(threshold) {
                if q == n - 1 {
                    assert(s[before.len() as int] == q);
                }
                if before.contains(q) {
                    let a = choose|a: int| 0 <= a < before.len() && before[a] == q;
                    assert(s[a] == q);
                }
                if s.contains(q) && q != n - 1 {
                    let a = choose|a: int| 0 <= a < s.len() && s[a] == q;
                    assert(before[a] == q);
                }
            }
        }
    }
}

/// Exactly the positions whose distance is below the threshold are kept.
pub proof fn law_kept_are_those_below(positions: Seq<u32>, distances: Seq<Single>, threshold: Single, n: nat)
    requires
        n <= positions.len(),
    ensures
        forall|q: u32| #[trigger]
            kept(positions, distances, threshold, n).contains(q) <==> positions.take(n as int).contains(q)
                && distances[q as int].below(threshold),
    decreases n,
{
    let s = kept(positions, distances, threshold, n);
    if n > 0 {
        law_kept_are_those_below(positions, distances, threshold, (n - 1) as nat);
        let before = kept(positions, distances, threshold, (n - 1) as nat);
        let all = positions.take(n as int);
        let fewer = positions.take(n - 1);
        let p = positions[n - 1];
        assert(all =~= fewer.push(p));
        assert forall|q: u32| #[trigger] s.contains(q) <==> all.contains(q) && distances[q as int].below(threshold) by {
            lemma_push_contains(fewer, p, q);
            lemma_push_contains(before, p, q);
            assert(before.contains(q) <==> fewer.contains(q) && distances[q as int].below(threshold));
        }
    }
}

proof fn lemma_push_contains(s: Seq<u32>, p: u32, q: u32)
    ensures
        s.push(p).contains(q) <==> s.contains(q) || p == q,
{
    let t = s.push(p);
    if s.contains(q) {
        let a = choose|a: int| 0 <= a < s.len() && s[a] == q;
        assert(t[a] == q);
    }
    if p == q {
        assert(t[s.len() as int] == q);
    }
    if t.contains(q) && p != q {
        let a = choose|a: int| 0 <= a < t.len() && t[a] == q;
        assert(s[a] == q);
    }
}

} // verus!
