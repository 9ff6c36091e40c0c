//! What holds of the pruning search: it makes nothing worse, and it loses nothing where no ratio is
//! below 1.
use crate::batch::{dot, tile, Problem, Refined, Refinement};
use crate::centroids::{norms, partial_norms};
use crate::common::{lemma_row, KnnCandidate};
use crate::distance::{l2_distance, lane_sum, lanes_total, squared_difference, terms_from};
use crate::exact::{
    gap_sum, is_whole, lemma_gap_expanded, lemma_gap_split, lemma_gap_symmetric, lemma_room, lemma_short_below_largest,
    lemma_whole_dot, lemma_whole_from_dot, lemma_whole_norm, lemma_whole_order, lemma_whole_part, lemma_whole_plus,
    product_sum, whole_table,
};
use crate::laws::law_nearest_is_minimal;
use crate::numbers::{
    law_plus_commutes, law_plus_nothing_smaller, law_square_not_below_zero, law_sum_not_below_zero, law_times_commutes,
    law_times_monotone, law_times_one, lemma_one, lemma_terms_finite, not_below_zero,
};
use crate::pdxearch::{
    best_of, block_distance, block_size, horizontal_phase, increasing, lemma_kept, lemma_survivors, survivors,
    top1_search, vertical_phase, Search,
};
use crate::searches::{
    law_kept_are_those_below, law_product_search_agrees, law_searches_agree_on_integers, law_survivors_are_those_below,
    lemma_ends,
};
use crate::single::{lemma_below, Single, ONE, ZERO};
use vstd::prelude::*;

verus! {

proof fn lemma_lane_not_below_zero(a: Seq<Single>, b: Seq<Single>, l: int, groups: nat)
    ensures
        not_below_zero(lane_sum(a, b, l, groups)),
    decreases groups,
{
    if groups > 0 {
        lemma_lane_not_below_zero(a, b, l, (groups - 1) as nat);
        let i = (groups - 1) * 8 + l;
        law_square_not_below_zero(a[i].minus(b[i]));
        law_sum_not_below_zero(lane_sum(a, b, l, (groups - 1) as nat), squared_difference(a, b, i));
    } else {
        lemma_ends();
    }
}

proof fn lemma_lanes_not_below_zero(a: Seq<Single>, b: Seq<Single>, groups: nat, lanes: nat)
    ensures
        not_below_zero(lanes_total(a, b, groups, lanes)),
    decreases lanes,
{
    if lanes > 0 {
        lemma_lanes_not_below_zero(a, b, groups, (lanes - 1) as nat);
        lemma_lane_not_below_zero(a, b, lanes - 1, groups);
        law_sum_not_below_zero(lanes_total(a, b, groups, (lanes - 1) as nat), lane_sum(a, b, lanes - 1, groups));
    } else {
        lemma_ends();
    }
}

proof fn lemma_terms_not_below_zero(a: Seq<Single>, b: Seq<Single>, start: Single, from: int, to: int)
    requires
        not_below_zero(start),
    ensures
        not_below_zero(terms_from(a, b, start, from, to)),
    decreases to - from,
{
    if from < to {
        lemma_terms_not_below_zero(a, b, start, from, to - 1);
        law_square_not_below_zero(a[to - 1].minus(b[to - 1]));
        law_sum_not_below_zero(terms_from(a, b, start, from, to - 1), squared_difference(a, b, to - 1));
    }
}

/// No distance is below zero.
pub proof fn law_distance_not_below_zero(a: Seq<Single>, b: Seq<Single>)
    ensures
        not_below_zero(l2_distance(a, b)),
{
    let groups = a.len() / 8;
    lemma_lanes_not_below_zero(a, b, groups, 8);
    lemma_terms_not_below_zero(a, b, lanes_total(a, b, groups, 8), (groups * 8) as int, a.len() as int);
}

/// What row `i` comes to from `start` on when the horizontal blocks from `done` on are added.
pub open spec fn with_blocks(
    start: Single,
    query: Seq<Single>,
    centroids: Seq<Single>,
    d: int,
    i: int,
    vertical_d: int,
    horizontal_d: int,
    done: int,
) -> Single
    decreases horizontal_d - done,
{
    if done >= horizontal_d {
        start
    } else {
        let block = block_size(horizontal_d, done);
        with_blocks(
            start.plus(block_distance(query, centroids, d, i, vertical_d + done, block)),
            query,
            centroids,
            d,
            i,
            vertical_d,
            horizontal_d,
            done + block,
        )
    }
}

/// The distance of row `i` as the pruning search measures it to the end: the partial distance, then
/// block by block, then the vertical dimensions that are left.
pub open spec fn measured(
    start: Single,
    query: Seq<Single>,
    centroids: Seq<Single>,
    d: int,
    i: int,
    vertical_d: int,
    horizontal_d: int,
    partial_d: int,
) -> Single {
    let h = with_blocks(start, query, centroids, d, i, vertical_d, horizontal_d, 0);
    if partial_d < vertical_d {
        h.plus(block_distance(query, centroids, d, i, partial_d, vertical_d - partial_d))
    } else {
        h
    }
}

/// Adding a block makes no distance smaller.
proof fn lemma_block_grows(s: Single, query: Seq<Single>, centroids: Seq<Single>, d: int, i: int, offset: int, size: int)
    requires
        s.plus(block_distance(query, centroids, d, i, offset, size)).is_finite(),
    ensures
        s.is_finite(),
        s.order() <= s.plus(block_distance(query, centroids, d, i, offset, size)).order(),
{
    let b = block_distance(query, centroids, d, i, offset, size);
    lemma_terms_finite(s, b);
    law_distance_not_below_zero(
        query.subrange(offset, offset + size),
        centroids.subrange(i * d + offset, i * d + offset + size),
    );
    law_plus_nothing_smaller(b, s);
    law_plus_commutes(s, b);
}

proof fn lemma_blocks_grow(
    start: Single,
    query: Seq<Single>,
    centroids: Seq<Single>,
    d: int,
    i: int,
    vertical_d: int,
    horizontal_d: int,
    done: int,
)
    requires
        with_blocks(start, query, centroids, d, i, vertical_d, horizontal_d, done).is_finite(),
    ensures
        start.is_finite(),
        start.order() <= with_blocks(start, query, centroids, d, i, vertical_d, horizontal_d, done).order(),
    decreases horizontal_d - done,
{
    if done < horizontal_d {
        let block = block_size(horizontal_d, done);
        let next = start.plus(block_distance(query, centroids, d, i, vertical_d + done, block));
        lemma_blocks_grow(next, query, centroids, d, i, vertical_d, horizontal_d, done + block);
        lemma_block_grows(start, query, centroids, d, i, vertical_d + done, block);
    }
}

/// No ratio is below 1, and the best distance so far is finite.
pub open spec fn generous(ratios: Seq<Single>, d: int, best: Single) -> bool {
    &&& best.is_finite()
    &&& 0 <= best.order()
    &&& forall|t: int|
        0 <= t <= d ==> (#[trigger] ratios[t]).is_finite() && (Single { bits: ONE }).order() <= ratios[t].order()
}

/// Then what is below the best distance is below every threshold.
proof fn lemma_below_threshold(ratios: Seq<Single>, d: int, best: Single, t: int, v: Single)
    requires
        generous(ratios, d, best),
        0 <= t <= d,
        v.is_number(),
        v.order() < best.order(),
    ensures
        v.below(best.times(ratios[t])),
{
    let one = Single { bits: ONE };
    lemma_one();
    law_times_monotone(one, ratios[t], best);
    law_times_commutes(best, one);
    law_times_commutes(best, ratios[t]);
    law_times_one(best);
    lemma_below(v, best.times(ratios[t]));
}

/// What one block does to the candidates.
proof fn lemma_narrowed(
    s: Search,
    query: Seq<Single>,
    centroids: Seq<Single>,
    d: int,
    offset: int,
    size: int,
    threshold: Single,
    bound: int,
)
    requires
        increasing(s.positions, bound),
        s.distances.len() == bound,
        bound <= 0x1_0000_0000,
    ensures
        ({
            let r = s.narrowed(query, centroids, d, offset, size, threshold);
            &&& increasing(r.positions, bound)
            &&& r.distances.len() == bound
            &&& forall|q: u32| #[trigger]
                r.positions.contains(q) ==> s.positions.contains(q) && q < bound && r.distances[q as int]
                    == s.distances[q as int].plus(block_distance(query, centroids, d, q as int, offset, size))
            &&& forall|q: u32| #[trigger]
                s.positions.contains(q) && s.distances[q as int].plus(
                    block_distance(query, centroids, d, q as int, offset, size),
                ).below(threshold) ==> r.positions.contains(q)
        }),
{
    let r = s.narrowed(query, centroids, d, offset, size, threshold);
    let n = s.positions.len();
    lemma_kept(s.positions, r.distances, threshold, n, bound);
    law_kept_are_those_below(s.positions, r.distances, threshold, n);
    assert(s.positions.take(n as int) =~= s.positions);
    assert forall|q: u32| s.positions.contains(q) implies q < bound && #[trigger] r.distances[q as int]
        == s.distances[q as int].plus(block_distance(query, centroids, d, q as int, offset, size)) by {
        let a = choose|a: int| 0 <= a < s.positions.len() && s.positions[a] == q;
        assert(s.positions[a] < bound);
        assert((q as int) as u32 == q);
    }
}

/// What the horizontal phase leaves: candidates whose blocks are all added, and, where no ratio is
/// below 1, every one that ends below the best distance.
proof fn lemma_horizontal(
    s: Search,
    query: Seq<Single>,
    centroids: Seq<Single>,
    d: int,
    vertical_d: int,
    horizontal_d: int,
    partial_d: int,
    ratios: Seq<Single>,
    best: Single,
    done: int,
    bound: int,
)
    requires
        increasing(s.positions, bound),
        s.distances.len() == bound,
        bound <= 0x1_0000_0000,
        0 <= done,
        0 <= partial_d,
        partial_d + horizontal_d <= d,
    ensures
        ({
            let r = horizontal_phase(s, query, centroids, d, vertical_d, horizontal_d, partial_d, ratios, best, done);
            &&& increasing(r.positions, bound)
            &&& r.distances.len() == bound
            &&& forall|q: u32| #[trigger]
                r.positions.contains(q) ==> s.positions.contains(q) && r.distances[q as int] == with_blocks(
                    s.distances[q as int],
                    query,
                    centroids,
                    d,
                    q as int,
                    vertical_d,
                    horizontal_d,
                    done,
                )
            &&& generous(ratios, d, best) ==> forall|q: u32| #[trigger]
                s.positions.contains(q) && with_blocks(
                    s.distances[q as int],
                    query,
                    centroids,
                    d,
                    q as int,
                    vertical_d,
                    horizontal_d,
                    done,
                ).is_finite() && with_blocks(
                    s.distances[q as int],
                    query,
                    centroids,
                    d,
                    q as int,
                    vertical_d,
                    horizontal_d,
                    done,
                ).order() < best.order() ==> r.positions.contains(q)
        }),
    decreases horizontal_d - done,
{
    if s.positions.len() > 0 && done < horizontal_d {
        let block = block_size(horizontal_d, done);
        let threshold = best.times(ratios[partial_d + done + block]);
        let next = s.narrowed(query, centroids, d, vertical_d + done, block, threshold);
        lemma_narrowed(s, query, centroids, d, vertical_d + done, block, threshold, bound);
        lemma_horizontal(
            next,
            query,
            centroids,
            d,
            vertical_d,
            horizontal_d,
            partial_d,
            ratios,
            best,
            done + block,
            bound,
        );
        let r = horizontal_phase(s, query, centroids, d, vertical_d, horizontal_d, partial_d, ratios, best, done);
        assert forall|q: u32| #[trigger] r.positions.contains(q) implies s.positions.contains(q)
            && r.distances[q as int] == with_blocks(
            s.distances[q as int],
            query,
            centroids,
            d,
            q as int,
            vertical_d,
            horizontal_d,
            done,
        ) by {
            assert(next.positions.contains(q));
        }
        if generous(ratios, d, best) {
            assert forall|q: u32| #[trigger] s.positions.contains(q) && with_blocks(
                s.distances[q as int],
                query,
                centroids,
                d,
                q as int,
                vertical_d,
                horizontal_d,
                done,
            ).is_finite() && with_blocks(
                s.distances[q as int],
                query,
                centroids,
                d,
                q as int,
                vertical_d,
                horizontal_d,
                done,
            ).order() < best.order() implies r.positions.contains(q) by {
                let v = s.distances[q as int].plus(
                    block_distance(query, centroids, d, q as int, vertical_d + done, block),
                );
                lemma_blocks_grow(v, query, centroids, d, q as int, vertical_d, horizontal_d, done + block);
                lemma_below_threshold(ratios, d, best, partial_d + done + block, v);
                assert(next.positions.contains(q));
            }
        }
    }
}

/// The best of all is the first or one of the candidates that is nearer, and none of them is nearer
/// than it.
pub(crate) proof fn lemma_best(top: KnnCandidate, positions: Seq<u32>, distances: Seq<Single>, offset: int, n: nat)
    requires
        n <= positions.len(),
    ensures
        ({
            let r = best_of(top, positions, distances, offset, n);
            &&& r == top || exists|t: int|
                0 <= t < n && r.index == (offset + #[trigger] positions[t]) as u32 && r.distance
                    == distances[positions[t] as int] && r.distance.below(top.distance)
            &&& top.distance.is_number() ==> r.distance.is_number() && r.distance.order() <= top.distance.order()
            &&& top.distance.is_number() ==> forall|t: int|
                0 <= t < n && distances[#[trigger] positions[t] as int].is_number() ==> r.distance.order()
                    <= distances[positions[t] as int].order()
        }),
    decreases n,
{
    if n > 0 {
        lemma_best(top, positions, distances, offset, (n - 1) as nat);
        let before = best_of(top, positions, distances, offset, (n - 1) as nat);
        let v = distances[positions[n - 1] as int];
        lemma_below(v, before.distance);
        lemma_below(v, top.distance);
        lemma_below(before.distance, top.distance);
        let r = best_of(top, positions, distances, offset, n);
        if v.below(before.distance) {
            assert(r.index == (offset + positions[n - 1]) as u32);
        }
    }
}

/// One batch: the search keeps what it starts from or finds a candidate that is nearer, with its
/// distance measured to the end; and, where no ratio is below 1, no candidate but the one that it
/// starts from is nearer than what it finds.
pub proof fn law_search_of_batch(
    ratios: Seq<Single>,
    query: Seq<Single>,
    centroids: Seq<Single>,
    batch_n_y: nat,
    d: int,
    vertical_d: int,
    horizontal_d: int,
    partial_distances: Seq<Single>,
    partial_d: int,
    prev_top_1: u32,
    prev_threshold: Single,
    offset: int,
)
    requires
        0 <= offset,
        offset + batch_n_y <= 0x1_0000_0000,
        partial_distances.len() == batch_n_y,
        0 <= partial_d <= vertical_d,
        0 <= horizontal_d,
        vertical_d + horizontal_d == d,
    ensures
        ({
            let r = top1_search(
                ratios,
                query,
                centroids,
                batch_n_y,
                d,
                vertical_d,
                horizontal_d,
                partial_distances,
                partial_d,
                prev_top_1,
                prev_threshold,
                offset,
            ).top;
            let m = |q: int| measured(
                partial_distances[q],
                query,
                centroids,
                d,
                q,
                vertical_d,
                horizontal_d,
                partial_d,
            );
            &&& r == (KnnCandidate { index: prev_top_1, distance: prev_threshold }) || exists|q: int|
                0 <= q < batch_n_y && r.index == offset + q && r.distance == #[trigger] m(q) && m(q).below(
                    prev_threshold,
                )
            &&& prev_threshold.is_number() ==> r.distance.is_number() && r.distance.order() <= prev_threshold.order()
            &&& generous(ratios, d, prev_threshold) ==> forall|q: int|
                0 <= q < batch_n_y && offset + q != prev_top_1 && (#[trigger] m(q)).is_finite() ==> r.distance.order()
                    <= m(q).order()
        }),
{
    let bound = batch_n_y as int;
    let top = KnnCandidate { index: prev_top_1, distance: prev_threshold };
    let first = prev_threshold.times(ratios[partial_d]);
    let positions = survivors(partial_distances, first, batch_n_y);
    lemma_survivors(partial_distances, first, batch_n_y);
    law_survivors_are_those_below(partial_distances, first, batch_n_y);
    let s0 = Search { distances: partial_distances, positions };
    let s1 = horizontal_phase(
        s0,
        query,
        centroids,
        d,
        vertical_d,
        horizontal_d,
        partial_d,
        ratios,
        prev_threshold,
        0,
    );
    lemma_horizontal(
        s0,
        query,
        centroids,
        d,
        vertical_d,
        horizontal_d,
        partial_d,
        ratios,
        prev_threshold,
        0,
        bound,
    );
    let s2 = vertical_phase(s1, query, centroids, d, vertical_d, partial_d, ratios, prev_threshold);
    let last = prev_threshold.times(ratios[d]);
    lemma_narrowed(s1, query, centroids, d, partial_d, vertical_d - partial_d, last, bound);
    let r = top1_search(
        ratios,
        query,
        centroids,
        batch_n_y,
        d,
        vertical_d,
        horizontal_d,
        partial_distances,
        partial_d,
        prev_top_1,
        prev_threshold,
        offset,
    ).top;
    let m = |q: int| measured(partial_distances[q], query, centroids, d, q, vertical_d, horizontal_d, partial_d);
    lemma_best(top, s2.positions, s2.distances, offset, s2.positions.len());
    assert forall|q: u32| s2.positions.contains(q) implies q < bound && #[trigger] s2.distances[q as int] == m(
        q as int,
    ) by {
        assert(s1.positions.contains(q));
        let a = choose|a: int| 0 <= a < s1.positions.len() && s1.positions[a] == q;
        assert(s1.positions[a] < bound);
    }
    let alone = positions.len() == 1 && offset + positions[0] == prev_top_1;
    if !alone && r != top {
        let t = choose|t: int|
            0 <= t < s2.positions.len() && r.index == (offset + #[trigger] s2.positions[t]) as u32 && r.distance
                == s2.distances[s2.positions[t] as int] && r.distance.below(top.distance);
        let q = s2.positions[t];
        assert(s2.positions.contains(q));
        assert(r.distance == m(q as int));
    }
    if generous(ratios, d, prev_threshold) {
        assert forall|q: int|
            0 <= q < batch_n_y && offset + q != prev_top_1 && (#[trigger] m(q)).is_finite() implies r.distance.order()
            <= m(q).order() by {
            if m(q).order() < prev_threshold.order() {
                let p = q as u32;
                let h = with_blocks(partial_distances[q], query, centroids, d, q, vertical_d, horizontal_d, 0);
                if partial_d < vertical_d {
                    lemma_block_grows(h, query, centroids, d, q, partial_d, vertical_d - partial_d);
                }
                lemma_blocks_grow(partial_distances[q], query, centroids, d, q, vertical_d, horizontal_d, 0);
                lemma_below_threshold(ratios, d, prev_threshold, partial_d, partial_distances[q]);
                assert(positions.contains(p));
                let a = choose|a: int| 0 <= a < positions.len() && positions[a] == p;
                assert(!alone);
                assert(s0.positions.contains(p));
                assert(s1.positions.contains(p));
                lemma_below_threshold(ratios, d, prev_threshold, d, m(q));
                assert(s2.positions.contains(p));
                let b = choose|b: int| 0 <= b < s2.positions.len() && s2.positions[b] == p;
                assert(s2.distances[s2.positions[b] as int] == m(q));
            }
        }
    }
}

impl Refinement {
    /// The dimensions and tables fit together.
    pub open spec fn fits(self, i: int) -> bool {
        &&& 0 <= i
        &&& i * self.d + self.d <= self.x.len()
        &&& self.n_y * self.d <= self.y.len()
        &&& 0 < self.n_y <= 0x1_0000_0000
        &&& self.vertical_d + self.horizontal_d == self.d
        &&& self.partial_d <= self.vertical_d
    }

    pub open spec fn query(self, i: int) -> Seq<Single> {
        self.x.subrange(i * self.d, i * self.d + self.d)
    }

    /// The distance of query `i` and candidate `c` as the pruning search measures it to the end.
    pub open spec fn measured_distance(self, i: int, c: int) -> Single {
        measured(
            self.partial_distance(i, c),
            self.query(i),
            self.y,
            self.d as int,
            c,
            self.vertical_d as int,
            self.horizontal_d as int,
            self.partial_d as int,
        )
    }

    /// The distance of query `i` and candidate `c` as it is measured where the search starts.
    pub open spec fn known_distance(self, i: int, c: int) -> Single {
        let d = self.d as int;
        l2_distance(self.y.subrange(c * d, c * d + d), self.query(i))
    }
}

/// A row of a batch is a row of the whole.
pub(crate) proof fn lemma_block_of_batch(query: Seq<Single>, y: Seq<Single>, d: int, j: int, n: int, q: int, offset: int, size: int)
    requires
        0 <= q < n,
        0 <= d,
        0 <= j * d,
        j * d + n * d <= y.len(),
        0 <= offset,
        0 <= size,
        offset + size <= d,
    ensures
        block_distance(query, y.subrange(j * d, j * d + n * d), d, q, offset, size) == block_distance(
            query,
            y,
            d,
            j + q,
            offset,
            size,
        ),
{
    lemma_row(q, n, d);
    assert((j + q) * d == j * d + q * d) by (nonlinear_arith);
    assert(y.subrange(j * d, j * d + n * d).subrange(q * d + offset, q * d + offset + size) =~= y.subrange(
        (j + q) * d + offset,
        (j + q) * d + offset + size,
    ));
}

pub(crate) proof fn lemma_blocks_of_batch(
    start: Single,
    query: Seq<Single>,
    y: Seq<Single>,
    d: int,
    j: int,
    n: int,
    q: int,
    vertical_d: int,
    horizontal_d: int,
    done: int,
)
    requires
        0 <= q < n,
        0 <= d,
        0 <= j * d,
        j * d + n * d <= y.len(),
        0 <= vertical_d,
        0 <= done,
        vertical_d + horizontal_d <= d,
    ensures
        with_blocks(start, query, y.subrange(j * d, j * d + n * d), d, q, vertical_d, horizontal_d, done)
            == with_blocks(start, query, y, d, j + q, vertical_d, horizontal_d, done),
    decreases horizontal_d - done,
{
    if done < horizontal_d {
        let block = block_size(horizontal_d, done);
        lemma_block_of_batch(query, y, d, j, n, q, vertical_d + done, block);
        lemma_blocks_of_batch(
            start.plus(block_distance(query, y, d, j + q, vertical_d + done, block)),
            query,
            y,
            d,
            j,
            n,
            q,
            vertical_d,
            horizontal_d,
            done + block,
        );
    }
}

pub open spec fn clamped(v: Single) -> Single {
    v.larger(Single { bits: ZERO })
}

pub(crate) proof fn lemma_clamped(v: Single)
    ensures
        clamped(v).is_number(),
        clamped(v).order() >= 0,
        v.is_number() ==> clamped(v).order() == if v.order() < 0 {
            0
        } else {
            v.order()
        },
        v.is_number() && v.order() >= 0 ==> clamped(v) == v,
{
    lemma_ends();
    lemma_below(v, Single { bits: ZERO });
}

/// What one batch does to the best candidate.
pub(crate) proof fn lemma_tile(p: Refinement, i: int, s: Refined, j: int)
    requires
        p.fits(i),
        0 <= j < p.n_y,
        s.best.index < p.n_y,
    ensures
        ({
            let known = if j == 0 {
                p.known_distance(i, s.best.index as int)
            } else {
                s.best.distance
            };
            let r = p.with_tile(i, s, j).best;
            let n = tile(p.n_y as int, j);
            &&& (r.index == s.best.index && r.distance == clamped(known)) || (j <= r.index < j + n && r.distance
                == clamped(p.measured_distance(i, r.index as int)) && p.measured_distance(i, r.index as int).below(
                known,
            ))
            &&& known.is_number() && known.order() >= 0 ==> r.distance.is_number() && 0 <= r.distance.order()
                <= known.order()
            &&& generous(p.ratios, p.d as int, known) ==> forall|c: int|
                j <= c < j + n && c != s.best.index && (#[trigger] p.measured_distance(i, c)).is_finite()
                    ==> r.distance.order() <= clamped(p.measured_distance(i, c)).order()
        }),
{
    let d = p.d as int;
    let n = tile(p.n_y as int, j);
    let query = p.query(i);
    let batch = p.y.subrange(j * d, j * d + n * d);
    let known = if j == 0 {
        p.known_distance(i, s.best.index as int)
    } else {
        s.best.distance
    };
    let partial = Seq::new(n as nat, |c: int| p.partial_distance(i, j + c));
    let v = p.vertical_d as int;
    let h = p.horizontal_d as int;
    let e = p.partial_d as int;
    assert(0 <= j * d && j * d + n * d <= p.n_y * d) by (nonlinear_arith)
        requires
            0 <= j,
            0 <= d,
            j + n <= p.n_y,
    ;
    law_search_of_batch(p.ratios, query, batch, n as nat, d, v, h, partial, e, s.best.index, known, j);
    let m = |q: int| measured(partial[q], query, batch, d, q, v, h, e);
    assert forall|q: int| 0 <= q < n implies #[trigger] m(q) == p.measured_distance(i, j + q) by {
        lemma_blocks_of_batch(partial[q], query, p.y, d, j, n, q, v, h, 0);
        if e < v {
            lemma_block_of_batch(query, p.y, d, j, n, q, e, v - e);
        }
    }
    let found = p.found(i, s.best, j).top;
    lemma_clamped(found.distance);
    lemma_clamped(known);
    if found != (KnnCandidate { index: s.best.index, distance: known }) {
        let q = choose|q: int|
            0 <= q < n && found.index == j + q && found.distance == #[trigger] m(q) && m(q).below(known);
        assert(m(q) == p.measured_distance(i, j + q));
    }
    if generous(p.ratios, d, known) {
        assert forall|c: int|
            j <= c < j + n && c != s.best.index && (#[trigger] p.measured_distance(i, c)).is_finite() implies p.with_tile(
            i,
            s,
            j,
        ).best.distance.order() <= clamped(p.measured_distance(i, c)).order() by {
            assert(m(c - j) == p.measured_distance(i, c));
            lemma_clamped(p.measured_distance(i, c));
        }
    }
}

/// Where the search has come to before candidate `j`: still where it started, or at a candidate
/// that is nearer.
pub open spec fn no_worse(p: Refinement, i: int, index: u32, best: KnnCandidate, j: int) -> bool {
    let start = p.known_distance(i, index as int);
    &&& best.index < p.n_y
    &&& best.distance.is_number()
    &&& 0 <= best.distance.order() <= start.order()
    &&& (best.index == index && best.distance == start) || (best.index < j && best.distance == clamped(
        p.measured_distance(i, best.index as int),
    ) && p.measured_distance(i, best.index as int).below(start))
}

pub(crate) proof fn lemma_refined_from(p: Refinement, i: int, index: u32, s: Refined, j: int)
    requires
        p.fits(i),
        0 < j,
        p.known_distance(i, index as int).is_number(),
        no_worse(p, i, index, s.best, j),
    ensures
        no_worse(p, i, index, p.refined_from(i, s, j).best, if j < p.n_y {
            p.n_y as int
        } else {
            j
        }),
        p.refined_from(i, s, j).best.distance.order() <= s.best.distance.order(),
    decreases p.n_y - j,
{
    if j < p.n_y {
        let n = tile(p.n_y as int, j);
        let start = p.known_distance(i, index as int);
        law_distance_not_below_zero(
            p.y.subrange(index * p.d, index * p.d + p.d),
            p.query(i),
        );
        lemma_tile(p, i, s, j);
        lemma_clamped(s.best.distance);
        let next = p.with_tile(i, s, j);
        let v = p.measured_distance(i, next.best.index as int);
        lemma_below(v, s.best.distance);
        lemma_below(v, start);
        lemma_refined_from(p, i, index, next, j + n);
    }
}

/// The first batch starts from the distance as it is measured anew.
pub(crate) proof fn lemma_first_batch(p: Refinement, i: int, s: Refined)
    requires
        p.fits(i),
        s.best.index < p.n_y,
        p.known_distance(i, s.best.index as int).is_number(),
    ensures
        no_worse(p, i, s.best.index, p.with_tile(i, s, 0).best, tile(p.n_y as int, 0)),
{
    let start = p.known_distance(i, s.best.index as int);
    law_distance_not_below_zero(
        p.y.subrange(s.best.index * p.d, s.best.index * p.d + p.d),
        p.query(i),
    );
    lemma_tile(p, i, s, 0);
    lemma_clamped(start);
}

/// The pruning search over all batches never makes things worse: it ends where it started, or at a
/// candidate whose distance is measured to be smaller.
pub proof fn law_refinement_never_worse(p: Refinement, i: int, index: u32, distance: Single, count: nat)
    requires
        p.fits(i),
        index < p.n_y,
        p.known_distance(i, index as int).is_number(),
    ensures
        ({
            let r = p.refined(i, index, distance, count).best;
            let start = p.known_distance(i, index as int);
            &&& r.index < p.n_y
            &&& r.distance.is_number()
            &&& 0 <= r.distance.order() <= start.order()
            &&& (r.index == index && r.distance == start) || (r.distance == clamped(
                p.measured_distance(i, r.index as int),
            ) && p.measured_distance(i, r.index as int).below(start))
        }),
{
    let s = Refined { best: KnnCandidate { index, distance }, not_pruned: count };
    lemma_first_batch(p, i, s);
    lemma_refined_from(p, i, index, p.with_tile(i, s, 0), tile(p.n_y as int, 0));
}

/// The distance that was known before has no influence.
pub proof fn law_old_distance_has_no_influence(p: Refinement, i: int, index: u32, a: Single, b: Single, count: nat)
    requires
        p.n_y > 0,
    ensures
        p.refined(i, index, a, count) == p.refined(i, index, b, count),
{
    let s = Refined { best: KnnCandidate { index, distance: a }, not_pruned: count };
    let t = Refined { best: KnnCandidate { index, distance: b }, not_pruned: count };
    assert(p.with_tile(i, s, 0) == p.with_tile(i, t, 0));
}

proof fn lemma_lossless_from(p: Refinement, i: int, index: u32, s: Refined, j: int, c: int)
    requires
        p.fits(i),
        0 < j,
        no_worse(p, i, index, s.best, j),
        generous(p.ratios, p.d as int, p.known_distance(i, index as int)),
        j <= c < p.n_y,
        c != index,
        p.measured_distance(i, c).is_finite(),
    ensures
        p.refined_from(i, s, j).best.distance.order() <= clamped(p.measured_distance(i, c)).order(),
    decreases p.n_y - j,
{
    let n = tile(p.n_y as int, j);
    let start = p.known_distance(i, index as int);
    let next = p.with_tile(i, s, j);
    lemma_tile(p, i, s, j);
    lemma_clamped(s.best.distance);
    let v = p.measured_distance(i, next.best.index as int);
    lemma_below(v, s.best.distance);
    lemma_below(v, start);
    assert(generous(p.ratios, p.d as int, s.best.distance));
    if c < j + n {
        lemma_refined_from(p, i, index, next, j + n);
    } else {
        lemma_lossless_from(p, i, index, next, j + n, c);
    }
}

/// Where no ratio is below 1, pruning loses nothing: no candidate, measured to the end, is nearer
/// than the one that is found.
pub proof fn law_pruning_loses_nothing(p: Refinement, i: int, index: u32, distance: Single, count: nat, c: int)
    requires
        p.fits(i),
        index < p.n_y,
        generous(p.ratios, p.d as int, p.known_distance(i, index as int)),
        0 <= c < p.n_y,
        c != index,
        p.measured_distance(i, c).is_finite(),
    ensures
        p.refined(i, index, distance, count).best.distance.order() <= clamped(p.measured_distance(i, c)).order(),
{
    let s = Refined { best: KnnCandidate { index, distance }, not_pruned: count };
    let n = tile(p.n_y as int, 0);
    lemma_first_batch(p, i, s);
    lemma_tile(p, i, s, 0);
    if c < n {
        lemma_refined_from(p, i, index, p.with_tile(i, s, 0), n);
    } else {
        lemma_lossless_from(p, i, index, p.with_tile(i, s, 0), n, c);
    }
}

/// The blocks of whole rows are exact.
proof fn lemma_whole_blocks(
    start: Single,
    sum: int,
    x: Seq<Single>,
    v: Seq<int>,
    i: int,
    y: Seq<Single>,
    w: Seq<int>,
    c: int,
    d: int,
    vertical_d: int,
    horizontal_d: int,
    done: int,
    bound: int,
)
    requires
        whole_table(x, v, bound),
        whole_table(y, w, bound),
        bound >= 0,
        4 * bound * bound * d < 0x100_0000,
        0 <= i * d,
        i * d + d <= x.len(),
        0 <= c * d,
        c * d + d <= y.len(),
        0 <= vertical_d,
        0 <= done <= horizontal_d,
        vertical_d + horizontal_d == d,
        is_whole(start, sum),
        0 <= sum,
        sum + gap_sum(v, i * d, w, c * d, vertical_d + done, d) < 0x100_0000,
    ensures
        is_whole(
            with_blocks(start, x.subrange(i * d, i * d + d), y, d, c, vertical_d, horizontal_d, done),
            sum + gap_sum(v, i * d, w, c * d, vertical_d + done, d),
        ),
    decreases horizontal_d - done,
{
    let p = i * d;
    let q = c * d;
    if done < horizontal_d {
        let query = x.subrange(p, p + d);
        let block = block_size(horizontal_d, done);
        let from = vertical_d + done;
        let to = from + block;
        lemma_whole_part(x, v, p, y, w, q, from, to, bound, d);
        lemma_whole_part(x, v, p, y, w, q, to, d, bound, d);
        lemma_gap_split(v, p, w, q, from, to, d);
        assert(query.subrange(from, to) =~= x.subrange(p + from, p + to));
        let b = block_distance(query, y, d, c, from, block);
        let g = gap_sum(v, p, w, q, from, to);
        lemma_whole_plus(start, sum, b, g);
        lemma_whole_blocks(
            start.plus(b),
            sum + g,
            x,
            v,
            i,
            y,
            w,
            c,
            d,
            vertical_d,
            horizontal_d,
            done + block,
            bound,
        );
    }
}

/// The tables of a refinement hold integers short enough for exact distances, and the norms are
/// those of the first dimensions.
pub open spec fn on_integers(p: Refinement, vx: Seq<int>, vy: Seq<int>, bound: int, n_x: nat) -> bool {
    &&& whole_table(p.x, vx, bound)
    &&& whole_table(p.y, vy, bound)
    &&& bound >= 0
    &&& 4 * bound * bound * p.d < 0x100_0000
    &&& n_x * p.d <= p.x.len()
    &&& p.norms_x == partial_norms(p.x, n_x, p.d, p.partial_d)
    &&& p.norms_y == partial_norms(p.y, p.n_y, p.d, p.partial_d)
}

/// On short integers the pruning search measures exact distances, both at the start and to the end.
pub proof fn law_exact_on_integers(p: Refinement, vx: Seq<int>, vy: Seq<int>, bound: int, n_x: nat, i: int, c: int)
    requires
        on_integers(p, vx, vy, bound, n_x),
        p.fits(i),
        i < n_x,
        0 <= c < p.n_y,
    ensures
        ({
            let gap = gap_sum(vx, i * p.d, vy, c * p.d, 0, p.d as int);
            &&& is_whole(p.measured_distance(i, c), gap)
            &&& is_whole(p.known_distance(i, c), gap)
            &&& 0 <= gap < 0x100_0000
        }),
{
    let d = p.d as int;
    let e = p.partial_d as int;
    let v = p.vertical_d as int;
    let h = p.horizontal_d as int;
    let a = i * d;
    let b = c * d;
    lemma_row(i, n_x as int, d);
    lemma_row(c, p.n_y as int, d);
    let query = p.query(i);
    // The whole distance, from the other end.
    lemma_whole_part(p.y, vy, b, p.x, vx, a, 0, d, bound, d);
    lemma_gap_symmetric(vy, b, vx, a, 0, d);
    let gap = gap_sum(vx, a, vy, b, 0, d);
    // The first dimensions.
    lemma_room(bound, e, d);
    lemma_whole_dot(p.x, vx, p.y, vy, d, p.partial_d, i, c, bound, d);
    lemma_whole_norm(p.x, vx, a, p.partial_d, bound, d);
    lemma_whole_norm(p.y, vy, b, p.partial_d, bound, d);
    lemma_gap_expanded(vx, a, vy, b, p.partial_d);
    lemma_whole_from_dot(
        dot(p.x, p.y, d, p.partial_d, i, c),
        product_sum(vx, a, vy, b, p.partial_d),
        p.norms_x[i],
        product_sum(vx, a, vx, a, p.partial_d),
        p.norms_y[c],
        product_sum(vy, b, vy, b, p.partial_d),
        bound * bound * d,
    );
    // The blocks, and what is left.
    lemma_gap_split(vx, a, vy, b, 0, e, d);
    lemma_gap_split(vx, a, vy, b, e, v, d);
    lemma_whole_part(p.x, vx, a, p.y, vy, b, 0, e, bound, d);
    lemma_whole_part(p.x, vx, a, p.y, vy, b, e, v, bound, d);
    lemma_whole_part(p.x, vx, a, p.y, vy, b, v, d, bound, d);
    let first = gap_sum(vx, a, vy, b, 0, e);
    let blocks = gap_sum(vx, a, vy, b, v, d);
    lemma_whole_blocks(p.partial_distance(i, c), first, p.x, vx, i, p.y, vy, c, d, v, h, 0, bound);
    if e < v {
        assert(query.subrange(e, v) =~= p.x.subrange(a + e, a + v));
        lemma_whole_plus(
            with_blocks(p.partial_distance(i, c), query, p.y, d, c, v, h, 0),
            first + blocks,
            block_distance(query, p.y, d, c, e, v - e),
            gap_sum(vx, a, vy, b, e, v),
        );
    }
}

/// No ratio is below 1.
pub open spec fn ratios_from_one(ratios: Seq<Single>, d: int) -> bool {
    forall|t: int|
        0 <= t <= d ==> (#[trigger] ratios[t]).is_finite() && (Single { bits: ONE }).order() <= ratios[t].order()
}

/// On short integers, and where no ratio is below 1, the pruning search finds a nearest candidate
/// and its distance, wherever it starts from.
pub proof fn law_pruning_exact_on_integers(
    p: Refinement,
    vx: Seq<int>,
    vy: Seq<int>,
    bound: int,
    n_x: nat,
    i: int,
    index: u32,
    distance: Single,
    count: nat,
    c: int,
)
    requires
        on_integers(p, vx, vy, bound, n_x),
        p.fits(i),
        i < n_x,
        index < p.n_y,
        0 <= c < p.n_y,
        ratios_from_one(p.ratios, p.d as int),
    ensures
        ({
            let r = p.refined(i, index, distance, count).best;
            let gap = gap_sum(vx, i * p.d, vy, r.index * p.d, 0, p.d as int);
            &&& r.index < p.n_y
            &&& is_whole(r.distance, gap)
            &&& gap <= gap_sum(vx, i * p.d, vy, c * p.d, 0, p.d as int)
        }),
{
    let r = p.refined(i, index, distance, count).best;
    let start = p.known_distance(i, index as int);
    law_exact_on_integers(p, vx, vy, bound, n_x, i, index as int);
    law_exact_on_integers(p, vx, vy, bound, n_x, i, c);
    let at_index = gap_sum(vx, i * p.d, vy, index * p.d, 0, p.d as int);
    lemma_whole_order(start, at_index, start, at_index);
    assert(generous(p.ratios, p.d as int, start));
    law_refinement_never_worse(p, i, index, distance, count);
    law_exact_on_integers(p, vx, vy, bound, n_x, i, r.index as int);
    let gap = gap_sum(vx, i * p.d, vy, r.index * p.d, 0, p.d as int);
    let found = p.measured_distance(i, r.index as int);
    lemma_whole_order(found, gap, found, gap);
    lemma_clamped(found);
    assert(is_whole(r.distance, gap));
    let there = gap_sum(vx, i * p.d, vy, c * p.d, 0, p.d as int);
    if c == index {
        lemma_whole_order(r.distance, gap, start, at_index);
    } else {
        law_pruning_loses_nothing(p, i, index, distance, count, c);
        let m = p.measured_distance(i, c);
        lemma_whole_order(m, there, m, there);
        lemma_clamped(m);
        lemma_whole_order(r.distance, gap, m, there);
    }
}

/// On short integers, and where no ratio is below 1, the pruning search finds the same distance as
/// the search by products.
pub proof fn law_pruning_agrees_with_products(
    p: Refinement,
    full: Problem,
    vx: Seq<int>,
    vy: Seq<int>,
    bound: int,
    n_x: nat,
    i: int,
    index: u32,
    distance: Single,
    count: nat,
)
    requires
        on_integers(p, vx, vy, bound, n_x),
        p.fits(i),
        i < n_x,
        index < p.n_y,
        ratios_from_one(p.ratios, p.d as int),
        full == (Problem {
            x: p.x,
            y: p.y,
            n_y: p.n_y,
            d: p.d,
            norms_x: norms(p.x, n_x, p.d),
            norms_y: norms(p.y, p.n_y, p.d),
        }),
    ensures
        p.refined(i, index, distance, count).best.distance.order() == full.nearest(i).distance.order(),
{
    let r = p.refined(i, index, distance, count).best;
    let near = full.nearest(i);
    law_searches_agree_on_integers(full, vx, vy, bound, n_x, i);
    law_pruning_exact_on_integers(p, vx, vy, bound, n_x, i, index, distance, count, index as int);
    let gap = gap_sum(vx, i * p.d, vy, r.index * p.d, 0, p.d as int);
    let at = full.distance(i, r.index as int);
    assert(is_whole(at, gap));
    lemma_whole_order(at, gap, r.distance, gap);
    lemma_whole_order(r.distance, gap, at, gap);
    law_nearest_is_minimal(full, i, r.index as int);
    law_product_search_agrees(full, i);
    lemma_clamped(at);
    lemma_below(clamped(at), near.distance);
    law_exact_on_integers(p, vx, vy, bound, n_x, i, r.index as int);
    lemma_short_below_largest(r.distance, gap);
    lemma_ends();
    assert(near.distance.order() <= r.distance.order());
    // What the other search finds is one of the distances, and none is below what is found here.
    let c = near.index as int;
    law_pruning_exact_on_integers(p, vx, vy, bound, n_x, i, index, distance, count, c);
    let there = gap_sum(vx, i * p.d, vy, c * p.d, 0, p.d as int);
    let v = full.distance(i, c);
    assert(is_whole(v, there));
    lemma_whole_order(v, there, r.distance, gap);
    lemma_whole_order(r.distance, gap, v, there);
    lemma_clamped(v);
}

} // verus!
