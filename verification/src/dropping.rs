//! Which candidates the pruning search drops: those, and only those, whose distance over the
//! dimensions that were added up so far is not below the best distance times the ratio for that
//! number of dimensions.
use crate::batch::{dot, tile, Refined, Refinement};
use crate::common::{lemma_row, KnnCandidate};
use crate::exact::{
    gap_sum, is_whole, lemma_gap_expanded, lemma_gap_split, lemma_room, lemma_whole_dot, lemma_whole_from_dot,
    lemma_whole_norm, lemma_whole_part, lemma_whole_plus, product_sum, whole_table,
};
use crate::numbers::law_times_monotone;
use crate::pdxearch::{
    block_distance, block_size, horizontal_phase, increasing, lemma_kept, lemma_survivors, survivors, top1_search,
    vertical_phase, Search,
};
use crate::pruning::{
    clamped, law_distance_not_below_zero, lemma_best, lemma_block_of_batch, lemma_blocks_of_batch, lemma_clamped,
    lemma_first_batch, lemma_refined_from, lemma_tile, measured, no_worse, on_integers, with_blocks,
};
use crate::searches::{count_below, law_kept_are_those_below, law_survivors_are_those_below};
use crate::single::{lemma_below, Single};
use vstd::prelude::*;

verus! {

/// A point at which candidates are dropped: after each 64 of the horizontal dimensions, and after
/// the last of them.
pub open spec fn is_stage(h: int, horizontal_d: int) -> bool {
    0 < h <= horizontal_d && (h % 64 == 0 || h == horizontal_d)
}

/// Row `i` stays below the thresholds of the stages behind `done`: with `h` horizontal dimensions
/// added up, `partial_d + h` dimensions have been seen, and the distance over them is below `best`
/// times the ratio for that many.
pub open spec fn stays(
    ratios: Seq<Single>,
    best: Single,
    start: Single,
    query: Seq<Single>,
    centroids: Seq<Single>,
    d: int,
    i: int,
    vertical_d: int,
    horizontal_d: int,
    partial_d: int,
    done: int,
) -> bool {
    forall|h: int|
        done < h && is_stage(h, horizontal_d) ==> (#[trigger] with_blocks(
            start,
            query,
            centroids,
            d,
            i,
            vertical_d,
            h,
            done,
        )).below(best.times(ratios[partial_d + h]))
}

/// Row `i` stays below every threshold, from the first dimensions to the end.
pub open spec fn passes(
    ratios: Seq<Single>,
    best: Single,
    start: Single,
    query: Seq<Single>,
    centroids: Seq<Single>,
    d: int,
    i: int,
    vertical_d: int,
    horizontal_d: int,
    partial_d: int,
) -> bool {
    &&& start.below(best.times(ratios[partial_d]))
    &&& stays(ratios, best, start, query, centroids, d, i, vertical_d, horizontal_d, partial_d, 0)
    &&& partial_d < vertical_d ==> measured(
        start,
        query,
        centroids,
        d,
        i,
        vertical_d,
        horizontal_d,
        partial_d,
    ).below(best.times(ratios[d]))
}

/// One block keeps exactly the candidates that are below the threshold with it.
proof fn lemma_narrowed_exactly(
    s: Search,
    query: Seq<Single>,
    centroids: Seq<Single>,
    d: int,
    offset: int,
    size: int,
    threshold: Single,
    bound: int,
)
    requires
        increasing(s.positions, bound),
        s.distances.len() == bound,
        bound <= 0x1_0000_0000,
    ensures
        ({
            let r = s.narrowed(query, centroids, d, offset, size, threshold);
            &&& increasing(r.positions, bound)
            &&& r.distances.len() == bound
            &&& forall|q: u32| #[trigger]
                r.positions.contains(q) <==> s.positions.contains(q) && s.distances[q as int].plus(
                    block_distance(query, centroids, d, q as int, offset, size),
                ).below(threshold)
            &&& forall|q: u32| #[trigger]
                s.positions.contains(q) ==> q < bound && r.distances[q as int] == s.distances[q as int].plus(
                    block_distance(query, centroids, d, q as int, offset, size),
                )
        }),
{
    let r = s.narrowed(query, centroids, d, offset, size, threshold);
    let n = s.positions.len();
    lemma_kept(s.positions, r.distances, threshold, n, bound);
    law_kept_are_those_below(s.positions, r.distances, threshold, n);
    assert(s.positions.take(n as int) =~= s.positions);
    assert forall|q: u32| #[trigger] s.positions.contains(q) implies q < bound && r.distances[q as int]
        == s.distances[q as int].plus(block_distance(query, centroids, d, q as int, offset, size)) by {
        let a = choose|a: int| 0 <= a < s.positions.len() && s.positions[a] == q;
        assert(s.positions[a] < bound);
        assert((q as int) as u32 == q);
    }
}

/// What one block more does to staying below the thresholds.
proof fn lemma_stays_step(
    ratios: Seq<Single>,
    best: Single,
    start: Single,
    query: Seq<Single>,
    centroids: Seq<Single>,
    d: int,
    i: int,
    vertical_d: int,
    horizontal_d: int,
    partial_d: int,
    done: int,
)
    requires
        0 <= done < horizontal_d,
        done % 64 == 0,
    ensures
        ({
            let block = block_size(horizontal_d, done);
            let next = start.plus(block_distance(query, centroids, d, i, vertical_d + done, block));
            &&& stays(ratios, best, start, query, centroids, d, i, vertical_d, horizontal_d, partial_d, done) <==> (
            next.below(best.times(ratios[partial_d + done + block])) && stays(
                ratios,
                best,
                next,
                query,
                centroids,
                d,
                i,
                vertical_d,
                horizontal_d,
                partial_d,
                done + block,
            ))
        }),
{
    let block = block_size(horizontal_d, done);
    let next = start.plus(block_distance(query, centroids, d, i, vertical_d + done, block));
    let first = done + block;
    assert(is_stage(first, horizontal_d));
    let now = with_blocks(start, query, centroids, d, i, vertical_d, first, done);
    assert(block_size(first, done) == block);
    assert(with_blocks(next, query, centroids, d, i, vertical_d, first, first) == next);
    assert(now == next);
    assert forall|h: int| first < h && is_stage(h, horizontal_d) implies #[trigger] with_blocks(
        start,
        query,
        centroids,
        d,
        i,
        vertical_d,
        h,
        done,
    ) == with_blocks(next, query, centroids, d, i, vertical_d, h, first) by {
        assert(block_size(h, done) == block);
    }
    let whole = stays(ratios, best, start, query, centroids, d, i, vertical_d, horizontal_d, partial_d, done);
    let rest = stays(ratios, best, next, query, centroids, d, i, vertical_d, horizontal_d, partial_d, first);
    if whole {
        assert(now.below(best.times(ratios[partial_d + first])));
        assert forall|h: int| first < h && is_stage(h, horizontal_d) implies (#[trigger] with_blocks(
            next,
            query,
            centroids,
            d,
            i,
            vertical_d,
            h,
            first,
        )).below(best.times(ratios[partial_d + h])) by {
            assert(with_blocks(start, query, centroids, d, i, vertical_d, h, done).below(best.times(ratios[partial_d + h])));
        }
    }
    if rest && next.below(best.times(ratios[partial_d + first])) {
        assert forall|h: int| done < h && is_stage(h, horizontal_d) implies (#[trigger] with_blocks(
            start,
            query,
            centroids,
            d,
            i,
            vertical_d,
            h,
            done,
        )).below(best.times(ratios[partial_d + h])) by {
            if h > first {
                assert(with_blocks(next, query, centroids, d, i, vertical_d, h, first).below(
                    best.times(ratios[partial_d + h]),
                ));
            } else {
                assert(h == first);
            }
        }
    }
}

/// The horizontal phase keeps exactly the candidates that stay below the thresholds.
proof fn lemma_horizontal_exactly(
    s: Search,
    query: Seq<Single>,
    centroids: Seq<Single>,
    d: int,
    vertical_d: int,
    horizontal_d: int,
    partial_d: int,
    ratios: Seq<Single>,
    best: Single,
    done: int,
    bound: int,
)
    requires
        increasing(s.positions, bound),
        s.distances.len() == bound,
        bound <= 0x1_0000_0000,
        0 <= done <= horizontal_d,
        done % 64 == 0 || done == horizontal_d,
    ensures
        ({
            let r = horizontal_phase(s, query, centroids, d, vertical_d, horizontal_d, partial_d, ratios, best, done);
            &&& increasing(r.positions, bound)
            &&& r.distances.len() == bound
            &&& forall|q: u32| #[trigger]
                r.positions.contains(q) <==> s.positions.contains(q) && stays(
                    ratios,
                    best,
                    s.distances[q as int],
                    query,
                    centroids,
                    d,
                    q as int,
                    vertical_d,
                    horizontal_d,
                    partial_d,
                    done,
                )
            &&& forall|q: u32| #[trigger]
                r.positions.contains(q) ==> r.distances[q as int] == with_blocks(
                    s.distances[q as int],
                    query,
                    centroids,
                    d,
                    q as int,
                    vertical_d,
                    horizontal_d,
                    done,
                )
        }),
    decreases horizontal_d - done,
{
    let r = horizontal_phase(s, query, centroids, d, vertical_d, horizontal_d, partial_d, ratios, best, done);
    if s.positions.len() > 0 && done < horizontal_d {
        let block = block_size(horizontal_d, done);
        let threshold = best.times(ratios[partial_d + done + block]);
        let next = s.narrowed(query, centroids, d, vertical_d + done, block, threshold);
        lemma_narrowed_exactly(s, query, centroids, d, vertical_d + done, block, threshold, bound);
        lemma_horizontal_exactly(
            next,
            query,
            centroids,
            d,
            vertical_d,
            horizontal_d,
            partial_d,
            ratios,
            best,
            done + block,
            bound,
        );
        assert forall|q: u32| #[trigger] r.positions.contains(q) <==> s.positions.contains(q) && stays(
            ratios,
            best,
            s.distances[q as int],
            query,
            centroids,
            d,
            q as int,
            vertical_d,
            horizontal_d,
            partial_d,
            done,
        ) by {
            lemma_stays_step(
                ratios,
                best,
                s.distances[q as int],
                query,
                centroids,
                d,
                q as int,
                vertical_d,
                horizontal_d,
                partial_d,
                done,
            );
            assert(next.positions.contains(q) ==> s.positions.contains(q));
        }
        assert forall|q: u32| #[trigger] r.positions.contains(q) implies r.distances[q as int] == with_blocks(
            s.distances[q as int],
            query,
            centroids,
            d,
            q as int,
            vertical_d,
            horizontal_d,
            done,
        ) by {
            assert(next.positions.contains(q));
            assert(s.positions.contains(q));
        }
    } else if s.positions.len() > 0 {
        assert forall|q: u32| #[trigger] s.positions.contains(q) implies stays(
            ratios,
            best,
            s.distances[q as int],
            query,
            centroids,
            d,
            q as int,
            vertical_d,
            horizontal_d,
            partial_d,
            done,
        ) by {}
    }
}

/// One batch, for any ratios. What is found is where the search started, or a candidate that stays
/// below every threshold and is nearer than that; and of all candidates that stay below every
/// threshold none is nearer than what is found. The candidates that are counted are those below the
/// first threshold.
pub proof fn law_dropped_only_above_thresholds(
    ratios: Seq<Single>,
    query: Seq<Single>,
    centroids: Seq<Single>,
    batch_n_y: nat,
    d: int,
    vertical_d: int,
    horizontal_d: int,
    partial_distances: Seq<Single>,
    partial_d: int,
    prev_top_1: u32,
    prev_threshold: Single,
    offset: int,
)
    requires
        0 <= offset,
        offset + batch_n_y <= 0x1_0000_0000,
        partial_distances.len() == batch_n_y,
        0 <= horizontal_d,
        prev_threshold.is_number(),
    ensures
        ({
            let found = top1_search(
                ratios,
                query,
                centroids,
                batch_n_y,
                d,
                vertical_d,
                horizontal_d,
                partial_distances,
                partial_d,
                prev_top_1,
                prev_threshold,
                offset,
            );
            let r = found.top;
            let m = |q: int| measured(
                partial_distances[q],
                query,
                centroids,
                d,
                q,
                vertical_d,
                horizontal_d,
                partial_d,
            );
            let below = |q: int| passes(
                ratios,
                prev_threshold,
                partial_distances[q],
                query,
                centroids,
                d,
                q,
                vertical_d,
                horizontal_d,
                partial_d,
            );
            &&& found.not_pruned == count_below(partial_distances, prev_threshold.times(ratios[partial_d]), batch_n_y)
            &&& r == (KnnCandidate { index: prev_top_1, distance: prev_threshold }) || exists|q: int|
                0 <= q < batch_n_y && r.index == offset + q && r.distance == m(q) && m(q).below(prev_threshold)
                    && #[trigger] below(q)
            &&& forall|q: int|
                0 <= q < batch_n_y && offset + q != prev_top_1 && #[trigger] below(q) && m(q).is_number()
                    ==> r.distance.order() <= m(q).order()
        }),
{
    let bound = batch_n_y as int;
    let top = KnnCandidate { index: prev_top_1, distance: prev_threshold };
    let first = prev_threshold.times(ratios[partial_d]);
    let positions = survivors(partial_distances, first, batch_n_y);
    lemma_survivors(partial_distances, first, batch_n_y);
    law_survivors_are_those_below(partial_distances, first, batch_n_y);
    let s0 = Search { distances: partial_distances, positions };
    let s1 = horizontal_phase(
        s0,
        query,
        centroids,
        d,
        vertical_d,
        horizontal_d,
        partial_d,
        ratios,
        prev_threshold,
        0,
    );
    lemma_horizontal_exactly(
        s0,
        query,
        centroids,
        d,
        vertical_d,
        horizontal_d,
        partial_d,
        ratios,
        prev_threshold,
        0,
        bound,
    );
    let s2 = vertical_phase(s1, query, centroids, d, vertical_d, partial_d, ratios, prev_threshold);
    let last = prev_threshold.times(ratios[d]);
    lemma_narrowed_exactly(s1, query, centroids, d, partial_d, vertical_d - partial_d, last, bound);
    let r = top1_search(
        ratios,
        query,
        centroids,
        batch_n_y,
        d,
        vertical_d,
        horizontal_d,
        partial_distances,
        partial_d,
        prev_top_1,
        prev_threshold,
        offset,
    ).top;
    let m = |q: int| measured(partial_distances[q], query, centroids, d, q, vertical_d, horizontal_d, partial_d);
    let below = |q: int| passes(
        ratios,
        prev_threshold,
        partial_distances[q],
        query,
        centroids,
        d,
        q,
        vertical_d,
        horizontal_d,
        partial_d,
    );
    lemma_best(top, s2.positions, s2.distances, offset, s2.positions.len());
    assert forall|q: u32| #[trigger] s2.positions.contains(q) <==> q < bound && below(q as int) by {
        assert(s0.positions.contains(q) <==> q < bound && partial_distances[q as int].below(first));
        assert(s1.positions.contains(q) ==> s0.positions.contains(q));
        if s1.positions.len() > 0 && partial_d < vertical_d {
            assert(s1.positions.contains(q) ==> s1.distances[q as int] == with_blocks(
                partial_distances[q as int],
                query,
                centroids,
                d,
                q as int,
                vertical_d,
                horizontal_d,
                0,
            ));
        }
    }
    assert forall|q: u32| #[trigger] s2.positions.contains(q) implies s2.distances[q as int] == m(q as int) by {
        assert(below(q as int));
        assert(s0.positions.contains(q));
        assert(s1.positions.contains(q));
    }
    let alone = positions.len() == 1 && offset + positions[0] == prev_top_1;
    if !alone && r != top {
        let t = choose|t: int|
            0 <= t < s2.positions.len() && r.index == (offset + #[trigger] s2.positions[t]) as u32 && r.distance
                == s2.distances[s2.positions[t] as int] && r.distance.below(top.distance);
        let q = s2.positions[t];
        assert(s2.positions.contains(q));
        assert(below(q as int));
    }
    assert forall|q: int|
        0 <= q < batch_n_y && offset + q != prev_top_1 && #[trigger] below(q) && m(q).is_number() implies r.distance.order()
        <= m(q).order() by {
        let p = q as u32;
        assert(s2.positions.contains(p));
        assert(positions.contains(p));
        let a = choose|a: int| 0 <= a < positions.len() && positions[a] == p;
        assert(!alone);
        let b = choose|b: int| 0 <= b < s2.positions.len() && s2.positions[b] == p;
        assert(s2.distances[s2.positions[b] as int] == m(q));
    }
}

impl Refinement {
    /// Candidate `c` stays below every threshold for query `i`, measured against `best`.
    pub open spec fn passes(self, i: int, c: int, best: Single) -> bool {
        passes(
            self.ratios,
            best,
            self.partial_distance(i, c),
            self.query(i),
            self.y,
            self.d as int,
            c,
            self.vertical_d as int,
            self.horizontal_d as int,
            self.partial_d as int,
        )
    }

    /// The best distance that the batch from `j` on starts with.
    pub open spec fn best_before(self, i: int, s: Refined, j: int) -> Single {
        if j == 0 {
            self.known_distance(i, s.best.index as int)
        } else {
            s.best.distance
        }
    }

    /// The distance of query `i` and candidate `c` over the first `partial_d` dimensions and `h` of
    /// the horizontal ones, as the search adds it up.
    pub open spec fn seen_distance(self, i: int, c: int, h: int) -> Single {
        with_blocks(
            self.partial_distance(i, c),
            self.query(i),
            self.y,
            self.d as int,
            c,
            self.vertical_d as int,
            h,
            0,
        )
    }
}

/// The ratios are finite and not below zero.
pub open spec fn usable(ratios: Seq<Single>, d: int) -> bool {
    forall|t: int| 0 <= t <= d ==> (#[trigger] ratios[t]).is_finite() && 0 <= ratios[t].order()
}

/// What is below a threshold is below that of a larger best distance.
proof fn lemma_threshold_grows(v: Single, a: Single, b: Single, ratio: Single)
    requires
        ratio.is_finite(),
        0 <= ratio.order(),
        a.is_finite(),
        b.is_finite(),
        a.order() <= b.order(),
        v.below(a.times(ratio)),
    ensures
        v.below(b.times(ratio)),
{
    law_times_monotone(a, b, ratio);
    lemma_below(v, a.times(ratio));
    lemma_below(v, b.times(ratio));
}

proof fn lemma_passes_grows(p: Refinement, i: int, c: int, a: Single, b: Single)
    requires
        usable(p.ratios, p.d as int),
        p.vertical_d + p.horizontal_d == p.d,
        p.partial_d <= p.vertical_d,
        a.is_finite(),
        b.is_finite(),
        a.order() <= b.order(),
        p.passes(i, c, a),
    ensures
        p.passes(i, c, b),
{
    let e = p.partial_d as int;
    lemma_threshold_grows(p.partial_distance(i, c), a, b, p.ratios[e]);
    assert forall|h: int| 0 < h && is_stage(h, p.horizontal_d as int) implies (#[trigger] with_blocks(
        p.partial_distance(i, c),
        p.query(i),
        p.y,
        p.d as int,
        c,
        p.vertical_d as int,
        h,
        0,
    )).below(b.times(p.ratios[e + h])) by {
        assert(p.ratios[e + h].is_finite());
        lemma_threshold_grows(
            with_blocks(p.partial_distance(i, c), p.query(i), p.y, p.d as int, c, p.vertical_d as int, h, 0),
            a,
            b,
            p.ratios[e + h],
        );
    }
    if e < p.vertical_d {
        assert(p.ratios[p.d as int].is_finite());
        lemma_threshold_grows(p.measured_distance(i, c), a, b, p.ratios[p.d as int]);
    }
}

/// A row of a batch passes where it passes among all.
proof fn lemma_passes_of_batch(p: Refinement, i: int, j: int, n: int, q: int, best: Single)
    requires
        p.fits(i),
        0 <= q < n,
        0 <= j,
        j + n <= p.n_y,
    ensures
        passes(
            p.ratios,
            best,
            p.partial_distance(i, j + q),
            p.query(i),
            p.y.subrange(j * p.d, j * p.d + n * p.d),
            p.d as int,
            q,
            p.vertical_d as int,
            p.horizontal_d as int,
            p.partial_d as int,
        ) <==> p.passes(i, j + q, best),
{
    let d = p.d as int;
    let v = p.vertical_d as int;
    let h = p.horizontal_d as int;
    let e = p.partial_d as int;
    let query = p.query(i);
    let start = p.partial_distance(i, j + q);
    let batch = p.y.subrange(j * d, j * d + n * d);
    assert(0 <= j * d && j * d + n * d <= p.n_y * d) by (nonlinear_arith)
        requires
            0 <= j,
            0 <= d,
            j + n <= p.n_y,
    ;
    assert forall|g: int| 0 < g && is_stage(g, h) implies with_blocks(start, query, batch, d, q, v, g, 0) == with_blocks(
        start,
        query,
        p.y,
        d,
        j + q,
        v,
        g,
        0,
    ) by {
        lemma_blocks_of_batch(start, query, p.y, d, j, n, q, v, g, 0);
    }
    lemma_blocks_of_batch(start, query, p.y, d, j, n, q, v, h, 0);
    if e < v {
        lemma_block_of_batch(query, p.y, d, j, n, q, e, v - e);
    }
    let a = stays(p.ratios, best, start, query, batch, d, q, v, h, e, 0);
    let b = stays(p.ratios, best, start, query, p.y, d, j + q, v, h, e, 0);
    if a {
        assert forall|g: int| 0 < g && is_stage(g, h) implies (#[trigger] with_blocks(
            start,
            query,
            p.y,
            d,
            j + q,
            v,
            g,
            0,
        )).below(best.times(p.ratios[e + g])) by {
            assert(with_blocks(start, query, batch, d, q, v, g, 0).below(best.times(p.ratios[e + g])));
        }
    }
    if b {
        assert forall|g: int| 0 < g && is_stage(g, h) implies (#[trigger] with_blocks(start, query, batch, d, q, v, g, 0)).below(
            best.times(p.ratios[e + g]),
        ) by {
            assert(with_blocks(start, query, p.y, d, j + q, v, g, 0).below(best.times(p.ratios[e + g])));
        }
    }
}

/// What one batch does, for any ratios.
proof fn lemma_tile_exactly(p: Refinement, i: int, s: Refined, j: int)
    requires
        p.fits(i),
        0 <= j < p.n_y,
        s.best.index < p.n_y,
    ensures
        ({
            let known = p.best_before(i, s, j);
            let r = p.with_tile(i, s, j).best;
            let n = tile(p.n_y as int, j);
            known.is_number() ==> {
                &&& (r.index == s.best.index && r.distance == clamped(known)) || (j <= r.index < j + n && p.passes(
                    i,
                    r.index as int,
                    known,
                ))
                &&& forall|c: int|
                    j <= c < j + n && c != s.best.index && #[trigger] p.passes(i, c, known) && p.measured_distance(
                        i,
                        c,
                    ).is_number() ==> r.distance.order() <= clamped(p.measured_distance(i, c)).order()
            }
        }),
{
    let d = p.d as int;
    let n = tile(p.n_y as int, j);
    let query = p.query(i);
    let batch = p.y.subrange(j * d, j * d + n * d);
    let known = p.best_before(i, s, j);
    let partial = Seq::new(n as nat, |c: int| p.partial_distance(i, j + c));
    let v = p.vertical_d as int;
    let h = p.horizontal_d as int;
    let e = p.partial_d as int;
    if known.is_number() {
        assert(0 <= j * d && j * d + n * d <= p.n_y * d) by (nonlinear_arith)
            requires
                0 <= j,
                0 <= d,
                j + n <= p.n_y,
        ;
        law_dropped_only_above_thresholds(p.ratios, query, batch, n as nat, d, v, h, partial, e, s.best.index, known, j);
        let m = |q: int| measured(partial[q], query, batch, d, q, v, h, e);
        let below = |q: int| passes(p.ratios, known, partial[q], query, batch, d, q, v, h, e);
        assert forall|q: int| 0 <= q < n implies #[trigger] below(q) == p.passes(i, j + q, known) && m(q)
            == p.measured_distance(i, j + q) by {
            lemma_passes_of_batch(p, i, j, n, q, known);
            lemma_blocks_of_batch(partial[q], query, p.y, d, j, n, q, v, h, 0);
            if e < v {
                lemma_block_of_batch(query, p.y, d, j, n, q, e, v - e);
            }
        }
        let found = p.found(i, s.best, j).top;
        lemma_clamped(found.distance);
        lemma_clamped(known);
        let r = p.with_tile(i, s, j).best;
        if found != (KnnCandidate { index: s.best.index, distance: known }) {
            let q = choose|q: int|
                0 <= q < n && found.index == j + q && found.distance == m(q) && m(q).below(known) && #[trigger] below(q);
            assert(p.passes(i, j + q, known));
        }
        assert forall|c: int|
            j <= c < j + n && c != s.best.index && #[trigger] p.passes(i, c, known) && p.measured_distance(
                i,
                c,
            ).is_number() implies r.distance.order() <= clamped(p.measured_distance(i, c)).order() by {
            assert(below(c - j) == p.passes(i, j + (c - j), known));
            lemma_clamped(p.measured_distance(i, c));
            lemma_below(found.distance, known);
        }
    }
}

proof fn lemma_found_from(p: Refinement, i: int, index: u32, s: Refined, j: int, c: int)
    requires
        p.fits(i),
        usable(p.ratios, p.d as int),
        p.known_distance(i, index as int).is_finite(),
        0 < j,
        no_worse(p, i, index, s.best, j),
        s.best.index == index || p.passes(i, s.best.index as int, p.known_distance(i, index as int)),
    ensures
        ({
            let r = p.refined_from(i, s, j).best;
            &&& r.index == index || p.passes(i, r.index as int, p.known_distance(i, index as int))
            &&& j <= c < p.n_y && c != index && p.passes(i, c, r.distance) && p.measured_distance(i, c).is_number()
                ==> r.distance.order() <= clamped(p.measured_distance(i, c)).order()
        }),
    decreases p.n_y - j,
{
    if j < p.n_y {
        let n = tile(p.n_y as int, j);
        let start = p.known_distance(i, index as int);
        let next = p.with_tile(i, s, j);
        lemma_tile(p, i, s, j);
        lemma_tile_exactly(p, i, s, j);
        lemma_clamped(s.best.distance);
        let v = p.measured_distance(i, next.best.index as int);
        lemma_below(v, s.best.distance);
        lemma_below(v, start);
        if next.best.index != s.best.index {
            lemma_passes_grows(p, i, next.best.index as int, s.best.distance, start);
        }
        if next.best.index == s.best.index && next.best.index != index {
            assert(p.passes(i, next.best.index as int, start));
        }
        assert(no_worse(p, i, index, next.best, j + n));
        lemma_found_from(p, i, index, next, j + n, c);
        lemma_refined_from(p, i, index, next, j + n);
        let r = p.refined_from(i, s, j).best;
        if j <= c < j + n && c != index && p.passes(i, c, r.distance) && p.measured_distance(i, c).is_number() {
            lemma_passes_grows(p, i, c, r.distance, s.best.distance);
            assert(p.passes(i, c, s.best.distance));
            assert(p.passes(i, c, p.best_before(i, s, j)));
        }
    }
}

/// The pruning search over all batches, for any ratios: what is found is where the search started,
/// or a candidate that stays below every threshold; and no other candidate that stays below every
/// threshold, measured against what is found, is nearer.
pub proof fn law_pruning_finds_what_passes(p: Refinement, i: int, index: u32, distance: Single, count: nat, c: int)
    requires
        p.fits(i),
        index < p.n_y,
        usable(p.ratios, p.d as int),
        p.known_distance(i, index as int).is_finite(),
        0 <= c < p.n_y,
        c != index,
        p.measured_distance(i, c).is_number(),
    ensures
        ({
            let r = p.refined(i, index, distance, count).best;
            &&& r.index == index || p.passes(i, r.index as int, p.known_distance(i, index as int))
            &&& p.passes(i, c, r.distance) ==> r.distance.order() <= clamped(p.measured_distance(i, c)).order()
        }),
{
    let s = Refined { best: KnnCandidate { index, distance }, not_pruned: count };
    let n = tile(p.n_y as int, 0);
    let start = p.known_distance(i, index as int);
    let next = p.with_tile(i, s, 0);
    law_distance_not_below_zero(p.y.subrange(index * p.d, index * p.d + p.d), p.query(i));
    lemma_first_batch(p, i, s);
    lemma_tile_exactly(p, i, s, 0);
    lemma_clamped(start);
    lemma_found_from(p, i, index, next, n, c);
    lemma_refined_from(p, i, index, next, n);
    let r = p.refined(i, index, distance, count).best;
    if c < n && p.passes(i, c, r.distance) {
        lemma_passes_grows(p, i, c, r.distance, start);
        assert(p.passes(i, c, p.best_before(i, s, 0)));
    }
}

/// Blocks of whole rows up to any number of horizontal dimensions.
proof fn lemma_whole_blocks_to(
    start: Single,
    sum: int,
    x: Seq<Single>,
    v: Seq<int>,
    i: int,
    y: Seq<Single>,
    w: Seq<int>,
    c: int,
    d: int,
    vertical_d: int,
    h: int,
    done: int,
    bound: int,
)
    requires
        whole_table(x, v, bound),
        whole_table(y, w, bound),
        bound >= 0,
        4 * bound * bound * d < 0x100_0000,
        0 <= i * d,
        i * d + d <= x.len(),
        0 <= c * d,
        c * d + d <= y.len(),
        0 <= vertical_d,
        0 <= done <= h,
        vertical_d + h <= d,
        is_whole(start, sum),
        0 <= sum,
        sum + gap_sum(v, i * d, w, c * d, vertical_d + done, vertical_d + h) < 0x100_0000,
    ensures
        is_whole(
            with_blocks(start, x.subrange(i * d, i * d + d), y, d, c, vertical_d, h, done),
            sum + gap_sum(v, i * d, w, c * d, vertical_d + done, vertical_d + h),
        ),
    decreases h - done,
{
    let p = i * d;
    let q = c * d;
    if done < h {
        let query = x.subrange(p, p + d);
        let block = block_size(h, done);
        let from = vertical_d + done;
        let to = from + block;
        let end = vertical_d + h;
        lemma_whole_part(x, v, p, y, w, q, from, to, bound, d);
        lemma_whole_part(x, v, p, y, w, q, to, end, bound, d);
        lemma_gap_split(v, p, w, q, from, to, end);
        assert(query.subrange(from, to) =~= x.subrange(p + from, p + to));
        let b = block_distance(query, y, d, c, from, block);
        let g = gap_sum(v, p, w, q, from, to);
        lemma_whole_plus(start, sum, b, g);
        lemma_whole_blocks_to(start.plus(b), sum + g, x, v, i, y, w, c, d, vertical_d, h, done + block, bound);
    }
}

/// On short integers, the distance over the dimensions that have been seen is exact: the squared
/// differences over the first `partial_d` dimensions and over the `h` horizontal ones.
pub proof fn law_seen_on_integers(p: Refinement, vx: Seq<int>, vy: Seq<int>, bound: int, n_x: nat, i: int, c: int, h: int)
    requires
        on_integers(p, vx, vy, bound, n_x),
        p.fits(i),
        i < n_x,
        0 <= c < p.n_y,
        0 <= h <= p.horizontal_d,
    ensures
        is_whole(
            p.seen_distance(i, c, h),
            gap_sum(vx, i * p.d, vy, c * p.d, 0, p.partial_d as int) + gap_sum(
                vx,
                i * p.d,
                vy,
                c * p.d,
                p.vertical_d as int,
                p.vertical_d + h,
            ),
        ),
        is_whole(p.partial_distance(i, c), gap_sum(vx, i * p.d, vy, c * p.d, 0, p.partial_d as int)),
{
    let d = p.d as int;
    let e = p.partial_d as int;
    let v = p.vertical_d as int;
    let a = i * d;
    let b = c * d;
    lemma_row(i, n_x as int, d);
    lemma_row(c, p.n_y as int, d);
    lemma_room(bound, e, d);
    lemma_whole_dot(p.x, vx, p.y, vy, d, p.partial_d, i, c, bound, d);
    lemma_whole_norm(p.x, vx, a, p.partial_d, bound, d);
    lemma_whole_norm(p.y, vy, b, p.partial_d, bound, d);
    lemma_gap_expanded(vx, a, vy, b, p.partial_d);
    lemma_whole_from_dot(
        dot(p.x, p.y, d, p.partial_d, i, c),
        product_sum(vx, a, vy, b, p.partial_d),
        p.norms_x[i],
        product_sum(vx, a, vx, a, p.partial_d),
        p.norms_y[c],
        product_sum(vy, b, vy, b, p.partial_d),
        bound * bound * d,
    );
    lemma_gap_split(vx, a, vy, b, 0, e, d);
    lemma_gap_split(vx, a, vy, b, e, v, d);
    lemma_gap_split(vx, a, vy, b, v, v + h, d);
    lemma_whole_part(p.x, vx, a, p.y, vy, b, 0, d, bound, d);
    lemma_whole_part(p.x, vx, a, p.y, vy, b, 0, e, bound, d);
    lemma_whole_part(p.x, vx, a, p.y, vy, b, e, v, bound, d);
    lemma_whole_part(p.x, vx, a, p.y, vy, b, v, v + h, bound, d);
    lemma_whole_part(p.x, vx, a, p.y, vy, b, v + h, d, bound, d);
    lemma_whole_blocks_to(
        p.partial_distance(i, c),
        gap_sum(vx, a, vy, b, 0, e),
        p.x,
        vx,
        i,
        p.y,
        vy,
        c,
        d,
        v,
        h,
        0,
        bound,
    );
}

} // verus!
