//! Progressive top-1 nearest-neighbour search.
//!
//! Given the partial distances over the first `partial_d` dimensions, the search adds the
//! remaining dimensions in two phases: the horizontal ones in blocks of `H_DIM_SIZE`, then what
//! is left of the vertical ones. After each addition it drops the candidates that are no longer
//! below the threshold of the pruner.
use crate::adsampling::ADSamplingPruner;
use crate::common::{lemma_row, KnnCandidate, H_DIM_SIZE};
use crate::distance::{l2_distance, l2_squared};
use crate::single::Single;
use vstd::prelude::*;

verus! {

/// The indices below `n` whose distance is below the threshold, in order.
pub open spec fn survivors(distances: Seq<Single>, threshold: Single, n: nat) -> Seq<u32>
    decreases n,
{
    if n == 0 {
        Seq::empty()
    } else {
        let before = survivors(distances, threshold, (n - 1) as nat);
        if distances[n - 1].below(threshold) {
            before.push((n - 1) as u32)
        } else {
            before
        }
    }
}

/// The first `n` positions, without those whose distance is not below the threshold.
pub open spec fn kept(positions: Seq<u32>, distances: Seq<Single>, threshold: Single, n: nat) -> Seq<u32>
    decreases n,
{
    if n == 0 {
        Seq::empty()
    } else {
        let before = kept(positions, distances, threshold, (n - 1) as nat);
        let p = positions[n - 1];
        if distances[p as int].below(threshold) {
            before.push(p)
        } else {
            before
        }
    }
}

/// Strictly increasing positions below `n`.
pub open spec fn increasing(positions: Seq<u32>, n: int) -> bool {
    &&& forall|t: int| 0 <= t < positions.len() ==> #[trigger] positions[t] < n
    &&& forall|s: int, t: int|
        0 <= s < t < positions.len() ==> #[trigger] positions[s] < #[trigger] positions[t]
}

/// The squared distance of the query and row `i` over the `size` dimensions from `offset` on.
pub open spec fn block_distance(
    query: Seq<Single>,
    centroids: Seq<Single>,
    d: int,
    i: int,
    offset: int,
    size: int,
) -> Single {
    l2_distance(
        query.subrange(offset, offset + size),
        centroids.subrange(i * d + offset, i * d + offset + size),
    )
}

/// The distances with a block added at each of the positions.
pub open spec fn accumulated(
    distances: Seq<Single>,
    positions: Seq<u32>,
    query: Seq<Single>,
    centroids: Seq<Single>,
    d: int,
    offset: int,
    size: int,
) -> Seq<Single> {
    Seq::new(
        distances.len(),
        |i: int|
            if positions.contains(i as u32) {
                distances[i].plus(block_distance(query, centroids, d, i, offset, size))
            } else {
                distances[i]
            },
    )
}

/// The candidates that are left, and the distances as far as they are known.
#[verifier::ext_equal]
pub ghost struct Search {
    pub distances: Seq<Single>,
    pub positions: Seq<u32>,
}

impl Search {
    /// A block added, and the candidates at or above the threshold dropped.
    pub open spec fn narrowed(
        self,
        query: Seq<Single>,
        centroids: Seq<Single>,
        d: int,
        offset: int,
        size: int,
        threshold: Single,
    ) -> Search {
        let distances = accumulated(self.distances, self.positions, query, centroids, d, offset, size);
        Search { distances, positions: kept(self.positions, distances, threshold, self.positions.len()) }
    }
}

pub open spec fn block_size(horizontal_d: int, done: int) -> int {
    if horizontal_d - done < H_DIM_SIZE {
        horizontal_d - done
    } else {
        H_DIM_SIZE as int
    }
}

/// The horizontal phase, from the point where `done` of its dimensions are added.
pub open spec fn horizontal_phase(
    s: Search,
    query: Seq<Single>,
    centroids: Seq<Single>,
    d: int,
    vertical_d: int,
    horizontal_d: int,
    partial_d: int,
    ratios: Seq<Single>,
    best: Single,
    done: int,
) -> Search
    decreases horizontal_d - done,
{
    if s.positions.len() == 0 || done >= horizontal_d {
        s
    } else {
        let block = block_size(horizontal_d, done);
        horizontal_phase(
            s.narrowed(
                query,
                centroids,
                d,
                vertical_d + done,
                block,
                best.times(ratios[partial_d + done + block]),
            ),
            query,
            centroids,
            d,
            vertical_d,
            horizontal_d,
            partial_d,
            ratios,
            best,
            done + block,
        )
    }
}

/// The trailing phase: the vertical dimensions from `partial_d` on.
pub open spec fn vertical_phase(
    s: Search,
    query: Seq<Single>,
    centroids: Seq<Single>,
    d: int,
    vertical_d: int,
    partial_d: int,
    ratios: Seq<Single>,
    best: Single,
) -> Search {
    if s.positions.len() > 0 && partial_d < vertical_d {
        s.narrowed(query, centroids, d, partial_d, vertical_d - partial_d, best.times(ratios[d]))
    } else {
        s
    }
}

/// The best of `top` and the first `n` candidates; the earlier one where two are equal.
pub open spec fn best_of(
    top: KnnCandidate,
    positions: Seq<u32>,
    distances: Seq<Single>,
    offset: int,
    n: nat,
) -> KnnCandidate
    decreases n,
{
    if n == 0 {
        top
    } else {
        let before = best_of(top, positions, distances, offset, (n - 1) as nat);
        let p = positions[n - 1] as int;
        if distances[p].below(before.distance) {
            KnnCandidate { index: (offset + p) as u32, distance: distances[p] }
        } else {
            before
        }
    }
}

/// What the search finds: the best candidate, the number of candidates before the first block,
/// and the distances that it leaves.
pub ghost struct Found {
    pub top: KnnCandidate,
    pub not_pruned: nat,
    pub distances: Seq<Single>,
}

pub open spec fn top1_search(
    ratios: Seq<Single>,
    query: Seq<Single>,
    centroids: Seq<Single>,
    batch_n_y: nat,
    d: int,
    vertical_d: int,
    horizontal_d: int,
    partial_distances: Seq<Single>,
    partial_d: int,
    prev_top_1: u32,
    prev_threshold: Single,
    centroid_global_offset: int,
) -> Found {
    let top = KnnCandidate { index: prev_top_1, distance: prev_threshold };
    let positions = survivors(partial_distances, prev_threshold.times(ratios[partial_d]), batch_n_y);
    let not_pruned = positions.len();
    if positions.len() == 1 && centroid_global_offset + positions[0] == prev_top_1 {
        Found { top, not_pruned, distances: partial_distances }
    } else {
        let s0 = Search { distances: partial_distances, positions };
        let s1 = horizontal_phase(
            s0,
            query,
            centroids,
            d,
            vertical_d,
            horizontal_d,
            partial_d,
            ratios,
            prev_threshold,
            0,
        );
        let s2 = vertical_phase(s1, query, centroids, d, vertical_d, partial_d, ratios, prev_threshold);
        Found {
            top: best_of(top, s2.positions, s2.distances, centroid_global_offset, s2.positions.len()),
            not_pruned,
            distances: s2.distances,
        }
    }
}

pub(crate) proof fn lemma_survivors(distances: Seq<Single>, threshold: Single, n: nat)
    requires
        n <= 0x1_0000_0000,
    ensures
        increasing(survivors(distances, threshold, n), n as int),
        survivors(distances, threshold, n).len() <= n,
    decreases n,
{
    if n > 0 {
        lemma_survivors(distances, threshold, (n - 1) as nat);
    }
}

pub(crate) proof fn lemma_kept(positions: Seq<u32>, distances: Seq<Single>, threshold: Single, n: nat, bound: int)
    requires
        increasing(positions, bound),
        n <= positions.len(),
    ensures
        increasing(kept(positions, distances, threshold, n), bound),
        forall|t: int|
            0 <= t < kept(positions, distances, threshold, n).len() ==> n > 0
                && #[trigger] kept(positions, distances, threshold, n)[t] <= positions[n - 1],
    decreases n,
{
    if n > 0 {
        lemma_kept(positions, distances, threshold, (n - 1) as nat, bound);
    }
}

/// The best of all is the first or one of the candidates.
proof fn lemma_best_of(top: KnnCandidate, positions: Seq<u32>, distances: Seq<Single>, offset: int, n: nat, bound: int)
    requires
        increasing(positions, bound),
        n <= positions.len(),
        0 <= offset,
        offset + bound <= 0x1_0000_0000,
    ensures
        ({
            let r = best_of(top, positions, distances, offset, n);
            r == top || offset <= r.index < offset + bound
        }),
    decreases n,
{
    if n > 0 {
        lemma_best_of(top, positions, distances, offset, (n - 1) as nat, bound);
    }
}

pub(crate) proof fn lemma_horizontal_phase(
    s: Search,
    query: Seq<Single>,
    centroids: Seq<Single>,
    d: int,
    vertical_d: int,
    horizontal_d: int,
    partial_d: int,
    ratios: Seq<Single>,
    best: Single,
    done: int,
    bound: int,
)
    requires
        increasing(s.positions, bound),
    ensures
        increasing(
            horizontal_phase(s, query, centroids, d, vertical_d, horizontal_d, partial_d, ratios, best, done).positions,
            bound,
        ),
    decreases horizontal_d - done,
{
    if s.positions.len() > 0 && done < horizontal_d {
        let block = block_size(horizontal_d, done);
        let threshold = best.times(ratios[partial_d + done + block]);
        let next = s.narrowed(query, centroids, d, vertical_d + done, block, threshold);
        lemma_kept(s.positions, next.distances, threshold, s.positions.len(), bound);
        lemma_horizontal_phase(
            next,
            query,
            centroids,
            d,
            vertical_d,
            horizontal_d,
            partial_d,
            ratios,
            best,
            done + block,
            bound,
        );
    }
}

/// The search finds the candidate that it starts from or one of the batch.
pub proof fn law_found_in_batch(
    ratios: Seq<Single>,
    query: Seq<Single>,
    centroids: Seq<Single>,
    batch_n_y: nat,
    d: int,
    vertical_d: int,
    horizontal_d: int,
    partial_distances: Seq<Single>,
    partial_d: int,
    prev_top_1: u32,
    prev_threshold: Single,
    offset: int,
)
    requires
        0 <= offset,
        offset + batch_n_y <= 0x1_0000_0000,
    ensures
        ({
            let r = top1_search(
                ratios,
                query,
                centroids,
                batch_n_y,
                d,
                vertical_d,
                horizontal_d,
                partial_distances,
                partial_d,
                prev_top_1,
                prev_threshold,
                offset,
            ).top;
            r.index == prev_top_1 || offset <= r.index < offset + batch_n_y
        }),
{
    let bound = batch_n_y as int;
    let top = KnnCandidate { index: prev_top_1, distance: prev_threshold };
    let positions = survivors(partial_distances, prev_threshold.times(ratios[partial_d]), batch_n_y);
    lemma_survivors(partial_distances, prev_threshold.times(ratios[partial_d]), batch_n_y);
    let s0 = Search { distances: partial_distances, positions };
    let s1 = horizontal_phase(
        s0,
        query,
        centroids,
        d,
        vertical_d,
        horizontal_d,
        partial_d,
        ratios,
        prev_threshold,
        0,
    );
    lemma_horizontal_phase(
        s0,
        query,
        centroids,
        d,
        vertical_d,
        horizontal_d,
        partial_d,
        ratios,
        prev_threshold,
        0,
        bound,
    );
    let s2 = vertical_phase(s1, query, centroids, d, vertical_d, partial_d, ratios, prev_threshold);
    lemma_kept(
        s1.positions,
        accumulated(s1.distances, s1.positions, query, centroids, d, partial_d, vertical_d - partial_d),
        prev_threshold.times(ratios[d]),
        s1.positions.len(),
        bound,
    );
    lemma_best_of(top, s2.positions, s2.distances, offset, s2.positions.len(), bound);
}

/// Fills `positions` with the indices `i` where `distances[i] < threshold`, and returns how many
/// there are.
fn collect_survivors(distances: &[Single], threshold: Single, positions: &mut Vec<u32>) -> (count: usize)
    requires
        distances@.len() <= 0x1_0000_0000,
    ensures
        final(positions)@ == survivors(distances@, threshold, distances@.len()),
        count == final(positions)@.len(),
{
    positions.clear();
    let n: usize = distances.len();
    let mut i: usize = 0;
    while i < n
        invariant
            i <= n,
            n == distances@.len(),
            n <= 0x1_0000_0000,
            positions@ == survivors(distances@, threshold, i as nat),
        decreases n - i,
    {
        if distances[i].lt(threshold) {
            positions.push(i as u32);
        }
        i = i + 1;
    }
    positions.len()
}

/// Adds the dimensions from `offset` on to the distances at the positions.
fn add_block(
    query: &[Single],
    centroids: &[Single],
    d: usize,
    offset: usize,
    size: usize,
    distances: &mut [Single],
    positions: &Vec<u32>,
)
    requires
        offset + size <= d,
        d <= query@.len(),
        old(distances)@.len() * d <= centroids@.len(),
        old(distances)@.len() <= 0x1_0000_0000,
        increasing(positions@, old(distances)@.len() as int),
    ensures
        final(distances)@ == accumulated(
            old(distances)@,
            positions@,
            query@,
            centroids@,
            d as int,
            offset as int,
            size as int,
        ),
{
    let ghost start = distances@;
    let ghost n = distances@.len();
    let q_slice: &[Single] = &query[offset..offset + size];
    let mut t: usize = 0;
    assert(distances@ =~= accumulated(start, positions@.take(0), query@, centroids@, d as int, offset as int, size as int));
    while t < positions.len()
        invariant
            t <= positions@.len(),
            offset + size <= d,
            d <= query@.len(),
            n * d <= centroids@.len(),
            n == start.len(),
            n <= 0x1_0000_0000,
            increasing(positions@, n as int),
            q_slice@ == query@.subrange(offset as int, offset + size),
            distances@ == accumulated(start, positions@.take(t as int), query@, centroids@, d as int, offset as int, size as int),
        decreases positions@.len() - t,
    {
        let i: usize = positions[t] as usize;
        proof {
            lemma_row(i as int, n as int, d as int);
            assert(centroids@.len() <= usize::MAX) by {
                assert(centroids.len() <= usize::MAX);
            }
            assert(!positions@.take(t as int).contains(i as u32));
        }
        let row: &[Single] = &centroids[i * d + offset..i * d + offset + size];
        let ghost before = distances@;
        let x: Single = distances[i].add(l2_squared(q_slice, row));
        distances[i] = x;
        proof {
            let now = positions@.take(t + 1);
            let then = positions@.take(t as int);
            assert(now =~= then.push(i as u32));
            assert forall|k: int| 0 <= k < n implies #[trigger] distances@[k] == accumulated(start, now, query@, centroids@, d as int, offset as int, size as int)[k] by {
                if k == i {
                    assert(now[t as int] == k as u32);
                } else {
                    if then.contains(k as u32) {
                        let w = choose|w: int| 0 <= w < then.len() && then[w] == k as u32;
                        assert(now[w] == k as u32);
                    }
                    if now.contains(k as u32) {
                        let w = choose|w: int| 0 <= w < now.len() && now[w] == k as u32;
                        if w < t {
                            assert(then[w] == k as u32);
                        }
                    }
                }
            }
            assert(distances@ =~= accumulated(start, now, query@, centroids@, d as int, offset as int, size as int));
        }
        t = t + 1;
    }
    assert(positions@.take(t as int) =~= positions@);
}

/// Drops the positions whose distance is not below the threshold.
fn keep_below(distances: &[Single], threshold: Single, positions: &mut Vec<u32>)
    requires
        increasing(old(positions)@, distances@.len() as int),
    ensures
        final(positions)@ == kept(old(positions)@, distances@, threshold, old(positions)@.len()),
        increasing(final(positions)@, distances@.len() as int),
{
    let ghost start = positions@;
    let mut left: Vec<u32> = Vec::new();
    let n: usize = positions.len();
    let mut t: usize = 0;
    while t < n
        invariant
            t <= n,
            n == positions@.len(),
            positions@ == start,
            increasing(start, distances@.len() as int),
            left@ == kept(start, distances@, threshold, t as nat),
        decreases n - t,
    {
        let p: u32 = positions[t];
        if distances[p as usize].lt(threshold) {
            left.push(p);
        }
        t = t + 1;
    }
    proof {
        lemma_kept(start, distances@, threshold, n as nat, distances@.len() as int);
    }
    *positions = left;
}

/// Top-1 search for a single query against `batch_n_y` centroids stored
/// row-major in `centroids`. `partial_distances` already holds the partial L2
/// distances for the first `partial_d` dimensions; this function refines
/// those entries in place.
///
/// Returns `(best_candidate, initial_not_pruned)`.
pub fn top1_partial_search(
    pruner: &ADSamplingPruner,
    query: &[Single],
    centroids: &[Single],
    batch_n_y: usize,
    d: usize,
    vertical_d: usize,
    horizontal_d: usize,
    partial_distances: &mut [Single],
    partial_d: usize,
    prev_top_1: u32,
    prev_threshold: Single,
    centroid_global_offset: u32,
    positions_buf: &mut Vec<u32>,
) -> (r: (KnnCandidate, usize))
    requires
        old(partial_distances)@.len() == batch_n_y,
        centroid_global_offset + batch_n_y <= 0x1_0000_0000,
        vertical_d + horizontal_d == d,
        partial_d <= vertical_d,
        d <= query@.len(),
        batch_n_y * d <= centroids@.len(),
        pruner.ratios@.len() == d + 1,
    ensures
        ({
            let found = top1_search(
                pruner.ratios@,
                query@,
                centroids@,
                batch_n_y as nat,
                d as int,
                vertical_d as int,
                horizontal_d as int,
                old(partial_distances)@,
                partial_d as int,
                prev_top_1,
                prev_threshold,
                centroid_global_offset as int,
            );
            &&& r.0 == found.top
            &&& r.1 == found.not_pruned
            &&& final(partial_distances)@ == found.distances
        }),
        r.1 <= batch_n_y,
        final(positions_buf)@.len() == 0,
        r.0 == (KnnCandidate { index: prev_top_1, distance: prev_threshold }) || centroid_global_offset
            <= r.0.index < centroid_global_offset + batch_n_y,
{
    let mut top: KnnCandidate = KnnCandidate::new(prev_top_1, prev_threshold);
    let ghost start = partial_distances@;
    let ghost ratios = pruner.ratios@;
    let init_threshold: Single = pruner.pruning_threshold(&top, partial_d);
    let initial_not_pruned: usize = collect_survivors(&*partial_distances, init_threshold, positions_buf);
    proof {
        lemma_survivors(start, init_threshold, batch_n_y as nat);
    }
    // The only candidate is the previous best.
    if positions_buf.len() == 1 {
        let p: u32 = positions_buf[0];
        if centroid_global_offset + p == prev_top_1 {
            positions_buf.clear();
            return (top, initial_not_pruned);
        }
    }
    let ghost s0 = Search { distances: start, positions: positions_buf@ };
    let mut done: usize = 0;
    while positions_buf.len() > 0 && done < horizontal_d
        invariant
            done <= horizontal_d,
            vertical_d + horizontal_d == d,
            partial_d <= vertical_d,
            d <= query@.len(),
            batch_n_y * d <= centroids@.len(),
            batch_n_y <= 0x1_0000_0000,
            ratios == pruner.ratios@,
            ratios.len() == d + 1,
            top == (KnnCandidate { index: prev_top_1, distance: prev_threshold }),
            partial_distances@.len() == batch_n_y,
            increasing(positions_buf@, batch_n_y as int),
            horizontal_phase(
                Search { distances: partial_distances@, positions: positions_buf@ },
                query@,
                centroids@,
                d as int,
                vertical_d as int,
                horizontal_d as int,
                partial_d as int,
                ratios,
                prev_threshold,
                done as int,
            ) == horizontal_phase(
                s0,
                query@,
                centroids@,
                d as int,
                vertical_d as int,
                horizontal_d as int,
                partial_d as int,
                ratios,
                prev_threshold,
                0,
            ),
        decreases horizontal_d - done,
    {
        let block: usize = if horizontal_d - done < H_DIM_SIZE {
            horizontal_d - done
        } else {
            H_DIM_SIZE
        };
        add_block(query, centroids, d, vertical_d + done, block, partial_distances, positions_buf);
        done = done + block;
        let threshold: Single = pruner.pruning_threshold(&top, partial_d + done);
        keep_below(&*partial_distances, threshold, positions_buf);
    }
    if positions_buf.len() > 0 && partial_d < vertical_d {
        add_block(query, centroids, d, partial_d, vertical_d - partial_d, partial_distances, positions_buf);
        let threshold: Single = pruner.pruning_threshold(&top, d);
        keep_below(&*partial_distances, threshold, positions_buf);
    }
    let ghost first = top;
    let n: usize = positions_buf.len();
    let mut t: usize = 0;
    while t < n
        invariant
            t <= n,
            n == positions_buf@.len(),
            increasing(positions_buf@, batch_n_y as int),
            partial_distances@.len() == batch_n_y,
            centroid_global_offset + batch_n_y <= 0x1_0000_0000,
            top == best_of(first, positions_buf@, partial_distances@, centroid_global_offset as int, t as nat),
        decreases n - t,
    {
        let p: u32 = positions_buf[t];
        let dist: Single = partial_distances[p as usize];
        if dist.lt(top.distance) {
            top = KnnCandidate::new(centroid_global_offset + p, dist);
        }
        t = t + 1;
    }
    proof {
        lemma_best_of(
            first,
            positions_buf@,
            partial_distances@,
            centroid_global_offset as int,
            n as nat,
            batch_n_y as int,
        );
    }
    positions_buf.clear();
    (top, initial_not_pruned)
}

} // verus!
