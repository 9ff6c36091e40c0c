//! Timing, blob data, random vectors, and brute-force reference routines.
use crate::adsampling::{square_sum, sum_of_squares};
use crate::centroids::{normalize_rows, normalized};
use crate::common::{lemma_cell, lemma_row};
use crate::double::Double;
use crate::numbers::{
    law_plus_monotone, law_plus_nothing_smaller, law_plus_zero, law_times_commutes, law_times_monotone,
    law_times_not_below_zero, law_times_one, lemma_minus, lemma_nearest_single, lemma_one, lemma_order_of_values,
    lemma_positive_bits, lemma_unit,
};
use crate::rng::{word_draw, RandomStream};
use crate::single::{lemma_below, Single, LARGEST, ONE, ZERO};
use std::time::{Duration, Instant};
use vstd::arithmetic::power2::{lemma2_to64, lemma_pow2_strictly_increases, pow2};
use vstd::prelude::*;

verus! {

/// `std::time::Instant`: a point in time, of which nothing is known here.
#[verifier::external_type_specification]
#[verifier::external_body]
pub struct ExInstant(std::time::Instant);

/// `std::time::Instant::now`: the time of the call. Nothing is claimed of it.
pub assume_specification[ std::time::Instant::now ]() -> std::time::Instant
;

/// `std::time::Instant::elapsed`: the time since then. Nothing is claimed of it.
pub assume_specification[ std::time::Instant::elapsed ](instant: &std::time::Instant) -> std::time::Duration
;

/// `std::time::Duration::as_nanos`: the span in nanoseconds. Nothing is claimed of it, as nothing
/// is known of the span.
pub assume_specification[ std::time::Duration::as_nanos ](duration: &std::time::Duration) -> u128
;

/// The bits of one million in double precision.
pub const MILLION: u64 = 0x412e_8480_0000_0000;

/// Simple stopwatch.
pub struct TicToc {
    accum_ns: u128,
    start: Instant,
}

/// `time` is a time that a call of `Instant::now` gave.
pub open spec fn read_from_clock(time: Instant) -> bool {
    call_ensures(Instant::now, (), time)
}

/// `nanos` are the nanoseconds of a span that a call of `Instant::elapsed` gave for `start`.
pub open spec fn measured_since(start: Instant, nanos: u128) -> bool {
    exists|span: Duration|
        #[trigger] call_ensures(Instant::elapsed, (&start,), span) && call_ensures(
            Duration::as_nanos,
            (&span,),
            nanos,
        )
}

/// `gathered` and `nanos` together, as far as they can be counted.
pub open spec fn counted_together(gathered: u128, nanos: u128) -> int {
    if gathered + nanos > u128::MAX {
        u128::MAX as int
    } else {
        gathered + nanos
    }
}

/// So many nanoseconds in milliseconds.
pub open spec fn in_milliseconds(nanos: nat) -> Double {
    Double::from_nat(nanos).over(Double { bits: MILLION })
}

impl TicToc {
    /// The nanoseconds gathered so far.
    pub closed spec fn gathered(self) -> u128 {
        self.accum_ns
    }

    /// When the measurement started.
    pub closed spec fn started(self) -> Instant {
        self.start
    }

    pub fn new() -> (r: TicToc)
        ensures
            r.gathered() == 0,
            read_from_clock(r.started()),
    {
        TicToc { accum_ns: 0, start: Instant::now() }
    }

    /// Starts from zero, now.
    pub fn reset(&mut self)
        ensures
            final(self).gathered() == 0,
            read_from_clock(final(self).started()),
    {
        self.accum_ns = 0;
        self.start = Instant::now();
    }

    /// Starts to measure: the start becomes the time that the clock shows.
    pub fn tic(&mut self)
        ensures
            read_from_clock(final(self).started()),
            final(self).gathered() == old(self).gathered(),
    {
        self.start = Instant::now();
    }

    /// Gathers the time since the start, which stays where it is.
    pub fn toc(&mut self)
        ensures
            exists|nanos: u128| #[trigger]
                measured_since(old(self).started(), nanos) && final(self).gathered() == counted_together(
                    old(self).gathered(),
                    nanos,
                ),
            final(self).started() == old(self).started(),
            final(self).gathered() >= old(self).gathered(),
    {
        let elapsed: Duration = self.start.elapsed();
        let nanos: u128 = elapsed.as_nanos();
        assert(measured_since(old(self).started(), nanos));
        self.gather(nanos);
    }

    /// Gathers this many nanoseconds, as far as they can be counted.
    pub fn gather(&mut self, nanos: u128)
        ensures
            final(self).gathered() == counted_together(old(self).gathered(), nanos),
            final(self).started() == old(self).started(),
    {
        if u128::MAX - self.accum_ns < nanos {
            self.accum_ns = u128::MAX;
        } else {
            self.accum_ns = self.accum_ns + nanos;
        }
    }

    /// The time gathered so far, in milliseconds.
    pub fn milliseconds(&self) -> (r: Double)
        ensures
            r == Double::from_nat(self.gathered() as nat).over(Double { bits: MILLION }),
            r == in_milliseconds(self.gathered() as nat),
    {
        Double::from_wide_integer(self.accum_ns).div(Double { bits: MILLION })
    }
}

impl Default for TicToc {
    fn default() -> (r: Self)
        ensures
            r.gathered() == 0,
            read_from_clock(r.started()),
    {
        TicToc::new()
    }
}

/// Each row the centre that was chosen for it, with its own noise.
pub open spec fn blobs(centers: Seq<Single>, choices: Seq<usize>, noise: Seq<Single>, n: nat, d: nat) -> Seq<Single> {
    Seq::new(
        n * d,
        |x: int| centers[choices[x / (d as int)] * d + x % (d as int)].plus(noise[x]),
    )
}

/// The seed of row `i`: the one behind that of the row before it, round and round.
pub open spec fn row_seed(random_state: u64, i: int) -> u64 {
    let next = random_state + i + 1;
    (if next > u64::MAX {
        next - u64::MAX - 1
    } else {
        next
    }) as u64
}

/// The centre that is chosen for row `i`, from a stream of the row's own.
pub open spec fn chosen_center(random_state: u64, i: int, n_centers: nat) -> usize {
    RandomStream::start(row_seed(random_state, i)).drawn_choice(n_centers).0 as usize
}

pub open spec fn center_choices(random_state: u64, n: nat, n_centers: nat) -> Seq<usize> {
    Seq::new(n, |i: int| chosen_center(random_state, i, n_centers))
}

/// Chooses a centre for each row.
pub fn choose_centers(random_state: u64, n_samples: usize, n_centers: usize) -> (choices: Vec<usize>)
    requires
        n_centers > 0,
    ensures
        choices@ == center_choices(random_state, n_samples as nat, n_centers as nat),
        forall|i: int| 0 <= i < n_samples ==> #[trigger] choices@[i] < n_centers,
{
    let mut choices: Vec<usize> = Vec::new();
    let mut i: usize = 0;
    while i < n_samples
        invariant
            i <= n_samples,
            n_centers > 0,
            choices@ == center_choices(random_state, i as nat, n_centers as nat),
            forall|j: int| 0 <= j < i ==> #[trigger] choices@[j] < n_centers,
        decreases n_samples - i,
    {
        let seed: u64 = random_state.wrapping_add(i as u64 + 1);
        assert(seed == row_seed(random_state, i as int));
        let mut stream: RandomStream = RandomStream::new(seed);
        choices.push(stream.choice(n_centers));
        i = i + 1;
        assert(choices@ =~= center_choices(random_state, i as nat, n_centers as nat));
    }
    choices
}

/// Synthetic clusterable data: `n_samples` rows of width `n_features`, each a random one of the
/// centres plus noise, brought to length 1 where that is asked for. The centres and the noise,
/// which are normally distributed, are drawn by the caller.
pub fn make_blobs(
    n_samples: usize,
    n_features: usize,
    n_centers: usize,
    normalize: bool,
    centers: &[Single],
    noise: &[Single],
    random_state: u64,
) -> (data: Vec<Single>)
    requires
        n_features > 0,
        n_centers > 0,
        n_centers * n_features <= centers@.len(),
        n_samples * n_features <= noise@.len(),
    ensures
        ({
            let choices = center_choices(random_state, n_samples as nat, n_centers as nat);
            let plain = blobs(centers@, choices, noise@, n_samples as nat, n_features as nat);
            data@ == if normalize {
                normalized(plain, n_features as int, n_samples as int)
            } else {
                plain
            }
        }),
{
    let choices: Vec<usize> = choose_centers(random_state, n_samples, n_centers);
    arrange_blobs(n_samples, n_features, n_centers, normalize, centers, &choices, noise)
}

/// Rows around centres that have been chosen for them.
pub fn arrange_blobs(
    n_samples: usize,
    n_features: usize,
    n_centers: usize,
    normalize: bool,
    centers: &[Single],
    choices: &[usize],
    noise: &[Single],
) -> (data: Vec<Single>)
    requires
        n_features > 0,
        n_centers * n_features <= centers@.len(),
        n_samples <= choices@.len(),
        n_samples * n_features <= noise@.len(),
        forall|i: int| 0 <= i < n_samples ==> #[trigger] choices@[i] < n_centers,
    ensures
        data@ == if normalize {
            normalized(
                blobs(centers@, choices@, noise@, n_samples as nat, n_features as nat),
                n_features as int,
                n_samples as int,
            )
        } else {
            blobs(centers@, choices@, noise@, n_samples as nat, n_features as nat)
        },
{
    let d: usize = n_features;
    let ghost dd = d as int;
    let mut data: Vec<Single> = Vec::new();
    assert(noise.len() <= usize::MAX);
    assert(centers.len() <= usize::MAX);
    assert(data@ =~= blobs(centers@, choices@, noise@, 0, d as nat));
    let mut i: usize = 0;
    while i < n_samples
        invariant
            i <= n_samples,
            d == n_features,
            dd == d,
            d > 0,
            n_centers * d <= centers@.len() <= usize::MAX,
            n_samples <= choices@.len(),
            n_samples * d <= noise@.len() <= usize::MAX,
            forall|i: int| 0 <= i < n_samples ==> #[trigger] choices@[i] < n_centers,
            data@ == blobs(centers@, choices@, noise@, i as nat, d as nat),
        decreases n_samples - i,
    {
        let choice: usize = choices[i];
        proof {
            lemma_row(i as int, n_samples as int, dd);
            lemma_row(choice as int, n_centers as int, dd);
        }
        let base: usize = choice * d;
        let mut j: usize = 0;
        while j < d
            invariant
                j <= d,
                d == n_features,
                dd == d,
                i < n_samples,
                choice == choices@[i as int],
                base == choice * d,
                base + d <= centers@.len() <= usize::MAX,
                0 <= i * d,
                i * d + d <= noise@.len() <= usize::MAX,
                data@.len() == i * d + j,
                forall|x: int|
                    0 <= x < i * d + j ==> #[trigger] data@[x] == centers@[choices@[x / dd] * d + x % dd].plus(noise@[x]),
            decreases d - j,
        {
            proof {
                lemma_cell(i as int, j as int, dd);
            }
            data.push(centers[base + j].add(noise[i * d + j]));
            j = j + 1;
        }
        i = i + 1;
        assert(data@ =~= blobs(centers@, choices@, noise@, i as nat, d as nat));
    }
    if normalize {
        normalize_rows(&mut data, d, n_samples);
    }
    data
}

/// The bits of the largest number that a random word stands for, 1 - 2^-23.
pub const LARGEST_UNIT: u32 = 0x3f7f_fffe;

/// The largest factor up to `scale` that keeps all random numbers from `low` on below `high`.
pub open spec fn uniform_scale(low: Single, high: Single, scale: Single) -> Single
    decreases scale.bits,
{
    if scale.bits > 0 && scale.times(Single { bits: LARGEST_UNIT }).plus(low).at_least(high) {
        uniform_scale(low, high, Single { bits: (scale.bits - 1) as u32 })
    } else {
        scale
    }
}

/// The next `n` numbers from `low` up to `high`, and the stream behind them.
pub open spec fn uniform_numbers(stream: RandomStream, low: Single, scale: Single, n: nat) -> (Seq<Single>, RandomStream)
    decreases n,
{
    if n == 0 {
        (Seq::empty(), stream)
    } else {
        let (before, next) = uniform_numbers(stream, low, scale, (n - 1) as nat);
        let (r, last) = next.drawn_unit();
        (before.push(r.times(scale).plus(low)), last)
    }
}

/// The factor is finite, not below zero, and keeps all numbers below `high`.
proof fn lemma_uniform_scale(low: Single, high: Single, scale: Single)
    requires
        low.is_finite(),
        high.is_finite(),
        low.below(high),
        scale.bits < 0x7f80_0000,
    ensures
        ({
            let r = uniform_scale(low, high, scale);
            &&& r.bits < 0x7f80_0000
            &&& r.times(Single { bits: LARGEST_UNIT }).plus(low).below(high)
        }),
    decreases scale.bits,
{
    let top = Single { bits: LARGEST_UNIT };
    assert(0x3f7f_fffeu32 & 0x7fff_ffff == 0x3f7f_fffe) by (bit_vector);
    let b = scale.bits;
    assert(b < 0x7f80_0000 ==> b & 0x7fff_ffff == b) by (bit_vector);
    law_times_monotone(scale, scale, top);
    let x = scale.times(top);
    if scale.bits > 0 && x.plus(low).at_least(high) {
        lemma_uniform_scale(low, high, Single { bits: (scale.bits - 1) as u32 });
    } else {
        lemma_scaled_finite(scale);
        law_plus_monotone(x, x, low);
        lemma_below(x.plus(low), high);
        if scale.bits == 0 {
            lemma_nothing_added(scale, low);
            lemma_below(low, high);
        }
    }
}

/// A finite factor times a number below 1 is finite, and not below zero.
proof fn lemma_scaled_finite(scale: Single)
    requires
        scale.bits < 0x7f80_0000,
    ensures
        scale.times(Single { bits: LARGEST_UNIT }).is_finite(),
        0 <= scale.times(Single { bits: LARGEST_UNIT }).order() <= scale.order(),
        scale.is_finite(),
        scale.order() >= 0,
{
    let top = Single { bits: LARGEST_UNIT };
    let one = Single { bits: ONE };
    assert(0x3f7f_fffeu32 & 0x7fff_ffff == 0x3f7f_fffe) by (bit_vector);
    let b = scale.bits;
    assert(b < 0x7f80_0000 ==> b & 0x7fff_ffff == b) by (bit_vector);
    lemma_one();
    law_times_commutes(scale, top);
    law_times_commutes(scale, one);
    law_times_monotone(top, one, scale);
    law_times_one(scale);
    law_times_not_below_zero(scale, top);
}

/// Nothing times a number, added to `low`, leaves `low` where it is.
proof fn lemma_nothing_added(scale: Single, low: Single)
    requires
        scale.bits == 0,
        low.is_finite(),
    ensures
        scale.times(Single { bits: LARGEST_UNIT }).plus(low).order() == low.order(),
{
    lemma_scaled_finite(scale);
    assert(0u32 & 0x7fff_ffff == 0) by (bit_vector);
    law_plus_zero(scale.times(Single { bits: LARGEST_UNIT }), low);
}

proof fn lemma_uniform_numbers(stream: RandomStream, low: Single, high: Single, scale: Single, n: nat, i: int)
    requires
        low.is_finite(),
        high.is_finite(),
        scale.bits < 0x7f80_0000,
        scale.times(Single { bits: LARGEST_UNIT }).plus(low).below(high),
        0 <= i < n,
    ensures
        ({
            let x = uniform_numbers(stream, low, scale, n).0;
            x.len() == n && low.order() <= x[i].order() < high.order() && x[i].is_number()
        }),
    decreases n,
{
    let before = uniform_numbers(stream, low, scale, (n - 1) as nat);
    lemma_uniform_len(stream, low, scale, (n - 1) as nat);
    if i == n - 1 {
        let top = Single { bits: LARGEST_UNIT };
        let next = before.1;
        let r = next.drawn_unit().0;
        let word = word_draw(next.seed, next.position).0;
        lemma_unit((word / 512) as nat);
        assert(0x3f7f_fffeu32 & 0x7fff_ffff == 0x3f7f_fffe) by (bit_vector);
        lemma_scaled_finite(scale);
        law_times_monotone(r, top, scale);
        law_times_commutes(scale, top);
        law_times_not_below_zero(r, scale);
        let y = r.times(scale);
        let z = top.times(scale);
        assert(y.is_finite());
        law_plus_monotone(y, z, low);
        law_plus_nothing_smaller(y, low);
        lemma_below(z.plus(low), high);
    } else {
        lemma_uniform_numbers(stream, low, high, scale, (n - 1) as nat, i);
    }
}

proof fn lemma_uniform_len(stream: RandomStream, low: Single, scale: Single, n: nat)
    ensures
        uniform_numbers(stream, low, scale, n).0.len() == n,
    decreases n,
{
    if n > 0 {
        lemma_uniform_len(stream, low, scale, (n - 1) as nat);
    }
}

/// All random numbers from `low` to `high` lie there: at `low` or above it, and below `high`.
pub proof fn law_uniform_numbers_in_range(stream: RandomStream, low: Single, high: Single, n: nat, i: int)
    requires
        low.is_finite(),
        high.is_finite(),
        low.below(high),
        high.minus(low).is_finite(),
        0 <= i < n,
    ensures
        ({
            let x = uniform_numbers(stream, low, uniform_scale(low, high, high.minus(low)), n).0[i];
            low.order() <= x.order() < high.order() && x.is_number()
        }),
{
    let scale = high.minus(low);
    lemma_below(low, high);
    lemma_order_of_values(low, high);
    lemma_order_of_values(high, low);
    lemma_minus(high, low);
    let v = high.units() - low.units();
    lemma_nearest_single(v, v, 1);
    lemma_positive_bits(v);
    reveal(Single::minus);
    lemma_uniform_scale(low, high, scale);
    lemma_uniform_numbers(stream, low, high, uniform_scale(low, high, scale), n, i);
}

fn find_uniform_scale(low: Single, high: Single) -> (r: Single)
    ensures
        r == uniform_scale(low, high, high.minus(low)),
{
    let mut scale: Single = high.sub(low);
    let ghost goal = uniform_scale(low, high, scale);
    let largest: Single = Single { bits: LARGEST_UNIT };
    while scale.bits > 0 && scale.mul(largest).add(low).ge(high)
        invariant
            largest == (Single { bits: LARGEST_UNIT }),
            goal == uniform_scale(low, high, scale),
        decreases scale.bits,
    {
        scale = Single { bits: scale.bits - 1 };
    }
    scale
}

/// `n` random numbers from `low` up to, but not including, `high`.
pub fn random_vec_seeded(rng: &mut RandomStream, n: usize, low: Single, high: Single) -> (r: Vec<Single>)
    requires
        low.below(high),
        high.minus(low).is_finite(),
    ensures
        (r@, *final(rng)) == uniform_numbers(*old(rng), low, uniform_scale(low, high, high.minus(low)), n as nat),
        r@.len() == n,
{
    let scale: Single = find_uniform_scale(low, high);
    let ghost start = *rng;
    let mut r: Vec<Single> = Vec::new();
    assert(r@ =~= Seq::empty());
    let mut i: usize = 0;
    while i < n
        invariant
            i <= n,
            r@.len() == i,
            (r@, *rng) == uniform_numbers(start, low, scale, i as nat),
        decreases n - i,
    {
        let unit: Single = rng.unit();
        r.push(unit.mul(scale).add(low));
        i = i + 1;
    }
    r
}

/// `n` random vectors of width `d`, with entries from `min_val` up to `max_val`.
pub fn generate_random_vectors(n: usize, d: usize, min_val: Single, max_val: Single, seed: u64) -> (r: Vec<Single>)
    requires
        n * d <= usize::MAX,
        min_val.below(max_val),
        max_val.minus(min_val).is_finite(),
    ensures
        r@ == uniform_numbers(
            RandomStream::start(seed),
            min_val,
            uniform_scale(min_val, max_val, max_val.minus(min_val)),
            (n * d) as nat,
        ).0,
        r@.len() == n * d,
{
    assert(0 <= n * d) by (nonlinear_arith);
    let mut rng: RandomStream = RandomStream::new(seed);
    random_vec_seeded(&mut rng, n * d, min_val, max_val)
}

/// The smallest multiple of `m` that is not below `x`; `x` itself where `m` is 0.
pub open spec fn next_multiple(x: nat, m: nat) -> nat {
    if m == 0 {
        x
    } else {
        ((x + m - 1) as nat / m) * m
    }
}

pub fn ceil_to_multiple(x: u32, m: u32) -> (r: u32)
    requires
        next_multiple(x as nat, m as nat) <= u32::MAX,
    ensures
        r == next_multiple(x as nat, m as nat),
        m > 0 ==> r >= x && r - x < m && r % m == 0,
{
    if m == 0 {
        x
    } else {
        let q: u64 = (x as u64 + m as u64 - 1) / m as u64;
        proof {
            let y = x + m - 1;
            vstd::arithmetic::div_mod::lemma_fundamental_div_mod(y, m as int);
            vstd::arithmetic::div_mod::lemma_mod_bound(y, m as int);
            assert(q * m == m * q) by (nonlinear_arith);
            vstd::arithmetic::div_mod::lemma_mod_multiples_basic(q as int, m as int);
        }
        (q * m as u64) as u32
    }
}

pub fn is_power_of_two(x: u32) -> (r: bool)
    ensures
        r == exists|k: nat| x == pow2(k),
{
    proof {
        lemma2_to64();
        assert((x > 0 && x & ((x - 1) as u32) == 0) == (x == 0x1 || x == 0x2 || x == 0x4 || x == 0x8 || x == 0x10 || x == 0x20
            || x == 0x40 || x == 0x80 || x == 0x100 || x == 0x200 || x == 0x400 || x == 0x800 || x == 0x1000 || x
            == 0x2000 || x == 0x4000 || x == 0x8000 || x == 0x1_0000 || x == 0x2_0000 || x == 0x4_0000 || x
            == 0x8_0000 || x == 0x10_0000 || x == 0x20_0000 || x == 0x40_0000 || x == 0x80_0000 || x == 0x100_0000
            || x == 0x200_0000 || x == 0x400_0000 || x == 0x800_0000 || x == 0x1000_0000 || x == 0x2000_0000 || x
            == 0x4000_0000 || x == 0x8000_0000)) by (bit_vector);
    }
    let r: bool = x > 0 && (x & (x - 1)) == 0;
    proof {
        if r {
            assert(exists|k: nat| x == pow2(k)) by {
                if x < 0x1_0000 {
                    assert(x == pow2(0) || x == pow2(1) || x == pow2(2) || x == pow2(3) || x == pow2(4) || x == pow2(5) || x
                        == pow2(6) || x == pow2(7) || x == pow2(8) || x == pow2(9) || x == pow2(10) || x == pow2(11) || x
                        == pow2(12) || x == pow2(13) || x == pow2(14) || x == pow2(15));
                } else {
                    assert(x == pow2(16) || x == pow2(17) || x == pow2(18) || x == pow2(19) || x == pow2(20) || x == pow2(21)
                        || x == pow2(22) || x == pow2(23) || x == pow2(24) || x == pow2(25) || x == pow2(26) || x == pow2(27)
                        || x == pow2(28) || x == pow2(29) || x == pow2(30) || x == pow2(31));
                }
            }
        } else {
            assert forall|k: nat| x != pow2(k) by {
                if k > 32 {
                    lemma_pow2_strictly_increases(32, k);
                } else {
                    lemma_small_powers(k);
                }
            }
        }
    }
    r
}

/// The first powers of two.
proof fn lemma_small_powers(k: nat)
    requires
        k <= 32,
    ensures
        ({
            let p = pow2(k);
            ||| p == 0x1 || p == 0x2 || p == 0x4 || p == 0x8 || p == 0x10 || p == 0x20 || p == 0x40 || p == 0x80
            ||| p == 0x100 || p == 0x200 || p == 0x400 || p == 0x800 || p == 0x1000 || p == 0x2000 || p == 0x4000
            ||| p == 0x8000 || p == 0x1_0000 || p == 0x2_0000 || p == 0x4_0000 || p == 0x8_0000 || p == 0x10_0000
            ||| p == 0x20_0000 || p == 0x40_0000 || p == 0x80_0000 || p == 0x100_0000 || p == 0x200_0000
            ||| p == 0x400_0000 || p == 0x800_0000 || p == 0x1000_0000 || p == 0x2000_0000 || p == 0x4000_0000
            ||| p == 0x8000_0000 || p == 0x1_0000_0000
        }),
{
    lemma2_to64();
    assert(k == 0 || k == 1 || k == 2 || k == 3 || k == 4 || k == 5 || k == 6 || k == 7 || k == 8 || k == 9 || k == 10 || k
        == 11 || k == 12 || k == 13 || k == 14 || k == 15 || k == 16 || k == 17 || k == 18 || k == 19 || k == 20 || k == 21
        || k == 22 || k == 23 || k == 24 || k == 25 || k == 26 || k == 27 || k == 28 || k == 29 || k == 30 || k == 31 || k
        == 32);
}

/// The squared distance of two rows, their terms added up from the left.
pub open spec fn plain_distance(a: Seq<Single>, i: int, b: Seq<Single>, j: int, n: nat) -> Single
    decreases n,
{
    if n == 0 {
        Single { bits: ZERO }
    } else {
        let x = a[i + n - 1].minus(b[j + n - 1]);
        plain_distance(a, i, b, j, (n - 1) as nat).plus(x.times(x))
    }
}

fn measure_plainly(a: &[Single], i: usize, b: &[Single], j: usize, n: usize) -> (s: Single)
    requires
        i + n <= a@.len(),
        j + n <= b@.len(),
    ensures
        s == plain_distance(a@, i as int, b@, j as int, n as nat),
{
    assert(a.len() <= usize::MAX);
    assert(b.len() <= usize::MAX);
    let mut s: Single = Single { bits: ZERO };
    let mut t: usize = 0;
    while t < n
        invariant
            t <= n,
            i + n <= a@.len() <= usize::MAX,
            j + n <= b@.len() <= usize::MAX,
            s == plain_distance(a@, i as int, b@, j as int, t as nat),
        decreases n - t,
    {
        let x: Single = a[i + t].sub(b[j + t]);
        s = s.add(x.mul(x));
        t = t + 1;
    }
    s
}

/// Reference squared distance used in tests and for validation.
pub fn compute_l2_squared(a: &[Single], b: &[Single]) -> (s: Single)
    requires
        a@.len() == b@.len(),
    ensures
        s == plain_distance(a@, 0, b@, 0, a@.len()),
{
    measure_plainly(a, 0, b, 0, a.len())
}

/// Where row `i` of width `d` ends in data of length `len`.
pub open spec fn row_end(i: int, d: int, len: int) -> int {
    if i * d + d < len {
        i * d + d
    } else {
        len
    }
}

/// The squared norms of the first `n` rows. The last row of the data may be shorter; rows that the
/// data does not reach have norm 0.
pub fn compute_norms_row_major(data: &[Single], n: usize, d: usize) -> (out: Vec<Single>)
    requires
        d > 0,
    ensures
        out@ == Seq::new(
            n as nat,
            |i: int| sum_of_squares(data@, i * d, row_end(i, d as int, data@.len() as int)),
        ),
{
    let len: usize = data.len();
    let ghost goal = Seq::new(
        n as nat,
        |i: int| sum_of_squares(data@, i * d, row_end(i, d as int, data@.len() as int)),
    );
    let mut out: Vec<Single> = Vec::new();
    let mut at: usize = 0;
    let mut i: usize = 0;
    while i < n
        invariant
            i <= n,
            d > 0,
            len == data@.len(),
            goal == Seq::new(
                n as nat,
                |i: int| sum_of_squares(data@, i * d, row_end(i, d as int, data@.len() as int)),
            ),
            at == if i * d < len {
                i * d
            } else {
                len as int
            },
            out@ == goal.take(i as int),
        decreases n - i,
    {
        proof {
            lemma_row(i as int, n as int, d as int);
        }
        let end: usize = if len - at > d {
            at + d
        } else {
            len
        };
        out.push(square_sum(data, at, end));
        at = end;
        i = i + 1;
        assert(out@ =~= goal.take(i as int));
    }
    assert(out@ =~= goal);
    out
}

/// The nearest of the first `n` candidates, and how far it is; the first one where several are
/// equal.
pub open spec fn plain_nearest(x: Seq<Single>, y: Seq<Single>, d: nat, i: int, n: nat) -> (u32, Single)
    decreases n,
{
    if n == 0 {
        (0, Single { bits: LARGEST })
    } else {
        let before = plain_nearest(x, y, d, i, (n - 1) as nat);
        let dist = plain_distance(x, i * d, y, (n - 1) * d, d);
        if dist.below(before.1) {
            ((n - 1) as u32, dist)
        } else {
            before
        }
    }
}

pub fn find_nearest_neighbor_brute_force(
    x: &[Single],
    y: &[Single],
    n_x: usize,
    n_y: usize,
    d: usize,
    out_knn: &mut [u32],
    out_distances: &mut [Single],
)
    requires
        n_x * d <= x@.len(),
        n_y * d <= y@.len(),
        n_y <= 0x1_0000_0000,
        n_x <= old(out_knn)@.len(),
        n_x <= old(out_distances)@.len(),
    ensures
        final(out_knn)@ == Seq::new(
            old(out_knn)@.len(),
            |i: int|
                if i < n_x {
                    plain_nearest(x@, y@, d as nat, i, n_y as nat).0
                } else {
                    old(out_knn)@[i]
                },
        ),
        final(out_distances)@ == Seq::new(
            old(out_distances)@.len(),
            |i: int|
                if i < n_x {
                    plain_nearest(x@, y@, d as nat, i, n_y as nat).1
                } else {
                    old(out_distances)@[i]
                },
        ),
{
    let ghost knn0 = out_knn@;
    let ghost dist0 = out_distances@;
    assert(x.len() <= usize::MAX);
    assert(y.len() <= usize::MAX);
    let mut i: usize = 0;
    while i < n_x
        invariant
            i <= n_x,
            n_x * d <= x@.len() <= usize::MAX,
            n_y * d <= y@.len() <= usize::MAX,
            n_y <= 0x1_0000_0000,
            n_x <= knn0.len(),
            n_x <= dist0.len(),
            out_knn@.len() == knn0.len(),
            out_distances@.len() == dist0.len(),
            forall|q: int|
                0 <= q < i ==> #[trigger] out_knn@[q] == plain_nearest(x@, y@, d as nat, q, n_y as nat).0,
            forall|q: int|
                0 <= q < i ==> #[trigger] out_distances@[q] == plain_nearest(x@, y@, d as nat, q, n_y as nat).1,
            forall|q: int| i <= q < knn0.len() ==> #[trigger] out_knn@[q] == knn0[q],
            forall|q: int| i <= q < dist0.len() ==> #[trigger] out_distances@[q] == dist0[q],
        decreases n_x - i,
    {
        proof {
            lemma_row(i as int, n_x as int, d as int);
        }
        let mut best_dist: Single = Single { bits: LARGEST };
        let mut best_idx: u32 = 0;
        let mut j: usize = 0;
        while j < n_y
            invariant
                j <= n_y,
                n_y <= 0x1_0000_0000,
                0 <= i * d,
                i * d + d <= x@.len() <= usize::MAX,
                n_y * d <= y@.len() <= usize::MAX,
                (best_idx, best_dist) == plain_nearest(x@, y@, d as nat, i as int, j as nat),
            decreases n_y - j,
        {
            proof {
                lemma_row(j as int, n_y as int, d as int);
            }
            let dist: Single = measure_plainly(x, i * d, y, j * d, d);
            if dist.lt(best_dist) {
                best_dist = dist;
                best_idx = j as u32;
            }
            j = j + 1;
        }
        out_knn[i] = best_idx;
        out_distances[i] = best_dist;
        i = i + 1;
    }
    proof {
        assert(out_knn@ =~= Seq::new(
            knn0.len(),
            |i: int|
                if i < n_x {
                    plain_nearest(x@, y@, d as nat, i, n_y as nat).0
                } else {
                    knn0[i]
                },
        ));
        assert(out_distances@ =~= Seq::new(
            dist0.len(),
            |i: int|
                if i < n_x {
                    plain_nearest(x@, y@, d as nat, i, n_y as nat).1
                } else {
                    dist0[i]
                },
        ));
    }
}

} // verus!
