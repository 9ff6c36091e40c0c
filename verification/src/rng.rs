//! Reproducible random numbers.
//!
//! A stream is a seed and a position in the words that ChaCha with eight rounds makes from it,
//! so what is drawn is a function of plain values.
use crate::single::{Single, EPSILON};
use rand::{Rng, RngCore, SeedableRng};
use rand_chacha::ChaCha8Rng;
use rand_distr::{Distribution, Uniform, WeightedIndex};
use vstd::prelude::*;

verus! {

/// What `gen_range(0..=last)` draws from the stream of `seed` at `position`, and the position
/// behind the words that it took.
pub uninterp spec fn index_draw(seed: u64, position: u128, last: u64) -> (u64, u128);

/// The word of the stream of `seed` at `position`, and the position behind it.
pub uninterp spec fn word_draw(seed: u64, position: u128) -> (u32, u128);

/// What a `Uniform` over the numbers below `n` draws from the stream of `seed` at `position`, and
/// the position behind the words that it took.
pub uninterp spec fn choice_draw(seed: u64, position: u128, n: u64) -> (u64, u128);

/// The index that a `WeightedIndex` over `weights` draws from the stream of `seed` at `position`,
/// and the position behind the words that it took.
pub uninterp spec fn weighted_draw(seed: u64, position: u128, weights: Seq<u32>) -> (usize, u128);

pub open spec fn total_weight(weights: Seq<u32>) -> nat
    decreases weights.len(),
{
    if weights.len() == 0 {
        0
    } else {
        total_weight(weights.drop_last()) + weights.last() as nat
    }
}

/// `rand::Rng::gen_range` over `0..=last` on a `rand_chacha::ChaCha8Rng` made by `seed_from_u64`
/// and moved by `set_word_pos`; `get_word_pos` tells where the draw ended. The number drawn is in
/// the range, and it depends on the seed, the position and the range alone.
#[verifier::external_body]
fn chacha_index(seed: u64, position: u128, last: u64) -> (r: (u64, u128))
    ensures
        r == index_draw(seed, position, last),
        r.0 <= last,
{
    let mut rng = ChaCha8Rng::seed_from_u64(seed);
    rng.set_word_pos(position);
    let value: u64 = rng.gen_range(0..=last);
    (value, rng.get_word_pos())
}

/// `rand::RngCore::next_u32` on a `rand_chacha::ChaCha8Rng` made by `seed_from_u64` and moved by
/// `set_word_pos`; `get_word_pos` tells where the draw ended. The word depends on the seed and the
/// position alone.
#[verifier::external_body]
fn chacha_word(seed: u64, position: u128) -> (r: (u32, u128))
    ensures
        r == word_draw(seed, position),
{
    let mut rng = ChaCha8Rng::seed_from_u64(seed);
    rng.set_word_pos(position);
    let value: u32 = rng.next_u32();
    (value, rng.get_word_pos())
}

/// `rand_distr::Uniform::new` over `0..n` and `sample` on a `rand_chacha::ChaCha8Rng` made by
/// `seed_from_u64` and moved by `set_word_pos`; `get_word_pos` tells where the draw ended. The
/// number is below `n`, and depends on the seed, the position and `n` alone. There must be a number
/// below `n`.
#[verifier::external_body]
fn chacha_choice(seed: u64, position: u128, n: u64) -> (r: (u64, u128))
    requires
        n > 0,
    ensures
        r == choice_draw(seed, position, n),
        r.0 < n,
{
    let mut rng = ChaCha8Rng::seed_from_u64(seed);
    rng.set_word_pos(position);
    let distribution = Uniform::new(0u64, n);
    let value: u64 = distribution.sample(&mut rng);
    (value, rng.get_word_pos())
}

/// `rand_distr::WeightedIndex::new` and `sample` on a `rand_chacha::ChaCha8Rng` made by
/// `seed_from_u64` and moved by `set_word_pos`; `get_word_pos` tells where the draw ended. The
/// index is one of the weights, one that is not zero, and depends on the seed, the position and
/// the weights alone. The weights must not all be zero, and their sum must fit.
#[verifier::external_body]
fn chacha_weighted(seed: u64, position: u128, weights: &[u32]) -> (r: (usize, u128))
    requires
        0 < total_weight(weights@) <= u32::MAX,
    ensures
        r == weighted_draw(seed, position, weights@),
        r.0 < weights@.len(),
        weights@[r.0 as int] > 0,
{
    let mut rng = ChaCha8Rng::seed_from_u64(seed);
    rng.set_word_pos(position);
    let distribution = WeightedIndex::new(weights).expect("the weights are not all zero");
    let value: usize = distribution.sample(&mut rng);
    (value, rng.get_word_pos())
}

/// A seed and the position of the next word.
#[derive(Copy, Clone, Debug, PartialEq, Eq, Structural)]
pub struct RandomStream {
    pub seed: u64,
    pub position: u128,
}

/// The number from 0 up to, but not including, 1 that the upper 23 bits of a word stand for.
pub open spec fn unit_number(word: u32) -> Single {
    Single::from_nat((word / 512) as nat).times(Single { bits: EPSILON })
}

impl RandomStream {
    /// The start of the stream of `seed`.
    pub open spec fn start(seed: u64) -> RandomStream {
        RandomStream { seed, position: 0 }
    }

    pub open spec fn at(self, position: u128) -> RandomStream {
        RandomStream { position, ..self }
    }

    /// The next index from `0` to `last`, and the stream behind it.
    pub open spec fn drawn_index(self, last: nat) -> (nat, RandomStream) {
        let r = index_draw(self.seed, self.position, last as u64);
        (r.0 as nat, self.at(r.1))
    }

    /// The next number from 0 to 1, and the stream behind it.
    pub open spec fn drawn_unit(self) -> (Single, RandomStream) {
        let r = word_draw(self.seed, self.position);
        (unit_number(r.0), self.at(r.1))
    }

    /// The next choice among `n`, and the stream behind it.
    pub open spec fn drawn_choice(self, n: nat) -> (nat, RandomStream) {
        let r = choice_draw(self.seed, self.position, n as u64);
        (r.0 as nat, self.at(r.1))
    }

    /// The next weighted index, and the stream behind it.
    pub open spec fn drawn_weighted(self, weights: Seq<u32>) -> (nat, RandomStream) {
        let r = weighted_draw(self.seed, self.position, weights);
        (r.0 as nat, self.at(r.1))
    }

    pub fn new(seed: u64) -> (r: RandomStream)
        ensures
            r == RandomStream::start(seed),
    {
        RandomStream { seed, position: 0 }
    }

    /// Draws an index from `0` to `last`.
    pub fn index(&mut self, last: usize) -> (r: usize)
        ensures
            (r as nat, *final(self)) == old(self).drawn_index(last as nat),
            r <= last,
    {
        let (value, position) = chacha_index(self.seed, self.position, last as u64);
        self.position = position;
        value as usize
    }

    /// Draws a number from 0 up to, but not including, 1.
    pub fn unit(&mut self) -> (r: Single)
        ensures
            (r, *final(self)) == old(self).drawn_unit(),
    {
        let (word, position) = chacha_word(self.seed, self.position);
        self.position = position;
        Single::from_integer((word / 512) as u64).mul(Single { bits: EPSILON })
    }

    /// Draws a number below `n`.
    pub fn choice(&mut self, n: usize) -> (r: usize)
        requires
            n > 0,
        ensures
            (r as nat, *final(self)) == old(self).drawn_choice(n as nat),
            r < n,
    {
        let (value, position) = chacha_choice(self.seed, self.position, n as u64);
        self.position = position;
        value as usize
    }

    /// Draws an index with a chance in proportion to its weight.
    pub fn weighted(&mut self, weights: &[u32]) -> (r: usize)
        requires
            0 < total_weight(weights@) <= u32::MAX,
        ensures
            (r as nat, *final(self)) == old(self).drawn_weighted(weights@),
            r < weights@.len(),
            weights@[r as int] > 0,
    {
        let (value, position) = chacha_weighted(self.seed, self.position, weights);
        self.position = position;
        value
    }
}

pub open spec fn swapped<T>(s: Seq<T>, i: int, j: int) -> Seq<T> {
    s.update(i, s[j]).update(j, s[i])
}

/// `s` with the elements up to `last` shuffled: the element at `last` changes places with one
/// drawn from those up to it, and so on down.
pub open spec fn shuffled_from(s: Seq<usize>, stream: RandomStream, last: nat) -> Seq<usize>
    decreases last,
{
    if last == 0 {
        s
    } else {
        let (j, next) = stream.drawn_index(last);
        shuffled_from(swapped(s, last as int, j as int), next, (last - 1) as nat)
    }
}

pub open spec fn counting(n: nat) -> Seq<usize> {
    Seq::new(n, |i: int| i as usize)
}

/// The numbers below `n` in the order that `seed` shuffles them into.
pub open spec fn shuffled(n: nat, seed: u64) -> Seq<usize> {
    if n == 0 {
        counting(0)
    } else {
        shuffled_from(counting(n), RandomStream::start(seed), (n - 1) as nat)
    }
}

/// Each number below the length stands in `s` exactly once.
pub open spec fn is_permutation(s: Seq<usize>) -> bool {
    &&& forall|i: int| 0 <= i < s.len() ==> #[trigger] s[i] < s.len()
    &&& forall|i: int, j: int| 0 <= i < j < s.len() ==> #[trigger] s[i] != #[trigger] s[j]
}

/// The numbers below `n`, in order.
pub fn count_to(n: usize) -> (s: Vec<usize>)
    ensures
        s@ == counting(n as nat),
{
    let mut s: Vec<usize> = Vec::new();
    let mut i: usize = 0;
    while i < n
        invariant
            i <= n,
            s@ == counting(i as nat),
        decreases n - i,
    {
        s.push(i);
        i = i + 1;
        assert(s@ =~= counting(i as nat));
    }
    s
}

/// Shuffles the numbers below `n` (Fisher-Yates, from the back).
pub fn shuffled_indices(n: usize, seed: u64) -> (s: Vec<usize>)
    ensures
        s@ == shuffled(n as nat, seed),
        s@.len() == n,
        is_permutation(s@),
{
    let mut s: Vec<usize> = count_to(n);
    let mut rng: RandomStream = RandomStream::new(seed);
    if n == 0 {
        return s;
    }
    let mut i: usize = n - 1;
    while i > 0
        invariant
            i < n,
            s@.len() == n,
            is_permutation(s@),
            shuffled_from(s@, rng, i as nat) == shuffled(n as nat, seed),
        decreases i,
    {
        let j: usize = rng.index(i);
        let ghost before = s@;
        let x: usize = s[i];
        let y: usize = s[j];
        s.set(i, y);
        s.set(j, x);
        assert(s@ =~= swapped(before, i as int, j as int));
        i = i - 1;
    }
    s
}

} // verus!
