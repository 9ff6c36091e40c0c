//! The random streams against the generators that they stand for.
use rand::{Rng, SeedableRng};
use rand_chacha::ChaCha8Rng;
use rand_distr::{Distribution, Uniform, WeightedIndex};
use superkmeans::generate_random_vectors;
use superkmeans::rng::{count_to, shuffled_indices, RandomStream};
use superkmeans::utils::random_vec_seeded;
use superkmeans::Single;

fn single(x: f32) -> Single {
    Single { bits: x.to_bits() }
}

fn float(x: Single) -> f32 {
    f32::from_bits(x.bits)
}

#[test]
fn indices_are_those_of_the_generator() {
    let mut stream = RandomStream::new(42);
    let mut rng = ChaCha8Rng::seed_from_u64(42);
    for last in [0_usize, 1, 2, 5, 99, 1_000_000, 4_294_967_296, usize::MAX, 7, 7, 7] {
        let expected: usize = rng.gen_range(0..=last);
        assert_eq!(stream.index(last), expected, "last={last}");
    }
    assert_eq!(stream.position, rng.get_word_pos());
}

#[test]
fn units_are_those_of_the_generator() {
    let mut stream = RandomStream::new(7);
    let mut rng = ChaCha8Rng::seed_from_u64(7);
    let uniform = Uniform::new(0.0_f32, 1.0_f32);
    for _ in 0..100 {
        let r = stream.unit();
        assert_eq!(r.bits, uniform.sample(&mut rng).to_bits());
        assert!((0.0..1.0).contains(&float(r)));
    }
}

#[test]
fn choices_are_those_of_the_generator() {
    let mut stream = RandomStream::new(12);
    let mut rng = ChaCha8Rng::seed_from_u64(12);
    for n in [1_usize, 2, 3, 100, 1 << 40, usize::MAX, 5, 5, 5] {
        assert_eq!(stream.choice(n), Uniform::new(0_usize, n).sample(&mut rng), "n={n}");
    }
}

#[test]
fn weighted_indices_are_those_of_the_generator() {
    let weights: Vec<u32> = vec![3, 0, 1, 10, 0, 6];
    let mut stream = RandomStream::new(43);
    let mut rng = ChaCha8Rng::seed_from_u64(43);
    let weighted = WeightedIndex::new(&weights).unwrap();
    let mut seen = [0_usize; 6];
    for _ in 0..200 {
        let i = stream.weighted(&weights);
        assert_eq!(i, weighted.sample(&mut rng));
        seen[i] += 1;
    }
    assert_eq!(seen[1], 0);
    assert_eq!(seen[4], 0);
    assert!(seen[3] > seen[2]);
}

#[test]
fn mixed_draws_keep_their_place() {
    let mut stream = RandomStream::new(5);
    let mut rng = ChaCha8Rng::seed_from_u64(5);
    let uniform = Uniform::new(0.0_f32, 1.0_f32);
    for round in 0..40_usize {
        assert_eq!(stream.unit().bits, uniform.sample(&mut rng).to_bits());
        let expected: usize = rng.gen_range(0..=round);
        assert_eq!(stream.index(round), expected);
    }
}

#[test]
fn shuffling_follows_the_generator() {
    let n = 50;
    let mut expected: Vec<usize> = (0..n).collect();
    let mut rng = ChaCha8Rng::seed_from_u64(9);
    for i in (1..n).rev() {
        let j = rng.gen_range(0..=i);
        expected.swap(i, j);
    }
    let mut shuffled = shuffled_indices(n, 9);
    assert_eq!(shuffled, expected);
    shuffled.sort();
    assert_eq!(shuffled, count_to(n));
    assert!(shuffled_indices(0, 9).is_empty());
    assert_eq!(shuffled_indices(1, 9), vec![0]);
}

#[test]
fn random_vectors_are_those_of_the_generator() {
    for (low, high) in [(-1.0_f32, 1.0_f32), (0.0, 1.0), (2.5, 2.6), (-1.0e30, 3.0e30), (1.0, 1.0000001)] {
        let mut rng = ChaCha8Rng::seed_from_u64(11);
        let uniform = Uniform::new(low, high);
        let got = generate_random_vectors(10, 4, single(low), single(high), 11);
        assert_eq!(got.len(), 40);
        for v in got {
            assert_eq!(v.bits, uniform.sample(&mut rng).to_bits());
            assert!(low <= float(v) && float(v) < high);
        }
    }
}

#[test]
fn a_stream_goes_on_where_it_stopped() {
    let mut stream = RandomStream::new(3);
    let mut rng = ChaCha8Rng::seed_from_u64(3);
    let uniform = Uniform::new(-2.0_f32, 5.0_f32);
    let first = random_vec_seeded(&mut stream, 7, single(-2.0), single(5.0));
    let second = random_vec_seeded(&mut stream, 5, single(-2.0), single(5.0));
    for v in first.iter().chain(&second) {
        assert_eq!(v.bits, uniform.sample(&mut rng).to_bits());
    }
    assert!(random_vec_seeded(&mut stream, 0, single(-2.0), single(5.0)).is_empty());
}
