use superkmeans::double::Double;
use superkmeans::single::Single;

fn s(x: f32) -> Single {
    Single { bits: x.to_bits() }
}

fn d(x: f64) -> Double {
    Double { bits: x.to_bits() }
}

fn same(x: Single, y: f32) -> bool {
    if y.is_nan() {
        f32::from_bits(x.bits).is_nan()
    } else {
        x.bits == y.to_bits()
    }
}

fn same_double(x: Double, y: f64) -> bool {
    if y.is_nan() {
        f64::from_bits(x.bits).is_nan()
    } else {
        x.bits == y.to_bits()
    }
}

/// A small generator of bit patterns; it reaches every exponent.
struct Bits {
    state: u64,
}

impl Bits {
    fn next(&mut self) -> u64 {
        self.state = self.state.wrapping_mul(6364136223846793005).wrapping_add(1442695040888963407);
        let x = self.state;
        (x ^ (x >> 29)).wrapping_mul(0xbf58476d1ce4e5b9).rotate_left(31)
    }

    fn single(&mut self) -> f32 {
        f32::from_bits(self.next() as u32)
    }

    /// Singles of nearby size, where sums cancel.
    fn near(&mut self) -> f32 {
        let b = self.next() as u32;
        f32::from_bits((b & 0x807f_ffff) | ((0x70 + (b >> 23) % 32) << 23))
    }

    fn double(&mut self) -> f64 {
        f64::from_bits(self.next())
    }

    fn near_double(&mut self) -> f64 {
        let b = self.next();
        f64::from_bits((b & 0x800f_ffff_ffff_ffff) | ((0x3f0 + (b >> 52) % 64) << 52))
    }
}

const SPECIAL: [f32; 16] = [
    0.0,
    -0.0,
    1.0,
    -1.0,
    f32::INFINITY,
    f32::NEG_INFINITY,
    f32::NAN,
    f32::MAX,
    f32::MIN,
    f32::MIN_POSITIVE,
    1.0e-45,
    -1.0e-45,
    1.1754942e-38,
    0.5,
    3.0,
    16777217.0,
];

fn check_pair(a: f32, b: f32) {
    assert!(same(s(a).add(s(b)), a + b), "{:?} + {:?}", a, b);
    assert!(same(s(a).sub(s(b)), a - b), "{:?} - {:?}", a, b);
    assert!(same(s(a).mul(s(b)), a * b), "{:?} * {:?}", a, b);
    assert!(same(s(a).div(s(b)), a / b), "{:?} / {:?}", a, b);
    assert!(s(a).lt(s(b)) == (a < b), "{:?} < {:?}", a, b);
    assert!(same(s(a).sqrt(), a.sqrt()), "sqrt {:?}", a);
    assert!(same_double(s(a).to_double(), a as f64), "double {:?}", a);
    assert!(s(a).to_u32() == a as u32, "u32 {:?}", a);
    let m = f32::from_bits(s(a).max(s(b)).bits);
    assert!(m == a.max(b) || (m.is_nan() && a.max(b).is_nan()));
    let m = f32::from_bits(s(a).min(s(b)).bits);
    assert!(m == a.min(b) || (m.is_nan() && a.min(b).is_nan()));
}

#[test]
fn single_operations_on_special_values() {
    for &a in &SPECIAL {
        for &b in &SPECIAL {
            check_pair(a, b);
        }
        assert!(same(s(a).neg(), -a));
    }
}

#[test]
fn single_operations_on_arbitrary_bits() {
    let mut g = Bits { state: 1 };
    for _ in 0..200_000 {
        let (a, b) = (g.single(), g.single());
        check_pair(a, b);
        let (a, b) = (g.near(), g.near());
        check_pair(a, b);
    }
}

#[test]
fn double_operations_on_arbitrary_bits() {
    let mut g = Bits { state: 7 };
    for i in 0..200_000 {
        let (a, b) = if i % 2 == 0 { (g.double(), g.double()) } else { (g.near_double(), g.near_double()) };
        assert!(same_double(d(a).add(d(b)), a + b), "{:?} + {:?}", a, b);
        assert!(same_double(d(a).mul(d(b)), a * b), "{:?} * {:?}", a, b);
        assert!(same_double(d(a).div(d(b)), a / b), "{:?} / {:?}", a, b);
        assert!(same_double(d(a).sqrt(), a.sqrt()), "sqrt {:?}", a);
        assert!(same(d(a).to_single(), a as f32), "single {:?}", a);
        assert!(d(a).to_usize() == a as usize, "usize {:?}", a);
        assert!(d(a).round_to_usize() == a.round() as usize, "round {:?}", a);
    }
}

#[test]
fn integers_convert_as_native_casts_do() {
    let mut g = Bits { state: 3 };
    for i in 0..100_000u64 {
        let n = g.next() >> (i % 64);
        assert!(same(Single::from_integer(n), n as f32));
        assert!(same_double(Double::from_integer(n), n as f64));
    }
    assert!(same(Single::from_integer(0), 0.0));
    assert!(same_double(Double::from_integer(u64::MAX), u64::MAX as f64));
}

#[test]
fn halves_round_away_from_zero_to_integers() {
    assert_eq!(d(0.5).round_to_usize(), 1);
    assert_eq!(d(1.5).round_to_usize(), 2);
    assert_eq!(d(2.5).round_to_usize(), 3);
    assert_eq!(d(0.49999999999999994).round_to_usize(), 0);
    assert_eq!(d(-3.0).round_to_usize(), 0);
    assert_eq!(d(f64::NAN).round_to_usize(), 0);
    assert_eq!(d(1.0e300).round_to_usize(), usize::MAX);
}

#[test]
fn short_integers_are_exact() {
    let int = Single::from_integer;
    for (a, b) in [(0_u64, 0_u64), (0, 7), (3, 4), (4095, 4096), (16_000_000, 777_215)] {
        assert_eq!(int(a).add(int(b)).bits, int(a + b).bits);
        let (high, low) = (a.max(b), a.min(b));
        assert_eq!(int(high).sub(int(low)).bits, int(high - low).bits);
        if a * b < 1 << 24 {
            assert_eq!(int(a).mul(int(b)).bits, int(a * b).bits);
        }
        assert_eq!(int(a).bits, (a as f32).to_bits());
    }
    assert_eq!(int(0).bits, 0);
    assert_eq!(int(1).bits, 0x3f80_0000);
    assert_eq!(int(2).bits, 0x4000_0000);
}

#[test]
fn sums_and_products_keep_their_laws() {
    let mut bits = Bits { state: 17 };
    for _ in 0..2000 {
        let (a, b, c) = (s(bits.near()), s(bits.near()), s(bits.near()));
        assert_eq!(a.add(b).bits, b.add(a).bits);
        assert_eq!(a.mul(b).bits, b.mul(a).bits);
        assert_eq!(a.mul(s(1.0)).bits, a.bits);
        assert_eq!(s(0.0).add(a).bits, a.bits);
        let (x, y) = (a.sub(b), b.sub(a));
        assert_eq!(x.mul(x).bits, y.mul(y).bits);
        let (low, high) = if a.lt(b) { (a, b) } else { (b, a) };
        assert!(!high.add(c).lt(low.add(c)));
        let positive = s(f32::from_bits(c.bits).abs());
        assert!(!high.mul(positive).lt(low.mul(positive)));
        assert!(!low.add(positive).lt(low));
    }
}
