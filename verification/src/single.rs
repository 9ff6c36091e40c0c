//! Single-precision numbers, held as their 32 bits.
use crate::double::Double;
use crate::ieee::{
    converted, fp_add, fp_convert, fp_div, fp_from_integer, fp_lt, fp_mul, fp_sqrt, fp_truncate, less, negated,
    of_integer, product, quotient, rank, square_root, sum, truncated, Format, Parts,
};
use vstd::prelude::*;

verus! {

/// The bits of 0.
pub const ZERO: u32 = 0;

/// The bits of 1.
pub const ONE: u32 = 0x3f80_0000;

/// The bits of 2.
pub const TWO: u32 = 0x4000_0000;

/// The bits of -2.
pub const MINUS_TWO: u32 = 0xc000_0000;

/// The bits of the largest finite number.
pub const LARGEST: u32 = 0x7f7f_ffff;

/// The bits of the distance from 1 to the next larger number, 2^-23.
pub const EPSILON: u32 = 0x3400_0000;

/// An IEEE 754 binary32 number.
#[derive(Copy, Clone, Debug, PartialEq, Eq, Structural)]
pub struct Single {
    pub bits: u32,
}

pub(crate) fn single_format() -> (f: Format)
    ensures
        f == Format::single(),
{
    Format { p: 24, unit: 149, inf: 0x7f80_0000 }
}

impl Single {
    /// The sign and the magnitude.
    pub open spec fn parts(self) -> Parts {
        Parts { neg: self.bits >= 0x8000_0000, mag: (self.bits & 0x7fff_ffff) as u64 }
    }

    /// The number with this sign and this magnitude.
    pub open spec fn of_parts(x: Parts) -> Single {
        Single {
            bits: if x.neg {
                x.mag as u32 | 0x8000_0000
            } else {
                x.mag as u32
            },
        }
    }

    #[inline]
    fn unpack(self) -> (x: Parts)
        ensures
            x == self.parts(),
    {
        Parts { neg: self.bits >= 0x8000_0000, mag: (self.bits & 0x7fff_ffff) as u64 }
    }

    #[inline]
    pub(crate) fn pack(x: Parts) -> (r: Single)
        ensures
            r == Single::of_parts(x),
    {
        Single {
            bits: if x.neg {
                #[verifier::truncate]
                (x.mag as u32) | 0x8000_0000
            } else {
                #[verifier::truncate]
                (x.mag as u32)
            },
        }
    }

    #[verifier::opaque]
    pub open spec fn plus(self, rhs: Single) -> Single {
        Single::of_parts(sum(Format::single(), self.parts(), rhs.parts()))
    }

    #[verifier::opaque]
    pub open spec fn minus(self, rhs: Single) -> Single {
        Single::of_parts(sum(Format::single(), self.parts(), negated(rhs.parts())))
    }

    #[verifier::opaque]
    pub open spec fn times(self, rhs: Single) -> Single {
        Single::of_parts(product(Format::single(), self.parts(), rhs.parts()))
    }

    #[verifier::opaque]
    pub open spec fn over(self, rhs: Single) -> Single {
        Single::of_parts(quotient(Format::single(), self.parts(), rhs.parts()))
    }

    #[verifier::opaque]
    pub open spec fn root(self) -> Single {
        Single::of_parts(square_root(Format::single(), self.parts()))
    }

    #[verifier::opaque]
    pub open spec fn opposite(self) -> Single {
        Single::of_parts(negated(self.parts()))
    }

    /// `self < rhs`; false where either is no number.
    #[verifier::opaque]
    pub open spec fn below(self, rhs: Single) -> bool {
        less(Format::single(), self.parts(), rhs.parts())
    }

    /// The place of a number among all numbers, in ascending order.
    pub open spec fn order(self) -> int {
        rank(self.parts())
    }

    pub open spec fn is_number(self) -> bool {
        self.parts().mag <= Format::single().inf
    }

    pub open spec fn is_finite(self) -> bool {
        self.parts().mag < Format::single().inf
    }

    /// `self >= rhs`; false where either is no number.
    pub open spec fn at_least(self, rhs: Single) -> bool {
        self.is_number() && rhs.is_number() && !self.below(rhs)
    }

    /// The larger of the two; the other one where one is no number.
    pub open spec fn larger(self, rhs: Single) -> Single {
        if !self.is_number() || self.below(rhs) {
            rhs
        } else {
            self
        }
    }

    /// The smaller of the two; the other one where one is no number.
    pub open spec fn smaller(self, rhs: Single) -> Single {
        if !self.is_number() || rhs.below(self) {
            rhs
        } else {
            self
        }
    }

    #[verifier::opaque]
    pub open spec fn from_nat(n: nat) -> Single {
        Single::of_parts(of_integer(Format::single(), n))
    }

    #[verifier::opaque]
    pub open spec fn whole(self, max: nat) -> nat {
        truncated(Format::single(), self.parts(), max)
    }

    #[verifier::opaque]
    pub open spec fn widened(self) -> Double {
        Double::of_parts(converted(Format::single(), Format::double(), self.parts()))
    }

    #[inline]
    pub fn add(self, rhs: Single) -> (r: Single)
        ensures
            r == self.plus(rhs),
    {
        reveal(Single::plus);
        Single::pack(fp_add(single_format(), self.unpack(), rhs.unpack()))
    }

    #[inline]
    pub fn sub(self, rhs: Single) -> (r: Single)
        ensures
            r == self.minus(rhs),
    {
        reveal(Single::minus);
        let b: Parts = rhs.unpack();
        Single::pack(fp_add(single_format(), self.unpack(), Parts { neg: !b.neg, mag: b.mag }))
    }

    #[inline]
    pub fn mul(self, rhs: Single) -> (r: Single)
        ensures
            r == self.times(rhs),
    {
        reveal(Single::times);
        Single::pack(fp_mul(single_format(), self.unpack(), rhs.unpack()))
    }

    pub fn div(self, rhs: Single) -> (r: Single)
        ensures
            r == self.over(rhs),
    {
        reveal(Single::over);
        Single::pack(fp_div(single_format(), self.unpack(), rhs.unpack()))
    }

    pub fn sqrt(self) -> (r: Single)
        ensures
            r == self.root(),
    {
        reveal(Single::root);
        Single::pack(fp_sqrt(single_format(), self.unpack()))
    }

    pub fn neg(self) -> (r: Single)
        ensures
            r == self.opposite(),
    {
        reveal(Single::opposite);
        let a: Parts = self.unpack();
        Single::pack(Parts { neg: !a.neg, mag: a.mag })
    }

    #[inline]
    pub fn lt(self, rhs: Single) -> (r: bool)
        ensures
            r == self.below(rhs),
    {
        reveal(Single::below);
        fp_lt(single_format(), self.unpack(), rhs.unpack())
    }

    /// Whether this is 0 or -0.
    pub fn is_zero(self) -> (r: bool)
        ensures
            r == (self.parts().mag == 0),
    {
        self.unpack().mag == 0
    }

    /// `self >= rhs`; false where either is no number.
    pub fn ge(self, rhs: Single) -> (r: bool)
        ensures
            r == self.at_least(rhs),
    {
        let a: Parts = self.unpack();
        let b: Parts = rhs.unpack();
        a.mag <= 0x7f80_0000 && b.mag <= 0x7f80_0000 && !self.lt(rhs)
    }

    pub fn max(self, rhs: Single) -> (r: Single)
        ensures
            r == self.larger(rhs),
    {
        let a: Parts = self.unpack();
        if a.mag > 0x7f80_0000 || self.lt(rhs) {
            rhs
        } else {
            self
        }
    }

    pub fn min(self, rhs: Single) -> (r: Single)
        ensures
            r == self.smaller(rhs),
    {
        let a: Parts = self.unpack();
        if a.mag > 0x7f80_0000 || rhs.lt(self) {
            rhs
        } else {
            self
        }
    }

    /// The integer `n`, rounded to single precision.
    pub fn from_integer(n: u64) -> (r: Single)
        ensures
            r == Single::from_nat(n as nat),
    {
        reveal(Single::from_nat);
        Single::pack(fp_from_integer(single_format(), n as u128))
    }

    /// The integer part, cut to the range of `u32`; 0 where this is no number.
    pub fn to_u32(self) -> (r: u32)
        ensures
            r == self.whole(u32::MAX as nat),
    {
        reveal(Single::whole);
        fp_truncate(single_format(), self.unpack(), u32::MAX as u64) as u32
    }

    /// The same value in double precision.
    pub fn to_double(self) -> (r: Double)
        ensures
            r == self.widened(),
    {
        reveal(Single::widened);
        Double::pack(fp_convert(single_format(), crate::double::double_format(), self.unpack()))
    }
}

/// Numbers are compared by their places in the order of all numbers.
pub proof fn lemma_below(a: Single, b: Single)
    ensures
        a.below(b) == (a.is_number() && b.is_number() && a.order() < b.order()),
{
    reveal(Single::below);
}

/// Taking a number apart and putting it together again changes nothing.
pub proof fn lemma_parts_roundtrip(x: Single)
    ensures
        Single::of_parts(x.parts()) == x,
        x.parts().mag < 0x8000_0000,
{
    let b = x.bits;
    assert(b & 0x7fff_ffff < 0x8000_0000) by (bit_vector);
    assert(b >= 0x8000_0000 ==> (b & 0x7fff_ffff) | 0x8000_0000 == b) by (bit_vector);
    assert(b < 0x8000_0000 ==> b & 0x7fff_ffff == b) by (bit_vector);
}

/// Every sign and every magnitude that fits make a number.
pub proof fn lemma_of_parts(x: Parts)
    requires
        x.mag < 0x8000_0000,
    ensures
        Single::of_parts(x).parts() == x,
{
    let m = x.mag as u32;
    assert(m < 0x8000_0000 ==> (m | 0x8000_0000) >= 0x8000_0000 && (m | 0x8000_0000) & 0x7fff_ffff == m && m
        & 0x7fff_ffff == m) by (bit_vector);
}

} // verus!
