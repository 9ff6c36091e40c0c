//! Squared L2 distances.
//!
//! The terms are gathered in eight independent sums, one for each position modulo eight; the
//! sums are added up at the end, and then the terms that fill no group of eight.
use crate::ieee::{lemma_units_sign, Format, Parts};
use crate::numbers::law_squared_difference_symmetric;
use crate::rounding::lemma_round_zero;
use crate::single::{lemma_parts_roundtrip, Single, ZERO};
use vstd::arithmetic::power2::{lemma_pow2_pos, pow2};
use vstd::prelude::*;

verus! {

pub const LANES: usize = 8;

/// The square of the difference of entry `i`.
pub open spec fn squared_difference(a: Seq<Single>, b: Seq<Single>, i: int) -> Single {
    a[i].minus(b[i]).times(a[i].minus(b[i]))
}

/// The sum of lane `l` over the first `groups` groups.
pub open spec fn lane_sum(a: Seq<Single>, b: Seq<Single>, l: int, groups: nat) -> Single
    decreases groups,
{
    if groups == 0 {
        Single { bits: ZERO }
    } else {
        lane_sum(a, b, l, (groups - 1) as nat).plus(
            squared_difference(a, b, (groups - 1) * 8 + l),
        )
    }
}

/// The sum of the first `lanes` lanes.
pub open spec fn lanes_total(a: Seq<Single>, b: Seq<Single>, groups: nat, lanes: nat) -> Single
    decreases lanes,
{
    if lanes == 0 {
        Single { bits: ZERO }
    } else {
        lanes_total(a, b, groups, (lanes - 1) as nat).plus(lane_sum(a, b, lanes - 1, groups))
    }
}

/// `start` and then the terms from `from` to `to`.
pub open spec fn terms_from(a: Seq<Single>, b: Seq<Single>, start: Single, from: int, to: int) -> Single
    decreases to - from,
{
    if to <= from {
        start
    } else {
        terms_from(a, b, start, from, to - 1).plus(squared_difference(a, b, to - 1))
    }
}

/// The squared distance of two vectors of one length.
pub open spec fn l2_distance(a: Seq<Single>, b: Seq<Single>) -> Single {
    let groups = a.len() / 8;
    terms_from(a, b, lanes_total(a, b, groups, 8), (groups * 8) as int, a.len() as int)
}

pub fn l2_squared(a: &[Single], b: &[Single]) -> (r: Single)
    requires
        a@.len() == b@.len(),
    ensures
        r == l2_distance(a@, b@),
{
    let n: usize = a.len();
    let groups: usize = n / LANES;
    let mut acc: [Single; 8] = [Single { bits: ZERO };8];
    let mut g: usize = 0;
    while g < groups
        invariant
            groups == a@.len() / 8,
            a@.len() == b@.len(),
            n == a@.len(),
            g <= groups,
            forall|l: int| 0 <= l < 8 ==> acc@[l] == lane_sum(a@, b@, l, g as nat),
        decreases groups - g,
    {
        let mut l: usize = 0;
        while l < LANES
            invariant
                groups == a@.len() / 8,
                a@.len() == b@.len(),
                n == a@.len(),
                g < groups,
                l <= 8,
                forall|m: int| l <= m < 8 ==> acc@[m] == lane_sum(a@, b@, m, g as nat),
                forall|m: int| 0 <= m < l ==> acc@[m] == lane_sum(a@, b@, m, (g + 1) as nat),
            decreases LANES - l,
        {
            let x: Single = a[g * LANES + l].sub(b[g * LANES + l]);
            acc[l] = acc[l].add(x.mul(x));
            l = l + 1;
        }
        g = g + 1;
    }
    let mut s: Single = Single { bits: ZERO };
    let mut l: usize = 0;
    while l < LANES
        invariant
            l <= 8,
            s == lanes_total(a@, b@, groups as nat, l as nat),
            forall|m: int| 0 <= m < 8 ==> acc@[m] == lane_sum(a@, b@, m, groups as nat),
        decreases LANES - l,
    {
        s = s.add(acc[l]);
        l = l + 1;
    }
    let ghost total = s;
    let mut i: usize = groups * LANES;
    while i < n
        invariant
            n == a@.len() == b@.len(),
            groups * 8 <= i <= n,
            s == terms_from(a@, b@, total, groups * 8, i as int),
        decreases n - i,
    {
        let x: Single = a[i].sub(b[i]);
        s = s.add(x.mul(x));
        i = i + 1;
    }
    s
}

/// Squared L2 over the first `len` elements of `a` and `b`.
pub fn l2_squared_range(a: &[Single], b: &[Single], len: usize) -> (r: Single)
    requires
        len <= a@.len(),
        len <= b@.len(),
    ensures
        r == l2_distance(a@.take(len as int), b@.take(len as int)),
{
    proof {
        assert(a@.take(len as int) =~= a@.subrange(0, len as int));
        assert(b@.take(len as int) =~= b@.subrange(0, len as int));
    }
    l2_squared(&a[0..len], &b[0..len])
}

proof fn lemma_lanes_symmetric(a: Seq<Single>, b: Seq<Single>, l: int, groups: nat)
    ensures
        lane_sum(a, b, l, groups) == lane_sum(b, a, l, groups),
    decreases groups,
{
    if groups > 0 {
        lemma_lanes_symmetric(a, b, l, (groups - 1) as nat);
        let i = (groups - 1) * 8 + l;
        law_squared_difference_symmetric(a[i], b[i]);
    }
}

proof fn lemma_totals_symmetric(a: Seq<Single>, b: Seq<Single>, groups: nat, lanes: nat)
    ensures
        lanes_total(a, b, groups, lanes) == lanes_total(b, a, groups, lanes),
    decreases lanes,
{
    if lanes > 0 {
        lemma_totals_symmetric(a, b, groups, (lanes - 1) as nat);
        lemma_lanes_symmetric(a, b, lanes - 1, groups);
    }
}

proof fn lemma_terms_symmetric(a: Seq<Single>, b: Seq<Single>, start: Single, from: int, to: int)
    ensures
        terms_from(a, b, start, from, to) == terms_from(b, a, start, from, to),
    decreases to - from,
{
    if from < to {
        lemma_terms_symmetric(a, b, start, from, to - 1);
        law_squared_difference_symmetric(a[to - 1], b[to - 1]);
    }
}

/// The distance of two vectors does not depend on which of them comes first.
pub proof fn law_distance_symmetric(a: Seq<Single>, b: Seq<Single>)
    requires
        a.len() == b.len(),
    ensures
        l2_distance(a, b) == l2_distance(b, a),
{
    let groups = a.len() / 8;
    lemma_totals_symmetric(a, b, groups, 8);
    lemma_terms_symmetric(a, b, lanes_total(a, b, groups, 8), (groups * 8) as int, a.len() as int);
}

/// Nothing is added by a difference of equals.
proof fn lemma_no_difference(x: Single)
    requires
        x.is_finite(),
    ensures
        x.minus(x).times(x.minus(x)) == (Single { bits: ZERO }),
        (Single { bits: ZERO }).plus(Single { bits: ZERO }) == (Single { bits: ZERO }),
{
    reveal(Single::minus);
    reveal(Single::times);
    reveal(Single::plus);
    let zero = Single { bits: ZERO };
    lemma_units_sign(Format::single(), 0);
    lemma_pow2_pos(149);
    lemma_round_zero(pow2(149), 24);
    lemma_parts_roundtrip(zero);
    assert(zero.parts() == (Parts { neg: false, mag: 0 })) by {
        assert(0u32 & 0x7fff_ffff == 0) by (bit_vector);
    }
    assert(x.minus(x) == zero);
    assert(0 * 0 == 0);
}

proof fn lemma_lane_of_equals(a: Seq<Single>, l: int, groups: nat)
    requires
        0 <= l < 8,
        groups * 8 <= a.len(),
        forall|i: int| 0 <= i < a.len() ==> #[trigger] a[i].is_finite(),
    ensures
        lane_sum(a, a, l, groups) == (Single { bits: ZERO }),
    decreases groups,
{
    if groups > 0 {
        lemma_lane_of_equals(a, l, (groups - 1) as nat);
        lemma_no_difference(a[(groups - 1) * 8 + l]);
    }
}

proof fn lemma_total_of_equals(a: Seq<Single>, groups: nat, lanes: nat)
    requires
        lanes <= 8,
        groups * 8 <= a.len(),
        forall|i: int| 0 <= i < a.len() ==> #[trigger] a[i].is_finite(),
    ensures
        lanes_total(a, a, groups, lanes) == (Single { bits: ZERO }),
    decreases lanes,
{
    if lanes > 0 {
        lemma_total_of_equals(a, groups, (lanes - 1) as nat);
        lemma_lane_of_equals(a, lanes - 1, groups);
        lemma_zero_finite();
        lemma_no_difference(Single { bits: ZERO });
    }
}

proof fn lemma_zero_finite()
    ensures
        (Single { bits: ZERO }).is_finite(),
{
    assert(0u32 & 0x7fff_ffff == 0) by (bit_vector);
}

proof fn lemma_terms_of_equals(a: Seq<Single>, from: int, to: int)
    requires
        0 <= from,
        to <= a.len(),
        forall|i: int| 0 <= i < a.len() ==> #[trigger] a[i].is_finite(),
    ensures
        terms_from(a, a, Single { bits: ZERO }, from, to) == (Single { bits: ZERO }),
    decreases to - from,
{
    if from < to {
        lemma_terms_of_equals(a, from, to - 1);
        lemma_no_difference(a[to - 1]);
    }
}

/// A vector of finite numbers is at distance zero from itself.
pub proof fn law_distance_to_itself(a: Seq<Single>)
    requires
        forall|i: int| 0 <= i < a.len() ==> #[trigger] a[i].is_finite(),
    ensures
        l2_distance(a, a) == (Single { bits: ZERO }),
{
    let groups = a.len() / 8;
    lemma_total_of_equals(a, groups, 8);
    lemma_terms_of_equals(a, (groups * 8) as int, a.len() as int);
}

} // verus!
