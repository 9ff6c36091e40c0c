//! What the small results come to: how clusters are spread in proportion to their mean, how much time
//! was measured, and where synthetic data lies.
use crate::balance::relative_deviation;
use crate::common::{lemma_cell, lemma_row};
use crate::double::{lemma_from_nat, one, Double};
use crate::doubles::{amount, lemma_over_close, plain};
use crate::errors::{close, lemma_close_cancelled, lemma_quotient_error};
use crate::exact::{is_whole, lemma_whole_plus};
use crate::ieee::{lemma_format, Format};
use crate::numbers::lemma_order_of_values;
use crate::single::{Single, ZERO};
use crate::utils::{blobs, in_milliseconds, MILLION};
use vstd::arithmetic::div_mod::*;
use vstd::arithmetic::power2::*;
use vstd::prelude::*;

verus! {

/// The relative deviation, times the mean, is the deviation, but for rounding. Without a mean it is
/// zero.
pub proof fn law_relative_deviation(stdev: Single, mean: Single)
    requires
        stdev.is_finite(),
        mean.is_finite(),
        stdev.units() >= 0,
        mean.units() >= 0,
        mean.units() > 0 ==> stdev.over(mean).is_finite(),
        mean.units() > 0 && stdev.units() > 0 ==> stdev.units() * pow2(149) >= 0x80_0000 * mean.units(),
    ensures
        mean.units() > 0 ==> close(relative_deviation(stdev, mean).units() * mean.units(), stdev.units() * pow2(149), 1),
        mean.units() == 0 ==> relative_deviation(stdev, mean) == (Single { bits: ZERO }),
{
    lemma_order_of_values(mean, mean);
    if mean.units() > 0 {
        lemma_quotient_error(stdev, mean);
    }
}

/// A millisecond has a million nanoseconds: both are the same time, but for rounding.
pub proof fn law_milliseconds(nanos: nat)
    requires
        0 < nanos < 0x20_0000_0000_0000,
    ensures
        plain(in_milliseconds(nanos)),
        close(amount(in_milliseconds(nanos)) * 1000000, (nanos * pow2(1074)) as int, 1),
{
    let t = pow2(1074);
    lemma_pow2_pos(1074);
    lemma_from_nat(nanos);
    let a = Double::from_nat(nanos);
    let b = Double { bits: MILLION };
    let nt = nanos * t;
    let mt = 1000000 * t;
    assert(amount(a) == nt) by (nonlinear_arith)
        requires
            amount(a) == one() * nanos,
            one() == t,
            nt == nanos * t,
    ;
    lemma_million();
    lemma2_to64();
    lemma2_to64_rest();
    lemma_pow2_adds(53, 1074);
    lemma_pow2_strictly_increases(43, 1074);
    lemma_pow2_strictly_increases(1127, 2000);
    lemma_pow2_strictly_increases(1074, 2000);
    assert(nt * t >= 0x80_0000 * mt && nt * t <= mt * pow2(2000)) by (nonlinear_arith)
        requires
            nt == nanos * t,
            1 <= nanos <= 0x20_0000_0000_0000,
            mt == 1000000 * t,
            t >= 0x80_0000 * 0x10_0000,
            pow2(1127) == 0x20_0000_0000_0000 * t,
            pow2(1127) < pow2(2000),
    ;
    lemma_over_close(a, b);
    let r = amount(in_milliseconds(nanos));
    assert(r * mt == (r * 1000000) * t) by (nonlinear_arith)
        requires
            mt == 1000000 * t,
    ;
    lemma_close_cancelled(r * 1000000, nt as int, 1, t as int);
}

proof fn lemma_million()
    ensures
        plain(Double { bits: MILLION }),
        amount(Double { bits: MILLION }) == 1000000 * pow2(1074),
{
    assert(0x412e_8480_0000_0000u64 & 0x7fff_ffff_ffff_ffff == 0x412e_8480_0000_0000) by (bit_vector);
    lemma_format(Format::double());
    lemma2_to64();
    lemma2_to64_rest();
    lemma_fundamental_div_mod_converse(0x412e_8480_0000_0000, 0x10_0000_0000_0000, 1042, 0xe_8480_0000_0000);
    lemma_pow2_adds(33, 1041);
    assert((0x10_0000_0000_0000nat + 0xe_8480_0000_0000) * pow2(1041) == 1000000 * pow2(1074)) by (nonlinear_arith)
        requires
            pow2(1074) == 0x2_0000_0000 * pow2(1041),
    ;
}

/// A row of synthetic data lies where its centre lies, moved by its own noise.
pub proof fn law_blob(
    centers: Seq<Single>,
    choices: Seq<usize>,
    noise: Seq<Single>,
    n: nat,
    width: nat,
    i: int,
    j: int,
    at: int,
    by: int,
)
    requires
        0 <= i < n,
        0 <= j < width,
        is_whole(centers[choices[i] * width + j], at),
        is_whole(noise[i * width + j], by),
        -0x100_0000 < at + by < 0x100_0000,
    ensures
        is_whole(blobs(centers, choices, noise, n, width)[i * width + j], at + by),
{
    lemma_row(i, n as int, width as int);
    lemma_cell(i, j, width as int);
    lemma_whole_plus(centers[choices[i] * width + j], at, noise[i * width + j], by);
}

} // verus!
