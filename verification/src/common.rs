//! Shared constants and small utility types.
use crate::single::Single;
use vstd::prelude::*;

verus! {

/// The bits of 0.75 in double precision: the share of horizontal dimensions.
pub const PROPORTION_HORIZONTAL_DIM: u64 = 0x3fe8_0000_0000_0000;

/// The bits of 0.25 in double precision: that share where there are few dimensions.
pub const SMALL_PROPORTION_HORIZONTAL_DIM: u64 = 0x3fd0_0000_0000_0000;

pub const D_THRESHOLD_FOR_DCT_ROTATION: usize = 512;

pub const H_DIM_SIZE: usize = 64;

pub const MIN_PARTIAL_D: u32 = 16;

pub const DIMENSION_THRESHOLD_FOR_PRUNING: usize = 128;

pub const N_CLUSTERS_THRESHOLD_FOR_PRUNING: usize = 256;

/// Queries in one matrix product; the same on all systems.
pub const X_BATCH_SIZE: usize = 4096;

/// Candidates in one matrix product; the same on all systems.
pub const Y_BATCH_SIZE: usize = 1024;

pub const VECTOR_CHUNK_SIZE: usize = Y_BATCH_SIZE;

pub const RECALL_CONVERGENCE_PATIENCE: usize = 2;

/// The bits of 1/1024.
pub const CENTROID_PERTURBATION_EPS: u32 = 0x3a80_0000;

/// The bits of 1.5.
pub const PRUNER_INITIAL_THRESHOLD: u32 = 0x3fc0_0000;

/// The bits of 1.1.
pub const HIERARCHICAL_PRUNER_INITIAL_THRESHOLD: u32 = 0x3f8c_cccd;

/// The bits of 7.
pub const CENTER_ADJUSTMENT_WEIGHT: u32 = 0x40e0_0000;

/// The bits of 0.25.
pub const BALANCING_THRESHOLD: u32 = 0x3e80_0000;

#[derive(Copy, Clone, Debug, PartialEq, Eq, Structural)]
pub enum DistanceFunction {
    L2,
}

/// A centroid and how far it is.
#[derive(Copy, Clone, Debug, PartialEq, Eq, Structural)]
pub struct KnnCandidate {
    pub index: u32,
    pub distance: Single,
}

impl KnnCandidate {
    pub fn new(index: u32, distance: Single) -> (r: KnnCandidate)
        ensures
            r == (KnnCandidate { index, distance }),
    {
        KnnCandidate { index, distance }
    }
}

/// Row `i` of `n` rows of width `d` ends within `n * d`.
pub proof fn lemma_row(i: int, n: int, d: int)
    requires
        0 <= i < n,
        0 <= d,
    ensures
        0 <= i * d,
        i * d + d <= n * d,
        (i + 1) * d == i * d + d,
{
    assert(0 <= i * d && i * d + d <= n * d && (i + 1) * d == i * d + d) by (nonlinear_arith)
        requires
            0 <= i < n,
            0 <= d,
    ;
}

/// Element `(r, c)` of a matrix of width `d` stands at `r * d + c`, and nowhere else.
pub proof fn lemma_cell(r: int, c: int, d: int)
    requires
        0 <= r,
        0 <= c < d,
    ensures
        (r * d + c) / d == r,
        (r * d + c) % d == c,
        0 <= r * d,
{
    vstd::arithmetic::div_mod::lemma_fundamental_div_mod_converse(r * d + c, d, r, c);
    assert(0 <= r * d) by (nonlinear_arith)
        requires
            0 <= r,
            0 < d,
    ;
}

/// Where element `x` of a matrix of `n` rows of width `d` stands.
pub proof fn lemma_position(x: int, n: int, d: int)
    requires
        0 <= x < n * d,
        0 < d,
    ensures
        0 <= x / d < n,
        0 <= x % d < d,
        x == (x / d) * d + x % d,
{
    vstd::arithmetic::div_mod::lemma_fundamental_div_mod(x, d);
    vstd::arithmetic::div_mod::lemma_mod_bound(x, d);
    let q = x / d;
    let r = x % d;
    assert(x == q * d + r) by (nonlinear_arith)
        requires
            x == d * q + r,
    ;
    assert(0 <= q < n) by (nonlinear_arith)
        requires
            0 <= x < n * d,
            x == q * d + r,
            0 <= r < d,
    ;
}

} // verus!
