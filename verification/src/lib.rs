//! SuperKMeans: fast k-means clustering for high-dimensional vector embeddings, with matrix
//! products and ADSampling-style pruning.
//!
//! All numbers are IEEE 754 singles and doubles held as their bits, and every operation on them is
//! defined and proved on integers. So every result of the library is a function of its inputs,
//! down to the last bit.

pub mod adsampling;
pub mod answers;
pub mod assigning;
pub mod balance;
pub mod batch;
pub mod centroids;
pub mod common;
pub mod counts;
pub mod decisions;
pub mod distance;
pub mod double;
pub mod doubles;
pub mod dropping;
pub mod errors;
pub mod exact;
pub mod gemm;
pub mod hierarchical;
pub mod ieee;
pub mod laws;
pub mod layout;
pub mod lengths;
pub mod levels;
pub mod means;
pub mod numbers;
pub mod partition;
pub mod pdxearch;
pub mod pruning;
pub mod ranges;
pub mod reflections;
pub mod rng;
pub mod rotations;
pub mod rounding;
pub mod runs;
pub mod searches;
pub mod settling;
pub mod single;
pub mod spaces;
pub mod splitting;
pub mod spread;
pub mod summaries;
pub mod superkmeans;
pub mod ties;
pub mod utils;

pub use balance::ClusterBalanceStats;
pub use common::{DistanceFunction, KnnCandidate};
pub use hierarchical::{
    HierarchicalSuperKMeans, HierarchicalSuperKMeansConfig, HierarchicalSuperKMeansIterationStats,
};
pub use single::Single;
pub use superkmeans::{SuperKMeans, SuperKMeansConfig, SuperKMeansIterationStats};
pub use utils::{
    compute_l2_squared, compute_norms_row_major, find_nearest_neighbor_brute_force, generate_random_vectors, make_blobs,
    TicToc,
};

