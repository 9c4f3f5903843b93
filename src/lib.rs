//! Weight-space search for player scoring: the lattice of step-count weight
//! vectors, its bulk and resumable enumerations, and the grouped evaluator that
//! ranks candidate weight vectors against recorded outcomes.

/// The lattice of weight vectors as step counts, its order and its laws.
pub mod lattice;
/// The resumable cursor over the lattice.
pub mod generator;
/// The bulk producer of the whole lattice.
pub mod bulk;
/// The grouped date/category evaluator.
pub mod evaluate;
/// Best-candidate search, ranking, and the coarse grid.
pub mod search;
