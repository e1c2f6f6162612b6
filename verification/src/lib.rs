//! Scratch space for graph-based nearest-neighbor search, and the conversion of benchmark
//! datasets for it.
//!
//! * [`visited`]: the set of ids that a search has visited, with [`overflow`] for sparse ids.
//! * [`neighbor`]: the queue of the best candidates of a search.
//! * [`scratch`]: the scratch space that holds both, and its reuse from a pool.
//! * [`estimate`]: how many nodes a search is expected to visit, with [`binary64`] for the
//!   arithmetic.
//! * [`vecs`], [`convert`], [`ground_truth`]: `.fvecs` and `.ivecs` files and what they are
//!   converted to, with [`fbin`] and [`words`] for the formats.

pub mod binary64;
pub mod convert;
pub mod estimate;
pub mod fbin;
pub mod ground_truth;
pub mod neighbor;
pub mod overflow;
pub mod scratch;
pub mod utils;
pub mod vecs;
pub mod visited;
pub mod words;
