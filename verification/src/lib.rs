//! Retrieval-quality evaluation: exact-rational precision@k, average
//! precision, and their per-field means over a benchmark of judged queries.

pub mod bench;
pub mod frac;
pub mod harness;
pub mod metrics;

pub use frac::Frac;
