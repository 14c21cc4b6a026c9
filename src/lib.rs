//! Unit-of-measure and reference-frame checking with sparsest scalar repair.
//!
//! The library turns an annotated syntax tree into a linear constraint system
//! over per-object vectors (a scalar prefix and seven SI exponents), flattens
//! that system into integer rows, enumerates the repair candidates of the
//! sparsest-repair search, and encodes frame assignments as disjunctive cases.

mod text;
pub mod types;
pub mod constraints;
pub mod laws;
pub mod search;
pub mod frames;
pub mod walker;
pub mod util;
