//! KLL quantile sketches over IEEE-754 bit patterns.
//!
//! A sketch ingests a stream of floating-point values and answers
//! approximate quantile and rank queries.  This crate keeps the element
//! values as their raw IEEE-754 bit patterns (`u32` for 32-bit elements,
//! `u64` for 64-bit elements), which lets every operation — ingestion,
//! ordering, quantile selection, serialization and the validation gate in
//! front of each query — be stated and proved exactly.

pub mod codec;
pub mod error;
pub mod fbits;
pub mod interchange;
pub mod kll_double_sketch;
pub mod kll_float_sketch;
pub mod order;
pub mod sorting;

pub use error::DataSketchesError;
pub use kll_double_sketch::KllDoubleSketch;
pub use kll_float_sketch::KllFloatSketch;

use vstd::prelude::*;

verus! {

/// The resolution of a sketch constructed with default parameters.
pub const DEFAULT_K: u16 = 200;

} // verus!
