//! Order-independent transparency: per-pixel capture of transparent
//! fragments into a bounded layer store, and a depth-sorted resolve that
//! composites them with the "over" operator.
use vstd::prelude::*;

pub mod color;
pub mod fragment;
pub mod sort;
pub mod resolve;
pub mod store;
pub mod laws;
pub mod buffers;
pub mod pipeline;
pub mod gpu;
pub mod graph;

verus! {

/// The default number of fragment records kept per pixel.
pub const OIT_LAYERS: usize = 16;

} // verus!
