//! Retrieval of oracle-bone glyphs by human pose.
//!
//! The library holds what a retrieval program decides: the plan of the pose network and the tensor
//! program of its forward pass, the datasets and their batches, the features' layout and cache,
//! the index and the search in it, and the requests that a retrieval service answers. It does no
//! input or output and no floating-point arithmetic; numbers of that kind come in as bit patterns
//! and are compared, ordered and passed on.

pub mod batches;
pub mod cli;
pub mod error;
pub mod floats;
pub mod names;
pub mod pose;
pub mod retrieval;
pub mod service;
pub mod sorting;
pub mod spinepose;
pub mod text;
pub mod training;
