//! The pose network and its data.

pub mod data;
pub mod graph;
pub mod heatmap;
pub mod layers;
pub mod model;
pub mod network;
pub mod plans;
pub mod pyramid;
pub mod shapes;
pub mod shuffle;
pub mod train;
pub mod values;
