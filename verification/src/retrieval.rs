//! Retrieval of glyphs by pose.

pub mod cache;
pub mod data_root;
pub mod dataset;
pub mod glyph_id;
pub mod index;
pub mod model;
pub mod shape;
pub mod train;
