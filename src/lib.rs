//! Layout of trees of boxes: block, flexbox and grid, over integer lengths.

pub mod geometry;
pub mod style;
pub mod algo;
pub mod node;
pub mod layout;
pub mod tree;
pub mod style_builder;
pub mod node_builder;
pub mod laws;
