//! A region quadtree over black-and-white animation frames.
pub mod canvas;
pub mod laws;
pub mod quadtree;
pub mod tally;
pub mod text;
pub mod tile;
pub mod walk;
