//! The routing graph: vertices in Hilbert order, compressed adjacency both
//! ways, and the grid that finds roads near a place.

pub mod adjacency;
pub mod assemble;
pub mod grid;
pub mod order;
pub mod pack;
pub mod renumber;
pub mod snap;
pub mod sound;

pub use grid::{big_cell_of, cell_of, BIG_E7, CELL_E7};
