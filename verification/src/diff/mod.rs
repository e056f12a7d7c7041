//! What changed between the roads of a dataset and newer ones, and which
//! regions that reaches.

pub mod join;
pub mod propagate;
pub mod reach;
