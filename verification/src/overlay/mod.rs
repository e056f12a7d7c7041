//! Overlay graph: collapse a region to the roads that enter it.
//!
//! Each region is replaced, for through-traffic, by a table of the shortest
//! paths between its boundary vertices, using only edges inside that region.
//! A real shortest path that leaves and re-enters is not lost: the overlay
//! search finds it by going out through the boundary and back.

pub mod agree;
pub mod boxes;
pub mod contraction;
pub mod exact;
pub mod fits;
pub mod frontier;
pub mod gateindex;
pub mod ground;
pub mod growth;
pub mod inside;
pub mod ladder;
pub mod layout;
pub mod levels;
pub mod lists;
pub mod meet;
pub mod names;
pub mod nesting;
pub mod net;
pub mod partition;
pub mod plan;
pub mod query;
pub mod raise;
pub mod reference;
pub mod replay;
pub mod rows;
pub mod search;
pub mod shape;
pub mod split;
pub mod state;
pub mod strays;
pub mod tables;
pub mod trip;
pub mod usage;
pub mod uses;
pub mod warm;

pub use shape::{Lazy, Level, Overlay, Values};
