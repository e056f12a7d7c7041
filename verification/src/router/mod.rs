//! Routes over the plain road graph.
//!
//! Only the two ends are approximate: a point snaps to the nearest place on the
//! nearest segment. Everything between is an integer sum of stored lengths.

pub mod ends;
pub mod kept;
pub mod line;
pub mod route;
pub mod search;
pub mod steps;

pub use ends::{Along, Snap};
pub use line::route_points;
pub use route::{Leg, Route};
pub use search::Router;
pub use steps::{class_name, route_steps, route_tolls};
