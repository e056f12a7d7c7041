//! Finding addresses: a street and number give a place, a place gives the
//! addresses around it.

pub mod forward;
pub mod index;
pub mod order;
pub mod sound;
pub mod suggest;

pub use index::{partition_point, Geocoder, Hit};
