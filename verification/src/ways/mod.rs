//! What is kept of the ways and nodes of an extract.

pub mod harvest;
pub mod record;
pub mod stamp;
