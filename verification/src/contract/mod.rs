//! Ways cut into segments between junctions.

pub mod collect;
pub mod cut;
