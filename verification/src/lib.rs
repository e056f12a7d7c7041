//! Planet-scale routing over memory-mapped road data: the parts that decide
//! and compute, with their contracts.

pub mod addresses;
pub mod artifacts;
pub mod attr;
pub mod bitmap;
pub mod bits;
pub mod bytes;
pub mod cachecap;
pub mod catalog;
pub mod checks;
pub mod codecstat;
pub mod contract;
pub mod csr;
pub mod dataset;
pub mod diff;
pub mod double;
pub mod geo;
pub mod geocode;
pub mod graph;
pub mod heap;
pub mod inspection;
pub mod intern;
pub mod laws;
pub mod lookup;
pub mod nearby;
pub mod osc;
pub mod overlay;
pub mod overrides;
pub mod paths;
pub mod pbf;
pub mod pipeline;
pub mod profile;
pub mod ranking;
pub mod router;
pub mod searchstate;
pub mod sorting;
pub mod text;
pub mod varint;
pub mod ways;
