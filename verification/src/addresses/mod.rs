//! Addresses: reading them, and the indexes that find them.

pub mod doors;
pub mod entries;
pub mod index;
pub mod words;

pub use words::{hn_number, normalize};
