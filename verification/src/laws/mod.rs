//! What holds of the library's answers, said of what goes in and what comes
//! out.

pub mod around;
pub mod attributes;
pub mod blobs;
pub mod blocks;
pub mod building;
pub mod carving;
pub mod changing;
pub mod cutting;
pub mod driving;
pub mod editing;
pub mod finding;
pub mod forgetting;
pub mod halving;
pub mod harvesting;
pub mod housing;
pub mod inspecting;
pub mod keeping;
pub mod listing;
pub mod local;
pub mod measuring;
pub mod nodes;
pub mod reading;
pub mod riding;
pub mod speeds;
pub mod telling;
pub mod words;
