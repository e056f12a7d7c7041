//! Change files: which ways an edit named, where the nodes it moved are, and
//! what that can change in a dataset.

pub mod markup;
pub mod numerals;
pub mod scan;
pub mod settle;
