//! Discovery and upkeep of length and offset fields inside binary test cases.

pub mod field;
pub mod relation;
pub mod structured;
pub mod search;
pub mod input;
