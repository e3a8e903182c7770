//! The solving strategies, with the model they are verified against.

pub mod backtracking;
pub mod display;
pub mod grid;
pub mod laws;
pub mod measure;
pub mod order;
pub mod resume;
pub mod search;
