//! A solver for the classic 9×9 number-place puzzle.
//!
//! The grid and the search that fills it live in [`solvers::backtracking`],
//! its drawing in [`solvers::display`]. The mathematical model that their
//! contracts speak of is in [`solvers::grid`], [`solvers::search`],
//! [`solvers::order`] and [`solvers::resume`]; [`solvers::laws`] holds what
//! follows for every solver, and [`solvers::measure`] the reason why the
//! search ends. [`input`] turns text into cells.

pub mod input;
pub mod solvers;
