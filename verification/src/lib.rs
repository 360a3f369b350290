//! A sudoku grid with candidate tracking, and a logical solver that applies
//! human-style techniques (singles, pairs, triples, pointing pairs and
//! box/line reduction) until no technique makes progress.

pub mod seqs;
pub mod model;
pub mod cell;
pub mod grid;
pub mod rules;
pub mod solver;
pub mod sound;
pub mod complete;
pub mod testdata;
pub mod input;

pub use cell::Cell;
pub use grid::Grid;
pub use solver::{Solver, CellRef};
pub use testdata::TestData;
