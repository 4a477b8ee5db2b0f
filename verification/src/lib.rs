//! A 9x9 number-placement puzzle and a solver that works on it one step at a
//! time.
//!
//! [`sudoku`] holds the grid and the puzzle, [`solver`] the steps and the
//! solver that runs them in turn. [`units`] says which cells make up a row, a
//! column and a box, [`notes`] what a candidate mask means, and [`input`] what
//! a key press asks for.
pub mod input;
pub mod notes;
pub mod solver;
pub mod sudoku;
pub mod units;
