//! A verified 9x9 Sudoku solver.
//!
//! A board is a 9x9 grid of cells, each empty or holding a digit 1-9.
//! `World::construct` parses nine rows of text, `World::solve` runs a
//! backtracking search for the first conflict-free completion, and
//! `World::render` turns a board back into nine rows of text.

pub mod board;
pub mod solver;
pub mod text;
