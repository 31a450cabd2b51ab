//! A constraint-propagating backtracking Sudoku solver built on small
//! fixed-capacity bit sets of candidate digits.
pub mod bitset;
pub mod board;
pub mod text;
