//! Square puzzles of order 4, 9 and 16: a grid that is read from and
//! printed to text, and a search that finds every way to complete it.
//!
//! The grid is [`sudoku::Sudoku`], the search [`solve::Solve`]. What both
//! do is stated over [`board::Board`], the mathematical picture of a
//! grid; [`search`] says which grids the search returns and in which
//! order, and [`search_laws`] and [`text_laws`] prove what follows.

pub mod bits;
pub mod board;
pub mod config;
pub mod search;
pub mod search_laws;
pub mod solve;
pub mod sudoku;
pub mod text;
pub mod text_laws;
