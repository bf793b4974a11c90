//! What the program around this library is asked to do.

use crate::sudoku::{Sudoku, SudokuMaxNumber};
use vstd::prelude::*;

verus! {

/// What the program was started for.
#[derive(Debug)]
pub struct Options {
    pub cmd: Command,
    /// Whether to report what was passed over while reading a text.
    pub debug: bool,
}

/// One of the program's three operations.
#[derive(Debug)]
pub enum Command {
    /// Make a grid of the given size.
    Generate { size: SudokuMaxNumber, difficulty: u8 },
    /// Play a grid of the given size.
    Play { size: SudokuMaxNumber, difficulty: u8 },
    /// Solve the given grids.
    Solve { sudokus: Vec<Sudoku> },
}

impl Default for Options {
    /// Nothing to solve, and no reports.
    fn default() -> (options: Options)
        ensures
            !options.debug,
            options.cmd matches Command::Solve { sudokus } && sudokus@.len() == 0,
    {
        Options { cmd: Command::Solve { sudokus: Vec::new() }, debug: false }
    }
}

} // verus!
