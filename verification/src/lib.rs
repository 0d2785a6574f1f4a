//! A Sudoku solver built on constraint propagation and backtracking search.
//!
//! A puzzle is a string in which the digits `1` to `9` give a cell's value,
//! `0` and `.` stand for an empty cell, and every other character is ignored.

pub mod board;
pub mod cell;
pub mod grid;
pub mod order;
pub mod propagation;
pub mod puzzle;
pub mod render;
pub mod solver;

use crate::board::{is_solution, Board};
use crate::grid::{outcome, Grid};
use crate::puzzle::{fits, lemma_parse_complete, lemma_refinement_fits, parse_spec};
use crate::solver::{lemma_search_complete, search, search_spec};
use vstd::prelude::*;

verus! {

/// The ways in which solving can fail.
#[derive(Debug, Clone, Copy, PartialEq, Eq, Structural)]
pub enum SudokuError {
    /// A value was assigned to a cell that is already known to hold another value.
    AssigningToKnownCell,
    /// The grid breaks the rules of Sudoku, or its clues contradict each other.
    InvalidGrid,
    /// The only remaining candidate of a known cell was to be removed.
    RemovingKnownValue,
}

/// What solving the puzzle `s` gives.
pub open spec fn solve_spec(s: Seq<char>) -> Result<Board, SudokuError> {
    match parse_spec(s) {
        Ok(b) => search_spec(b),
        Err(e) => Err(e),
    }
}

/// Solves the puzzle in `sudoku_data`: the grid is read, with every clue
/// propagated, and then searched.
///
/// Solving succeeds exactly on the puzzles that have a solution: a completed
/// Sudoku that holds each clue in its square. What is returned is such a
/// solution, and so the solution of a puzzle that has only one.
pub fn solve(sudoku_data: &str) -> (r: Result<Grid, SudokuError>)
    ensures
        outcome(r) == solve_spec(sudoku_data@),
        r matches Ok(g) ==> g.wf() && is_solution(g@) && fits(g@, sudoku_data@),
        r is Ok <==> exists|s: Board| is_solution(s) && #[trigger] fits(s, sudoku_data@),
{
    proof {
        if exists|s: Board| is_solution(s) && #[trigger] fits(s, sudoku_data@) {
            let s = choose|s: Board| is_solution(s) && #[trigger] fits(s, sudoku_data@);
            lemma_parse_complete(sudoku_data@, s);
        }
    }
    let grid = match Grid::from_string(sudoku_data) {
        Ok(g) => g,
        Err(e) => {
            return Err(e);
        },
    };
    let ghost b = grid@;
    proof {
        grid.lemma_wf();
        if exists|s: Board| is_solution(s) && #[trigger] fits(s, sudoku_data@) {
            let s = choose|s: Board| is_solution(s) && #[trigger] fits(s, sudoku_data@);
            lemma_parse_complete(sudoku_data@, s);
            lemma_search_complete(b, s);
        }
    }
    let r = search(grid);
    proof {
        if let Ok(g) = outcome(r) {
            lemma_refinement_fits(sudoku_data@, g);
        }
    }
    r
}

} // verus!
