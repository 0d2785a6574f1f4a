//! Puzzles as text: what a puzzle's characters stand for, the board that
//! reading them gives, and the solutions that fit a puzzle.

use crate::board::{
    blank_board, board_wf, candidates_wf, is_solution, lemma_known_subset, lemma_refines_wf,
    refines, Board,
};
use crate::cell::all_digits;
use crate::propagation::{assign_spec, lemma_propagate_is};
use crate::solver::lemma_solution_admitted;
use crate::SudokuError;
use vstd::prelude::*;

verus! {

/// What a character of a puzzle stands for: `Some(d)` for a digit `d` from
/// 1 to 9, `Some(0)` for an empty square (`0` or `.`), and `None` for a
/// character that is skipped.
pub open spec fn clue_of(ch: char) -> Option<int> {
    if '1' <= ch <= '9' {
        Some(ch as int - '0' as int)
    } else if ch == '0' || ch == '.' {
        Some(0)
    } else {
        None
    }
}

/// The board after the characters `s` and the number of squares they
/// filled, or `None` where they name more than 81 squares or a clue could
/// not be assigned.
pub open spec fn parse_prefix(s: Seq<char>) -> Option<(Board, int)>
    decreases s.len(),
{
    if s.len() == 0 {
        Some((blank_board(), 0))
    } else {
        match parse_prefix(s.drop_last()) {
            None => None,
            Some((b, n)) => match clue_of(s.last()) {
                None => Some((b, n)),
                Some(d) => if n >= 81 {
                    None
                } else if d == 0 {
                    Some((b, n + 1))
                } else {
                    match assign_spec(b, n, d) {
                        Ok(b2) => Some((b2, n + 1)),
                        Err(_) => None,
                    }
                },
            },
        }
    }
}

/// What parsing the puzzle `s` gives.
pub open spec fn parse_spec(s: Seq<char>) -> Result<Board, SudokuError> {
    match parse_prefix(s) {
        Some((b, _)) => Ok(b),
        None => Err(SudokuError::InvalidGrid),
    }
}

/// Once a prefix of a puzzle has failed, the puzzle has failed.
pub proof fn lemma_parse_fails(s: Seq<char>, n: int)
    requires
        0 <= n <= s.len(),
        parse_prefix(s.take(n)) is None,
    ensures
        parse_prefix(s) is None,
    decreases s.len() - n,
{
    if n < s.len() {
        assert(s.take(n + 1).drop_last() =~= s.take(n));
        lemma_parse_fails(s, n + 1);
    } else {
        assert(s.take(n) =~= s);
    }
}

/// The squares that a puzzle names, in order: the digit of each clue, and 0
/// for each square left open.
pub open spec fn clues(s: Seq<char>) -> Seq<int>
    decreases s.len(),
{
    if s.len() == 0 {
        Seq::empty()
    } else {
        match clue_of(s.last()) {
            Some(d) => clues(s.drop_last()).push(d),
            None => clues(s.drop_last()),
        }
    }
}

/// The puzzle names at most 81 squares, and the board `b` holds each clue,
/// and nothing else, in the clue's square.
pub open spec fn fits(b: Board, s: Seq<char>) -> bool {
    &&& clues(s).len() <= 81
    &&& forall|n: int|
        0 <= n < clues(s).len() && #[trigger] clues(s)[n] != 0 ==> b[n] == set![clues(s)[n]]
}

/// The board that reading a puzzle gives is well-formed, and the candidates
/// that it leaves in the square of a clue are at most the clue.
pub proof fn lemma_parse_sound(s: Seq<char>)
    ensures
        parse_prefix(s) matches Some((b, n)) ==> {
            &&& board_wf(b)
            &&& n == clues(s).len()
            &&& n <= 81
            &&& forall|m: int|
                0 <= m < n && #[trigger] clues(s)[m] != 0 ==> b[m].subset_of(set![clues(s)[m]])
        },
    decreases s.len(),
{
    if s.len() == 0 {
        assert forall|i: int| 0 <= i < 81 implies candidates_wf(#[trigger] blank_board()[i]) by {
            assert(all_digits() =~= set![1int, 2, 3, 4, 5, 6, 7, 8, 9]);
        }
    } else {
        let t = s.drop_last();
        lemma_parse_sound(t);
        match parse_prefix(t) {
            Some((b, n)) => {
                match clue_of(s.last()) {
                    Some(d) => {
                        if n < 81 && d != 0 {
                            lemma_propagate_is(b, n, set![d]);
                            match assign_spec(b, n, d) {
                                Ok(b2) => {
                                    lemma_refines_wf(b2, b);
                                    assert forall|m: int|
                                        0 <= m < n + 1 && #[trigger] clues(s)[m]
                                            != 0 implies b2[m].subset_of(set![clues(s)[m]]) by {
                                        assert(b2[m].subset_of(b[m]));
                                        if m < n {
                                            assert(clues(s)[m] == clues(t)[m]);
                                        }
                                    }
                                },
                                Err(_) => {},
                            }
                        } else if n < 81 {
                            assert forall|m: int|
                                0 <= m < n + 1 && #[trigger] clues(s)[m]
                                    != 0 implies b[m].subset_of(set![clues(s)[m]]) by {
                                assert(clues(s)[m] == clues(t)[m]);
                            }
                        }
                    },
                    None => {},
                }
            },
            None => {},
        }
    }
}

/// Reading a puzzle that a solution fits succeeds, and the solution refines
/// the board that it gives.
pub proof fn lemma_parse_complete(s: Seq<char>, sol: Board)
    requires
        is_solution(sol),
        fits(sol, s),
    ensures
        parse_prefix(s) matches Some((b, n)) && refines(sol, b),
    decreases s.len(),
{
    if s.len() == 0 {
        assert(refines(sol, blank_board()));
    } else {
        let t = s.drop_last();
        assert(fits(sol, t)) by {
            assert forall|n: int|
                0 <= n < clues(t).len() && #[trigger] clues(t)[n] != 0 implies sol[n] == set![
                clues(t)[n],
            ] by {
                assert(clues(s)[n] == clues(t)[n]);
            }
        }
        lemma_parse_complete(t, sol);
        lemma_parse_sound(t);
        match parse_prefix(t) {
            Some((b, n)) => {
                match clue_of(s.last()) {
                    Some(d) => {
                        if d != 0 {
                            assert(clues(s)[n] == d);
                            assert(sol[n] == set![d]);
                            assert(sol[n].subset_of(b[n]));
                            lemma_solution_admitted(b, sol, n, set![d]);
                            lemma_propagate_is(b, n, set![d]);
                        }
                    },
                    None => {},
                }
            },
            None => {},
        }
    }
}

/// A solution that refines the board read from a puzzle fits the puzzle.
pub proof fn lemma_refinement_fits(s: Seq<char>, sol: Board)
    requires
        is_solution(sol),
        parse_prefix(s) matches Some((b, n)) && refines(sol, b),
    ensures
        fits(sol, s),
{
    lemma_parse_sound(s);
    match parse_prefix(s) {
        Some((b, _)) => {
            assert forall|n: int|
                0 <= n < clues(s).len() && #[trigger] clues(s)[n] != 0 implies sol[n] == set![
                clues(s)[n],
            ] by {
                assert(sol[n].subset_of(b[n]));
                assert(b[n].subset_of(set![clues(s)[n]]));
                lemma_known_subset(sol[n], set![clues(s)[n]]);
            }
        },
        None => {},
    }
}

} // verus!
