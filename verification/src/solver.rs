//! Depth-first search: propagate, guess the least candidate of the most
//! constrained square, and fall back to eliminating the guess.

use crate::board::{
    are_peers, board_wf, candidates_wf, difficulty, in_grid, index_of, is_lowest, is_solution,
    lemma_known_subset, lemma_known_value, lemma_refines_trans, lemma_refines_wf,
    lemma_total_lt, refines, solved, total, valid, Board,
};
use crate::cell::{all_digits, Value};
use crate::grid::{outcome, Grid};
use crate::propagation::{admits, assign_spec, eliminate_spec, is_propagation, lemma_propagate_is};
use crate::SudokuError;
use vstd::prelude::*;
use vstd::set_lib::lemma_len_subset;

verus! {

/// The least digit of a set of candidates.
pub open spec fn least(s: Set<int>) -> int {
    choose|d: int| s.contains(d) && forall|e: int| s.contains(e) ==> d <= e
}

/// The square to branch on: the first of those with the fewest candidates,
/// a known square counting as having more than any other.
pub open spec fn lowest(b: Board) -> int {
    choose|i: int| is_lowest(b, i)
}

proof fn lemma_least_from(s: Set<int>, d: int) -> (w: int)
    requires
        candidates_wf(s),
        s.len() > 0,
        1 <= d <= 10,
        forall|e: int| s.contains(e) ==> d <= e,
    ensures
        s.contains(w),
        forall|e: int| s.contains(e) ==> w <= e,
    decreases 10 - d,
{
    if s.contains(d) {
        d
    } else if d >= 10 {
        let e = s.choose();
        assert(s.contains(e));
        assert(all_digits().contains(e));
        d
    } else {
        assert forall|e: int| s.contains(e) implies d + 1 <= e by {
            assert(d <= e);
        }
        lemma_least_from(s, d + 1)
    }
}

/// A nonempty set of digits holds its least digit, and `d` is that digit
/// if it is in the set and no digit of the set is smaller.
pub proof fn lemma_least(s: Set<int>)
    requires
        candidates_wf(s),
        s.len() > 0,
    ensures
        s.contains(least(s)),
        1 <= least(s) <= 9,
        forall|e: int| s.contains(e) ==> least(s) <= e,
        forall|d: int| s.contains(d) && (forall|e: int| s.contains(e) ==> d <= e) ==> d == least(s),
{
    assert forall|e: int| s.contains(e) implies 1 <= e by {
        assert(all_digits().contains(e));
    }
    let w = lemma_least_from(s, 1);
    assert(all_digits().contains(least(s)));
}

/// The nine digits are nine, and no set of digits has more.
pub proof fn lemma_at_most_nine(s: Set<int>)
    requires
        candidates_wf(s),
    ensures
        s.len() <= 9,
{
    assert(all_digits() =~= set![1int, 2, 3, 4, 5, 6, 7, 8, 9]);
    lemma_len_subset(s, all_digits());
}

proof fn lemma_lowest_upto(b: Board, n: int) -> (i: int)
    requires
        1 <= n <= 81,
    ensures
        0 <= i < n,
        forall|j: int| 0 <= j < n ==> difficulty(b[i]) <= difficulty(#[trigger] b[j]),
        forall|j: int| 0 <= j < i ==> difficulty(b[i]) < difficulty(#[trigger] b[j]),
    decreases n,
{
    if n == 1 {
        0
    } else {
        let i = lemma_lowest_upto(b, n - 1);
        if difficulty(b[n - 1]) < difficulty(b[i]) {
            n - 1
        } else {
            i
        }
    }
}

/// Every board has exactly one square to branch on; on a well-formed board
/// that is not solved, it is not a known square.
pub proof fn lemma_lowest(b: Board)
    ensures
        is_lowest(b, lowest(b)),
        forall|i: int| is_lowest(b, i) ==> i == lowest(b),
        board_wf(b) && !solved(b) ==> b[lowest(b)].len() != 1,
{
    let i = lemma_lowest_upto(b, 81);
    assert(is_lowest(b, i));
    let c = lowest(b);
    assert forall|i: int| is_lowest(b, i) implies i == c by {
        if i < c {
            assert(difficulty(b[c]) < difficulty(b[i]));
        }
        if c < i {
            assert(difficulty(b[i]) < difficulty(b[c]));
        }
    }
    if board_wf(b) && !solved(b) {
        let j = choose|j: int| 0 <= j < 81 && (#[trigger] b[j]).len() != 1;
        lemma_at_most_nine(b[j]);
        assert(difficulty(b[c]) <= difficulty(b[j]));
    }
}

/// What the search returns on the board `b`.
///
/// An invalid board fails, and a solved one is the result. Otherwise the
/// least candidate of the square to branch on is assigned and the search
/// goes on from there; where that fails, the candidate is eliminated
/// instead, and the search goes on from there.
pub open spec fn search_spec(b: Board) -> Result<Board, SudokuError>
    decreases total(b),
    when board_wf(b)
    via search_decreases
{
    let c = lowest(b);
    let v = least(b[c]);
    if !valid(b) {
        Err(SudokuError::InvalidGrid)
    } else if solved(b) {
        Ok(b)
    } else if b[c].len() == 0 {
        Err(SudokuError::InvalidGrid)
    } else {
        let guess = match assign_spec(b, c, v) {
            Ok(b1) => search_spec(b1),
            Err(e) => Err(e),
        };
        match guess {
            Ok(r) => Ok(r),
            Err(_) => match eliminate_spec(b, c, v) {
                Ok(b2) => search_spec(b2),
                Err(e) => Err(e),
            },
        }
    }
}

/// Both boards from which the search goes on have fewer candidates.
pub proof fn lemma_branches(b: Board)
    requires
        board_wf(b),
        !solved(b),
        b[lowest(b)].len() != 0,
    ensures
        0 <= lowest(b) < 81,
        b[lowest(b)].len() >= 2,
        b[lowest(b)].contains(least(b[lowest(b)])),
        assign_spec(b, lowest(b), least(b[lowest(b)])) matches Ok(b1) ==> board_wf(b1) && refines(
            b1,
            b,
        ) && total(b1) < total(b) && is_propagation(
            b,
            b1,
            lowest(b),
            set![least(b[lowest(b)])],
        ),
        eliminate_spec(b, lowest(b), least(b[lowest(b)])) matches Ok(b2) ==> board_wf(b2)
            && refines(b2, b) && total(b2) < total(b) && is_propagation(
            b,
            b2,
            lowest(b),
            b[lowest(b)].remove(least(b[lowest(b)])),
        ),
{
    let c = lowest(b);
    let v = least(b[c]);
    lemma_lowest(b);
    lemma_least(b[c]);
    lemma_propagate_is(b, c, set![v]);
    lemma_propagate_is(b, c, b[c].remove(v));
    match assign_spec(b, c, v) {
        Ok(b1) => {
            lemma_refines_wf(b1, b);
            assert(b1[c].subset_of(set![v]));
            lemma_len_subset(b1[c], set![v]);
            lemma_total_lt(b1, b, c);
        },
        Err(_) => {},
    }
    match eliminate_spec(b, c, v) {
        Ok(b2) => {
            lemma_refines_wf(b2, b);
            lemma_len_subset(b2[c], b[c].remove(v));
            lemma_total_lt(b2, b, c);
        },
        Err(_) => {},
    }
}

#[via_fn]
proof fn search_decreases(b: Board) {
    if valid(b) && !solved(b) && b[lowest(b)].len() != 0 {
        lemma_branches(b);
    }
}

/// A solution that refines a board is admitted by it under every
/// restriction that the solution meets.
pub proof fn lemma_solution_admitted(g: Board, s: Board, c: int, allowed: Set<int>)
    requires
        board_wf(g),
        is_solution(s),
        refines(s, g),
        s[c].subset_of(allowed),
    ensures
        admits(g, s, c, allowed),
{
    assert forall|i: int| 0 <= i < g.len() && g[i].len() > 0 implies (#[trigger] s[i]).len()
        > 0 by {}
    assert forall|i: int, j: int|
        #[trigger] are_peers(i, j) && g[i].len() != 1 && s[i].len() == 1 implies s[i].disjoint(
        s[j],
    ) by {
        assert(s[j].len() == 1);
    }
}

/// A board that some solution refines is valid.
pub proof fn lemma_solution_valid(g: Board, s: Board)
    requires
        board_wf(g),
        is_solution(s),
        refines(s, g),
    ensures
        valid(g),
{
    assert forall|i: int, j: int|
        #[trigger] are_peers(i, j) && g[i].len() == 1 && g[j].len() == 1 implies g[i].disjoint(
        g[j],
    ) by {
        assert(s[i].len() == 1 && s[j].len() == 1);
        assert(s[i].subset_of(g[i]) && s[j].subset_of(g[j]));
        lemma_known_subset(s[i], g[i]);
        lemma_known_subset(s[j], g[j]);
    }
}

/// What the search returns is a solution, and it refines the board that the
/// search started from.
pub proof fn lemma_search_sound(b: Board)
    requires
        board_wf(b),
    ensures
        search_spec(b) matches Ok(r) ==> is_solution(r) && refines(r, b),
    decreases total(b),
{
    let c = lowest(b);
    let v = least(b[c]);
    if valid(b) && !solved(b) && b[c].len() != 0 {
        lemma_branches(b);
        match assign_spec(b, c, v) {
            Ok(b1) => {
                lemma_search_sound(b1);
                match search_spec(b1) {
                    Ok(r) => {
                        lemma_refines_trans(b, b1, r);
                    },
                    Err(_) => {},
                }
            },
            Err(_) => {},
        }
        match eliminate_spec(b, c, v) {
            Ok(b2) => {
                lemma_search_sound(b2);
                match search_spec(b2) {
                    Ok(r) => {
                        lemma_refines_trans(b, b2, r);
                    },
                    Err(_) => {},
                }
            },
            Err(_) => {},
        }
    }
}

/// Where a solution refines the board, the search succeeds.
pub proof fn lemma_search_complete(b: Board, s: Board)
    requires
        board_wf(b),
        is_solution(s),
        refines(s, b),
    ensures
        search_spec(b) is Ok,
    decreases total(b),
{
    let c = lowest(b);
    let v = least(b[c]);
    lemma_solution_valid(b, s);
    lemma_lowest(b);
    if !solved(b) {
        assert(s[c].subset_of(b[c]));
        lemma_len_subset(s[c], b[c]);
        lemma_branches(b);
        lemma_propagate_is(b, c, set![v]);
        lemma_propagate_is(b, c, b[c].remove(v));
        if s[c].contains(v) {
            assert(s[c].subset_of(set![v])) by {
                assert forall|d: int| s[c].contains(d) implies d == v by {
                    lemma_known_value(s[c], v, d);
                }
            }
            lemma_solution_admitted(b, s, c, set![v]);
            match assign_spec(b, c, v) {
                Ok(b1) => {
                    lemma_search_complete(b1, s);
                },
                Err(_) => {},
            }
        } else {
            lemma_solution_admitted(b, s, c, b[c].remove(v));
            match eliminate_spec(b, c, v) {
                Ok(b2) => {
                    lemma_search_complete(b2, s);
                },
                Err(_) => {},
            }
        }
    }
}

/// The search succeeds exactly on the boards that a solution refines.
pub proof fn lemma_search_finds(b: Board)
    requires
        board_wf(b),
    ensures
        search_spec(b) is Ok <==> exists|s: Board| is_solution(s) && #[trigger] refines(s, b),
{
    lemma_search_sound(b);
    if exists|s: Board| is_solution(s) && #[trigger] refines(s, b) {
        let s = choose|s: Board| is_solution(s) && #[trigger] refines(s, b);
        lemma_search_complete(b, s);
    }
    match search_spec(b) {
        Ok(r) => {
            assert(is_solution(r) && refines(r, b));
        },
        Err(_) => {},
    }
}

/// Searches for a solution of `grid`.
///
/// An invalid grid fails with `InvalidGrid`, and so does one whose square to
/// branch on has no candidate left; a solved grid is returned as it is.
/// Otherwise the least candidate of the square with the fewest candidates is
/// tried; where the search from there fails, that candidate is eliminated
/// and the search goes on, and what fails then is the failure returned.
///
/// The search succeeds exactly where some solution refines the grid, and
/// what it returns is such a solution.
pub fn search(mut grid: Grid) -> (r: Result<Grid, SudokuError>)
    requires
        grid.wf(),
    ensures
        outcome(r) == search_spec(grid@),
        r matches Ok(g) ==> g.wf() && is_solution(g@) && refines(g@, grid@),
        r is Ok <==> exists|s: Board| is_solution(s) && #[trigger] refines(s, grid@),
    decreases total(grid@), 1int,
{
    let ghost b = grid@;
    proof {
        grid.lemma_wf();
        lemma_search_finds(b);
        lemma_search_sound(b);
        lemma_lowest(b);
    }
    if !grid.is_valid() {
        return Err(SudokuError::InvalidGrid);
    }
    if grid.is_solved() {
        return Ok(grid);
    }
    let (x, y) = grid.get_lowest_pos();
    let ghost c = index_of(x as int, y as int);
    let cell = *grid.get(x, y);
    proof {
        cell.lemma_wf();
        assert(c == lowest(b));
    }
    if cell.is_known() {
        // A grid that is not solved never has a known cell as its square to
        // branch on; were it otherwise, the grid would be handed back.
        Ok(grid)
    } else {
        let nums = cell.nums();
        if nums.len() == 0 {
            return Err(SudokuError::InvalidGrid);
        }
        let num = nums[0];
        proof {
            lemma_branches(b);
            lemma_least(b[c]);
            assert(nums@.contains(num));
            assert forall|e: int| b[c].contains(e) implies num <= e by {
                assert(nums@.contains(e as u32));
                let l = choose|l: int| 0 <= l < nums@.len() && nums@[l] == e as u32;
                if l > 0 {
                    assert(nums@[0] < nums@[l]);
                }
            }
            assert(num as int == least(b[c]));
        }
        match try_assign(&grid, x, y, num) {
            Ok(g) => Ok(g),
            Err(_) => {
                match grid.eliminate(x, y, Value::from(num)) {
                    Ok(()) => {},
                    Err(e) => {
                        return Err(e);
                    },
                }
                search(grid)
            },
        }
    }
}

/// Assigns `num` to the square in column `x`, row `y` of a copy of `grid`
/// and searches on from there.
fn try_assign(grid: &Grid, x: i32, y: i32, num: u32) -> (r: Result<Grid, SudokuError>)
    requires
        grid.wf(),
        in_grid(x as int, y as int),
        1 <= num <= 9,
        grid@[index_of(x as int, y as int)].len() >= 2,
    ensures
        outcome(r) == (match assign_spec(grid@, index_of(x as int, y as int), num as int) {
            Ok(b1) => search_spec(b1),
            Err(e) => Err(e),
        }),
        r matches Ok(g) ==> g.wf(),
    decreases total(grid@), 0int,
{
    let ghost b = grid@;
    let ghost c = index_of(x as int, y as int);
    let new_grid = match grid.with_assigned(x, y, num) {
        Ok(g) => g,
        Err(e) => {
            return Err(e);
        },
    };
    proof {
        grid.lemma_wf();
        let b1 = new_grid@;
        assert(refines(b1, b));
        lemma_refines_wf(b1, b);
        assert(b1[c].subset_of(set![num as int]));
        lemma_len_subset(b1[c], set![num as int]);
        lemma_total_lt(b1, b, c);
    }
    search(new_grid)
}

} // verus!
