//! The mathematical model of a grid: one candidate set for each of the 81
//! squares, the peer relation, and what it means for a board to be valid,
//! solved, or a refinement of another.

use crate::cell::all_digits;
use vstd::prelude::*;
use vstd::set_lib::lemma_len_subset;

verus! {

/// The candidate sets of the 81 squares, row by row.
pub type Board = Seq<Set<int>>;

/// The place of column `x`, row `y` in a board.
pub open spec fn index_of(x: int, y: int) -> int {
    x + 9 * y
}

/// Column and row both lie on the grid.
pub open spec fn in_grid(x: int, y: int) -> bool {
    0 <= x < 9 && 0 <= y < 9
}

/// Two distinct squares of the grid that share a column, a row or a box.
pub open spec fn coords_are_peers(x: int, y: int, a: int, b: int) -> bool {
    &&& in_grid(x, y)
    &&& in_grid(a, b)
    &&& !(a == x && b == y)
    &&& (a == x || b == y || (a / 3 == x / 3 && b / 3 == y / 3))
}

/// The peer relation on board indices.
pub open spec fn are_peers(i: int, j: int) -> bool {
    coords_are_peers(i % 9, i / 9, j % 9, j / 9)
}

/// A finite set of digits.
pub open spec fn candidates_wf(s: Set<int>) -> bool {
    s.finite() && s.subset_of(all_digits())
}

/// A board has 81 squares, each with a finite set of digits.
pub open spec fn board_wf(b: Board) -> bool {
    &&& b.len() == 81
    &&& forall|i: int| 0 <= i < 81 ==> candidates_wf(#[trigger] b[i])
}

/// The board on which every digit is a candidate of every square.
pub open spec fn blank_board() -> Board {
    Seq::new(81, |i: int| all_digits())
}

/// The number of candidates in the first `n` squares.
pub open spec fn total_upto(b: Board, n: nat) -> nat
    decreases n,
{
    if n == 0 {
        0
    } else {
        total_upto(b, (n - 1) as nat) + b[n - 1].len()
    }
}

/// The number of candidates on the whole board.
pub open spec fn total(b: Board) -> nat {
    total_upto(b, 81)
}

/// Every square is known.
pub open spec fn solved(b: Board) -> bool {
    forall|i: int| 0 <= i < 81 ==> (#[trigger] b[i]).len() == 1
}

/// Square `i`, if known, shares its value with no known peer.
pub open spec fn no_collision_at(b: Board, i: int) -> bool {
    forall|j: int|
        #[trigger] are_peers(i, j) && b[i].len() == 1 && b[j].len() == 1 ==> b[i].disjoint(b[j])
}

/// No two known peers hold the same value.
pub open spec fn valid(b: Board) -> bool {
    forall|i: int, j: int|
        #[trigger] are_peers(i, j) && b[i].len() == 1 && b[j].len() == 1 ==> b[i].disjoint(b[j])
}

/// A completed Sudoku: every square holds one digit, and peers differ.
pub open spec fn is_solution(s: Board) -> bool {
    board_wf(s) && solved(s) && valid(s)
}

/// How hard a square is to branch on: its number of candidates, but a known
/// square counts as 10, so that it is never preferred to an unknown one.
pub open spec fn difficulty(s: Set<int>) -> int {
    if s.len() == 1 {
        10
    } else {
        s.len() as int
    }
}

/// Square `i` is the first of the squares of least difficulty.
pub open spec fn is_lowest(b: Board, i: int) -> bool {
    &&& 0 <= i < 81
    &&& forall|j: int| 0 <= j < 81 ==> difficulty(b[i]) <= difficulty(#[trigger] b[j])
    &&& forall|j: int| 0 <= j < i ==> difficulty(b[i]) < difficulty(#[trigger] b[j])
}

/// `h` has, in every square, a subset of the candidates of `g`.
pub open spec fn refines(h: Board, g: Board) -> bool {
    &&& h.len() == g.len()
    &&& forall|i: int| 0 <= i < g.len() ==> (#[trigger] h[i]).subset_of(g[i])
}

/// A board that refines a well-formed board is well-formed, and no square of
/// it has more candidates.
pub proof fn lemma_refines_wf(h: Board, g: Board)
    requires
        board_wf(g),
        refines(h, g),
    ensures
        board_wf(h),
        forall|i: int| 0 <= i < 81 ==> (#[trigger] h[i]).len() <= g[i].len(),
{
    assert forall|i: int| 0 <= i < 81 implies candidates_wf(#[trigger] h[i]) && h[i].len()
        <= g[i].len() by {
        assert(h[i].subset_of(g[i]));
        assert(candidates_wf(g[i]));
        lemma_len_subset(h[i], g[i]);
    }
}

proof fn lemma_total_upto_le(h: Board, g: Board, n: nat)
    requires
        board_wf(g),
        refines(h, g),
        n <= 81,
    ensures
        total_upto(h, n) <= total_upto(g, n),
    decreases n,
{
    if n > 0 {
        lemma_total_upto_le(h, g, (n - 1) as nat);
        lemma_refines_wf(h, g);
    }
}

proof fn lemma_total_upto_lt(h: Board, g: Board, c: int, n: nat)
    requires
        board_wf(g),
        refines(h, g),
        0 <= c < n <= 81,
        h[c].len() < g[c].len(),
    ensures
        total_upto(h, n) < total_upto(g, n),
    decreases n,
{
    lemma_refines_wf(h, g);
    if c == n - 1 {
        lemma_total_upto_le(h, g, (n - 1) as nat);
    } else {
        lemma_total_upto_lt(h, g, c, (n - 1) as nat);
    }
}

/// Refining a board and removing a candidate from square `c` lowers its
/// number of candidates.
pub proof fn lemma_total_lt(h: Board, g: Board, c: int)
    requires
        board_wf(g),
        refines(h, g),
        0 <= c < 81,
        h[c].len() < g[c].len(),
    ensures
        total(h) < total(g),
{
    lemma_total_upto_lt(h, g, c, 81);
}

/// Refinement is transitive.
pub proof fn lemma_refines_trans(a: Board, b: Board, c: Board)
    requires
        refines(c, b),
        refines(b, a),
    ensures
        refines(c, a),
{
    assert forall|i: int| 0 <= i < a.len() implies (#[trigger] c[i]).subset_of(a[i]) by {
        assert(c[i].subset_of(b[i]));
        assert(b[i].subset_of(a[i]));
    }
}

/// Along a sequence of boards of which each refines the one before, no
/// square ever gains a candidate: a later board refines every earlier one,
/// and has in each square at most as many candidates.
pub proof fn lemma_refines_chain(bs: Seq<Board>, i: int, j: int)
    requires
        bs.len() > 0,
        board_wf(bs[0]),
        forall|k: int| 0 < k < bs.len() ==> refines(#[trigger] bs[k], bs[k - 1]),
        0 <= i <= j < bs.len(),
    ensures
        board_wf(bs[i]),
        refines(bs[j], bs[i]),
        forall|n: int| 0 <= n < 81 ==> (#[trigger] bs[j][n]).len() <= bs[i][n].len(),
    decreases j,
{
    if j == 0 {
        assert(refines(bs[0], bs[0]));
        lemma_refines_wf(bs[0], bs[0]);
    } else if i == j {
        lemma_refines_chain(bs, 0, j - 1);
        assert(refines(bs[j], bs[j - 1]));
        lemma_refines_trans(bs[0], bs[j - 1], bs[j]);
        lemma_refines_wf(bs[j], bs[0]);
        assert(refines(bs[j], bs[j]));
        lemma_refines_wf(bs[j], bs[j]);
    } else {
        lemma_refines_chain(bs, i, j - 1);
        assert(refines(bs[j], bs[j - 1]));
        lemma_refines_trans(bs[i], bs[j - 1], bs[j]);
        lemma_refines_wf(bs[j], bs[i]);
    }
}

/// Two boards that refine each other are the same board.
pub proof fn lemma_refines_antisym(a: Board, b: Board)
    requires
        refines(a, b),
        refines(b, a),
    ensures
        a == b,
{
    assert forall|i: int| 0 <= i < a.len() implies a[i] == b[i] by {
        assert(a[i].subset_of(b[i]));
        assert(b[i].subset_of(a[i]));
        assert(a[i] =~= b[i]);
    }
    assert(a =~= b);
}

/// A nonempty subset of a known square is that square.
pub proof fn lemma_known_subset(t: Set<int>, s: Set<int>)
    requires
        s.finite(),
        s.len() == 1,
        t.subset_of(s),
        t.len() > 0,
    ensures
        t == s,
{
    lemma_len_subset(t, s);
    let w = t.choose();
    assert(t.contains(w));
    assert(s.contains(w));
    assert(s.remove(w).len() == 0);
    assert(t.remove(w).len() == 0);
    assert forall|d: int| t.contains(d) <==> s.contains(d) by {
        if s.contains(d) && d != w {
            assert(s.remove(w).contains(d));
        }
    }
    assert(t =~= s);
}

/// A known square holds one value only.
pub proof fn lemma_known_value(s: Set<int>, w: int, d: int)
    requires
        s.finite(),
        s.len() == 1,
        s.contains(w),
        s.contains(d),
    ensures
        d == w,
{
    if d != w {
        assert(s.remove(w).contains(d));
        assert(s.remove(w).len() == 0);
    }
}

} // verus!
