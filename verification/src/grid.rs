//! The grid: 81 cells addressed by column and row, the peers of a square,
//! and the propagation of eliminations and assignments.

use crate::board::{
    are_peers, blank_board, board_wf, candidates_wf, coords_are_peers, difficulty, in_grid,
    index_of, is_lowest, lemma_refines_trans, lemma_refines_wf, no_collision_at, refines,
    solved, total, valid, Board,
};
use crate::cell::{all_digits, Cell, Value};
use crate::propagation::{
    admits, assign_spec, assigns_to_known, eliminate_spec, is_propagation,
    lemma_eliminate_absent, lemma_propagate_none, lemma_propagate_some, lemma_propagation_chain,
    lemma_propagation_chain_fails, lemma_propagation_same, lemma_restrict_plain,
    lemma_spreading_done, lemma_spreading_facts, lemma_spreading_fails, lemma_spreading_init,
    lemma_spreading_step, no_propagation, spreading, spreading_from,
};
use crate::puzzle::{clue_of, lemma_parse_fails, parse_prefix, parse_spec};
use crate::SudokuError;
use vstd::prelude::*;

verus! {

/// The 81 cells of a Sudoku, row by row.
#[derive(Debug)]
pub struct Grid {
    cells: Vec<Cell>,
}

impl View for Grid {
    type V = Board;

    /// The candidate set of each square.
    closed spec fn view(&self) -> Board {
        Seq::new(self.cells@.len(), |i: int| self.cells@[i]@)
    }
}

/// The 20 peers of the square in column `x`, row `y`, each listed once.
pub open spec fn is_peer_list(x: int, y: int, ps: Seq<(i32, i32)>) -> bool {
    &&& ps.len() == 20
    &&& forall|k: int|
        0 <= k < ps.len() ==> coords_are_peers(x, y, (#[trigger] ps[k]).0 as int, ps[k].1 as int)
    &&& ps.no_duplicates()
    &&& forall|a: i32, b: i32|
        coords_are_peers(x, y, a as int, b as int) ==> ps.contains((a, b))
}

proof fn lemma_push_fresh<T>(s: Seq<T>, e: T)
    requires
        s.no_duplicates(),
        !s.contains(e),
    ensures
        s.push(e).no_duplicates(),
        forall|v: T|
            #![trigger s.push(e).contains(v)]
            s.push(e).contains(v) <==> (s.contains(v) || v == e),
{
    let t = s.push(e);
    assert forall|v: T| #![trigger t.contains(v)] t.contains(v) <==> (s.contains(v) || v == e) by {
        if t.contains(v) {
            let k = choose|k: int| 0 <= k < t.len() && t[k] == v;
            if k < s.len() {
                assert(s[k] == v);
            }
        }
        if s.contains(v) {
            let k = choose|k: int| 0 <= k < s.len() && s[k] == v;
            assert(t[k] == v);
        }
        if v == e {
            assert(t[s.len() as int] == v);
        }
    }
    assert forall|k: int, l: int| 0 <= k < t.len() && 0 <= l < t.len() && k != l implies t[k]
        != t[l] by {
        if k < s.len() && l < s.len() {
        } else if k < s.len() {
            assert(s[k] == t[k]);
        } else {
            assert(s[l] == t[l]);
        }
    }
}

/// Lists the peers of a square: first, row by row, the square of its column
/// and the square of its row, then the rest of its box.
fn peer_positions(x: i32, y: i32) -> (ps: Vec<(i32, i32)>)
    requires
        in_grid(x as int, y as int),
    ensures
        is_peer_list(x as int, y as int, ps@),
{
    let mut ps: Vec<(i32, i32)> = Vec::new();
    let mut i: i32 = 0;
    while i < 9
        invariant
            0 <= i <= 9,
            in_grid(x as int, y as int),
            ps@.len() == 2 * i - (if y < i {
                1int
            } else {
                0int
            }) - (if x < i {
                1int
            } else {
                0int
            }),
            forall|k: int|
                0 <= k < ps@.len() ==> coords_are_peers(
                    x as int,
                    y as int,
                    (#[trigger] ps@[k]).0 as int,
                    ps@[k].1 as int,
                ),
            ps@.no_duplicates(),
            forall|a: i32, b: i32|
                ps@.contains((a, b)) <==> ((a == x && 0 <= b < i && b != y) || (b == y && 0 <= a < i
                    && a != x)),
        decreases 9 - i,
    {
        if i != y {
            proof {
                assert(!ps@.contains((x, i)));
                lemma_push_fresh(ps@, (x, i));
            }
            ps.push((x, i));
        }
        if i != x {
            proof {
                assert(!ps@.contains((i, y)));
                lemma_push_fresh(ps@, (i, y));
            }
            ps.push((i, y));
        }
        i = i + 1;
    }
    let x_offset: i32 = 3 * (x / 3);
    let y_offset: i32 = 3 * (y / 3);
    let mut i: i32 = 0;
    while i < 3
        invariant
            0 <= i <= 3,
            in_grid(x as int, y as int),
            x_offset == 3 * (x / 3),
            y_offset == 3 * (y / 3),
            ps@.len() == 16 + 2 * i - (if x - x_offset < i {
                2int
            } else {
                0int
            }),
            forall|k: int|
                0 <= k < ps@.len() ==> coords_are_peers(
                    x as int,
                    y as int,
                    (#[trigger] ps@[k]).0 as int,
                    ps@[k].1 as int,
                ),
            ps@.no_duplicates(),
            forall|a: i32, b: i32|
                ps@.contains((a, b)) <==> ((a == x && 0 <= b < 9 && b != y) || (b == y && 0 <= a < 9
                    && a != x) || (a != x && b != y && x_offset <= a < x_offset + i && y_offset
                    <= b < y_offset + 3)),
        decreases 3 - i,
    {
        let mut j: i32 = 0;
        while j < 3
            invariant
                0 <= i < 3,
                0 <= j <= 3,
                in_grid(x as int, y as int),
                x_offset == 3 * (x / 3),
                y_offset == 3 * (y / 3),
                ps@.len() == 16 + 2 * i - (if x - x_offset < i {
                    2int
                } else {
                    0int
                }) + (if x - x_offset == i {
                    0int
                } else {
                    j - (if y - y_offset < j {
                        1int
                    } else {
                        0int
                    })
                }),
                forall|k: int|
                    0 <= k < ps@.len() ==> coords_are_peers(
                        x as int,
                        y as int,
                        (#[trigger] ps@[k]).0 as int,
                        ps@[k].1 as int,
                    ),
                ps@.no_duplicates(),
                forall|a: i32, b: i32|
                    ps@.contains((a, b)) <==> ((a == x && 0 <= b < 9 && b != y) || (b == y && 0
                        <= a < 9 && a != x) || (a != x && b != y && x_offset <= a < x_offset + i
                        && y_offset <= b < y_offset + 3) || (a != x && b != y && a == x_offset + i
                        && y_offset <= b < y_offset + j)),
            decreases 3 - j,
        {
            let nx = i + x_offset;
            let ny = j + y_offset;
            if nx != x && ny != y {
                proof {
                    assert(!ps@.contains((nx, ny)));
                    lemma_push_fresh(ps@, (nx, ny));
                }
                ps.push((nx, ny));
            }
            j = j + 1;
        }
        i = i + 1;
    }
    proof {
        assert forall|a: i32, b: i32| coords_are_peers(x as int, y as int, a as int, b as int)
            implies ps@.contains((a, b)) by {
            if a != x && b != y {
                assert(a / 3 == x / 3 && b / 3 == y / 3);
                assert(x_offset <= a < x_offset + 3 && y_offset <= b < y_offset + 3);
            }
        }
    }
    ps
}

impl Grid {
    /// The cell at index `i`.
    pub closed spec fn cell(&self, i: int) -> Cell {
        self.cells@[i]
    }

    /// There are 81 cells, each well-formed.
    pub closed spec fn wf(&self) -> bool {
        &&& self.cells@.len() == 81
        &&& forall|i: int| 0 <= i < 81 ==> (#[trigger] self.cells@[i]).wf()
    }

    /// The view of a well-formed grid is a well-formed board, which holds
    /// the candidate sets of the grid's cells; and each cell's count is the
    /// number of its candidates.
    pub proof fn lemma_wf(&self)
        requires
            self.wf(),
        ensures
            board_wf(self@),
            forall|i: int|
                0 <= i < 81 ==> {
                    &&& (#[trigger] self.cell(i)).wf()
                    &&& self.cell(i)@ == self@[i]
                    &&& self.cell(i).spec_count() == self@[i].len()
                },
    {
        assert forall|i: int| 0 <= i < 81 implies {
            &&& (#[trigger] self.cell(i)).wf()
            &&& self.cell(i)@ == self@[i]
            &&& self.cell(i).spec_count() == self@[i].len()
            &&& candidates_wf(self@[i])
        } by {
            assert(self.cells@[i].wf());
            self.cells@[i].lemma_wf();
        }
        assert forall|i: int| 0 <= i < 81 implies candidates_wf(#[trigger] self@[i]) by {
            assert(self.cell(i).wf());
        }
    }

    /// A grid that refines another has, in each cell, at most as many
    /// candidates.
    pub proof fn lemma_counts_fall(&self, before: &Grid)
        requires
            self.wf(),
            before.wf(),
            refines(self@, before@),
        ensures
            forall|i: int|
                0 <= i < 81 ==> (#[trigger] self.cell(i)).spec_count() <= before.cell(
                    i,
                ).spec_count(),
    {
        self.lemma_wf();
        before.lemma_wf();
        lemma_refines_wf(self@, before@);
        assert forall|i: int| 0 <= i < 81 implies (#[trigger] self.cell(i)).spec_count()
            <= before.cell(i).spec_count() by {
            assert(before.cell(i).spec_count() == before@[i].len());
            assert(self@[i].len() <= before@[i].len());
        }
    }

    /// The cell in column `x`, row `y`.
    pub fn get(&self, x: i32, y: i32) -> (r: &Cell)
        requires
            self.wf(),
            in_grid(x as int, y as int),
        ensures
            *r == self.cell(index_of(x as int, y as int)),
            r.wf(),
            r@ == self@[index_of(x as int, y as int)],
    {
        proof {
            self.lemma_wf();
            assert(self.cell(index_of(x as int, y as int)).wf());
        }
        &self.cells[(x + y * 9) as usize]
    }

    /// Puts `cell` in column `x`, row `y`.
    pub fn set(&mut self, x: i32, y: i32, cell: Cell)
        requires
            old(self).wf(),
            in_grid(x as int, y as int),
            cell.wf(),
        ensures
            final(self).wf(),
            final(self)@ == old(self)@.update(index_of(x as int, y as int), cell@),
            final(self).cell(index_of(x as int, y as int)) == cell,
            forall|i: int|
                0 <= i < 81 && i != index_of(x as int, y as int) ==> final(self).cell(i) == old(
                    self,
                ).cell(i),
    {
        let i = (x + y * 9) as usize;
        self.cells.set(i, cell);
        proof {
            assert(self@ =~= old(self)@.update(index_of(x as int, y as int), cell@));
        }
    }

    /// The 20 peers of the square in column `x`, row `y`, each with its
    /// position and its cell.
    pub fn peers(&self, x: i32, y: i32) -> (prs: Vec<((i32, i32), &Cell)>)
        requires
            self.wf(),
            in_grid(x as int, y as int),
        ensures
            is_peer_list(x as int, y as int, prs@.map_values(|p: ((i32, i32), &Cell)| p.0)),
            forall|k: int|
                0 <= k < prs@.len() ==> *(#[trigger] prs@[k]).1 == self.cell(
                    index_of(prs@[k].0.0 as int, prs@[k].0.1 as int),
                ),
    {
        let ps = peer_positions(x, y);
        let mut prs: Vec<((i32, i32), &Cell)> = Vec::new();
        let mut k: usize = 0;
        while k < ps.len()
            invariant
                0 <= k <= ps@.len(),
                self.wf(),
                is_peer_list(x as int, y as int, ps@),
                prs@.len() == k,
                forall|l: int| 0 <= l < k ==> (#[trigger] prs@[l]).0 == ps@[l],
                forall|l: int|
                    0 <= l < k ==> *(#[trigger] prs@[l]).1 == self.cell(
                        index_of(prs@[l].0.0 as int, prs@[l].0.1 as int),
                    ),
            decreases ps@.len() - k,
        {
            let pos = ps[k];
            prs.push((pos, self.get(pos.0, pos.1)));
            k = k + 1;
        }
        proof {
            assert(prs@.map_values(|p: ((i32, i32), &Cell)| p.0) =~= ps@);
        }
        prs
    }
}

/// The result of an operation that returns a grid, as a board.
pub open spec fn outcome(r: Result<Grid, SudokuError>) -> Result<Board, SudokuError> {
    match r {
        Ok(g) => Ok(g@),
        Err(e) => Err(e),
    }
}

/// The board indices of a list of positions.
pub open spec fn indices_of(ps: Seq<(i32, i32)>) -> Seq<int> {
    ps.map_values(|p: (i32, i32)| index_of(p.0 as int, p.1 as int))
}

proof fn lemma_peer_indices(x: int, y: int, ps: Seq<(i32, i32)>)
    requires
        in_grid(x, y),
        is_peer_list(x, y, ps),
    ensures
        forall|l: int|
            0 <= l < ps.len() ==> are_peers(index_of(x, y), #[trigger] indices_of(ps)[l]),
        forall|j: int| are_peers(index_of(x, y), j) ==> indices_of(ps).contains(j),
{
    let c = index_of(x, y);
    let is = indices_of(ps);
    assert forall|l: int| 0 <= l < ps.len() implies are_peers(c, #[trigger] is[l]) by {
        assert(coords_are_peers(x, y, ps[l].0 as int, ps[l].1 as int));
    }
    assert forall|j: int| are_peers(c, j) implies is.contains(j) by {
        let a = (j % 9) as i32;
        let b = (j / 9) as i32;
        assert(coords_are_peers(x, y, a as int, b as int));
        assert(ps.contains((a, b)));
        let l = choose|l: int| 0 <= l < ps.len() && ps[l] == (a, b);
        assert(is[l] == j);
    }
}

impl Grid {
    /// Removes the candidate `value` from the square in column `x`, row `y`.
    /// Where this leaves the square with one candidate, that value is in
    /// turn removed from each of its peers, and so on.
    ///
    /// The outcome is the largest board that can be reached from the old one
    /// without the candidate, without emptying a square and with every newly
    /// known square's value gone from its peers. Where no such board exists,
    /// a known square would lose its value, and the call fails.
    pub fn eliminate(&mut self, x: i32, y: i32, value: Value) -> (r: Result<(), SudokuError>)
        requires
            old(self).wf(),
            in_grid(x as int, y as int),
            value.is_single(),
        ensures
            final(self).wf(),
            refines(final(self)@, old(self)@),
            match r {
                Ok(()) => is_propagation(
                    old(self)@,
                    final(self)@,
                    index_of(x as int, y as int),
                    old(self)@[index_of(x as int, y as int)].remove(value.digit()),
                ),
                Err(e) => e == SudokuError::RemovingKnownValue && no_propagation(
                    old(self)@,
                    index_of(x as int, y as int),
                    old(self)@[index_of(x as int, y as int)].remove(value.digit()),
                ),
            },
            !old(self)@[index_of(x as int, y as int)].contains(value.digit()) ==> r is Ok
                && *final(self) == *old(self),
            forall|i: int|
                0 <= i < 81 ==> (#[trigger] final(self).cell(i)).spec_count() <= old(self).cell(
                    i,
                ).spec_count(),
            eliminate_spec(old(self)@, index_of(x as int, y as int), value.digit()) == (match r {
                Ok(()) => Ok::<Board, SudokuError>(final(self)@),
                Err(e) => Err(e),
            }),
        decreases total(old(self)@),
    {
        let ghost before = *self;
        let ghost g = self@;
        let ghost c = index_of(x as int, y as int);
        let ghost d = value.digit();
        let ghost a = g[c].remove(d);
        proof {
            self.lemma_wf();
            value.lemma_view();
            assert(self.cell(c).wf());
        }
        let current = *self.get(x, y);
        proof {
            current.lemma_wf();
        }
        if current.is_known() {
            if current.value().intersects(value) {
                proof {
                    assert forall|h: Board| !#[trigger] admits(g, h, c, a) by {
                        if admits(g, h, c, a) {
                            assert(h[c].len() > 0);
                            assert(a.len() == 0);
                            assert(h[c] =~= Set::<int>::empty());
                        }
                    }
                    lemma_propagate_none(g, c, a);
                }
                return Err(SudokuError::RemovingKnownValue);
            }
            proof {
                lemma_eliminate_absent(g, c, d);
            }
            return Ok(());
        }
        if !current.value().intersects(value) {
            proof {
                lemma_eliminate_absent(g, c, d);
            }
            return Ok(());
        }
        let mut cell = current;
        cell.eliminate(value);
        self.set(x, y, cell);
        proof {
            cell.lemma_wf();
            assert(self@ == g.update(c, a));
        }
        if cell.is_known() {
            let peers = peer_positions(x, y);
            let ghost ps = indices_of(peers@);
            proof {
                cell.lemma_known();
                lemma_peer_indices(x as int, y as int, peers@);
                lemma_spreading_init(g, c, a, ps);
            }
            let mut k: usize = 0;
            while k < peers.len()
                invariant
                    0 <= k <= peers@.len(),
                    in_grid(x as int, y as int),
                    c == index_of(x as int, y as int),
                    is_peer_list(x as int, y as int, peers@),
                    ps == indices_of(peers@),
                    forall|l: int| 0 <= l < ps.len() ==> are_peers(c, #[trigger] ps[l]),
                    self.wf(),
                    cell.wf(),
                    cell.spec_value().is_single(),
                    a == set![cell.spec_value().digit()],
                    spreading_from(g, c, a),
                    spreading(g, c, a, ps, k as int, self@),
                    g == old(self)@,
                    before == *old(self),
                    before.wf(),
                    a == g[c].remove(d),
                    d == value.digit(),
                decreases peers@.len() - k,
            {
                let (i, j) = peers[k];
                let ghost b = self@;
                let ghost w = cell.spec_value().digit();
                proof {
                    lemma_spreading_facts(g, c, a, ps, k as int, b);
                    assert(coords_are_peers(x as int, y as int, i as int, j as int));
                    assert(ps[k as int] == index_of(i as int, j as int));
                }
                match self.eliminate(i, j, cell.value()) {
                    Ok(()) => {
                        proof {
                            lemma_spreading_step(g, c, a, ps, k as int, b, w, self@);
                        }
                    },
                    Err(e) => {
                        proof {
                            lemma_spreading_fails(g, c, a, ps, k as int, b, ps[k as int], w);
                            lemma_refines_trans(g, b, self@);
                            lemma_propagate_none(g, c, a);
                            self.lemma_counts_fall(&before);
                        }
                        return Err(e);
                    },
                }
                k = k + 1;
            }
            proof {
                lemma_spreading_facts(g, c, a, ps, ps.len() as int, self@);
                lemma_spreading_done(g, c, a, ps, self@);
                lemma_propagate_some(g, self@, c, a);
            }
        } else {
            proof {
                lemma_restrict_plain(g, c, a);
                lemma_propagate_some(g, self@, c, a);
            }
        }
        proof {
            self.lemma_counts_fall(&before);
        }
        Ok(())
    }
}

/// The digits that are `v` or at least `lo`.
spec fn kept(v: int, lo: int) -> Set<int> {
    Set::new(|d: int| d == v || d >= lo)
}

/// The `k`-th of the candidates `nums`, and 10 past their end.
spec fn bound(nums: Seq<u32>, k: int) -> int {
    if 0 <= k < nums.len() {
        nums[k] as int
    } else {
        10
    }
}

/// The ascending list of the candidates of a square.
spec fn lists_candidates(nums: Seq<u32>, s: Set<int>) -> bool {
    &&& forall|i: int, j: int| 0 <= i < j < nums.len() ==> nums[i] < nums[j]
    &&& forall|d: u32| nums.contains(d) <==> s.contains(d as int)
    &&& forall|d: int| s.contains(d) ==> 1 <= d <= 9
}

proof fn lemma_kept_next(nums: Seq<u32>, s: Set<int>, k: int, v: int, d: int)
    requires
        lists_candidates(nums, s),
        0 <= k < nums.len(),
        s.contains(d),
        kept(v, bound(nums, k)).contains(d),
    ensures
        kept(v, bound(nums, k + 1)).contains(d) <==> (d == v || d != nums[k]),
{
    assert(nums.contains(d as u32));
    let l = choose|l: int| 0 <= l < nums.len() && nums[l] == d as u32;
    if d != v {
        assert(l >= k);
        if l > k {
            assert(l >= k + 1);
            if l > k + 1 {
                assert(nums[k + 1] < nums[l]);
            }
        }
        if d != nums[k] && k + 1 < nums.len() {
            assert(nums[k] < nums[k + 1]);
        }
    }
}

proof fn lemma_kept_first(nums: Seq<u32>, s: Set<int>, v: int, d: int)
    requires
        lists_candidates(nums, s),
        s.contains(d),
    ensures
        kept(v, bound(nums, 0)).contains(d),
{
    assert(nums.contains(d as u32));
    let l = choose|l: int| 0 <= l < nums.len() && nums[l] == d as u32;
    if l > 0 {
        assert(nums[0] < nums[l]);
    }
}

impl Grid {
    /// A copy of the grid in which the square in column `x`, row `y` holds
    /// `value`: every other candidate of the square is eliminated, in
    /// ascending order, each with its propagation.
    ///
    /// The outcome is the largest board that can be reached from this one
    /// with no other candidate than `value` in the square.
    pub fn with_assigned(&self, x: i32, y: i32, value: u32) -> (r: Result<Grid, SudokuError>)
        requires
            self.wf(),
            in_grid(x as int, y as int),
            1 <= value <= 9,
        ensures
            match r {
                Ok(g2) => {
                    &&& g2.wf()
                    &&& is_propagation(
                        self@,
                        g2@,
                        index_of(x as int, y as int),
                        set![value as int],
                    )
                },
                Err(e) => e == (if assigns_to_known(
                    self@,
                    index_of(x as int, y as int),
                    value as int,
                ) {
                    SudokuError::AssigningToKnownCell
                } else {
                    SudokuError::RemovingKnownValue
                }),
            },
            r is Err ==> assigns_to_known(self@, index_of(x as int, y as int), value as int)
                || no_propagation(self@, index_of(x as int, y as int), set![value as int]),
            assign_spec(self@, index_of(x as int, y as int), value as int) == outcome(r),
    {
        let ghost g = self@;
        let ghost c = index_of(x as int, y as int);
        let ghost v = value as int;
        let cell = *self.get(x, y);
        proof {
            self.lemma_wf();
            cell.lemma_wf();
        }
        if cell.is_known() && !cell.value().intersects(Value::from(value)) {
            return Err(SudokuError::AssigningToKnownCell);
        }
        let nums = cell.nums();
        let mut grid = self.clone();
        proof {
            assert(lists_candidates(nums@, g[c]));
            lemma_restrict_plain(g, c, g[c]);
            assert(g.update(c, g[c]) =~= g);
            assert forall|d: int| g[c].contains(d) implies (g[c].contains(d) <==> kept(
                v,
                bound(nums@, 0),
            ).contains(d)) by {
                lemma_kept_first(nums@, g[c], v, d);
            }
            lemma_propagation_same(g, c, g[c], kept(v, bound(nums@, 0)));
        }
        let mut k: usize = 0;
        while k < nums.len()
            invariant
                0 <= k <= nums@.len(),
                in_grid(x as int, y as int),
                c == index_of(x as int, y as int),
                1 <= value <= 9,
                v == value as int,
                g == self@,
                board_wf(g),
                !assigns_to_known(g, c, v),
                lists_candidates(nums@, g[c]),
                grid.wf(),
                is_propagation(g, grid@, c, kept(v, bound(nums@, k as int))),
            decreases nums@.len() - k,
        {
            let num = nums[k];
            let ghost b = grid@;
            let ghost a = kept(v, bound(nums@, k as int));
            let ghost a2 = kept(v, bound(nums@, k + 1));
            proof {
                assert(nums@.contains(num));
                assert forall|d: int| b[c].contains(d) implies g[c].contains(d) && a.contains(
                    d,
                ) by {
                    assert(b[c].subset_of(g[c]));
                }
                assert forall|d: int| g[c].contains(d) && a.contains(d) implies (a2.contains(d)
                    <==> (d == v || d != num)) by {
                    lemma_kept_next(nums@, g[c], k as int, v, d);
                }
            }
            if num != value {
                match grid.eliminate(x, y, Value::from(num)) {
                    Ok(()) => {
                        proof {
                            lemma_propagation_chain(g, b, grid@, c, a, b[c].remove(num as int), a2);
                        }
                    },
                    Err(e) => {
                        proof {
                            lemma_propagation_chain_fails(
                                g,
                                b,
                                c,
                                a,
                                b[c].remove(num as int),
                                set![v],
                            );
                            lemma_propagate_none(g, c, set![v]);
                        }
                        return Err(e);
                    },
                }
            } else {
                proof {
                    lemma_propagation_same(g, c, a, a2);
                }
            }
            k = k + 1;
        }
        proof {
            lemma_propagation_same(g, c, kept(v, 10), set![v]);
            lemma_propagate_some(g, grid@, c, set![v]);
        }
        Ok(grid)
    }
}

impl Grid {
    /// Whether every square is known.
    pub fn is_solved(&self) -> (b: bool)
        requires
            self.wf(),
        ensures
            b == solved(self@),
    {
        proof {
            self.lemma_wf();
        }
        let mut i: usize = 0;
        while i < 81
            invariant
                0 <= i <= 81,
                self.wf(),
                forall|k: int| 0 <= k < i ==> (#[trigger] self@[k]).len() == 1,
                forall|k: int|
                    0 <= k < 81 ==> (#[trigger] self.cell(k)).spec_count() == self@[k].len(),
            decreases 81 - i,
        {
            if self.cells[i].count() != 1 {
                proof {
                    assert(self.cell(i as int).spec_count() == self@[i as int].len());
                }
                return false;
            }
            proof {
                assert(self.cell(i as int).spec_count() == self@[i as int].len());
            }
            i = i + 1;
        }
        true
    }

    /// Whether no known square shares its value with a known peer.
    pub fn is_valid(&self) -> (b: bool)
        requires
            self.wf(),
        ensures
            b == valid(self@),
    {
        proof {
            self.lemma_wf();
        }
        let mut x: i32 = 0;
        while x < 9
            invariant
                0 <= x <= 9,
                self.wf(),
                forall|a: int, b: int|
                    0 <= a < x && 0 <= b < 9 ==> no_collision_at(self@, #[trigger] index_of(a, b)),
            decreases 9 - x,
        {
            let mut y: i32 = 0;
            while y < 9
                invariant
                    0 <= x < 9,
                    0 <= y <= 9,
                    self.wf(),
                    forall|a: int, b: int|
                        0 <= a < x && 0 <= b < 9 ==> no_collision_at(
                            self@,
                            #[trigger] index_of(a, b),
                        ),
                    forall|b: int|
                        0 <= b < y ==> no_collision_at(self@, #[trigger] index_of(x as int, b)),
                decreases 9 - y,
            {
                let cell = self.get(x, y);
                let ghost c = index_of(x as int, y as int);
                if cell.count() == 1 {
                    let peers = self.peers(x, y);
                    let ghost ps = peers@.map_values(|p: ((i32, i32), &Cell)| p.0);
                    proof {
                        self.lemma_wf();
                        lemma_peer_indices(x as int, y as int, ps);
                    }
                    let mut k: usize = 0;
                    while k < peers.len()
                        invariant
                            0 <= k <= peers@.len(),
                            self.wf(),
                            in_grid(x as int, y as int),
                            c == index_of(x as int, y as int),
                            cell.wf(),
                            cell@ == self@[c],
                            self@[c].len() == 1,
                            ps == peers@.map_values(|p: ((i32, i32), &Cell)| p.0),
                            is_peer_list(x as int, y as int, ps),
                            forall|l: int|
                                0 <= l < peers@.len() ==> *(#[trigger] peers@[l]).1 == self.cell(
                                    index_of(peers@[l].0.0 as int, peers@[l].0.1 as int),
                                ),
                            forall|l: int|
                                0 <= l < k ==> self@[#[trigger] indices_of(ps)[l]].len() != 1
                                    || self@[c].disjoint(self@[indices_of(ps)[l]]),
                        decreases peers@.len() - k,
                    {
                        let peer = peers[k].1;
                        let ghost j = indices_of(ps)[k as int];
                        proof {
                            self.lemma_wf();
                            assert(ps[k as int] == peers@[k as int].0);
                            assert(coords_are_peers(
                                x as int,
                                y as int,
                                ps[k as int].0 as int,
                                ps[k as int].1 as int,
                            ));
                            assert(*peer == self.cell(j));
                            assert(self.cell(j).wf());
                            cell.lemma_wf();
                            peer.lemma_wf();
                        }
                        if peer.is_known() && cell.value().intersects(peer.value()) {
                            proof {
                                lemma_peer_indices(x as int, y as int, ps);
                                assert(are_peers(c, j));
                                assert(!self@[c].disjoint(self@[j]));
                            }
                            return false;
                        }
                        k = k + 1;
                    }
                    proof {
                        assert forall|j: int|
                            #[trigger] are_peers(c, j) && self@[c].len() == 1 && self@[j].len()
                                == 1 implies self@[c].disjoint(self@[j]) by {
                            assert(indices_of(ps).contains(j));
                            let l = choose|l: int|
                                0 <= l < indices_of(ps).len() && indices_of(ps)[l] == j;
                            assert(self@[indices_of(ps)[l]].len() != 1 || self@[c].disjoint(
                                self@[indices_of(ps)[l]],
                            ));
                        }
                    }
                } else {
                    proof {
                        self.lemma_wf();
                        assert(self.cell(c).spec_count() == self@[c].len());
                    }
                }
                y = y + 1;
            }
            x = x + 1;
        }
        proof {
            assert forall|i: int, j: int|
                #[trigger] are_peers(i, j) && self@[i].len() == 1 && self@[j].len()
                    == 1 implies self@[i].disjoint(self@[j]) by {
                assert(no_collision_at(self@, index_of(i % 9, i / 9)));
            }
        }
        true
    }

    /// The first of the squares with the fewest candidates, where a known
    /// square counts as having more than any other.
    pub fn get_lowest_pos(&self) -> (r: (i32, i32))
        requires
            self.wf(),
        ensures
            in_grid(r.0 as int, r.1 as int),
            is_lowest(self@, index_of(r.0 as int, r.1 as int)),
    {
        proof {
            self.lemma_wf();
        }
        let mut best: usize = 0;
        let mut i: usize = 1;
        while i < 81
            invariant
                1 <= i <= 81,
                0 <= best < i,
                self.wf(),
                forall|k: int|
                    0 <= k < 81 ==> (#[trigger] self.cell(k)).spec_count() == self@[k].len(),
                forall|j: int|
                    0 <= j < i ==> difficulty(self@[best as int]) <= difficulty(
                        #[trigger] self@[j],
                    ),
                forall|j: int|
                    0 <= j < best ==> difficulty(self@[best as int]) < difficulty(
                        #[trigger] self@[j],
                    ),
            decreases 81 - i,
        {
            proof {
                assert(self.cell(i as int).spec_count() == self@[i as int].len());
                assert(self.cell(best as int).spec_count() == self@[best as int].len());
            }
            if self.cells[i] < self.cells[best] {
                best = i;
            }
            i = i + 1;
        }
        ((best % 9) as i32, (best / 9) as i32)
    }
}

/// What the character `ch` of a puzzle stands for.
fn clue(ch: char) -> (r: Option<u32>)
    ensures
        match r {
            Some(d) => clue_of(ch) == Some(d as int) && d <= 9,
            None => clue_of(ch) is None,
        },
{
    if ch >= '1' && ch <= '9' {
        Some(ch as u32 - '0' as u32)
    } else if ch == '0' || ch == '.' {
        Some(0)
    } else {
        None
    }
}

impl Grid {
    /// Reads a puzzle: each digit from 1 to 9 is assigned to the next
    /// square, row by row; `0` and `.` leave the next square open; every
    /// other character is skipped. A clue that cannot be assigned, and a
    /// puzzle of more than 81 squares, is an invalid grid.
    pub fn from_string(data: &str) -> (r: Result<Grid, SudokuError>)
        ensures
            outcome(r) == parse_spec(data@),
            r matches Ok(g) ==> g.wf(),
    {
        let mut grid = Grid::default();
        let mut index: i32 = 0;
        proof {
            assert(data@.take(0) =~= Seq::<char>::empty());
        }
        for c in it: data.chars()
            invariant
                0 <= index <= 81,
                grid.wf(),
                it.seq() == data@,
                parse_prefix(data@.take(it.index() as int)) == Some((grid@, index as int)),
        {
            proof {
                assert(c == data@[it.index() as int]);
                assert(data@.take(it.index() + 1).drop_last() =~= data@.take(it.index() as int));
            }
            match clue(c) {
                Some(v) => {
                    if index >= 81 {
                        proof {
                            lemma_parse_fails(data@, it.index() + 1);
                        }
                        return Err(SudokuError::InvalidGrid);
                    }
                    if v > 0 {
                        let x = index % 9;
                        let y = index / 9;
                        grid = match grid.with_assigned(x, y, v) {
                            Ok(g) => g,
                            Err(_) => {
                                proof {
                                    lemma_parse_fails(data@, it.index() + 1);
                                }
                                return Err(SudokuError::InvalidGrid);
                            },
                        };
                    }
                    index = index + 1;
                },
                None => {},
            }
        }
        proof {
            assert(data@.take(data@.len() as int) =~= data@);
        }
        Ok(grid)
    }
}

impl Default for Grid {
    /// The grid in which every digit is a candidate of every square.
    fn default() -> (g: Grid)
        ensures
            g.wf(),
            g@ == blank_board(),
    {
        let mut cells: Vec<Cell> = Vec::new();
        let mut i: usize = 0;
        while i < 81
            invariant
                0 <= i <= 81,
                cells@.len() == i,
                forall|k: int|
                    0 <= k < i ==> (#[trigger] cells@[k]).wf() && cells@[k]@ == all_digits(),
            decreases 81 - i,
        {
            cells.push(Cell::default());
            i = i + 1;
        }
        let g = Grid { cells };
        proof {
            assert(g@ =~= blank_board());
        }
        g
    }
}

impl Clone for Grid {
    /// A copy of the grid.
    fn clone(&self) -> (g: Grid)
        ensures
            g@ == self@,
            self.wf() ==> g.wf(),
            forall|i: int| 0 <= i < 81 ==> g.cell(i) == self.cell(i),
    {
        let mut cells: Vec<Cell> = Vec::new();
        let mut i: usize = 0;
        while i < self.cells.len()
            invariant
                0 <= i <= self.cells@.len(),
                cells@.len() == i,
                forall|k: int| 0 <= k < i ==> cells@[k] == self.cells@[k],
            decreases self.cells@.len() - i,
        {
            cells.push(self.cells[i]);
            i = i + 1;
        }
        let g = Grid { cells };
        proof {
            assert(g.cells@ =~= self.cells@);
            assert(g@ =~= self@);
        }
        g
    }
}

} // verus!
