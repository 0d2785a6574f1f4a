use std::cmp::Ordering;

use sudoku::cell::{Cell, Value};
use sudoku::grid::Grid;
use sudoku::solver::search;
use sudoku::{solve, SudokuError};

const HARD: &str =
    "4.....8.5.3..........7......2.....6.....8.4......1.......6.3.7.5..2.....1.4......";
const HARD_SOLVED: &str =
    "417369825632158947958724316825437169791586432346912758289643571573291684164875293";
const SOLVED: &str =
    "859612437723854169164379528986147352375268914241593786432981675617425893598736241";

fn known(value: u32) -> Cell {
    let mut cell = Cell::default();
    for v in 1..10 {
        if v != value {
            cell.eliminate(Value::from(v));
        }
    }
    cell
}

fn empty() -> Cell {
    let mut cell = Cell::default();
    for v in 1..10 {
        cell.eliminate(Value::from(v));
    }
    cell
}

fn counts(grid: &Grid) -> Vec<u8> {
    let mut all = vec![];
    for y in 0..9 {
        for x in 0..9 {
            all.push(grid.get(x, y).count());
        }
    }
    all
}

fn digits(grid: &Grid) -> String {
    let mut all = String::new();
    for y in 0..9 {
        for x in 0..9 {
            let nums = grid.get(x, y).nums();
            assert_eq!(nums.len(), 1);
            all.push_str(&format!("{}", nums[0]));
        }
    }
    all
}

#[test]
fn cell_default_has_all_candidates() {
    let cell = Cell::default();
    assert_eq!(cell.count(), 9);
    assert!(!cell.is_known());
    assert_eq!(cell.nums(), vec![1, 2, 3, 4, 5, 6, 7, 8, 9]);
}

#[test]
fn cell_eliminate_removes_one_candidate() {
    let mut cell = Cell::default();
    let after = *cell.eliminate(Value::from(5));
    assert_eq!(after.count(), 8);
    assert_eq!(cell.count(), 8);
    assert_eq!(cell.nums(), vec![1, 2, 3, 4, 6, 7, 8, 9]);
    assert!(!cell.value().intersects(Value::from(5)));
}

#[test]
fn cell_becomes_known_then_empty() {
    let mut cell = known(7);
    assert!(cell.is_known());
    assert_eq!(cell.count(), 1);
    assert_eq!(cell.nums(), vec![7]);
    cell.eliminate(Value::from(7));
    assert_eq!(cell.count(), 0);
    assert!(!cell.is_known());
    assert_eq!(cell.nums(), Vec::<u32>::new());
    assert_eq!(empty().count(), 0);
}

#[test]
fn cell_count_is_number_of_candidates() {
    let mut cell = Cell::default();
    for v in [9, 1, 5, 3] {
        cell.eliminate(Value::from(v));
        assert_eq!(cell.count() as usize, cell.nums().len());
    }
    assert_eq!(cell.nums(), vec![2, 4, 6, 7, 8]);
}

#[test]
fn value_singletons() {
    for v in 1..10 {
        for w in 1..10 {
            assert_eq!(Value::from(v).intersects(Value::from(w)), v == w);
        }
        assert!(Value::all().intersects(Value::from(v)));
        assert_eq!(Value::from(v) == Value::from(v), true);
    }
    assert!(Value::from(1) != Value::from(2));
}

#[test]
fn value_toggle_removes_and_adds() {
    let without = Value::all().toggle(Value::from(3));
    assert!(!without.intersects(Value::from(3)));
    assert!(without.intersects(Value::from(4)));
    let again = without.toggle(Value::from(3));
    assert_eq!(again, Value::all());
}

#[test]
fn value_to_string_writes_the_digit() {
    let names = ["1", "2", "3", "4", "5", "6", "7", "8", "9"];
    for v in 1..10 {
        assert_eq!(Value::from(v).to_string(), names[(v - 1) as usize]);
    }
}

#[test]
fn cell_order_ranks_known_cells_last() {
    let nine = Cell::default();
    let mut two = Cell::default();
    for v in 3..10 {
        two.eliminate(Value::from(v));
    }
    let one = known(4);
    let none = empty();
    assert_eq!(two.rank(), 2);
    assert_eq!(nine.rank(), 9);
    assert_eq!(one.rank(), 10);
    assert_eq!(none.rank(), 0);
    assert_eq!(two.partial_cmp(&nine), Some(Ordering::Less));
    assert_eq!(nine.partial_cmp(&two), Some(Ordering::Greater));
    assert_eq!(one.partial_cmp(&nine), Some(Ordering::Greater));
    assert_eq!(none.partial_cmp(&two), Some(Ordering::Less));
    assert_eq!(known(1).partial_cmp(&known(9)), Some(Ordering::Equal));
    assert!(two < nine);
    assert!(nine < one);
}

#[test]
fn cell_equality_is_by_candidates() {
    assert!(known(3) == known(3));
    assert!(known(3) != known(4));
    assert!(Cell::default() == Cell::default());
    assert!(Cell::default() != known(1));
}

#[test]
fn peers_are_twenty_distinct_squares_of_row_column_and_box() {
    let grid = Grid::default();
    for x in 0..9 {
        for y in 0..9 {
            let peers = grid.peers(x, y);
            assert_eq!(peers.len(), 20);
            for (k, ((a, b), cell)) in peers.iter().enumerate() {
                assert!((0..9).contains(a) && (0..9).contains(b));
                assert!((*a, *b) != (x, y));
                assert!(*a == x || *b == y || (a / 3 == x / 3 && b / 3 == y / 3));
                assert_eq!(cell.count(), 9);
                for ((c, d), _) in peers.iter().skip(k + 1) {
                    assert!((a, b) != (c, d));
                }
            }
        }
    }
}

#[test]
fn peers_come_with_their_cells() {
    let grid = Grid::default().with_assigned(4, 4, 5).unwrap();
    let peers = grid.peers(4, 4);
    for ((a, b), cell) in peers {
        assert_eq!(cell.count(), 8);
        assert_eq!(cell.nums(), vec![1, 2, 3, 4, 6, 7, 8, 9]);
        assert!(*cell == *grid.get(a, b));
    }
    assert_eq!(grid.get(0, 0).count(), 9);
    assert_eq!(grid.get(4, 4).nums(), vec![5]);
}

#[test]
fn parse_propagates_clues() {
    let grid = Grid::from_string(HARD).unwrap();
    assert!(grid.get(0, 0).is_known());
    assert_eq!(grid.get(0, 0).nums(), vec![4]);
    assert_eq!(grid.get(0, 1).count(), 5);
    assert_eq!(grid.get(0, 1).nums(), vec![2, 6, 7, 8, 9]);
    assert!(grid.is_valid());
    assert!(!grid.is_solved());
}

#[test]
fn assigning_a_row_but_its_last_square() {
    let mut grid = Grid::default();
    for (x, v) in [8, 5, 9, 6, 1, 2, 4, 3].into_iter().enumerate() {
        grid = grid.with_assigned(x as i32, 0, v).unwrap();
    }
    assert_eq!(grid.get(0, 1).count(), 6);
    assert_eq!(grid.get(0, 1).nums(), vec![1, 2, 3, 4, 6, 7]);
    assert_eq!(grid.get(8, 0).nums(), vec![7]);
    assert_eq!(grid.get(8, 8).nums(), vec![1, 2, 3, 4, 5, 6, 8, 9]);
}

#[test]
fn solved_grid_parses_solved_and_valid() {
    let grid = Grid::from_string(SOLVED).unwrap();
    assert!(grid.is_solved());
    assert!(grid.is_valid());
    assert_eq!(digits(&grid), SOLVED);
}

#[test]
fn two_peers_with_one_value_are_invalid() {
    let mut grid = Grid::default();
    assert!(grid.is_valid());
    grid.set(0, 0, known(5));
    assert!(grid.is_valid());
    grid.set(1, 0, known(6));
    assert!(grid.is_valid());
    grid.set(4, 4, known(5));
    assert!(grid.is_valid());
    grid.set(4, 8, known(5));
    assert!(!grid.is_valid());
}

#[test]
fn collision_after_a_sound_known_square_is_found() {
    let mut grid = Grid::default();
    grid.set(0, 0, known(1));
    grid.set(7, 7, known(3));
    grid.set(8, 8, known(3));
    assert!(!grid.is_valid());
}

#[test]
fn contradictory_clues_are_an_invalid_grid() {
    let puzzle = format!("11{}", ".".repeat(79));
    assert_eq!(Grid::from_string(&puzzle).err(), Some(SudokuError::InvalidGrid));
    assert_eq!(solve(&puzzle).err(), Some(SudokuError::InvalidGrid));
    let column = format!("5........5{}", ".".repeat(71));
    assert_eq!(solve(&column).err(), Some(SudokuError::InvalidGrid));
}

#[test]
fn puzzle_without_solution_fails() {
    // The first row leaves only 9 for its last square, whose column has a 9.
    let puzzle = format!("12345678.........9{}", ".".repeat(63));
    assert_eq!(solve(&puzzle).err(), Some(SudokuError::InvalidGrid));
}

#[test]
fn too_many_squares_are_an_invalid_grid() {
    let blank = ".".repeat(82);
    assert_eq!(Grid::from_string(&blank).err(), Some(SudokuError::InvalidGrid));
    let clue = format!("{}1", ".".repeat(81));
    assert_eq!(Grid::from_string(&clue).err(), Some(SudokuError::InvalidGrid));
    let zeros = "0".repeat(81);
    assert!(Grid::from_string(&zeros).is_ok());
    let spaced = format!("{} \n|-x", ".".repeat(81));
    assert!(Grid::from_string(&spaced).is_ok());
}

#[test]
fn short_puzzle_leaves_the_rest_open() {
    let grid = Grid::from_string("4").unwrap();
    assert_eq!(grid.get(0, 0).nums(), vec![4]);
    assert_eq!(grid.get(1, 0).count(), 8);
    assert_eq!(grid.get(8, 8).count(), 9);
    let none = Grid::from_string("").unwrap();
    assert_eq!(counts(&none), vec![9; 81]);
}

#[test]
fn separators_are_skipped() {
    let framed = "
85.|..2|4..
72.|...|..9
..4|...|...
-----------
...|1.7|..2
3.5|...|9..
.4.|...|...
-----------
...|.8.|.7.
.17|...|...
...|.36|.4.";
    let flat = "85...24..72......9..4.........1.7..23.5...9...4...........8..7..17..........36.4.";
    let a = Grid::from_string(framed).unwrap();
    let b = Grid::from_string(flat).unwrap();
    assert_eq!(a.to_string(), b.to_string());
    assert_eq!(counts(&a), counts(&b));
    assert_eq!(a.get(0, 0).nums(), vec![8]);
    assert_eq!(a.get(8, 1).nums(), vec![9]);
    assert_eq!(a.get(7, 8).nums(), vec![4]);
}

#[test]
fn zero_marks_an_open_square() {
    let dots = Grid::from_string("4.....8.5").unwrap();
    let zeros = Grid::from_string("400000805").unwrap();
    assert_eq!(counts(&dots), counts(&zeros));
    assert_eq!(zeros.get(6, 0).nums(), vec![8]);
}

#[test]
fn assigning_to_a_known_cell() {
    let grid = Grid::default().with_assigned(0, 0, 4).unwrap();
    assert_eq!(
        grid.with_assigned(0, 0, 5).err(),
        Some(SudokuError::AssigningToKnownCell)
    );
    let same = grid.with_assigned(0, 0, 4).unwrap();
    assert_eq!(counts(&same), counts(&grid));
}

#[test]
fn assigning_a_value_that_is_no_candidate() {
    let grid = Grid::default().with_assigned(0, 0, 4).unwrap();
    assert_eq!(
        grid.with_assigned(1, 0, 4).err(),
        Some(SudokuError::RemovingKnownValue)
    );
}

#[test]
fn with_assigned_leaves_the_grid_alone() {
    let grid = Grid::default();
    let assigned = grid.with_assigned(3, 3, 9).unwrap();
    assert_eq!(counts(&grid), vec![9; 81]);
    assert_eq!(assigned.get(3, 3).nums(), vec![9]);
    assert_eq!(counts(&assigned).iter().filter(|c| **c == 8).count(), 20);
    assert_eq!(counts(&assigned).iter().filter(|c| **c == 9).count(), 60);
}

#[test]
fn removing_the_value_of_a_known_cell() {
    let mut grid = Grid::default().with_assigned(0, 0, 4).unwrap();
    assert_eq!(
        grid.eliminate(0, 0, Value::from(4)),
        Err(SudokuError::RemovingKnownValue)
    );
    assert_eq!(grid.eliminate(0, 0, Value::from(5)), Ok(()));
    assert_eq!(grid.get(0, 0).nums(), vec![4]);
}

#[test]
fn eliminating_an_absent_value_changes_nothing() {
    let mut grid = Grid::from_string(HARD).unwrap();
    grid.eliminate(1, 0, Value::from(1)).unwrap();
    let before = counts(&grid);
    let text = grid.to_string();
    assert_eq!(grid.eliminate(1, 0, Value::from(1)), Ok(()));
    assert_eq!(grid.eliminate(1, 0, Value::from(4)), Ok(()));
    assert_eq!(counts(&grid), before);
    assert_eq!(grid.to_string(), text);
    assert!(!grid.get(1, 0).value().intersects(Value::from(1)));
}

#[test]
fn eliminating_never_adds_candidates() {
    let mut grid = Grid::from_string(HARD).unwrap();
    let mut before = counts(&grid);
    for (x, y, v) in [(1, 0, 1), (1, 0, 2), (1, 0, 6), (2, 0, 1), (5, 5, 9), (8, 8, 2), (4, 0, 9)] {
        let _ = grid.eliminate(x, y, Value::from(v));
        let after = counts(&grid);
        for i in 0..81 {
            assert!(after[i] <= before[i]);
        }
        before = after;
    }
}

#[test]
fn eliminating_to_one_candidate_propagates() {
    let mut grid = Grid::default();
    for v in 1..9 {
        grid.eliminate(0, 0, Value::from(v)).unwrap();
    }
    assert_eq!(grid.get(0, 0).nums(), vec![9]);
    assert_eq!(grid.get(8, 0).nums(), vec![1, 2, 3, 4, 5, 6, 7, 8]);
    assert_eq!(grid.get(0, 8).count(), 8);
    assert_eq!(grid.get(2, 2).count(), 8);
    assert_eq!(grid.get(3, 3).count(), 9);
}

#[test]
fn propagation_runs_through_chains() {
    // Square (1, 0) is left with 1 and 2; taking 1 from it makes it 2,
    // which makes (2, 0) with candidates 2 and 3 a 3.
    let mut grid = Grid::default();
    let mut pair = Cell::default();
    for v in 3..10 {
        pair.eliminate(Value::from(v));
    }
    let mut next = Cell::default();
    for v in [1, 4, 5, 6, 7, 8, 9] {
        next.eliminate(Value::from(v));
    }
    grid.set(1, 0, pair);
    grid.set(2, 0, next);
    grid.eliminate(1, 0, Value::from(1)).unwrap();
    assert_eq!(grid.get(1, 0).nums(), vec![2]);
    assert_eq!(grid.get(2, 0).nums(), vec![3]);
    assert_eq!(grid.get(0, 0).nums(), vec![1, 4, 5, 6, 7, 8, 9]);
    assert_eq!(grid.get(1, 5).nums(), vec![1, 3, 4, 5, 6, 7, 8, 9]);
    assert_eq!(grid.get(2, 5).nums(), vec![1, 2, 4, 5, 6, 7, 8, 9]);
}

#[test]
fn lowest_position_breaks_ties_by_index() {
    let grid = Grid::default();
    assert_eq!(grid.get_lowest_pos(), (0, 0));
    let solved = Grid::from_string(SOLVED).unwrap();
    assert_eq!(solved.get_lowest_pos(), (0, 0));
    let mut two = Grid::default();
    two.eliminate(5, 2, Value::from(1)).unwrap();
    two.eliminate(3, 1, Value::from(1)).unwrap();
    assert_eq!(two.get_lowest_pos(), (3, 1));
}

#[test]
fn lowest_position_skips_known_cells() {
    let grid = Grid::default().with_assigned(0, 0, 1).unwrap();
    assert_eq!(grid.get_lowest_pos(), (1, 0));
    let mut sparse = Grid::default();
    sparse.set(0, 0, known(1));
    sparse.eliminate(7, 7, Value::from(2)).unwrap();
    assert_eq!(sparse.get_lowest_pos(), (7, 7));
}

#[test]
fn solve_finds_the_solution() {
    let grid = solve(HARD).unwrap();
    assert!(grid.is_solved());
    assert!(grid.is_valid());
    assert_eq!(digits(&grid), HARD_SOLVED);
}

#[test]
fn solve_returns_a_solved_grid_as_it_is() {
    let grid = solve(SOLVED).unwrap();
    assert_eq!(digits(&grid), SOLVED);
}

#[test]
fn solve_fills_an_open_grid() {
    let grid = solve("").unwrap();
    assert!(grid.is_solved());
    assert!(grid.is_valid());
    for y in 0..9 {
        let mut row: Vec<u32> = (0..9).map(|x| grid.get(x, y).nums()[0]).collect();
        row.sort();
        assert_eq!(row, vec![1, 2, 3, 4, 5, 6, 7, 8, 9]);
    }
    assert_eq!(grid.get(0, 0).nums(), vec![1]);
}

#[test]
fn search_rejects_an_invalid_grid() {
    let mut grid = Grid::default();
    grid.set(0, 0, known(5));
    grid.set(1, 0, known(5));
    assert_eq!(search(grid).err(), Some(SudokuError::InvalidGrid));
}

#[test]
fn search_rejects_a_grid_with_an_empty_square() {
    let mut grid = Grid::default();
    grid.set(3, 3, empty());
    assert_eq!(search(grid).err(), Some(SudokuError::InvalidGrid));
}

#[test]
fn search_backtracks_from_a_wrong_guess() {
    // In the solution the first open square holds 4, so the guesses 1, 2
    // and 3 have to fail first.
    let puzzle = format!(".{}", &HARD_SOLVED[1..]);
    let mut grid = Grid::from_string(&puzzle).unwrap();
    assert_eq!(grid.get(0, 0).nums(), vec![4]);
    grid.set(0, 0, Cell::default());
    let solved = search(grid).unwrap();
    assert_eq!(digits(&solved), HARD_SOLVED);
}

#[test]
fn grid_text_shows_boxes() {
    let grid = Grid::from_string(SOLVED).unwrap();
    let lines = [
        "859|612|437",
        "723|854|169",
        "164|379|528",
        "-----------",
        "986|147|352",
        "375|268|914",
        "241|593|786",
        "-----------",
        "432|981|675",
        "617|425|893",
        "598|736|241",
    ];
    assert_eq!(grid.to_string(), lines.join("\n"));
}

#[test]
fn grid_text_shows_open_squares_as_dots() {
    let grid = Grid::default().with_assigned(4, 0, 7).unwrap();
    let row = "...|...|...";
    let rule = "-----------";
    let lines = [
        "...|.7.|...", row, row, rule, row, row, row, rule, row, row, row,
    ];
    assert_eq!(grid.to_string(), lines.join("\n"));
    assert_eq!(grid.to_string().len(), 131);
}

#[test]
fn grid_clone_is_independent() {
    let grid = Grid::default();
    let mut copy = grid.clone();
    copy.eliminate(0, 0, Value::from(1)).unwrap();
    assert_eq!(grid.get(0, 0).count(), 9);
    assert_eq!(copy.get(0, 0).count(), 8);
}

#[test]
fn counts_match_candidates_throughout() {
    let mut grid = Grid::from_string(HARD).unwrap();
    let check = |grid: &Grid| {
        for x in 0..9 {
            for y in 0..9 {
                let cell = grid.get(x, y);
                assert_eq!(cell.count() as usize, cell.nums().len());
            }
        }
    };
    check(&grid);
    grid.eliminate(1, 0, Value::from(1)).unwrap();
    check(&grid);
    let _ = grid.eliminate(0, 0, Value::from(4));
    check(&grid);
    let assigned = Grid::default().with_assigned(4, 4, 5).unwrap();
    check(&assigned);
    check(&solve(HARD).unwrap());
}
