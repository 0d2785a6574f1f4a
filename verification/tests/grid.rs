use sudoku::cell::{Cell, Value};
use sudoku::grid::Grid;

#[test]
fn grid_peers() {
    let grid = Grid::default();
    let peers = grid.peers(6, 0);
    assert_eq!(peers.len(), 20);
}

#[test]
fn grid_with_assigned() {
    let mut grid = Grid::default();
    grid = grid.with_assigned(0, 0, 4).unwrap();
    let cell = grid.get(0, 0);
    assert!(cell.is_known());
    assert!(cell.value().intersects(Value::from(4)));
}

#[test]
fn grid_with_assigned_row() {
    let mut grid = Grid::default();
    grid = grid.with_assigned(0, 0, 8).unwrap();
    grid = grid.with_assigned(1, 0, 5).unwrap();
    grid = grid.with_assigned(2, 0, 9).unwrap();
    grid = grid.with_assigned(3, 0, 6).unwrap();
    grid = grid.with_assigned(4, 0, 1).unwrap();
    grid = grid.with_assigned(5, 0, 2).unwrap();
    grid = grid.with_assigned(6, 0, 4).unwrap();
    grid = grid.with_assigned(7, 0, 3).unwrap();
    grid = grid.with_assigned(8, 0, 7).unwrap();
    let cell = grid.get(0, 1);
    assert_eq!(cell.count(), 6);
    assert_eq!(cell.nums(), vec![1, 2, 3, 4, 6, 7]);
}

#[test]
fn grid_from_string() {
    match Grid::from_string("4.....8.5.3..........7......2.....6.....8.4......1.......6.3.7.5..2.....1.4......") {
        Ok(grid) => {
            let c00 = grid.get(0, 0);
            assert_eq!(c00.count(), 1);
            let c01 = grid.get(0, 1);
            assert_eq!(c01.count(), 5);
        },
        Err(_) => assert!(false)
    }
}

#[test]
fn grid_eliminate_one() {
    match Grid::from_string("4.....8.5.3..........7......2.....6.....8.4......1.......6.3.7.5..2.....1.4......") {
        Ok(mut grid) => {
            grid.set(0, 0, Cell::default());
            grid.eliminate(0, 0, Value::from(1)).unwrap();
            let cell = grid.get(0, 0);
            println!("{:?}", cell);
            assert_eq!(cell.count(), 8);
        },
        Err(_) => assert!(false)
    }
}

#[test]
fn grid_eliminate_to_known() {
    match Grid::from_string("4.....8.5.3..........7......2.....6.....8.4......1.......6.3.7.5..2.....1.4......") {
        Ok(mut grid) => {
            grid.set(0, 0, Cell::default());
            grid.eliminate(0, 0, Value::from(1)).unwrap();
            grid.eliminate(0, 0, Value::from(3)).unwrap();
            grid.eliminate(0, 0, Value::from(4)).unwrap();
            grid.eliminate(0, 0, Value::from(5)).unwrap();
            grid.eliminate(0, 0, Value::from(6)).unwrap();
            grid.eliminate(0, 0, Value::from(7)).unwrap();
            grid.eliminate(0, 0, Value::from(8)).unwrap();
            grid.eliminate(0, 0, Value::from(9)).unwrap();
            let cell = grid.get(0, 0);
            println!("{:?}", cell);
            assert!(cell.is_known());
            assert!(cell.value().intersects(Value::from(2)));
            assert_eq!(cell.nums(), vec![2]);
        },
        Err(_) => assert!(false)
    }
}

#[test]
fn grid_not_solved() {
    match Grid::from_string("......8.5.3..........7......2.....6.....8.4......1.......6.3.7.5..2.....1.4......") {
        Ok(grid) => {
            assert!(!grid.is_solved());
        },
        Err(_) => assert!(false)
    }
}

#[test]
fn grid_get_lowest() {
    match Grid::from_string(".................................................................................") {
        Ok(mut grid) => {
            grid.eliminate(1, 1, Value::from(1)).unwrap();
            grid.eliminate(1, 1, Value::from(2)).unwrap();
            grid.eliminate(1, 1, Value::from(3)).unwrap();
            grid.eliminate(2, 2, Value::from(1)).unwrap();
            grid.eliminate(2, 2, Value::from(2)).unwrap();
            let lowest = grid.get_lowest_pos();
            assert_eq!(lowest, (1, 1));
        },
        Err(_) => assert!(false)
    }
}

#[test]
fn grid_solved() {
    match Grid::from_string("859612437723854169164379528986147352375268914241593786432981675617425893598736241") {
        Ok(grid) => assert!(grid.is_solved()),
        Err(_) => assert!(false)
    }
}
