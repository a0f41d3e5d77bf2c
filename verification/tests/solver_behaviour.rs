use std::collections::HashSet;
use sudoku_solver::neighbors::Neighbors;
use sudoku_solver::scan::Scan;
use sudoku_solver::solver::{sorted_values, Solver, SolverError, MAX_REPAIRS, MAX_STEPS};
use sudoku_solver::sudoku::{Coordinates, Grid, Sudoku, SudokuError};

/// A full legal grid: row r, column c holds (3r + r/3 + c) mod 9 + 1.
fn pattern_grid() -> Grid {
    let mut cells = [0u8; 81];
    for r in 0..9 {
        for c in 0..9 {
            cells[r * 9 + c] = ((3 * r + r / 3 + c) % 9 + 1) as u8;
        }
    }
    cells
}

fn distinct(values: [u8; 9]) -> bool {
    for i in 0..9 {
        for j in 0..9 {
            if i != j && values[i] != 0 && values[i] == values[j] {
                return false;
            }
        }
    }
    true
}

fn is_legal(sudoku: &Sudoku) -> bool {
    for k in 0..9 {
        if !distinct(sudoku.get_row(k).unwrap()) || !distinct(sudoku.get_column(k).unwrap()) {
            return false;
        }
    }
    for br in 0..3 {
        for bc in 0..3 {
            if !distinct(sudoku.get_block(br, bc).unwrap()) {
                return false;
            }
        }
    }
    true
}

fn keeps(cells: &Grid, givens: &Grid) -> bool {
    (0..81).all(|i| givens[i] == 0 || cells[i] == givens[i])
}

#[test]
fn pattern_grid_is_legal_and_full() {
    let sudoku = Sudoku::new_from_state(pattern_grid());
    assert_eq!(81, sudoku.set_count);
    assert!(is_legal(&sudoku));
    assert_eq!([1, 2, 3, 4, 5, 6, 7, 8, 9], sudoku.get_row(0).unwrap());
    assert_eq!([4, 5, 6, 7, 8, 9, 1, 2, 3], sudoku.get_row(1).unwrap());
    assert_eq!([2, 3, 4, 5, 6, 7, 8, 9, 1], sudoku.get_row(3).unwrap());
}

#[test]
fn new_solver_takes_the_grid_as_snapshot() {
    let grid = pattern_grid();
    let solver = Solver::new(Sudoku::new_from_state(grid));
    assert_eq!(grid, solver.sudoku.squares);
    assert_eq!(grid, solver.last_secure_state);
    assert!(!solver.last_secure_state_set);
}

#[test]
fn possible_values_leave_out_row_column_and_block() {
    let mut sudoku = Sudoku::new_empty();
    sudoku.set(4, 0, 1).unwrap(); // same row
    sudoku.set(4, 8, 2).unwrap(); // same row
    sudoku.set(0, 4, 3).unwrap(); // same column
    sudoku.set(3, 3, 4).unwrap(); // same block
    sudoku.set(5, 5, 5).unwrap(); // same block
    sudoku.set(0, 0, 6).unwrap(); // unrelated
    sudoku.set(8, 8, 7).unwrap(); // unrelated
    let solver = Solver::new(sudoku);
    let possible = solver.get_possible(4, 4).unwrap();
    assert_eq!(HashSet::from([6u8, 7, 8, 9]), possible);
    assert!(possible.len() <= 9);
    for v in possible.iter() {
        assert!((1..=9).contains(v));
        assert!(!solver.sudoku.get_row(4).unwrap().contains(v));
        assert!(!solver.sudoku.get_column(4).unwrap().contains(v));
        assert!(!solver.sudoku.get_block(1, 1).unwrap().contains(v));
    }
}

#[test]
fn possible_values_of_a_filled_cell_leave_out_its_own_number() {
    let mut sudoku = Sudoku::new_empty();
    sudoku.set(2, 2, 8).unwrap();
    let solver = Solver::new(sudoku);
    assert_eq!(
        HashSet::from([1u8, 2, 3, 4, 5, 6, 7, 9]),
        solver.get_possible(2, 2).unwrap()
    );
}

#[test]
fn possible_values_ignore_numbers_above_nine() {
    let mut state = [0u8; 81];
    state[1] = 10;
    state[2] = 200;
    state[3] = 9;
    let solver = Solver::new(Sudoku::new_from_state(state));
    assert_eq!(
        HashSet::from([1u8, 2, 3, 4, 5, 6, 7, 8]),
        solver.get_possible(0, 0).unwrap()
    );
}

#[test]
fn possible_values_in_a_full_grid_are_none() {
    let solver = Solver::new(Sudoku::new_from_state(pattern_grid()));
    for r in 0..9 {
        for c in 0..9 {
            assert!(solver.get_possible(r, c).unwrap().is_empty());
        }
    }
}

#[test]
fn possible_values_refuse_bad_coordinates() {
    let solver = Solver::new(Sudoku::new_empty());
    assert_eq!(
        SudokuError::BadCoordinates(9, 1),
        solver.get_possible(9, 1).unwrap_err()
    );
    assert_eq!(
        SudokuError::BadCoordinates(1, 9),
        solver.get_possible(1, 9).unwrap_err()
    );
    assert_eq!(
        SudokuError::BadCoordinates(12, 30),
        solver.get_possible(12, 30).unwrap_err()
    );
}

#[test]
fn asking_twice_gives_the_same_set() {
    let mut grid = pattern_grid();
    for i in [0usize, 5, 13, 40, 41, 77] {
        grid[i] = 0;
    }
    let solver = Solver::new(Sudoku::new_from_state(grid));
    for r in 0..9 {
        for c in 0..9 {
            assert_eq!(solver.get_possible(r, c), solver.get_possible(r, c));
        }
    }
    assert_eq!(solver.get_possible(9, 9), solver.get_possible(9, 9));
}

#[test]
fn sorted_values_lists_in_rising_order() {
    let set = HashSet::from([9u8, 2, 7, 4]);
    assert_eq!(vec![2u8, 4, 7, 9], sorted_values(&set));
    assert_eq!(Vec::<u8>::new(), sorted_values(&HashSet::new()));
    let wide = HashSet::from([0u8, 1, 9, 10, 200]);
    assert_eq!(vec![1u8, 9], sorted_values(&wide));
}

#[test]
fn neighbors_of_one_two() {
    let of = Coordinates::from((1, 2));
    let neighbors = Neighbors::from(of);
    assert_eq!(20, neighbors.len());
    assert!(!neighbors.contains(&of));
    let cells = neighbors.into_vec();
    assert_eq!(20, cells.len());
    for (i, c) in cells.iter().enumerate() {
        assert!(c.row < 9 && c.column < 9);
        assert!(c.row == 1 || c.column == 2 || (c.row / 3 == 0 && c.column / 3 == 0));
        for d in cells.iter().skip(i + 1) {
            assert_ne!(c, d);
        }
    }
}

#[test]
fn neighbors_are_exactly_the_cells_in_sight() {
    for row in 0..9 {
        for column in 0..9 {
            let of = Coordinates { row, column };
            let neighbors = Neighbors::from(of);
            assert_eq!(20, neighbors.len());
            for r in 0..9 {
                for c in 0..9 {
                    let other = Coordinates { row: r, column: c };
                    let in_sight = other != of
                        && (r == row || c == column || (r / 3 == row / 3 && c / 3 == column / 3));
                    assert_eq!(in_sight, neighbors.contains(&other));
                }
            }
        }
    }
}

#[test]
fn neighbors_of_a_corner() {
    let neighbors = Neighbors::from(Coordinates::from((0, 0)));
    let expected = [
        (0, 1), (0, 2), (0, 3), (0, 4), (0, 5), (0, 6), (0, 7), (0, 8),
        (1, 0), (2, 0), (3, 0), (4, 0), (5, 0), (6, 0), (7, 0), (8, 0),
        (1, 1), (1, 2), (2, 1), (2, 2),
    ];
    assert_eq!(expected.len(), neighbors.len());
    for pair in expected {
        assert!(neighbors.contains(&Coordinates::from(pair)));
    }
}

#[test]
fn neighbors_insert_remove_contains() {
    let mut set = Neighbors::new();
    assert_eq!(0, set.len());
    let a = Coordinates { row: 3, column: 4 };
    let b = Coordinates { row: 4, column: 3 };
    assert!(set.insert(a));
    assert!(!set.insert(a));
    assert!(set.insert(b));
    assert_eq!(2, set.len());
    assert!(set.contains(&a) && set.contains(&b));
    let copy = set.clone();
    assert!(set.remove(&a));
    assert!(!set.remove(&a));
    assert_eq!(1, set.len());
    assert!(!set.contains(&a) && set.contains(&b));
    assert_eq!(2, copy.len());
    assert!(copy.contains(&a));
    assert_eq!(vec![b], set.into_vec());
}

#[test]
fn possible_resets_leave_out_the_snapshot() {
    let mut sudoku = Sudoku::new_empty();
    sudoku.set(0, 1, 1).unwrap();
    sudoku.set(5, 0, 2).unwrap();
    sudoku.set(1, 1, 3).unwrap();
    sudoku.set(8, 8, 4).unwrap();
    let mut solver = Solver::new(sudoku);
    // Filled after the snapshot: still free to be emptied.
    solver.sudoku.set(0, 5, 9).unwrap();
    let resets = solver.possible_resets(0, 0);
    assert_eq!(17, resets.len());
    for given in [(0, 1), (5, 0), (1, 1)] {
        assert!(!resets.contains(&Coordinates::from(given)));
    }
    assert!(resets.contains(&Coordinates::from((0, 5))));
    assert!(!resets.contains(&Coordinates::from((0, 0))));
    let all = Neighbors::from(Coordinates::from((0, 0)));
    for c in resets.iter() {
        assert!(all.contains(c));
        assert_eq!(0, solver.last_secure_state[c.row * 9 + c.column]);
    }
}

#[test]
fn reset_one_empties_the_drawn_cell() {
    let mut solver = Solver::new(Sudoku::new_empty());
    solver.sudoku.set(0, 1, 4).unwrap();
    solver.sudoku.set(0, 2, 5).unwrap();
    solver.sudoku.set(3, 0, 6).unwrap();
    let resets = vec![
        Coordinates { row: 0, column: 1 },
        Coordinates { row: 0, column: 2 },
        Coordinates { row: 3, column: 0 },
        Coordinates { row: 8, column: 0 },
    ];
    solver.reset_one(&resets, 1).unwrap();
    assert_eq!(0, solver.sudoku.squares[2]);
    assert_eq!(4, solver.sudoku.squares[1]);
    assert_eq!(6, solver.sudoku.squares[27]);
    assert_eq!(2, solver.sudoku.set_count);
    // An empty cell stays empty, and the count with it.
    solver.reset_one(&resets, 3).unwrap();
    assert_eq!(2, solver.sudoku.set_count);
    solver.reset_one(&resets, 0).unwrap();
    solver.reset_one(&resets, 2).unwrap();
    assert_eq!([0u8; 81], solver.sudoku.squares);
    assert_eq!(0, solver.sudoku.set_count);
}

#[test]
fn reset_one_hands_on_a_refusal() {
    let mut solver = Solver::new(Sudoku::new_empty());
    solver.sudoku.set(0, 0, 1).unwrap();
    let resets = vec![Coordinates { row: 9, column: 0 }];
    let res = solver.reset_one(&resets, 0);
    assert!(matches!(
        res,
        Err(SolverError::SudokuError(SudokuError::BadCoordinates(9, 0)))
    ));
    assert_eq!(1, solver.sudoku.set_count);
}

#[test]
fn a_fresh_scan_stands_on_the_first_cell() {
    let scan = Scan::new();
    assert!(!scan.changed);
    assert!(scan.certain);
    assert_eq!(vec![1u8, 2, 3, 4, 5, 6, 7, 8, 9], scan.lowest_possibilities);
    assert_eq!(Coordinates { row: 0, column: 0 }, scan.lowest_possible_coords);
}

#[test]
fn consider_remembers_the_last_cell_with_the_fewest_values() {
    let mut solver = Solver::new(Sudoku::new_empty());
    let mut scan = Scan::new();

    // Nine values are no more than nine: remembered, and no longer certain.
    solver
        .consider(&mut scan, 2, 3, &vec![1, 2, 3, 4, 5, 6, 7, 8, 9])
        .unwrap();
    assert!(!scan.certain);
    assert!(!scan.changed);
    assert_eq!(Coordinates { row: 2, column: 3 }, scan.lowest_possible_coords);

    solver.consider(&mut scan, 2, 4, &vec![2, 5, 7]).unwrap();
    assert_eq!(vec![2u8, 5, 7], scan.lowest_possibilities);
    assert_eq!(Coordinates { row: 2, column: 4 }, scan.lowest_possible_coords);

    // More values: passed over.
    solver.consider(&mut scan, 2, 5, &vec![1, 2, 5, 7]).unwrap();
    assert_eq!(vec![2u8, 5, 7], scan.lowest_possibilities);
    assert_eq!(Coordinates { row: 2, column: 4 }, scan.lowest_possible_coords);

    // As many values: the later cell takes the place.
    solver.consider(&mut scan, 6, 6, &vec![3, 4, 9]).unwrap();
    assert_eq!(vec![3u8, 4, 9], scan.lowest_possibilities);
    assert_eq!(Coordinates { row: 6, column: 6 }, scan.lowest_possible_coords);

    assert!(!scan.changed);
    assert_eq!([0u8; 81], solver.sudoku.squares);
}

#[test]
fn consider_fills_a_cell_with_one_value() {
    let mut solver = Solver::new(Sudoku::new_empty());
    let mut scan = Scan::new();
    solver.consider(&mut scan, 4, 5, &vec![7]).unwrap();
    assert!(scan.changed);
    assert!(!scan.certain);
    assert_eq!(vec![7u8], scan.lowest_possibilities);
    assert_eq!(Coordinates { row: 4, column: 5 }, scan.lowest_possible_coords);
    assert_eq!(7, solver.sudoku.squares[4 * 9 + 5]);
    assert_eq!(1, solver.sudoku.set_count);

    // A later cell with more values changes neither the grid nor the note.
    solver.consider(&mut scan, 4, 6, &vec![1, 2]).unwrap();
    assert!(scan.changed);
    assert_eq!(vec![7u8], scan.lowest_possibilities);
    assert_eq!(1, solver.sudoku.set_count);
}

#[test]
fn consider_hands_on_a_refusal() {
    let mut solver = Solver::new(Sudoku::new_empty());
    let mut scan = Scan::new();
    let res = solver.consider(&mut scan, 4, 9, &vec![7]);
    assert!(matches!(
        res,
        Err(SolverError::SudokuError(SudokuError::BadCoordinates(4, 9)))
    ));
    let res = solver.consider(&mut scan, 4, 4, &vec![12]);
    assert!(matches!(
        res,
        Err(SolverError::SudokuError(SudokuError::BadValue(12)))
    ));
    assert_eq!([0u8; 81], solver.sudoku.squares);
}

#[test]
fn guess_writes_the_drawn_value_into_the_remembered_cell() {
    let mut solver = Solver::new(Sudoku::new_empty());
    let mut scan = Scan::new();
    solver.consider(&mut scan, 7, 2, &vec![2, 6, 8]).unwrap();
    solver.guess(&scan, 1).unwrap();
    assert_eq!(6, solver.sudoku.squares[7 * 9 + 2]);
    assert_eq!(1, solver.sudoku.set_count);
    solver.guess(&scan, 2).unwrap();
    assert_eq!(8, solver.sudoku.squares[7 * 9 + 2]);
    assert_eq!(1, solver.sudoku.set_count);
    solver.guess(&Scan::new(), 0).unwrap();
    assert_eq!(1, solver.sudoku.squares[0]);
    assert_eq!(2, solver.sudoku.set_count);
}

#[test]
fn repair_frees_a_dead_end() {
    // Nothing is given; the live grid then blocks the first cell.
    let mut solver = Solver::new(Sudoku::new_empty());
    for c in 1..9 {
        solver.sudoku.set(0, c, c as u8).unwrap();
    }
    solver.sudoku.set(1, 0, 9).unwrap();
    solver.sudoku.set(4, 4, 5).unwrap();
    assert!(solver.get_possible(0, 0).unwrap().is_empty());
    let before = solver.sudoku.squares;

    let values = solver.repair(0, 0, Vec::new()).unwrap();

    assert!(!values.is_empty());
    assert_eq!(values, sorted_values(&solver.get_possible(0, 0).unwrap()));
    assert!(!solver.sudoku.is_set(0, 0).unwrap());
    let mut filled = 0;
    for i in 0..81 {
        assert!(solver.sudoku.squares[i] == before[i] || solver.sudoku.squares[i] == 0);
        if solver.sudoku.squares[i] != 0 {
            filled += 1;
        }
    }
    assert_eq!(filled, solver.sudoku.set_count);
    assert!(filled < 10);
    // Out of sight of the first cell: never touched.
    assert_eq!(5, solver.sudoku.squares[4 * 9 + 4]);
    assert_eq!([0u8; 81], solver.last_secure_state);
}

#[test]
fn repair_leaves_a_cell_with_values_alone() {
    let mut grid = pattern_grid();
    grid[0] = 0;
    let mut solver = Solver::new(Sudoku::new_from_state(grid));
    let values = solver.repair(0, 0, vec![1]).unwrap();
    assert_eq!(vec![1u8], values);
    assert_eq!(grid, solver.sudoku.squares);
    assert_eq!(80, solver.sudoku.set_count);
}

/// Row 0 holds 1 to 8 and the last column holds a 9: the corner cell has no
/// value left, whatever is emptied around it.
fn blocked_grid() -> Grid {
    let mut cells = [0u8; 81];
    for c in 0..8 {
        cells[c] = (c + 1) as u8;
    }
    cells[5 * 9 + 8] = 9;
    cells
}

#[test]
fn repair_gives_up_where_the_snapshot_blocks_the_cell() {
    let grid = blocked_grid();
    let mut solver = Solver::new(Sudoku::new_from_state(grid));
    assert!(!solver.has_sealed_cell());
    let res = solver.repair(0, 8, Vec::new());
    assert!(matches!(res, Err(SolverError::NoPossibilities)));
    assert_eq!(grid, solver.sudoku.squares);
    assert_eq!(9, solver.sudoku.set_count);
    assert!(MAX_REPAIRS > 0);
}

#[test]
fn solve_gives_up_on_a_blocked_grid() {
    let grid = blocked_grid();
    let mut solver = Solver::new(Sudoku::new_from_state(grid));
    let res = solver.solve();
    assert!(matches!(res, Err(SolverError::NoPossibilities)));
    assert!(solver.sudoku.set_count < 81);
    assert!(keeps(&solver.sudoku.squares, &grid));
    assert_eq!(grid, solver.last_secure_state);
}

/// The first cell is empty and its twenty neighbors are given, with every
/// number from 1 to 9 among them: no repair can be drawn for it.
fn sealed_grid() -> Grid {
    let mut cells = [0u8; 81];
    for c in 1..9 {
        cells[c] = c as u8;
    }
    for r in 1..9 {
        cells[r * 9] = (r % 9 + 1) as u8;
    }
    cells[9 + 1] = 1;
    cells[9 + 2] = 2;
    cells[18 + 1] = 3;
    cells[18 + 2] = 4;
    cells
}

#[test]
fn a_sealed_cell_is_found() {
    let solver = Solver::new(Sudoku::new_from_state(sealed_grid()));
    assert!(solver.get_possible(0, 0).unwrap().is_empty());
    assert!(solver.possible_resets(0, 0).is_empty());
    assert!(solver.has_sealed_cell());
}

#[test]
fn a_walled_in_cell_with_a_value_left_is_not_sealed() {
    let mut grid = sealed_grid();
    // Take the only 9 out of sight of the first cell: 9 stays possible.
    grid[8 * 9] = 1;
    let solver = Solver::new(Sudoku::new_from_state(grid));
    assert!(solver.possible_resets(0, 0).is_empty());
    assert_eq!(HashSet::from([9u8]), solver.get_possible(0, 0).unwrap());
    assert!(!solver.has_sealed_cell());
}

#[test]
fn grids_without_sealed_cells() {
    assert!(!Solver::new(Sudoku::new_empty()).has_sealed_cell());
    assert!(!Solver::new(Sudoku::new_from_state(pattern_grid())).has_sealed_cell());
    let mut grid = pattern_grid();
    grid[40] = 0;
    assert!(!Solver::new(Sudoku::new_from_state(grid)).has_sealed_cell());
}

#[test]
fn step_fills_a_forced_cell() {
    let mut grid = pattern_grid();
    grid[30] = 0;
    let mut solver = Solver::new(Sudoku::new_from_state(grid));
    solver.step().unwrap();
    assert_eq!(pattern_grid(), solver.sudoku.squares);
    assert_eq!(81, solver.sudoku.set_count);
}

#[test]
fn step_fills_every_forced_cell_of_one_scan() {
    let mut grid = pattern_grid();
    for i in [0usize, 30, 80] {
        grid[i] = 0;
    }
    let mut solver = Solver::new(Sudoku::new_from_state(grid));
    solver.step().unwrap();
    assert_eq!(pattern_grid(), solver.sudoku.squares);
}

#[test]
fn step_guesses_the_last_cell_with_the_fewest_values() {
    // Every cell has nine values: the last cell of the scan wins.
    let mut solver = Solver::new(Sudoku::new_empty());
    solver.step().unwrap();
    assert_eq!(1, solver.sudoku.set_count);
    let value = solver.sudoku.squares[80];
    assert!((1..=9).contains(&value));
    for i in 0..80 {
        assert_eq!(0, solver.sudoku.squares[i]);
    }
}

#[test]
fn step_guesses_one_of_the_possible_values() {
    // After the first guess the cells in sight of the last cell have eight
    // values left, and the last of them in the scan is its left neighbor.
    let mut solver = Solver::new(Sudoku::new_empty());
    solver.step().unwrap();
    solver.step().unwrap();
    assert_eq!(2, solver.sudoku.set_count);
    let first = solver.sudoku.squares[80];
    let second = solver.sudoku.squares[79];
    assert!((1..=9).contains(&first));
    assert!((1..=9).contains(&second));
    assert_ne!(first, second);
    assert!(is_legal(&solver.sudoku));
}

#[test]
fn step_on_a_full_grid_overwrites_the_first_cell() {
    let grid = pattern_grid();
    let mut solver = Solver::new(Sudoku::new_from_state(grid));
    solver.step().unwrap();
    assert!((1..=9).contains(&solver.sudoku.squares[0]));
    assert_eq!(grid[1..], solver.sudoku.squares[1..]);
    assert_eq!(81, solver.sudoku.set_count);
}

#[test]
fn step_never_retakes_the_snapshot() {
    let mut grid = pattern_grid();
    for i in 0..81 {
        if i % 2 == 0 {
            grid[i] = 0;
        }
    }
    let mut solver = Solver::new(Sudoku::new_from_state(grid));
    let mut steps = 0;
    while solver.sudoku.set_count < 81 && steps < MAX_STEPS {
        solver.step().unwrap();
        steps += 1;
        assert_eq!(grid, solver.last_secure_state);
        assert!(!solver.last_secure_state_set);
        assert!(keeps(&solver.sudoku.squares, &grid));
        assert!(is_legal(&solver.sudoku));
    }
    assert_eq!(81, solver.sudoku.set_count);
}

#[test]
fn set_last_secure_state_takes_the_live_grid() {
    let mut solver = Solver::new(Sudoku::new_empty());
    solver.sudoku.set(6, 6, 6).unwrap();
    assert_eq!(0, solver.last_secure_state[6 * 9 + 6]);
    solver.set_last_secure_state();
    assert_eq!(6, solver.last_secure_state[6 * 9 + 6]);
    assert_eq!(solver.sudoku.squares, solver.last_secure_state);
    assert!(solver.last_secure_state_set);
    assert_eq!(1, solver.sudoku.set_count);
}

#[test]
fn solve_fills_an_empty_grid_legally() {
    let mut solver = Solver::new(Sudoku::new_empty());
    solver.solve().unwrap();
    assert_eq!(81, solver.sudoku.set_count);
    assert!(solver.sudoku.squares.iter().all(|v| (1..=9).contains(v)));
    assert!(is_legal(&solver.sudoku));
}

#[test]
fn solve_keeps_the_givens() {
    let mut grid = pattern_grid();
    for i in 0..81 {
        if i % 3 != 0 {
            grid[i] = 0;
        }
    }
    let mut solver = Solver::new(Sudoku::new_from_state(grid));
    solver.solve().unwrap();
    assert_eq!(81, solver.sudoku.set_count);
    assert!(is_legal(&solver.sudoku));
    assert!(keeps(&solver.sudoku.squares, &grid));
    assert_eq!(grid, solver.last_secure_state);
    assert!(!solver.last_secure_state_set);
}

#[test]
fn solve_leaves_a_full_grid_alone() {
    let grid = pattern_grid();
    let mut solver = Solver::new(Sudoku::new_from_state(grid));
    solver.solve().unwrap();
    assert_eq!(grid, solver.sudoku.squares);
    assert_eq!(81, solver.sudoku.set_count);
}

#[test]
fn solve_solves_generated_puzzles() {
    for _ in 0..20 {
        let puzzle = Solver::generate(70).unwrap();
        let givens = puzzle.squares;
        let mut solver = Solver::new(puzzle);
        assert!(!solver.has_sealed_cell());
        solver.solve().unwrap();
        assert_eq!(81, solver.sudoku.set_count);
        assert!(is_legal(&solver.sudoku));
        assert!(keeps(&solver.sudoku.squares, &givens));
    }
}

#[test]
fn puzzle_from_empties_the_cells_with_low_rolls() {
    let solution = pattern_grid();
    let mut rolls = [0usize; 81];
    for i in 0..81 {
        rolls[i] = (i * 7) % 100;
    }
    let puzzle = Solver::puzzle_from(solution, &rolls, 40);
    let mut filled = 0;
    for i in 0..81 {
        if rolls[i] < 40 {
            assert_eq!(0, puzzle.squares[i]);
        } else {
            assert_eq!(solution[i], puzzle.squares[i]);
            filled += 1;
        }
    }
    assert_eq!(filled, puzzle.set_count);
    // Roll 39 empties, roll 40 keeps.
    rolls[0] = 39;
    rolls[1] = 40;
    let edge = Solver::puzzle_from(solution, &rolls, 40);
    assert_eq!(0, edge.squares[0]);
    assert_eq!(solution[1], edge.squares[1]);
}

#[test]
fn puzzle_from_with_extreme_difficulties() {
    let solution = pattern_grid();
    let rolls = [0usize; 81];
    assert_eq!(solution, Solver::puzzle_from(solution, &rolls, 0).squares);
    assert_eq!([0u8; 81], Solver::puzzle_from(solution, &rolls, 1).squares);
    let high = [99usize; 81];
    assert_eq!(solution, Solver::puzzle_from(solution, &high, 99).squares);
    assert_eq!([0u8; 81], Solver::puzzle_from(solution, &high, 100).squares);
    assert_eq!(0, Solver::puzzle_from(solution, &high, 255).set_count);
}

#[test]
fn generate_with_no_difficulty_gives_a_solved_grid() {
    let sudoku = Solver::generate(0).unwrap();
    assert_eq!(81, sudoku.set_count);
    assert!(sudoku.squares.iter().all(|v| (1..=9).contains(v)));
    assert!(is_legal(&sudoku));
}

#[test]
fn generate_with_full_difficulty_gives_an_empty_grid() {
    let sudoku = Solver::generate(100).unwrap();
    assert_eq!([0u8; 81], sudoku.squares);
    assert_eq!(0, sudoku.set_count);
    let above = Solver::generate(255).unwrap();
    assert_eq!([0u8; 81], above.squares);
}

#[test]
fn generate_gives_a_legal_part_of_a_solution() {
    for _ in 0..10 {
        let sudoku = Solver::generate(50).unwrap();
        assert!(is_legal(&sudoku));
        assert!(sudoku.squares.iter().all(|v| *v <= 9));
        let filled = sudoku.squares.iter().filter(|v| **v != 0).count();
        assert_eq!(filled, sudoku.set_count as usize);
        assert!(!Solver::new(sudoku).has_sealed_cell());
    }
}

#[test]
fn a_grid_error_becomes_a_solver_error() {
    let wrapped = SolverError::from(SudokuError::BadValue(12));
    assert!(matches!(
        wrapped,
        SolverError::SudokuError(SudokuError::BadValue(12))
    ));
}

#[test]
fn solver_renders_its_live_grid() {
    let mut solver = Solver::new(Sudoku::new_empty());
    solver.sudoku.set(0, 0, 3).unwrap();
    assert_eq!(solver.sudoku.render(), solver.render());
    assert!(solver.render().starts_with("3     |       |       \n"));
}
