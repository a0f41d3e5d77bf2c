use std::collections::HashSet;
use sudoku_solver::neighbors::Neighbors;
use sudoku_solver::solver::Solver;
use sudoku_solver::sudoku::{Coordinates, Sudoku};

fn all_possible() -> HashSet<u8> {
    HashSet::from([1u8, 2u8, 3u8, 4u8, 5u8, 6u8, 7u8, 8u8, 9u8])
}

#[test]
fn test_possible() {
    let mut solver = Solver::new(Sudoku::new_empty());
    assert_eq!(all_possible(), solver.get_possible(1, 1).unwrap());
    solver.sudoku.set(0, 1, 1).unwrap();
    assert_eq!(
        HashSet::from([2, 3, 4, 5, 6, 7, 8, 9]),
        solver.get_possible(1, 1).unwrap()
    );
}

#[test]
fn test_possible_resets() {
    let resets = Neighbors::from(Coordinates::from((1, 2)));
    println!("{:#?}", resets);
}

#[test]
fn test_generate() {
    let sudoku = Solver::generate(50).unwrap();
    println!("{}", sudoku.render());
}
