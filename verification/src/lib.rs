//! A 9×9 Sudoku grid together with a randomized solver and puzzle generator.
//!
//! The solver narrows the possible values of each empty cell, fills the cells
//! that have exactly one, guesses where none is forced, and repairs a dead end
//! by emptying neighbors that were not part of the puzzle as it was given.
//!
//! All contracts speak of the row-major sequence of the 81 cell values. Chance
//! enters through one function only, `random_below`, whose body is taken on
//! trust; what the solver does with a draw is proved for every number that may
//! be drawn.

pub mod neighbors;
mod random;
pub mod render;
pub mod repair;
pub mod rules;
pub mod scan;
pub mod solver;
pub mod sudoku;
