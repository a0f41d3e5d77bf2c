//! Dead ends and their repair: which neighbors of a cell may be emptied, when
//! no repair can help, and the repair itself.

use crate::neighbors::{neighbor_set, Neighbors};
use crate::random::random_below;
use crate::rules::{candidates, distinct_values, extends, on_grid, solved};
use crate::scan::{cleared_among, coords_at, one_repair, repaired_to, repairs, stuck};
use crate::solver::{lemma_lists_bound, lists, Solver, SolverError, MAX_REPAIRS};
use crate::sudoku::{block_of, cell_index, column_of, row_of, Coordinates, Sudoku};
use vstd::prelude::*;

verus! {

broadcast use vstd::std_specs::hash::group_hash_axioms;

/// The neighbors of `target` that the snapshot `givens` leaves free to be
/// emptied: those that are empty in it.
pub open spec fn eligible(givens: Seq<u8>, target: Coordinates) -> Set<Coordinates> {
    Set::new(
        |c: Coordinates|
            neighbor_set(target).contains(c) && givens[cell_index(c.row as int, c.column as int)]
                == 0,
    )
}

/// The cell `c` is empty in `givens`, each of its neighbors is filled there,
/// and together they leave `c` no number.
pub open spec fn sealed(givens: Seq<u8>, c: Coordinates) -> bool {
    &&& on_grid(c)
    &&& givens[cell_index(c.row as int, c.column as int)] == 0
    &&& eligible(givens, c) == Set::<Coordinates>::empty()
    &&& candidates(givens, c.row as int, c.column as int) == Set::<u8>::empty()
}

/// No cell of `givens` is sealed.
pub open spec fn unsealed(givens: Seq<u8>) -> bool {
    forall|c: Coordinates| !sealed(givens, c)
}

/// The row, the column and the block of a cell hold the cell and its
/// neighbors, nothing else.
proof fn lemma_projections_are_neighbors(target: Coordinates, i: int)
    requires
        on_grid(target),
        0 <= i < 9,
    ensures
        ({
            let c = Coordinates { row: target.row, column: i as usize };
            c == target || neighbor_set(target).contains(c)
        }),
        ({
            let c = Coordinates { row: i as usize, column: target.column };
            c == target || neighbor_set(target).contains(c)
        }),
        ({
            let c = Coordinates {
                row: (target.row / 3 * 3 + i / 3) as usize,
                column: (target.column / 3 * 3 + i % 3) as usize,
            };
            c == target || neighbor_set(target).contains(c)
        }),
{
}

/// Where every neighbor of an empty cell is kept from the snapshot, the cell
/// may hold in the live grid what it may hold in the snapshot.
proof fn lemma_same_candidates(live: Seq<u8>, givens: Seq<u8>, target: Coordinates)
    requires
        live.len() == 81,
        on_grid(target),
        extends(live, givens),
        live[cell_index(target.row as int, target.column as int)] == 0,
        eligible(givens, target) == Set::<Coordinates>::empty(),
    ensures
        candidates(live, target.row as int, target.column as int) == candidates(
            givens,
            target.row as int,
            target.column as int,
        ),
        givens[cell_index(target.row as int, target.column as int)] == 0,
{
    let row = target.row as int;
    let column = target.column as int;
    assert forall|c: Coordinates| c == target || neighbor_set(target).contains(c) implies live[cell_index(
        c.row as int,
        c.column as int,
    )] == givens[cell_index(c.row as int, c.column as int)] by {
        if c != target {
            assert(!eligible(givens, target).contains(c));
        }
    }
    assert forall|i: int| 0 <= i < 9 implies row_of(live, row)[i] == row_of(givens, row)[i] by {
        lemma_projections_are_neighbors(target, i);
        let c = Coordinates { row: target.row, column: i as usize };
        assert(c == target || neighbor_set(target).contains(c));
    }
    assert(row_of(live, row) =~= row_of(givens, row));
    assert forall|i: int| 0 <= i < 9 implies column_of(live, column)[i] == column_of(
        givens,
        column,
    )[i] by {
        lemma_projections_are_neighbors(target, i);
        let c = Coordinates { row: i as usize, column: target.column };
        assert(c == target || neighbor_set(target).contains(c));
    }
    assert(column_of(live, column) =~= column_of(givens, column));
    let block_live = block_of(live, row / 3, column / 3);
    let block_givens = block_of(givens, row / 3, column / 3);
    assert forall|i: int| 0 <= i < 9 implies block_live[i] == block_givens[i] by {
        lemma_projections_are_neighbors(target, i);
        let c = Coordinates {
            row: (target.row / 3 * 3 + i / 3) as usize,
            column: (target.column / 3 * 3 + i % 3) as usize,
        };
        assert(c == target || neighbor_set(target).contains(c));
    }
    assert(block_live =~= block_givens);
    assert(candidates(live, row, column) =~= candidates(givens, row, column));
}

/// A grid without any number has no sealed cell: every neighbor is free.
pub proof fn lemma_empty_grid_unsealed(givens: Seq<u8>)
    requires
        givens.len() == 81,
        forall|i: int| 0 <= i < 81 ==> givens[i] == 0,
    ensures
        unsealed(givens),
{
    assert forall|c: Coordinates| !sealed(givens, c) by {
        if on_grid(c) {
            let beside = Coordinates {
                row: c.row,
                column: if c.column == 0 {
                    1
                } else {
                    0
                },
            };
            assert(eligible(givens, c).contains(beside));
        }
    }
}

/// A grid that is part of a solved one has no sealed cell: each empty cell
/// may still take the number that the solved grid has there.
pub proof fn lemma_part_of_solved_unsealed(solution: Seq<u8>, givens: Seq<u8>)
    requires
        solved(solution),
        extends(solution, givens),
    ensures
        unsealed(givens),
{
    assert forall|c: Coordinates| !sealed(givens, c) by {
        if on_grid(c) && givens[cell_index(c.row as int, c.column as int)] == 0 {
            let row = c.row as int;
            let column = c.column as int;
            let v = solution[cell_index(row, column)];
            assert forall|i: int| 0 <= i < 9 implies row_of(givens, row)[i] != v by {
                assert(distinct_values(row_of(solution, row)));
                assert(row_of(solution, row)[column] == v);
                assert(row_of(givens, row)[i] == 0 || row_of(givens, row)[i] == row_of(
                    solution,
                    row,
                )[i]);
            }
            assert forall|i: int| 0 <= i < 9 implies column_of(givens, column)[i] != v by {
                assert(distinct_values(column_of(solution, column)));
                assert(column_of(solution, column)[row] == v);
                assert(column_of(givens, column)[i] == 0 || column_of(givens, column)[i]
                    == column_of(solution, column)[i]);
            }
            let block_givens = block_of(givens, row / 3, column / 3);
            let block_solution = block_of(solution, row / 3, column / 3);
            assert forall|i: int| 0 <= i < 9 implies block_givens[i] != v by {
                assert(distinct_values(block_solution));
                assert(block_solution[(row % 3) * 3 + column % 3] == v);
                assert(block_givens[i] == 0 || block_givens[i] == block_solution[i]);
            }
            assert(candidates(givens, row, column).contains(v));
        }
    }
}

impl Solver {
    /// The neighbors of the cell at (`row`, `column`) that a repair may empty:
    /// those that are empty in the snapshot, each once.
    pub fn possible_resets(&self, row: usize, column: usize) -> (resets: Vec<Coordinates>)
        requires
            row < 9,
            column < 9,
        ensures
            resets@.no_duplicates(),
            resets@.to_set() == eligible(self.last_secure_state@, Coordinates { row, column }),
    {
        let target = Coordinates { row, column };
        let neighbors = Neighbors::from(target);
        let mut possible_resets = neighbors.clone();
        let cells = neighbors.into_vec();
        let ghost givens = self.last_secure_state@;
        for k in 0..cells.len()
            invariant
                on_grid(target),
                givens == self.last_secure_state@,
                cells@.to_set() == neighbor_set(target),
                possible_resets@ == Set::new(
                    |c: Coordinates|
                        neighbor_set(target).contains(c) && forall|j: int|
                            0 <= j < k && cells[j] == c ==> givens[cell_index(
                                c.row as int,
                                c.column as int,
                            )] == 0,
                ),
        {
            let possible_reset = cells[k];
            assert(cells@.contains(possible_reset));
            assert(neighbor_set(target).contains(possible_reset));
            if self.last_secure_state[possible_reset.row * 9 + possible_reset.column] != 0 {
                possible_resets.remove(&possible_reset);
            }
            assert(possible_resets@ =~= Set::new(
                |c: Coordinates|
                    neighbor_set(target).contains(c) && forall|j: int|
                        0 <= j < k + 1 && cells[j] == c ==> givens[cell_index(
                            c.row as int,
                            c.column as int,
                        )] == 0,
            ));
        }
        proof {
            assert forall|c: Coordinates| possible_resets@.contains(c) implies eligible(
                givens,
                target,
            ).contains(c) by {
                assert(cells@.contains(c));
                let j = choose|j: int| 0 <= j < cells.len() && cells[j] == c;
                assert(cells[j] == c);
            }
            assert(possible_resets@ =~= eligible(givens, target));
        }
        possible_resets.into_vec()
    }

    /// One repair: empties the cell that the draw `pick` names among `resets`.
    pub fn reset_one(&mut self, resets: &Vec<Coordinates>, pick: usize) -> (res: Result<
        (),
        SolverError,
    >)
        requires
            old(self).sudoku.wf(),
            pick < resets.len(),
        ensures
            final(self).sudoku.wf(),
            old(self).write_outcome(resets[pick as int], 0, res, *final(self)),
    {
        let reset = resets[pick];
        self.write(reset, 0)
    }

    /// Repairs a dead end at the empty cell (`row`, `column`), whose possible
    /// values `listed` holds: as long as the cell has none, one of the
    /// neighbors that the snapshot leaves free is drawn and emptied. Gives the
    /// values that the cell may take afterwards, or `NoPossibilities` when
    /// `MAX_REPAIRS` draws have not freed one. The snapshot must have no sealed
    /// cell: at such a cell there would be no neighbor to draw.
    pub fn repair(&mut self, row: usize, column: usize, listed: Vec<u8>) -> (res: Result<
        Vec<u8>,
        SolverError,
    >)
        requires
            row < 9,
            column < 9,
            old(self).wf(),
            unsealed(old(self).last_secure_state@),
            old(self).sudoku@[cell_index(row as int, column as int)] == 0,
            lists(listed@, candidates(old(self).sudoku@, row as int, column as int)),
        ensures
            final(self).wf(),
            final(self).last_secure_state == old(self).last_secure_state,
            final(self).last_secure_state_set == old(self).last_secure_state_set,
            cleared_among(
                old(self).sudoku@,
                final(self).sudoku@,
                eligible(old(self).last_secure_state@, Coordinates { row, column }),
            ),
            listed.len() > 0 ==> final(self).sudoku == old(self).sudoku && res == Ok::<
                Vec<u8>,
                SolverError,
            >(listed),
            res matches Ok(values) ==> 0 < values.len() <= 9 && lists(
                values@,
                candidates(final(self).sudoku@, row as int, column as int),
            ),
            res is Ok ==> repaired_to(
                old(self).last_secure_state@,
                Coordinates { row, column },
                old(self).sudoku@,
                final(self).sudoku@,
            ),
            res matches Err(e) ==> e == SolverError::NoPossibilities,
            res is Err ==> stuck(final(self).sudoku@, Coordinates { row, column }) && repairs(
                old(self).last_secure_state@,
                Coordinates { row, column },
                old(self).sudoku@,
                final(self).sudoku@,
                MAX_REPAIRS as nat,
            ),
    {
        proof {
            lemma_lists_bound(listed@, candidates(self.sudoku@, row as int, column as int));
        }
        let mut possibilities = listed;
        let mut attempts: usize = 0;
        let ghost target = Coordinates { row, column };
        while possibilities.len() == 0
            invariant
                row < 9,
                column < 9,
                target == (Coordinates { row, column }),
                attempts <= MAX_REPAIRS,
                self.wf(),
                self.last_secure_state == old(self).last_secure_state,
                self.last_secure_state_set == old(self).last_secure_state_set,
                unsealed(self.last_secure_state@),
                cleared_among(
                    old(self).sudoku@,
                    self.sudoku@,
                    eligible(self.last_secure_state@, target),
                ),
                self.sudoku@[cell_index(row as int, column as int)] == 0,
                lists(possibilities@, candidates(self.sudoku@, row as int, column as int)),
                possibilities.len() <= 9,
                attempts == 0 ==> self.sudoku == old(self).sudoku && possibilities == listed,
                attempts > 0 ==> listed.len() == 0,
                repairs(
                    self.last_secure_state@,
                    target,
                    old(self).sudoku@,
                    self.sudoku@,
                    attempts as nat,
                ),
            decreases MAX_REPAIRS - attempts,
        {
            let ghost last = self.sudoku@;
            assert(stuck(last, target)) by {
                assert forall|v: u8| !candidates(last, row as int, column as int).contains(v) by {
                    assert(!possibilities@.contains(v));
                }
            }
            if attempts >= MAX_REPAIRS {
                return Err(SolverError::NoPossibilities);
            }
            attempts += 1;
            let resets = self.possible_resets(row, column);
            proof {
                let live = self.sudoku@;
                let givens = self.last_secure_state@;
                if resets.len() == 0 {
                    assert(resets@.to_set() =~= Set::<Coordinates>::empty());
                    lemma_same_candidates(live, givens, target);
                    assert forall|v: u8| !candidates(live, row as int, column as int).contains(
                        v,
                    ) by {
                        assert(!possibilities@.contains(v));
                    }
                    assert(candidates(givens, row as int, column as int) =~= Set::<u8>::empty());
                    assert(sealed(givens, target));
                }
            }
            let pick = random_below(resets.len());
            proof {
                assert(resets@.contains(resets[pick as int]));
                assert(eligible(self.last_secure_state@, target).contains(resets[pick as int]));
            }
            self.reset_one(&resets, pick)?;
            assert(coords_at(cell_index(resets[pick as int].row as int, resets[pick as int].column as int))
                == resets[pick as int]);
            proof {
                let givens = self.last_secure_state@;
                let reset = resets[pick as int];
                let count = attempts as nat;
                assert(repairs(givens, target, old(self).sudoku@, last, (count - 1) as nat));
                assert(one_repair(givens, target, last, reset, self.sudoku@));
                assert(repairs(givens, target, old(self).sudoku@, self.sudoku@, count));
            }
            possibilities = self.possible_list(row, column)?;
        }
        proof {
            assert(possibilities@.contains(possibilities@[0]));
        }
        Ok(possibilities)
    }

    /// Tells whether the snapshot has a sealed cell: an empty cell whose
    /// neighbors are all filled in the snapshot and leave it no number. No
    /// repair can help such a cell.
    pub fn has_sealed_cell(&self) -> (found: bool)
        ensures
            found == !unsealed(self.last_secure_state@),
    {
        let snapshot = Solver::new(Sudoku::new_from_state(self.last_secure_state));
        let ghost givens = self.last_secure_state@;
        for row in 0..9usize
            invariant
                givens == self.last_secure_state@,
                snapshot.sudoku@ == givens,
                forall|c: Coordinates| c.row < row ==> !sealed(givens, c),
        {
            for column in 0..9usize
                invariant
                    row < 9,
                    givens == self.last_secure_state@,
                    snapshot.sudoku@ == givens,
                    forall|c: Coordinates|
                        c.row < row || (c.row == row && c.column < column) ==> !sealed(givens, c),
            {
                let ghost target = Coordinates { row, column };
                if self.last_secure_state[row * 9 + column] == 0 {
                    let resets = self.possible_resets(row, column);
                    if resets.len() == 0 {
                        assert(resets@.to_set() =~= Set::<Coordinates>::empty());
                        let possible = snapshot.get_possible(row, column);
                        match possible {
                            Ok(values) => {
                                if values.is_empty() {
                                    assert(sealed(givens, target));
                                    return true;
                                }
                            },
                            Err(_) => {},
                        }
                    } else {
                        assert(resets@.contains(resets[0]));
                        assert(eligible(givens, target).contains(resets[0]));
                    }
                }
                assert(!sealed(givens, target));
            }
        }
        false
    }
}

} // verus!
