//! The solver: candidate computation, the randomized step with its dead-end
//! repair, solving to completion and puzzle generation.

use crate::random::random_below;
use crate::repair::{lemma_empty_grid_unsealed, lemma_part_of_solved_unsealed, unsealed};
use crate::rules::{
    candidates, complete, extends, legal, lemma_count_set_complete,
    lemma_only_cleared_candidates, lemma_only_cleared_legal, lemma_write_keeps_legal, on_grid,
    only_cleared, solved, within_range,
};
use crate::scan::{
    abandoned, concluded, considered, coords_at, fresh_scan, gave_up, reaches, repairs,
    scan_record, stepped, visit, visit_at, visit_through, Scan, ScanView,
};
use crate::sudoku::{
    block_of, cell_index, column_of, empty_grid, lemma_count_set_bound, lemma_count_set_zeros,
    lemma_wf_count_fits, refusal, row_of, Coordinates, Grid, Sudoku, SudokuError,
};
use std::collections::HashSet;
use vstd::prelude::*;

verus! {

broadcast use vstd::std_specs::hash::group_hash_axioms;

/// The numbers a cell can hold.
pub open spec fn all_values() -> Set<u8> {
    Set::new(|v: u8| 1 <= v <= 9)
}

/// There are nine numbers.
pub proof fn lemma_all_values()
    ensures
        all_values().finite(),
        all_values().len() == 9,
{
    assert(all_values() =~= set![1u8, 2u8, 3u8, 4u8, 5u8, 6u8, 7u8, 8u8, 9u8]);
}

/// A set holding every number from 1 to 9.
fn all_possible() -> (values: HashSet<u8>)
    ensures
        values@ == all_values(),
{
    let mut values: HashSet<u8> = HashSet::new();
    for v in 1..10u8
        invariant
            values@ == Set::new(|w: u8| 1 <= w < v),
    {
        values.insert(v);
        assert(values@ =~= Set::new(|w: u8| 1 <= w < v + 1));
    }
    assert(values@ =~= all_values());
    values
}

/// How many times one dead end is repaired before the solver gives up.
pub const MAX_REPAIRS: usize = 10000;

/// How many steps `solve` takes before it gives up.
pub const MAX_STEPS: usize = 100000;

/// `values` lists the numbers of `set`, each once and in rising order.
pub open spec fn lists(values: Seq<u8>, set: Set<u8>) -> bool {
    &&& forall|i: int, j: int| 0 <= i < j < values.len() ==> values[i] < values[j]
    &&& forall|v: u8| values.contains(v) <==> set.contains(v)
}

/// A rising list of numbers from 1 to 9 has nine entries at most.
pub proof fn lemma_lists_bound(values: Seq<u8>, set: Set<u8>)
    requires
        lists(values, set),
        set.subset_of(all_values()),
    ensures
        values.len() <= 9,
{
    assert forall|i: int| 0 <= i < values.len() implies values[i] >= 1 + i by {
        lemma_rising_from(values, set, i);
    }
    if values.len() > 9 {
        assert(values[9] >= 10);
        assert(values.contains(values[9]));
    }
}

/// The entry at place `i` of a rising list of numbers from 1 to 9 is above
/// `i`.
proof fn lemma_rising_from(values: Seq<u8>, set: Set<u8>, i: int)
    requires
        lists(values, set),
        set.subset_of(all_values()),
        0 <= i < values.len(),
    ensures
        values[i] >= 1 + i,
    decreases i,
{
    assert(values.contains(values[i]));
    if i > 0 {
        lemma_rising_from(values, set, i - 1);
    }
}

/// The numbers from 1 to 9 that `possible` holds, in rising order.
pub fn sorted_values(possible: &HashSet<u8>) -> (values: Vec<u8>)
    ensures
        lists(values@, possible@.intersect(all_values())),
        values.len() <= 9,
{
    let mut values: Vec<u8> = Vec::new();
    for v in 1..10u8
        invariant
            values.len() < v,
            forall|i: int, j: int| 0 <= i < j < values.len() ==> values[i] < values[j],
            forall|i: int| 0 <= i < values.len() ==> values[i] < v,
            forall|w: u8| values@.contains(w) <==> 1 <= w < v && possible@.contains(w),
    {
        if possible.contains(&v) {
            let ghost before = values@;
            values.push(v);
            assert(possible@.contains(v));
            assert(values@ == before.push(v));
            assert forall|w: u8| values@.contains(w) <==> 1 <= w < v + 1 && possible@.contains(
                w,
            ) by {
                if values@.contains(w) {
                    let k = choose|k: int| 0 <= k < values.len() && values[k] == w;
                    if k < before.len() {
                        assert(before[k] == w);
                        assert(before.contains(w));
                    }
                }
                if 1 <= w < v + 1 && possible@.contains(w) {
                    if w == v {
                        assert(values[values.len() - 1] == w);
                    } else {
                        assert(before.contains(w));
                        let k = choose|k: int| 0 <= k < before.len() && before[k] == w;
                        assert(values[k] == w);
                    }
                }
            }
        }
    }
    values
}

/// The grid `cells` with each cell emptied whose roll is below `difficulty`.
pub open spec fn blanked(cells: Seq<u8>, rolls: Seq<usize>, difficulty: u8) -> Seq<u8> {
    Seq::new(
        81,
        |i: int|
            if rolls[i] < difficulty {
                0u8
            } else {
                cells[i]
            },
    )
}

/// The puzzle `puzzle` is made with the difficulty `difficulty` from the
/// solved grid `solution` and the rolls `rolls`: the grid is what solving the
/// empty grid has given, each roll is below 100, and the cells with a roll
/// below the difficulty are emptied.
pub open spec fn generated(
    solution: Seq<u8>,
    rolls: Seq<usize>,
    difficulty: u8,
    puzzle: Seq<u8>,
) -> bool {
    &&& solved(solution)
    &&& exists|steps: nat| #[trigger] reaches(empty_grid(), empty_grid(), solution, steps)
    &&& rolls.len() == 81
    &&& forall|i: int| 0 <= i < 81 ==> rolls[i] < 100
    &&& puzzle == blanked(solution, rolls, difficulty)
}

/// `puzzle` is a puzzle of the difficulty `difficulty`: made from some solved
/// grid and some rolls.
pub open spec fn is_puzzle(puzzle: Seq<u8>, difficulty: u8) -> bool {
    exists|solution: Seq<u8>, rolls: Seq<usize>| #[trigger]
        generated(solution, rolls, difficulty, puzzle)
}

/// The numbers of `puzzle` are numbers of some solved grid, each in its place.
pub open spec fn part_of_solved(puzzle: Seq<u8>) -> bool {
    exists|solution: Seq<u8>| #[trigger] solved(solution) && extends(solution, puzzle)
}

/// A generated puzzle is part of the solved grid it is made from and has no
/// sealed cell. With a difficulty of 0 it is that grid, with one of 100 or
/// more it is empty.
pub proof fn lemma_generated(solution: Seq<u8>, rolls: Seq<usize>, difficulty: u8, puzzle: Seq<u8>)
    requires
        generated(solution, rolls, difficulty, puzzle),
    ensures
        extends(solution, puzzle),
        unsealed(puzzle),
        difficulty == 0 ==> puzzle == solution,
        difficulty >= 100 ==> puzzle == empty_grid(),
{
    lemma_part_of_solved_unsealed(solution, puzzle);
    if difficulty == 0 {
        assert(puzzle =~= solution);
    }
    if difficulty >= 100 {
        assert(puzzle =~= empty_grid());
    }
}

/// The numbers from 1 to 9 in rising order.
pub open spec fn nine_values() -> Seq<u8> {
    seq![1u8, 2u8, 3u8, 4u8, 5u8, 6u8, 7u8, 8u8, 9u8]
}

/// The cell `at` is empty in `cells`, and each of `values`, of which there is
/// at least one, may be written into it.
pub open spec fn guessable(cells: Seq<u8>, values: Seq<u8>, at: Coordinates) -> bool {
    &&& on_grid(at)
    &&& cells[cell_index(at.row as int, at.column as int)] == 0
    &&& values.len() > 0
    &&& forall|k: int|
        0 <= k < values.len() ==> candidates(cells, at.row as int, at.column as int).contains(
            #[trigger] values[k],
        )
}

/// What holds while a step scans the grid `live`, which was `start` when the
/// step began, and has come to the cell at `position`.
spec fn scanning(
    start: Seq<u8>,
    givens: Seq<u8>,
    live: Seq<u8>,
    position: int,
    scan: ScanView,
) -> bool {
    &&& extends(live, givens)
    &&& legal(start) ==> legal(live)
    &&& within_range(start) ==> within_range(live)
    &&& scan.certain <==> forall|i: int| 0 <= i < position ==> start[i] != 0
    &&& scan.certain ==> live == start && scan == fresh_scan()
    &&& !scan.certain && !scan.changed ==> guessable(
        live,
        scan.lowest_possibilities,
        scan.lowest_possible_coords,
    )
}

/// A grid being solved, with a snapshot of the last state that was known to
/// be consistent. Repairs never empty a cell that is filled in the snapshot.
#[derive(Debug)]
pub struct Solver {
    /// The live grid.
    pub sudoku: Sudoku,
    /// The cells of the snapshot.
    pub last_secure_state: Grid,
    /// Whether a snapshot has been taken since the solver was made.
    pub last_secure_state_set: bool,
}

/// Why solving stopped without a full grid.
#[derive(Debug)]
pub enum SolverError {
    /// The solver gave up: a cell was left without any possible value.
    NoPossibilities,
    /// The grid refused an operation.
    SudokuError(SudokuError),
}

impl From<SudokuError> for SolverError {
    /// A refusal by the grid, as a solver error.
    fn from(err: SudokuError) -> (wrapped: SolverError) {
        SolverError::SudokuError(err)
    }
}

impl vstd::std_specs::convert::FromSpecImpl<SudokuError> for SolverError {
    open spec fn obeys_from_spec() -> bool {
        true
    }

    open spec fn from_spec(err: SudokuError) -> SolverError {
        SolverError::SudokuError(err)
    }
}

impl Solver {
    /// `res` is what asking for the possible values of the cell at (`row`,
    /// `column`) gives: its candidates, or `BadCoordinates` for an index of 9
    /// or more.
    pub open spec fn possible_outcome(
        &self,
        row: usize,
        column: usize,
        res: Result<HashSet<u8>, SudokuError>,
    ) -> bool {
        if row < 9 && column < 9 {
            res matches Ok(possible) && possible@ == candidates(
                self.sudoku@,
                row as int,
                column as int,
            )
        } else {
            res matches Err(e) && e == SudokuError::BadCoordinates(row, column)
        }
    }

    /// What writing `value` into the cell `at` of the live grid gives: the
    /// refusal of the grid and the solver as it was, or the solver `after` the
    /// write. The snapshot stays.
    pub open spec fn write_outcome(
        &self,
        at: Coordinates,
        value: u8,
        res: Result<(), SolverError>,
        after: Solver,
    ) -> bool {
        &&& after.last_secure_state == self.last_secure_state
        &&& after.last_secure_state_set == self.last_secure_state_set
        &&& match refusal(at.row, at.column, value) {
            Some(e) => res == Err::<(), SolverError>(SolverError::SudokuError(e)) && after.sudoku
                == self.sudoku,
            None => res is Ok && self.sudoku.written(at.row, at.column, value, after.sudoku),
        }
    }

    /// The count of the live grid is right, and the live grid keeps every
    /// number of the snapshot.
    pub open spec fn wf(&self) -> bool {
        &&& self.sudoku.wf()
        &&& extends(self.sudoku@, self.last_secure_state@)
    }

    /// Wraps `sudoku`, taking it as the first snapshot.
    pub fn new(sudoku: Sudoku) -> (solver: Solver)
        ensures
            solver.sudoku == sudoku,
            solver.last_secure_state@ == sudoku@,
            !solver.last_secure_state_set,
    {
        let last_secure_state = sudoku.squares;
        Solver { sudoku, last_secure_state, last_secure_state_set: false }
    }

    /// The values that the cell at (`row`, `column`) may take: the numbers
    /// from 1 to 9 that occur neither in its row, nor in its column, nor in
    /// its block. `BadCoordinates` for an index of 9 or more.
    pub fn get_possible(&self, row: usize, column: usize) -> (res: Result<HashSet<u8>, SudokuError>)
        ensures
            self.possible_outcome(row, column, res),
            res matches Ok(possible) ==> {
                &&& possible@.subset_of(all_values())
                &&& possible@.finite()
                &&& possible@.len() <= 9
                &&& forall|i: int|
                    0 <= i < 9 ==> !possible@.contains(#[trigger] row_of(self.sudoku@, row as int)[i])
                &&& forall|i: int|
                    0 <= i < 9 ==> !possible@.contains(
                        #[trigger] column_of(self.sudoku@, column as int)[i],
                    )
                &&& forall|i: int|
                    0 <= i < 9 ==> !possible@.contains(
                        #[trigger] block_of(self.sudoku@, row as int / 3, column as int / 3)[i],
                    )
            },
    {
        if row >= 9 || column >= 9 {
            return Err(SudokuError::BadCoordinates(row, column));
        }
        let mut retval = all_possible();
        let row_values = self.sudoku.get_row(row)?;
        let column_values = self.sudoku.get_column(column)?;
        let block_values = self.sudoku.get_block(row / 3, column / 3)?;
        for i in 0..9usize
            invariant
                retval@ == Set::new(
                    |v: u8|
                        1 <= v <= 9 && forall|j: int|
                            0 <= j < i ==> row_values[j] != v && column_values[j] != v
                                && block_values[j] != v,
                ),
        {
            retval.remove(&row_values[i]);
            retval.remove(&column_values[i]);
            retval.remove(&block_values[i]);
            assert(retval@ =~= Set::new(
                |v: u8|
                    1 <= v <= 9 && forall|j: int|
                        0 <= j < i + 1 ==> row_values[j] != v && column_values[j] != v
                            && block_values[j] != v,
            ));
        }
        proof {
            assert(retval@ =~= candidates(self.sudoku@, row as int, column as int));
            lemma_all_values();
            vstd::set_lib::lemma_len_subset(retval@, all_values());
        }
        Ok(retval)
    }

    /// The values that the cell at (`row`, `column`) may take, in rising order.
    pub(crate) fn possible_list(&self, row: usize, column: usize) -> (res: Result<Vec<u8>, SolverError>)
        ensures
            row < 9 && column < 9 ==> (res matches Ok(values) && values.len() <= 9 && lists(
                values@,
                candidates(self.sudoku@, row as int, column as int),
            )),
            row >= 9 || column >= 9 ==> (res matches Err(e) && e == SolverError::SudokuError(
                SudokuError::BadCoordinates(row, column),
            )),
    {
        match self.get_possible(row, column) {
            Ok(possible) => {
                assert(possible@.intersect(all_values()) =~= possible@);
                Ok(sorted_values(&possible))
            },
            Err(e) => Err(SolverError::from(e)),
        }
    }

    /// Writes `value` into the cell `at` of the live grid.
    pub(crate) fn write(&mut self, at: Coordinates, value: u8) -> (res: Result<(), SolverError>)
        requires
            old(self).sudoku.wf(),
        ensures
            final(self).sudoku.wf(),
            old(self).write_outcome(at, value, res, *final(self)),
    {
        proof {
            if at.row < 9 && at.column < 9 {
                lemma_wf_count_fits(self.sudoku, at.row, at.column, value);
            }
        }
        match self.sudoku.set(at.row, at.column, value) {
            Ok(()) => Ok(()),
            Err(e) => Err(SolverError::from(e)),
        }
    }

    /// Takes note of the empty cell at (`row`, `column`), whose possible
    /// values are `possibilities`: it is remembered in `scan` if it has no
    /// more of them than the cell remembered so far, and if it has exactly
    /// one, it receives that value at once.
    pub fn consider(
        &mut self,
        scan: &mut Scan,
        row: usize,
        column: usize,
        possibilities: &Vec<u8>,
    ) -> (res: Result<(), SolverError>)
        requires
            old(self).sudoku.wf(),
        ensures
            final(self).sudoku.wf(),
            final(scan)@ == considered(old(scan)@, Coordinates { row, column }, possibilities@),
            possibilities.len() == 1 ==> old(self).write_outcome(
                Coordinates { row, column },
                possibilities[0],
                res,
                *final(self),
            ),
            possibilities.len() != 1 ==> res is Ok && *final(self) == *old(self),
    {
        if possibilities.len() <= scan.lowest_possibilities.len() {
            scan.certain = false;
            scan.lowest_possibilities = possibilities.clone();
            scan.lowest_possible_coords.row = row;
            scan.lowest_possible_coords.column = column;
            assert(scan.lowest_possibilities@ =~= possibilities@);
        }
        if possibilities.len() == 1 {
            scan.changed = true;
            self.write(Coordinates { row, column }, possibilities[0])?;
        }
        Ok(())
    }

    /// The guess that ends a scan in which no cell received a value: the
    /// remembered cell receives the one of its possible values that the draw
    /// `pick` names.
    pub fn guess(&mut self, scan: &Scan, pick: usize) -> (res: Result<(), SolverError>)
        requires
            old(self).sudoku.wf(),
            pick < scan.lowest_possibilities.len(),
        ensures
            final(self).sudoku.wf(),
            old(self).write_outcome(
                scan.lowest_possible_coords,
                scan.lowest_possibilities[pick as int],
                res,
                *final(self),
            ),
    {
        let lowest = scan.lowest_possibilities[pick];
        self.write(scan.lowest_possible_coords, lowest)
    }

    /// One step of the solver. Every empty cell is visited in row-major
    /// order: a cell that has no possible value is repaired, a cell that has
    /// exactly one receives it at once, and the cell with the fewest possible
    /// values is remembered, the last one among equals. If no cell received a
    /// value during the scan, the remembered cell receives one of its values,
    /// drawn at random.
    ///
    /// The snapshot is retaken only after a scan that filled a cell and
    /// visited none; no scan does both, so a step leaves the snapshot as it is.
    /// On a full grid no cell is visited and the first cell is overwritten with
    /// a number drawn from 1 to 9.
    ///
    /// `NoPossibilities` means that the repair of a dead end was given up. The
    /// snapshot must have no sealed cell (`has_sealed_cell` tells): at such a
    /// cell there would be no neighbor to draw.
    pub fn step(&mut self) -> (res: Result<(), SolverError>)
        requires
            old(self).wf(),
            unsealed(old(self).last_secure_state@),
        ensures
            final(self).sudoku.wf(),
            final(self).last_secure_state == old(self).last_secure_state,
            final(self).last_secure_state_set == old(self).last_secure_state_set,
            within_range(old(self).sudoku@) ==> within_range(final(self).sudoku@),
            old(self).sudoku.set_count < 81 ==> final(self).wf(),
            old(self).sudoku.set_count < 81 && legal(old(self).sudoku@) ==> legal(
                final(self).sudoku@,
            ),
            old(self).sudoku.set_count == 81 ==> res is Ok && 1 <= final(self).sudoku@[0] <= 9
                && final(self).sudoku@ == old(self).sudoku@.update(0, final(self).sudoku@[0]),
            res is Ok ==> stepped(
                old(self).last_secure_state@,
                old(self).sudoku@,
                final(self).sudoku@,
            ),
            res matches Err(e) ==> e == SolverError::NoPossibilities && final(self).sudoku.set_count
                < 81,
            res is Err ==> gave_up(
                old(self).last_secure_state@,
                old(self).sudoku@,
                final(self).sudoku@,
                MAX_REPAIRS as nat,
            ),
    {
        let mut scan = Scan::new();
        let ghost start = self.sudoku@;
        let ghost givens = self.last_secure_state@;
        let ghost mut grids: Seq<Seq<u8>> = seq![start];
        let ghost mut scans: Seq<ScanView> = seq![scan@];

        for row in 0..9usize
            invariant
                self.sudoku.wf(),
                self.last_secure_state == old(self).last_secure_state,
                self.last_secure_state_set == old(self).last_secure_state_set,
                start == old(self).sudoku@,
                old(self).sudoku.wf(),
                givens == self.last_secure_state@,
                unsealed(givens),
                scanning(start, givens, self.sudoku@, row * 9, scan@),
                scan_record(givens, start, grids, scans, row * 9),
                grids[row * 9] == self.sudoku@,
                scans[row * 9] == scan@,
        {
            for column in 0..9usize
                invariant
                    row < 9,
                    self.sudoku.wf(),
                    self.last_secure_state == old(self).last_secure_state,
                    self.last_secure_state_set == old(self).last_secure_state_set,
                    start == old(self).sudoku@,
                    old(self).sudoku.wf(),
                    givens == self.last_secure_state@,
                    unsealed(givens),
                    scanning(start, givens, self.sudoku@, row * 9 + column, scan@),
                    scan_record(givens, start, grids, scans, row * 9 + column),
                    grids[row * 9 + column] == self.sudoku@,
                    scans[row * 9 + column] == scan@,
            {
                let ghost position = cell_index(row as int, column as int);
                let ghost cells_before = self.sudoku@;
                let ghost scan_before = scan@;
                assert(coords_at(position) == (Coordinates { row, column }));
                let is_set = match self.sudoku.is_set(row, column) {
                    Ok(is_set) => is_set,
                    Err(e) => {
                        return Err(SolverError::from(e));
                    },
                };
                if !is_set {
                    let ghost before = self.sudoku@;
                    proof {
                        lemma_count_set_complete(start);
                        lemma_count_set_bound(start);
                        assert(scan.certain ==> start[position] == 0);
                        assert(!complete(start));
                        assert(old(self).sudoku.set_count < 81);
                    }
                    let mut possibilities = self.possible_list(row, column)?;

                    if possibilities.len() == 0 {
                        scan.certain = false;
                        let repaired = self.repair(row, column, possibilities);
                        proof {
                            let after = self.sudoku@;
                            assert(only_cleared(before, after));
                            assert(after[position] == 0);
                            lemma_count_set_complete(after);
                            lemma_count_set_bound(after);
                            if legal(start) {
                                lemma_only_cleared_legal(before, after);
                            }
                            if !scan.changed && guessable(
                                before,
                                scan.lowest_possibilities@,
                                scan.lowest_possible_coords,
                            ) {
                                lemma_only_cleared_candidates(
                                    before,
                                    after,
                                    scan.lowest_possible_coords.row as int,
                                    scan.lowest_possible_coords.column as int,
                                );
                            }
                            if repaired is Err {
                                assert(scan_record(givens, start, grids, scans, position));
                                assert(grids[position][position] == 0);
                            }
                        }
                        possibilities = repaired?;
                    } else {
                        proof {
                            assert(possibilities@.contains(possibilities@[0]));
                            assert(repairs(givens, coords_at(position), before, before, 0));
                        }
                    }
                    proof {
                        assert forall|k: int| 0 <= k < possibilities@.len() implies candidates(
                            self.sudoku@,
                            row as int,
                            column as int,
                        ).contains(#[trigger] possibilities@[k]) by {
                            assert(possibilities@.contains(possibilities@[k]));
                        }
                        if legal(start) && possibilities.len() == 1 {
                            lemma_write_keeps_legal(
                                self.sudoku@,
                                row as int,
                                column as int,
                                possibilities[0],
                            );
                        }
                    }
                    let ghost repaired = self.sudoku@;
                    self.consider(&mut scan, row, column, &possibilities)?;
                    assert(visit_through(
                        givens,
                        position,
                        cells_before,
                        scan_before,
                        repaired,
                        possibilities@,
                        self.sudoku@,
                        scan@,
                    ));
                }
                proof {
                    assert(visit(givens, position, cells_before, scan_before, self.sudoku@, scan@));
                    let ghost grids_before = grids;
                    let ghost scans_before = scans;
                    grids = grids.push(self.sudoku@);
                    scans = scans.push(scan@);
                    assert forall|p: int| 0 <= p < position + 1 implies #[trigger] visit_at(
                        givens,
                        grids,
                        scans,
                        p,
                    ) by {
                        if p < position {
                            assert(visit_at(givens, grids_before, scans_before, p));
                        }
                    }
                }
            }
        }

        if !scan.changed {
            let pick = random_below(scan.lowest_possibilities.len());
            proof {
                if scan.certain {
                    lemma_count_set_complete(start);
                } else if legal(start) {
                    lemma_write_keeps_legal(
                        self.sudoku@,
                        scan.lowest_possible_coords.row as int,
                        scan.lowest_possible_coords.column as int,
                        scan.lowest_possibilities[pick as int],
                    );
                }
            }
            self.guess(&scan, pick)?;
        } else if !self.last_secure_state_set && scan.certain {
            self.set_last_secure_state();
        }
        proof {
            lemma_count_set_complete(start);
            assert(concluded(grids[81], scans[81], self.sudoku@));
            assert(scan_record(givens, start, grids, scans, 81));
        }
        Ok(())
    }

    /// Takes steps until every cell is filled, `MAX_STEPS` at most. The
    /// numbers of the snapshot stay where they are.
    ///
    /// `Ok` means that the grid is full; if it was legal before, it is legal
    /// now. A full grid is left as it is. `NoPossibilities` means that the
    /// solver gave up; the grid then holds what the last step left. As for a
    /// step, the snapshot must have no sealed cell.
    pub fn solve(&mut self) -> (res: Result<(), SolverError>)
        requires
            old(self).wf(),
            unsealed(old(self).last_secure_state@),
        ensures
            final(self).wf(),
            final(self).last_secure_state == old(self).last_secure_state,
            final(self).last_secure_state_set == old(self).last_secure_state_set,
            legal(old(self).sudoku@) ==> legal(final(self).sudoku@),
            within_range(old(self).sudoku@) ==> within_range(final(self).sudoku@),
            res is Ok ==> final(self).sudoku.set_count == 81 && complete(final(self).sudoku@),
            res is Ok && legal(old(self).sudoku@) && within_range(old(self).sudoku@) ==> solved(
                final(self).sudoku@,
            ),
            res is Ok ==> exists|steps: nat|
                steps <= MAX_STEPS && #[trigger] reaches(
                    old(self).last_secure_state@,
                    old(self).sudoku@,
                    final(self).sudoku@,
                    steps,
                ),
            old(self).sudoku.set_count == 81 ==> res is Ok && final(self).sudoku == old(
                self,
            ).sudoku,
            res matches Err(e) ==> e == SolverError::NoPossibilities && final(self).sudoku.set_count
                < 81,
            res is Err ==> abandoned(
                old(self).last_secure_state@,
                old(self).sudoku@,
                final(self).sudoku@,
                MAX_STEPS as nat,
                MAX_REPAIRS as nat,
            ),
    {
        let mut steps: usize = 0;
        while self.sudoku.set_count < 9 * 9
            invariant
                steps <= MAX_STEPS,
                self.wf(),
                unsealed(self.last_secure_state@),
                self.last_secure_state == old(self).last_secure_state,
                self.last_secure_state_set == old(self).last_secure_state_set,
                legal(old(self).sudoku@) ==> legal(self.sudoku@),
                within_range(old(self).sudoku@) ==> within_range(self.sudoku@),
                steps == 0 ==> self.sudoku == old(self).sudoku,
                steps > 0 ==> old(self).sudoku.set_count < 81,
                reaches(
                    old(self).last_secure_state@,
                    old(self).sudoku@,
                    self.sudoku@,
                    steps as nat,
                ),
            decreases MAX_STEPS - steps,
        {
            if steps >= MAX_STEPS {
                return Err(SolverError::NoPossibilities);
            }
            let ghost last = self.sudoku@;
            let outcome = self.step();
            proof {
                if outcome is Err {
                    assert(reaches(
                        old(self).last_secure_state@,
                        old(self).sudoku@,
                        last,
                        steps as nat,
                    ));
                }
            }
            outcome?;
            steps += 1;
        }
        proof {
            lemma_count_set_complete(self.sudoku@);
            lemma_count_set_bound(self.sudoku@);
        }
        Ok(())
    }

    /// The puzzle made from the grid `solution` and one roll for each cell: a
    /// cell whose roll is below `difficulty` is emptied, the others stay.
    pub fn puzzle_from(solution: Grid, rolls: &[usize; 81], difficulty: u8) -> (puzzle: Sudoku)
        ensures
            puzzle@ == blanked(solution@, rolls@, difficulty),
            puzzle.wf(),
    {
        let mut squares = solution;
        for i in 0..81usize
            invariant
                forall|j: int|
                    0 <= j < i ==> squares[j] == (if rolls[j] < difficulty {
                        0u8
                    } else {
                        solution[j]
                    }),
                forall|j: int| i <= j < 81 ==> squares[j] == solution[j],
        {
            if rolls[i] < difficulty as usize {
                squares[i] = 0;
            }
        }
        assert(squares@ =~= blanked(solution@, rolls@, difficulty));
        Sudoku::new_from_state(squares)
    }

    /// Makes a new puzzle: an empty grid is solved, which gives a full legal
    /// grid, and then each cell is emptied with a chance of `difficulty` in a
    /// hundred, by one roll below 100 for each cell.
    ///
    /// The puzzle is part of a solved grid. With a difficulty of 0 it is that
    /// grid, with one of 100 or more it is empty.
    pub fn generate(difficulty: u8) -> (res: Result<Sudoku, SolverError>)
        ensures
            res matches Ok(puzzle) ==> puzzle.wf(),
            res matches Ok(puzzle) ==> is_puzzle(puzzle@, difficulty),
            res matches Ok(puzzle) ==> part_of_solved(puzzle@),
            res matches Ok(puzzle) ==> unsealed(puzzle@),
            res matches Ok(puzzle) ==> (difficulty == 0 ==> solved(puzzle@) && puzzle.set_count
                == 81),
            res matches Ok(puzzle) ==> (difficulty >= 100 ==> puzzle@ == empty_grid()
                && puzzle.set_count == 0),
            res matches Err(e) ==> e == SolverError::NoPossibilities,
    {
        let sudoku = Sudoku::new_empty();
        let mut solver = Solver::new(sudoku);
        proof {
            lemma_empty_grid_unsealed(solver.last_secure_state@);
            assert(legal(solver.sudoku@));
            assert(solver.sudoku@ =~= empty_grid());
            assert(solver.last_secure_state@ =~= empty_grid());
        }
        solver.solve()?;
        assert(exists|steps: nat| #[trigger]
            reaches(empty_grid(), empty_grid(), solver.sudoku@, steps));
        let mut rolls = [0usize; 81];
        for i in 0..81usize
            invariant
                forall|j: int| 0 <= j < i ==> rolls[j] < 100,
                solved(solver.sudoku@),
                exists|steps: nat| #[trigger]
                    reaches(empty_grid(), empty_grid(), solver.sudoku@, steps),
        {
            rolls[i] = random_below(100);
        }
        let puzzle = Solver::puzzle_from(solver.sudoku.squares, &rolls, difficulty);
        proof {
            let solution = solver.sudoku@;
            assert(generated(solution, rolls@, difficulty, puzzle@));
            lemma_generated(solution, rolls@, difficulty, puzzle@);
            assert(solved(solution) && extends(solution, puzzle@));
            lemma_count_set_complete(puzzle@);
            if difficulty >= 100 {
                lemma_count_set_zeros(puzzle@, 81);
                assert(puzzle@.take(81) == puzzle@);
            }
        }
        Ok(puzzle)
    }

    /// Takes the live grid as the new snapshot.
    pub fn set_last_secure_state(&mut self)
        ensures
            final(self).sudoku == old(self).sudoku,
            final(self).last_secure_state@ == old(self).sudoku@,
            final(self).last_secure_state_set,
    {
        self.last_secure_state = self.sudoku.squares;
        self.last_secure_state_set = true;
    }
}

/// Asking twice for the possible values of a cell, with the grid unchanged
/// in between, gives the same set both times (or the same refusal).
pub proof fn lemma_get_possible_idempotent(
    solver: Solver,
    row: usize,
    column: usize,
    first: Result<HashSet<u8>, SudokuError>,
    second: Result<HashSet<u8>, SudokuError>,
)
    requires
        solver.possible_outcome(row, column, first),
        solver.possible_outcome(row, column, second),
    ensures
        first is Ok <==> second is Ok,
        first matches Ok(a) ==> second matches Ok(b) && a@ == b@,
        first matches Err(a) ==> second matches Err(b) && a == b,
{
}

} // verus!
