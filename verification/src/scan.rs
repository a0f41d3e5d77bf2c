//! One scan of the grid, as the solver's step makes it: what is remembered
//! from cell to cell, and what a visit of one cell may do to the grid.

use crate::rules::candidates;
use crate::repair::eligible;
use crate::solver::{lists, nine_values};
use crate::sudoku::{cell_index, count_set, Coordinates};
use vstd::prelude::*;

verus! {

/// What one scan of the grid has found so far.
#[derive(Debug)]
pub struct Scan {
    /// Whether a cell has received its only possible value.
    pub changed: bool,
    /// True until a cell needs a repair or is remembered.
    pub certain: bool,
    /// The possible values of the remembered cell, in rising order; all nine
    /// numbers as long as no cell is remembered.
    pub lowest_possibilities: Vec<u8>,
    /// The remembered cell: the last one met that had no more possible values
    /// than the one remembered before it.
    pub lowest_possible_coords: Coordinates,
}

/// A scan as a value: the fields of `Scan`, the list as a sequence.
pub struct ScanView {
    pub changed: bool,
    pub certain: bool,
    pub lowest_possibilities: Seq<u8>,
    pub lowest_possible_coords: Coordinates,
}

impl View for Scan {
    type V = ScanView;

    open spec fn view(&self) -> ScanView {
        ScanView {
            changed: self.changed,
            certain: self.certain,
            lowest_possibilities: self.lowest_possibilities@,
            lowest_possible_coords: self.lowest_possible_coords,
        }
    }
}

/// The scan that has met no cell yet: nothing changed, all is certain, and
/// the nine numbers stand for the first cell.
pub open spec fn fresh_scan() -> ScanView {
    ScanView {
        changed: false,
        certain: true,
        lowest_possibilities: nine_values(),
        lowest_possible_coords: Coordinates { row: 0, column: 0 },
    }
}

/// The scan after it has met a cell that needs a repair.
pub open spec fn doubted(scan: ScanView) -> ScanView {
    ScanView { certain: false, ..scan }
}

/// The scan after the cell `at` with the possible values `possibilities` has
/// been considered: the cell is remembered if it has no more values than the
/// cell remembered so far, and with exactly one value the scan has changed the
/// grid.
pub open spec fn considered(scan: ScanView, at: Coordinates, possibilities: Seq<u8>) -> ScanView {
    let changed = scan.changed || possibilities.len() == 1;
    if possibilities.len() <= scan.lowest_possibilities.len() {
        ScanView {
            changed,
            certain: false,
            lowest_possibilities: possibilities,
            lowest_possible_coords: at,
        }
    } else {
        ScanView { changed, ..scan }
    }
}

/// The cell at `position` of the row-major sequence.
pub open spec fn coords_at(position: int) -> Coordinates {
    Coordinates { row: (position / 9) as usize, column: (position % 9) as usize }
}

/// `after` is `before` with some cells emptied, all of them among `free`, and
/// nothing else changed.
pub open spec fn cleared_among(before: Seq<u8>, after: Seq<u8>, free: Set<Coordinates>) -> bool {
    &&& after.len() == before.len()
    &&& forall|i: int|
        0 <= i < before.len() ==> after[i] == before[i] || (after[i] == 0 && free.contains(
            coords_at(i),
        ))
}

/// The cell `at` has no possible value in `cells`.
pub open spec fn stuck(cells: Seq<u8>, at: Coordinates) -> bool {
    forall|v: u8| !candidates(cells, at.row as int, at.column as int).contains(v)
}

/// One repair of the cell `at` leads from the grid `before` to the grid
/// `after`: the cell is stuck, and the neighbor `reset`, which the snapshot
/// `givens` leaves free, is emptied.
pub open spec fn one_repair(
    givens: Seq<u8>,
    at: Coordinates,
    before: Seq<u8>,
    reset: Coordinates,
    after: Seq<u8>,
) -> bool {
    &&& stuck(before, at)
    &&& eligible(givens, at).contains(reset)
    &&& after == before.update(cell_index(reset.row as int, reset.column as int), 0)
}

/// `count` repairs of the cell `at`, one after the other, lead from the grid
/// `before` to the grid `after`.
pub open spec fn repairs(
    givens: Seq<u8>,
    at: Coordinates,
    before: Seq<u8>,
    after: Seq<u8>,
    count: nat,
) -> bool
    decreases count,
{
    if count == 0 {
        after == before
    } else {
        exists|last: Seq<u8>, reset: Coordinates|
            #![trigger one_repair(givens, at, last, reset, after)]
            repairs(givens, at, before, last, (count - 1) as nat) && one_repair(
                givens,
                at,
                last,
                reset,
                after,
            )
    }
}

/// The repair of the cell `at` leads from the grid `before` to the grid
/// `after`: repairs are made as long as the cell is stuck, and no more.
pub open spec fn repaired_to(givens: Seq<u8>, at: Coordinates, before: Seq<u8>, after: Seq<u8>) -> bool {
    &&& !stuck(after, at)
    &&& exists|count: nat| #[trigger] repairs(givens, at, before, after, count)
}

/// The visit of the empty cell at `position`, by way of the grid `repaired`
/// and the values `possibilities` that the cell may take in it. A cell that
/// is stuck is repaired: neighbors that the snapshot `givens` leaves free are
/// emptied until the cell has a possible value. The cell is then considered,
/// and receives its value if it has exactly one.
pub open spec fn visit_through(
    givens: Seq<u8>,
    position: int,
    cells: Seq<u8>,
    scan: ScanView,
    repaired: Seq<u8>,
    possibilities: Seq<u8>,
    cells_after: Seq<u8>,
    scan_after: ScanView,
) -> bool {
    let at = coords_at(position);
    &&& repaired_to(givens, at, cells, repaired)
    &&& lists(possibilities, candidates(repaired, at.row as int, at.column as int))
    &&& scan_after == considered(
        if stuck(cells, at) {
            doubted(scan)
        } else {
            scan
        },
        at,
        possibilities,
    )
    &&& cells_after == if possibilities.len() == 1 {
        repaired.update(position, possibilities[0])
    } else {
        repaired
    }
}

/// What the scan does when it comes to the cell at `position`: a filled cell
/// is passed over, an empty one is visited.
pub open spec fn visit(
    givens: Seq<u8>,
    position: int,
    cells: Seq<u8>,
    scan: ScanView,
    cells_after: Seq<u8>,
    scan_after: ScanView,
) -> bool {
    if cells[position] != 0 {
        cells_after == cells && scan_after == scan
    } else {
        exists|repaired: Seq<u8>, possibilities: Seq<u8>| #[trigger]
            visit_through(
                givens,
                position,
                cells,
                scan,
                repaired,
                possibilities,
                cells_after,
                scan_after,
            )
    }
}

/// Step `position` of a record of a scan: `grids` and `scans` hold the grid
/// and the scan before each cell, and after the last.
pub open spec fn visit_at(
    givens: Seq<u8>,
    grids: Seq<Seq<u8>>,
    scans: Seq<ScanView>,
    position: int,
) -> bool {
    visit(
        givens,
        position,
        grids[position],
        scans[position],
        grids[position + 1],
        scans[position + 1],
    )
}

/// `grids` and `scans` record a scan of the first `upto` cells in row-major
/// order that began with the grid `start` and a fresh scan.
pub open spec fn scan_record(
    givens: Seq<u8>,
    start: Seq<u8>,
    grids: Seq<Seq<u8>>,
    scans: Seq<ScanView>,
    upto: int,
) -> bool {
    &&& grids.len() == upto + 1
    &&& scans.len() == upto + 1
    &&& grids[0] == start
    &&& scans[0] == fresh_scan()
    &&& forall|p: int| 0 <= p < upto ==> #[trigger] visit_at(givens, grids, scans, p)
}

/// The end of a step, after a scan that left the grid `cells`: if the scan
/// gave no cell a value, the remembered cell receives one of its values.
pub open spec fn concluded(cells: Seq<u8>, scan: ScanView, after: Seq<u8>) -> bool {
    if scan.changed {
        after == cells
    } else {
        exists|k: int|
            0 <= k < scan.lowest_possibilities.len() && after == cells.update(
                cell_index(
                    scan.lowest_possible_coords.row as int,
                    scan.lowest_possible_coords.column as int,
                ),
                #[trigger] scan.lowest_possibilities[k],
            )
    }
}

/// One step takes the grid `before` to the grid `after`: a scan of all 81
/// cells, then its end.
pub open spec fn stepped(givens: Seq<u8>, before: Seq<u8>, after: Seq<u8>) -> bool {
    exists|grids: Seq<Seq<u8>>, scans: Seq<ScanView>|
        #![trigger scan_record(givens, before, grids, scans, 81)]
        scan_record(givens, before, grids, scans, 81) && concluded(grids[81], scans[81], after)
}

/// A step that began with the grid `before` gave up and left the grid
/// `after`: its scan came to an empty cell that was still stuck after as many
/// repairs as the solver makes of one dead end.
pub open spec fn gave_up(givens: Seq<u8>, before: Seq<u8>, after: Seq<u8>, limit: nat) -> bool {
    exists|grids: Seq<Seq<u8>>, scans: Seq<ScanView>, position: int|
        #![trigger scan_record(givens, before, grids, scans, position)]
        {
            &&& 0 <= position < 81
            &&& scan_record(givens, before, grids, scans, position)
            &&& grids[position][position] == 0
            &&& repairs(givens, coords_at(position), grids[position], after, limit)
            &&& stuck(after, coords_at(position))
        }
}

/// `steps` steps, each taken on a grid that was not full, lead from the grid
/// `before` to the grid `after`.
pub open spec fn reaches(givens: Seq<u8>, before: Seq<u8>, after: Seq<u8>, steps: nat) -> bool
    decreases steps,
{
    if steps == 0 {
        after == before
    } else {
        exists|last: Seq<u8>|
            #![trigger stepped(givens, last, after)]
            reaches(givens, before, last, (steps - 1) as nat) && count_set(last) < 81 && stepped(
                givens,
                last,
                after,
            )
    }
}

/// Solving that began with the grid `before` was given up and left the grid
/// `after`: after `max_steps` steps the grid was still not full, or a step
/// gave up.
pub open spec fn abandoned(
    givens: Seq<u8>,
    before: Seq<u8>,
    after: Seq<u8>,
    max_steps: nat,
    max_repairs: nat,
) -> bool {
    exists|last: Seq<u8>, steps: nat|
        #![trigger reaches(givens, before, last, steps)]
        {
            &&& reaches(givens, before, last, steps)
            &&& count_set(last) < 81
            &&& steps <= max_steps
            &&& (steps == max_steps && after == last) || gave_up(givens, last, after, max_repairs)
        }
}

impl Scan {
    /// A scan that has met no cell yet.
    pub fn new() -> (scan: Scan)
        ensures
            scan@ == fresh_scan(),
    {
        let lowest_possibilities: Vec<u8> = vec![1u8, 2u8, 3u8, 4u8, 5u8, 6u8, 7u8, 8u8, 9u8];
        assert(lowest_possibilities@ =~= nine_values());
        Scan {
            changed: false,
            certain: true,
            lowest_possibilities,
            lowest_possible_coords: Coordinates::from((0, 0)),
        }
    }
}

} // verus!
