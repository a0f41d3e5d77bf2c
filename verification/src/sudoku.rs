//! The grid itself: 81 cells in row-major order, projections by row, column
//! and block, bounds-checked writes and an incrementally kept count of the
//! cells that hold a value.

use vstd::prelude::*;

verus! {

/// The 81 cells of a grid, row after row; 0 stands for an empty cell.
pub type Grid = [u8; 81];

/// The nine values of one row, left to right.
pub type Row = [u8; 9];

/// The nine values of one column, top to bottom.
pub type Column = [u8; 9];

/// The nine values of one 3×3 block, row-major within the block.
pub type Block = [u8; 9];

/// Position of the cell at (`row`, `column`) in the row-major sequence.
pub open spec fn cell_index(row: int, column: int) -> int {
    row * 9 + column
}

/// The grid without any number.
pub open spec fn empty_grid() -> Seq<u8> {
    Seq::new(81, |i: int| 0u8)
}

/// Number of non-empty cells in `cells`.
pub open spec fn count_set(cells: Seq<u8>) -> nat
    decreases cells.len(),
{
    if cells.len() == 0 {
        0
    } else {
        count_set(cells.drop_last()) + if cells.last() != 0 {
            1nat
        } else {
            0nat
        }
    }
}

/// The values of row `row`, left to right.
pub open spec fn row_of(cells: Seq<u8>, row: int) -> Seq<u8> {
    Seq::new(9, |i: int| cells[cell_index(row, i)])
}

/// The values of column `column`, top to bottom.
pub open spec fn column_of(cells: Seq<u8>, column: int) -> Seq<u8> {
    Seq::new(9, |i: int| cells[cell_index(i, column)])
}

/// The values of the block at block coordinates (`block_row`, `block_column`),
/// sub-row after sub-row.
pub open spec fn block_of(cells: Seq<u8>, block_row: int, block_column: int) -> Seq<u8> {
    Seq::new(9, |i: int| cells[cell_index(block_row * 3 + i / 3, block_column * 3 + i % 3)])
}

/// A grid and the number of its cells that hold a value.
#[derive(Debug)]
pub struct Sudoku {
    /// The cells, each empty (0) or holding a number.
    pub squares: Grid,
    /// How many cells are not empty.
    pub set_count: u8,
}

/// A (row, column) pair naming one cell.
#[derive(Debug, PartialEq, Eq, Structural, Hash, Clone, Copy)]
pub struct Coordinates {
    /// Row of the cell, counted from 0 at the top.
    pub row: usize,
    /// Column of the cell, counted from 0 at the left.
    pub column: usize,
}

/// Why a grid operation was refused.
#[derive(Debug, PartialEq, Eq, Structural)]
pub enum SudokuError {
    /// Row index of 9 or more.
    BadRow(usize),
    /// Column index of 9 or more.
    BadColumn(usize),
    /// A row or column index of 9 or more (for a block: 3 or more).
    BadCoordinates(usize, usize),
    /// A value above 9.
    BadValue(u8),
}

impl From<(usize, usize)> for Coordinates {
    /// The cell at row `pair.0` and column `pair.1`.
    fn from(pair: (usize, usize)) -> (coords: Coordinates) {
        Coordinates { row: pair.0, column: pair.1 }
    }
}

impl vstd::std_specs::convert::FromSpecImpl<(usize, usize)> for Coordinates {
    open spec fn obeys_from_spec() -> bool {
        true
    }

    open spec fn from_spec(pair: (usize, usize)) -> Coordinates {
        Coordinates { row: pair.0, column: pair.1 }
    }
}

impl View for Sudoku {
    type V = Seq<u8>;

    open spec fn view(&self) -> Seq<u8> {
        self.squares@
    }
}

impl Sudoku {
    /// The count agrees with the cells.
    pub open spec fn wf(&self) -> bool {
        self.set_count == count_set(self@)
    }

    /// `after` is this grid with `value` written into the cell at (`row`,
    /// `column`), and with the count adjusted by what the write changes.
    pub open spec fn written(&self, row: usize, column: usize, value: u8, after: Sudoku) -> bool {
        &&& after@ == self@.update(cell_index(row as int, column as int), value)
        &&& after.set_count == self.set_count + count_change(
            self@[cell_index(row as int, column as int)],
            value,
        )
    }

    /// The count that a write of `value` into the cell at (`row`, `column`)
    /// leaves can be held: it is neither below 0 nor above 255.
    pub open spec fn count_fits(&self, row: usize, column: usize, value: u8) -> bool {
        0 <= self.set_count + count_change(
            self@[cell_index(row as int, column as int)],
            value,
        ) <= u8::MAX
    }

    /// What writing `value` into the cell at (`row`, `column`) of this grid
    /// gives: the refusal and the grid as it was, or the grid `after` the
    /// write.
    pub open spec fn set_outcome(
        &self,
        row: usize,
        column: usize,
        value: u8,
        res: Result<(), SudokuError>,
        after: Sudoku,
    ) -> bool {
        match refusal(row, column, value) {
            Some(e) => res == Err::<(), SudokuError>(e) && after == *self,
            None => res is Ok && self.written(row, column, value, after),
        }
    }

    /// Produces a grid from the 81 given values, counting the non-empty ones.
    /// The values are taken as they are: one above 9 is kept.
    pub fn new_from_state(state: Grid) -> (s: Sudoku)
        ensures
            s@ == state@,
            s.wf(),
    {
        let mut retval = Sudoku::new_empty();
        let mut i: usize = 0;
        while i < 81
            invariant
                i <= 81,
                retval.set_count == count_set(state@.take(i as int)),
                retval.set_count <= i,
                forall|j: int| 0 <= j < i ==> retval.squares[j] == state[j],
            decreases 81 - i,
        {
            let value = state[i];
            retval.squares[i] = value;
            proof {
                assert(state@.take(i + 1).drop_last() == state@.take(i as int));
            }
            if value != 0 {
                retval.set_count += 1;
            }
            i += 1;
        }
        proof {
            assert(state@.take(81) == state@);
            assert(retval@ =~= state@);
        }
        retval
    }

    /// Produces a grid with every cell empty.
    pub fn new_empty() -> (s: Sudoku)
        ensures
            s@ == empty_grid(),
            s.set_count == 0,
            s.wf(),
    {
        let s = Sudoku { squares: [0u8; 81], set_count: 0 };
        proof {
            lemma_count_set_zeros(s@, 81);
            assert(s@.take(81) == s@);
        }
        s
    }

    /// Returns the nine values of row `row`, or `BadRow` for an index of 9 or more.
    pub fn get_row(&self, row: usize) -> (res: Result<Row, SudokuError>)
        ensures
            row < 9 ==> (res matches Ok(values) && values@ == row_of(self@, row as int)),
            row >= 9 ==> res == Err::<Row, SudokuError>(SudokuError::BadRow(row)),
    {
        if row >= 9 {
            return Err(SudokuError::BadRow(row));
        }
        let mut retval = [0u8; 9];
        for i in 0..9usize
            invariant
                row < 9,
                forall|j: int| 0 <= j < i ==> retval[j] == self@[cell_index(row as int, j)],
        {
            retval[i] = self.squares[row * 9 + i];
        }
        proof {
            assert(retval@ =~= row_of(self@, row as int));
        }
        Ok(retval)
    }

    /// Returns the nine values of column `column`, or `BadColumn` for an index
    /// of 9 or more.
    pub fn get_column(&self, column: usize) -> (res: Result<Column, SudokuError>)
        ensures
            column < 9 ==> (res matches Ok(values) && values@ == column_of(
                self@,
                column as int,
            )),
            column >= 9 ==> res == Err::<Column, SudokuError>(SudokuError::BadColumn(column)),
    {
        if column >= 9 {
            return Err(SudokuError::BadColumn(column));
        }
        let mut retval = [0u8; 9];
        for i in 0..9usize
            invariant
                column < 9,
                forall|j: int| 0 <= j < i ==> retval[j] == self@[cell_index(j, column as int)],
        {
            retval[i] = self.squares[i * 9 + column];
        }
        proof {
            assert(retval@ =~= column_of(self@, column as int));
        }
        Ok(retval)
    }

    /// Returns the nine values of the block at block coordinates
    /// (`block_row`, `block_column`), or `BadCoordinates` if either is 3 or more.
    pub fn get_block(&self, block_row: usize, block_column: usize) -> (res: Result<
        Block,
        SudokuError,
    >)
        ensures
            block_row < 3 && block_column < 3 ==> (res matches Ok(values) && values@ == block_of(
                self@,
                block_row as int,
                block_column as int,
            )),
            block_row >= 3 || block_column >= 3 ==> res == Err::<Block, SudokuError>(
                SudokuError::BadCoordinates(block_row, block_column),
            ),
    {
        if block_row >= 3 || block_column >= 3 {
            return Err(SudokuError::BadCoordinates(block_row, block_column));
        }
        let mut retval = [0u8; 9];
        for i in 0..9usize
            invariant
                block_row < 3,
                block_column < 3,
                forall|j: int|
                    0 <= j < i ==> retval[j] == self@[cell_index(
                        block_row * 3 + j / 3,
                        block_column * 3 + j % 3,
                    )],
        {
            retval[i] = self.squares[(block_row * 3 + i / 3) * 9 + (block_column * 3 + i % 3)];
        }
        proof {
            assert(retval@ =~= block_of(self@, block_row as int, block_column as int));
        }
        Ok(retval)
    }

    /// Writes `value` into the cell at (`row`, `column`) and keeps the count:
    /// one more when an empty cell receives a value, one less when a filled
    /// cell is emptied, unchanged otherwise. An index of 9 or more gives
    /// `BadCoordinates`, a value above 9 gives `BadValue`; the grid is then
    /// left as it was.
    ///
    /// The new count must fit; with a count that agrees with the cells it
    /// does, and the new count agrees with them too.
    pub fn set(&mut self, row: usize, column: usize, value: u8) -> (res: Result<(), SudokuError>)
        requires
            refusal(row, column, value) is None ==> old(self).count_fits(row, column, value),
        ensures
            old(self).set_outcome(row, column, value, res, *final(self)),
            old(self).wf() ==> final(self).wf(),
    {
        if row >= 9 || column >= 9 {
            return Err(SudokuError::BadCoordinates(row, column));
        }
        if value > 9 {
            return Err(SudokuError::BadValue(value));
        }
        proof {
            lemma_count_set_update(self@, cell_index(row as int, column as int), value);
        }
        if self.squares[row * 9 + column] == 0 {
            if value != 0 {
                self.set_count += 1;
            }
        } else {
            if value == 0 {
                self.set_count -= 1;
            }
        }
        self.squares[row * 9 + column] = value;
        Ok(())
    }

    /// Tells whether the cell at (`row`, `column`) holds a value;
    /// `BadCoordinates` for an index of 9 or more.
    pub fn is_set(&self, row: usize, column: usize) -> (res: Result<bool, SudokuError>)
        ensures
            row < 9 && column < 9 ==> res == Ok::<bool, SudokuError>(
                self@[cell_index(row as int, column as int)] != 0,
            ),
            row >= 9 || column >= 9 ==> res == Err::<bool, SudokuError>(
                SudokuError::BadCoordinates(row, column),
            ),
    {
        if row >= 9 || column >= 9 {
            return Err(SudokuError::BadCoordinates(row, column));
        }
        Ok(self.squares[row * 9 + column] != 0)
    }
}

/// Why a write of `value` into the cell at (`row`, `column`) is refused, if it
/// is: the coordinates are looked at first, then the value.
pub open spec fn refusal(row: usize, column: usize, value: u8) -> Option<SudokuError> {
    if row >= 9 || column >= 9 {
        Some(SudokuError::BadCoordinates(row, column))
    } else if value > 9 {
        Some(SudokuError::BadValue(value))
    } else {
        None
    }
}

/// What a write does to the count of non-empty cells: the cell held `before`
/// and holds `after`.
pub open spec fn count_change(before: u8, after: u8) -> int {
    if before == 0 && after != 0 {
        1
    } else if before != 0 && after == 0 {
        -1
    } else {
        0
    }
}

/// A prefix of empty cells counts nothing.
pub proof fn lemma_count_set_zeros(cells: Seq<u8>, n: int)
    requires
        0 <= n <= cells.len(),
        forall|i: int| 0 <= i < n ==> cells[i] == 0,
    ensures
        count_set(cells.take(n)) == 0,
    decreases n,
{
    if n > 0 {
        lemma_count_set_zeros(cells, n - 1);
        assert(cells.take(n).drop_last() == cells.take(n - 1));
    }
}

/// No more cells are counted than there are.
pub proof fn lemma_count_set_bound(cells: Seq<u8>)
    ensures
        count_set(cells) <= cells.len(),
    decreases cells.len(),
{
    if cells.len() > 0 {
        lemma_count_set_bound(cells.drop_last());
    }
}

/// Writing one cell changes the count by what that cell contributes.
pub proof fn lemma_count_set_update(cells: Seq<u8>, index: int, value: u8)
    requires
        0 <= index < cells.len(),
    ensures
        count_set(cells.update(index, value)) == count_set(cells) + count_change(
            cells[index],
            value,
        ),
    decreases cells.len(),
{
    let written = cells.update(index, value);
    if index == cells.len() - 1 {
        assert(written.drop_last() == cells.drop_last());
    } else {
        lemma_count_set_update(cells.drop_last(), index, value);
        assert(written.drop_last() == cells.drop_last().update(index, value));
    }
}

/// With a count that agrees with the cells, the count that any write to a
/// cell of the grid leaves can be held.
pub proof fn lemma_wf_count_fits(sudoku: Sudoku, row: usize, column: usize, value: u8)
    requires
        sudoku.wf(),
        row < 9,
        column < 9,
    ensures
        sudoku.count_fits(row, column, value),
{
    let index = cell_index(row as int, column as int);
    lemma_count_set_update(sudoku@, index, value);
    lemma_count_set_bound(sudoku@.update(index, value));
}

/// Filling an empty cell with a number from 1 to 9 succeeds, makes the cell
/// set and raises the count by exactly one; emptying the same cell afterwards
/// succeeds too and brings the count back to what it was.
pub proof fn lemma_fill_then_empty(
    before: Sudoku,
    row: usize,
    column: usize,
    value: u8,
    first: Result<(), SudokuError>,
    filled: Sudoku,
    second: Result<(), SudokuError>,
    emptied: Sudoku,
)
    requires
        row < 9,
        column < 9,
        1 <= value <= 9,
        before@[cell_index(row as int, column as int)] == 0,
        before.set_outcome(row, column, value, first, filled),
        filled.set_outcome(row, column, 0, second, emptied),
    ensures
        first is Ok,
        filled@[cell_index(row as int, column as int)] != 0,
        filled.set_count == before.set_count + 1,
        second is Ok,
        emptied@[cell_index(row as int, column as int)] == 0,
        emptied.set_count == before.set_count,
{
}

} // verus!
