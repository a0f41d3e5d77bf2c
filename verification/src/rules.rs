//! The rules of the game over the row-major sequence of cell values: when a
//! grid is legal, which values a cell may still take, and what emptying or
//! filling a cell does to both.

use crate::sudoku::{
    block_of, cell_index, column_of, count_set, lemma_count_set_bound, row_of, Coordinates,
};
use vstd::prelude::*;

verus! {

/// The cell named by `c` lies on the 9×9 grid.
pub open spec fn on_grid(c: Coordinates) -> bool {
    c.row < 9 && c.column < 9
}

/// No number occurs twice in `values`; empty entries do not count.
pub open spec fn distinct_values(values: Seq<u8>) -> bool {
    forall|i: int, j: int|
        0 <= i < values.len() && 0 <= j < values.len() && i != j && values[i] != 0 ==> values[i]
            != values[j]
}

/// In every row, every column and every block the numbers are pairwise
/// distinct.
pub open spec fn legal(cells: Seq<u8>) -> bool {
    &&& forall|k: int| 0 <= k < 9 ==> distinct_values(#[trigger] row_of(cells, k))
    &&& forall|k: int| 0 <= k < 9 ==> distinct_values(#[trigger] column_of(cells, k))
    &&& forall|br: int, bc: int|
        0 <= br < 3 && 0 <= bc < 3 ==> distinct_values(#[trigger] block_of(cells, br, bc))
}

/// Every cell is empty or holds a number from 1 to 9.
pub open spec fn within_range(cells: Seq<u8>) -> bool {
    forall|i: int| 0 <= i < cells.len() ==> cells[i] <= 9
}

/// No cell is empty.
pub open spec fn complete(cells: Seq<u8>) -> bool {
    forall|i: int| 0 <= i < cells.len() ==> cells[i] != 0
}

/// A full grid of numbers from 1 to 9 that breaks no rule.
pub open spec fn solved(cells: Seq<u8>) -> bool {
    &&& cells.len() == 81
    &&& complete(cells)
    &&& within_range(cells)
    &&& legal(cells)
}

/// The numbers from 1 to 9 that occur neither in the row, nor in the column,
/// nor in the block of the cell at (`row`, `column`).
pub open spec fn candidates(cells: Seq<u8>, row: int, column: int) -> Set<u8> {
    Set::new(
        |v: u8|
            {
                &&& 1 <= v <= 9
                &&& !row_of(cells, row).contains(v)
                &&& !column_of(cells, column).contains(v)
                &&& !block_of(cells, row / 3, column / 3).contains(v)
            },
    )
}

/// `cells` keeps every number of `givens` in its place.
pub open spec fn extends(cells: Seq<u8>, givens: Seq<u8>) -> bool {
    &&& cells.len() == givens.len()
    &&& forall|i: int| 0 <= i < givens.len() && givens[i] != 0 ==> cells[i] == givens[i]
}

/// `after` is `before` with some cells emptied and nothing else changed.
pub open spec fn only_cleared(before: Seq<u8>, after: Seq<u8>) -> bool {
    &&& after.len() == before.len()
    &&& forall|i: int| 0 <= i < before.len() ==> after[i] == before[i] || after[i] == 0
}

/// Replacing one entry by an empty one, or by a number that does not occur
/// yet, keeps the numbers distinct.
pub proof fn lemma_distinct_update(values: Seq<u8>, position: int, value: u8)
    requires
        distinct_values(values),
        0 <= position < values.len(),
        value == 0 || !values.contains(value),
    ensures
        distinct_values(values.update(position, value)),
{
    let written = values.update(position, value);
    assert forall|i: int, j: int|
        0 <= i < written.len() && 0 <= j < written.len() && i != j && written[i]
            != 0 implies written[i] != written[j] by {
        if i == position {
            assert(values[j] != value);
        } else if j == position {
            assert(values[i] != value);
        }
    }
}

/// Writing into the cell at (`row`, `column`) changes row `row` at place
/// `column`, and no other row.
pub proof fn lemma_write_rows(cells: Seq<u8>, row: int, column: int, value: u8, k: int)
    requires
        cells.len() == 81,
        0 <= row < 9,
        0 <= column < 9,
        0 <= k < 9,
    ensures
        row_of(cells.update(cell_index(row, column), value), k) == (if k == row {
            row_of(cells, k).update(column, value)
        } else {
            row_of(cells, k)
        }),
{
    let written = cells.update(cell_index(row, column), value);
    if k == row {
        assert(row_of(written, k) =~= row_of(cells, k).update(column, value));
    } else {
        assert(row_of(written, k) =~= row_of(cells, k));
    }
}

/// Writing into the cell at (`row`, `column`) changes column `column` at
/// place `row`, and no other column.
pub proof fn lemma_write_columns(cells: Seq<u8>, row: int, column: int, value: u8, k: int)
    requires
        cells.len() == 81,
        0 <= row < 9,
        0 <= column < 9,
        0 <= k < 9,
    ensures
        column_of(cells.update(cell_index(row, column), value), k) == (if k == column {
            column_of(cells, k).update(row, value)
        } else {
            column_of(cells, k)
        }),
{
    let written = cells.update(cell_index(row, column), value);
    if k == column {
        assert(column_of(written, k) =~= column_of(cells, k).update(row, value));
    } else {
        assert(column_of(written, k) =~= column_of(cells, k));
    }
}

/// Writing into the cell at (`row`, `column`) changes the block it lies in at
/// one place, and no other block.
pub proof fn lemma_write_blocks(
    cells: Seq<u8>,
    row: int,
    column: int,
    value: u8,
    br: int,
    bc: int,
)
    requires
        cells.len() == 81,
        0 <= row < 9,
        0 <= column < 9,
        0 <= br < 3,
        0 <= bc < 3,
    ensures
        block_of(cells.update(cell_index(row, column), value), br, bc) == (if br == row / 3 && bc
            == column / 3 {
            block_of(cells, br, bc).update((row % 3) * 3 + column % 3, value)
        } else {
            block_of(cells, br, bc)
        }),
{
    let written = cells.update(cell_index(row, column), value);
    let target = cell_index(row, column);
    let place = (row % 3) * 3 + column % 3;
    let block_before = block_of(cells, br, bc);
    let block_after = block_of(written, br, bc);
    if br == row / 3 && bc == column / 3 {
        assert forall|i: int| 0 <= i < 9 implies block_after[i] == block_before.update(
            place,
            value,
        )[i] by {
            let r = br * 3 + i / 3;
            let c = bc * 3 + i % 3;
            assert(r * 9 + c == row * 9 + column <==> r == row && c == column);
            assert(cell_index(r, c) == target <==> i == place);
        }
        assert(block_after =~= block_before.update(place, value));
    } else {
        assert forall|i: int| 0 <= i < 9 implies block_after[i] == block_before[i] by {
            let r = br * 3 + i / 3;
            let c = bc * 3 + i % 3;
            assert(r * 9 + c == row * 9 + column <==> r == row && c == column);
            assert(cell_index(r, c) != target);
        }
        assert(block_after =~= block_before);
    }
}

/// A legal grid stays legal when a cell is emptied, or receives one of its
/// candidates.
pub proof fn lemma_write_keeps_legal(cells: Seq<u8>, row: int, column: int, value: u8)
    requires
        cells.len() == 81,
        0 <= row < 9,
        0 <= column < 9,
        legal(cells),
        value == 0 || candidates(cells, row, column).contains(value),
    ensures
        legal(cells.update(cell_index(row, column), value)),
{
    let written = cells.update(cell_index(row, column), value);
    assert forall|k: int| 0 <= k < 9 implies distinct_values(#[trigger] row_of(written, k)) by {
        lemma_write_rows(cells, row, column, value, k);
        if k == row {
            lemma_distinct_update(row_of(cells, k), column, value);
        }
    }
    assert forall|k: int| 0 <= k < 9 implies distinct_values(#[trigger] column_of(written, k)) by {
        lemma_write_columns(cells, row, column, value, k);
        if k == column {
            lemma_distinct_update(column_of(cells, k), row, value);
        }
    }
    assert forall|br: int, bc: int| 0 <= br < 3 && 0 <= bc < 3 implies distinct_values(
        #[trigger] block_of(written, br, bc),
    ) by {
        lemma_write_blocks(cells, row, column, value, br, bc);
        if br == row / 3 && bc == column / 3 {
            lemma_distinct_update(block_of(cells, br, bc), (row % 3) * 3 + column % 3, value);
        }
    }
}

/// Emptying cells takes nothing away from what a cell may hold.
pub proof fn lemma_only_cleared_candidates(
    before: Seq<u8>,
    after: Seq<u8>,
    row: int,
    column: int,
)
    requires
        before.len() == 81,
        0 <= row < 9,
        0 <= column < 9,
        only_cleared(before, after),
    ensures
        candidates(before, row, column).subset_of(candidates(after, row, column)),
{
    assert forall|v: u8| candidates(before, row, column).contains(v) implies candidates(
        after,
        row,
        column,
    ).contains(v) by {
        assert forall|i: int| 0 <= i < 9 implies row_of(after, row)[i] != v by {
            assert(row_of(before, row)[i] != v);
        }
        assert forall|i: int| 0 <= i < 9 implies column_of(after, column)[i] != v by {
            assert(column_of(before, column)[i] != v);
        }
        let block_before = block_of(before, row / 3, column / 3);
        let block_after = block_of(after, row / 3, column / 3);
        assert forall|i: int| 0 <= i < 9 implies block_after[i] != v by {
            assert(block_before[i] != v);
        }
    }
}

/// Emptying cells keeps the numbers distinct.
proof fn lemma_only_cleared_distinct(before: Seq<u8>, after: Seq<u8>)
    requires
        distinct_values(before),
        only_cleared(before, after),
    ensures
        distinct_values(after),
{
}

/// A legal grid stays legal when cells are emptied.
pub proof fn lemma_only_cleared_legal(before: Seq<u8>, after: Seq<u8>)
    requires
        before.len() == 81,
        legal(before),
        only_cleared(before, after),
    ensures
        legal(after),
{
    assert forall|k: int| 0 <= k < 9 implies distinct_values(#[trigger] row_of(after, k)) by {
        assert(distinct_values(row_of(before, k)));
        lemma_only_cleared_distinct(row_of(before, k), row_of(after, k));
    }
    assert forall|k: int| 0 <= k < 9 implies distinct_values(#[trigger] column_of(after, k)) by {
        assert(distinct_values(column_of(before, k)));
        lemma_only_cleared_distinct(column_of(before, k), column_of(after, k));
    }
    assert forall|br: int, bc: int| 0 <= br < 3 && 0 <= bc < 3 implies distinct_values(
        #[trigger] block_of(after, br, bc),
    ) by {
        assert(distinct_values(block_of(before, br, bc)));
        lemma_only_cleared_distinct(block_of(before, br, bc), block_of(after, br, bc));
    }
}

/// Every cell is counted exactly when no cell is empty.
pub proof fn lemma_count_set_complete(cells: Seq<u8>)
    ensures
        count_set(cells) == cells.len() <==> complete(cells),
    decreases cells.len(),
{
    if cells.len() > 0 {
        let front = cells.drop_last();
        lemma_count_set_complete(front);
        lemma_count_set_bound(front);
        if complete(cells) {
            assert forall|i: int| 0 <= i < front.len() implies front[i] != 0 by {
                assert(cells[i] != 0);
            }
        }
        if count_set(cells) == cells.len() {
            assert forall|i: int| 0 <= i < cells.len() implies cells[i] != 0 by {
                if i < front.len() {
                    assert(front[i] != 0);
                }
            }
        }
    }
}

} // verus!
