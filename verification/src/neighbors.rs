//! The cells that bear on one cell, kept as a set of coordinates.

use crate::sudoku::Coordinates;
use vstd::prelude::*;

verus! {

/// The cells that share the row, the column or the block of `of`, without
/// `of` itself. Row and column are taken within the grid; the block is the
/// 3×3 square that `of` lies in.
pub open spec fn neighbor_set(of: Coordinates) -> Set<Coordinates> {
    Set::new(
        |c: Coordinates|
            {
                &&& c != of
                &&& ((c.row == of.row && c.column < 9) || (c.column == of.column && c.row < 9) || (
                c.row / 3 == of.row / 3 && c.column / 3 == of.column / 3))
            },
    )
}

/// The `k`-th of the eight places of a line other than `own`.
pub open spec fn skipping(own: int, k: int) -> int {
    if k < own {
        k
    } else {
        k + 1
    }
}

/// The first (`t` = 0) or second (`t` = 1) of the two places that lie in the
/// same band of three as `own` and differ from it.
pub open spec fn band_mate(own: int, t: int) -> int {
    own / 3 * 3 + (own % 3 + 1 + t) % 3
}

/// The neighbors of a cell of the grid, counted out: eight in its row, eight
/// in its column, four more in its block.
pub open spec fn nth_neighbor(of: Coordinates, k: int) -> Coordinates {
    if k < 8 {
        Coordinates { row: of.row, column: skipping(of.column as int, k) as usize }
    } else if k < 16 {
        Coordinates { row: skipping(of.row as int, k - 8) as usize, column: of.column }
    } else {
        Coordinates {
            row: band_mate(of.row as int, (k - 16) / 2) as usize,
            column: band_mate(of.column as int, (k - 16) % 2) as usize,
        }
    }
}

/// A cell of the grid has exactly twenty neighbors, all of them on the grid.
pub proof fn lemma_twenty_neighbors(of: Coordinates)
    requires
        of.row < 9,
        of.column < 9,
    ensures
        neighbor_set(of).finite(),
        neighbor_set(of).len() == 20,
        forall|c: Coordinates| neighbor_set(of).contains(c) ==> c.row < 9 && c.column < 9,
{
    let counted = Seq::new(20, |k: int| nth_neighbor(of, k));
    assert forall|i: int, j: int| 0 <= i < 20 && 0 <= j < 20 && i != j implies counted[i]
        != counted[j] by {
        lemma_nth_neighbor_distinct(of, i, j);
    }
    assert forall|c: Coordinates| neighbor_set(of).contains(c) implies counted.contains(c) by {
        let k = lemma_neighbor_is_counted(of, c);
        assert(counted[k] == c);
    }
    assert forall|c: Coordinates| counted.contains(c) implies neighbor_set(of).contains(c) by {
        let k = choose|k: int| 0 <= k < 20 && counted[k] == c;
        lemma_nth_neighbor_is_neighbor(of, k);
    }
    assert(counted.to_set() =~= neighbor_set(of));
    counted.unique_seq_to_set();
    vstd::seq_lib::seq_to_set_is_finite(counted);
}

/// The two band mates of a place lie in its band of three, differ from it
/// and from each other.
proof fn lemma_band_mate(own: int, t: int)
    requires
        0 <= own < 9,
        0 <= t < 2,
    ensures
        0 <= band_mate(own, t) < 9,
        band_mate(own, t) / 3 == own / 3,
        band_mate(own, t) != own,
        band_mate(own, t) % 3 == (own % 3 + 1 + t) % 3,
        band_mate(own, 0) != band_mate(own, 1),
{
    let base = own / 3 * 3;
    let shift = (own % 3 + 1 + t) % 3;
    assert(own == base + own % 3);
    assert(0 <= shift < 3);
    assert(band_mate(own, t) == base + shift);
    assert(band_mate(own, 0) == base + (own % 3 + 1) % 3);
    assert(band_mate(own, 1) == base + (own % 3 + 2) % 3);
}

/// A place in the band of `own`, other than `own`, is one of its band mates.
proof fn lemma_band_mate_found(own: int, other: int) -> (t: int)
    requires
        0 <= own < 9,
        0 <= other,
        other / 3 == own / 3,
        other != own,
    ensures
        0 <= t < 2,
        band_mate(own, t) == other,
{
    let base = own / 3 * 3;
    assert(own == base + own % 3);
    assert(other == base + other % 3);
    let t = (other % 3 + 2 - own % 3) % 3;
    assert((own % 3 + 1 + t) % 3 == other % 3);
    t
}

/// Each counted neighbor is a neighbor.
proof fn lemma_nth_neighbor_is_neighbor(of: Coordinates, k: int)
    requires
        of.row < 9,
        of.column < 9,
        0 <= k < 20,
    ensures
        neighbor_set(of).contains(nth_neighbor(of, k)),
{
    if k >= 16 {
        lemma_band_mate(of.row as int, (k - 16) / 2);
        lemma_band_mate(of.column as int, (k - 16) % 2);
    }
}

/// No neighbor is counted twice.
proof fn lemma_nth_neighbor_distinct(of: Coordinates, i: int, j: int)
    requires
        of.row < 9,
        of.column < 9,
        0 <= i < 20,
        0 <= j < 20,
        i != j,
    ensures
        nth_neighbor(of, i) != nth_neighbor(of, j),
{
    if i >= 16 {
        lemma_band_mate(of.row as int, (i - 16) / 2);
        lemma_band_mate(of.column as int, (i - 16) % 2);
    }
    if j >= 16 {
        lemma_band_mate(of.row as int, (j - 16) / 2);
        lemma_band_mate(of.column as int, (j - 16) % 2);
    }
    if i >= 16 && j >= 16 {
        assert((i - 16) / 2 != (j - 16) / 2 || (i - 16) % 2 != (j - 16) % 2);
    }
}

/// Each neighbor is counted: the result is its number.
proof fn lemma_neighbor_is_counted(of: Coordinates, c: Coordinates) -> (k: int)
    requires
        of.row < 9,
        of.column < 9,
        neighbor_set(of).contains(c),
    ensures
        0 <= k < 20,
        nth_neighbor(of, k) == c,
{
    if c.row == of.row {
        if c.column < of.column {
            c.column as int
        } else {
            c.column - 1
        }
    } else if c.column == of.column {
        if c.row < of.row {
            8 + c.row
        } else {
            8 + c.row - 1
        }
    } else {
        let tr = lemma_band_mate_found(of.row as int, c.row as int);
        let tc = lemma_band_mate_found(of.column as int, c.column as int);
        let k = 16 + tr * 2 + tc;
        assert((k - 16) / 2 == tr && (k - 16) % 2 == tc);
        k
    }
}

/// A finite set of coordinates.
#[derive(Debug)]
pub struct Neighbors {
    cells: Vec<Coordinates>,
}

impl View for Neighbors {
    type V = Set<Coordinates>;

    closed spec fn view(&self) -> Set<Coordinates> {
        self.cells@.to_set()
    }
}

impl Neighbors {
    /// No coordinate is stored twice.
    #[verifier::type_invariant]
    spec fn distinct(&self) -> bool {
        self.cells@.no_duplicates()
    }

    /// The empty set.
    pub fn new() -> (neighbors: Neighbors)
        ensures
            neighbors@ == Set::<Coordinates>::empty(),
    {
        let neighbors = Neighbors { cells: Vec::new() };
        assert(neighbors@ =~= Set::<Coordinates>::empty());
        neighbors
    }

    /// How many coordinates the set holds.
    pub fn len(&self) -> (n: usize)
        ensures
            n == self@.len(),
            self@.finite(),
    {
        proof {
            use_type_invariant(self);
            self.cells@.unique_seq_to_set();
            vstd::seq_lib::seq_to_set_is_finite(self.cells@);
        }
        self.cells.len()
    }

    /// Whether the set holds `coords`.
    pub fn contains(&self, coords: &Coordinates) -> (found: bool)
        ensures
            found == self@.contains(*coords),
    {
        let mut i: usize = 0;
        while i < self.cells.len()
            invariant
                i <= self.cells.len(),
                forall|j: int| 0 <= j < i ==> self.cells[j] != *coords,
            decreases self.cells.len() - i,
        {
            if self.cells[i] == *coords {
                return true;
            }
            i += 1;
        }
        false
    }

    /// Adds `coords`; tells whether it was new.
    pub fn insert(&mut self, coords: Coordinates) -> (added: bool)
        ensures
            final(self)@ == old(self)@.insert(coords),
            added == !old(self)@.contains(coords),
    {
        proof {
            use_type_invariant(&*self);
        }
        if self.contains(&coords) {
            assert(self@ =~= self@.insert(coords));
            false
        } else {
            let mut cells = Vec::new();
            std::mem::swap(&mut cells, &mut self.cells);
            cells.push(coords);
            self.cells = cells;
            proof {
                old(self).cells@.lemma_push_to_set_commute(coords);
            }
            true
        }
    }

    /// Takes `coords` out; tells whether it was there.
    pub fn remove(&mut self, coords: &Coordinates) -> (removed: bool)
        ensures
            final(self)@ == old(self)@.remove(*coords),
            removed == old(self)@.contains(*coords),
    {
        proof {
            use_type_invariant(&*self);
        }
        let mut i: usize = 0;
        while i < self.cells.len() && self.cells[i] != *coords
            invariant
                i <= self.cells.len(),
                forall|j: int| 0 <= j < i ==> self.cells[j] != *coords,
            decreases self.cells.len() - i,
        {
            i += 1;
        }
        if i == self.cells.len() {
            assert(self@ =~= self@.remove(*coords));
            return false;
        }
        let mut cells = Vec::new();
        std::mem::swap(&mut cells, &mut self.cells);
        cells.remove(i);
        proof {
            let before = old(self).cells@;
            let after = cells@;
            assert forall|k: int| 0 <= k < after.len() implies after[k] == before[if k < i {
                k
            } else {
                k + 1
            }] by {}
            assert forall|c: Coordinates| after.contains(c) <==> before.contains(c) && c
                != *coords by {
                if after.contains(c) {
                    let k = choose|k: int| 0 <= k < after.len() && after[k] == c;
                    assert(before[if k < i {
                        k
                    } else {
                        k + 1
                    }] == c);
                }
                if before.contains(c) && c != *coords {
                    let k = choose|k: int| 0 <= k < before.len() && before[k] == c;
                    assert(after[if k < i {
                        k
                    } else {
                        k - 1
                    }] == c);
                }
            }
            assert(after.to_set() =~= before.to_set().remove(*coords));
        }
        self.cells = cells;
        true
    }

    /// The coordinates of the set, each once.
    pub fn into_vec(self) -> (cells: Vec<Coordinates>)
        ensures
            cells@.no_duplicates(),
            cells@.to_set() == self@,
    {
        proof {
            use_type_invariant(&self);
        }
        self.cells
    }

    /// The neighbors of `coords`: the cells of its row, of its column and of
    /// its block, without `coords` itself. A cell of the grid has twenty.
    pub fn from(coords: Coordinates) -> (neighbors: Neighbors)
        requires
            coords.row / 3 * 3 + 2 <= usize::MAX,
            coords.column / 3 * 3 + 2 <= usize::MAX,
        ensures
            neighbors@ == neighbor_set(coords),
            coords.row < 9 && coords.column < 9 ==> neighbors@.len() == 20,
    {
        proof {
            if coords.row < 9 && coords.column < 9 {
                lemma_twenty_neighbors(coords);
            }
        }
        let mut retval = Neighbors::new();
        for i in 0..9usize
            invariant
                retval@ == Set::new(
                    |c: Coordinates|
                        (c.row == coords.row && c.column < i) || (c.column == coords.column
                            && c.row < i),
                ),
        {
            // Row
            retval.insert(Coordinates { row: coords.row, column: i });
            // Column
            retval.insert(Coordinates { row: i, column: coords.column });
            assert(retval@ =~= Set::new(
                |c: Coordinates|
                    (c.row == coords.row && c.column < i + 1) || (c.column == coords.column && c.row
                        < i + 1),
            ));
        }
        // Block
        let block_row = coords.row / 3;
        let block_column = coords.column / 3;
        for row_in_b in 0..3usize
            invariant
                block_row == coords.row / 3,
                block_column == coords.column / 3,
                block_row * 3 + 2 <= usize::MAX,
                block_column * 3 + 2 <= usize::MAX,
                retval@ == Set::new(
                    |c: Coordinates|
                        (c.row == coords.row && c.column < 9) || (c.column == coords.column && c.row
                            < 9) || (c.row / 3 == block_row && c.column / 3 == block_column && c.row
                            < block_row * 3 + row_in_b),
                ),
        {
            for column_in_b in 0..3usize
                invariant
                    row_in_b < 3,
                    block_row == coords.row / 3,
                    block_column == coords.column / 3,
                    block_row * 3 + 2 <= usize::MAX,
                    block_column * 3 + 2 <= usize::MAX,
                    retval@ == Set::new(
                        |c: Coordinates|
                            (c.row == coords.row && c.column < 9) || (c.column == coords.column
                                && c.row < 9) || (c.row / 3 == block_row && c.column / 3
                                == block_column && (c.row < block_row * 3 + row_in_b || (c.row
                                == block_row * 3 + row_in_b && c.column < block_column * 3
                                + column_in_b))),
                    ),
            {
                retval.insert(
                    Coordinates {
                        row: block_row * 3 + row_in_b,
                        column: block_column * 3 + column_in_b,
                    },
                );
                assert(retval@ =~= Set::new(
                    |c: Coordinates|
                        (c.row == coords.row && c.column < 9) || (c.column == coords.column && c.row
                            < 9) || (c.row / 3 == block_row && c.column / 3 == block_column && (
                        c.row < block_row * 3 + row_in_b || (c.row == block_row * 3 + row_in_b
                            && c.column < block_column * 3 + column_in_b + 1))),
                ));
            }
            assert(retval@ =~= Set::new(
                |c: Coordinates|
                    (c.row == coords.row && c.column < 9) || (c.column == coords.column && c.row
                        < 9) || (c.row / 3 == block_row && c.column / 3 == block_column && c.row
                        < block_row * 3 + row_in_b + 1),
            ));
        }
        retval.remove(&coords);
        assert(retval@ =~= neighbor_set(coords));
        retval
    }
}

impl Clone for Neighbors {
    /// A set with the same coordinates.
    fn clone(&self) -> (copy: Neighbors)
        ensures
            copy@ == self@,
    {
        proof {
            use_type_invariant(self);
        }
        let mut cells: Vec<Coordinates> = Vec::new();
        for i in 0..self.cells.len()
            invariant
                cells@ == self.cells@.take(i as int),
        {
            cells.push(self.cells[i]);
            assert(self.cells@.take(i + 1) == self.cells@.take(i as int).push(self.cells[i as int]));
        }
        assert(self.cells@.take(self.cells.len() as int) == self.cells@);
        Neighbors { cells }
    }
}

} // verus!
