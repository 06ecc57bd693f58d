use vstd::prelude::*;

use crate::rules::{at, in_grid, initial_cell, narrowed, union_of};
use crate::tile::{Direction, Sides, TileData};

verus! {

/// A cell on the edge of a freshly built grid never holds more candidate
/// entries than an interior cell built from the same tile set, and holds
/// strictly fewer when the union of some side it faces out of is not empty.
/// (Entropy, a count, is never negative.)
pub proof fn lemma_edge_cells_hold_fewer(tiles: Seq<TileData>, row: int, col: int, irow: int, icol: int)
    requires
        in_grid(row, col),
        0 < irow < 9,
        0 < icol < 9,
    ensures
        initial_cell(tiles, row, col).total() <= initial_cell(tiles, irow, icol).total(),
        (row == 0 && union_of(tiles, Direction::North).len() > 0)
            || (row == 9 && union_of(tiles, Direction::South).len() > 0)
            || (col == 9 && union_of(tiles, Direction::East).len() > 0)
            || (col == 0 && union_of(tiles, Direction::West).len() > 0)
            ==> initial_cell(tiles, row, col).total() < initial_cell(tiles, irow, icol).total(),
{
}

/// After a commit at `(row, col)`, each neighbour in the grid holds exactly
/// one entry on the side facing the committed cell, whatever it held before:
/// the committed tile's index with that side.
pub proof fn lemma_narrowed_facet_single(cells: Seq<Sides>, row: int, col: int, index: usize)
    requires
        in_grid(row, col),
        cells.len() == 100,
    ensures
        row > 0 ==> narrowed(cells, row, col, index, at(row - 1, col)).south == seq![(index, Direction::South)],
        row < 9 ==> narrowed(cells, row, col, index, at(row + 1, col)).north == seq![(index, Direction::North)],
        col > 0 ==> narrowed(cells, row, col, index, at(row, col - 1)).east == seq![(index, Direction::East)],
        col < 9 ==> narrowed(cells, row, col, index, at(row, col + 1)).west == seq![(index, Direction::West)],
        row > 0 ==> narrowed(cells, row, col, index, at(row - 1, col)).south.len() == 1,
        row < 9 ==> narrowed(cells, row, col, index, at(row + 1, col)).north.len() == 1,
        col > 0 ==> narrowed(cells, row, col, index, at(row, col - 1)).east.len() == 1,
        col < 9 ==> narrowed(cells, row, col, index, at(row, col + 1)).west.len() == 1,
        forall|i: int| 0 <= i < 100 && i != at(row - 1, col) && i != at(row + 1, col)
            && i != at(row, col - 1) && i != at(row, col + 1)
            ==> #[trigger] narrowed(cells, row, col, index, i) == cells[i],
{
}

} // verus!
