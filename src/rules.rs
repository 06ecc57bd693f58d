use vstd::prelude::*;

use crate::tile::{Direction, Sides, TileConnection, TileData, TileModel};

verus! {

/// The side length of the square grid.
pub const GRID_SIZE: usize = 10;

/// The number of cells in the grid.
pub const CELL_COUNT: usize = 100;

/// The position in the flat, row-major cell sequence of the cell at `(row, col)`.
pub open spec fn at(row: int, col: int) -> int {
    row * 10 + col
}

pub open spec fn in_grid(row: int, col: int) -> bool {
    0 <= row < 10 && 0 <= col < 10
}

/// A tile fits a tile set of `n` tiles when its own index and every index
/// named in its lists are below `n`.
pub open spec fn tile_fits(t: TileModel, n: nat) -> bool {
    t.index < n && t.sides.indices_below(n)
}

/// A well-formed tile set: every index it names addresses one of its tiles.
pub open spec fn tile_set_valid(tiles: Seq<TileData>) -> bool {
    forall|i: int| 0 <= i < tiles.len() ==> tile_fits(#[trigger] tiles[i]@, tiles.len())
}

/// Two tile sets hold equal tiles in the same order.
pub open spec fn same_tile_set(a: Seq<TileData>, b: Seq<TileData>) -> bool {
    a.len() == b.len() && forall|i: int| 0 <= i < a.len() ==> #[trigger] a[i]@ == b[i]@
}

/// The lists of side `d` of every tile, one after another in tile order.
pub open spec fn joined(tiles: Seq<TileData>, d: Direction) -> Seq<TileConnection>
    decreases tiles.len(),
{
    if tiles.len() == 0 {
        seq![]
    } else {
        joined(tiles.drop_last(), d) + tiles.last()@.sides.get(d)
    }
}

/// `s` with every entry after its first occurrence removed.
pub open spec fn dedup(s: Seq<TileConnection>) -> Seq<TileConnection>
    decreases s.len(),
{
    if s.len() == 0 {
        seq![]
    } else {
        let p = dedup(s.drop_last());
        if p.contains(s.last()) {
            p
        } else {
            p.push(s.last())
        }
    }
}

/// Every connection that some tile of the set allows on side `d`, each once,
/// in the order first seen.
pub open spec fn union_of(tiles: Seq<TileData>, d: Direction) -> Seq<TileConnection> {
    dedup(joined(tiles, d))
}

/// What a freshly built grid holds at `(row, col)`: the union of each side,
/// except on the sides that face out of the grid, which stay empty.
pub open spec fn initial_cell(tiles: Seq<TileData>, row: int, col: int) -> Sides {
    Sides {
        north: if row != 0 { union_of(tiles, Direction::North) } else { seq![] },
        south: if row != 9 { union_of(tiles, Direction::South) } else { seq![] },
        east: if col != 9 { union_of(tiles, Direction::East) } else { seq![] },
        west: if col != 0 { union_of(tiles, Direction::West) } else { seq![] },
    }
}

/// The cell one step from `(row, col)` towards side `d`.
pub open spec fn neighbor(row: int, col: int, d: Direction) -> (int, int) {
    match d {
        Direction::North => (row - 1, col),
        Direction::South => (row + 1, col),
        Direction::East => (row, col + 1),
        Direction::West => (row, col - 1),
    }
}

/// Each tile model of `m` is the model of the tile at the same position of `v`.
pub open spec fn views_match(v: Seq<TileData>, m: Seq<TileModel>) -> bool {
    v.len() == m.len() && forall|k: int| 0 <= k < v.len() ==> #[trigger] v[k]@ == m[k]
}

/// Whether two sequences share at least one entry.
pub open spec fn overlaps(a: Seq<TileConnection>, b: Seq<TileConnection>) -> bool {
    exists|i: int, j: int| 0 <= i < a.len() && 0 <= j < b.len() && a[i] == b[j]
}

/// How many of the four sides of `t` share an entry with the same side of
/// `cell`: the confidence in `t` for that cell, in quarters.
pub open spec fn confidence(t: TileModel, cell: Sides) -> nat {
    (if overlaps(t.sides.north, cell.north) { 1nat } else { 0nat }) + (if overlaps(
        t.sides.south,
        cell.south,
    ) {
        1nat
    } else {
        0nat
    }) + (if overlaps(t.sides.east, cell.east) { 1nat } else { 0nat }) + (if overlaps(
        t.sides.west,
        cell.west,
    ) {
        1nat
    } else {
        0nat
    })
}

/// `k` is the first position of `cands` whose confidence for `cell` is highest.
pub open spec fn is_first_best(cands: Seq<TileModel>, cell: Sides, k: int) -> bool {
    &&& 0 <= k < cands.len()
    &&& forall|j: int| 0 <= j < cands.len() ==> confidence(#[trigger] cands[j], cell) <= confidence(cands[k], cell)
    &&& forall|j: int| 0 <= j < k ==> confidence(#[trigger] cands[j], cell) < confidence(cands[k], cell)
}

/// `s` with the list of side `d` replaced by `v`.
pub open spec fn with_side(s: Sides, d: Direction, v: Seq<TileConnection>) -> Sides {
    match d {
        Direction::North => Sides { north: v, ..s },
        Direction::South => Sides { south: v, ..s },
        Direction::East => Sides { east: v, ..s },
        Direction::West => Sides { west: v, ..s },
    }
}

/// The number of resolved cells.
pub open spec fn count_placed(s: Seq<Option<TileModel>>) -> nat
    decreases s.len(),
{
    if s.len() == 0 {
        0
    } else {
        count_placed(s.drop_last()) + if s.last() is Some { 1nat } else { 0nat }
    }
}

/// Cell `i` after a tile with index `index` is committed at `(row, col)`:
/// each neighbour's side that faces `(row, col)` holds that one connection,
/// naming the side it lies on; every other side and cell is kept.
pub open spec fn narrowed(cells: Seq<Sides>, row: int, col: int, index: usize, i: int) -> Sides {
    if row > 0 && i == at(row - 1, col) {
        with_side(cells[i], Direction::South, seq![(index, Direction::South)])
    } else if row < 9 && i == at(row + 1, col) {
        with_side(cells[i], Direction::North, seq![(index, Direction::North)])
    } else if col > 0 && i == at(row, col - 1) {
        with_side(cells[i], Direction::East, seq![(index, Direction::East)])
    } else if col < 9 && i == at(row, col + 1) {
        with_side(cells[i], Direction::West, seq![(index, Direction::West)])
    } else {
        cells[i]
    }
}

/// Resolving one unresolved cell adds one to the count of resolved cells.
pub proof fn lemma_count_placed_update(s: Seq<Option<TileModel>>, i: int, t: TileModel)
    requires
        0 <= i < s.len(),
        s[i] is None,
    ensures
        count_placed(s.update(i, Some(t))) == count_placed(s) + 1,
    decreases s.len(),
{
    let u = s.update(i, Some(t));
    if i == s.len() - 1 {
        assert(u.drop_last() =~= s.drop_last());
    } else {
        assert(u.drop_last() =~= s.drop_last().update(i, Some(t)));
        lemma_count_placed_update(s.drop_last(), i, t);
    }
}

} // verus!
