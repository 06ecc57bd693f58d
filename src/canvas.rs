use vstd::prelude::*;

use crate::candidates::PossibleConnections;
use crate::random::random_below;
use crate::rules::{
    overlaps,
    at, count_placed, narrowed, lemma_count_placed_update, neighbor, views_match, dedup, in_grid, initial_cell, is_first_best, joined, same_tile_set, tile_fits,
    tile_set_valid, union_of, with_side, confidence, CELL_COUNT, GRID_SIZE,
};
use crate::tile::{contains_connection, copy_connections, Direction, Sides, TileConnection, TileData, TileModel};

verus! {

/// The solver: a tile set and two parallel grids of `CELL_COUNT` cells in
/// row-major order, one of candidate connections and one of resolved tiles.
#[derive(Debug, Clone)]
pub struct ImageCanvasComponent {
    current_tile_set: Vec<TileData>,
    canvas_connections: Vec<PossibleConnections>,
    canvas_representation: Vec<Option<TileData>>,
}

pub open spec fn placed_model(o: Option<TileData>) -> Option<TileModel> {
    match o {
        Some(t) => Some(t@),
        None => None,
    }
}

/// Why a tile set was refused.
#[derive(Debug, Clone, Copy, PartialEq, Eq, Structural)]
pub enum TileSetError {
    /// The tile at this position names an index outside the tile set, as its
    /// own index or in one of its lists.
    IndexOutOfRange { tile: usize },
}

/// Whether every tile index in `v` is below `n`.
pub fn connections_below(v: &Vec<TileConnection>, n: usize) -> (r: bool)
    ensures
        r == forall|i: int| 0 <= i < v@.len() ==> (#[trigger] v@[i]).0 < n,
{
    let mut i: usize = 0;
    while i < v.len()
        invariant
            i <= v.len(),
            forall|j: int| 0 <= j < i ==> (#[trigger] v@[j]).0 < n,
        decreases v.len() - i,
    {
        if v[i].0 >= n {
            return false;
        }
        i = i + 1;
    }
    true
}

/// Whether `t` fits a tile set of `n` tiles.
pub fn fits(t: &TileData, n: usize) -> (r: bool)
    ensures
        r == tile_fits(t@, n as nat),
{
    let north = connections_below(&t.north_valid_tiles, n);
    let south = connections_below(&t.south_valid_tiles, n);
    let east = connections_below(&t.east_valid_tiles, n);
    let west = connections_below(&t.west_valid_tiles, n);
    let r = t.image_index < n && north && south && east && west;
    proof {
        if r {
            assert forall|d: Direction, i: int| 0 <= i < t@.sides.get(d).len()
                implies (#[trigger] t@.sides.get(d)[i]).0 < n by {
                match d {
                    Direction::North => {},
                    Direction::South => {},
                    Direction::East => {},
                    Direction::West => {},
                }
            }
        } else if t.image_index < n {
            let d = if !north {
                Direction::North
            } else if !south {
                Direction::South
            } else if !east {
                Direction::East
            } else {
                Direction::West
            };
            let i = choose|i: int| 0 <= i < t@.sides.get(d).len() && !((#[trigger] t@.sides.get(d)[i]).0 < n);
            assert(t@.sides.get(d)[i].0 >= n);
        }
    }
    r
}

/// Accepts a well-formed tile set, or names the first tile that names an
/// index outside it.
pub fn check_tile_set(tiles: &Vec<TileData>) -> (r: Result<(), TileSetError>)
    ensures
        r is Ok <==> tile_set_valid(tiles@),
        r matches Err(TileSetError::IndexOutOfRange { tile }) ==> {
            &&& tile < tiles.len()
            &&& !tile_fits(tiles@[tile as int]@, tiles.len() as nat)
            &&& forall|j: int| 0 <= j < tile ==> tile_fits(#[trigger] tiles@[j]@, tiles.len() as nat)
        },
{
    let mut i: usize = 0;
    while i < tiles.len()
        invariant
            i <= tiles.len(),
            forall|j: int| 0 <= j < i ==> tile_fits(#[trigger] tiles@[j]@, tiles.len() as nat),
        decreases tiles.len() - i,
    {
        if !fits(&tiles[i], tiles.len()) {
            return Err(TileSetError::IndexOutOfRange { tile: i });
        }
        i = i + 1;
    }
    Ok(())
}

/// Whether two tile sets hold equal tiles in the same order.
pub fn same_tiles(a: &Vec<TileData>, b: &Vec<TileData>) -> (r: bool)
    ensures
        r == same_tile_set(a@, b@),
{
    if a.len() != b.len() {
        return false;
    }
    let mut i: usize = 0;
    while i < a.len()
        invariant
            i <= a.len(),
            a.len() == b.len(),
            forall|j: int| 0 <= j < i ==> #[trigger] a@[j]@ == b@[j]@,
        decreases a.len() - i,
    {
        if !a[i].same_as(&b[i]) {
            return false;
        }
        i = i + 1;
    }
    true
}

/// Every entry of the joined lists of a prefix of tiles whose lists name
/// only indices below `n` is below `n`.
proof fn lemma_joined_below(tiles: Seq<TileData>, d: Direction, n: nat)
    requires
        forall|i: int| 0 <= i < tiles.len() ==> (#[trigger] tiles[i]@).sides.indices_below(n),
    ensures
        forall|k: int| 0 <= k < joined(tiles, d).len() ==> (#[trigger] joined(tiles, d)[k]).0 < n,
    decreases tiles.len(),
{
    if tiles.len() > 0 {
        let p = tiles.drop_last();
        assert forall|i: int| 0 <= i < p.len() implies (#[trigger] p[i]@).sides.indices_below(n) by {
            assert(p[i] == tiles[i]);
        }
        lemma_joined_below(p, d, n);
        let last = tiles.last()@.sides.get(d);
        assert(tiles[tiles.len() - 1]@.sides.indices_below(n));
        assert forall|k: int| 0 <= k < joined(tiles, d).len() implies (#[trigger] joined(tiles, d)[k]).0 < n by {
            if k >= joined(p, d).len() {
                assert(joined(tiles, d)[k] == last[k - joined(p, d).len()]);
            }
        }
    }
}

/// Each entry of `dedup(s)` is an entry of `s`.
proof fn lemma_dedup_from(s: Seq<TileConnection>)
    ensures
        forall|k: int| 0 <= k < dedup(s).len() ==> s.contains(#[trigger] dedup(s)[k]),
    decreases s.len(),
{
    if s.len() > 0 {
        let p = s.drop_last();
        lemma_dedup_from(p);
        assert forall|k: int| 0 <= k < dedup(s).len() implies s.contains(#[trigger] dedup(s)[k]) by {
            if k < dedup(p).len() {
                assert(dedup(s)[k] == dedup(p)[k]);
                let m = choose|m: int| 0 <= m < p.len() && p[m] == dedup(p)[k];
                assert(s[m] == p[m]);
            } else {
                assert(dedup(s)[k] == s.last());
                assert(s[s.len() - 1] == s.last());
            }
        }
    }
}

/// The unions of a well-formed tile set name only its own tiles.
proof fn lemma_union_below(tiles: Seq<TileData>, d: Direction)
    requires
        tile_set_valid(tiles),
    ensures
        forall|k: int| 0 <= k < union_of(tiles, d).len() ==> (#[trigger] union_of(tiles, d)[k]).0 < tiles.len(),
{
    lemma_joined_below(tiles, d, tiles.len());
    lemma_dedup_from(joined(tiles, d));
    assert forall|k: int| 0 <= k < union_of(tiles, d).len() implies (#[trigger] union_of(tiles, d)[k]).0 < tiles.len() by {
        let m = choose|m: int| 0 <= m < joined(tiles, d).len() && joined(tiles, d)[m] == union_of(tiles, d)[k];
    }
}

/// Whether some entry of `vec1` is also in `vec2`.
pub fn do_tile_arrs_overlap(vec1: &Vec<TileConnection>, vec2: &Vec<TileConnection>) -> (r: bool)
    ensures
        r == overlaps(vec1@, vec2@),
{
    let mut i: usize = 0;
    while i < vec1.len()
        invariant
            i <= vec1.len(),
            forall|k: int, j: int| 0 <= k < i && 0 <= j < vec2@.len() ==> vec1@[k] != vec2@[j],
        decreases vec1.len() - i,
    {
        if contains_connection(vec2, vec1[i]) {
            let ghost j = choose|j: int| 0 <= j < vec2@.len() && vec2@[j] == vec1@[i as int];
            assert(vec1@[i as int] == vec2@[j]);
            return true;
        }
        i = i + 1;
    }
    false
}

/// The confidence in `tile` for a cell with candidates `connections`, in
/// quarters: one for each side on which the two share an entry.
pub fn tile_confidence(tile: &TileData, connections: &PossibleConnections) -> (r: u8)
    ensures
        r == confidence(tile@, connections@),
        r <= 4,
{
    let mut confidence: u8 = 0;
    if do_tile_arrs_overlap(&tile.north_valid_tiles, &connections.north_connections) {
        confidence = confidence + 1;
    }
    if do_tile_arrs_overlap(&tile.south_valid_tiles, &connections.south_connections) {
        confidence = confidence + 1;
    }
    if do_tile_arrs_overlap(&tile.east_valid_tiles, &connections.east_connections) {
        confidence = confidence + 1;
    }
    if do_tile_arrs_overlap(&tile.west_valid_tiles, &connections.west_connections) {
        confidence = confidence + 1;
    }
    confidence
}

/// The position of the first candidate with the highest confidence.
pub fn most_confident(candidates: &Vec<TileData>, connections: &PossibleConnections) -> (r: usize)
    requires
        candidates.len() > 0,
    ensures
        is_first_best(candidates@.map_values(|t: TileData| t@), connections@, r as int),
{
    let ghost m = candidates@.map_values(|t: TileData| t@);
    let mut best: usize = 0;
    let mut highest = tile_confidence(&candidates[0], connections);
    let mut i: usize = 1;
    while i < candidates.len()
        invariant
            m == candidates@.map_values(|t: TileData| t@),
            1 <= i <= candidates.len(),
            best < i,
            highest == confidence(m[best as int], connections@),
            forall|j: int| 0 <= j < i ==> confidence(#[trigger] m[j], connections@) <= highest,
            forall|j: int| 0 <= j < best ==> confidence(#[trigger] m[j], connections@) < highest,
        decreases candidates.len() - i,
    {
        let c = tile_confidence(&candidates[i], connections);
        if c > highest {
            highest = c;
            best = i;
        }
        i = i + 1;
    }
    best
}

/// A grid state as the rules see it: the tile set, the candidates of every
/// cell and the resolved tile of every cell, both row-major.
pub ghost struct Grid {
    pub tiles: Seq<TileData>,
    pub cells: Seq<Sides>,
    pub placed: Seq<Option<TileModel>>,
}

/// The grid freshly built from `tiles`: every cell holds its initial
/// candidates and none is resolved.
pub open spec fn built(tiles: Seq<TileData>) -> Grid {
    Grid {
        tiles,
        cells: Seq::new(CELL_COUNT as nat, |i: int| initial_cell(tiles, i / 10, i % 10)),
        placed: Seq::new(CELL_COUNT as nat, |i: int| None),
    }
}

impl Grid {
    /// `post` is what one step from the baseline cell `(x, y)` makes of this
    /// grid, having resolved `r`. With no tiles nothing is resolved.
    /// Otherwise the cell is the one selected (see `selects`); when there is
    /// one, its tile is one the choice rule allows, it becomes resolved and
    /// its neighbours are narrowed (see `narrowed`), and nothing else changes.
    pub open spec fn stepped(self, post: Grid, x: int, y: int, r: Option<(usize, usize)>) -> bool {
        &&& post.tiles == self.tiles
        &&& self.tiles.len() == 0 ==> r is None
        &&& self.tiles.len() > 0 ==> self.selects(x, y, r)
        &&& r is None ==> post.cells == self.cells && post.placed == self.placed
        &&& r matches Some((row, col)) ==> {
            let p = at(row as int, col as int);
            let t = post.placed[p]->0;
            &&& in_grid(row as int, col as int)
            &&& self.placed[p] is None
            &&& post.placed[p] is Some
            &&& self.allowed_choice(row as int, col as int, self.cells[p], t)
            &&& post.placed == self.placed.update(p, Some(t))
            &&& post.cells.len() == CELL_COUNT
            &&& forall|i: int| 0 <= i < CELL_COUNT ==> #[trigger] post.cells[i] == narrowed(
                self.cells,
                row as int,
                col as int,
                t.index,
                i,
            )
            &&& count_placed(post.placed) == count_placed(self.placed) + 1
        }
    }

    /// Cell `p` is unresolved, no unresolved cell has lower entropy, and every
    /// unresolved cell before it in row-major order has higher entropy.
    pub open spec fn is_first_lowest(self, p: int) -> bool {
        &&& 0 <= p < CELL_COUNT
        &&& self.placed[p] is None
        &&& forall|j: int| 0 <= j < CELL_COUNT && #[trigger] self.placed[j] is None
            ==> self.cells[j].total() >= self.cells[p].total()
        &&& forall|j: int| 0 <= j < p && #[trigger] self.placed[j] is None
            ==> self.cells[j].total() > self.cells[p].total()
    }

    /// Some unresolved cell has lower entropy than the cell at `b`.
    pub open spec fn has_lower(self, b: int) -> bool {
        exists|j: int| 0 <= j < CELL_COUNT && #[trigger] self.placed[j] is None
            && self.cells[j].total() < self.cells[b].total()
    }

    /// The selection from the baseline cell `(x, y)`: the first unresolved
    /// cell of lowest entropy when its entropy is below the baseline's; else
    /// the baseline itself while it is unresolved; else nothing, even where
    /// unresolved cells of the baseline's entropy remain.
    pub open spec fn selects(self, x: int, y: int, r: Option<(usize, usize)>) -> bool {
        if self.has_lower(at(x, y)) {
            &&& r matches Some((row, col))
            &&& in_grid(row as int, col as int)
            &&& self.is_first_lowest(at(row as int, col as int))
        } else if self.placed[at(x, y)] is None {
            r == Some((x as usize, y as usize))
        } else {
            r is None
        }
    }

    /// The tiles that the resolved neighbour towards side `d` allows in this
    /// cell: its list for the side facing back here, each entry read as a tile
    /// of the set. Empty where there is no such neighbour or it is unresolved.
    pub open spec fn neighbor_evidence(self, row: int, col: int, d: Direction) -> Seq<TileModel> {
        let (nr, nc) = neighbor(row, col, d);
        if in_grid(nr, nc) && self.placed[at(nr, nc)] is Some {
            self.placed[at(nr, nc)]->0.sides.get(d.opposite_spec()).map_values(
                |c: TileConnection| self.tiles[c.0 as int]@,
            )
        } else {
            seq![]
        }
    }

    /// The candidate tiles for a cell from its resolved neighbours: those of
    /// the northern neighbour first, then southern, western and eastern.
    pub open spec fn evidence(self, row: int, col: int) -> Seq<TileModel> {
        self.neighbor_evidence(row, col, Direction::North) + self.neighbor_evidence(
            row,
            col,
            Direction::South,
        ) + self.neighbor_evidence(row, col, Direction::West) + self.neighbor_evidence(
            row,
            col,
            Direction::East,
        )
    }

    /// The tiles the choice rule may give for a cell at `(row, col)` with
    /// candidates `cell`. With evidence from resolved neighbours, exactly the
    /// first candidate of highest confidence. Without it, the first tile of
    /// the set for a blank cell, and otherwise a tile named by one of the
    /// cell's own entries.
    pub open spec fn allowed_choice(self, row: int, col: int, cell: Sides, t: TileModel) -> bool {
        let ev = self.evidence(row, col);
        if ev.len() > 0 {
            exists|k: int| #[trigger] is_first_best(ev, cell, k) && t == ev[k]
        } else if cell == Sides::empty() {
            t == self.tiles[0]@
        } else {
            exists|d: Direction, i: int|
                0 <= i < cell.get(d).len() && t == self.tiles[(#[trigger] cell.get(d)[i]).0 as int]@
        }
    }
}

impl Default for ImageCanvasComponent {
    /// An empty solver: no tiles, every cell blank and unresolved.
    fn default() -> (r: ImageCanvasComponent)
        ensures
            r.wf(),
            r.tiles().len() == 0,
            forall|i: int| 0 <= i < CELL_COUNT ==> #[trigger] r.cells()[i] == Sides::empty(),
            forall|i: int| 0 <= i < CELL_COUNT ==> #[trigger] r.placed()[i] is None,
    {
        let mut cells: Vec<PossibleConnections> = Vec::new();
        let mut placed: Vec<Option<TileData>> = Vec::new();
        let mut i: usize = 0;
        while i < CELL_COUNT
            invariant
                i <= CELL_COUNT,
                cells.len() == i,
                placed.len() == i,
                forall|j: int| 0 <= j < i ==> (#[trigger] cells@[j])@ == Sides::empty(),
                forall|j: int| 0 <= j < i ==> (#[trigger] placed@[j]) is None,
            decreases CELL_COUNT - i,
        {
            cells.push(PossibleConnections::default());
            placed.push(None);
            i = i + 1;
        }
        let r = ImageCanvasComponent {
            current_tile_set: Vec::new(),
            canvas_connections: cells,
            canvas_representation: placed,
        };
        proof {
            r.lemma_wf();
        }
        r
    }
}

impl ImageCanvasComponent {
    /// The tile set the grid was built from.
    pub closed spec fn tiles(&self) -> Seq<TileData> {
        self.current_tile_set@
    }

    /// The candidate connections of every cell, row-major.
    pub closed spec fn cells(&self) -> Seq<Sides> {
        self.canvas_connections@.map_values(|p: PossibleConnections| p@)
    }

    /// The resolved tile of every cell, row-major.
    pub closed spec fn placed(&self) -> Seq<Option<TileModel>> {
        self.canvas_representation@.map_values(|o: Option<TileData>| placed_model(o))
    }

    /// The whole state of the solver.
    pub open spec fn model(&self) -> Grid {
        Grid { tiles: self.tiles(), cells: self.cells(), placed: self.placed() }
    }

    pub open spec fn wf(&self) -> bool {
        &&& self.cells().len() == CELL_COUNT
        &&& self.placed().len() == CELL_COUNT
        &&& tile_set_valid(self.tiles())
        &&& forall|i: int| 0 <= i < CELL_COUNT ==> (#[trigger] self.cells()[i]).indices_below(self.tiles().len())
        &&& forall|i: int| 0 <= i < CELL_COUNT && (#[trigger] self.placed()[i]) is Some
            ==> tile_fits(self.placed()[i]->0, self.tiles().len())
    }

    /// The shape of the grid, spelled over the fields.
    closed spec fn inner_wf(&self) -> bool {
        &&& self.canvas_connections.len() == CELL_COUNT
        &&& self.canvas_representation.len() == CELL_COUNT
        &&& tile_set_valid(self.current_tile_set@)
        &&& forall|i: int| 0 <= i < CELL_COUNT ==> (#[trigger] self.canvas_connections@[i])@.indices_below(self.current_tile_set.len() as nat)
        &&& forall|i: int| 0 <= i < CELL_COUNT ==> match #[trigger] self.canvas_representation@[i] {
            Some(t) => tile_fits(t@, self.current_tile_set.len() as nat),
            None => true,
        }
    }

    proof fn lemma_wf(&self)
        ensures
            self.wf() <==> self.inner_wf(),
            self.cells().len() == self.canvas_connections.len(),
            self.placed().len() == self.canvas_representation.len(),
            forall|i: int| 0 <= i < self.canvas_connections.len() ==> #[trigger] self.cells()[i] == self.canvas_connections@[i]@,
            forall|i: int| 0 <= i < self.canvas_representation.len() ==> #[trigger] self.placed()[i] == placed_model(self.canvas_representation@[i]),
    {
        if self.wf() {
            assert forall|i: int| 0 <= i < CELL_COUNT implies (#[trigger] self.canvas_connections@[i])@.indices_below(self.current_tile_set.len() as nat) by {
                assert(self.cells()[i] == self.canvas_connections@[i]@);
            }
            assert forall|i: int| 0 <= i < CELL_COUNT implies match #[trigger] self.canvas_representation@[i] {
                Some(t) => tile_fits(t@, self.current_tile_set.len() as nat),
                None => true,
            } by {
                assert(self.placed()[i] == placed_model(self.canvas_representation@[i]));
            }
        }
        if self.inner_wf() {
            assert forall|i: int| 0 <= i < CELL_COUNT implies (#[trigger] self.cells()[i]).indices_below(self.tiles().len()) by {
                assert(self.cells()[i] == self.canvas_connections@[i]@);
            }
            assert forall|i: int| 0 <= i < CELL_COUNT && (#[trigger] self.placed()[i]) is Some
                implies tile_fits(self.placed()[i]->0, self.tiles().len()) by {
                assert(self.placed()[i] == placed_model(self.canvas_representation@[i]));
            }
        }
    }

    /// The entries of `arr` with every repeat of an earlier entry left out.
    pub fn remove_dupes(arr: &Vec<TileConnection>) -> (r: Vec<TileConnection>)
        ensures
            r@ == dedup(arr@),
    {
        let mut v: Vec<TileConnection> = Vec::new();
        let mut i: usize = 0;
        while i < arr.len()
            invariant
                i <= arr.len(),
                v@ == dedup(arr@.subrange(0, i as int)),
            decreases arr.len() - i,
        {
            let e = arr[i];
            assert(arr@.subrange(0, i + 1).drop_last() =~= arr@.subrange(0, i as int));
            if !contains_connection(&v, e) {
                v.push(e);
            }
            i = i + 1;
        }
        assert(arr@.subrange(0, arr.len() as int) =~= arr@);
        v
    }

    /// The lists of side `d` of every tile, one after another.
    pub fn joined_side(tiles: &Vec<TileData>, d: Direction) -> (r: Vec<TileConnection>)
        ensures
            r@ == joined(tiles@, d),
    {
        let mut v: Vec<TileConnection> = Vec::new();
        let mut i: usize = 0;
        while i < tiles.len()
            invariant
                i <= tiles.len(),
                v@ == joined(tiles@.subrange(0, i as int), d),
            decreases tiles.len() - i,
        {
            let side = tiles[i].side(d);
            let ghost start = v@;
            let mut j: usize = 0;
            while j < side.len()
                invariant
                    j <= side.len(),
                    v@ == start + side@.subrange(0, j as int),
                decreases side.len() - j,
            {
                v.push(side[j]);
                j = j + 1;
                assert(v@ =~= start + side@.subrange(0, j as int));
            }
            assert(tiles@.subrange(0, i + 1).drop_last() =~= tiles@.subrange(0, i as int));
            assert(side@.subrange(0, side.len() as int) =~= side@);
            i = i + 1;
        }
        assert(tiles@.subrange(0, tiles.len() as int) =~= tiles@);
        v
    }

    /// Every connection that some tile allows on side `d`, each once.
    fn union_side(tiles: &Vec<TileData>, d: Direction) -> (r: Vec<TileConnection>)
        ensures
            r@ == union_of(tiles@, d),
    {
        Self::remove_dupes(&Self::joined_side(tiles, d))
    }

    /// The cells of a grid freshly built from `tiles`: a cell gets a copy
    /// of the union of each side, except on sides that face out of the grid.
    fn build_cells(tiles: &Vec<TileData>) -> (r: Vec<PossibleConnections>)
        ensures
            r.len() == CELL_COUNT,
            forall|row: int, col: int| in_grid(row, col)
                ==> #[trigger] r@[at(row, col)]@ == initial_cell(tiles@, row, col),
    {
        let north = Self::union_side(tiles, Direction::North);
        let south = Self::union_side(tiles, Direction::South);
        let east = Self::union_side(tiles, Direction::East);
        let west = Self::union_side(tiles, Direction::West);
        let mut cells: Vec<PossibleConnections> = Vec::new();
        let mut row: usize = 0;
        while row < GRID_SIZE
            invariant
                row <= GRID_SIZE,
                cells.len() == row * 10,
                north@ == union_of(tiles@, Direction::North),
                south@ == union_of(tiles@, Direction::South),
                east@ == union_of(tiles@, Direction::East),
                west@ == union_of(tiles@, Direction::West),
                forall|r: int, c: int| 0 <= r < row && 0 <= c < 10
                    ==> (#[trigger] cells@[at(r, c)])@ == initial_cell(tiles@, r, c),
            decreases GRID_SIZE - row,
        {
            let mut col: usize = 0;
            while col < GRID_SIZE
                invariant
                    row < GRID_SIZE,
                    col <= GRID_SIZE,
                    cells.len() == row * 10 + col,
                    north@ == union_of(tiles@, Direction::North),
                    south@ == union_of(tiles@, Direction::South),
                    east@ == union_of(tiles@, Direction::East),
                    west@ == union_of(tiles@, Direction::West),
                    forall|r: int, c: int|
                        (0 <= r < row && 0 <= c < 10) || (r == row && 0 <= c < col)
                        ==> (#[trigger] cells@[at(r, c)])@ == initial_cell(tiles@, r, c),
                decreases GRID_SIZE - col,
            {
                let mut cell = PossibleConnections::default();
                if row != 0 {
                    cell.north_connections = copy_connections(&north);
                }
                if row != 9 {
                    cell.south_connections = copy_connections(&south);
                }
                if col != 9 {
                    cell.east_connections = copy_connections(&east);
                }
                if col != 0 {
                    cell.west_connections = copy_connections(&west);
                }
                assert(cell@ == initial_cell(tiles@, row as int, col as int));
                cells.push(cell);
                col = col + 1;
            }
            row = row + 1;
        }
        cells
    }

    /// Builds the solver's grids from `tiles`: the tile set is recorded,
    /// every cell gets its initial candidates (see `initial_cell`) and every
    /// cell becomes unresolved. A tile set that names an index outside itself
    /// is refused, naming the first such tile, and nothing changes.
    pub fn fill_representation_array(&mut self, tiles: Vec<TileData>) -> (r: Result<(), TileSetError>)
        requires
            old(self).wf(),
        ensures
            final(self).wf(),
            r is Ok <==> tile_set_valid(tiles@),
            r is Ok ==> final(self).model() == built(tiles@),
            r is Err ==> final(self).model() == old(self).model(),
            r matches Err(TileSetError::IndexOutOfRange { tile }) ==> {
                &&& tile < tiles.len()
                &&& !tile_fits(tiles@[tile as int]@, tiles.len() as nat)
                &&& forall|j: int| 0 <= j < tile ==> tile_fits(#[trigger] tiles@[j]@, tiles.len() as nat)
            },
    {
        match check_tile_set(&tiles) {
            Err(e) => {
                return Err(e);
            },
            Ok(()) => {},
        }
        let cells = Self::build_cells(&tiles);
        let mut placed: Vec<Option<TileData>> = Vec::new();
        let mut i: usize = 0;
        while i < CELL_COUNT
            invariant
                i <= CELL_COUNT,
                placed.len() == i,
                forall|j: int| 0 <= j < i ==> (#[trigger] placed@[j]) is None,
            decreases CELL_COUNT - i,
        {
            placed.push(None);
            i = i + 1;
        }
        self.canvas_connections = cells;
        self.canvas_representation = placed;
        self.current_tile_set = tiles;
        proof {
            self.lemma_wf();
            lemma_union_below(tiles@, Direction::North);
            lemma_union_below(tiles@, Direction::South);
            lemma_union_below(tiles@, Direction::East);
            lemma_union_below(tiles@, Direction::West);
            assert forall|i: int| 0 <= i < CELL_COUNT
                implies #[trigger] self.cells()[i] == initial_cell(tiles@, i / 10, i % 10) by {
                let row = i / 10;
                let col = i % 10;
                assert(i == at(row, col));
                assert(self.canvas_connections@[at(row, col)]@ == initial_cell(tiles@, row, col));
            }
            assert forall|i: int| 0 <= i < CELL_COUNT
                implies (#[trigger] self.canvas_connections@[i])@.indices_below(self.current_tile_set.len() as nat) by {
                assert(self.cells()[i] == initial_cell(tiles@, i / 10, i % 10));
                assert forall|d: Direction, k: int| 0 <= k < self.cells()[i].get(d).len()
                    implies (#[trigger] self.cells()[i].get(d)[k]).0 < tiles.len() by {
                    assert(union_of(tiles@, d)[k] == self.cells()[i].get(d)[k]);
                }
            }
            assert(self.inner_wf());
            assert(self.cells() =~= built(tiles@).cells);
            assert(self.placed() =~= built(tiles@).placed);
        }
        Ok(())
    }

    /// Takes up `tiles` when it differs from the current tile set, building
    /// the grids from it (see `fill_representation_array`). An equal tile set
    /// leaves everything as it was. Returns whether the grids were rebuilt.
    pub fn sync_tile_set(&mut self, tiles: Vec<TileData>) -> (r: Result<bool, TileSetError>)
        requires
            old(self).wf(),
        ensures
            final(self).wf(),
            same_tile_set(tiles@, old(self).tiles()) ==> r == Ok::<bool, TileSetError>(false),
            !same_tile_set(tiles@, old(self).tiles()) && tile_set_valid(tiles@)
                ==> r == Ok::<bool, TileSetError>(true),
            !same_tile_set(tiles@, old(self).tiles()) && !tile_set_valid(tiles@) ==> r is Err,
            r matches Err(TileSetError::IndexOutOfRange { tile }) ==> {
                &&& tile < tiles.len()
                &&& !tile_fits(tiles@[tile as int]@, tiles.len() as nat)
                &&& forall|j: int| 0 <= j < tile ==> tile_fits(#[trigger] tiles@[j]@, tiles.len() as nat)
            },
            r != Ok::<bool, TileSetError>(true) ==> final(self).model() == old(self).model(),
            r == Ok::<bool, TileSetError>(true) ==> final(self).model() == built(tiles@),
    {
        if same_tiles(&tiles, &self.current_tile_set) {
            return Ok(false);
        }
        match self.fill_representation_array(tiles) {
            Err(e) => Err(e),
            Ok(()) => Ok(true),
        }
    }

    /// Picks the next cell to resolve, scanning in row-major order from the
    /// baseline `(x, y)`, whose entropy is the bar to beat whether or not it is
    /// resolved.
    pub fn lowest_entropy_from(&self, x: usize, y: usize) -> (r: Option<(usize, usize)>)
        requires
            self.wf(),
            x < GRID_SIZE,
            y < GRID_SIZE,
        ensures
            self.model().selects(x as int, y as int, r),
    {
        proof {
            self.lemma_wf();
        }
        let base: usize = x * GRID_SIZE + y;
        let mut lowest_pos: usize = base;
        let mut lowest_val: u128 = self.canvas_connections[base].entropy();
        let mut i: usize = 0;
        while i < CELL_COUNT
            invariant
                self.wf(),
                self.cells().len() == CELL_COUNT,
                self.placed().len() == CELL_COUNT,
                forall|j: int| 0 <= j < CELL_COUNT ==> #[trigger] self.cells()[j] == self.canvas_connections@[j]@,
                forall|j: int| 0 <= j < CELL_COUNT ==> #[trigger] self.placed()[j] == placed_model(self.canvas_representation@[j]),
                base == at(x as int, y as int),
                base < CELL_COUNT,
                i <= CELL_COUNT,
                lowest_pos < CELL_COUNT,
                lowest_val == self.cells()[lowest_pos as int].total(),
                lowest_val <= self.cells()[base as int].total(),
                forall|j: int| 0 <= j < i && #[trigger] self.placed()[j] is None
                    ==> self.cells()[j].total() >= lowest_val,
                lowest_pos != base ==> {
                    &&& lowest_pos < i
                    &&& self.placed()[lowest_pos as int] is None
                    &&& lowest_val < self.cells()[base as int].total()
                    &&& forall|j: int| 0 <= j < lowest_pos && #[trigger] self.placed()[j] is None
                        ==> self.cells()[j].total() > lowest_val
                },
                lowest_pos == base ==> lowest_val == self.cells()[base as int].total(),
            decreases CELL_COUNT - i,
        {
            let val = self.canvas_connections[i].entropy();
            if val < lowest_val && self.canvas_representation[i].is_none() {
                lowest_val = val;
                lowest_pos = i;
            }
            i = i + 1;
        }
        if lowest_pos == base && self.canvas_representation[base].is_some() {
            return None;
        }
        let row = lowest_pos / GRID_SIZE;
        let col = lowest_pos % GRID_SIZE;
        assert(at(row as int, col as int) == lowest_pos);
        Some((row, col))
    }

    /// The neighbour of `(row, col)` towards `d`, if it lies in the grid.
    fn neighbor_pos(row: usize, col: usize, d: Direction) -> (r: Option<(usize, usize)>)
        requires
            in_grid(row as int, col as int),
        ensures
            r is Some <==> in_grid(neighbor(row as int, col as int, d).0, neighbor(row as int, col as int, d).1),
            r matches Some((nr, nc)) ==> (nr as int, nc as int) == neighbor(row as int, col as int, d),
    {
        match d {
            Direction::North => if row > 0 { Some((row - 1, col)) } else { None },
            Direction::South => if row < GRID_SIZE - 1 { Some((row + 1, col)) } else { None },
            Direction::East => if col < GRID_SIZE - 1 { Some((row, col + 1)) } else { None },
            Direction::West => if col > 0 { Some((row, col - 1)) } else { None },
        }
    }

    fn gather_from(&self, out: &mut Vec<TileData>, row: usize, col: usize, d: Direction)
        requires
            self.wf(),
            in_grid(row as int, col as int),
        ensures
            final(out).len() == old(out).len() + self.model().neighbor_evidence(row as int, col as int, d).len(),
            forall|k: int| 0 <= k < old(out).len() ==> #[trigger] final(out)@[k] == old(out)@[k],
            forall|k: int| 0 <= k < self.model().neighbor_evidence(row as int, col as int, d).len()
                ==> #[trigger] final(out)@[old(out).len() + k]@ == self.model().neighbor_evidence(row as int, col as int, d)[k],
    {
        proof {
            self.lemma_wf();
        }
        let ghost ev = self.model().neighbor_evidence(row as int, col as int, d);
        match Self::neighbor_pos(row, col, d) {
            None => {},
            Some((nr, nc)) => {
                let p = nr * GRID_SIZE + nc;
                assert(p == at(nr as int, nc as int));
                match &self.canvas_representation[p] {
                    None => {},
                    Some(t) => {
                        assert(self.placed()[p as int] == Some(t@));
                        assert(tile_fits(t@, self.tiles().len()));
                        let side = t.side(d.opposite());
                        let ghost start = out@;
                        let mut j: usize = 0;
                        while j < side.len()
                            invariant
                                self.wf(),
                                tile_fits(t@, self.current_tile_set.len() as nat),
                                side@ == t@.sides.get(d.opposite_spec()),
                                ev == side@.map_values(|c: TileConnection| self.tiles()[c.0 as int]@),
                                self.tiles() == self.current_tile_set@,
                                j <= side.len(),
                                out.len() == start.len() + j,
                                forall|k: int| 0 <= k < start.len() ==> #[trigger] out@[k] == start[k],
                                forall|k: int| 0 <= k < j ==> #[trigger] out@[start.len() + k]@ == ev[k],
                            decreases side.len() - j,
                        {
                            let index = side[j].0;
                            assert(side@[j as int] == t@.sides.get(d.opposite_spec())[j as int]);
                            let tile = self.current_tile_set[index].duplicate();
                            out.push(tile);
                            j = j + 1;
                        }
                    },
                }
            },
        }
    }

    /// The candidate tiles for `pos` from its resolved neighbours.
    pub fn get_possible_tiles(&self, pos: (usize, usize)) -> (r: Vec<TileData>)
        requires
            self.wf(),
            in_grid(pos.0 as int, pos.1 as int),
        ensures
            views_match(r@, self.model().evidence(pos.0 as int, pos.1 as int)),
    {
        let ghost en = self.model().neighbor_evidence(pos.0 as int, pos.1 as int, Direction::North);
        let ghost es = self.model().neighbor_evidence(pos.0 as int, pos.1 as int, Direction::South);
        let ghost ew = self.model().neighbor_evidence(pos.0 as int, pos.1 as int, Direction::West);
        let ghost ee = self.model().neighbor_evidence(pos.0 as int, pos.1 as int, Direction::East);
        let mut tiles: Vec<TileData> = Vec::new();
        self.gather_from(&mut tiles, pos.0, pos.1, Direction::North);
        assert(views_match(tiles@, en)) by {
            assert forall|k: int| 0 <= k < tiles@.len() implies #[trigger] tiles@[k]@ == en[k] by {
                assert(tiles@[0 + k]@ == en[k]);
            }
        }
        let ghost t1 = tiles@;
        self.gather_from(&mut tiles, pos.0, pos.1, Direction::South);
        assert(views_match(tiles@, en + es)) by {
            assert forall|k: int| 0 <= k < tiles@.len() implies #[trigger] tiles@[k]@ == (en + es)[k] by {
                if k < t1.len() {
                    assert(tiles@[k] == t1[k]);
                } else {
                    assert(tiles@[t1.len() + (k - t1.len())]@ == es[k - t1.len()]);
                }
            }
        }
        let ghost t2 = tiles@;
        self.gather_from(&mut tiles, pos.0, pos.1, Direction::West);
        assert(views_match(tiles@, en + es + ew)) by {
            assert forall|k: int| 0 <= k < tiles@.len() implies #[trigger] tiles@[k]@ == (en + es + ew)[k] by {
                if k < t2.len() {
                    assert(tiles@[k] == t2[k]);
                } else {
                    assert(tiles@[t2.len() + (k - t2.len())]@ == ew[k - t2.len()]);
                }
            }
        }
        let ghost t3 = tiles@;
        self.gather_from(&mut tiles, pos.0, pos.1, Direction::East);
        assert(views_match(tiles@, en + es + ew + ee)) by {
            assert forall|k: int| 0 <= k < tiles@.len() implies #[trigger] tiles@[k]@ == (en + es + ew + ee)[k] by {
                if k < t3.len() {
                    assert(tiles@[k] == t3[k]);
                } else {
                    assert(tiles@[t3.len() + (k - t3.len())]@ == ee[k - t3.len()]);
                }
            }
        }
        tiles
    }

    /// Narrows the side of neighbour `nb` that faces the committed cell to
    /// the single connection `(index, facing)`.
    fn narrow_one(&mut self, nb: usize, facing: Direction, index: usize)
        requires
            old(self).wf(),
            nb < CELL_COUNT,
            index < old(self).tiles().len(),
        ensures
            final(self).wf(),
            final(self).tiles() == old(self).tiles(),
            final(self).placed() == old(self).placed(),
            final(self).cells() == old(self).cells().update(
                nb as int,
                with_side(old(self).cells()[nb as int], facing, seq![(index, facing)]),
            ),
    {
        proof {
            self.lemma_wf();
        }
        let mut cell = self.canvas_connections[nb].duplicate();
        let mut v: Vec<TileConnection> = Vec::new();
        v.push((index, facing));
        cell.set_side(facing, v);
        assert(cell@ == with_side(old(self).cells()[nb as int], facing, seq![(index, facing)])) by {
            assert(v@ =~= seq![(index, facing)]);
            let w = with_side(old(self).cells()[nb as int], facing, seq![(index, facing)]);
            assert forall|d: Direction| #[trigger] cell@.get(d) == w.get(d) by {
                match facing {
                    Direction::North => {},
                    Direction::South => {},
                    Direction::East => {},
                    Direction::West => {},
                }
            }
            cell@.lemma_eq_by_sides(w);
        }
        self.canvas_connections.set(nb, cell);
        proof {
            self.lemma_wf();
            assert(self.cells() =~= old(self).cells().update(
                nb as int,
                with_side(old(self).cells()[nb as int], facing, seq![(index, facing)]),
            ));
            assert(self.placed() =~= old(self).placed());
            assert forall|d: Direction, k: int| 0 <= k < self.cells()[nb as int].get(d).len()
                implies (#[trigger] self.cells()[nb as int].get(d)[k]).0 < self.tiles().len() by {
                if d != facing {
                    assert(self.cells()[nb as int].get(d) == old(self).cells()[nb as int].get(d)) by {
                        match facing {
                            Direction::North => {},
                            Direction::South => {},
                            Direction::East => {},
                            Direction::West => {},
                        }
                    }
                }
            }
            assert(self.inner_wf());
        }
    }

    /// Narrows the four neighbours of `pos` after a tile with index `index`
    /// is committed there (see `narrowed`); nothing else changes.
    pub fn propagate(&mut self, pos: (usize, usize), index: usize)
        requires
            old(self).wf(),
            in_grid(pos.0 as int, pos.1 as int),
            index < old(self).tiles().len(),
        ensures
            final(self).wf(),
            final(self).tiles() == old(self).tiles(),
            final(self).placed() == old(self).placed(),
            forall|i: int| 0 <= i < CELL_COUNT ==> #[trigger] final(self).cells()[i] == narrowed(
                old(self).cells(),
                pos.0 as int,
                pos.1 as int,
                index,
                i,
            ),
    {
        let (row, col) = pos;
        let ghost c0 = self.cells();
        if row > 0 {
            self.narrow_one((row - 1) * GRID_SIZE + col, Direction::South, index);
        }
        if row < GRID_SIZE - 1 {
            self.narrow_one((row + 1) * GRID_SIZE + col, Direction::North, index);
        }
        if col > 0 {
            self.narrow_one(row * GRID_SIZE + col - 1, Direction::East, index);
        }
        if col < GRID_SIZE - 1 {
            self.narrow_one(row * GRID_SIZE + col + 1, Direction::West, index);
        }
        assert forall|i: int| 0 <= i < CELL_COUNT implies #[trigger] self.cells()[i] == narrowed(
            c0,
            row as int,
            col as int,
            index,
            i,
        ) by {}
    }

    /// Commits `tile` at `pos`: the cell becomes resolved to it and its
    /// neighbours are narrowed.
    pub fn commit_tile(&mut self, pos: (usize, usize), tile: TileData)
        requires
            old(self).wf(),
            in_grid(pos.0 as int, pos.1 as int),
            tile_fits(tile@, old(self).tiles().len()),
        ensures
            final(self).wf(),
            final(self).tiles() == old(self).tiles(),
            final(self).placed() == old(self).placed().update(at(pos.0 as int, pos.1 as int), Some(tile@)),
            forall|i: int| 0 <= i < CELL_COUNT ==> #[trigger] final(self).cells()[i] == narrowed(
                old(self).cells(),
                pos.0 as int,
                pos.1 as int,
                tile@.index,
                i,
            ),
    {
        self.propagate(pos, tile.image_index);
        let p = pos.0 * GRID_SIZE + pos.1;
        let ghost before = self.placed();
        let ghost mid_cells = self.cells();
        let ghost model = tile@;
        proof {
            self.lemma_wf();
        }
        self.canvas_representation.set(p, Some(tile));
        proof {
            self.lemma_wf();
            assert(self.placed() =~= before.update(p as int, Some(model)));
            assert(self.cells() =~= mid_cells);
            assert(self.inner_wf());
        }
    }

    proof fn lemma_evidence_fits(&self, row: int, col: int)
        requires
            self.wf(),
            in_grid(row, col),
        ensures
            forall|k: int| 0 <= k < self.model().evidence(row, col).len()
                ==> tile_fits(#[trigger] self.model().evidence(row, col)[k], self.tiles().len()),
    {
        let n = self.tiles().len();
        assert forall|d: Direction, k: int| 0 <= k < self.model().neighbor_evidence(row, col, d).len()
            implies tile_fits(#[trigger] self.model().neighbor_evidence(row, col, d)[k], n) by {
            let (nr, nc) = neighbor(row, col, d);
            let t = self.placed()[at(nr, nc)]->0;
            let c = t.sides.get(d.opposite_spec())[k];
            assert(tile_fits(t, n));
            assert(c.0 < n);
            assert(tile_fits(self.tiles()[c.0 as int]@, n));
        }
        let en = self.model().neighbor_evidence(row, col, Direction::North);
        let es = self.model().neighbor_evidence(row, col, Direction::South);
        let ew = self.model().neighbor_evidence(row, col, Direction::West);
        let ee = self.model().neighbor_evidence(row, col, Direction::East);
        assert forall|k: int| 0 <= k < self.model().evidence(row, col).len()
            implies tile_fits(#[trigger] self.model().evidence(row, col)[k], n) by {
            if k < en.len() {
                assert(self.model().evidence(row, col)[k] == en[k]);
            } else if k < en.len() + es.len() {
                assert(self.model().evidence(row, col)[k] == es[k - en.len()]);
            } else if k < en.len() + es.len() + ew.len() {
                assert(self.model().evidence(row, col)[k] == ew[k - en.len() - es.len()]);
            } else {
                assert(self.model().evidence(row, col)[k] == ee[k - en.len() - es.len() - ew.len()]);
            }
        }
    }

    /// Chooses the tile for the cell at `pos` with candidates
    /// `tile_connections` by the choice rule (see `allowed_choice`).
    pub fn choose_tile(&self, tile_connections: &PossibleConnections, pos: (usize, usize)) -> (r: TileData)
        requires
            self.wf(),
            in_grid(pos.0 as int, pos.1 as int),
            self.tiles().len() > 0,
            tile_connections@.indices_below(self.tiles().len()),
        ensures
            self.model().allowed_choice(pos.0 as int, pos.1 as int, tile_connections@, r@),
            tile_fits(r@, self.tiles().len()),
    {
        proof {
            self.lemma_wf();
            self.lemma_evidence_fits(pos.0 as int, pos.1 as int);
        }
        let possible_tiles = self.get_possible_tiles(pos);
        let ghost ev = self.model().evidence(pos.0 as int, pos.1 as int);
        if possible_tiles.len() == 0 {
            let t = tile_connections.random_tile(&self.current_tile_set);
            proof {
                if tile_connections@ != Sides::empty() {
                    let (d, i) = choose|d: Direction, i: int|
                        0 <= i < tile_connections@.get(d).len() && t == &self.current_tile_set@[#[trigger] tile_connections@.get(d)[i].0 as int];
                    assert(0 <= i < tile_connections@.get(d).len() && t@ == self.tiles()[(tile_connections@.get(d)[i]).0 as int]@);
                }
            }
            t.duplicate()
        } else {
            let k = most_confident(&possible_tiles, tile_connections);
            assert(possible_tiles@.map_values(|t: TileData| t@) =~= ev);
            assert(is_first_best(ev, tile_connections@, k as int));
            possible_tiles[k].duplicate()
        }
    }

    /// Chooses the tile for the cell at `pos` and narrows its neighbours; the
    /// cell itself is left for the caller to resolve.
    pub fn collapse_tile(&mut self, tile_connections: &PossibleConnections, pos: (usize, usize)) -> (r: TileData)
        requires
            old(self).wf(),
            in_grid(pos.0 as int, pos.1 as int),
            old(self).tiles().len() > 0,
            tile_connections@.indices_below(old(self).tiles().len()),
        ensures
            final(self).wf(),
            old(self).model().allowed_choice(pos.0 as int, pos.1 as int, tile_connections@, r@),
            tile_fits(r@, old(self).tiles().len()),
            final(self).tiles() == old(self).tiles(),
            final(self).placed() == old(self).placed(),
            forall|i: int| 0 <= i < CELL_COUNT ==> #[trigger] final(self).cells()[i] == narrowed(
                old(self).cells(),
                pos.0 as int,
                pos.1 as int,
                r@.index,
                i,
            ),
    {
        let most_likely_tile = self.choose_tile(tile_connections, pos);
        self.propagate(pos, most_likely_tile.image_index);
        most_likely_tile
    }

    /// One step of the solver from the baseline cell `(x, y)`: selects a
    /// cell (see `selects`), chooses its tile, narrows its neighbours and
    /// resolves it. Returns the cell resolved, if any. With no tiles, or
    /// when the selection finds nothing, nothing changes.
    pub fn step_from(&mut self, x: usize, y: usize) -> (r: Option<(usize, usize)>)
        requires
            old(self).wf(),
            x < GRID_SIZE,
            y < GRID_SIZE,
        ensures
            final(self).wf(),
            old(self).model().stepped(final(self).model(), x as int, y as int, r),
            (forall|i: int| 0 <= i < CELL_COUNT ==> #[trigger] old(self).placed()[i] is Some) ==> r is None,
    {
        if self.current_tile_set.len() == 0 {
            return None;
        }
        let lowest = self.lowest_entropy_from(x, y);
        match lowest {
            None => None,
            Some((row, col)) => {
                proof {
                    self.lemma_wf();
                }
                let p = row * GRID_SIZE + col;
                let ghost old_cells = self.cells();
                let ghost old_placed = self.placed();
                let conns = self.canvas_connections[p].duplicate();
                assert(conns@ == old_cells[p as int]);
                let tile = self.collapse_tile(&conns, (row, col));
                let ghost model = tile@;
                proof {
                    self.lemma_wf();
                }
                let ghost mid_cells = self.cells();
                self.canvas_representation.set(p, Some(tile));
                proof {
                    self.lemma_wf();
                    assert(self.placed() =~= old_placed.update(p as int, Some(model)));
                    assert(self.cells() =~= mid_cells);
                    assert(self.inner_wf());
                    lemma_count_placed_update(old_placed, p as int, model);
                }
                Some((row, col))
            },
        }
    }

    /// Selects the next cell to resolve from a baseline cell drawn uniformly
    /// from the grid.
    pub fn get_lowest_entropy(&self) -> (r: Option<(usize, usize)>)
        requires
            self.wf(),
        ensures
            exists|x: int, y: int| in_grid(x, y) && #[trigger] self.model().selects(x, y, r),
    {
        let x = random_below(GRID_SIZE);
        let y = random_below(GRID_SIZE);
        let r = self.lowest_entropy_from(x, y);
        assert(in_grid(x as int, y as int) && self.model().selects(x as int, y as int, r));
        r
    }

    /// One update of the solver: takes up `tiles` (see `sync_tile_set`) and,
    /// when it is accepted, makes one step from a baseline cell drawn
    /// uniformly from the grid. Returns the cell resolved, if any.
    pub fn update(&mut self, tiles: Vec<TileData>) -> (r: Result<Option<(usize, usize)>, TileSetError>)
        requires
            old(self).wf(),
        ensures
            final(self).wf(),
            r is Err <==> !same_tile_set(tiles@, old(self).tiles()) && !tile_set_valid(tiles@),
            r matches Err(TileSetError::IndexOutOfRange { tile }) ==> {
                &&& tile < tiles.len()
                &&& !tile_fits(tiles@[tile as int]@, tiles.len() as nat)
                &&& forall|j: int| 0 <= j < tile ==> tile_fits(#[trigger] tiles@[j]@, tiles.len() as nat)
            },
            r is Err ==> final(self).model() == old(self).model(),
            same_tile_set(tiles@, old(self).tiles()) ==> (r matches Ok(s) && exists|x: int, y: int|
                in_grid(x, y) && #[trigger] old(self).model().stepped(final(self).model(), x, y, s)),
            !same_tile_set(tiles@, old(self).tiles()) && tile_set_valid(tiles@) ==> (r matches Ok(s)
                && exists|x: int, y: int| in_grid(x, y) && #[trigger] built(tiles@).stepped(final(self).model(), x, y, s)),
            same_tile_set(tiles@, old(self).tiles())
                && (forall|i: int| 0 <= i < CELL_COUNT ==> #[trigger] old(self).placed()[i] is Some)
                ==> r == Ok::<Option<(usize, usize)>, TileSetError>(None) && final(self).model() == old(self).model(),
    {
        let ghost before = self.model();
        let ghost pre_tiles = tiles@;
        match self.sync_tile_set(tiles) {
            Err(e) => Err(e),
            Ok(_) => {
                if self.current_tile_set.len() == 0 {
                    assert(self.model().stepped(self.model(), 0, 0, None));
                    return Ok(None);
                }
                let ghost mid = self.model();
                let x = random_below(GRID_SIZE);
                let y = random_below(GRID_SIZE);
                let s = self.step_from(x, y);
                assert(in_grid(x as int, y as int) && mid.stepped(self.model(), x as int, y as int, s));
                Ok(s)
            },
        }
    }

    /// The tile set the grid was built from.
    pub fn tile_set(&self) -> (r: &Vec<TileData>)
        ensures
            r@ == self.tiles(),
    {
        &self.current_tile_set
    }

    /// The candidate connections of the cell at `pos`.
    pub fn cell_at(&self, pos: (usize, usize)) -> (r: &PossibleConnections)
        requires
            self.wf(),
            in_grid(pos.0 as int, pos.1 as int),
        ensures
            r@ == self.cells()[at(pos.0 as int, pos.1 as int)],
    {
        proof {
            self.lemma_wf();
        }
        &self.canvas_connections[pos.0 * GRID_SIZE + pos.1]
    }

    /// The entropy of the cell at `pos`.
    pub fn entropy_at(&self, pos: (usize, usize)) -> (r: u128)
        requires
            self.wf(),
            in_grid(pos.0 as int, pos.1 as int),
        ensures
            r == self.cells()[at(pos.0 as int, pos.1 as int)].total(),
    {
        self.cell_at(pos).entropy()
    }

    /// The tile resolved at `pos`, if any.
    pub fn placed_at(&self, pos: (usize, usize)) -> (r: &Option<TileData>)
        requires
            self.wf(),
            in_grid(pos.0 as int, pos.1 as int),
        ensures
            placed_model(*r) == self.placed()[at(pos.0 as int, pos.1 as int)],
    {
        proof {
            self.lemma_wf();
        }
        &self.canvas_representation[pos.0 * GRID_SIZE + pos.1]
    }

    /// The number of resolved cells.
    pub fn resolved_count(&self) -> (r: usize)
        requires
            self.wf(),
        ensures
            r == count_placed(self.placed()),
    {
        proof {
            self.lemma_wf();
        }
        let ghost s = self.placed();
        let mut n: usize = 0;
        let mut i: usize = 0;
        while i < CELL_COUNT
            invariant
                s == self.placed(),
                s.len() == CELL_COUNT,
                forall|j: int| 0 <= j < CELL_COUNT ==> #[trigger] s[j] == placed_model(self.canvas_representation@[j]),
                self.canvas_representation.len() == CELL_COUNT,
                i <= CELL_COUNT,
                n == count_placed(s.subrange(0, i as int)),
                n <= i,
            decreases CELL_COUNT - i,
        {
            assert(s.subrange(0, i + 1).drop_last() =~= s.subrange(0, i as int));
            if self.canvas_representation[i].is_some() {
                n = n + 1;
            }
            i = i + 1;
        }
        assert(s.subrange(0, CELL_COUNT as int) =~= s);
        n
    }

    /// Whether every cell is resolved.
    pub fn is_complete(&self) -> (r: bool)
        requires
            self.wf(),
        ensures
            r == forall|i: int| 0 <= i < CELL_COUNT ==> #[trigger] self.placed()[i] is Some,
    {
        proof {
            self.lemma_wf();
        }
        let mut i: usize = 0;
        while i < CELL_COUNT
            invariant
                self.wf(),
                self.placed().len() == CELL_COUNT,
                forall|j: int| 0 <= j < CELL_COUNT ==> #[trigger] self.placed()[j] == placed_model(self.canvas_representation@[j]),
                self.canvas_representation.len() == CELL_COUNT,
                i <= CELL_COUNT,
                forall|j: int| 0 <= j < i ==> #[trigger] self.placed()[j] is Some,
            decreases CELL_COUNT - i,
        {
            if self.canvas_representation[i].is_none() {
                assert(self.placed()[i as int] is None);
                return false;
            }
            i = i + 1;
        }
        true
    }
}

} // verus!
