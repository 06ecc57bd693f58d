use vstd::prelude::*;

use crate::random::random_below;
use crate::tile::{copy_connections, Direction, Sides, TileConnection, TileData};

verus! {

/// The sides of `s` that hold at least one entry, in the order North, South,
/// East, West.
pub open spec fn filled_sides(s: Sides) -> Seq<Direction> {
    (if s.north.len() > 0 { seq![Direction::North] } else { seq![] })
        + (if s.south.len() > 0 { seq![Direction::South] } else { seq![] })
        + (if s.east.len() > 0 { seq![Direction::East] } else { seq![] })
        + (if s.west.len() > 0 { seq![Direction::West] } else { seq![] })
}

/// The connections that remain possible in one grid cell, one list per side.
#[derive(Debug, Clone)]
pub struct PossibleConnections {
    pub north_connections: Vec<TileConnection>,
    pub south_connections: Vec<TileConnection>,
    pub east_connections: Vec<TileConnection>,
    pub west_connections: Vec<TileConnection>,
}

impl View for PossibleConnections {
    type V = Sides;

    open spec fn view(&self) -> Sides {
        Sides {
            north: self.north_connections@,
            south: self.south_connections@,
            east: self.east_connections@,
            west: self.west_connections@,
        }
    }
}

impl Default for PossibleConnections {
    fn default() -> (r: PossibleConnections)
        ensures
            r@ == Sides::empty(),
    {
        let r = PossibleConnections {
            north_connections: Vec::new(),
            south_connections: Vec::new(),
            east_connections: Vec::new(),
            west_connections: Vec::new(),
        };
        proof {
            r@.lemma_no_entries();
        }
        r
    }
}

impl PossibleConnections {
    /// The entropy of the cell: the number of entries over all four sides.
    pub fn total_len(&self) -> (r: usize)
        requires
            self@.total() <= usize::MAX,
        ensures
            r == self@.total(),
    {
        self.north_connections.len() + self.south_connections.len()
            + self.east_connections.len() + self.west_connections.len()
    }

    /// The entropy of the cell, in a type wide enough for any four lengths.
    pub fn entropy(&self) -> (r: u128)
        ensures
            r == self@.total(),
    {
        assert(usize::MAX <= u64::MAX);
        self.north_connections.len() as u128 + self.south_connections.len() as u128
            + self.east_connections.len() as u128 + self.west_connections.len() as u128
    }

    /// Whether every side is empty, as in a freshly made cell.
    pub fn is_blank(&self) -> (r: bool)
        ensures
            r == (self@ == Sides::empty()),
    {
        let r = self.north_connections.len() == 0 && self.south_connections.len() == 0
            && self.east_connections.len() == 0 && self.west_connections.len() == 0;
        if r {
            proof {
                self@.lemma_no_entries();
            }
        }
        r
    }

    /// The connection list of one side.
    pub fn side(&self, d: Direction) -> (r: &Vec<TileConnection>)
        ensures
            r@ == self@.get(d),
    {
        match d {
            Direction::North => &self.north_connections,
            Direction::South => &self.south_connections,
            Direction::East => &self.east_connections,
            Direction::West => &self.west_connections,
        }
    }

    /// Replaces the list of one side, leaving the other three as they were.
    pub fn set_side(&mut self, d: Direction, v: Vec<TileConnection>)
        ensures
            final(self)@.get(d) == v@,
            forall|e: Direction| e != d ==> final(self)@.get(e) == old(self)@.get(e),
    {
        match d {
            Direction::North => self.north_connections = v,
            Direction::South => self.south_connections = v,
            Direction::East => self.east_connections = v,
            Direction::West => self.west_connections = v,
        }
    }

    /// A copy of this cell with the same four lists.
    pub fn duplicate(&self) -> (r: PossibleConnections)
        ensures
            r@ == self@,
    {
        PossibleConnections {
            north_connections: copy_connections(&self.north_connections),
            south_connections: copy_connections(&self.south_connections),
            east_connections: copy_connections(&self.east_connections),
            west_connections: copy_connections(&self.west_connections),
        }
    }

    /// The sides that hold at least one entry, North first, West last.
    pub fn filled_sides(&self) -> (r: Vec<Direction>)
        ensures
            r@ == filled_sides(self@),
    {
        let mut r: Vec<Direction> = Vec::new();
        if self.north_connections.len() > 0 {
            r.push(Direction::North);
        }
        if self.south_connections.len() > 0 {
            r.push(Direction::South);
        }
        if self.east_connections.len() > 0 {
            r.push(Direction::East);
        }
        if self.west_connections.len() > 0 {
            r.push(Direction::West);
        }
        assert(r@ =~= filled_sides(self@));
        r
    }

    /// The tile index that two draws pick: `side_roll` chooses among the
    /// sides that hold entries, `entry_roll` an entry of the chosen side.
    pub fn tile_from_rolls(&self, side_roll: usize, entry_roll: usize) -> (r: usize)
        requires
            side_roll < filled_sides(self@).len(),
            entry_roll < self@.get(filled_sides(self@)[side_roll as int]).len(),
        ensures
            r == self@.get(filled_sides(self@)[side_roll as int])[entry_roll as int].0,
    {
        let sides = self.filled_sides();
        let d = sides[side_roll];
        self.side(d)[entry_roll].0
    }

    /// Draws a tile for this cell when no neighbour gives evidence. A blank
    /// cell gives the first tile. Otherwise a side is drawn uniformly among
    /// those that hold entries, then an entry uniformly within that side.
    pub fn random_tile<'a>(&self, tiles: &'a Vec<TileData>) -> (r: &'a TileData)
        requires
            tiles.len() > 0,
            self@.indices_below(tiles.len() as nat),
        ensures
            self@ == Sides::empty() ==> r == &tiles@[0],
            self@ != Sides::empty() ==> exists|d: Direction, i: int|
                0 <= i < self@.get(d).len() && r == &tiles@[#[trigger] self@.get(d)[i].0 as int],
    {
        if self.is_blank() {
            return &tiles[0];
        }
        let sides = self.filled_sides();
        assert(sides@.len() > 0) by {
            if self@.north.len() == 0 && self@.south.len() == 0 && self@.east.len() == 0
                && self@.west.len() == 0 {
                self@.lemma_no_entries();
            }
        }
        let side_roll = random_below(sides.len());
        let d = sides[side_roll];
        assert(self@.get(d).len() > 0);
        let entry_roll = random_below(self.side(d).len());
        let index = self.tile_from_rolls(side_roll, entry_roll);
        assert(index < tiles.len());
        &tiles[index]
    }
}

} // verus!
