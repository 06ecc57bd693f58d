use vstd::prelude::*;

verus! {

/// One of the four sides of a cell.
#[derive(Debug, Clone, Copy, PartialEq, Eq, Hash, Structural)]
pub enum Direction {
    North,
    South,
    East,
    West,
}

impl Direction {
    /// The side that faces this one across a shared edge.
    pub open spec fn opposite_spec(self) -> Direction {
        match self {
            Direction::North => Direction::South,
            Direction::South => Direction::North,
            Direction::East => Direction::West,
            Direction::West => Direction::East,
        }
    }

    pub fn opposite(&self) -> (r: Direction)
        ensures
            r == self.opposite_spec(),
    {
        match self {
            Direction::North => Direction::South,
            Direction::South => Direction::North,
            Direction::East => Direction::West,
            Direction::West => Direction::East,
        }
    }

    /// The name of the side, as shown to a user.
    pub fn name(&self) -> (r: &'static str)
        ensures
            *self == Direction::North ==> r@ == "North"@,
            *self == Direction::South ==> r@ == "South"@,
            *self == Direction::East ==> r@ == "East"@,
            *self == Direction::West ==> r@ == "West"@,
    {
        proof {
            reveal_strlit("North");
            reveal_strlit("South");
            reveal_strlit("East");
            reveal_strlit("West");
        }
        match self {
            Direction::North => "North",
            Direction::South => "South",
            Direction::East => "East",
            Direction::West => "West",
        }
    }
}

pub open spec fn direction_of_index(value: usize) -> Direction {
    if value == 1 {
        Direction::South
    } else if value == 2 {
        Direction::East
    } else if value == 3 {
        Direction::West
    } else {
        Direction::North
    }
}

impl From<usize> for Direction {
    /// Sides are numbered North, South, East, West from 0; any other number
    /// reads as North.
    fn from(value: usize) -> (r: Direction) {
        match value {
            0 => Direction::North,
            1 => Direction::South,
            2 => Direction::East,
            3 => Direction::West,
            _ => Direction::North,
        }
    }
}

impl vstd::std_specs::convert::FromSpecImpl<usize> for Direction {
    open spec fn obeys_from_spec() -> bool {
        true
    }

    open spec fn from_spec(value: usize) -> Direction {
        direction_of_index(value)
    }
}

/// A tile index paired with a side: "this tile may stand on that side".
pub type TileConnection = (usize, Direction);

/// The four per-side lists of connections of a tile or of a grid cell.
pub ghost struct Sides {
    pub north: Seq<TileConnection>,
    pub south: Seq<TileConnection>,
    pub east: Seq<TileConnection>,
    pub west: Seq<TileConnection>,
}

impl Sides {
    pub open spec fn get(self, d: Direction) -> Seq<TileConnection> {
        match d {
            Direction::North => self.north,
            Direction::South => self.south,
            Direction::East => self.east,
            Direction::West => self.west,
        }
    }

    /// The number of entries over all four sides, duplicates included.
    pub open spec fn total(self) -> nat {
        self.north.len() + self.south.len() + self.east.len() + self.west.len()
    }

    pub open spec fn empty() -> Sides {
        Sides { north: seq![], south: seq![], east: seq![], west: seq![] }
    }

    /// Sides that agree on every side are equal.
    pub proof fn lemma_eq_by_sides(self, other: Sides)
        requires
            forall|d: Direction| #[trigger] self.get(d) == other.get(d),
        ensures
            self == other,
    {
        assert(self.get(Direction::North) == other.get(Direction::North));
        assert(self.get(Direction::South) == other.get(Direction::South));
        assert(self.get(Direction::East) == other.get(Direction::East));
        assert(self.get(Direction::West) == other.get(Direction::West));
    }

    /// Sides with four empty lists are the empty sides.
    pub proof fn lemma_no_entries(self)
        requires
            self.total() == 0,
        ensures
            self == Sides::empty(),
    {
        assert(self.north =~= Seq::<TileConnection>::empty());
        assert(self.south =~= Seq::<TileConnection>::empty());
        assert(self.east =~= Seq::<TileConnection>::empty());
        assert(self.west =~= Seq::<TileConnection>::empty());
    }

    /// Every tile index named on any side is below `n`.
    pub open spec fn indices_below(self, n: nat) -> bool {
        forall|d: Direction, i: int|
            0 <= i < self.get(d).len() ==> (#[trigger] self.get(d)[i]).0 < n
    }
}

/// A tile: its index in the tile set and which tiles may stand beside it.
#[derive(Debug, Clone, Hash)]
pub struct TileData {
    pub image_index: usize,
    pub north_valid_tiles: Vec<TileConnection>,
    pub south_valid_tiles: Vec<TileConnection>,
    pub east_valid_tiles: Vec<TileConnection>,
    pub west_valid_tiles: Vec<TileConnection>,
}

/// What a tile is, as far as the rules go: its index and its four lists.
pub ghost struct TileModel {
    pub index: usize,
    pub sides: Sides,
}

impl View for TileData {
    type V = TileModel;

    open spec fn view(&self) -> TileModel {
        TileModel {
            index: self.image_index,
            sides: Sides {
                north: self.north_valid_tiles@,
                south: self.south_valid_tiles@,
                east: self.east_valid_tiles@,
                west: self.west_valid_tiles@,
            },
        }
    }
}

/// A copy of a list of connections, entry for entry.
pub fn copy_connections(v: &Vec<TileConnection>) -> (r: Vec<TileConnection>)
    ensures
        r@ == v@,
{
    let mut r: Vec<TileConnection> = Vec::with_capacity(v.len());
    let mut i: usize = 0;
    while i < v.len()
        invariant
            i <= v.len(),
            r@ == v@.subrange(0, i as int),
        decreases v.len() - i,
    {
        r.push(v[i]);
        i = i + 1;
        assert(r@ =~= v@.subrange(0, i as int));
    }
    assert(r@ =~= v@);
    r
}

/// Whether `v` holds `c`.
pub fn contains_connection(v: &Vec<TileConnection>, c: TileConnection) -> (r: bool)
    ensures
        r == v@.contains(c),
{
    let mut i: usize = 0;
    while i < v.len()
        invariant
            i <= v.len(),
            forall|j: int| 0 <= j < i ==> v@[j] != c,
        decreases v.len() - i,
    {
        if v[i].0 == c.0 && v[i].1 == c.1 {
            assert(v@[i as int] == c);
            return true;
        }
        i = i + 1;
    }
    false
}

/// Whether two lists of connections hold the same entries in the same order.
pub fn same_connections(a: &Vec<TileConnection>, b: &Vec<TileConnection>) -> (r: bool)
    ensures
        r == (a@ == b@),
{
    if a.len() != b.len() {
        return false;
    }
    let mut i: usize = 0;
    while i < a.len()
        invariant
            i <= a.len(),
            a.len() == b.len(),
            forall|j: int| 0 <= j < i ==> a@[j] == b@[j],
        decreases a.len() - i,
    {
        if a[i].0 != b[i].0 || a[i].1 != b[i].1 {
            return false;
        }
        i = i + 1;
    }
    assert(a@ =~= b@);
    true
}

impl TileData {
    /// A tile with the given index and no connections on any side.
    pub fn new(image_index: usize) -> (r: TileData)
        ensures
            r@ == (TileModel { index: image_index, sides: Sides::empty() }),
    {
        let r = TileData {
            image_index,
            north_valid_tiles: Vec::new(),
            south_valid_tiles: Vec::new(),
            east_valid_tiles: Vec::new(),
            west_valid_tiles: Vec::new(),
        };
        proof {
            r@.sides.lemma_no_entries();
        }
        r
    }

    /// The number of connections over all four sides.
    pub fn total_connections(&self) -> (r: usize)
        requires
            self@.sides.total() <= usize::MAX,
        ensures
            r == self@.sides.total(),
    {
        self.north_valid_tiles.len() + self.south_valid_tiles.len() + self.east_valid_tiles.len()
            + self.west_valid_tiles.len()
    }

    /// The connection list of one side.
    pub fn side(&self, d: Direction) -> (r: &Vec<TileConnection>)
        ensures
            r@ == self@.sides.get(d),
    {
        match d {
            Direction::North => &self.north_valid_tiles,
            Direction::South => &self.south_valid_tiles,
            Direction::East => &self.east_valid_tiles,
            Direction::West => &self.west_valid_tiles,
        }
    }

    /// Adds `conn` to the list of side `d` unless that list already holds it.
    /// Returns whether it was added.
    pub fn add_connection(&mut self, d: Direction, conn: TileConnection) -> (r: bool)
        ensures
            r == !old(self)@.sides.get(d).contains(conn),
            final(self)@.index == old(self)@.index,
            r ==> final(self)@.sides.get(d) == old(self)@.sides.get(d).push(conn),
            !r ==> final(self)@.sides.get(d) == old(self)@.sides.get(d),
            forall|e: Direction| e != d ==> #[trigger] final(self)@.sides.get(e) == old(self)@.sides.get(e),
    {
        if contains_connection(self.side(d), conn) {
            return false;
        }
        match d {
            Direction::North => self.north_valid_tiles.push(conn),
            Direction::South => self.south_valid_tiles.push(conn),
            Direction::East => self.east_valid_tiles.push(conn),
            Direction::West => self.west_valid_tiles.push(conn),
        }
        true
    }

    /// Removes the entry at position `i` of the list of side `d`.
    pub fn remove_connection(&mut self, d: Direction, i: usize)
        requires
            i < old(self)@.sides.get(d).len(),
        ensures
            final(self)@.index == old(self)@.index,
            final(self)@.sides.get(d) == old(self)@.sides.get(d).remove(i as int),
            forall|e: Direction| e != d ==> #[trigger] final(self)@.sides.get(e) == old(self)@.sides.get(e),
    {
        match d {
            Direction::North => {
                self.north_valid_tiles.remove(i);
            },
            Direction::South => {
                self.south_valid_tiles.remove(i);
            },
            Direction::East => {
                self.east_valid_tiles.remove(i);
            },
            Direction::West => {
                self.west_valid_tiles.remove(i);
            },
        }
    }

    /// A copy of this tile with the same index and lists.
    pub fn duplicate(&self) -> (r: TileData)
        ensures
            r@ == self@,
    {
        TileData {
            image_index: self.image_index,
            north_valid_tiles: copy_connections(&self.north_valid_tiles),
            south_valid_tiles: copy_connections(&self.south_valid_tiles),
            east_valid_tiles: copy_connections(&self.east_valid_tiles),
            west_valid_tiles: copy_connections(&self.west_valid_tiles),
        }
    }

    /// Whether two tiles have the same index and the same four lists.
    pub fn same_as(&self, other: &TileData) -> (r: bool)
        ensures
            r == (self@ == other@),
    {
        self.image_index == other.image_index
            && same_connections(&self.north_valid_tiles, &other.north_valid_tiles)
            && same_connections(&self.south_valid_tiles, &other.south_valid_tiles)
            && same_connections(&self.east_valid_tiles, &other.east_valid_tiles)
            && same_connections(&self.west_valid_tiles, &other.west_valid_tiles)
    }
}

impl PartialEq for TileData {
    fn eq(&self, other: &TileData) -> (r: bool) {
        self.same_as(other)
    }
}

impl vstd::std_specs::cmp::PartialEqSpecImpl for TileData {
    open spec fn obeys_eq_spec() -> bool {
        true
    }

    open spec fn eq_spec(&self, other: &TileData) -> bool {
        self@ == other@
    }
}

impl Eq for TileData {
}

} // verus!
