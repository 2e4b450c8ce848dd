//! Compass directions and the border code of a tile.

use vstd::prelude::*;
use vstd::string::StringSliceAdditionalSpecFns;

verus! {

/// The eight compass directions, clockwise from north-west.
#[derive(Debug, Clone, Copy, PartialEq, Eq, Structural)]
pub enum Direction {
    NorthWest,
    North,
    NorthEast,
    East,
    SouthEast,
    South,
    SouthWest,
    West,
}

impl Direction {
    /// The eight directions, clockwise from north-west.
    pub const ALL_DIRECTIONS: [Direction; 8] = [
        Direction::NorthWest,
        Direction::North,
        Direction::NorthEast,
        Direction::East,
        Direction::SouthEast,
        Direction::South,
        Direction::SouthWest,
        Direction::West,
    ];

    /// Position of the direction on the compass rose, clockwise from north-west.
    pub open spec fn index(self) -> int {
        match self {
            Direction::NorthWest => 0,
            Direction::North => 1,
            Direction::NorthEast => 2,
            Direction::East => 3,
            Direction::SouthEast => 4,
            Direction::South => 5,
            Direction::SouthWest => 6,
            Direction::West => 7,
        }
    }

    /// The direction at a position on the compass rose.
    pub open spec fn at(i: int) -> Direction {
        if i == 0 {
            Direction::NorthWest
        } else if i == 1 {
            Direction::North
        } else if i == 2 {
            Direction::NorthEast
        } else if i == 3 {
            Direction::East
        } else if i == 4 {
            Direction::SouthEast
        } else if i == 5 {
            Direction::South
        } else if i == 6 {
            Direction::SouthWest
        } else {
            Direction::West
        }
    }

    /// The direction pointing the other way: four places further round the rose.
    pub open spec fn opposite(self) -> Direction {
        Direction::at((self.index() + 4) % 8)
    }

    pub fn to_index(&self) -> (i: usize)
        ensures
            i == self.index(),
    {
        match *self {
            Direction::NorthWest => 0,
            Direction::North => 1,
            Direction::NorthEast => 2,
            Direction::East => 3,
            Direction::SouthEast => 4,
            Direction::South => 5,
            Direction::SouthWest => 6,
            Direction::West => 7,
        }
    }

    pub fn to_opposite_index(&self) -> (i: usize)
        ensures
            i == (self.index() + 4) % 8,
            i == self.opposite().index(),
    {
        match *self {
            Direction::NorthWest => 4,
            Direction::North => 5,
            Direction::NorthEast => 6,
            Direction::East => 7,
            Direction::SouthEast => 0,
            Direction::South => 1,
            Direction::SouthWest => 2,
            Direction::West => 3,
        }
    }

    /// The direction at position `i` of the compass rose.
    pub fn from_index(i: usize) -> (d: Direction)
        requires
            i < 8,
        ensures
            d == Direction::at(i as int),
            d.index() == i,
    {
        if i == 0 {
            Direction::NorthWest
        } else if i == 1 {
            Direction::North
        } else if i == 2 {
            Direction::NorthEast
        } else if i == 3 {
            Direction::East
        } else if i == 4 {
            Direction::SouthEast
        } else if i == 5 {
            Direction::South
        } else if i == 6 {
            Direction::SouthWest
        } else {
            Direction::West
        }
    }

    /// Turning round twice gives the direction one started with.
    pub proof fn lemma_opposite_involution(self)
        ensures
            self.opposite().opposite() == self,
            self.opposite() != self,
            0 <= self.index() < 8,
            Direction::at(self.index()) == self,
    {
    }
}

/// Why a border literal was turned down.
#[derive(Debug, Clone, Copy, PartialEq, Eq, Structural)]
pub enum BoundaryError {
    /// The literal does not have eleven bytes; the payload is its length.
    WrongLength(usize),
    /// A border position holds something other than `'0'` or `'1'`.
    InvalidCharacter(char),
}

/// The border code of one tile: for each direction, whether the tile connects
/// across that edge or corner.
#[derive(Debug, Clone, Copy)]
pub struct Boundary {
    boundaries: [bool; 8],
}

impl Default for Boundary {
    /// The boundary that connects in no direction.
    fn default() -> (b: Boundary)
        ensures
            forall|d: Direction| !b@[#[trigger] d.index()],
    {
        Boundary { boundaries: [false; 8] }
    }
}

impl View for Boundary {
    type V = Seq<bool>;

    closed spec fn view(&self) -> Seq<bool> {
        self.boundaries@
    }
}

/// Where a direction's flag stands in the eleven bytes of a border literal:
/// three rows of three, separated by one byte each, the centre unused.
pub open spec fn literal_position(d: Direction) -> int {
    match d {
        Direction::NorthWest => 0,
        Direction::North => 1,
        Direction::NorthEast => 2,
        Direction::West => 4,
        Direction::East => 6,
        Direction::SouthWest => 8,
        Direction::South => 9,
        Direction::SouthEast => 10,
    }
}

/// Whether byte `p` of a border literal carries a direction's flag.
pub open spec fn is_border_position(p: int) -> bool {
    0 <= p < 11 && p != 3 && p != 5 && p != 7
}

/// Whether a byte is `'0'` or `'1'`.
pub open spec fn is_flag(b: u8) -> bool {
    b == 0x30 || b == 0x31
}

/// What reading the border literal `bytes` comes to.
///
/// A literal of eleven bytes whose eight border positions each hold `'0'` or
/// `'1'` gives the boundary that has a flag set exactly where the literal has
/// `'1'`.  Any other length is reported with the length, and otherwise the
/// first border position that holds anything else is reported with its byte.
pub open spec fn literal_outcome(bytes: Seq<u8>, r: Result<Boundary, BoundaryError>) -> bool {
    match r {
        Ok(b) => {
            &&& bytes.len() == 11
            &&& forall|p: int| is_border_position(p) ==> is_flag(#[trigger] bytes[p])
            &&& forall|d: Direction| b@[#[trigger] d.index()] == (bytes[literal_position(d)]
                == 0x31)
        },
        Err(BoundaryError::WrongLength(n)) => {
            &&& bytes.len() != 11
            &&& n == bytes.len()
        },
        Err(BoundaryError::InvalidCharacter(c)) => {
            &&& bytes.len() == 11
            &&& exists|p: int|
                {
                    &&& is_border_position(p)
                    &&& !is_flag(#[trigger] bytes[p])
                    &&& c == bytes[p] as char
                    &&& forall|q: int|
                        0 <= q < p && is_border_position(q) ==> is_flag(#[trigger] bytes[q])
                }
        },
    }
}

impl Boundary {
    /// Whether `self` and `other` agree across the edge that `self` has in
    /// `direction` and `other` has on the opposite side.
    pub open spec fn spec_fits(self, other: Boundary, direction: Direction) -> bool {
        self@[direction.index()] == other@[direction.opposite().index()]
    }

    /// A boundary has a flag for each of the eight directions.
    pub proof fn lemma_len(self)
        ensures
            self@.len() == 8,
    {
    }

    /// If one tile fits another in a direction, the other fits the first in
    /// the opposite direction.
    pub proof fn lemma_fits_symmetric(self, other: Boundary, direction: Direction)
        ensures
            self.spec_fits(other, direction) == other.spec_fits(self, direction.opposite()),
    {
        direction.lemma_opposite_involution();
    }

    pub fn from_str(borders: &str) -> (r: Result<Boundary, BoundaryError>)
        ensures
            literal_outcome(borders.spec_bytes(), r),
    {
        let bytes = borders.as_bytes();
        if bytes.len() != 11 {
            return Err(BoundaryError::WrongLength(bytes.len()));
        }
        let mut result = Boundary { boundaries: [false; 8] };
        let mut p: usize = 0;
        while p < 11
            invariant
                p <= 11,
                bytes@ == borders.spec_bytes(),
                bytes@.len() == 11,
                forall|q: int| 0 <= q < p && is_border_position(q)
                    ==> is_flag(#[trigger] bytes@[q]),
                forall|d: Direction|
                    result@[#[trigger] d.index()] == (literal_position(d) < p
                        && bytes@[literal_position(
                        d,
                    )] == 0x31),
            decreases 11 - p,
        {
            if p != 3 && p != 5 && p != 7 {
                let c = bytes[p];
                let slot: usize = if p < 3 {
                    p
                } else if p == 4 {
                    7
                } else if p == 6 {
                    3
                } else if p == 8 {
                    6
                } else if p == 9 {
                    5
                } else {
                    4
                };
                if c == 0x31 {
                    result.boundaries[slot] = true;
                } else if c != 0x30 {
                    return Err(BoundaryError::InvalidCharacter(c as char));
                }
            }
            p += 1;
        }
        Ok(result)
    }

    /// Whether `other` may stand next to `self` on the side `direction`.
    pub fn fits(&self, other: &Boundary, direction: Direction) -> (r: bool)
        ensures
            r == self.spec_fits(*other, direction),
    {
        self.boundaries[direction.to_index()] == other.boundaries[direction.to_opposite_index()]
    }

    /// Whether the tile connects across its `direction` side.
    pub fn connects(&self, direction: Direction) -> (r: bool)
        ensures
            r == self@[direction.index()],
    {
        self.boundaries[direction.to_index()]
    }
}

} // verus!
