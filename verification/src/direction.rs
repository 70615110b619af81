//! The eight movement directions of the 8-connected grid.
//!
//! The vertical axis grows southward: north is `(0, -1)`.

use vstd::prelude::*;
use crate::distance::Distance;

verus! {

/// One of the eight grid directions.
#[derive(Clone, Copy, PartialEq, Eq, Structural, Debug)]
pub enum Dir {
    North,
    NorthEast,
    East,
    SouthEast,
    South,
    SouthWest,
    West,
    NorthWest,
}

/// Horizontal component of a direction's offset.
pub open spec fn dir_dx(d: Dir) -> int {
    match d {
        Dir::North => 0,
        Dir::NorthEast => 1,
        Dir::East => 1,
        Dir::SouthEast => 1,
        Dir::South => 0,
        Dir::SouthWest => -1,
        Dir::West => -1,
        Dir::NorthWest => -1,
    }
}

/// Vertical component of a direction's offset.
pub open spec fn dir_dy(d: Dir) -> int {
    match d {
        Dir::North => -1,
        Dir::NorthEast => -1,
        Dir::East => 0,
        Dir::SouthEast => 1,
        Dir::South => 1,
        Dir::SouthWest => 1,
        Dir::West => 0,
        Dir::NorthWest => -1,
    }
}

/// Whether the direction moves along both axes.
pub open spec fn is_diagonal(d: Dir) -> bool {
    match d {
        Dir::North | Dir::East | Dir::South | Dir::West => false,
        _ => true,
    }
}

/// The direction pointing the opposite way: its offset is the negation.
pub open spec fn opposite(d: Dir) -> Dir {
    match d {
        Dir::North => Dir::South,
        Dir::NorthEast => Dir::SouthWest,
        Dir::East => Dir::West,
        Dir::SouthEast => Dir::NorthWest,
        Dir::South => Dir::North,
        Dir::SouthWest => Dir::NorthEast,
        Dir::West => Dir::East,
        Dir::NorthWest => Dir::SouthEast,
    }
}

/// Length of one step in the direction: 1 for a cardinal move, `sqrt(2)`
/// for a diagonal one.
pub open spec fn step_dist(d: Dir) -> Distance {
    if is_diagonal(d) {
        Distance { units: 0, diagonals: 1 }
    } else {
        Distance { units: 1, diagonals: 0 }
    }
}

impl Dir {
    /// The cell offset of one step in this direction.
    pub fn offset(&self) -> (r: (isize, isize))
        ensures
            r.0 == dir_dx(*self),
            r.1 == dir_dy(*self),
    {
        match self {
            Dir::North => (0, -1),
            Dir::East => (1, 0),
            Dir::South => (0, 1),
            Dir::West => (-1, 0),
            Dir::NorthEast => (1, -1),
            Dir::SouthEast => (1, 1),
            Dir::SouthWest => (-1, 1),
            Dir::NorthWest => (-1, -1),
        }
    }

    /// The exact length of one step in this direction.
    pub fn distance(&self) -> (r: Distance)
        ensures
            r == step_dist(*self),
    {
        match self {
            Dir::North | Dir::East | Dir::South | Dir::West => Distance {
                units: 1,
                diagonals: 0,
            },
            _ => Distance { units: 0, diagonals: 1 },
        }
    }
}

} // verus!
