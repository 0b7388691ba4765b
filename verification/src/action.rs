use vstd::prelude::*;
use crate::coord::Coord;

verus! {

/// A direction in which the agent can move by one cell.
#[derive(Clone, Copy, PartialEq, Eq, Structural, Debug, Hash)]
pub enum Direction {
    Up,
    Down,
    Left,
    Right,
}

impl Direction {
    /// The four directions in the order of `all`.
    pub open spec fn all_spec() -> Seq<Direction> {
        seq![Direction::Up, Direction::Down, Direction::Left, Direction::Right]
    }

    /// The unit offset of this direction; `Up` is towards row 0.
    pub open spec fn delta(self) -> Coord {
        match self {
            Direction::Up => Coord { x: 0, y: -1i32 },
            Direction::Down => Coord { x: 0, y: 1 },
            Direction::Left => Coord { x: -1i32, y: 0 },
            Direction::Right => Coord { x: 1, y: 0 },
        }
    }

    /// The four directions, in the order in which neighbours are listed and
    /// looked at.
    pub fn all() -> (dirs: [Direction; 4])
        ensures
            dirs@ == Self::all_spec(),
    {
        [Self::Up, Self::Down, Self::Left, Self::Right]
    }

    /// The offset of one step in this direction.
    pub fn to_ivec2(&self) -> (v: Coord)
        ensures
            v == self.delta(),
    {
        match self {
            Self::Up => Coord::new(0, -1),
            Self::Down => Coord::new(0, 1),
            Self::Left => Coord::new(-1, 0),
            Self::Right => Coord::new(1, 0),
        }
    }
}

/// What the agent does in one tick.
#[derive(Clone, Copy, PartialEq, Eq, Structural, Debug)]
pub enum Action {
    Move { direction: Direction },
    Wait,
}

} // verus!
