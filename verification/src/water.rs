use vstd::prelude::*;

verus! {

/// A side of the map that water can come from.
#[derive(Clone, Copy, Debug, PartialEq, Eq, Structural)]
pub enum Direction {
    North,
    South,
    East,
    West,
}

/// A kind of water to generate, and the side it comes from.
#[derive(Clone, Copy, Debug, PartialEq, Eq, Structural)]
pub enum WaterGenerationRequest {
    Coast { dir: Direction },
    River { dir: Direction },
    RiverToCoast { dir: Direction },
}

/// The unit step toward side `d` as `(x, y)`, with `y` growing southward.
pub open spec fn unit_step(d: Direction) -> (int, int) {
    match d {
        Direction::North => (0, -1),
        Direction::South => (0, 1),
        Direction::East => (1, 0),
        Direction::West => (-1, 0),
    }
}

impl Direction {
    /// The unit step toward this side as `(x, y)`, with `y` growing southward.
    pub fn as_vec(&self) -> (r: (i32, i32))
        ensures
            r.0 == unit_step(*self).0,
            r.1 == unit_step(*self).1,
    {
        match *self {
            Direction::North => (0, -1),
            Direction::South => (0, 1),
            Direction::East => (1, 0),
            Direction::West => (-1, 0),
        }
    }
}

} // verus!
