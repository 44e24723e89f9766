use vstd::prelude::*;

use crate::geometry::Point;

verus! {

/// One of the four cardinal directions; north is +y and east is +x.
#[derive(Clone, Copy, PartialEq, Eq, Structural, Debug)]
pub enum Direction {
    North,
    South,
    East,
    West,
}

pub open spec fn unit_x(d: Direction) -> int {
    match d {
        Direction::East => 1,
        Direction::West => -1,
        _ => 0,
    }
}

pub open spec fn unit_y(d: Direction) -> int {
    match d {
        Direction::North => 1,
        Direction::South => -1,
        _ => 0,
    }
}

pub open spec fn opposite_of(d: Direction) -> Direction {
    match d {
        Direction::North => Direction::South,
        Direction::South => Direction::North,
        Direction::East => Direction::West,
        Direction::West => Direction::East,
    }
}

pub open spec fn all_directions() -> Seq<Direction> {
    seq![Direction::North, Direction::South, Direction::East, Direction::West]
}

impl Direction {
    /// The unit vector pointing this way.
    pub fn to_vec2(&self) -> (r: Point)
        ensures
            r.x == unit_x(*self),
            r.y == unit_y(*self),
    {
        match self {
            Direction::North => Point { x: 0, y: 1 },
            Direction::South => Point { x: 0, y: -1 },
            Direction::East => Point { x: 1, y: 0 },
            Direction::West => Point { x: -1, y: 0 },
        }
    }

    pub fn opposite(&self) -> (r: Direction)
        ensures
            r == opposite_of(*self),
    {
        match self {
            Direction::North => Direction::South,
            Direction::South => Direction::North,
            Direction::East => Direction::West,
            Direction::West => Direction::East,
        }
    }

    /// The four directions, north, south, east, west.
    pub fn all() -> (r: Vec<Direction>)
        ensures
            r@ == all_directions(),
    {
        let r = vec![Direction::North, Direction::South, Direction::East, Direction::West];
        assert(r@ =~= all_directions());
        r
    }
}

/// Going one way and then the opposite way returns to the start, and the
/// opposite of the opposite is the direction itself.
pub proof fn lemma_opposite_cancels(d: Direction)
    ensures
        unit_x(d) + unit_x(opposite_of(d)) == 0,
        unit_y(d) + unit_y(opposite_of(d)) == 0,
        opposite_of(opposite_of(d)) == d,
        opposite_of(d) != d,
{
}

} // verus!
