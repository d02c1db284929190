use vstd::prelude::*;
use vstd::std_specs::convert::FromSpecImpl;
use crate::random::{fresh_generator, roll_range};
use crate::vector::Vector;

verus! {

/// The eight directions of the grid. North is towards smaller `.1`.
#[derive(Debug, Copy, Clone, PartialEq, Eq, Structural)]
pub enum Direction {
    North,
    East,
    South,
    West,
    NorthWest,
    NorthEast,
    SouthWest,
    SouthEast,
}

/// The eight directions in the order in which `Direction::all` lists them.
pub open spec fn all_directions() -> Seq<Direction> {
    seq![
        Direction::North,
        Direction::East,
        Direction::South,
        Direction::West,
        Direction::NorthWest,
        Direction::NorthEast,
        Direction::SouthEast,
        Direction::SouthWest,
    ]
}

impl Direction {
    /// The step of one cell that the direction stands for.
    pub open spec fn unit_vector(self) -> Vector {
        match self {
            Direction::North => Vector(0, -1i32),
            Direction::East => Vector(1, 0),
            Direction::South => Vector(0, 1),
            Direction::West => Vector(-1i32, 0),
            Direction::NorthWest => Vector(-1i32, -1i32),
            Direction::NorthEast => Vector(1, -1i32),
            Direction::SouthWest => Vector(1, 1),
            Direction::SouthEast => Vector(-1i32, 1),
        }
    }

    /// The direction that points the other way.
    pub open spec fn reversed(self) -> Direction {
        match self {
            Direction::North => Direction::South,
            Direction::East => Direction::West,
            Direction::South => Direction::North,
            Direction::West => Direction::East,
            Direction::NorthWest => Direction::SouthEast,
            Direction::NorthEast => Direction::SouthWest,
            Direction::SouthWest => Direction::NorthEast,
            Direction::SouthEast => Direction::NorthWest,
        }
    }

    /// The step of one cell that the direction stands for.
    pub fn as_unit_vector(&self) -> (step: Vector)
        ensures
            step == self.unit_vector(),
    {
        match self {
            Direction::North => Vector(0, -1),
            Direction::East => Vector(1, 0),
            Direction::South => Vector(0, 1),
            Direction::West => Vector(-1, 0),
            Direction::NorthWest => Vector(-1, -1),
            Direction::NorthEast => Vector(1, -1),
            Direction::SouthWest => Vector(1, 1),
            Direction::SouthEast => Vector(-1, 1),
        }
    }

    /// The direction that points the other way.
    pub fn opposite(&self) -> (other: Direction)
        ensures
            other == self.reversed(),
    {
        match self {
            Direction::North => Direction::South,
            Direction::East => Direction::West,
            Direction::South => Direction::North,
            Direction::West => Direction::East,
            Direction::NorthWest => Direction::SouthEast,
            Direction::NorthEast => Direction::SouthWest,
            Direction::SouthWest => Direction::NorthEast,
            Direction::SouthEast => Direction::NorthWest,
        }
    }

    /// The direction that the number `roll` stands for: its place in `Direction::all`.
    pub fn from_roll(roll: i32) -> (direction: Option<Direction>)
        ensures
            direction == (if 0 <= roll < 8 {
                Some(all_directions()[roll as int])
            } else {
                None
            }),
    {
        match roll {
            0 => Some(Direction::North),
            1 => Some(Direction::East),
            2 => Some(Direction::South),
            3 => Some(Direction::West),
            4 => Some(Direction::NorthWest),
            5 => Some(Direction::NorthEast),
            6 => Some(Direction::SouthEast),
            7 => Some(Direction::SouthWest),
            _ => None,
        }
    }

    /// `direction` where one is given, else one of the eight by chance. A number is drawn in
    /// either case. `magnitude` is taken for the sake of callers that hold one; it decides
    /// nothing.
    pub fn random(direction: Option<Direction>, magnitude: Option<u32>) -> (chosen: Direction)
        ensures
            direction matches Some(given) ==> chosen == given,
    {
        let mut rng = fresh_generator();
        let roll: i32 = roll_range(&mut rng, 0, 8);
        match direction {
            Some(given) => given,
            None => match Direction::from_roll(roll) {
                Some(rolled) => rolled,
                None => Direction::North,
            },
        }
    }

    /// The eight directions: the four main ones first, then the diagonals.
    pub fn all() -> (directions: [Direction; 8])
        ensures
            directions@ == all_directions(),
    {
        let directions = [
            Direction::North,
            Direction::East,
            Direction::South,
            Direction::West,
            Direction::NorthWest,
            Direction::NorthEast,
            Direction::SouthEast,
            Direction::SouthWest,
        ];
        assert(directions@ =~= all_directions());
        directions
    }
}

impl From<Direction> for Vector {
    fn from(direction: Direction) -> (step: Vector) {
        direction.as_unit_vector()
    }
}

impl FromSpecImpl<Direction> for Vector {
    open spec fn obeys_from_spec() -> bool {
        true
    }

    open spec fn from_spec(direction: Direction) -> Vector {
        direction.unit_vector()
    }
}

/// Turning round twice gives the direction one started with.
pub proof fn lemma_opposite_twice(direction: Direction)
    ensures
        direction.reversed().reversed() == direction,
{
}

/// Each of the eight directions is listed by `Direction::all`, and is listed once.
pub proof fn lemma_all_directions_complete(direction: Direction)
    ensures
        all_directions().len() == 8,
        all_directions().contains(direction),
        all_directions().no_duplicates(),
{
    let all = all_directions();
    let index: int = match direction {
        Direction::North => 0,
        Direction::East => 1,
        Direction::South => 2,
        Direction::West => 3,
        Direction::NorthWest => 4,
        Direction::NorthEast => 5,
        Direction::SouthEast => 6,
        Direction::SouthWest => 7,
    };
    assert(all[index] == direction);
}

} // verus!
