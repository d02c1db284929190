use vstd::prelude::*;
use vstd::std_specs::convert::FromSpecImpl;
use crate::vector::Vector;

verus! {

/// The cell an entity stands on. An entity is on the map exactly while it has one.
#[derive(Debug, Copy, Clone, Hash, Eq, PartialEq, Structural)]
pub struct Position {
    pub vector: Vector,
}

impl Position {
    /// The position at `vector`.
    pub fn new(vector: Vector) -> (position: Position)
        ensures
            position.vector == vector,
    {
        Self { vector }
    }
}

impl View for Position {
    type V = Position;

    open spec fn view(&self) -> Position {
        *self
    }
}

impl From<Vector> for Position {
    fn from(vector: Vector) -> (position: Position) {
        Self { vector }
    }
}

impl FromSpecImpl<Vector> for Position {
    open spec fn obeys_from_spec() -> bool {
        true
    }

    open spec fn from_spec(vector: Vector) -> Position {
        Position { vector }
    }
}

impl From<Position> for Vector {
    fn from(position: Position) -> (vector: Vector) {
        position.vector
    }
}

impl FromSpecImpl<Position> for Vector {
    open spec fn obeys_from_spec() -> bool {
        true
    }

    open spec fn from_spec(position: Position) -> Vector {
        position.vector
    }
}

} // verus!
