use vstd::prelude::*;
use crate::components::direction::Direction;

verus! {

/// A lasting motion: every tick it turns into one step of `magnitude` cells along `direction`.
#[derive(Debug, Copy, Clone, PartialEq, Eq, Structural)]
pub struct Velocity {
    pub direction: Direction,
    pub magnitude: i32,
}

impl View for Velocity {
    type V = Velocity;

    open spec fn view(&self) -> Velocity {
        *self
    }
}

} // verus!
