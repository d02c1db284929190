use vstd::prelude::*;
use crate::components::direction::Direction;

verus! {

/// The wish to throw what is held towards `direction`, good for one tick.
#[derive(Debug, Copy, Clone, PartialEq, Eq, Structural)]
pub struct Throw {
    pub direction: Direction,
}

impl View for Throw {
    type V = Throw;

    open spec fn view(&self) -> Throw {
        *self
    }
}

} // verus!
