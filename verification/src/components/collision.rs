use vstd::prelude::*;

verus! {

/// Marks an entity that takes part in collisions.
#[derive(Debug, Default, Copy, Clone, PartialEq, Eq, Structural)]
pub struct Collision;

impl View for Collision {
    type V = Collision;

    open spec fn view(&self) -> Collision {
        *self
    }
}

} // verus!
