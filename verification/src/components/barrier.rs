use vstd::prelude::*;

verus! {

/// Marks an entity that nothing can move onto.
#[derive(Debug, Default, Copy, Clone, PartialEq, Eq, Structural)]
pub struct Barrier;

impl View for Barrier {
    type V = Barrier;

    open spec fn view(&self) -> Barrier {
        *self
    }
}

} // verus!
