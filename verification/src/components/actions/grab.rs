use vstd::prelude::*;
use legion::Entity;

verus! {

/// The wish to pick `entity` up, good for one tick.
#[derive(Debug, Copy, Clone)]
pub struct Grab {
    pub entity: Entity,
}

impl View for Grab {
    type V = Grab;

    open spec fn view(&self) -> Grab {
        *self
    }
}

} // verus!
