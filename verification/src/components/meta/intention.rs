use vstd::prelude::*;

verus! {

/// What a directional command means for an actor.
#[derive(Debug, Copy, Clone, PartialEq, Eq, Structural)]
pub enum Intent {
    Walk,
    Grab,
    Throw,
}

/// The mode an actor is in.
#[derive(Debug, Copy, Clone, PartialEq, Eq, Structural)]
pub struct Intention {
    pub intent: Intent,
}

impl View for Intention {
    type V = Intention;

    open spec fn view(&self) -> Intention {
        *self
    }
}

} // verus!
