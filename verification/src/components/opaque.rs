use vstd::prelude::*;

verus! {

/// Marks an entity that nothing can see through.
#[derive(Debug, Default, Copy, Clone, PartialEq, Eq, Structural)]
pub struct Opaque;

impl View for Opaque {
    type V = Opaque;

    open spec fn view(&self) -> Opaque {
        *self
    }
}

} // verus!
