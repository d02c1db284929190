use vstd::prelude::*;

verus! {

/// Marks the entity that the view is centred on.
#[derive(Debug, Default, Copy, Clone, PartialEq, Eq, Structural)]
pub struct CameraFocus;

impl View for CameraFocus {
    type V = CameraFocus;

    open spec fn view(&self) -> CameraFocus {
        *self
    }
}

} // verus!
