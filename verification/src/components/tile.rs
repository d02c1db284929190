use vstd::prelude::*;

verus! {

/// Marks an entity that is the ground of its cell.
#[derive(Debug, Default, Copy, Clone, PartialEq, Eq, Structural)]
pub struct Tile;

impl View for Tile {
    type V = Tile;

    open spec fn view(&self) -> Tile {
        *self
    }
}

} // verus!
