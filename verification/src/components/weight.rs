use vstd::prelude::*;

verus! {

/// What an entity weighs. Only what has a weight can be picked up.
#[derive(Debug, Copy, Clone, PartialEq, Eq, Structural)]
pub struct Weight {
    pub grams: u32,
}

impl Default for Weight {
    fn default() -> (weight: Weight)
        ensures
            weight.grams == 1,
    {
        Self { grams: 1 }
    }
}

impl View for Weight {
    type V = Weight;

    open spec fn view(&self) -> Weight {
        *self
    }
}

} // verus!
