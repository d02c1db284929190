use vstd::prelude::*;
use crate::components::glyph::Colour;

verus! {

/// A source of light. The intensity is kept as the 32 bits of a binary fraction, which this
/// library hands on and never reads; whoever blends colours decodes it.
#[derive(Debug, Default, Copy, Clone, PartialEq, Eq, Structural)]
pub struct Light {
    pub colour: Colour,
    pub intensity_bits: u32,
    pub radius: i32,
}

impl View for Light {
    type V = Light;

    open spec fn view(&self) -> Light {
        *self
    }
}

} // verus!
