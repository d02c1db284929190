use vstd::prelude::*;
use crate::util::copy_of;
use crate::components::glyph::Colour;

verus! {

/// Something that happens to whoever touches or consumes an item.
#[derive(Copy, Clone, Debug, PartialEq, Eq, Structural)]
pub enum Effect {
    Stain { colour: Colour },
}

/// The effects of an item, by what sets them off.
#[derive(Debug)]
pub struct Effects {
    pub touch: Vec<Effect>,
    pub consume: Vec<Effect>,
}

/// An `Effects` as two sequences.
pub struct EffectsView {
    pub touch: Seq<Effect>,
    pub consume: Seq<Effect>,
}

impl View for Effects {
    type V = EffectsView;

    open spec fn view(&self) -> EffectsView {
        EffectsView { touch: self.touch@, consume: self.consume@ }
    }
}

impl Default for Effects {
    fn default() -> (effects: Effects)
        ensures
            effects@ == (EffectsView { touch: Seq::<Effect>::empty(), consume: Seq::<Effect>::empty() }),
    {
        Self { touch: Vec::new(), consume: Vec::new() }
    }
}

impl Clone for Effects {
    fn clone(&self) -> (copy: Effects)
        ensures
            copy@ == self@,
    {
        Self { touch: copy_of(&self.touch), consume: copy_of(&self.consume) }
    }
}

} // verus!
