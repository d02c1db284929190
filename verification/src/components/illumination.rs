use vstd::prelude::*;
use crate::util::copy_of;
use crate::components::light::Light;

verus! {

/// The light that falls on an entity in the current tick: each source with its distance, in
/// the order in which the sources were found.
#[derive(Debug)]
pub struct Illumination {
    pub sources: Vec<(Light, u32)>,
}

impl View for Illumination {
    type V = Seq<(Light, u32)>;

    open spec fn view(&self) -> Seq<(Light, u32)> {
        self.sources@
    }
}

impl Default for Illumination {
    fn default() -> (illumination: Illumination)
        ensures
            illumination@ == Seq::<(Light, u32)>::empty(),
    {
        Self { sources: Vec::new() }
    }
}

impl Clone for Illumination {
    fn clone(&self) -> (copy: Illumination)
        ensures
            copy@ == self@,
    {
        Self { sources: copy_of(&self.sources) }
    }
}

} // verus!
