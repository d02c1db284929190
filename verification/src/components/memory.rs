use vstd::prelude::*;
use crate::util::copy_of;
use crate::vector::Vector;

verus! {

/// The cells an observer has seen so far, each once, in the order of first sight.
#[derive(Debug)]
pub struct Memory {
    pub spatial: Vec<Vector>,
}

impl View for Memory {
    type V = Seq<Vector>;

    open spec fn view(&self) -> Seq<Vector> {
        self.spatial@
    }
}

impl Default for Memory {
    fn default() -> (memory: Memory)
        ensures
            memory@ == Seq::<Vector>::empty(),
    {
        Self { spatial: Vec::new() }
    }
}

impl Clone for Memory {
    fn clone(&self) -> (copy: Memory)
        ensures
            copy@ == self@,
    {
        Self { spatial: copy_of(&self.spatial) }
    }
}

} // verus!
