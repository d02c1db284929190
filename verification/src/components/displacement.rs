use vstd::prelude::*;
use crate::util::copy_of;
use vstd::std_specs::convert::FromSpecImpl;
use crate::components::direction::Direction;
use crate::vector::Vector;

verus! {

/// The steps an entity has yet to take, the next one first.
#[derive(Debug)]
pub struct Displacement {
    pub path: Vec<Vector>,
}

impl View for Displacement {
    type V = Seq<Vector>;

    open spec fn view(&self) -> Seq<Vector> {
        self.path@
    }
}

impl From<Vec<Vector>> for Displacement {
    fn from(path: Vec<Vector>) -> (displacement: Displacement) {
        Self { path }
    }
}

impl FromSpecImpl<Vec<Vector>> for Displacement {
    open spec fn obeys_from_spec() -> bool {
        true
    }

    open spec fn from_spec(path: Vec<Vector>) -> Displacement {
        Displacement { path }
    }
}

impl Displacement {
    /// One step of one cell in `direction`.
    pub fn from_direction(direction: Direction) -> (displacement: Displacement)
        ensures
            displacement@ == seq![direction.unit_vector()],
    {
        let mut path: Vec<Vector> = Vec::new();
        path.push(direction.as_unit_vector());
        Self { path }
    }
}

impl Clone for Displacement {
    fn clone(&self) -> (copy: Displacement)
        ensures
            copy@ == self@,
    {
        Self { path: copy_of(&self.path) }
    }
}

} // verus!
