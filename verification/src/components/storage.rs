use vstd::prelude::*;
use crate::util::copy_of;
use legion::Entity;

verus! {

/// What a container holds, in the order in which it was put in.
#[derive(Debug)]
pub struct Storage {
    pub objects: Vec<Entity>,
}

impl View for Storage {
    type V = Seq<Entity>;

    open spec fn view(&self) -> Seq<Entity> {
        self.objects@
    }
}

impl Default for Storage {
    fn default() -> (storage: Storage)
        ensures
            storage@ == Seq::<Entity>::empty(),
    {
        Self { objects: Vec::new() }
    }
}

impl Clone for Storage {
    fn clone(&self) -> (copy: Storage)
        ensures
            copy@ == self@,
    {
        Self { objects: copy_of(&self.objects) }
    }
}

} // verus!
