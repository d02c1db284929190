use vstd::prelude::*;
use crate::util::copy_of;
use legion::Entity;

verus! {

/// What a creature carries: the one thing in its hands, its container, and what it wears.
#[derive(Debug)]
pub struct Equipment {
    pub held: Option<Entity>,
    pub storage: Option<Entity>,
    pub wearables: Vec<Entity>,
}

/// An `Equipment` with its wearables as a sequence.
pub struct EquipmentView {
    pub held: Option<Entity>,
    pub storage: Option<Entity>,
    pub wearables: Seq<Entity>,
}

impl View for Equipment {
    type V = EquipmentView;

    open spec fn view(&self) -> EquipmentView {
        EquipmentView { held: self.held, storage: self.storage, wearables: self.wearables@ }
    }
}

impl Default for Equipment {
    fn default() -> (equipment: Equipment)
        ensures
            equipment@ == (EquipmentView {
                held: None,
                storage: None,
                wearables: Seq::<Entity>::empty(),
            }),
    {
        Self { held: None, storage: None, wearables: Vec::new() }
    }
}

impl Clone for Equipment {
    fn clone(&self) -> (copy: Equipment)
        ensures
            copy@ == self@,
    {
        Self { held: self.held, storage: self.storage, wearables: copy_of(&self.wearables) }
    }
}

} // verus!
