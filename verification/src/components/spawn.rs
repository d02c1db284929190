use vstd::prelude::*;

verus! {

/// The kinds of thing that can be brought into the world.
#[derive(Debug, Copy, Clone, PartialEq, Eq, Structural)]
pub enum SpawnType {
    Floor,
    Wall,
    Item,
    Creature,
}

/// The number of equal parts a chance is counted in.
pub const CHANCE_SCALE: u32 = 1_000_000;

/// One thing that may appear: its kind, its name in the catalogue, and its chance in
/// millionths.
#[derive(Debug)]
pub struct SpawnDescription {
    pub ty: SpawnType,
    pub name: String,
    pub probability: u32,
}

/// A `SpawnDescription` with its name as a sequence of characters.
pub struct SpawnDescriptionView {
    pub ty: SpawnType,
    pub name: Seq<char>,
    pub probability: u32,
}

impl View for SpawnDescription {
    type V = SpawnDescriptionView;

    open spec fn view(&self) -> SpawnDescriptionView {
        SpawnDescriptionView { ty: self.ty, name: self.name@, probability: self.probability }
    }
}

/// Something that is still to appear where the entity stands: one of `choices`, or nothing.
#[derive(Debug)]
pub struct Spawn {
    pub choices: Vec<SpawnDescription>,
}

impl View for Spawn {
    type V = Seq<SpawnDescriptionView>;

    open spec fn view(&self) -> Seq<SpawnDescriptionView> {
        self.choices@.map_values(|choice: SpawnDescription| choice@)
    }
}

impl Clone for SpawnDescription {
    fn clone(&self) -> (copy: SpawnDescription)
        ensures
            copy@ == self@,
    {
        Self { ty: self.ty, name: self.name.clone(), probability: self.probability }
    }
}

impl Clone for Spawn {
    fn clone(&self) -> (copy: Spawn)
        ensures
            copy@ == self@,
    {
        let mut choices: Vec<SpawnDescription> = Vec::new();
        let mut next: usize = 0;
        while next < self.choices.len()
            invariant
                next <= self.choices@.len(),
                choices@.len() == next,
                forall|i: int| 0 <= i < next ==> (#[trigger] choices@[i])@ == self.choices@[i]@,
            decreases self.choices@.len() - next,
        {
            choices.push(self.choices[next].clone());
            next += 1;
        }
        let copy = Self { choices };
        assert(copy@ =~= self@);
        copy
    }
}

} // verus!
