use vstd::prelude::*;
use vstd::string::StringExecFns;
use crate::commands::{ComponentView, Kind};
use crate::components::spawn::SpawnType;
use crate::entities::creature::Creature;
use crate::entities::floor::Floor;
use crate::entities::item::Item;
use crate::entities::wall::Wall;

verus! {

/// The kinds of thing that can be made, each under its name. Where two of a sort have one
/// name, the first is meant.
#[derive(Debug)]
pub struct Assets {
    pub floors: Vec<(String, Floor)>,
    pub walls: Vec<(String, Wall)>,
    pub items: Vec<(String, Item)>,
    pub creatures: Vec<(String, Creature)>,
}

/// What is needed to make a thing: the components it is given, and whether it stops sight
/// and movement.
pub struct Template {
    pub components: Seq<ComponentView>,
    pub block_fov: bool,
    pub block_movement: bool,
}

/// Whether `index` is the first entry under `name`.
pub open spec fn is_first_named<T>(entries: Seq<(String, T)>, name: Seq<char>, index: int) -> bool {
    &&& 0 <= index < entries.len()
    &&& entries[index].0@ == name
    &&& forall|before: int| 0 <= before < index ==> (#[trigger] entries[before]).0@ != name
}

/// The first entry under `name`, if there is one.
pub open spec fn first_named<T>(entries: Seq<(String, T)>, name: Seq<char>) -> Option<T> {
    if exists|index: int| is_first_named(entries, name, index) {
        Some(entries[choose|index: int| is_first_named(entries, name, index)].1)
    } else {
        None
    }
}

/// The first entry under a name is one entry only.
pub proof fn lemma_first_named_unique<T>(entries: Seq<(String, T)>, name: Seq<char>, index: int)
    requires
        is_first_named(entries, name, index),
    ensures
        first_named(entries, name) == Some(entries[index].1),
{
    let chosen = choose|index: int| is_first_named(entries, name, index);
    assert(is_first_named(entries, name, chosen));
    if chosen < index {
        assert(entries[chosen].0@ != name);
    } else if index < chosen {
        assert(entries[index].0@ != name);
    }
}

/// The first entry under `name`, if there is one.
pub fn find_named<'a, T>(entries: &'a Vec<(String, T)>, name: &str) -> (found: Option<&'a T>)
    ensures
        match found {
            Some(entry) => first_named(entries@, name@) == Some(*entry),
            None => first_named(entries@, name@) is None,
        },
{
    let wanted = String::from_str(name);
    let mut index: usize = 0;
    while index < entries.len()
        invariant
            index <= entries@.len(),
            wanted@ == name@,
            forall|before: int| 0 <= before < index ==> (#[trigger] entries@[before]).0@ != name@,
        decreases entries@.len() - index,
    {
        if entries[index].0 == wanted {
            proof {
                lemma_first_named_unique(entries@, name@, index as int);
            }
            return Some(&entries[index].1);
        }
        index += 1;
    }
    assert(first_named(entries@, name@) is None) by {
        if exists|index: int| is_first_named(entries@, name@, index) {
            let found = choose|index: int| is_first_named(entries@, name@, index);
            assert(entries@[found].0@ != name@);
        }
    }
    None
}

impl Assets {
    /// What is needed to make the thing of the sort `ty` under `name`; `None` where there
    /// is no such thing.
    pub open spec fn template(&self, ty: SpawnType, name: Seq<char>) -> Option<Template> {
        match ty {
            SpawnType::Floor => match first_named(self.floors@, name) {
                Some(floor) => Some(
                    Template { components: floor.components(), block_fov: false, block_movement: false },
                ),
                None => None,
            },
            SpawnType::Wall => match first_named(self.walls@, name) {
                Some(wall) => Some(
                    Template { components: wall.components(), block_fov: true, block_movement: true },
                ),
                None => None,
            },
            SpawnType::Item => match first_named(self.items@, name) {
                Some(item) => Some(
                    Template { components: item.components(), block_fov: false, block_movement: false },
                ),
                None => None,
            },
            SpawnType::Creature => match first_named(self.creatures@, name) {
                Some(creature) => Some(
                    Template {
                        components: creature.components(),
                        block_fov: false,
                        block_movement: false,
                    },
                ),
                None => None,
            },
        }
    }

    /// No kinds at all.
    pub fn new() -> (assets: Assets)
        ensures
            assets.floors@.len() == 0,
            assets.walls@.len() == 0,
            assets.items@.len() == 0,
            assets.creatures@.len() == 0,
    {
        Assets { floors: Vec::new(), walls: Vec::new(), items: Vec::new(), creatures: Vec::new() }
    }
}

/// Nothing in the catalogue is made with a `Memory`.
pub proof fn lemma_template_without_memory(assets: Assets, ty: SpawnType, name: Seq<char>)
    ensures
        assets.template(ty, name) matches Some(template) ==> forall|i: int|
            0 <= i < template.components.len() ==> (#[trigger] template.components[i]).kind() != Kind::Memory,
{
    if let Some(template) = assets.template(ty, name) {
        assert forall|i: int| 0 <= i < template.components.len() implies (
        #[trigger] template.components[i]).kind() != Kind::Memory by {
            if i == 0 {
            } else if i == 1 {
            } else if i == 2 {
            } else if i == 3 {
            } else {
            }
        }
    }
}

} // verus!
