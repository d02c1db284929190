use vstd::prelude::*;
use legion::{Entity, World};
use crate::commands::{views, Command, Component, ComponentView};
use crate::components::description::Description;
use crate::components::equipment::Equipment;
use crate::components::glyph::Glyph;
use crate::components::weight::Weight;
use crate::entities::{component_views, lemma_component_views_push, spawn, spawn_commands};
use crate::vector::Vector;
use crate::world::{is_alive, world_entities, Parts};

verus! {

/// A kind of creature.
#[derive(Debug)]
pub struct Creature {
    pub glyph: Glyph,
    pub description: Description,
    pub weight: Weight,
    pub equipment: Option<Equipment>,
}

impl Creature {
    /// Whether what is made after this kind stops sight.
    pub const BLOCKS_FOV: bool = false;

    /// Whether what is made after this kind stops movement.
    pub const BLOCKS_MOVEMENT: bool = false;

    /// The components that an entity of this kind is given, in the order of the fields; one
    /// that is left out here is left out there.
    pub open spec fn components(&self) -> Seq<ComponentView> {
        Seq::<ComponentView>::empty()
            + seq![ComponentView::Glyph(self.glyph@)]
            + seq![ComponentView::Description(self.description@)]
            + seq![ComponentView::Weight(self.weight@)]
            + (match self.equipment {
                Some(equipment) => seq![ComponentView::Equipment(equipment@)],
                None => Seq::<ComponentView>::empty(),
            })
    }

    /// A copy of each component that an entity of this kind is given.
    pub fn bundle(&self) -> (bundle: Vec<Component>)
        ensures
            component_views(bundle@) == self.components(),
    {
        let mut bundle: Vec<Component> = Vec::new();
        assert(component_views(bundle@) =~= Seq::<ComponentView>::empty());
        let component = Component::Glyph(self.glyph);
        proof {
            lemma_component_views_push(bundle@, component);
        }
        bundle.push(component);
        let component = Component::Description(self.description.clone());
        proof {
            lemma_component_views_push(bundle@, component);
        }
        bundle.push(component);
        let component = Component::Weight(self.weight);
        proof {
            lemma_component_views_push(bundle@, component);
        }
        bundle.push(component);
        if let Some(equipment) = &self.equipment {
            let component = Component::Equipment(equipment.clone());
            proof {
                lemma_component_views_push(bundle@, component);
            }
            bundle.push(component);
        }
        assert(component_views(bundle@) =~= self.components());
        bundle
    }

    /// Makes an entity of this kind at `position`: the entity is new, and the commands that
    /// give it its place, its components and its object on the map are written down.
    /// A creature stops neither sight nor movement.
    pub fn spawn(&self, world: &mut World, commands: &mut Vec<Command>, position: Vector) -> (entity: Entity)
        ensures
            !is_alive(*old(world), entity),
            world_entities(*final(world)) == world_entities(*old(world)).insert(entity, Parts::empty()),
            views(final(commands)@) == views(old(commands)@) + spawn_commands(
                entity,
                position,
                self.components(),
                false,
                false,
            ),
    {
        spawn(world, commands, position, self.bundle(), Self::BLOCKS_FOV, Self::BLOCKS_MOVEMENT)
    }
}

} // verus!
