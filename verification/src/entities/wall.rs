use vstd::prelude::*;
use legion::{Entity, World};
use crate::commands::{views, Command, Component, ComponentView};
use crate::components::barrier::Barrier;
use crate::components::description::Description;
use crate::components::glyph::Glyph;
use crate::components::light::Light;
use crate::components::opaque::Opaque;
use crate::entities::{component_views, lemma_component_views_push, spawn, spawn_commands};
use crate::vector::Vector;
use crate::world::{is_alive, world_entities, Parts};

verus! {

/// A kind of wall.
#[derive(Debug)]
pub struct Wall {
    pub barrier: Barrier,
    pub glyph: Glyph,
    pub description: Description,
    pub opaque: Option<Opaque>,
    pub light: Option<Light>,
}

impl Wall {
    /// Whether what is made after this kind stops sight.
    pub const BLOCKS_FOV: bool = true;

    /// Whether what is made after this kind stops movement.
    pub const BLOCKS_MOVEMENT: bool = true;

    /// The components that an entity of this kind is given, in the order of the fields; one
    /// that is left out here is left out there.
    pub open spec fn components(&self) -> Seq<ComponentView> {
        Seq::<ComponentView>::empty()
            + seq![ComponentView::Barrier(self.barrier@)]
            + seq![ComponentView::Glyph(self.glyph@)]
            + seq![ComponentView::Description(self.description@)]
            + (match self.opaque {
                Some(opaque) => seq![ComponentView::Opaque(opaque@)],
                None => Seq::<ComponentView>::empty(),
            })
            + (match self.light {
                Some(light) => seq![ComponentView::Light(light@)],
                None => Seq::<ComponentView>::empty(),
            })
    }

    /// A copy of each component that an entity of this kind is given.
    pub fn bundle(&self) -> (bundle: Vec<Component>)
        ensures
            component_views(bundle@) == self.components(),
    {
        let mut bundle: Vec<Component> = Vec::new();
        assert(component_views(bundle@) =~= Seq::<ComponentView>::empty());
        let component = Component::Barrier(self.barrier);
        proof {
            lemma_component_views_push(bundle@, component);
        }
        bundle.push(component);
        let component = Component::Glyph(self.glyph);
        proof {
            lemma_component_views_push(bundle@, component);
        }
        bundle.push(component);
        let component = Component::Description(self.description.clone());
        proof {
            lemma_component_views_push(bundle@, component);
        }
        bundle.push(component);
        if let Some(opaque) = self.opaque {
            let component = Component::Opaque(opaque);
            proof {
                lemma_component_views_push(bundle@, component);
            }
            bundle.push(component);
        }
        if let Some(light) = self.light {
            let component = Component::Light(light);
            proof {
                lemma_component_views_push(bundle@, component);
            }
            bundle.push(component);
        }
        assert(component_views(bundle@) =~= self.components());
        bundle
    }

    /// Makes an entity of this kind at `position`: the entity is new, and the commands that
    /// give it its place, its components and its object on the map are written down.
    /// A wall stops movement, and it stops sight whether or not this one is given the `Opaque`
    /// mark: what a wall can have decides, not what this one has.
    pub fn spawn(&self, world: &mut World, commands: &mut Vec<Command>, position: Vector) -> (entity: Entity)
        ensures
            !is_alive(*old(world), entity),
            world_entities(*final(world)) == world_entities(*old(world)).insert(entity, Parts::empty()),
            views(final(commands)@) == views(old(commands)@) + spawn_commands(
                entity,
                position,
                self.components(),
                true,
                true,
            ),
    {
        spawn(world, commands, position, self.bundle(), Self::BLOCKS_FOV, Self::BLOCKS_MOVEMENT)
    }
}

} // verus!
