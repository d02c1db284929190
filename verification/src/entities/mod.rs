use vstd::prelude::*;
use legion::{Entity, World};
use crate::commands::{lemma_views_push, views, Command, CommandView, Component, ComponentView, TOP};
use crate::map::Object;
use crate::vector::Vector;
use crate::world::{create, is_alive, world_entities, Parts};

pub mod creature;
pub mod floor;
pub mod item;
pub mod wall;

verus! {

/// The views of the components of a bundle, in their order.
pub open spec fn component_views(bundle: Seq<Component>) -> Seq<ComponentView> {
    bundle.map_values(|component: Component| component@)
}

/// The views of a bundle with one more component.
pub proof fn lemma_component_views_push(bundle: Seq<Component>, component: Component)
    ensures
        component_views(bundle.push(component)) == component_views(bundle).push(component@),
{
    assert(component_views(bundle.push(component)) =~= component_views(bundle).push(component@));
}

/// The commands that bring `entity` into being at `position`: its object on top of the
/// cell, with its `Position`, and then the components of its bundle in their order.
pub open spec fn spawn_commands(
    entity: Entity,
    position: Vector,
    bundle: Seq<ComponentView>,
    block_fov: bool,
    block_movement: bool,
) -> Seq<CommandView> {
    seq![CommandView::Put(position, TOP, Object { entity, block_fov, block_movement })]
        + bundle.map_values(|component: ComponentView| CommandView::Attach(entity, component))
}

/// Writes down the commands that give `entity` its place at `position` and its bundle of
/// components.
pub fn record_spawn(
    commands: &mut Vec<Command>,
    entity: Entity,
    position: Vector,
    bundle: Vec<Component>,
    block_fov: bool,
    block_movement: bool,
)
    ensures
        views(final(commands)@) == views(old(commands)@) + spawn_commands(
            entity,
            position,
            component_views(bundle@),
            block_fov,
            block_movement,
        ),
{
    let ghost before = views(commands@);
    let ghost wanted = component_views(bundle@);
    let object = Object::new(entity, block_fov, block_movement);
    let ghost first = CommandView::Put(position, TOP, object);
    proof {
        lemma_views_push(commands@, Command::Put(position, TOP, object));
    }
    commands.push(Command::Put(position, TOP, object));
    let mut bundle = bundle;
    let ghost mut count: int = 0;
    while bundle.len() > 0
        invariant
            0 <= count <= wanted.len(),
            bundle@.len() == wanted.len() - count,
            component_views(bundle@) == wanted.skip(count),
            views(commands@) == before.push(first) + wanted.take(count).map_values(
                |component: ComponentView| CommandView::Attach(entity, component),
            ),
        decreases bundle@.len(),
    {
        let ghost rest = bundle@;
        let component = bundle.remove(0);
        proof {
            assert(component_views(rest)[0] == rest[0]@);
            assert(component@ == wanted[count]);
            assert forall|i: int| 0 <= i < bundle@.len() implies component_views(bundle@)[i]
                == wanted.skip(count + 1)[i] by {
                assert(bundle@[i] == rest[i + 1]);
                assert(component_views(rest)[i + 1] == rest[i + 1]@);
            }
            assert(component_views(bundle@) =~= wanted.skip(count + 1));
            lemma_views_push(commands@, Command::Attach(entity, component));
            assert(wanted.take(count + 1).map_values(
                |component: ComponentView| CommandView::Attach(entity, component),
            ) =~= wanted.take(count).map_values(
                |component: ComponentView| CommandView::Attach(entity, component),
            ).push(CommandView::Attach(entity, wanted[count])));
            count = count + 1;
        }
        commands.push(Command::Attach(entity, component));
    }
    proof {
        assert(wanted.take(count) =~= wanted);
        assert(views(commands@) =~= before + spawn_commands(
            entity,
            position,
            wanted,
            block_fov,
            block_movement,
        ));
    }
}

/// Makes a new entity and writes down the commands that give it a place and its bundle of
/// components. The entity is in the world at once, with nothing; all else waits for the
/// commands to be carried out. Whether it stops sight and movement is for the caller to
/// say, from the kind of thing it is.
pub fn spawn(
    world: &mut World,
    commands: &mut Vec<Command>,
    position: Vector,
    bundle: Vec<Component>,
    block_fov: bool,
    block_movement: bool,
) -> (entity: Entity)
    ensures
        !is_alive(*old(world), entity),
        world_entities(*final(world)) == world_entities(*old(world)).insert(entity, Parts::empty()),
        views(final(commands)@) == views(old(commands)@) + spawn_commands(
            entity,
            position,
            component_views(bundle@),
            block_fov,
            block_movement,
        ),
{
    let entity = create(world);
    record_spawn(commands, entity, position, bundle, block_fov, block_movement);
    entity
}

} // verus!
