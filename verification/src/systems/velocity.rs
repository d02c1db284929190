use vstd::prelude::*;
use legion::{Entity, World};
use crate::commands::{
    apply_all, flush, lemma_commands_keep_size, lemma_views_push, state_of, views, Command, CommandView, Component, ComponentView,
};
use crate::consistency::consistent;
use crate::components::displacement::Displacement;
use crate::components::position::Position;
use crate::components::velocity::Velocity;
use crate::interface::{List, ListView};
use crate::map::{MapBase, MapView};
use crate::systems::{
    all_gentle, lemma_fault_stops_pass, lemma_gentle_pass, lemma_pass_step, pass_entries, pass_outcome, Fault,
    Outcome,
};
use crate::vector::{fits_i32, Vector};
use crate::world::{entities_with, fetch, is_alive, parts_of, world_entities, Parts};

verus! {

/// The step that a velocity makes in one tick: `magnitude` cells along `direction`. `None`
/// where a coordinate of it is no `i32`.
pub open spec fn velocity_step(velocity: Velocity) -> Option<Vector> {
    let unit = velocity.direction.unit_vector();
    if fits_i32(unit.0 * velocity.magnitude) && fits_i32(unit.1 * velocity.magnitude) {
        Some(Vector((unit.0 * velocity.magnitude) as i32, (unit.1 * velocity.magnitude) as i32))
    } else {
        None
    }
}

/// What the velocity of `actor` comes to: a `Displacement` of one step, in place of one
/// that it had. The `Velocity` stays. An actor that is not in the world, or has no
/// `Position` or no `Velocity`, is passed over, and so is one whose step cannot be written.
pub open spec fn velocity_outcome(entities: Map<Entity, Parts>, map: MapView, actor: Entity) -> Result<
    Outcome,
    Fault,
> {
    let me = entities[actor];
    if !entities.dom().contains(actor) || me.position is None || me.velocity is None {
        Ok(Outcome::nothing())
    } else {
        match velocity_step(me.velocity->0) {
            Some(step) => Ok(
                Outcome {
                    commands: seq![CommandView::Attach(actor, ComponentView::Displacement(seq![step]))],
                    entries: Seq::empty(),
                },
            ),
            None => Ok(Outcome::nothing()),
        }
    }
}

/// Resolves the velocity of one actor: writes down the command. The map is not looked at,
/// the log is left as it is, and the world is never at fault.
pub fn velocity(
    world: &World,
    map: &MapBase,
    log: &mut List,
    commands: &mut Vec<Command>,
    entity: Entity,
) -> (result: Result<(), Fault>)
    ensures
        match velocity_outcome(world_entities(*world), map@, entity) {
            Ok(outcome) => result is Ok && views(final(commands)@) == views(old(commands)@)
                + outcome.commands && final(log)@ == (ListView {
                entries: old(log)@.entries + outcome.entries,
                ..old(log)@
            }),
            Err(fault) => result == Err::<(), Fault>(fault) && final(commands)@ == old(commands)@
                && final(log)@ == old(log)@,
        },
{
    let ghost before = views(commands@);
    assert(before + Outcome::nothing().commands =~= before);
    assert(log@.entries + Seq::<Seq<crate::interface::FragmentView>>::empty() =~= log@.entries);
    if fetch::<Position>(world, entity).is_none() {
        return Ok(());
    }
    let moving = match fetch::<Velocity>(world, entity) {
        Some(moving) => moving,
        None => return Ok(()),
    };
    if let Some(step) = moving.direction.as_unit_vector().checked_mul(moving.magnitude) {
        let mut path: Vec<Vector> = Vec::new();
        path.push(step);
        let command = Command::Attach(entity, Component::Displacement(Displacement { path }));
        proof {
            lemma_views_push(commands@, command);
            assert(command@ == CommandView::Attach(entity, ComponentView::Displacement(seq![step])));
        }
        commands.push(command);
        assert(views(commands@) =~= before + seq![
            CommandView::Attach(entity, ComponentView::Displacement(seq![step])),
        ]);
    }
    Ok(())
}

/// What is made of each entity by the velocity system, judged by `entities` and `map`.
pub open spec fn velocity_resolver(entities: Map<Entity, Parts>, map: MapView) -> spec_fn(Entity) -> Result<
    Outcome,
    Fault,
> {
    |entity: Entity| velocity_outcome(entities, map, entity)
}

/// One pass of the velocity system over `order`: every entity is judged by the world and the
/// map as they are when the pass begins, and what was written down is carried out when all
/// are judged. After a fault nothing is carried out.
pub fn velocity_pass(world: &mut World, map: &mut MapBase, log: &mut List, order: &Vec<Entity>) -> (result:
    Result<(), Fault>)
    ensures
        final(map)@.size == old(map)@.size,
        consistent(state_of(*old(world), *old(map))) ==> consistent(state_of(*final(world), *final(map))),
        final(log)@ == (ListView {
            entries: old(log)@.entries + pass_entries(
                velocity_resolver(world_entities(*old(world)), old(map)@),
                order@,
            ),
            ..old(log)@
        }),
        match pass_outcome(velocity_resolver(world_entities(*old(world)), old(map)@), order@) {
            Ok(outcome) => result is Ok && state_of(*final(world), *final(map)) == apply_all(
                state_of(*old(world), *old(map)),
                outcome.commands,
            ),
            Err(fault) => result == Err::<(), Fault>(fault) && state_of(*final(world), *final(map))
                == state_of(*old(world), *old(map)),
        },
{
    let ghost resolve = velocity_resolver(world_entities(*world), map@);
    let ghost lines = log@.entries;
    let mut commands: Vec<Command> = Vec::new();
    let mut next: usize = 0;
    assert(views(commands@) =~= Seq::<CommandView>::empty());
    assert(lines + pass_entries(resolve, order@.take(0)) =~= lines);
    while next < order.len()
        invariant
            next <= order@.len(),
            *world == *old(world),
            *map == *old(map),
            resolve == velocity_resolver(world_entities(*world), map@),
            pass_outcome(resolve, order@.take(next as int)) matches Ok(outcome) && outcome.commands == views(
                commands@,
            ),
            log@ == (ListView {
                entries: lines + pass_entries(resolve, order@.take(next as int)),
                ..old(log)@
            }),
            lines == old(log)@.entries,
        decreases order@.len() - next,
    {
        proof {
            lemma_pass_step(resolve, order@, next as int);
        }
        let ghost logged = log@.entries;
        match velocity(world, map, log, &mut commands, order[next]) {
            Ok(()) => {
                proof {
                    let outcome = resolve(order@[next as int])->Ok_0;
                    assert(log@.entries == logged + outcome.entries);
                    assert(log@.entries =~= lines + pass_entries(resolve, order@.take(next + 1)));
                }
            },
            Err(fault) => {
                proof {
                    lemma_fault_stops_pass(resolve, order@, next + 1);
                }
                return Err(fault);
            },
        }
        next += 1;
    }
    proof {
        assert(order@.take(next as int) =~= order@);
        lemma_commands_keep_size(state_of(*world, *map), views(commands@));
    }
    flush(world, map, commands);
    Ok(())
}

/// The velocity system: one pass over the entities that have a `Velocity`, in the order in
/// which the world hands them out. The order is handed back with the result.
pub fn velocity_system(world: &mut World, map: &mut MapBase, log: &mut List) -> (result: (
    Vec<Entity>,
    Result<(), Fault>,
))
    ensures
        final(map)@.size == old(map)@.size,
        consistent(state_of(*old(world), *old(map))) ==> consistent(state_of(*final(world), *final(map))),
        result.0@.no_duplicates(),
        forall|entity: Entity|
            #[trigger] result.0@.contains(entity) == (is_alive(*old(world), entity) && parts_of(
                *old(world),
                entity,
            ).velocity is Some),
        final(log)@ == (ListView {
            entries: old(log)@.entries + pass_entries(
                velocity_resolver(world_entities(*old(world)), old(map)@),
                result.0@,
            ),
            ..old(log)@
        }),
        match pass_outcome(velocity_resolver(world_entities(*old(world)), old(map)@), result.0@) {
            Ok(outcome) => result.1 is Ok && state_of(*final(world), *final(map)) == apply_all(
                state_of(*old(world), *old(map)),
                outcome.commands,
            ),
            Err(fault) => result.1 == Err::<(), Fault>(fault) && state_of(*final(world), *final(map))
                == state_of(*old(world), *old(map)),
        },
{
    let order = entities_with::<Velocity>(world);
    let result = velocity_pass(world, map, log, &order);
    (order, result)
}

/// The velocity system takes no entity out of the world and changes no `Memory`.
pub proof fn lemma_velocity_is_gentle(entities: Map<Entity, Parts>, map: MapView, order: Seq<Entity>)
    ensures
        pass_outcome(velocity_resolver(entities, map), order) matches Ok(outcome) ==> all_gentle(outcome.commands),
{
    let resolve = velocity_resolver(entities, map);
    assert forall|entity: Entity| (#[trigger] resolve(entity)) is Ok implies all_gentle(
        resolve(entity)->Ok_0.commands,
    ) by {
        assert(resolve(entity) == velocity_outcome(entities, map, entity));
    }
    lemma_gentle_pass(resolve, order);
}

} // verus!
