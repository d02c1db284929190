use vstd::prelude::*;
use legion::{Entity, World};
use crate::commands::{
    apply_all, flush, lemma_commands_keep_size, record, state_of, views, Command, CommandView, Component, ComponentView, Kind,
};
use crate::consistency::consistent;
use crate::components::barrier::Barrier;
use crate::components::displacement::Displacement;
use crate::components::position::Position;
use crate::interface::{List, ListView};
use crate::map::{on_map, MapBase, MapView};
use crate::systems::{
    all_gentle, lemma_fault_stops_pass, lemma_gentle_pass, lemma_pass_step, pass_entries, pass_outcome, Fault,
    Outcome,
};
use crate::vector::Vector;
use crate::world::{alive, entities_with, fetch, is_alive, parts_of, world_entities, Parts};

verus! {

/// What the displacement of `actor` comes to.
///
/// An actor that is not in the world, or has no `Position` or no `Displacement`, is passed
/// over. An actor whose path is at its end loses its `Displacement`. Else the first step of
/// the path is taken off it, and the cell that the step leads to is looked at.
///
/// The actor collides where the step leaves the map, and where what is on top of that cell
/// is a `Barrier`: it stays where it is and loses its `Displacement` and its `Velocity`.
/// Else it moves there, and keeps the rest of its path. What is on top of the cell is in the
/// world, and an actor that moves stands on the map; else the world is at fault.
pub open spec fn displacement_outcome(entities: Map<Entity, Parts>, map: MapView, actor: Entity) -> Result<
    Outcome,
    Fault,
> {
    let me = entities[actor];
    if !entities.dom().contains(actor) || me.position is None || me.displacement is None {
        Ok(Outcome::nothing())
    } else if me.displacement->0.len() == 0 {
        Ok(
            Outcome {
                commands: seq![CommandView::Detach(actor, Kind::Displacement)],
                entries: Seq::empty(),
            },
        )
    } else {
        let step = me.displacement->0[0];
        let x = me.position->0.vector.0 + step.0;
        let y = me.position->0.vector.1 + step.1;
        let collision = Ok::<Outcome, Fault>(
            Outcome {
                commands: seq![
                    CommandView::Detach(actor, Kind::Displacement),
                    CommandView::Detach(actor, Kind::Velocity),
                ],
                entries: Seq::empty(),
            },
        );
        if !map.contains(x, y) {
            collision
        } else if map.cell_at(x, y).len() > 0 && !entities.dom().contains(map.cell_at(x, y).last().entity) {
            Err(Fault::MissingEntity)
        } else if map.cell_at(x, y).len() > 0 && entities[map.cell_at(x, y).last().entity].barrier is Some {
            collision
        } else if !on_map(map.cells, actor) {
            Err(Fault::NotOnMap)
        } else {
            Ok(
                Outcome {
                    commands: seq![
                        CommandView::Attach(
                            actor,
                            ComponentView::Displacement(me.displacement->0.drop_first()),
                        ),
                        CommandView::Relocate(actor, Vector(x as i32, y as i32)),
                    ],
                    entries: Seq::empty(),
                },
            )
        }
    }
}

/// Resolves the displacement of one actor: writes down the commands. The log is left as it
/// is. Nothing is written where the world is at fault.
pub fn displacement(
    world: &World,
    map: &MapBase,
    log: &mut List,
    commands: &mut Vec<Command>,
    entity: Entity,
) -> (result: Result<(), Fault>)
    ensures
        match displacement_outcome(world_entities(*world), map@, entity) {
            Ok(outcome) => result is Ok && views(final(commands)@) == views(old(commands)@)
                + outcome.commands && final(log)@ == (ListView {
                entries: old(log)@.entries + outcome.entries,
                ..old(log)@
            }),
            Err(fault) => result == Err::<(), Fault>(fault) && final(commands)@ == old(commands)@
                && final(log)@ == old(log)@,
        },
{
    let ghost before = views(commands@);
    assert(before + Outcome::nothing().commands =~= before);
    assert(log@.entries + Seq::<Seq<crate::interface::FragmentView>>::empty() =~= log@.entries);
    let position = match fetch::<Position>(world, entity) {
        Some(position) => position,
        None => return Ok(()),
    };
    let moving = match fetch::<Displacement>(world, entity) {
        Some(moving) => moving,
        None => return Ok(()),
    };
    let mut path = moving.path;
    if path.len() == 0 {
        record(commands, Command::Detach(entity, Kind::Displacement));
        assert(views(commands@) =~= before + seq![CommandView::Detach(entity, Kind::Displacement)]);
        return Ok(());
    }
    let step = path.remove(0);
    assert(path@ =~= moving@.drop_first());
    let size = map.dimensions();
    let free = match position.vector.checked_add(step) {
        Some(target) => match map.get_objects(target) {
            Some(stack) => {
                if stack.len() > 0 {
                    let top = stack[stack.len() - 1].entity;
                    if !alive(world, top) {
                        return Err(Fault::MissingEntity);
                    }
                    if fetch::<Barrier>(world, top).is_some() {
                        None
                    } else {
                        Some(target)
                    }
                } else {
                    Some(target)
                }
            },
            None => None,
        },
        None => None,
    };
    match free {
        Some(target) => {
            if map.find_cell(entity).is_none() {
                return Err(Fault::NotOnMap);
            }
            record(commands, Command::Attach(entity, Component::Displacement(Displacement { path })));
            record(commands, Command::Relocate(entity, target));
            proof {
                let outcome = displacement_outcome(world_entities(*world), map@, entity)->Ok_0;
                assert(views(commands@) =~= before + outcome.commands);
            }
        },
        None => {
            record(commands, Command::Detach(entity, Kind::Displacement));
            record(commands, Command::Detach(entity, Kind::Velocity));
            proof {
                let outcome = displacement_outcome(world_entities(*world), map@, entity)->Ok_0;
                assert(views(commands@) =~= before + outcome.commands);
            }
        },
    }
    Ok(())
}

/// What is made of each entity by the displacement system, judged by `entities` and `map`.
pub open spec fn displacement_resolver(entities: Map<Entity, Parts>, map: MapView) -> spec_fn(Entity) -> Result<
    Outcome,
    Fault,
> {
    |entity: Entity| displacement_outcome(entities, map, entity)
}

/// One pass of the displacement system over `order`: every entity is judged by the world and the
/// map as they are when the pass begins, and what was written down is carried out when all
/// are judged. After a fault nothing is carried out.
pub fn displacement_pass(world: &mut World, map: &mut MapBase, log: &mut List, order: &Vec<Entity>) -> (result:
    Result<(), Fault>)
    ensures
        final(map)@.size == old(map)@.size,
        consistent(state_of(*old(world), *old(map))) ==> consistent(state_of(*final(world), *final(map))),
        final(log)@ == (ListView {
            entries: old(log)@.entries + pass_entries(
                displacement_resolver(world_entities(*old(world)), old(map)@),
                order@,
            ),
            ..old(log)@
        }),
        match pass_outcome(displacement_resolver(world_entities(*old(world)), old(map)@), order@) {
            Ok(outcome) => result is Ok && state_of(*final(world), *final(map)) == apply_all(
                state_of(*old(world), *old(map)),
                outcome.commands,
            ),
            Err(fault) => result == Err::<(), Fault>(fault) && state_of(*final(world), *final(map))
                == state_of(*old(world), *old(map)),
        },
{
    let ghost resolve = displacement_resolver(world_entities(*world), map@);
    let ghost lines = log@.entries;
    let mut commands: Vec<Command> = Vec::new();
    let mut next: usize = 0;
    assert(views(commands@) =~= Seq::<CommandView>::empty());
    assert(lines + pass_entries(resolve, order@.take(0)) =~= lines);
    while next < order.len()
        invariant
            next <= order@.len(),
            *world == *old(world),
            *map == *old(map),
            resolve == displacement_resolver(world_entities(*world), map@),
            pass_outcome(resolve, order@.take(next as int)) matches Ok(outcome) && outcome.commands == views(
                commands@,
            ),
            log@ == (ListView {
                entries: lines + pass_entries(resolve, order@.take(next as int)),
                ..old(log)@
            }),
            lines == old(log)@.entries,
        decreases order@.len() - next,
    {
        proof {
            lemma_pass_step(resolve, order@, next as int);
        }
        let ghost logged = log@.entries;
        match displacement(world, map, log, &mut commands, order[next]) {
            Ok(()) => {
                proof {
                    let outcome = resolve(order@[next as int])->Ok_0;
                    assert(log@.entries == logged + outcome.entries);
                    assert(log@.entries =~= lines + pass_entries(resolve, order@.take(next + 1)));
                }
            },
            Err(fault) => {
                proof {
                    lemma_fault_stops_pass(resolve, order@, next + 1);
                }
                return Err(fault);
            },
        }
        next += 1;
    }
    proof {
        assert(order@.take(next as int) =~= order@);
        lemma_commands_keep_size(state_of(*world, *map), views(commands@));
    }
    flush(world, map, commands);
    Ok(())
}

/// The displacement system: one pass over the entities that have a `Displacement`, in the order in
/// which the world hands them out. The order is handed back with the result.
pub fn displacement_system(world: &mut World, map: &mut MapBase, log: &mut List) -> (result: (
    Vec<Entity>,
    Result<(), Fault>,
))
    ensures
        final(map)@.size == old(map)@.size,
        consistent(state_of(*old(world), *old(map))) ==> consistent(state_of(*final(world), *final(map))),
        result.0@.no_duplicates(),
        forall|entity: Entity|
            #[trigger] result.0@.contains(entity) == (is_alive(*old(world), entity) && parts_of(
                *old(world),
                entity,
            ).displacement is Some),
        final(log)@ == (ListView {
            entries: old(log)@.entries + pass_entries(
                displacement_resolver(world_entities(*old(world)), old(map)@),
                result.0@,
            ),
            ..old(log)@
        }),
        match pass_outcome(displacement_resolver(world_entities(*old(world)), old(map)@), result.0@) {
            Ok(outcome) => result.1 is Ok && state_of(*final(world), *final(map)) == apply_all(
                state_of(*old(world), *old(map)),
                outcome.commands,
            ),
            Err(fault) => result.1 == Err::<(), Fault>(fault) && state_of(*final(world), *final(map))
                == state_of(*old(world), *old(map)),
        },
{
    let order = entities_with::<Displacement>(world);
    let result = displacement_pass(world, map, log, &order);
    (order, result)
}

/// The displacement system takes no entity out of the world and changes no `Memory`.
pub proof fn lemma_displacement_is_gentle(entities: Map<Entity, Parts>, map: MapView, order: Seq<Entity>)
    ensures
        pass_outcome(displacement_resolver(entities, map), order) matches Ok(outcome) ==> all_gentle(outcome.commands),
{
    let resolve = displacement_resolver(entities, map);
    assert forall|entity: Entity| (#[trigger] resolve(entity)) is Ok implies all_gentle(
        resolve(entity)->Ok_0.commands,
    ) by {
        assert(resolve(entity) == displacement_outcome(entities, map, entity));
    }
    lemma_gentle_pass(resolve, order);
}

} // verus!
