use vstd::prelude::*;
use legion::{Entity, World};
use crate::commands::{
    apply_all, flush, lemma_commands_keep_size, record, state_of, views, Command, CommandView,
    Component, ComponentView, Kind, TOP,
};
use crate::consistency::consistent;
use crate::components::actions::throw::Throw;
use crate::components::description::Description;
use crate::components::equipment::{Equipment, EquipmentView};
use crate::components::position::Position;
use crate::components::velocity::Velocity;
use crate::interface::{List, ListView};
use crate::map::{MapBase, MapView, Object};
use crate::systems::{
    all_gentle, lemma_fault_stops_pass, lemma_gentle_pass, lemma_pass_step, pass_entries, pass_outcome, Fault,
    Outcome,
};
use crate::world::{alive, entities_with, fetch, is_alive, parts_of, world_entities, Parts};

verus! {

/// What the throw of `actor` comes to.
///
/// An actor that is not in the world, or has no `Position`, no `Throw` or no `Equipment`,
/// is passed over. An actor with empty hands only loses its `Throw`. What the actor holds is
/// in the world, has a `Description` and no `Position`, and the actor stands on the map;
/// else the world is at fault.
///
/// What is held gets the actor's `Position` and is put on top of the actor's cell; it stops
/// sight where it is `Opaque` and movement where it is a `Barrier`. It gets a `Velocity` of
/// one cell a tick in the direction of the throw, and the hands are empty after.
pub open spec fn throw_outcome(entities: Map<Entity, Parts>, map: MapView, actor: Entity) -> Result<
    Outcome,
    Fault,
> {
    let me = entities[actor];
    if !entities.dom().contains(actor) || me.position is None || me.throw is None || me.equipment is None {
        Ok(Outcome::nothing())
    } else {
        let done = CommandView::Detach(actor, Kind::Throw);
        match me.equipment->0.held {
            None => Ok(Outcome { commands: seq![done], entries: Seq::empty() }),
            Some(held) => if !entities.dom().contains(held) {
                Err(Fault::MissingEntity)
            } else if entities[held].description is None {
                Err(Fault::MissingComponent)
            } else if entities[held].position is Some {
                Err(Fault::Misplaced)
            } else if !map.in_bounds(me.position->0.vector) {
                Err(Fault::OutOfBounds)
            } else {
                Ok(
                    Outcome {
                        commands: seq![
                            CommandView::Put(
                                me.position->0.vector,
                                TOP,
                                Object {
                                    entity: held,
                                    block_fov: entities[held].opaque is Some,
                                    block_movement: entities[held].barrier is Some,
                                },
                            ),
                            CommandView::Attach(
                                held,
                                ComponentView::Velocity(
                                    Velocity { direction: me.throw->0.direction, magnitude: 1 },
                                ),
                            ),
                            CommandView::Attach(
                                actor,
                                ComponentView::Equipment(EquipmentView { held: None, ..me.equipment->0 }),
                            ),
                            done,
                        ],
                        entries: Seq::empty(),
                    },
                )
            },
        }
    }
}

/// Resolves the throw of one actor: writes down the commands. The log is left as it is.
/// Nothing is written where the world is at fault.
pub fn throw(
    world: &World,
    map: &MapBase,
    log: &mut List,
    commands: &mut Vec<Command>,
    entity: Entity,
) -> (result: Result<(), Fault>)
    ensures
        match throw_outcome(world_entities(*world), map@, entity) {
            Ok(outcome) => result is Ok && views(final(commands)@) == views(old(commands)@)
                + outcome.commands && final(log)@ == (ListView {
                entries: old(log)@.entries + outcome.entries,
                ..old(log)@
            }),
            Err(fault) => result == Err::<(), Fault>(fault) && final(commands)@ == old(commands)@
                && final(log)@ == old(log)@,
        },
{
    let ghost before = views(commands@);
    assert(before + Outcome::nothing().commands =~= before);
    assert(log@.entries + Seq::<Seq<crate::interface::FragmentView>>::empty() =~= log@.entries);
    let position = match fetch::<Position>(world, entity) {
        Some(position) => position,
        None => return Ok(()),
    };
    let marker = match fetch::<Throw>(world, entity) {
        Some(marker) => marker,
        None => return Ok(()),
    };
    let equipment = match fetch::<Equipment>(world, entity) {
        Some(equipment) => equipment,
        None => return Ok(()),
    };
    if let Some(held) = equipment.held {
        if !alive(world, held) {
            return Err(Fault::MissingEntity);
        }
        if fetch::<Description>(world, held).is_none() {
            return Err(Fault::MissingComponent);
        }
        if fetch::<Position>(world, held).is_some() {
            return Err(Fault::Misplaced);
        }
        if !map.in_bounds(position.vector) {
            return Err(Fault::OutOfBounds);
        }
        record(commands, Command::Put(position.vector, TOP, Object::from_entity(held, world)));
        record(
            commands,
            Command::Attach(
                held,
                Component::Velocity(Velocity { direction: marker.direction, magnitude: 1 }),
            ),
        );
        let emptied = Equipment {
            held: None,
            storage: equipment.storage,
            wearables: equipment.wearables,
        };
        record(commands, Command::Attach(entity, Component::Equipment(emptied)));
    }
    record(commands, Command::Detach(entity, Kind::Throw));
    proof {
        let outcome = throw_outcome(world_entities(*world), map@, entity)->Ok_0;
        assert(views(commands@) =~= before + outcome.commands);
    }
    Ok(())
}

/// What is made of each entity by the throw system, judged by `entities` and `map`.
pub open spec fn throw_resolver(entities: Map<Entity, Parts>, map: MapView) -> spec_fn(Entity) -> Result<
    Outcome,
    Fault,
> {
    |entity: Entity| throw_outcome(entities, map, entity)
}

/// One pass of the throw system over `order`: every entity is judged by the world and the
/// map as they are when the pass begins, and what was written down is carried out when all
/// are judged. After a fault nothing is carried out.
pub fn throw_pass(world: &mut World, map: &mut MapBase, log: &mut List, order: &Vec<Entity>) -> (result:
    Result<(), Fault>)
    ensures
        final(map)@.size == old(map)@.size,
        consistent(state_of(*old(world), *old(map))) ==> consistent(state_of(*final(world), *final(map))),
        final(log)@ == (ListView {
            entries: old(log)@.entries + pass_entries(
                throw_resolver(world_entities(*old(world)), old(map)@),
                order@,
            ),
            ..old(log)@
        }),
        match pass_outcome(throw_resolver(world_entities(*old(world)), old(map)@), order@) {
            Ok(outcome) => result is Ok && state_of(*final(world), *final(map)) == apply_all(
                state_of(*old(world), *old(map)),
                outcome.commands,
            ),
            Err(fault) => result == Err::<(), Fault>(fault) && state_of(*final(world), *final(map))
                == state_of(*old(world), *old(map)),
        },
{
    let ghost resolve = throw_resolver(world_entities(*world), map@);
    let ghost lines = log@.entries;
    let mut commands: Vec<Command> = Vec::new();
    let mut next: usize = 0;
    assert(views(commands@) =~= Seq::<CommandView>::empty());
    assert(lines + pass_entries(resolve, order@.take(0)) =~= lines);
    while next < order.len()
        invariant
            next <= order@.len(),
            *world == *old(world),
            *map == *old(map),
            resolve == throw_resolver(world_entities(*world), map@),
            pass_outcome(resolve, order@.take(next as int)) matches Ok(outcome) && outcome.commands == views(
                commands@,
            ),
            log@ == (ListView {
                entries: lines + pass_entries(resolve, order@.take(next as int)),
                ..old(log)@
            }),
            lines == old(log)@.entries,
        decreases order@.len() - next,
    {
        proof {
            lemma_pass_step(resolve, order@, next as int);
        }
        let ghost logged = log@.entries;
        match throw(world, map, log, &mut commands, order[next]) {
            Ok(()) => {
                proof {
                    let outcome = resolve(order@[next as int])->Ok_0;
                    assert(log@.entries == logged + outcome.entries);
                    assert(log@.entries =~= lines + pass_entries(resolve, order@.take(next + 1)));
                }
            },
            Err(fault) => {
                proof {
                    lemma_fault_stops_pass(resolve, order@, next + 1);
                }
                return Err(fault);
            },
        }
        next += 1;
    }
    proof {
        assert(order@.take(next as int) =~= order@);
        lemma_commands_keep_size(state_of(*world, *map), views(commands@));
    }
    flush(world, map, commands);
    Ok(())
}

/// The throw system: one pass over the entities that have a `Throw`, in the order in
/// which the world hands them out. The order is handed back with the result.
pub fn throw_system(world: &mut World, map: &mut MapBase, log: &mut List) -> (result: (
    Vec<Entity>,
    Result<(), Fault>,
))
    ensures
        final(map)@.size == old(map)@.size,
        consistent(state_of(*old(world), *old(map))) ==> consistent(state_of(*final(world), *final(map))),
        result.0@.no_duplicates(),
        forall|entity: Entity|
            #[trigger] result.0@.contains(entity) == (is_alive(*old(world), entity) && parts_of(
                *old(world),
                entity,
            ).throw is Some),
        final(log)@ == (ListView {
            entries: old(log)@.entries + pass_entries(
                throw_resolver(world_entities(*old(world)), old(map)@),
                result.0@,
            ),
            ..old(log)@
        }),
        match pass_outcome(throw_resolver(world_entities(*old(world)), old(map)@), result.0@) {
            Ok(outcome) => result.1 is Ok && state_of(*final(world), *final(map)) == apply_all(
                state_of(*old(world), *old(map)),
                outcome.commands,
            ),
            Err(fault) => result.1 == Err::<(), Fault>(fault) && state_of(*final(world), *final(map))
                == state_of(*old(world), *old(map)),
        },
{
    let order = entities_with::<Throw>(world);
    let result = throw_pass(world, map, log, &order);
    (order, result)
}

/// The throw system takes no entity out of the world and changes no `Memory`.
pub proof fn lemma_throw_is_gentle(entities: Map<Entity, Parts>, map: MapView, order: Seq<Entity>)
    ensures
        pass_outcome(throw_resolver(entities, map), order) matches Ok(outcome) ==> all_gentle(outcome.commands),
{
    let resolve = throw_resolver(entities, map);
    assert forall|entity: Entity| (#[trigger] resolve(entity)) is Ok implies all_gentle(
        resolve(entity)->Ok_0.commands,
    ) by {
        assert(resolve(entity) == throw_outcome(entities, map, entity));
    }
    lemma_gentle_pass(resolve, order);
}

} // verus!
