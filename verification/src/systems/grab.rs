use vstd::prelude::*;
use legion::{Entity, World};
use crate::commands::{
    apply_all, flush, lemma_commands_keep_size, record, state_of, views, Command, CommandView, Component, ComponentView, Kind,
};
use crate::consistency::consistent;
use crate::components::actions::grab::Grab;
use crate::components::description::Description;
use crate::components::equipment::{Equipment, EquipmentView};
use crate::components::glyph::Glyph;
use crate::components::position::Position;
use crate::components::weight::Weight;
use crate::interface::{FragmentView, Fragment, Label, List, ListView};
use crate::map::{find_slot, stack_holds, MapBase, MapView, Object};
use crate::systems::{
    all_gentle, lemma_fault_stops_pass, lemma_gentle_pass, lemma_pass_step, pass_entries, pass_outcome, Fault,
    Outcome,
};
use crate::world::{alive, entities_with, fetch, is_alive, parts_of, world_entities, Parts};

verus! {

/// The words of the log for a thing: its name in the colour of its glyph.
pub open spec fn named(parts: Parts) -> FragmentView {
    FragmentView { text: parts.description->0.name, colour: Some(parts.glyph->0.colour) }
}

/// The line for having picked `target` up, after having put `held` down where something
/// was held.
pub open spec fn pick_up_line(held: Option<Parts>, target: Parts) -> Seq<FragmentView> {
    match held {
        Some(held) => seq![
            FragmentView { text: "You "@, colour: None },
            FragmentView { text: "put down the "@, colour: None },
            named(held),
            FragmentView { text: " and "@, colour: None },
            FragmentView { text: "pick up the "@, colour: None },
            named(target),
        ],
        None => seq![
            FragmentView { text: "You "@, colour: None },
            FragmentView { text: "pick up the "@, colour: None },
            named(target),
        ],
    }
}

/// The line for having reached for a `target` that cannot be picked up.
pub open spec fn touch_line(hands_full: bool, target: Parts) -> Seq<FragmentView> {
    if hands_full {
        seq![FragmentView { text: "Your hands are full"@, colour: None }]
    } else {
        seq![
            FragmentView { text: "You "@, colour: None },
            FragmentView { text: "touch the "@, colour: None },
            named(target),
        ]
    }
}

/// What the grab of `actor` comes to.
///
/// An actor that is not in the world, or has no `Grab` or no `Equipment`, is passed over.
/// Otherwise the actor has a `Position`, and what it reaches for is in the world with a
/// `Glyph`, a `Position` and a `Description`; else the world is at fault.
///
/// A target with a `Weight` is picked up: it leaves the stack at its position and loses its
/// `Position`; what the actor held before is put down in the actor's cell one above the
/// bottom and gets the actor's `Position`; the target is then what the actor holds. What
/// was held is in the world with a `Glyph` and a `Description` and without a `Position`,
/// and the actor stands on the map; else the world is at fault. A
/// target without a `Weight` is touched, or is not even that where the hands are full. The
/// `Grab` is taken away in either case, and one line goes to the log.
pub open spec fn grab_outcome(entities: Map<Entity, Parts>, map: MapView, actor: Entity) -> Result<
    Outcome,
    Fault,
> {
    let me = entities[actor];
    if !entities.dom().contains(actor) || me.grab is None || me.equipment is None {
        Ok(Outcome::nothing())
    } else if me.position is None {
        Err(Fault::MissingComponent)
    } else if !entities.dom().contains(me.grab->0.entity) {
        Err(Fault::MissingEntity)
    } else {
        let target = me.grab->0.entity;
        let it = entities[target];
        let equipment = me.equipment->0;
        let done = CommandView::Detach(actor, Kind::Grab);
        if it.glyph is None || it.position is None || it.description is None {
            Err(Fault::MissingComponent)
        } else if it.weight is None {
            Ok(Outcome { commands: seq![done], entries: seq![touch_line(equipment.held is Some, it)] })
        } else if !map.in_bounds(it.position->0.vector) || !stack_holds(
            map.cell(it.position->0.vector),
            target,
        ) {
            Err(Fault::NotOnMap)
        } else {
            let taken = seq![CommandView::Take(target)];
            let kept = seq![
                CommandView::Attach(
                    actor,
                    ComponentView::Equipment(EquipmentView { held: Some(target), ..equipment }),
                ),
                done,
            ];
            match equipment.held {
                None => Ok(Outcome { commands: taken + kept, entries: seq![pick_up_line(None, it)] }),
                Some(held) => if !entities.dom().contains(held) {
                    Err(Fault::MissingEntity)
                } else if entities[held].glyph is None || entities[held].description is None {
                    Err(Fault::MissingComponent)
                } else if entities[held].position is Some {
                    Err(Fault::Misplaced)
                } else if !map.in_bounds(me.position->0.vector) {
                    Err(Fault::OutOfBounds)
                } else {
                    Ok(
                        Outcome {
                            commands: taken + seq![
                                CommandView::Put(
                                    me.position->0.vector,
                                    1,
                                    Object { entity: held, block_fov: false, block_movement: false },
                                ),
                            ] + kept,
                            entries: seq![pick_up_line(Some(entities[held]), it)],
                        },
                    )
                },
            }
        }
    }
}

fn name_fragment(description: &Description, glyph: &Glyph) -> (fragment: Fragment)
    ensures
        fragment@ == (FragmentView { text: description@.name, colour: Some(glyph.colour) }),
{
    Fragment::new(description.name.clone(), Some(glyph.colour))
}

/// Resolves the grab of one actor: writes down the commands and the line for the log.
/// Nothing is written where the world is at fault.
pub fn grab(
    world: &World,
    map: &MapBase,
    log: &mut List,
    commands: &mut Vec<Command>,
    entity: Entity,
) -> (result: Result<(), Fault>)
    ensures
        match grab_outcome(world_entities(*world), map@, entity) {
            Ok(outcome) => result is Ok && views(final(commands)@) == views(old(commands)@)
                + outcome.commands && final(log)@ == (ListView {
                entries: old(log)@.entries + outcome.entries,
                ..old(log)@
            }),
            Err(fault) => result == Err::<(), Fault>(fault) && final(commands)@ == old(commands)@
                && final(log)@ == old(log)@,
        },
{
    let ghost before = views(commands@);
    let ghost lines = log@.entries;
    assert(before + Outcome::nothing().commands =~= before);
    assert(lines + Outcome::nothing().entries =~= lines);
    let marker = match fetch::<Grab>(world, entity) {
        Some(marker) => marker,
        None => return Ok(()),
    };
    let equipment = match fetch::<Equipment>(world, entity) {
        Some(equipment) => equipment,
        None => return Ok(()),
    };
    let position = match fetch::<Position>(world, entity) {
        Some(position) => position,
        None => return Err(Fault::MissingComponent),
    };
    let target = marker.entity;
    if !alive(world, target) {
        return Err(Fault::MissingEntity);
    }
    let glyph = match fetch::<Glyph>(world, target) {
        Some(glyph) => glyph,
        None => return Err(Fault::MissingComponent),
    };
    let target_position = match fetch::<Position>(world, target) {
        Some(position) => position,
        None => return Err(Fault::MissingComponent),
    };
    let description = match fetch::<Description>(world, target) {
        Some(description) => description,
        None => return Err(Fault::MissingComponent),
    };
    let ghost it = parts_of(*world, target);
    if fetch::<Weight>(world, target).is_none() {
        let line = if equipment.held.is_some() {
            Label::plain("Your hands are full")
        } else {
            Label::plain("You ").with(Fragment::plain("touch the ")).with(
                name_fragment(&description, &glyph),
            )
        };
        assert(line@ =~= touch_line(equipment.held is Some, it));
        record(commands, Command::Detach(entity, Kind::Grab));
        log.add(line);
        assert(views(commands@) =~= before + seq![CommandView::Detach(entity, Kind::Grab)]);
        assert(log@.entries =~= lines + seq![touch_line(equipment.held is Some, it)]);
        return Ok(());
    }
    let stands = match map.get_objects(target_position.vector) {
        Some(stack) => find_slot(stack, target).is_some(),
        None => false,
    };
    if !stands {
        return Err(Fault::NotOnMap);
    }
    let mut line = Label::plain("You ");
    let ghost mut dropped: Seq<CommandView> = Seq::empty();
    let ghost mut held_parts: Option<Parts> = None;
    let mut put_down: Option<(Entity, Position)> = None;
    if let Some(held) = equipment.held {
        if !alive(world, held) {
            return Err(Fault::MissingEntity);
        }
        let held_glyph = match fetch::<Glyph>(world, held) {
            Some(glyph) => glyph,
            None => return Err(Fault::MissingComponent),
        };
        let held_description = match fetch::<Description>(world, held) {
            Some(description) => description,
            None => return Err(Fault::MissingComponent),
        };
        if fetch::<Position>(world, held).is_some() {
            return Err(Fault::Misplaced);
        }
        if !map.in_bounds(position.vector) {
            return Err(Fault::OutOfBounds);
        }
        line = line.with(Fragment::plain("put down the ")).with(
            name_fragment(&held_description, &held_glyph),
        ).with(Fragment::plain(" and "));
        put_down = Some((held, position));
        proof {
            held_parts = Some(parts_of(*world, held));
        }
    }
    line = line.with(Fragment::plain("pick up the ")).with(name_fragment(&description, &glyph));
    assert(line@ =~= pick_up_line(held_parts, it));
    record(commands, Command::Take(target));
    if let Some((held, place)) = put_down {
        record(commands, Command::Put(place.vector, 1, Object::new(held, false, false)));
    }
    let holding = Equipment {
        held: Some(target),
        storage: equipment.storage,
        wearables: equipment.wearables,
    };
    record(commands, Command::Attach(entity, Component::Equipment(holding)));
    record(commands, Command::Detach(entity, Kind::Grab));
    log.add(line);
    proof {
        let outcome = grab_outcome(world_entities(*world), map@, entity)->Ok_0;
        assert(views(commands@) =~= before + outcome.commands);
        assert(log@.entries =~= lines + outcome.entries);
    }
    Ok(())
}

/// What is made of each entity by the grab system, judged by `entities` and `map`.
pub open spec fn grab_resolver(entities: Map<Entity, Parts>, map: MapView) -> spec_fn(Entity) -> Result<
    Outcome,
    Fault,
> {
    |entity: Entity| grab_outcome(entities, map, entity)
}

/// One pass of the grab system over `order`: every entity is judged by the world and the
/// map as they are when the pass begins, and what was written down is carried out when all
/// are judged. After a fault nothing is carried out.
pub fn grab_pass(world: &mut World, map: &mut MapBase, log: &mut List, order: &Vec<Entity>) -> (result:
    Result<(), Fault>)
    ensures
        final(map)@.size == old(map)@.size,
        consistent(state_of(*old(world), *old(map))) ==> consistent(state_of(*final(world), *final(map))),
        final(log)@ == (ListView {
            entries: old(log)@.entries + pass_entries(
                grab_resolver(world_entities(*old(world)), old(map)@),
                order@,
            ),
            ..old(log)@
        }),
        match pass_outcome(grab_resolver(world_entities(*old(world)), old(map)@), order@) {
            Ok(outcome) => result is Ok && state_of(*final(world), *final(map)) == apply_all(
                state_of(*old(world), *old(map)),
                outcome.commands,
            ),
            Err(fault) => result == Err::<(), Fault>(fault) && state_of(*final(world), *final(map))
                == state_of(*old(world), *old(map)),
        },
{
    let ghost resolve = grab_resolver(world_entities(*world), map@);
    let ghost lines = log@.entries;
    let mut commands: Vec<Command> = Vec::new();
    let mut next: usize = 0;
    assert(views(commands@) =~= Seq::<CommandView>::empty());
    assert(lines + pass_entries(resolve, order@.take(0)) =~= lines);
    while next < order.len()
        invariant
            next <= order@.len(),
            *world == *old(world),
            *map == *old(map),
            resolve == grab_resolver(world_entities(*world), map@),
            pass_outcome(resolve, order@.take(next as int)) matches Ok(outcome) && outcome.commands == views(
                commands@,
            ),
            log@ == (ListView {
                entries: lines + pass_entries(resolve, order@.take(next as int)),
                ..old(log)@
            }),
            lines == old(log)@.entries,
        decreases order@.len() - next,
    {
        proof {
            lemma_pass_step(resolve, order@, next as int);
        }
        let ghost logged = log@.entries;
        match grab(world, map, log, &mut commands, order[next]) {
            Ok(()) => {
                proof {
                    let outcome = resolve(order@[next as int])->Ok_0;
                    assert(log@.entries == logged + outcome.entries);
                    assert(log@.entries =~= lines + pass_entries(resolve, order@.take(next + 1)));
                }
            },
            Err(fault) => {
                proof {
                    lemma_fault_stops_pass(resolve, order@, next + 1);
                }
                return Err(fault);
            },
        }
        next += 1;
    }
    proof {
        assert(order@.take(next as int) =~= order@);
        lemma_commands_keep_size(state_of(*world, *map), views(commands@));
    }
    flush(world, map, commands);
    Ok(())
}

/// The grab system: one pass over the entities that have a `Grab`, in the order in
/// which the world hands them out. The order is handed back with the result.
pub fn grab_system(world: &mut World, map: &mut MapBase, log: &mut List) -> (result: (
    Vec<Entity>,
    Result<(), Fault>,
))
    ensures
        final(map)@.size == old(map)@.size,
        consistent(state_of(*old(world), *old(map))) ==> consistent(state_of(*final(world), *final(map))),
        result.0@.no_duplicates(),
        forall|entity: Entity|
            #[trigger] result.0@.contains(entity) == (is_alive(*old(world), entity) && parts_of(
                *old(world),
                entity,
            ).grab is Some),
        final(log)@ == (ListView {
            entries: old(log)@.entries + pass_entries(
                grab_resolver(world_entities(*old(world)), old(map)@),
                result.0@,
            ),
            ..old(log)@
        }),
        match pass_outcome(grab_resolver(world_entities(*old(world)), old(map)@), result.0@) {
            Ok(outcome) => result.1 is Ok && state_of(*final(world), *final(map)) == apply_all(
                state_of(*old(world), *old(map)),
                outcome.commands,
            ),
            Err(fault) => result.1 == Err::<(), Fault>(fault) && state_of(*final(world), *final(map))
                == state_of(*old(world), *old(map)),
        },
{
    let order = entities_with::<Grab>(world);
    let result = grab_pass(world, map, log, &order);
    (order, result)
}

/// The grab system takes no entity out of the world and changes no `Memory`.
pub proof fn lemma_grab_is_gentle(entities: Map<Entity, Parts>, map: MapView, order: Seq<Entity>)
    ensures
        pass_outcome(grab_resolver(entities, map), order) matches Ok(outcome) ==> all_gentle(outcome.commands),
{
    let resolve = grab_resolver(entities, map);
    assert forall|entity: Entity| (#[trigger] resolve(entity)) is Ok implies all_gentle(
        resolve(entity)->Ok_0.commands,
    ) by {
        assert(resolve(entity) == grab_outcome(entities, map, entity));
    }
    lemma_gentle_pass(resolve, order);
}

} // verus!
