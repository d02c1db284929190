use vstd::prelude::*;
use bracket_random::prelude::RandomNumberGenerator;
use legion::{Entity, World};
use crate::assets::{find_named, lemma_template_without_memory, Assets, Template};
use crate::commands::{apply_all, flush, lemma_views_push, state_of, views, Command, CommandView, Kind, State};
use crate::components::position::Position;
use crate::consistency::{consistent, lemma_created_keep};
use crate::generation::{all_new, lemma_created_are_bare, with_created};
use crate::components::spawn::{Spawn, SpawnDescription, SpawnDescriptionView, SpawnType, CHANCE_SCALE};
use crate::entities::{component_views, record_spawn, spawn_commands};
use crate::map::MapBase;
use crate::random::{pick_index, roll_range};
use crate::systems::{all_gentle, gentle, lemma_gentle_commands, lemma_gentle_concat, same_memories, Fault};
use crate::vector::Vector;
use crate::world::{create, destroy, entities_with, fetch, is_alive, parts_of, world_entities, Parts};

verus! {

/// Which of `choices` comes into being: the one picked, where the roll is below its chance.
pub open spec fn chosen(choices: Seq<SpawnDescriptionView>, pick: Option<usize>, roll: int) -> Option<
    int,
> {
    match pick {
        Some(index) => if index < choices.len() && roll < choices[index as int].probability {
            Some(index as int)
        } else {
            None
        },
        None => None,
    }
}

/// Which of `choices` comes into being, for the index and the number that were drawn.
pub fn spawn_choice(choices: &Vec<SpawnDescription>, pick: Option<usize>, roll: i32) -> (choice: Option<
    usize,
>)
    ensures
        (match choice {
            Some(index) => Some(index as int),
            None => None,
        }) == chosen(choices@.map_values(|choice: SpawnDescription| choice@), pick, roll as int),
{
    match pick {
        Some(index) => {
            if index < choices.len() && (roll as i64) < (choices[index].probability as i64) {
                Some(index)
            } else {
                None
            }
        },
        None => None,
    }
}

/// Whether every one of `choices` is sure to come when it is picked: its chance is the whole
/// of `CHANCE_SCALE`, or more.
pub open spec fn all_sure(choices: Seq<SpawnDescriptionView>) -> bool {
    forall|i: int| 0 <= i < choices.len() ==> (#[trigger] choices[i]).probability >= CHANCE_SCALE
}

/// Draws which of `choices` comes into being: one of them is picked, each as likely as the
/// other, and a number from 0 up to, and not including, `CHANCE_SCALE` is rolled against its
/// chance. What comes is a choice with a chance above nothing. Where there are choices and
/// every one of them is sure, one comes; where there are none, none does. In between, chance
/// decides.
pub fn draw_choice(rng: &mut RandomNumberGenerator, choices: &Vec<SpawnDescription>) -> (choice: Option<
    usize,
>)
    ensures
        choice matches Some(index) ==> index < choices@.len() && choices@[index as int].probability > 0,
        choices@.len() > 0 && all_sure(choices@.map_values(|choice: SpawnDescription| choice@))
            ==> choice is Some,
        choices@.len() == 0 ==> choice is None,
{
    let pick = pick_index(rng, choices.as_slice());
    let roll: i32 = roll_range(rng, 0, CHANCE_SCALE as i32);
    let ghost views = choices@.map_values(|choice: SpawnDescription| choice@);
    proof {
        if let Some(index) = pick {
            assert(views[index as int] == choices@[index as int]@);
        }
    }
    spawn_choice(choices, pick, roll)
}

/// The commands that the spawning of `actor` at `position` writes down, where `template` is
/// what is made, as `made`: those that bring `made` into being, and the one that takes the
/// actor's `Spawn` away.
pub open spec fn spawning_commands(
    actor: Entity,
    position: Vector,
    template: Option<Template>,
    made: Option<Entity>,
) -> Seq<CommandView> {
    (match (template, made) {
        (Some(template), Some(entity)) => spawn_commands(
            entity,
            position,
            template.components,
            template.block_fov,
            template.block_movement,
        ),
        _ => Seq::empty(),
    }).push(CommandView::Detach(actor, Kind::Spawn))
}

/// Makes what `choice` names at `position`, if it names anything, and takes the `Spawn` of
/// `actor` away in either case. A choice that the catalogue does not have is a fault, and
/// nothing is made or written down.
pub fn spawn_chosen(
    world: &mut World,
    commands: &mut Vec<Command>,
    assets: &Assets,
    actor: Entity,
    position: Vector,
    choice: Option<&SpawnDescription>,
) -> (result: Result<Option<Entity>, Fault>)
    ensures
        match choice {
            Some(wanted) if assets.template(wanted.ty, wanted.name@) is None => result == Err::<
                Option<Entity>,
                Fault,
            >(Fault::UnknownAsset) && *final(world) == *old(world)
                && final(commands)@ == old(commands)@,
            Some(wanted) => result matches Ok(Some(made)) && !is_alive(*old(world), made)
                && world_entities(*final(world)) == world_entities(*old(world)).insert(
                made,
                Parts::empty(),
            ) && views(final(commands)@) == views(old(commands)@) + spawning_commands(
                actor,
                position,
                assets.template(wanted.ty, wanted.name@),
                Some(made),
            ),
            None => result == Ok::<Option<Entity>, Fault>(None) && *final(world) == *old(world)
                && views(final(commands)@) == views(old(commands)@) + spawning_commands(
                actor,
                position,
                None,
                None,
            ),
        },
{
    let ghost before = views(commands@);
    let done = Command::Detach(actor, Kind::Spawn);
    let wanted = match choice {
        Some(wanted) => wanted,
        None => {
            proof {
                lemma_views_push(commands@, done);
            }
            commands.push(done);
            assert(views(commands@) =~= before + spawning_commands(actor, position, None, None));
            return Ok(None);
        },
    };
    let ghost template = assets.template(wanted.ty, wanted.name@);
    let name = wanted.name.as_str();
    let (bundle, block_fov, block_movement) = match wanted.ty {
        SpawnType::Floor => match find_named(&assets.floors, name) {
            Some(floor) => (floor.bundle(), false, false),
            None => return Err(Fault::UnknownAsset),
        },
        SpawnType::Wall => match find_named(&assets.walls, name) {
            Some(wall) => (wall.bundle(), true, true),
            None => return Err(Fault::UnknownAsset),
        },
        SpawnType::Item => match find_named(&assets.items, name) {
            Some(item) => (item.bundle(), false, false),
            None => return Err(Fault::UnknownAsset),
        },
        SpawnType::Creature => match find_named(&assets.creatures, name) {
            Some(creature) => (creature.bundle(), false, false),
            None => return Err(Fault::UnknownAsset),
        },
    };
    assert(template == Some(
        Template { components: component_views(bundle@), block_fov, block_movement },
    ));
    let made = create(world);
    record_spawn(commands, made, position, bundle, block_fov, block_movement);
    proof {
        lemma_views_push(commands@, done);
    }
    commands.push(done);
    assert(views(commands@) =~= before + spawning_commands(actor, position, template, Some(made)));
    Ok(Some(made))
}

/// What came of one spawner: which of its choices came into being, if any, and as which
/// entity.
#[derive(Debug, Copy, Clone)]
pub struct Spawned {
    pub choice: Option<usize>,
    pub made: Option<Entity>,
}

/// Whether `actor` is a spawner: in the world, with a `Position` and a `Spawn`.
pub open spec fn is_spawner(entities: Map<Entity, Parts>, actor: Entity) -> bool {
    entities.dom().contains(actor) && entities[actor].position is Some && entities[actor].spawn is Some
}

/// What is made after the choice at `index` of `actor`; `None` where the catalogue does not
/// have it.
pub open spec fn template_of(
    entities: Map<Entity, Parts>,
    assets: Assets,
    actor: Entity,
    index: usize,
) -> Option<Template> {
    assets.template(
        entities[actor].spawn->0[index as int].ty,
        entities[actor].spawn->0[index as int].name,
    )
}

/// Whether the choice at `index` of `actor` is one that the catalogue does not have.
pub open spec fn unknown_choice(
    entities: Map<Entity, Parts>,
    assets: Assets,
    actor: Entity,
    index: int,
) -> bool {
    0 <= index < entities[actor].spawn->0.len() && assets.template(
        entities[actor].spawn->0[index].ty,
        entities[actor].spawn->0[index].name,
    ) is None
}

/// Whether `actor` is a spawner with a choice that the catalogue does not have. Only of
/// such a spawner can a fault come; of all others something comes whatever is drawn.
pub open spec fn has_unknown_choice(entities: Map<Entity, Parts>, assets: Assets, actor: Entity) -> bool {
    is_spawner(entities, actor) && exists|index: int| #[trigger] unknown_choice(entities, assets, actor, index)
}

/// Whether one of `order` is a spawner with a choice that the catalogue does not have.
pub open spec fn any_unknown_choice(entities: Map<Entity, Parts>, assets: Assets, order: Seq<Entity>) -> bool {
    exists|k: int| 0 <= k < order.len() && has_unknown_choice(entities, assets, #[trigger] order[k])
}

/// Whether something is sure to come of `actor`: it is a spawner with a choice, and every
/// one of its choices is sure to come when it is picked.
pub open spec fn sure_to_spawn(entities: Map<Entity, Parts>, actor: Entity) -> bool {
    is_spawner(entities, actor) && entities[actor].spawn->0.len() > 0 && all_sure(entities[actor].spawn->0)
}

/// Whether `spawned` can come of `actor`: something is made exactly where the actor is a
/// spawner and one of its choices came, and the catalogue has that choice. A choice that
/// came has a chance above nothing, and none comes only where not every choice is sure, or
/// there is no choice at all.
pub open spec fn well_spawned(
    entities: Map<Entity, Parts>,
    assets: Assets,
    actor: Entity,
    spawned: Spawned,
) -> bool {
    if is_spawner(entities, actor) {
        match spawned.choice {
            Some(index) => index < entities[actor].spawn->0.len() && entities[actor].spawn->0[index as int].probability
                > 0 && template_of(entities, assets, actor, index) is Some && spawned.made is Some,
            None => spawned.made is None && !sure_to_spawn(entities, actor),
        }
    } else {
        spawned.choice is None && spawned.made is None
    }
}

/// Of a spawner with a choice, all of whose choices are sure, something is made whatever is
/// drawn: what came of it names one of its choices and the entity made after it. And
/// whatever came of any spawner, a choice that came has a chance above nothing.
pub proof fn lemma_sure_spawner_spawns(
    entities: Map<Entity, Parts>,
    assets: Assets,
    actor: Entity,
    spawned: Spawned,
)
    requires
        well_spawned(entities, assets, actor, spawned),
    ensures
        sure_to_spawn(entities, actor) ==> spawned.choice is Some && spawned.made is Some,
        is_spawner(entities, actor) ==> (spawned.choice matches Some(index) ==> index
            < entities[actor].spawn->0.len() && entities[actor].spawn->0[index as int].probability > 0),
{
}

/// The commands that come of `actor` where `spawned` came of it: none for an actor that is
/// no spawner.
pub open spec fn spawned_commands(
    entities: Map<Entity, Parts>,
    assets: Assets,
    actor: Entity,
    spawned: Spawned,
) -> Seq<CommandView> {
    if !is_spawner(entities, actor) {
        Seq::empty()
    } else {
        match spawned.choice {
            Some(index) => spawning_commands(
                actor,
                entities[actor].position->0.vector,
                template_of(entities, assets, actor, index),
                spawned.made,
            ),
            None => spawning_commands(actor, entities[actor].position->0.vector, None, None),
        }
    }
}

/// Resolves the spawning of one actor: draws what comes into being where it stands, makes
/// it, and takes the actor's `Spawn` away. An actor without a `Position` or without a `Spawn`
/// is passed over. What is handed back says what was drawn and what was made. A choice that
/// the catalogue does not have is a fault, and nothing is made or written down.
///
/// What comes is a choice with a chance above nothing, and where the actor has choices and
/// all of them are sure, one comes. In between, chance decides.
pub fn spawn(
    world: &mut World,
    commands: &mut Vec<Command>,
    rng: &mut RandomNumberGenerator,
    assets: &Assets,
    entity: Entity,
) -> (result: Result<Spawned, Fault>)
    ensures
        match result {
            Ok(spawned) => {
                &&& well_spawned(world_entities(*old(world)), *assets, entity, spawned)
                &&& views(final(commands)@) == views(old(commands)@) + spawned_commands(
                    world_entities(*old(world)),
                    *assets,
                    entity,
                    spawned,
                )
                &&& match spawned.made {
                    Some(made) => !is_alive(*old(world), made) && world_entities(*final(world))
                        == world_entities(*old(world)).insert(made, Parts::empty()),
                    None => *final(world) == *old(world),
                }
            },
            Err(fault) => fault == Fault::UnknownAsset && has_unknown_choice(
                world_entities(*old(world)),
                *assets,
                entity,
            ) && *final(world) == *old(world) && final(commands)@ == old(commands)@,
        },
{
    let ghost before = views(commands@);
    assert(before + Seq::<CommandView>::empty() =~= before);
    let position = match fetch::<Position>(world, entity) {
        Some(position) => position,
        None => return Ok(Spawned { choice: None, made: None }),
    };
    let spawning = match fetch::<Spawn>(world, entity) {
        Some(spawning) => spawning,
        None => return Ok(Spawned { choice: None, made: None }),
    };
    let choice = draw_choice(rng, &spawning.choices);
    let wanted = match choice {
        Some(index) => {
            assert(spawning@[index as int] == spawning.choices@[index as int]@);
            Some(&spawning.choices[index])
        },
        None => None,
    };
    let ghost entities = world_entities(*world);
    match spawn_chosen(world, commands, assets, entity, position.vector, wanted) {
        Ok(made) => Ok(Spawned { choice, made }),
        Err(fault) => {
            assert(unknown_choice(entities, *assets, entity, choice->0 as int));
            Err(fault)
        },
    }
}

/// The entities that were made, in the order of `spawned`.
pub open spec fn made_of(spawned: Seq<Spawned>) -> Seq<Entity>
    decreases spawned.len(),
{
    if spawned.len() == 0 {
        Seq::empty()
    } else {
        match spawned.last().made {
            Some(entity) => made_of(spawned.drop_last()).push(entity),
            None => made_of(spawned.drop_last()),
        }
    }
}

/// The commands of a pass over the first `count` of `order`, where `spawned[i]` came of
/// `order[i]`; every actor is judged by `entities`.
pub open spec fn spawn_pass_commands(
    entities: Map<Entity, Parts>,
    assets: Assets,
    order: Seq<Entity>,
    spawned: Seq<Spawned>,
    count: nat,
) -> Seq<CommandView>
    decreases count,
{
    if count == 0 {
        Seq::empty()
    } else {
        spawn_pass_commands(entities, assets, order, spawned, (count - 1) as nat) + spawned_commands(
            entities,
            assets,
            order[count - 1],
            spawned[count - 1],
        )
    }
}

/// The state after a pass of the spawn system over `order`, where `spawned[i]` came of
/// `order[i]`: the entities made are in the world, and the commands of all actors are
/// carried out on that.
pub open spec fn spawn_pass_state(state: State, assets: Assets, order: Seq<Entity>, spawned: Seq<Spawned>) -> State {
    apply_all(
        State { entities: with_created(state.entities, made_of(spawned)), map: state.map },
        spawn_pass_commands(state.entities, assets, order, spawned, order.len()),
    )
}

/// Entities that are new to a world leave all that were in it as they were.
pub proof fn lemma_created_frame(entities: Map<Entity, Parts>, made: Seq<Entity>)
    requires
        all_new(entities, made),
    ensures
        forall|entity: Entity|
            entities.dom().contains(entity) ==> #[trigger] with_created(entities, made).dom().contains(entity),
        forall|entity: Entity|
            entities.dom().contains(entity) ==> #[trigger] with_created(entities, made)[entity]
                == entities[entity],
        forall|i: int| 0 <= i < made.len() ==> with_created(entities, made).dom().contains(#[trigger] made[i]),
    decreases made.len(),
{
    if made.len() > 0 {
        let shorter = made.drop_last();
        assert forall|i: int| 0 <= i < shorter.len() implies !entities.dom().contains(#[trigger] shorter[i]) by {
            assert(shorter[i] == made[i]);
        }
        lemma_created_frame(entities, shorter);
        let before = with_created(entities, shorter);
        let after = with_created(entities, made);
        assert(!entities.dom().contains(made[made.len() - 1]));
        assert forall|entity: Entity| entities.dom().contains(entity) implies #[trigger] after.dom().contains(
            entity,
        ) by {
            assert(before.dom().contains(entity));
        }
        assert forall|entity: Entity| entities.dom().contains(entity) implies #[trigger] after[entity]
            == entities[entity] by {
            assert(before.dom().contains(entity));
            assert(before[entity] == entities[entity]);
        }
        assert forall|i: int| 0 <= i < made.len() implies after.dom().contains(#[trigger] made[i]) by {
            if i < shorter.len() {
                assert(shorter[i] == made[i]);
            }
        }
    }
}

/// Taking entities that were new to a world out of it again leaves the world that was.
fn unmake(world: &mut World, made: &Vec<Entity>, Ghost(before): Ghost<Map<Entity, Parts>>)
    requires
        all_new(before, made@),
        world_entities(*old(world)) == with_created(before, made@),
    ensures
        world_entities(*final(world)) == before,
{
    let mut left: usize = made.len();
    assert(made@.take(left as int) =~= made@);
    while left > 0
        invariant
            left <= made@.len(),
            all_new(before, made@),
            world_entities(*world) == with_created(before, made@.take(left as int)),
        decreases left,
    {
        let ghost current = made@.take(left as int);
        proof {
            assert(current.drop_last() =~= made@.take(left - 1));
            assert(current.last() == made@[left - 1]);
            let shorter = made@.take(left - 1);
            assert forall|i: int| 0 <= i < shorter.len() implies !before.dom().contains(#[trigger] shorter[i]) by {
                assert(shorter[i] == made@[i]);
            }
            assert(shorter.no_duplicates());
            lemma_created_frame(before, shorter);
            assert(!with_created(before, shorter).dom().contains(made@[left - 1])) by {
                lemma_created_dom(before, shorter, made@[left - 1]);
                if shorter.contains(made@[left - 1]) {
                    let at = choose|i: int| 0 <= i < shorter.len() && shorter[i] == made@[left - 1];
                    assert(made@[at] == made@[left - 1]);
                }
            }
        }
        left -= 1;
        destroy(world, made[left]);
        assert(world_entities(*world) =~= with_created(before, made@.take(left as int)));
    }
}

/// Whoever is in a world with new entities was in it before or is one of the new.
pub proof fn lemma_created_dom(entities: Map<Entity, Parts>, made: Seq<Entity>, entity: Entity)
    ensures
        with_created(entities, made).dom().contains(entity) ==> entities.dom().contains(entity)
            || made.contains(entity),
    decreases made.len(),
{
    if made.len() > 0 {
        lemma_created_dom(entities, made.drop_last(), entity);
        if entity == made.last() {
            assert(made[made.len() - 1] == entity);
        } else if made.drop_last().contains(entity) {
            let shorter = made.drop_last();
            let at = choose|i: int| 0 <= i < shorter.len() && shorter[i] == entity;
            assert(made[at] == entity);
        }
    }
}

/// One pass of the spawn system over `order`: every spawner is resolved, and what was
/// written down is carried out when all are resolved. What came of each is handed back:
/// of a spawner whose choices are all sure something is made, and nothing is made after a
/// choice without a chance. After a fault the world and the map are as they were.
#[verifier::rlimit(40)]
pub fn spawn_pass(
    world: &mut World,
    map: &mut MapBase,
    rng: &mut RandomNumberGenerator,
    assets: &Assets,
    order: &Vec<Entity>,
) -> (result: Result<Vec<Spawned>, Fault>)
    ensures
        final(map)@.size == old(map)@.size,
        consistent(state_of(*old(world), *old(map))) ==> consistent(state_of(*final(world), *final(map))),
        match result {
            Ok(spawned) => {
                &&& spawned@.len() == order@.len()
                &&& all_new(world_entities(*old(world)), made_of(spawned@))
                &&& forall|i: int|
                    0 <= i < order@.len() ==> well_spawned(
                        world_entities(*old(world)),
                        *assets,
                        order@[i],
                        #[trigger] spawned@[i],
                    )
                &&& state_of(*final(world), *final(map)) == spawn_pass_state(
                    state_of(*old(world), *old(map)),
                    *assets,
                    order@,
                    spawned@,
                )
            },
            Err(fault) => fault == Fault::UnknownAsset && any_unknown_choice(
                world_entities(*old(world)),
                *assets,
                order@,
            ) && state_of(*final(world), *final(map)) == state_of(*old(world), *old(map)),
        },
{
    let ghost before = world_entities(*world);
    let mut commands: Vec<Command> = Vec::new();
    let mut spawned: Vec<Spawned> = Vec::new();
    let mut made: Vec<Entity> = Vec::new();
    assert(views(commands@) =~= Seq::<CommandView>::empty());
    while spawned.len() < order.len()
        invariant
            spawned@.len() <= order@.len(),
            *map == *old(map),
            before == world_entities(*old(world)),
            made@ == made_of(spawned@),
            all_new(before, made@),
            world_entities(*world) == with_created(before, made@),
            forall|i: int|
                0 <= i < spawned@.len() ==> well_spawned(before, *assets, order@[i], #[trigger] spawned@[i]),
            views(commands@) == spawn_pass_commands(before, *assets, order@, spawned@, spawned@.len()),
        decreases order@.len() - spawned@.len(),
    {
        let next: usize = spawned.len();
        let actor = order[next];
        let ghost current = world_entities(*world);
        proof {
            lemma_created_frame(before, made@);
            lemma_created_dom(before, made@, actor);
            lemma_created_are_bare(before, made@);
            if before.dom().contains(actor) {
                assert(current[actor] == before[actor]);
            } else if current.dom().contains(actor) {
                let at = choose|i: int| 0 <= i < made@.len() && made@[i] == actor;
                assert(current[made@[at]].position is None);
            }
            assert(is_spawner(current, actor) == is_spawner(before, actor));
        }
        match spawn(world, &mut commands, rng, assets, actor) {
            Ok(outcome) => {
                let ghost earlier = spawned@;
                spawned.push(outcome);
                proof {
                    assert(spawned@.drop_last() =~= earlier);
                    lemma_same_pass_commands(before, *assets, order@, earlier, spawned@, next as nat);
                    assert(spawned_commands(current, *assets, actor, outcome) == spawned_commands(
                        before,
                        *assets,
                        actor,
                        outcome,
                    ));
                }
                if let Some(entity) = outcome.made {
                    proof {
                        assert(made@.push(entity).drop_last() =~= made@);
                        assert(!before.dom().contains(entity));
                        assert forall|i: int| 0 <= i < made@.len() implies made@[i] != entity by {
                            assert(current.dom().contains(made@[i]));
                        }
                    }
                    made.push(entity);
                }
            },
            Err(fault) => {
                proof {
                    assert(has_unknown_choice(current, *assets, actor));
                    assert(before.dom().contains(actor));
                    let index = choose|index: int| #[trigger] unknown_choice(current, *assets, actor, index);
                    assert(unknown_choice(before, *assets, actor, index));
                    assert(has_unknown_choice(before, *assets, order@[next as int]));
                }
                unmake(world, &made, Ghost(before));
                return Err(fault);
            },
        }
    }
    proof {
        if consistent(State { entities: before, map: map@ }) {
            lemma_created_keep(State { entities: before, map: map@ }, made@);
        }
    }
    flush(world, map, commands);
    Ok(spawned)
}

/// The commands of the first `count` actors do not depend on what came of the later ones.
proof fn lemma_same_pass_commands(
    entities: Map<Entity, Parts>,
    assets: Assets,
    order: Seq<Entity>,
    first: Seq<Spawned>,
    second: Seq<Spawned>,
    count: nat,
)
    requires
        count <= first.len(),
        count <= second.len(),
        forall|i: int| 0 <= i < count ==> first[i] == second[i],
    ensures
        spawn_pass_commands(entities, assets, order, first, count) == spawn_pass_commands(
            entities,
            assets,
            order,
            second,
            count,
        ),
    decreases count,
{
    if count > 0 {
        lemma_same_pass_commands(entities, assets, order, first, second, (count - 1) as nat);
    }
}

/// The spawn system: one pass over the entities that have a `Spawn`, in the order in which
/// the world hands them out. The order is handed back with the result. Of a spawner whose
/// choices are all sure something is made, and nothing is made after a choice without a
/// chance.
pub fn spawn_system(
    world: &mut World,
    map: &mut MapBase,
    rng: &mut RandomNumberGenerator,
    assets: &Assets,
) -> (result: (Vec<Entity>, Result<Vec<Spawned>, Fault>))
    ensures
        final(map)@.size == old(map)@.size,
        consistent(state_of(*old(world), *old(map))) ==> consistent(state_of(*final(world), *final(map))),
        result.0@.no_duplicates(),
        forall|entity: Entity|
            #[trigger] result.0@.contains(entity) == (is_alive(*old(world), entity) && parts_of(
                *old(world),
                entity,
            ).spawn is Some),
        match result.1 {
            Ok(spawned) => {
                &&& spawned@.len() == result.0@.len()
                &&& all_new(world_entities(*old(world)), made_of(spawned@))
                &&& forall|i: int|
                    0 <= i < result.0@.len() ==> well_spawned(
                        world_entities(*old(world)),
                        *assets,
                        result.0@[i],
                        #[trigger] spawned@[i],
                    )
                &&& state_of(*final(world), *final(map)) == spawn_pass_state(
                    state_of(*old(world), *old(map)),
                    *assets,
                    result.0@,
                    spawned@,
                )
            },
            Err(fault) => fault == Fault::UnknownAsset && any_unknown_choice(
                world_entities(*old(world)),
                *assets,
                result.0@,
            ) && state_of(*final(world), *final(map)) == state_of(*old(world), *old(map)),
        },
{
    let order = entities_with::<Spawn>(world);
    let result = spawn_pass(world, map, rng, assets, &order);
    (order, result)
}

/// What comes of a spawner takes no entity out of the world and changes no `Memory`.
pub proof fn lemma_spawned_is_gentle(
    entities: Map<Entity, Parts>,
    assets: Assets,
    actor: Entity,
    spawned: Spawned,
)
    ensures
        all_gentle(spawned_commands(entities, assets, actor, spawned)),
{
    let commands = spawned_commands(entities, assets, actor, spawned);
    if is_spawner(entities, actor) {
        if let Some(index) = spawned.choice {
            lemma_template_without_memory(
                assets,
                entities[actor].spawn->0[index as int].ty,
                entities[actor].spawn->0[index as int].name,
            );
        }
        assert forall|i: int| 0 <= i < commands.len() implies gentle(#[trigger] commands[i]) by {
            if i == commands.len() - 1 {
            } else if i == 0 {
            } else {
                let template = template_of(entities, assets, actor, spawned.choice->0)->0;
                assert(commands[i] == CommandView::Attach(spawned.made->0, template.components[i - 1]));
            }
        }
    }
}

/// A pass of the spawn system takes no entity out of the world and changes no `Memory`.
pub proof fn lemma_spawn_pass_is_gentle(
    entities: Map<Entity, Parts>,
    assets: Assets,
    order: Seq<Entity>,
    spawned: Seq<Spawned>,
    count: nat,
)
    ensures
        all_gentle(spawn_pass_commands(entities, assets, order, spawned, count)),
    decreases count,
{
    if count > 0 {
        lemma_spawn_pass_is_gentle(entities, assets, order, spawned, (count - 1) as nat);
        lemma_spawned_is_gentle(entities, assets, order[count - 1], spawned[count - 1]);
        lemma_gentle_concat(
            spawn_pass_commands(entities, assets, order, spawned, (count - 1) as nat),
            spawned_commands(entities, assets, order[count - 1], spawned[count - 1]),
        );
    }
}

/// A pass of the spawn system leaves every entity that was in the world in it, with the
/// `Memory` that it had.
pub proof fn lemma_spawn_pass_keeps_memories(
    state: State,
    assets: Assets,
    order: Seq<Entity>,
    spawned: Seq<Spawned>,
)
    requires
        all_new(state.entities, made_of(spawned)),
    ensures
        same_memories(state.entities, spawn_pass_state(state, assets, order, spawned).entities),
{
    let made = State { entities: with_created(state.entities, made_of(spawned)), map: state.map };
    lemma_created_frame(state.entities, made_of(spawned));
    lemma_spawn_pass_is_gentle(state.entities, assets, order, spawned, order.len());
    lemma_gentle_commands(made, spawn_pass_commands(state.entities, assets, order, spawned, order.len()));
    let after = spawn_pass_state(state, assets, order, spawned);
    assert forall|entity: Entity| #[trigger] state.entities.dom().contains(entity) implies after.entities.dom().contains(
        entity,
    ) && after.entities[entity].memory == state.entities[entity].memory by {
        assert(made.entities.dom().contains(entity));
        assert(made.entities[entity] == state.entities[entity]);
    }
}

} // verus!
