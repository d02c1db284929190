use vstd::prelude::*;
use bracket_random::prelude::RandomNumberGenerator;
use legion::{Entity, World};
use crate::assets::{find_named, first_named, Assets};
use crate::components::actions::grab::Grab;
use crate::components::actions::throw::Throw;
use crate::components::collision::Collision;
use crate::components::description::Description;
use crate::components::direction::Direction;
use crate::components::displacement::Displacement;
use crate::components::equipment::{Equipment, EquipmentView};
use crate::components::glyph::{Colour, Glyph};
use crate::components::light::Light;
use crate::components::memory::Memory;
use crate::components::meta::camera_focus::CameraFocus;
use crate::components::meta::intention::{Intent, Intention};
use crate::components::position::Position;
use crate::components::storage::Storage;
use crate::caves::lemma_ground_is_open;
use crate::commands::{apply_all, apply_command, empty_state, state_of, Command, State, TOP};
use crate::consistency::{
    consistent, lemma_command_keeps, lemma_created_keep, lemma_same_places_keep, same_places,
};
use crate::generation::{
    draw_rolls, generate_caves_from, grid_of, ground, is_ground, lemma_open_ground_stays_for_good,
    lemma_passes_keep_length, populated, roll_at, seeded, Grid,
};
use crate::interface::{Fragment, FragmentView, Label, List, ListView};
use crate::map::{is_wall, lemma_index_in_range, lemma_point_in_bounds, MapBase, MapView, Object};
use crate::random::{fresh_generator, roll_range};
use crate::render::{draw_remembered, draw_seen, remembered_sprites, seen_sprites, sprite_views, Sprite, SpriteView};
use crate::generation::all_new;
use crate::systems::displacement::{displacement_resolver, displacement_system, lemma_displacement_is_gentle};
use crate::systems::grab::{grab_resolver, grab_system, lemma_grab_is_gentle, named};
use crate::systems::spawn::{
    any_unknown_choice, lemma_spawn_pass_keeps_memories, made_of, spawn_pass_state, spawn_system, sure_to_spawn,
    well_spawned, Spawned,
};
use crate::systems::throw::{lemma_throw_is_gentle, throw_resolver, throw_system};
use crate::systems::velocity::{lemma_velocity_is_gentle, velocity_resolver, velocity_system};
use crate::systems::{
    all_gentle, lemma_gentle_commands, pass_entries, pass_outcome, same_memories, Fault, Outcome,
};
use crate::vector::Vector;
use crate::visibility::{
    check_tops, clear_illumination, darkened, find_lights, illuminate, illuminated, lemma_darkened_keeps_places,
    lemma_illuminated_keeps_places, lemma_memory_grows, lights_at, remember, remembered, top_at, top_entity,
    tops_alive,
};
use crate::world::{
    alive, attach, create, entities_with, fetch, is_alive, parts_of, world_entities, Parts,
};

verus! {

/// The number of smoothing passes that a new game's caves are given.
pub const CAVE_PASSES: u32 = 25;

/// The size of the pane that shows the log.
pub const EVENT_LOG_PANE_SIZE: (i32, i32) = (100, 12);

/// The left upper corner of the pane that shows the log.
pub const EVENT_LOG_PANE_POSITION: (i32, i32) = (0, 38);

/// The size of the pane that shows what the player carries.
pub const INVENTORY_PANE_SIZE: (i32, i32) = (25, 50);

/// The left upper corner of the pane that shows what the player carries.
pub const INVENTORY_PANE_POSITION: (i32, i32) = (75, 0);

/// A game: the world, its map, the player, and the two panes beside the map.
pub struct Game {
    pub player: Entity,
    pub map: MapBase,
    pub world: World,
    pub rng: RandomNumberGenerator,
    pub inventory_pane: List,
    pub log_pane: List,
}

/// What the player is made of when the game begins, standing at `start`.
pub open spec fn new_player(start: Vector) -> Parts {
    Parts {
        intention: Some(Intention { intent: Intent::Walk }),
        equipment: Some(EquipmentView { held: None, storage: None, wearables: Seq::empty() }),
        collision: Some(Collision),
        glyph: Some(Glyph { character: '@', colour: Colour { r: 115, g: 255, b: 115, a: 255 } }),
        camera_focus: Some(CameraFocus),
        position: Some(Position { vector: start }),
        memory: Some(Seq::empty()),
        ..Parts::empty()
    }
}

/// Whether a map can have `dimensions`: neither is negative and the cells can be counted in
/// `i32`.
pub open spec fn dimensions_fit(dimensions: (i32, i32)) -> bool {
    0 <= dimensions.0 && 0 <= dimensions.1 && dimensions.0 * dimensions.1 <= i32::MAX
}

/// The caves that a new game on a map of `dimensions` makes from `rolls`: which cells are
/// walls.
pub open spec fn caves_of(dimensions: (i32, i32), rolls: Seq<bool>) -> Grid {
    seeded(Vector(dimensions.0, dimensions.1), rolls).smooth_times(CAVE_PASSES as nat)
}

/// Whether the cell at `index` of the caves made from `rolls` is no wall.
pub open spec fn open_cell(dimensions: (i32, i32), rolls: Seq<bool>, index: int) -> bool {
    0 <= index < caves_of(dimensions, rolls).walls.len() && !caves_of(dimensions, rolls).walls[index]
}

/// Whether the caves made from `rolls` have a cell that is no wall.
pub open spec fn has_open_cell(dimensions: (i32, i32), rolls: Seq<bool>) -> bool {
    exists|index: int| #[trigger] open_cell(dimensions, rolls, index)
}

/// Why no game begins on a map of `dimensions` with the catalogue `assets` and the caves
/// made from `rolls`, or `None` where one does: the dimensions are looked at first, then the
/// catalogue, then the caves.
pub open spec fn refusal(dimensions: (i32, i32), assets: Assets, rolls: Seq<bool>) -> Option<Fault> {
    if !dimensions_fit(dimensions) {
        Some(Fault::OutOfBounds)
    } else if first_named(assets.floors@, "cave"@) is None || first_named(assets.walls@, "cave"@) is None {
        Some(Fault::UnknownAsset)
    } else if !has_open_cell(dimensions, rolls) {
        Some(Fault::MissingEntity)
    } else {
        None
    }
}

/// On a map that has a cell, with both kinds in the catalogue, rolls that make no wall
/// refuse no game: a game begins.
pub proof fn lemma_open_rolls_begin(dimensions: (i32, i32), assets: Assets, rolls: Seq<bool>)
    requires
        dimensions_fit(dimensions),
        0 < dimensions.0,
        0 < dimensions.1,
        first_named(assets.floors@, "cave"@) is Some,
        first_named(assets.walls@, "cave"@) is Some,
        forall|index: int| !roll_at(rolls, index),
    ensures
        refusal(dimensions, assets, rolls) is None,
{
    let size = Vector(dimensions.0, dimensions.1);
    lemma_open_ground_stays_for_good(seeded(size, rolls), CAVE_PASSES as nat);
    assert(0 < dimensions.0 * dimensions.1) by (nonlinear_arith)
        requires
            0 < dimensions.0,
            0 < dimensions.1,
    ;
    assert(seeded(size, rolls).walls[0] == roll_at(rolls, 0));
    assert(open_cell(dimensions, rolls, 0));
}

/// A map without a cell has no ground: with both kinds in the catalogue, the game is
/// refused as `MissingEntity`, whatever the rolls.
pub proof fn lemma_no_cell_no_game(dimensions: (i32, i32), assets: Assets, rolls: Seq<bool>)
    requires
        dimensions_fit(dimensions),
        dimensions.0 == 0 || dimensions.1 == 0,
        first_named(assets.floors@, "cave"@) is Some,
        first_named(assets.walls@, "cave"@) is Some,
    ensures
        refusal(dimensions, assets, rolls) == Some(Fault::MissingEntity),
{
    let size = Vector(dimensions.0, dimensions.1);
    lemma_passes_keep_length(seeded(size, rolls), CAVE_PASSES as nat);
    assert(dimensions.0 * dimensions.1 == 0) by (nonlinear_arith)
        requires
            dimensions.0 == 0 || dimensions.1 == 0,
    ;
    if has_open_cell(dimensions, rolls) {
        let index = choose|index: int| #[trigger] open_cell(dimensions, rolls, index);
        assert(false);
    }
}

/// Whether `made` is a game as it begins on a map of `dimensions`: the world and the map
/// agree, every cell holds something, and the player, made as a new player is, stands on
/// top of a cell where there is ground. The panes are empty.
pub open spec fn well_begun(made: Game, dimensions: (i32, i32)) -> bool {
    &&& made.agrees()
    &&& populated(made.map@)
    &&& made.map@.wf()
    &&& made.map@.size == Vector(dimensions.0, dimensions.1)
    &&& is_alive(made.world, made.player)
    &&& parts_of(made.world, made.player).position is Some
    &&& parts_of(made.world, made.player) == new_player(parts_of(made.world, made.player).position->0.vector)
    &&& top_at(made.map@, parts_of(made.world, made.player).position->0.vector) == Some(made.player)
    &&& is_ground(world_entities(made.world), parts_of(made.world, made.player).position->0.vector)
    &&& made.inventory_pane@ == (ListView {
        position: INVENTORY_PANE_POSITION,
        scale: INVENTORY_PANE_SIZE,
        entries: Seq::empty(),
        entry_padding: 0,
    })
    &&& made.log_pane@ == (ListView {
        position: EVENT_LOG_PANE_POSITION,
        scale: EVENT_LOG_PANE_SIZE,
        entries: Seq::empty(),
        entry_padding: 0,
    })
}

/// How many cells a map of `dimensions` has; none where no map can have them.
pub fn cells_of(dimensions: (i32, i32)) -> (count: usize)
    ensures
        count == if dimensions_fit(dimensions) {
            dimensions.0 * dimensions.1
        } else {
            0
        },
{
    if dimensions.0 < 0 || dimensions.1 < 0 {
        return 0;
    }
    assert(0 <= dimensions.0 * dimensions.1 <= 0x7fff_ffff * 0x7fff_ffff) by (nonlinear_arith)
        requires
            0 <= dimensions.0 <= 0x7fff_ffff,
            0 <= dimensions.1 <= 0x7fff_ffff,
    ;
    let cells: i64 = dimensions.0 as i64 * dimensions.1 as i64;
    if cells > i32::MAX as i64 {
        0
    } else {
        cells as usize
    }
}

/// Who was resolved by each system in one turn, in which order, and what came of the
/// spawners. What came of the spawners is `None` where the spawn system met a fault. A
/// system that was not reached has resolved nobody.
#[derive(Debug)]
pub struct Turn {
    pub spawners: Vec<Entity>,
    pub spawned: Option<Vec<Spawned>>,
    pub moved: Vec<Entity>,
    pub pushed: Vec<Entity>,
    pub grabbed: Vec<Entity>,
    pub thrown: Vec<Entity>,
}

/// A `Turn` with its lists as sequences.
pub struct TurnView {
    pub spawners: Seq<Entity>,
    pub spawned: Option<Seq<Spawned>>,
    pub moved: Seq<Entity>,
    pub pushed: Seq<Entity>,
    pub grabbed: Seq<Entity>,
    pub thrown: Seq<Entity>,
}

impl View for Turn {
    type V = TurnView;

    open spec fn view(&self) -> TurnView {
        TurnView {
            spawners: self.spawners@,
            spawned: match self.spawned {
                Some(spawned) => Some(spawned@),
                None => None,
            },
            moved: self.moved@,
            pushed: self.pushed@,
            grabbed: self.grabbed@,
            thrown: self.thrown@,
        }
    }
}

/// The world and the map with the lines of the log: all that a turn can change.
pub struct Play {
    pub state: State,
    pub lines: Seq<Seq<FragmentView>>,
}

/// The play after one pass over `order`, and the fault that the pass met, if any. After a
/// fault the world and the map are as before the pass; the log has the lines of those that
/// were resolved before the fault.
pub open spec fn passed(
    resolve: spec_fn(Entity) -> Result<Outcome, Fault>,
    play: Play,
    order: Seq<Entity>,
) -> (Play, Option<Fault>) {
    let lines = play.lines + pass_entries(resolve, order);
    match pass_outcome(resolve, order) {
        Ok(outcome) => (Play { state: apply_all(play.state, outcome.commands), lines }, None),
        Err(fault) => (Play { state: play.state, lines }, Some(fault)),
    }
}

/// The play after the spawn system, and the fault that it met, if any.
pub open spec fn spawned_play(play: Play, assets: Assets, turn: TurnView) -> (Play, Option<Fault>) {
    match turn.spawned {
        Some(spawned) => (
            Play { state: spawn_pass_state(play.state, assets, turn.spawners, spawned), lines: play.lines },
            None,
        ),
        None => (play, Some(Fault::UnknownAsset)),
    }
}

/// The play before the systems run: the light is taken off every entity.
pub open spec fn dark_play(play: Play) -> Play {
    Play {
        state: State { entities: darkened(play.state.entities), map: play.state.map },
        lines: play.lines,
    }
}

/// The play after the displacement system, and the first fault so far.
pub open spec fn moved_play(play: Play, assets: Assets, turn: TurnView) -> (Play, Option<Fault>) {
    let before = spawned_play(dark_play(play), assets, turn);
    if before.1 is Some {
        before
    } else {
        passed(displacement_resolver(before.0.state.entities, before.0.state.map), before.0, turn.moved)
    }
}

/// The play after the velocity system, and the first fault so far.
pub open spec fn pushed_play(play: Play, assets: Assets, turn: TurnView) -> (Play, Option<Fault>) {
    let before = moved_play(play, assets, turn);
    if before.1 is Some {
        before
    } else {
        passed(velocity_resolver(before.0.state.entities, before.0.state.map), before.0, turn.pushed)
    }
}

/// The play after the grab system, and the first fault so far.
pub open spec fn grabbed_play(play: Play, assets: Assets, turn: TurnView) -> (Play, Option<Fault>) {
    let before = pushed_play(play, assets, turn);
    if before.1 is Some {
        before
    } else {
        passed(grab_resolver(before.0.state.entities, before.0.state.map), before.0, turn.grabbed)
    }
}

/// The play after the throw system, and the first fault so far.
pub open spec fn thrown_play(play: Play, assets: Assets, turn: TurnView) -> (Play, Option<Fault>) {
    let before = grabbed_play(play, assets, turn);
    if before.1 is Some {
        before
    } else {
        passed(throw_resolver(before.0.state.entities, before.0.state.map), before.0, turn.thrown)
    }
}

/// The play after a turn in which the systems resolved whom `turn` names, and the fault that
/// ended the turn, if one did. The light is taken off every entity before the systems run
/// and after.
pub open spec fn turn_outcome(play: Play, assets: Assets, turn: TurnView) -> (Play, Option<Fault>) {
    let after = thrown_play(play, assets, turn);
    (dark_play(after.0), after.1)
}

/// Whether `order` are the entities that have what a system looks for, each once.
pub open spec fn are_actors(
    entities: Map<Entity, Parts>,
    order: Seq<Entity>,
    marked: spec_fn(Parts) -> bool,
) -> bool {
    &&& order.no_duplicates()
    &&& forall|entity: Entity|
        #[trigger] order.contains(entity) == (entities.dom().contains(entity) && marked(entities[entity]))
}

/// Whether `turn` names whom the systems had to resolve in a turn that began in `state`:
/// each system resolved, once each, the entities that had what it looks for when it began,
/// and what came of the spawners could come of them: of a spawner whose choices are all
/// sure something was made, and nothing was made after a choice without a chance. Nothing
/// came of the spawners only where one of them has a choice that the catalogue does not
/// have. A system that was not reached is not spoken of.
pub open spec fn turn_sound(state: State, assets: Assets, turn: TurnView) -> bool {
    let play = Play { state, lines: Seq::empty() };
    let dark = dark_play(play);
    &&& are_actors(dark.state.entities, turn.spawners, |parts: Parts| parts.spawn is Some)
    &&& turn.spawned is None ==> any_unknown_choice(dark.state.entities, assets, turn.spawners)
    &&& turn.spawned matches Some(spawned) ==> {
        &&& spawned.len() == turn.spawners.len()
        &&& all_new(dark.state.entities, made_of(spawned))
        &&& forall|i: int|
            0 <= i < turn.spawners.len() ==> well_spawned(
                dark.state.entities,
                assets,
                turn.spawners[i],
                #[trigger] spawned[i],
            )
        &&& are_actors(
            spawned_play(dark, assets, turn).0.state.entities,
            turn.moved,
            |parts: Parts| parts.displacement is Some,
        )
    }
    &&& moved_play(play, assets, turn).1 is None ==> are_actors(
        moved_play(play, assets, turn).0.state.entities,
        turn.pushed,
        |parts: Parts| parts.velocity is Some,
    )
    &&& pushed_play(play, assets, turn).1 is None ==> are_actors(
        pushed_play(play, assets, turn).0.state.entities,
        turn.grabbed,
        |parts: Parts| parts.grab is Some,
    )
    &&& grabbed_play(play, assets, turn).1 is None ==> are_actors(
        grabbed_play(play, assets, turn).0.state.entities,
        turn.thrown,
        |parts: Parts| parts.throw is Some,
    )
}

/// In a turn whose spawn system met no fault, of every spawner whose choices are all sure
/// something was made, and whatever was made was made after a choice with a chance above
/// nothing.
pub proof fn lemma_sure_spawners_spawn_in_a_turn(state: State, assets: Assets, turn: TurnView, at: int)
    requires
        turn_sound(state, assets, turn),
        turn.spawned is Some,
        0 <= at < turn.spawners.len(),
    ensures
        sure_to_spawn(dark_play(Play { state, lines: Seq::empty() }).state.entities, turn.spawners[at])
            ==> turn.spawned->0[at].choice is Some && turn.spawned->0[at].made is Some,
        turn.spawned->0[at].made is Some ==> turn.spawned->0[at].choice is Some && parts_of_spawner(
            state,
            turn.spawners[at],
        ).spawn->0[turn.spawned->0[at].choice->0 as int].probability > 0,
{
    let entities = dark_play(Play { state, lines: Seq::empty() }).state.entities;
    assert(well_spawned(entities, assets, turn.spawners[at], turn.spawned->0[at]));
}

/// What a spawner is made of when the spawn system of a turn that began in `state` looks at
/// it: the light of the last turn is off.
pub open spec fn parts_of_spawner(state: State, spawner: Entity) -> Parts {
    dark_play(Play { state, lines: Seq::empty() }).state.entities[spawner]
}

/// Whoever keeps its `Memory` through one change and through the next keeps it through both.
pub proof fn lemma_memories_kept_twice(
    first: Map<Entity, Parts>,
    second: Map<Entity, Parts>,
    third: Map<Entity, Parts>,
)
    requires
        same_memories(first, second),
        same_memories(second, third),
    ensures
        same_memories(first, third),
{
    assert forall|entity: Entity| #[trigger] first.dom().contains(entity) implies third.dom().contains(entity)
        && third[entity].memory == first[entity].memory by {
        assert(second.dom().contains(entity));
    }
}

/// A pass of gentle commands leaves every entity in the world with the `Memory` that it
/// had, whether it ends well or in a fault.
pub proof fn lemma_passed_keeps_memories(
    resolve: spec_fn(Entity) -> Result<Outcome, Fault>,
    play: Play,
    order: Seq<Entity>,
)
    requires
        pass_outcome(resolve, order) matches Ok(outcome) ==> all_gentle(outcome.commands),
    ensures
        same_memories(play.state.entities, passed(resolve, play, order).0.state.entities),
{
    if let Ok(outcome) = pass_outcome(resolve, order) {
        lemma_gentle_commands(play.state, outcome.commands);
    }
}

/// A turn takes no entity out of the world and leaves every `Memory` as it is: what an
/// observer remembers, it still remembers after the systems have run.
pub proof fn lemma_turn_keeps_memories(play: Play, assets: Assets, turn: TurnView)
    requires
        turn_sound(play.state, assets, turn),
    ensures
        same_memories(play.state.entities, turn_outcome(play, assets, turn).0.state.entities),
{
    let bare = Play { state: play.state, lines: Seq::empty() };
    let dark = dark_play(play);
    assert(dark.state == dark_play(bare).state);
    assert(darkened(play.state.entities).dom() =~= play.state.entities.dom());
    assert(same_memories(play.state.entities, dark.state.entities));
    let spawned = spawned_play(dark, assets, turn);
    if let Some(made) = turn.spawned {
        lemma_spawn_pass_keeps_memories(dark.state, assets, turn.spawners, made);
    }
    assert(same_memories(dark.state.entities, spawned.0.state.entities));
    lemma_memories_kept_twice(play.state.entities, dark.state.entities, spawned.0.state.entities);
    let moved = moved_play(play, assets, turn);
    if spawned.1 is None {
        lemma_displacement_is_gentle(spawned.0.state.entities, spawned.0.state.map, turn.moved);
        lemma_passed_keeps_memories(
            displacement_resolver(spawned.0.state.entities, spawned.0.state.map),
            spawned.0,
            turn.moved,
        );
    }
    lemma_memories_kept_twice(play.state.entities, spawned.0.state.entities, moved.0.state.entities);
    let pushed = pushed_play(play, assets, turn);
    if moved.1 is None {
        lemma_velocity_is_gentle(moved.0.state.entities, moved.0.state.map, turn.pushed);
        lemma_passed_keeps_memories(
            velocity_resolver(moved.0.state.entities, moved.0.state.map),
            moved.0,
            turn.pushed,
        );
    }
    lemma_memories_kept_twice(play.state.entities, moved.0.state.entities, pushed.0.state.entities);
    let grabbed = grabbed_play(play, assets, turn);
    if pushed.1 is None {
        lemma_grab_is_gentle(pushed.0.state.entities, pushed.0.state.map, turn.grabbed);
        lemma_passed_keeps_memories(
            grab_resolver(pushed.0.state.entities, pushed.0.state.map),
            pushed.0,
            turn.grabbed,
        );
    }
    lemma_memories_kept_twice(play.state.entities, pushed.0.state.entities, grabbed.0.state.entities);
    let thrown = thrown_play(play, assets, turn);
    if grabbed.1 is None {
        lemma_throw_is_gentle(grabbed.0.state.entities, grabbed.0.state.map, turn.thrown);
        lemma_passed_keeps_memories(
            throw_resolver(grabbed.0.state.entities, grabbed.0.state.map),
            grabbed.0,
            turn.thrown,
        );
    }
    lemma_memories_kept_twice(play.state.entities, grabbed.0.state.entities, thrown.0.state.entities);
    let after = turn_outcome(play, assets, turn);
    assert(darkened(thrown.0.state.entities).dom() =~= thrown.0.state.entities.dom());
    assert(same_memories(thrown.0.state.entities, after.0.state.entities));
    lemma_memories_kept_twice(play.state.entities, thrown.0.state.entities, after.0.state.entities);
}

/// Drawing the world makes no observer forget: whoever had a `Memory` has one after, with
/// all that was in it still in its place. The camera's has grown by what it saw and did not
/// remember yet; all others are as they were.
pub proof fn lemma_view_grows_memory(
    entities: Map<Entity, Parts>,
    map: MapView,
    camera: Option<Entity>,
    seen: Seq<Vector>,
    entity: Entity,
)
    requires
        entities.dom().contains(entity),
        entities[entity].memory is Some,
    ensures
        view_of(entities, map, camera, seen) matches Ok(view) ==> {
            &&& view.1.dom().contains(entity)
            &&& view.1[entity].memory is Some
            &&& entities[entity].memory->0.len() <= view.1[entity].memory->0.len()
            &&& view.1[entity].memory->0.take(entities[entity].memory->0.len() as int)
                == entities[entity].memory->0
            &&& view.1[entity].memory->0 == entities[entity].memory->0 || (camera == Some(entity)
                && view.1[entity].memory->0 == remembered(entities[entity].memory->0, seen))
        },
{
    let memory = entities[entity].memory->0;
    lemma_memory_grows(memory, seen);
    assert(memory.take(memory.len() as int) =~= memory);
    assert(darkened(entities).dom() =~= entities.dom());
    if let Some(viewer) = camera {
        if entities.dom().contains(viewer) && entities[viewer].memory is Some {
            let noted = entities.insert(
                viewer,
                Parts { memory: Some(remembered(entities[viewer].memory->0, seen)), ..entities[viewer] },
            );
            assert(darkened(noted).dom() =~= noted.dom());
        }
    }
}

/// An input makes no observer forget, and takes no entity out of the world.
pub proof fn lemma_input_keeps_memories(
    entities: Map<Entity, Parts>,
    map: MapView,
    player: Entity,
    input: Option<Input>,
)
    ensures
        input_outcome(entities, map, player, input) matches Ok(outcome) ==> same_memories(entities, outcome.0),
{
}

/// What comes in from the keys.
#[derive(Debug, Copy, Clone, PartialEq, Eq, Structural)]
pub enum Input {
    /// Change what a direction means from now on.
    Mode(Intent),
    /// Walk, grab or throw towards the direction, as the mode says.
    Direction(Direction),
    /// Grab what lies where the player stands.
    GrabHere,
    /// Put what is held into the container.
    Stow,
}

/// What the player is made of before it is put onto the map.
pub open spec fn unplaced_player() -> Parts {
    Parts {
        intention: Some(Intention { intent: Intent::Walk }),
        equipment: Some(EquipmentView { held: None, storage: None, wearables: Seq::empty() }),
        collision: Some(Collision),
        glyph: Some(Glyph { character: '@', colour: Colour { r: 115, g: 255, b: 115, a: 255 } }),
        camera_focus: Some(CameraFocus),
        memory: Some(Seq::empty()),
        ..Parts::empty()
    }
}

fn make_player(world: &mut World) -> (player: Entity)
    ensures
        !is_alive(*old(world), player),
        world_entities(*final(world)) == world_entities(*old(world)).insert(player, unplaced_player()),
{
    let player = create(world);
    attach::<Intention>(world, player, Intention { intent: Intent::Walk });
    attach::<Equipment>(world, player, Equipment::default());
    attach::<Collision>(world, player, Collision);
    attach::<Glyph>(
        world,
        player,
        Glyph { character: '@', colour: Colour { r: 115, g: 255, b: 115, a: 255 } },
    );
    attach::<CameraFocus>(world, player, CameraFocus);
    attach::<Memory>(world, player, Memory::default());
    assert(world_entities(*world) =~= world_entities(*old(world)).insert(player, unplaced_player()));
    player
}

/// Whether an entity made of `parts` can be what the view is centred on.
pub open spec fn focused(parts: Parts) -> bool {
    parts.camera_focus is Some && parts.position is Some
}

/// Whether `camera` is what the view is centred on: an entity that has the `CameraFocus` and
/// a `Position`, or `None` where no entity has both.
pub open spec fn is_camera(entities: Map<Entity, Parts>, camera: Option<Entity>) -> bool {
    match camera {
        Some(entity) => entities.dom().contains(entity) && focused(entities[entity]),
        None => forall|entity: Entity| entities.dom().contains(entity) ==> !focused(#[trigger] entities[entity]),
    }
}

/// What is drawn of the world, and the entities after: the light is taken off all of them,
/// and what `camera` saw is added to its `Memory`.
///
/// Nothing is drawn where there is no camera or the camera has no `Glyph`. Else the cells
/// in `seen` are drawn, and after them, for a camera with a `Memory`, what it remembers and
/// does not see.
pub open spec fn view_of(
    entities: Map<Entity, Parts>,
    map: MapView,
    camera: Option<Entity>,
    seen: Seq<Vector>,
) -> Result<(Seq<SpriteView>, Map<Entity, Parts>), Fault> {
    match camera {
        Some(entity) if entities.dom().contains(entity) && focused(entities[entity])
            && entities[entity].glyph is Some => {
            let me = entities[entity];
            let at = me.position->0.vector;
            match seen_sprites(entities, map, at, seen) {
                Err(fault) => Err(fault),
                Ok(drawn) => match me.memory {
                    None => Ok((drawn, darkened(entities))),
                    Some(memory) => match remembered_sprites(entities, map, at, memory, seen) {
                        Err(fault) => Err(fault),
                        Ok(dim) => Ok(
                            (
                                drawn + dim,
                                darkened(
                                    entities.insert(
                                        entity,
                                        Parts { memory: Some(remembered(memory, seen)), ..me },
                                    ),
                                ),
                            ),
                        ),
                    },
                },
            }
        },
        _ => Ok((Seq::empty(), darkened(entities))),
    }
}

/// Whether what is on top of each point of the first `count` of `fields` is in the world.
pub open spec fn fields_sound(
    entities: Map<Entity, Parts>,
    map: MapView,
    fields: Seq<Vec<Vector>>,
    count: int,
) -> bool {
    forall|i: int| 0 <= i < count && i < fields.len() ==> tops_alive(entities, map, (#[trigger] fields[i])@)
}

/// A fragment in the colour of the list.
pub open spec fn plain(text: Seq<char>) -> FragmentView {
    FragmentView { text, colour: None }
}

/// What putting away what is held comes to: the entities after, and the line for the log.
///
/// With empty hands, and without a container, only a line is written. Else what is held is
/// added to what the container holds; it stays in the hands. The player has an `Equipment`;
/// what is held is in the world with a `Glyph` and a `Description`; the container is in the
/// world with a `Description` and a `Storage`; else the world is at fault.
pub open spec fn stow_outcome(entities: Map<Entity, Parts>, player: Entity) -> Result<
    (Map<Entity, Parts>, Seq<Seq<FragmentView>>),
    Fault,
> {
    let me = entities[player];
    if me.equipment is None {
        Err(Fault::MissingComponent)
    } else {
        match me.equipment->0.held {
            None => Ok((entities, seq![seq![plain("You "@), plain("are not holding anything"@)]])),
            Some(held) => if !entities.dom().contains(held) {
                Err(Fault::MissingEntity)
            } else if entities[held].glyph is None || entities[held].description is None {
                Err(Fault::MissingComponent)
            } else {
                match me.equipment->0.storage {
                    None => Ok(
                        (
                            entities,
                            seq![
                                seq![
                                    plain("You "@),
                                    plain("have no place to store the "@),
                                    named(entities[held]),
                                ],
                            ],
                        ),
                    ),
                    Some(storage) => if !entities.dom().contains(storage) {
                        Err(Fault::MissingEntity)
                    } else if entities[storage].description is None || entities[storage].storage is None {
                        Err(Fault::MissingComponent)
                    } else {
                        Ok(
                            (
                                entities.insert(
                                    storage,
                                    Parts {
                                        storage: Some(entities[storage].storage->0.push(held)),
                                        ..entities[storage]
                                    },
                                ),
                                seq![
                                    seq![
                                        plain("You "@),
                                        plain("place the "@),
                                        named(entities[held]),
                                        plain(" in your "@),
                                        plain(entities[storage].description->0.name),
                                    ],
                                ],
                            ),
                        )
                    },
                }
            },
        }
    }
}

/// What an input comes to: the entities after, and the lines for the log.
///
/// The player is in the world, has a `Position` on the map and an `Intention`; else the
/// world is at fault, whatever the input. A change of mode replaces the `Intention`. A
/// direction gives the player a `Displacement` of one step, a `Grab` of what is on top of
/// the cell next to it, or a `Throw`, as its mode says; where there is nothing to grab,
/// nothing happens. To grab here is to grab what lies one above the bottom of the player's
/// own cell, in any mode but that of throwing.
pub open spec fn input_outcome(
    entities: Map<Entity, Parts>,
    map: MapView,
    player: Entity,
    input: Option<Input>,
) -> Result<(Map<Entity, Parts>, Seq<Seq<FragmentView>>), Fault> {
    let me = entities[player];
    if !entities.dom().contains(player) {
        Err(Fault::MissingEntity)
    } else if me.position is None || me.intention is None {
        Err(Fault::MissingComponent)
    } else if !map.in_bounds(me.position->0.vector) {
        Err(Fault::OutOfBounds)
    } else {
        let at = me.position->0.vector;
        match input {
            None => Ok((entities, Seq::empty())),
            Some(Input::Mode(intent)) => Ok(
                (
                    entities.insert(player, Parts { intention: Some(Intention { intent }), ..me }),
                    Seq::empty(),
                ),
            ),
            Some(Input::Direction(direction)) => match me.intention->0.intent {
                Intent::Walk => Ok(
                    (
                        entities.insert(
                            player,
                            Parts { displacement: Some(seq![direction.unit_vector()]), ..me },
                        ),
                        Seq::empty(),
                    ),
                ),
                Intent::Grab => {
                    let x = at.0 + direction.unit_vector().0;
                    let y = at.1 + direction.unit_vector().1;
                    if map.contains(x, y) && map.cell_at(x, y).len() > 0 {
                        Ok(
                            (
                                entities.insert(
                                    player,
                                    Parts {
                                        grab: Some(Grab { entity: map.cell_at(x, y).last().entity }),
                                        ..me
                                    },
                                ),
                                Seq::empty(),
                            ),
                        )
                    } else {
                        Ok((entities, Seq::empty()))
                    }
                },
                Intent::Throw => Ok(
                    (
                        entities.insert(player, Parts { throw: Some(Throw { direction }), ..me }),
                        Seq::empty(),
                    ),
                ),
            },
            Some(Input::GrabHere) => if me.intention->0.intent != Intent::Throw && map.cell(at).len() > 1 {
                Ok(
                    (
                        entities.insert(
                            player,
                            Parts { grab: Some(Grab { entity: map.cell(at)[1].entity }), ..me },
                        ),
                        Seq::empty(),
                    ),
                )
            } else {
                Ok((entities, Seq::empty()))
            },
            Some(Input::Stow) => stow_outcome(entities, player),
        }
    }
}

/// The word that the pane shows for a mode.
pub open spec fn intent_word(intent: Intent) -> Seq<char> {
    match intent {
        Intent::Walk => "WALK"@,
        Intent::Grab => "GRAB"@,
        Intent::Throw => "THROW"@,
    }
}

/// The two lines of the pane that shows what the player carries: the mode, and the hands
/// with what is in them. The player is in the world with an `Equipment` and an
/// `Intention`, and what is held is in the world with a `Glyph` and a `Description`; else
/// the world is at fault.
pub open spec fn interface_lines(entities: Map<Entity, Parts>, player: Entity) -> Result<
    Seq<Seq<FragmentView>>,
    Fault,
> {
    let me = entities[player];
    if !entities.dom().contains(player) {
        Err(Fault::MissingEntity)
    } else if me.equipment is None || me.intention is None {
        Err(Fault::MissingComponent)
    } else {
        let mode = seq![plain(intent_word(me.intention->0.intent))];
        match me.equipment->0.held {
            None => Ok(seq![mode, seq![plain("Hands []"@)]]),
            Some(held) => if !entities.dom().contains(held) {
                Err(Fault::MissingEntity)
            } else if entities[held].glyph is None || entities[held].description is None {
                Err(Fault::MissingComponent)
            } else {
                Ok(
                    seq![
                        mode,
                        seq![
                            plain("Hands ["@),
                            FragmentView {
                                text: seq![entities[held].glyph->0.character],
                                colour: Some(entities[held].glyph->0.colour),
                            },
                            plain(" "@),
                            plain(entities[held].description->0.name),
                            plain("]"@),
                        ],
                    ],
                )
            },
        }
    }
}

/// Drawing the world changes no `Position`.
pub proof fn lemma_view_keeps_places(
    entities: Map<Entity, Parts>,
    map: MapView,
    camera: Option<Entity>,
    seen: Seq<Vector>,
)
    ensures
        view_of(entities, map, camera, seen) matches Ok(view) ==> same_places(entities, view.1),
{
    if let Ok(view) = view_of(entities, map, camera, seen) {
        lemma_darkened_keeps_places(entities);
        if let Some(entity) = camera {
            if entities.dom().contains(entity) && entities[entity].memory is Some {
                let noted = entities.insert(
                    entity,
                    Parts {
                        memory: Some(remembered(entities[entity].memory->0, seen)),
                        ..entities[entity]
                    },
                );
                lemma_darkened_keeps_places(noted);
                assert(noted.dom() =~= entities.dom());
                assert forall|other: Entity| entities.dom().contains(other) implies (
                #[trigger] entities[other]).position == view.1[other].position by {
                    assert(noted[other].position == entities[other].position);
                    assert(darkened(noted)[other].position == noted[other].position);
                    assert(darkened(entities)[other].position == entities[other].position);
                }
            }
        }
    }
}

/// What the view is centred on: the first entity, in the order in which the world hands
/// them out, that has the `CameraFocus` and a `Position`.
pub fn find_camera(world: &World) -> (camera: Option<Entity>)
    ensures
        is_camera(world_entities(*world), camera),
{
    let focuses = entities_with::<CameraFocus>(world);
    let mut next: usize = 0;
    while next < focuses.len()
        invariant
            next <= focuses@.len(),
            forall|entity: Entity|
                #[trigger] focuses@.contains(entity) == (is_alive(*world, entity) && parts_of(
                    *world,
                    entity,
                ).camera_focus is Some),
            forall|i: int|
                0 <= i < next ==> parts_of(*world, #[trigger] focuses@[i]).position is None,
        decreases focuses@.len() - next,
    {
        assert(focuses@.contains(focuses@[next as int]));
        if fetch::<Position>(world, focuses[next]).is_some() {
            return Some(focuses[next]);
        }
        next += 1;
    }
    assert forall|entity: Entity| world_entities(*world).dom().contains(entity) implies !focused(
        #[trigger] world_entities(*world)[entity],
    ) by {
        if focused(world_entities(*world)[entity]) {
            assert(focuses@.contains(entity));
            let at = choose|i: int| 0 <= i < focuses@.len() && focuses@[i] == entity;
            assert(parts_of(*world, focuses@[at]).position is None);
        }
    }
    None
}

/// Draws the world as `camera` sees it, takes the light off every entity, and adds what was
/// seen to the camera's `Memory`. After a fault the world is as it was.
pub fn render_view(world: &mut World, map: &MapBase, camera: Option<Entity>, seen: &Vec<Vector>) -> (result:
    Result<Vec<Sprite>, Fault>)
    ensures
        match view_of(world_entities(*old(world)), map@, camera, seen@) {
            Ok(view) => result matches Ok(sprites) && sprite_views(sprites@) == view.0 && world_entities(
                *final(world),
            ) == view.1,
            Err(fault) => result matches Err(found) && found == fault && *final(world) == *old(world),
        },
{
    let viewer = match camera {
        Some(entity) => {
            if !alive(world, entity) || fetch::<CameraFocus>(world, entity).is_none() || fetch::<Glyph>(
                world,
                entity,
            ).is_none() {
                None
            } else {
                match fetch::<Position>(world, entity) {
                    Some(position) => Some((entity, position.vector)),
                    None => None,
                }
            }
        },
        None => None,
    };
    let (entity, at) = match viewer {
        Some(viewer) => viewer,
        None => {
            let nothing: Vec<Sprite> = Vec::new();
            assert(sprite_views(nothing@) =~= Seq::<SpriteView>::empty());
            clear_illumination(world);
            return Ok(nothing);
        },
    };
    let mut sprites = match draw_seen(world, map, at, seen) {
        Ok(sprites) => sprites,
        Err(fault) => return Err(fault),
    };
    if let Some(memory) = fetch::<Memory>(world, entity) {
        let mut memory = memory;
        let mut dim = match draw_remembered(world, map, at, &memory.spatial, seen) {
            Ok(dim) => dim,
            Err(fault) => return Err(fault),
        };
        let ghost bright = sprites@;
        let ghost faint = dim@;
        sprites.append(&mut dim);
        assert(sprite_views(sprites@) =~= sprite_views(bright) + sprite_views(faint));
        remember(&mut memory, seen);
        attach::<Memory>(world, entity, memory);
    }
    clear_illumination(world);
    Ok(sprites)
}

impl Game {
    /// Whether the world and the map agree: every entity stands on the map exactly where
    /// its `Position` says, once, and one without a `Position` stands nowhere.
    pub open spec fn agrees(&self) -> bool {
        consistent(state_of(self.world, self.map))
    }

    /// A new game on a map of `map_dimensions`, from the chance given: caves made from
    /// `rolls` after the floor and the wall that the catalogue has under `cave`, and the
    /// player on the piece of ground that `pick` falls on. `rng` becomes the game's source of
    /// chance.
    ///
    /// Dimensions that no map can have are refused as `OutOfBounds`, a catalogue without the
    /// two kinds as `UnknownAsset`, and caves without any ground to stand on, where every
    /// cell is a wall, as `MissingEntity`. All else gives a game.
    pub fn begin(
        map_dimensions: (i32, i32),
        assets: &Assets,
        rolls: &Vec<bool>,
        pick: usize,
        rng: RandomNumberGenerator,
    ) -> (game: Result<Game, Fault>)
        ensures
            match game {
                Ok(made) => {
                    &&& refusal(map_dimensions, *assets, rolls@) is None
                    &&& well_begun(made, map_dimensions)
                    &&& grid_of(made.map@) == caves_of(map_dimensions, rolls@)
                    &&& made.rng == rng
                },
                Err(fault) => refusal(map_dimensions, *assets, rolls@) == Some(fault),
            },
    {
        if map_dimensions.0 < 0 || map_dimensions.1 < 0 {
            return Err(Fault::OutOfBounds);
        }
        assert(0 <= map_dimensions.0 * map_dimensions.1 <= 0x7fff_ffff * 0x7fff_ffff) by (nonlinear_arith)
            requires
                0 <= map_dimensions.0 <= 0x7fff_ffff,
                0 <= map_dimensions.1 <= 0x7fff_ffff,
        ;
        let cells: i64 = map_dimensions.0 as i64 * map_dimensions.1 as i64;
        if cells > i32::MAX as i64 {
            return Err(Fault::OutOfBounds);
        }
        let floor = match find_named(&assets.floors, "cave") {
            Some(floor) => floor,
            None => return Err(Fault::UnknownAsset),
        };
        let wall = match find_named(&assets.walls, "cave") {
            Some(wall) => wall,
            None => return Err(Fault::UnknownAsset),
        };
        let (mut world, mut map) = empty_state(Vector(map_dimensions.0, map_dimensions.1));
        let ghost base = state_of(world, map);
        let inventory_pane = List::new(INVENTORY_PANE_POSITION, INVENTORY_PANE_SIZE, 0);
        let log_pane = List::new(EVENT_LOG_PANE_POSITION, EVENT_LOG_PANE_SIZE, 0);
        generate_caves_from(&mut world, &mut map, floor, wall, rolls, CAVE_PASSES);
        let ghost caves = map@;
        let ghost settled = state_of(world, map);
        let places = ground(&world);
        proof {
            assert forall|place: Vector| #[trigger]
                is_ground(settled.entities, place) == (caves.in_bounds(place) && !is_wall(caves.cell(place))) by {
                lemma_ground_is_open(base, settled, *floor, *wall, place);
            }
            if has_open_cell(map_dimensions, rolls@) {
                let index = choose|index: int| #[trigger] open_cell(map_dimensions, rolls@, index);
                lemma_point_in_bounds(caves, index);
                assert(grid_of(caves).walls[index] == is_wall(caves.cells[index]));
                assert(is_ground(settled.entities, caves.point_at(index)));
                assert(places@.contains(caves.point_at(index)));
            }
        }
        if places.len() == 0 {
            return Err(Fault::MissingEntity);
        }
        let start = places[pick % places.len()];
        proof {
            assert(places@.contains(start));
            assert(is_ground(settled.entities, start));
            lemma_index_in_range(caves, start.0 as int, start.1 as int);
            assert(grid_of(caves).walls[caves.index_of(start)] == is_wall(caves.cell(start)));
            assert(open_cell(map_dimensions, rolls@, caves.index_of(start)));
        }
        let ghost tile = choose|entity: Entity|
            settled.entities.dom().contains(entity) && (#[trigger] settled.entities[entity]).tile is Some
                && settled.entities[entity].position == Some(Position { vector: start });
        let player = make_player(&mut world);
        proof {
            let one = seq![player];
            reveal_with_fuel(crate::generation::with_created, 3);
            assert(one.drop_last() =~= Seq::<Entity>::empty());
            assert(one.last() == player);
            lemma_created_keep(settled, one);
            let bare = State { entities: settled.entities.insert(player, Parts::empty()), map: settled.map };
            assert(same_places(bare.entities, world_entities(world)));
            lemma_same_places_keep(bare, world_entities(world));
            lemma_command_keeps(
                state_of(world, map),
                Command::Put(start, TOP, Object { entity: player, block_fov: false, block_movement: false })@,
            );
        }
        apply_command(&mut world, &mut map, Command::Put(start, TOP, Object::new(player, false, false)));
        proof {
            assert(grid_of(map@).walls =~= grid_of(caves).walls);
            assert(world_entities(world)[player] == new_player(start));
            assert(tile != player);
            assert(world_entities(world)[tile] == settled.entities[tile]);
            assert(is_ground(world_entities(world), start));
        }
        Ok(Game { player, map, world, rng, inventory_pane, log_pane })
    }

    /// A new game on a map of `map_dimensions`: caves made after the floor and the wall that
    /// the catalogue has under `cave`, and the player on a piece of ground picked by
    /// chance. The chance is drawn here, a roll for every cell and then a number below
    /// `i32::MAX` to pick the player's place by, and `begin` makes the game of it.
    ///
    /// Dimensions that no map can have are refused as `OutOfBounds`, and a catalogue
    /// without the two kinds as `UnknownAsset`. Caves without any ground to stand on are
    /// refused as `MissingEntity`: whether that happens is for the rolls to say.
    pub fn new(map_dimensions: (i32, i32), assets: &Assets) -> (game: Result<Game, Fault>)
        ensures
            !dimensions_fit(map_dimensions) ==> game matches Err(Fault::OutOfBounds),
            dimensions_fit(map_dimensions) && (first_named(assets.floors@, "cave"@) is None
                || first_named(assets.walls@, "cave"@) is None) ==> game matches Err(Fault::UnknownAsset),
            game matches Err(fault) ==> (fault == Fault::OutOfBounds && !dimensions_fit(map_dimensions)) || (
            fault == Fault::UnknownAsset && dimensions_fit(map_dimensions) && (first_named(
                assets.floors@,
                "cave"@,
            ) is None || first_named(assets.walls@, "cave"@) is None)) || (fault == Fault::MissingEntity
                && dimensions_fit(map_dimensions) && first_named(assets.floors@, "cave"@) is Some
                && first_named(assets.walls@, "cave"@) is Some),
            game matches Ok(made) ==> {
                &&& well_begun(made, map_dimensions)
                &&& exists|rolls: Seq<bool>|
                    rolls.len() == map_dimensions.0 * map_dimensions.1 && grid_of(made.map@) == #[trigger] caves_of(
                        map_dimensions,
                        rolls,
                    ) && has_open_cell(map_dimensions, rolls)
            },
    {
        let mut rng = fresh_generator();
        let rolls = draw_rolls(&mut rng, cells_of(map_dimensions));
        let drawn: i32 = roll_range(&mut rng, 0, i32::MAX);
        let pick = drawn as usize;
        let game = Self::begin(map_dimensions, assets, &rolls, pick, rng);
        proof {
            if game is Ok {
                assert(grid_of(game->Ok_0.map@) == caves_of(map_dimensions, rolls@));
            }
        }
        game
    }

    /// The lights that stand on top of the cells in `positions`, each with the place where
    /// it stands.
    pub fn light_sources(&self, positions: &Vec<Vector>) -> (sources: Result<Vec<(Vector, Light)>, Fault>)
        ensures
            match lights_at(world_entities(self.world), self.map@, positions@) {
                Ok(lights) => sources matches Ok(found) && found@ == lights,
                Err(fault) => sources == Err::<Vec<(Vector, Light)>, Fault>(fault),
            },
    {
        find_lights(&self.world, &self.map, positions)
    }

    /// Lets the lights that stand on top of the cells in `positions` fall on what they
    /// reach: `fields[i]` are the cells that the light number `i` among them reaches. What is
    /// on top of each such cell gets the light and its distance at the end of its list.
    ///
    /// A light without a `Position`, and a top that is not in the world, are faults, and
    /// after a fault the world is as it was.
    pub fn apply_illumination(&mut self, positions: &Vec<Vector>, fields: &Vec<Vec<Vector>>) -> (result:
        Result<(), Fault>)
        ensures
            old(self).agrees() ==> final(self).agrees(),
            final(self).map == old(self).map,
            final(self).player == old(self).player,
            final(self).inventory_pane == old(self).inventory_pane,
            final(self).log_pane == old(self).log_pane,
            match lights_at(world_entities(old(self).world), old(self).map@, positions@) {
                Err(fault) => result == Err::<(), Fault>(fault) && final(self).world == old(self).world,
                Ok(sources) => if fields_sound(
                    world_entities(old(self).world),
                    old(self).map@,
                    fields@,
                    sources.len() as int,
                ) {
                    result is Ok && world_entities(final(self).world) == illuminated(
                        world_entities(old(self).world),
                        old(self).map@,
                        sources,
                        fields@,
                        sources.len(),
                    )
                } else {
                    result == Err::<(), Fault>(Fault::MissingEntity) && final(self).world == old(self).world
                },
            },
    {
        let sources = match find_lights(&self.world, &self.map, positions) {
            Ok(sources) => sources,
            Err(fault) => return Err(fault),
        };
        let mut next: usize = 0;
        while next < sources.len() && next < fields.len()
            invariant
                next <= sources@.len(),
                next <= fields@.len(),
                *self == *old(self),
                lights_at(world_entities(self.world), self.map@, positions@) == Ok::<
                    Seq<(Vector, Light)>,
                    Fault,
                >(sources@),
                fields_sound(world_entities(self.world), self.map@, fields@, next as int),
            decreases fields@.len() - next,
        {
            if !check_tops(&self.world, &self.map, &fields[next]) {
                assert(!tops_alive(world_entities(self.world), self.map@, fields@[next as int]@));
                return Err(Fault::MissingEntity);
            }
            next += 1;
        }
        proof {
            lemma_illuminated_keeps_places(
                world_entities(self.world),
                self.map@,
                sources@,
                fields@,
                sources@.len(),
            );
            if self.agrees() {
                lemma_same_places_keep(
                    state_of(self.world, self.map),
                    illuminated(world_entities(self.world), self.map@, sources@, fields@, sources@.len()),
                );
            }
        }
        illuminate(&mut self.world, &self.map, &sources, fields);
        Ok(())
    }

    /// Draws the world as the camera sees it: the cells in `visible`, and then what the
    /// camera remembers and does not see. The light is then taken off every entity, and what
    /// was seen is added to the camera's `Memory`. After a fault the game is as it was.
    pub fn render_world(&mut self, visible: &Vec<Vector>) -> (result: Result<Vec<Sprite>, Fault>)
        ensures
            old(self).agrees() ==> final(self).agrees(),
            final(self).map == old(self).map,
            final(self).player == old(self).player,
            final(self).inventory_pane == old(self).inventory_pane,
            final(self).log_pane == old(self).log_pane,
            exists|camera: Option<Entity>|
                is_camera(world_entities(old(self).world), camera) && match #[trigger] view_of(
                    world_entities(old(self).world),
                    old(self).map@,
                    camera,
                    visible@,
                ) {
                    Ok(view) => result matches Ok(sprites) && sprite_views(sprites@) == view.0
                        && world_entities(final(self).world) == view.1,
                    Err(fault) => result matches Err(found) && found == fault && final(self).world
                        == old(self).world,
                },
    {
        let camera = find_camera(&self.world);
        let ghost before = world_entities(self.world);
        let result = render_view(&mut self.world, &self.map, camera, visible);
        proof {
            let view = view_of(before, self.map@, camera, visible@);
            assert(is_camera(before, camera));
            if old(self).agrees() {
                if let Ok(seen) = view {
                    lemma_view_keeps_places(before, self.map@, camera, visible@);
                    lemma_same_places_keep(state_of(old(self).world, old(self).map), seen.1);
                }
            }
        }
        result
    }

    /// Takes one input, or none.
    pub fn get_input(&mut self, input: Option<Input>) -> (result: Result<(), Fault>)
        ensures
            old(self).agrees() ==> final(self).agrees(),
            final(self).map == old(self).map,
            final(self).player == old(self).player,
            final(self).inventory_pane == old(self).inventory_pane,
            match input_outcome(world_entities(old(self).world), old(self).map@, old(self).player, input) {
                Ok(outcome) => result is Ok && world_entities(final(self).world) == outcome.0 && final(self).log_pane@ == (ListView {
                    entries: old(self).log_pane@.entries + outcome.1,
                    ..old(self).log_pane@
                }),
                Err(fault) => result == Err::<(), Fault>(fault) && final(self).world == old(self).world
                    && final(self).log_pane == old(self).log_pane,
            },
    {
        let ghost entities = world_entities(self.world);
        let ghost lines = self.log_pane@.entries;
        assert(lines + Seq::<Seq<FragmentView>>::empty() =~= lines);
        let player = self.player;
        if !alive(&self.world, player) {
            return Err(Fault::MissingEntity);
        }
        let position = match fetch::<Position>(&self.world, player) {
            Some(position) => position,
            None => return Err(Fault::MissingComponent),
        };
        let intention = match fetch::<Intention>(&self.world, player) {
            Some(intention) => intention,
            None => return Err(Fault::MissingComponent),
        };
        if !self.map.in_bounds(position.vector) {
            return Err(Fault::OutOfBounds);
        }
        let input = match input {
            Some(input) => input,
            None => return Ok(()),
        };
        match input {
            Input::Mode(intent) => {
                attach::<Intention>(&mut self.world, player, Intention { intent });
            },
            Input::Direction(direction) => match intention.intent {
                Intent::Walk => {
                    attach::<Displacement>(&mut self.world, player, Displacement::from_direction(direction));
                },
                Intent::Grab => {
                    let size = self.map.dimensions();
                    if let Some(target) = position.vector.checked_add(direction.as_unit_vector()) {
                        if let Some(top) = top_entity(&self.map, target) {
                            attach::<Grab>(&mut self.world, player, Grab { entity: top });
                        }
                    }
                },
                Intent::Throw => {
                    attach::<Throw>(&mut self.world, player, Throw { direction });
                },
            },
            Input::GrabHere => {
                let here = match self.map.get_objects(position.vector) {
                    Some(stack) => if stack.len() > 1 {
                        Some(stack[1].entity)
                    } else {
                        None
                    },
                    None => None,
                };
                if let Some(entity) = here {
                    match intention.intent {
                        Intent::Throw => {},
                        _ => {
                            attach::<Grab>(&mut self.world, player, Grab { entity });
                        },
                    }
                }
            },
            Input::Stow => {
                return self.stow();
            },
        }
        proof {
            if old(self).agrees() {
                assert(world_entities(self.world).dom() =~= entities.dom());
                lemma_same_places_keep(state_of(old(self).world, old(self).map), world_entities(self.world));
            }
        }
        Ok(())
    }

    fn stow(&mut self) -> (result: Result<(), Fault>)
        requires
            is_alive(old(self).world, old(self).player),
        ensures
            old(self).agrees() ==> final(self).agrees(),
            final(self).map == old(self).map,
            final(self).player == old(self).player,
            final(self).inventory_pane == old(self).inventory_pane,
            match stow_outcome(world_entities(old(self).world), old(self).player) {
                Ok(outcome) => result is Ok && world_entities(final(self).world) == outcome.0 && final(self).log_pane@ == (ListView {
                    entries: old(self).log_pane@.entries + outcome.1,
                    ..old(self).log_pane@
                }),
                Err(fault) => result == Err::<(), Fault>(fault) && final(self).world == old(self).world
                    && final(self).log_pane == old(self).log_pane,
            },
    {
        let ghost entities = world_entities(self.world);
        let ghost lines = self.log_pane@.entries;
        let player = self.player;
        let equipment = match fetch::<Equipment>(&self.world, player) {
            Some(equipment) => equipment,
            None => return Err(Fault::MissingComponent),
        };
        let mut label = Label::plain("You ");
        let held = match equipment.held {
            Some(held) => held,
            None => {
                label = label.with(Fragment::plain("are not holding anything"));
                assert(label@ =~= seq![plain("You "@), plain("are not holding anything"@)]);
                self.log_pane.add(label);
                assert(self.log_pane@.entries =~= lines + stow_outcome(entities, player)->Ok_0.1);
                return Ok(());
            },
        };
        if !alive(&self.world, held) {
            return Err(Fault::MissingEntity);
        }
        let glyph = match fetch::<Glyph>(&self.world, held) {
            Some(glyph) => glyph,
            None => return Err(Fault::MissingComponent),
        };
        let description = match fetch::<Description>(&self.world, held) {
            Some(description) => description,
            None => return Err(Fault::MissingComponent),
        };
        let thing = Fragment::new(description.name, Some(glyph.colour));
        match equipment.storage {
            None => {
                label = label.with(Fragment::plain("have no place to store the ")).with(thing);
                assert(label@ =~= seq![
                    plain("You "@),
                    plain("have no place to store the "@),
                    named(entities[held]),
                ]);
                self.log_pane.add(label);
                assert(self.log_pane@.entries =~= lines + stow_outcome(entities, player)->Ok_0.1);
            },
            Some(storage) => {
                if !alive(&self.world, storage) {
                    return Err(Fault::MissingEntity);
                }
                let container = match fetch::<Description>(&self.world, storage) {
                    Some(container) => container,
                    None => return Err(Fault::MissingComponent),
                };
                let mut stored = match fetch::<Storage>(&self.world, storage) {
                    Some(stored) => stored,
                    None => return Err(Fault::MissingComponent),
                };
                stored.objects.push(held);
                attach::<Storage>(&mut self.world, storage, stored);
                label = label.with(Fragment::plain("place the ")).with(thing).with(
                    Fragment::plain(" in your "),
                ).with(Fragment::new(container.name, None));
                assert(label@ =~= seq![
                    plain("You "@),
                    plain("place the "@),
                    named(entities[held]),
                    plain(" in your "@),
                    plain(entities[storage].description->0.name),
                ]);
                self.log_pane.add(label);
                assert(self.log_pane@.entries =~= lines + stow_outcome(entities, player)->Ok_0.1);
                proof {
                    if old(self).agrees() {
                        assert(world_entities(self.world).dom() =~= entities.dom());
                        lemma_same_places_keep(
                            state_of(old(self).world, old(self).map),
                            world_entities(self.world),
                        );
                    }
                }
            },
        }
        Ok(())
    }

    /// Writes the two lines of the pane that shows what the player carries to the end of
    /// that pane. After a fault the pane is as it was.
    pub fn render_interface(&mut self) -> (result: Result<(), Fault>)
        ensures
            final(self).map == old(self).map,
            final(self).player == old(self).player,
            final(self).world == old(self).world,
            final(self).log_pane == old(self).log_pane,
            match interface_lines(world_entities(old(self).world), old(self).player) {
                Ok(lines) => result is Ok && final(self).inventory_pane@ == (ListView {
                    entries: old(self).inventory_pane@.entries + lines,
                    ..old(self).inventory_pane@
                }),
                Err(fault) => result == Err::<(), Fault>(fault) && final(self).inventory_pane == old(self).inventory_pane,
            },
    {
        let ghost entities = world_entities(self.world);
        let ghost before = self.inventory_pane@.entries;
        let player = self.player;
        if !alive(&self.world, player) {
            return Err(Fault::MissingEntity);
        }
        let equipment = match fetch::<Equipment>(&self.world, player) {
            Some(equipment) => equipment,
            None => return Err(Fault::MissingComponent),
        };
        let intention = match fetch::<Intention>(&self.world, player) {
            Some(intention) => intention,
            None => return Err(Fault::MissingComponent),
        };
        let mode = match intention.intent {
            Intent::Walk => Label::plain("WALK"),
            Intent::Grab => Label::plain("GRAB"),
            Intent::Throw => Label::plain("THROW"),
        };
        assert(mode@ =~= seq![plain(intent_word(intention.intent))]);
        let hands = match equipment.held {
            None => Label::plain("Hands []"),
            Some(held) => {
                if !alive(&self.world, held) {
                    return Err(Fault::MissingEntity);
                }
                let glyph = match fetch::<Glyph>(&self.world, held) {
                    Some(glyph) => glyph,
                    None => return Err(Fault::MissingComponent),
                };
                let description = match fetch::<Description>(&self.world, held) {
                    Some(description) => description,
                    None => return Err(Fault::MissingComponent),
                };
                Label::plain("Hands [").with(Fragment::from_glyph(glyph)).with(Fragment::plain(" ")).with(
                    Fragment::new(description.name, None),
                ).with(Fragment::plain("]"))
            },
        };
        let ghost lines = interface_lines(entities, player)->Ok_0;
        assert(hands@ =~= lines[1]);
        self.inventory_pane.add(mode);
        self.inventory_pane.add(hands);
        assert(self.inventory_pane@.entries =~= before + lines);
        Ok(())
    }

    /// One turn of the world: the light of the last turn is taken off, and then the five
    /// systems run, each to its end before the next begins, in the order spawn,
    /// displacement, velocity, grab, throw. The first fault ends the turn: what the systems
    /// before it did stays done, and the system at fault has changed neither the world nor
    /// the map. No entity has light on it after a turn. What is handed back says who was
    /// resolved by each system, in which order, and what came of the spawners.
    pub fn tick(&mut self, assets: &Assets) -> (result: (Turn, Result<(), Fault>))
        ensures
            old(self).agrees() ==> final(self).agrees(),
            final(self).map@.size == old(self).map@.size,
            final(self).player == old(self).player,
            final(self).inventory_pane == old(self).inventory_pane,
            turn_sound(state_of(old(self).world, old(self).map), *assets, result.0@),
            same_memories(world_entities(old(self).world), world_entities(final(self).world)),
            state_of(final(self).world, final(self).map) == turn_outcome(
                Play { state: state_of(old(self).world, old(self).map), lines: old(self).log_pane@.entries },
                *assets,
                result.0@,
            ).0.state,
            final(self).log_pane@ == (ListView {
                entries: turn_outcome(
                    Play {
                        state: state_of(old(self).world, old(self).map),
                        lines: old(self).log_pane@.entries,
                    },
                    *assets,
                    result.0@,
                ).0.lines,
                ..old(self).log_pane@
            }),
            result.1 == (match turn_outcome(
                Play { state: state_of(old(self).world, old(self).map), lines: old(self).log_pane@.entries },
                *assets,
                result.0@,
            ).1 {
                Some(fault) => Err::<(), Fault>(fault),
                None => Ok::<(), Fault>(()),
            }),
            forall|entity: Entity|
                is_alive(final(self).world, entity) ==> (#[trigger] parts_of(
                    final(self).world,
                    entity,
                )).illumination is None,
    {
        let result = self.turn(assets);
        proof {
            lemma_turn_keeps_memories(
                Play { state: state_of(old(self).world, old(self).map), lines: old(self).log_pane@.entries },
                *assets,
                result.0@,
            );
        }
        result
    }

    #[verifier::rlimit(40)]
    fn turn(&mut self, assets: &Assets) -> (result: (Turn, Result<(), Fault>))
        ensures
            old(self).agrees() ==> final(self).agrees(),
            final(self).map@.size == old(self).map@.size,
            final(self).player == old(self).player,
            final(self).inventory_pane == old(self).inventory_pane,
            turn_sound(state_of(old(self).world, old(self).map), *assets, result.0@),
            state_of(final(self).world, final(self).map) == turn_outcome(
                Play { state: state_of(old(self).world, old(self).map), lines: old(self).log_pane@.entries },
                *assets,
                result.0@,
            ).0.state,
            final(self).log_pane@ == (ListView {
                entries: turn_outcome(
                    Play {
                        state: state_of(old(self).world, old(self).map),
                        lines: old(self).log_pane@.entries,
                    },
                    *assets,
                    result.0@,
                ).0.lines,
                ..old(self).log_pane@
            }),
            result.1 == (match turn_outcome(
                Play { state: state_of(old(self).world, old(self).map), lines: old(self).log_pane@.entries },
                *assets,
                result.0@,
            ).1 {
                Some(fault) => Err::<(), Fault>(fault),
                None => Ok::<(), Fault>(()),
            }),
            forall|entity: Entity|
                is_alive(final(self).world, entity) ==> (#[trigger] parts_of(
                    final(self).world,
                    entity,
                )).illumination is None,
    {
        let ghost start = Play { state: state_of(self.world, self.map), lines: self.log_pane@.entries };
        proof {
            lemma_darkened_keeps_places(start.state.entities);
            if self.agrees() {
                lemma_same_places_keep(start.state, darkened(start.state.entities));
            }
            assert(start.lines + Seq::<Seq<FragmentView>>::empty() =~= start.lines);
        }
        clear_illumination(&mut self.world);
        let mut turn = Turn {
            spawners: Vec::new(),
            spawned: None,
            moved: Vec::new(),
            pushed: Vec::new(),
            grabbed: Vec::new(),
            thrown: Vec::new(),
        };
        let (spawners, spawned) = spawn_system(&mut self.world, &mut self.map, &mut self.rng, assets);
        turn.spawners = spawners;
        match spawned {
            Ok(spawned) => {
                turn.spawned = Some(spawned);
            },
            Err(fault) => {
                self.darken();
                return (turn, Err(fault));
            },
        }
        let (moved, done) = displacement_system(&mut self.world, &mut self.map, &mut self.log_pane);
        turn.moved = moved;
        if let Err(fault) = done {
            self.darken();
            return (turn, Err(fault));
        }
        let (pushed, done) = velocity_system(&mut self.world, &mut self.map, &mut self.log_pane);
        turn.pushed = pushed;
        if let Err(fault) = done {
            self.darken();
            return (turn, Err(fault));
        }
        let (grabbed, done) = grab_system(&mut self.world, &mut self.map, &mut self.log_pane);
        turn.grabbed = grabbed;
        if let Err(fault) = done {
            self.darken();
            return (turn, Err(fault));
        }
        let (thrown, done) = throw_system(&mut self.world, &mut self.map, &mut self.log_pane);
        turn.thrown = thrown;
        if let Err(fault) = done {
            self.darken();
            return (turn, Err(fault));
        }
        self.darken();
        (turn, Ok(()))
    }

    /// Takes the light off every entity.
    fn darken(&mut self)
        ensures
            old(self).agrees() ==> final(self).agrees(),
            final(self).map == old(self).map,
            final(self).player == old(self).player,
            final(self).inventory_pane == old(self).inventory_pane,
            final(self).log_pane == old(self).log_pane,
            world_entities(final(self).world) == darkened(world_entities(old(self).world)),
            forall|entity: Entity|
                is_alive(final(self).world, entity) ==> (#[trigger] parts_of(
                    final(self).world,
                    entity,
                )).illumination is None,
    {
        proof {
            lemma_darkened_keeps_places(world_entities(self.world));
            if self.agrees() {
                lemma_same_places_keep(state_of(self.world, self.map), darkened(world_entities(self.world)));
            }
        }
        clear_illumination(&mut self.world);
    }
}

} // verus!
