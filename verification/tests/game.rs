use bracket_random::prelude::RandomNumberGenerator;
use legion::{Entity, EntityStore, World};
use protogue::assets::Assets;
use protogue::commands::{apply_command, Command, TOP};
use protogue::components::actions::grab::Grab;
use protogue::components::actions::throw::Throw;
use protogue::components::barrier::Barrier;
use protogue::components::description::Description;
use protogue::components::direction::Direction;
use protogue::components::displacement::Displacement;
use protogue::components::equipment::Equipment;
use protogue::components::glyph::{Colour, Glyph};
use protogue::components::illumination::Illumination;
use protogue::components::light::Light;
use protogue::components::memory::Memory;
use protogue::components::meta::camera_focus::CameraFocus;
use protogue::components::meta::intention::{Intent, Intention};
use protogue::components::position::Position;
use protogue::components::storage::Storage;
use protogue::components::tile::Tile;
use protogue::components::velocity::Velocity;
use protogue::components::weight::Weight;
use protogue::entities::floor::Floor;
use protogue::entities::wall::Wall;
use protogue::game::{
    cells_of, Game, Input, CAVE_PASSES, EVENT_LOG_PANE_POSITION, EVENT_LOG_PANE_SIZE, INVENTORY_PANE_POSITION,
    INVENTORY_PANE_SIZE,
};
use protogue::generation::{generate_caves_from, top_blocks};
use protogue::interface::{Element, List};
use protogue::map::{MapBase, Object};
use protogue::systems::Fault;
use protogue::vector::Vector;

const WHITE: Colour = Colour { r: 255, g: 255, b: 255, a: 255 };
const GREEN: Colour = Colour { r: 0, g: 200, b: 0, a: 255 };

fn described(name: &str) -> Description {
    Description { name: String::from(name), description: String::new() }
}

fn cave_assets() -> Assets {
    let mut assets = Assets::new();
    assets.floors.push((
        String::from("cave"),
        Floor { tile: Tile, glyph: Glyph { character: '.', colour: WHITE }, description: described("floor"), spawn: None },
    ));
    assets.walls.push((
        String::from("cave"),
        Wall {
            barrier: Barrier,
            glyph: Glyph { character: '#', colour: WHITE },
            description: described("wall"),
            opaque: None,
            light: None,
        },
    ));
    assets
}

fn place(world: &mut World, map: &mut MapBase, entity: Entity, at: Vector) {
    let object = Object::from_entity(entity, world);
    apply_command(world, map, Command::Put(at, TOP, object));
}

/// A game on open ground of `width` by `height` with the player at `start`.
fn game_on_ground(width: i32, height: i32, start: Vector) -> Game {
    let mut world = World::default();
    let mut map = MapBase::new(Vector(width, height));
    for y in 0..height {
        for x in 0..width {
            let floor = world.push((Tile, Glyph { character: '.', colour: WHITE }, described("floor")));
            place(&mut world, &mut map, floor, Vector(x, y));
        }
    }
    let player = world.push((
        Intention { intent: Intent::Walk },
        Equipment::default(),
        Glyph { character: '@', colour: GREEN },
        CameraFocus,
        Memory::default(),
    ));
    place(&mut world, &mut map, player, start);
    Game {
        player,
        map,
        world,
        rng: RandomNumberGenerator::seeded(1),
        inventory_pane: List::new(INVENTORY_PANE_POSITION, INVENTORY_PANE_SIZE, 0),
        log_pane: List::new(EVENT_LOG_PANE_POSITION, EVENT_LOG_PANE_SIZE, 0),
    }
}

fn item(game: &mut Game, name: &str) -> Entity {
    game.world.push((Weight { grams: 100 }, Glyph { character: '!', colour: GREEN }, described(name)))
}

fn position_of(world: &World, entity: Entity) -> Option<Vector> {
    world.entry_ref(entity).unwrap().get_component::<Position>().ok().map(|position| position.vector)
}

fn has<T: Send + Sync + 'static>(world: &World, entity: Entity) -> bool {
    world.entry_ref(entity).unwrap().get_component::<T>().is_ok()
}

fn give<T: Send + Sync + 'static>(world: &mut World, entity: Entity, component: T) {
    world.entry(entity).unwrap().add_component(component);
}

fn intent_of(game: &Game) -> Intent {
    game.world.entry_ref(game.player).unwrap().get_component::<Intention>().unwrap().intent
}

fn lines(list: &List) -> Vec<String> {
    list.entries().iter().map(|label| label.text()).collect()
}

/// How often `entity` stands on the map, and in which cells.
fn places(map: &MapBase, entity: Entity) -> Vec<Vector> {
    let mut found = Vec::new();
    for index in 0..map.cell_count() {
        let at = map.index_to_point2d(index).unwrap();
        for object in map.get_objects(at).unwrap() {
            if object.entity == entity {
                found.push(at);
            }
        }
    }
    found
}

#[test]
fn a_new_game_has_caves_and_a_player_on_ground() {
    let assets = cave_assets();
    let mut made = None;
    for _ in 0..20 {
        match Game::new((20, 12), &assets) {
            Ok(game) => {
                made = Some(game);
                break;
            },
            Err(fault) => assert_eq!(fault, Fault::MissingEntity),
        }
    }
    let game = made.unwrap();
    assert_eq!(game.map.dimensions(), Vector(20, 12));
    let start = position_of(&game.world, game.player).unwrap();
    assert_eq!(places(&game.map, game.player), vec![start]);
    let stack = game.map.get_objects(start).unwrap();
    assert_eq!(stack.len(), 2);
    assert_eq!(stack[1].entity, game.player);
    assert!(!stack[1].block_fov && !stack[1].block_movement);
    assert!(has::<Tile>(&game.world, stack[0].entity));
    assert_eq!(intent_of(&game), Intent::Walk);
    let entry = game.world.entry_ref(game.player).unwrap();
    assert_eq!(*entry.get_component::<Glyph>().unwrap(), Glyph { character: '@', colour: Colour { r: 115, g: 255, b: 115, a: 255 } });
    assert!(entry.get_component::<CameraFocus>().is_ok());
    assert!(entry.get_component::<Memory>().unwrap().spatial.is_empty());
    assert_eq!(entry.get_component::<Equipment>().unwrap().held, None);
    for y in 0..12 {
        for x in 0..20 {
            let cell = game.map.get_objects(Vector(x, y)).unwrap();
            assert!(cell.len() >= 1);
            let ground = cell[0];
            assert_eq!(position_of(&game.world, ground.entity), Some(Vector(x, y)));
            assert_eq!(has::<Barrier>(&game.world, ground.entity), ground.block_movement);
            assert_eq!(has::<Tile>(&game.world, ground.entity), !ground.block_movement);
            assert_eq!(places(&game.map, ground.entity), vec![Vector(x, y)]);
        }
    }
    assert_eq!(game.world.len(), 241);
    assert_eq!(game.inventory_pane.position(), (75, 0));
    assert_eq!(game.inventory_pane.scale(), (25, 50));
    assert_eq!(game.log_pane.position(), (0, 38));
    assert_eq!(game.log_pane.scale(), (100, 12));
    assert_eq!(CAVE_PASSES, 25);
}

#[test]
fn a_new_game_refuses_what_it_cannot_be_made_of() {
    let assets = cave_assets();
    assert_eq!(Game::new((-1, 5), &assets).err(), Some(Fault::OutOfBounds));
    assert_eq!(Game::new((5, -1), &assets).err(), Some(Fault::OutOfBounds));
    assert_eq!(Game::new((100_000, 100_000), &assets).err(), Some(Fault::OutOfBounds));
    assert_eq!(Game::new((5, 5), &Assets::new()).err(), Some(Fault::UnknownAsset));
    let mut floors_only = cave_assets();
    floors_only.walls.clear();
    assert_eq!(Game::new((5, 5), &floors_only).err(), Some(Fault::UnknownAsset));
    assert_eq!(Game::new((0, 0), &assets).err(), Some(Fault::MissingEntity));
}

#[test]
fn the_mode_follows_the_input() {
    let mut game = game_on_ground(3, 3, Vector(1, 1));
    assert_eq!(game.get_input(None), Ok(()));
    assert_eq!(intent_of(&game), Intent::Walk);
    assert_eq!(game.get_input(Some(Input::Mode(Intent::Grab))), Ok(()));
    assert_eq!(intent_of(&game), Intent::Grab);
    assert_eq!(game.get_input(Some(Input::Mode(Intent::Throw))), Ok(()));
    assert_eq!(intent_of(&game), Intent::Throw);
    assert_eq!(game.get_input(Some(Input::Mode(Intent::Walk))), Ok(()));
    assert_eq!(intent_of(&game), Intent::Walk);
    assert!(lines(&game.log_pane).is_empty());
}

#[test]
fn a_direction_means_what_the_mode_says() {
    let mut game = game_on_ground(3, 3, Vector(1, 1));
    let player = game.player;
    assert_eq!(game.get_input(Some(Input::Direction(Direction::North))), Ok(()));
    assert_eq!(
        game.world.entry_ref(player).unwrap().get_component::<Displacement>().unwrap().path,
        vec![Vector(0, -1)]
    );
    assert!(!has::<Grab>(&game.world, player));
    assert!(!has::<Throw>(&game.world, player));
    assert_eq!(game.get_input(Some(Input::Mode(Intent::Throw))), Ok(()));
    assert_eq!(game.get_input(Some(Input::Direction(Direction::West))), Ok(()));
    assert_eq!(
        game.world.entry_ref(player).unwrap().get_component::<Throw>().unwrap().direction,
        Direction::West
    );
    assert_eq!(game.get_input(Some(Input::Mode(Intent::Grab))), Ok(()));
    assert_eq!(game.get_input(Some(Input::Direction(Direction::South))), Ok(()));
    let floor_south = game.map.get_objects(Vector(1, 2)).unwrap()[0].entity;
    assert_eq!(game.world.entry_ref(player).unwrap().get_component::<Grab>().unwrap().entity, floor_south);
}

#[test]
fn grabbing_towards_nothing_does_nothing() {
    let mut game = game_on_ground(2, 1, Vector(1, 0));
    let player = game.player;
    assert_eq!(game.get_input(Some(Input::Mode(Intent::Grab))), Ok(()));
    assert_eq!(game.get_input(Some(Input::Direction(Direction::East))), Ok(()));
    assert_eq!(game.get_input(Some(Input::Direction(Direction::North))), Ok(()));
    assert!(!has::<Grab>(&game.world, player));
    assert_eq!(game.get_input(Some(Input::Direction(Direction::West))), Ok(()));
    assert!(has::<Grab>(&game.world, player));
}

#[test]
fn grabbing_here_takes_what_lies_one_above_the_bottom() {
    let mut game = game_on_ground(2, 2, Vector(0, 0));
    let player = game.player;
    assert_eq!(game.get_input(Some(Input::GrabHere)), Ok(()));
    assert_eq!(game.world.entry_ref(player).unwrap().get_component::<Grab>().unwrap().entity, player);
    game.world.entry(player).unwrap().remove_component::<Grab>();
    let coin = item(&mut game, "coin");
    apply_command(&mut game.world, &mut game.map, Command::Put(Vector(0, 0), 1, Object::new(coin, false, false)));
    assert_eq!(game.get_input(Some(Input::Mode(Intent::Throw))), Ok(()));
    assert_eq!(game.get_input(Some(Input::GrabHere)), Ok(()));
    assert!(!has::<Grab>(&game.world, player));
    assert_eq!(game.get_input(Some(Input::Mode(Intent::Grab))), Ok(()));
    assert_eq!(game.get_input(Some(Input::GrabHere)), Ok(()));
    assert_eq!(game.world.entry_ref(player).unwrap().get_component::<Grab>().unwrap().entity, coin);
    let mut alone = game_on_ground(1, 1, Vector(0, 0));
    let only = alone.player;
    apply_command(&mut alone.world, &mut alone.map, Command::Take(only));
    apply_command(&mut alone.world, &mut alone.map, Command::Lift(Vector(0, 0)));
    apply_command(&mut alone.world, &mut alone.map, Command::Put(Vector(0, 0), TOP, Object::new(only, false, false)));
    assert_eq!(alone.get_input(Some(Input::GrabHere)), Ok(()));
    assert!(!has::<Grab>(&alone.world, only));
}

#[test]
fn faults_of_the_input() {
    let mut game = game_on_ground(2, 2, Vector(0, 0));
    let player = game.player;
    game.world.entry(player).unwrap().remove_component::<Intention>();
    assert_eq!(game.get_input(None), Err(Fault::MissingComponent));
    give(&mut game.world, player, Intention { intent: Intent::Walk });
    give(&mut game.world, player, Position::new(Vector(5, 5)));
    assert_eq!(game.get_input(Some(Input::Mode(Intent::Grab))), Err(Fault::OutOfBounds));
    assert_eq!(intent_of(&game), Intent::Walk);
    game.world.entry(player).unwrap().remove_component::<Position>();
    assert_eq!(game.get_input(None), Err(Fault::MissingComponent));
    game.world.remove(player);
    assert_eq!(game.get_input(None), Err(Fault::MissingEntity));
    assert_eq!(game.render_interface(), Err(Fault::MissingEntity));
}

#[test]
fn stowing_with_empty_hands_or_without_a_container() {
    let mut game = game_on_ground(2, 2, Vector(0, 0));
    let player = game.player;
    assert_eq!(game.get_input(Some(Input::Stow)), Ok(()));
    assert_eq!(lines(&game.log_pane), vec!["You are not holding anything"]);
    let coin = item(&mut game, "coin");
    give(&mut game.world, player, Equipment { held: Some(coin), storage: None, wearables: Vec::new() });
    assert_eq!(game.get_input(Some(Input::Stow)), Ok(()));
    assert_eq!(lines(&game.log_pane)[1], "You have no place to store the coin");
    assert_eq!(game.log_pane.entries()[1].fragments[2].colour, Some(GREEN));
    assert_eq!(game.log_pane.entries()[1].fragments.len(), 3);
}

#[test]
fn stowing_puts_what_is_held_into_the_container() {
    let mut game = game_on_ground(2, 2, Vector(0, 0));
    let player = game.player;
    let coin = item(&mut game, "coin");
    let gem = item(&mut game, "gem");
    let bag = game.world.push((described("bag"), Storage { objects: vec![gem] }));
    give(&mut game.world, player, Equipment { held: Some(coin), storage: Some(bag), wearables: Vec::new() });
    assert_eq!(game.get_input(Some(Input::Stow)), Ok(()));
    assert_eq!(lines(&game.log_pane), vec!["You place the coin in your bag"]);
    assert_eq!(game.log_pane.entries()[0].fragments.len(), 5);
    assert_eq!(game.log_pane.entries()[0].fragments[4].colour, None);
    assert_eq!(game.world.entry_ref(bag).unwrap().get_component::<Storage>().unwrap().objects, vec![gem, coin]);
    assert_eq!(game.world.entry_ref(player).unwrap().get_component::<Equipment>().unwrap().held, Some(coin));
}

#[test]
fn faults_of_stowing() {
    let mut game = game_on_ground(2, 2, Vector(0, 0));
    let player = game.player;
    let coin = item(&mut game, "coin");
    let sack = game.world.push((described("sack"),));
    give(&mut game.world, player, Equipment { held: Some(coin), storage: Some(sack), wearables: Vec::new() });
    assert_eq!(game.get_input(Some(Input::Stow)), Err(Fault::MissingComponent));
    game.world.remove(sack);
    assert_eq!(game.get_input(Some(Input::Stow)), Err(Fault::MissingEntity));
    let nameless = game.world.push((Weight { grams: 1 },));
    give(&mut game.world, player, Equipment { held: Some(nameless), storage: None, wearables: Vec::new() });
    assert_eq!(game.get_input(Some(Input::Stow)), Err(Fault::MissingComponent));
    game.world.remove(nameless);
    assert_eq!(game.get_input(Some(Input::Stow)), Err(Fault::MissingEntity));
    game.world.entry(player).unwrap().remove_component::<Equipment>();
    assert_eq!(game.get_input(Some(Input::Stow)), Err(Fault::MissingComponent));
    assert!(lines(&game.log_pane).is_empty());
}

#[test]
fn the_pane_shows_the_mode_and_the_hands() {
    let mut game = game_on_ground(2, 2, Vector(0, 0));
    let player = game.player;
    assert_eq!(game.render_interface(), Ok(()));
    assert_eq!(lines(&game.inventory_pane), vec!["WALK", "Hands []"]);
    game.inventory_pane.clear();
    let coin = item(&mut game, "coin");
    give(&mut game.world, player, Equipment { held: Some(coin), storage: None, wearables: Vec::new() });
    assert_eq!(game.get_input(Some(Input::Mode(Intent::Throw))), Ok(()));
    assert_eq!(game.render_interface(), Ok(()));
    assert_eq!(lines(&game.inventory_pane), vec!["THROW", "Hands [! coin]"]);
    let hands = &game.inventory_pane.entries()[1];
    assert_eq!(hands.fragments.len(), 5);
    assert_eq!(hands.fragments[1].text, "!");
    assert_eq!(hands.fragments[1].colour, Some(GREEN));
    assert_eq!(hands.fragments[3].colour, None);
    game.inventory_pane.clear();
    assert_eq!(game.get_input(Some(Input::Mode(Intent::Grab))), Ok(()));
    assert_eq!(game.render_interface(), Ok(()));
    assert_eq!(lines(&game.inventory_pane)[0], "GRAB");
    game.world.remove(coin);
    game.inventory_pane.clear();
    assert_eq!(game.render_interface(), Err(Fault::MissingEntity));
    assert!(lines(&game.inventory_pane).is_empty());
    assert!(lines(&game.log_pane).is_empty());
}

#[test]
fn a_walk_takes_one_tick() {
    let mut game = game_on_ground(4, 4, Vector(1, 1));
    let player = game.player;
    let assets = cave_assets();
    assert_eq!(game.get_input(Some(Input::Direction(Direction::East))), Ok(()));
    let (turn, result) = game.tick(&assets);
    assert_eq!(result, Ok(()));
    assert_eq!(turn.moved, vec![player]);
    assert!(turn.spawners.is_empty());
    assert_eq!(turn.spawned.map(|spawned| spawned.len()), Some(0));
    assert!(turn.pushed.is_empty() && turn.grabbed.is_empty() && turn.thrown.is_empty());
    assert_eq!(position_of(&game.world, player), Some(Vector(2, 1)));
    assert_eq!(places(&game.map, player), vec![Vector(2, 1)]);
    assert_eq!(game.map.get_objects(Vector(2, 1)).unwrap().len(), 2);
    assert_eq!(game.map.get_objects(Vector(1, 1)).unwrap().len(), 1);
    assert_eq!(game.tick(&assets).1, Ok(()));
    assert!(!has::<Displacement>(&game.world, player));
    assert_eq!(position_of(&game.world, player), Some(Vector(2, 1)));
}

#[test]
fn grab_then_throw_and_the_thing_flies_until_it_hits_the_edge() {
    let mut game = game_on_ground(5, 1, Vector(0, 0));
    let player = game.player;
    let assets = cave_assets();
    let rock = item(&mut game, "rock");
    place(&mut game.world, &mut game.map, rock, Vector(1, 0));
    assert_eq!(game.get_input(Some(Input::Mode(Intent::Grab))), Ok(()));
    assert_eq!(game.get_input(Some(Input::Direction(Direction::East))), Ok(()));
    let (turn, result) = game.tick(&assets);
    assert_eq!(result, Ok(()));
    assert_eq!(turn.grabbed, vec![player]);
    assert_eq!(game.world.entry_ref(player).unwrap().get_component::<Equipment>().unwrap().held, Some(rock));
    assert_eq!(position_of(&game.world, rock), None);
    assert!(places(&game.map, rock).is_empty());
    assert_eq!(game.get_input(Some(Input::Mode(Intent::Throw))), Ok(()));
    assert_eq!(game.get_input(Some(Input::Direction(Direction::East))), Ok(()));
    let (turn, result) = game.tick(&assets);
    assert_eq!(result, Ok(()));
    assert_eq!(turn.thrown, vec![player]);
    assert_eq!(game.world.entry_ref(player).unwrap().get_component::<Equipment>().unwrap().held, None);
    assert_eq!(position_of(&game.world, rock), Some(Vector(0, 0)));
    assert_eq!(
        *game.world.entry_ref(rock).unwrap().get_component::<Velocity>().unwrap(),
        Velocity { direction: Direction::East, magnitude: 1 }
    );
    let mut seen = Vec::new();
    for _ in 0..8 {
        assert_eq!(game.tick(&assets).1, Ok(()));
        seen.push(position_of(&game.world, rock).unwrap().0);
        assert_eq!(places(&game.map, rock), vec![position_of(&game.world, rock).unwrap()]);
    }
    assert_eq!(seen, vec![0, 1, 2, 3, 4, 4, 4, 4]);
    assert!(!has::<Velocity>(&game.world, rock));
    assert!(!has::<Displacement>(&game.world, rock));
    assert_eq!(lines(&game.log_pane), vec!["You pick up the rock"]);
}

#[test]
fn a_fault_ends_the_tick() {
    let mut game = game_on_ground(3, 1, Vector(0, 0));
    let player = game.player;
    let assets = cave_assets();
    let gone = game.world.push(());
    game.world.remove(gone);
    give(&mut game.world, player, Grab { entity: gone });
    give(&mut game.world, player, Throw { direction: Direction::East });
    give(&mut game.world, player, Displacement { path: vec![Vector(1, 0)] });
    let (turn, result) = game.tick(&assets);
    assert_eq!(result, Err(Fault::MissingEntity));
    assert_eq!(turn.moved, vec![player]);
    assert_eq!(turn.grabbed, vec![player]);
    assert!(turn.thrown.is_empty());
    assert_eq!(position_of(&game.world, player), Some(Vector(1, 0)));
    assert!(has::<Grab>(&game.world, player));
    assert!(has::<Throw>(&game.world, player));
}

#[test]
fn a_turn_begins_and_ends_without_light() {
    let mut game = game_on_ground(3, 1, Vector(0, 0));
    let assets = cave_assets();
    let lamp = Light { colour: WHITE, intensity_bits: 1, radius: 2 };
    let torch = game.world.push((lamp,));
    place(&mut game.world, &mut game.map, torch, Vector(1, 0));
    let visible = vec![Vector(1, 0)];
    assert_eq!(game.apply_illumination(&visible, &vec![vec![Vector(0, 0), Vector(1, 0), Vector(2, 0)]]), Ok(()));
    assert!(has::<Illumination>(&game.world, game.player));
    assert!(has::<Illumination>(&game.world, torch));
    assert_eq!(game.tick(&assets).1, Ok(()));
    assert!(!has::<Illumination>(&game.world, game.player));
    assert!(!has::<Illumination>(&game.world, torch));
    for x in 0..3 {
        for object in game.map.get_objects(Vector(x, 0)).unwrap() {
            assert!(!has::<Illumination>(&game.world, object.entity));
        }
    }
}

#[test]
fn the_game_lights_what_its_lights_reach() {
    let mut game = game_on_ground(4, 1, Vector(0, 0));
    let lamp = Light { colour: WHITE, intensity_bits: 1, radius: 2 };
    let torch = game.world.push((lamp, Glyph { character: 'i', colour: WHITE }));
    place(&mut game.world, &mut game.map, torch, Vector(2, 0));
    let visible = vec![Vector(0, 0), Vector(1, 0), Vector(2, 0)];
    let sources = game.light_sources(&visible).unwrap();
    assert_eq!(sources, vec![(Vector(2, 0), lamp)]);
    let fields = vec![vec![Vector(1, 0), Vector(2, 0), Vector(3, 0)]];
    assert_eq!(game.apply_illumination(&visible, &fields), Ok(()));
    let lit = |game: &Game, at: Vector| {
        let top = game.map.get_objects(at).unwrap().last().unwrap().entity;
        game.world.entry_ref(top).unwrap().get_component::<Illumination>().ok().map(|l| l.sources.clone())
    };
    assert_eq!(lit(&game, Vector(0, 0)), None);
    assert_eq!(lit(&game, Vector(1, 0)), Some(vec![(lamp, 1)]));
    assert_eq!(lit(&game, Vector(2, 0)), Some(vec![(lamp, 0)]));
    assert_eq!(lit(&game, Vector(3, 0)), Some(vec![(lamp, 1)]));
    let sprites = game.render_world(&visible).unwrap();
    assert_eq!(sprites.len(), 3);
    assert_eq!(sprites[0].glyph.character, '@');
    assert!(sprites[0].sources.is_empty());
    assert_eq!(sprites[1].sources, vec![(lamp, 1)]);
    assert_eq!(sprites[2].glyph.character, 'i');
    assert_eq!(sprites[2].sources, vec![(lamp, 0)]);
    for x in 0..4 {
        assert_eq!(lit(&game, Vector(x, 0)), None);
    }
    let memory = game.world.entry_ref(game.player).unwrap().get_component::<Memory>().unwrap().spatial.clone();
    assert_eq!(memory, visible);
    assert_eq!(game.apply_illumination(&visible, &Vec::new()), Ok(()));
    assert_eq!(lit(&game, Vector(2, 0)), None);
}

#[test]
fn faults_of_the_lighting() {
    let mut game = game_on_ground(3, 1, Vector(0, 0));
    let lamp = Light { colour: WHITE, intensity_bits: 1, radius: 2 };
    let torch = game.world.push((lamp,));
    place(&mut game.world, &mut game.map, torch, Vector(1, 0));
    let gone = game.world.push(());
    game.map.get_objects_mut(Vector(2, 0)).unwrap().push(Object::new(gone, false, false));
    game.world.remove(gone);
    let visible = vec![Vector(1, 0)];
    assert_eq!(
        game.apply_illumination(&visible, &vec![vec![Vector(0, 0), Vector(2, 0)]]),
        Err(Fault::MissingEntity)
    );
    assert!(!has::<Illumination>(&game.world, game.player));
    assert_eq!(game.apply_illumination(&vec![Vector(2, 0)], &Vec::new()), Err(Fault::MissingEntity));
    assert_eq!(game.light_sources(&vec![Vector(2, 0)]).err(), Some(Fault::MissingEntity));
    assert_eq!(game.apply_illumination(&visible, &vec![vec![Vector(0, 0)], vec![Vector(2, 0)]]), Ok(()));
    assert!(has::<Illumination>(&game.world, game.player));
    assert_eq!(game.render_world(&vec![Vector(2, 0)]).err(), Some(Fault::MissingEntity));
    assert!(has::<Illumination>(&game.world, game.player));
}

#[test]
fn the_top_of_a_cave_cell_decides_whether_it_blocks() {
    let assets = cave_assets();
    for _ in 0..5 {
        if let Ok(game) = Game::new((6, 6), &assets) {
            let start = position_of(&game.world, game.player).unwrap();
            assert!(!top_blocks(game.map.get_objects(start).unwrap()));
            return;
        }
    }
}

fn walls_of(map: &MapBase) -> Vec<bool> {
    let mut walls = Vec::new();
    for index in 0..map.cell_count() {
        let at = map.index_to_point2d(index).unwrap();
        let stack = map.get_objects(at).unwrap();
        walls.push(stack.iter().any(|object| object.block_movement));
    }
    walls
}

#[test]
fn a_game_begins_on_the_ground_that_the_pick_falls_on() {
    let assets = cave_assets();
    let rolls = vec![false; 12];
    let mut starts = Vec::new();
    for pick in 0..12usize {
        let game = Game::begin((4, 3), &assets, &rolls, pick, RandomNumberGenerator::seeded(7)).unwrap();
        assert_eq!(game.map.dimensions(), Vector(4, 3));
        assert_eq!(game.world.len(), 13);
        let start = position_of(&game.world, game.player).unwrap();
        for y in 0..3 {
            for x in 0..4 {
                let stack = game.map.get_objects(Vector(x, y)).unwrap();
                assert!(has::<Tile>(&game.world, stack[0].entity));
                assert!(!has::<Barrier>(&game.world, stack[0].entity));
                assert_eq!(position_of(&game.world, stack[0].entity), Some(Vector(x, y)));
                if Vector(x, y) == start {
                    assert_eq!(stack.len(), 2);
                    assert_eq!(stack[1].entity, game.player);
                } else {
                    assert_eq!(stack.len(), 1);
                }
            }
        }
        assert_eq!(intent_of(&game), Intent::Walk);
        assert!(lines(&game.inventory_pane).is_empty());
        assert!(lines(&game.log_pane).is_empty());
        assert!(!starts.contains(&start));
        starts.push(start);
    }
    let again = Game::begin((4, 3), &assets, &rolls, 12, RandomNumberGenerator::seeded(7)).unwrap();
    assert_eq!(position_of(&again.world, again.player), Some(starts[0]));
    let far = Game::begin((4, 3), &assets, &rolls, usize::MAX, RandomNumberGenerator::seeded(7)).unwrap();
    assert!(starts.contains(&position_of(&far.world, far.player).unwrap()));
}

#[test]
fn a_game_begins_exactly_where_the_caves_have_ground() {
    let assets = cave_assets();
    let rng = || RandomNumberGenerator::seeded(3);
    assert_eq!(Game::begin((4, 3), &assets, &vec![true; 12], 0, rng()).err(), Some(Fault::MissingEntity));
    let mut pit = vec![true; 25];
    pit[12] = false;
    assert_eq!(Game::begin((5, 5), &assets, &pit, 0, rng()).err(), Some(Fault::MissingEntity));
    assert_eq!(Game::begin((0, 0), &assets, &Vec::new(), 0, rng()).err(), Some(Fault::MissingEntity));
    assert_eq!(Game::begin((0, 5), &assets, &Vec::new(), 4, rng()).err(), Some(Fault::MissingEntity));
    assert_eq!(Game::begin((-1, 5), &assets, &Vec::new(), 0, rng()).err(), Some(Fault::OutOfBounds));
    assert_eq!(Game::begin((100_000, 100_000), &assets, &Vec::new(), 0, rng()).err(), Some(Fault::OutOfBounds));
    assert_eq!(Game::begin((3, 3), &Assets::new(), &Vec::new(), 0, rng()).err(), Some(Fault::UnknownAsset));
    assert_eq!(Game::begin((-1, 5), &Assets::new(), &Vec::new(), 0, rng()).err(), Some(Fault::OutOfBounds));
    let mut walls_only = cave_assets();
    walls_only.floors.clear();
    assert_eq!(Game::begin((3, 3), &walls_only, &vec![true; 9], 0, rng()).err(), Some(Fault::UnknownAsset));
    assert!(Game::begin((3, 3), &assets, &Vec::new(), 5, rng()).is_ok());
    assert!(Game::begin((1, 1), &assets, &vec![false], 5, rng()).is_ok());
    let mut lone = vec![false; 9];
    lone[4] = true;
    let game = Game::begin((3, 3), &assets, &lone, 4, rng()).unwrap();
    assert_eq!(game.world.len(), 10);
    assert_eq!(walls_of(&game.map), vec![false; 9]);
}

#[test]
fn the_player_begins_on_ground_among_walls() {
    let assets = cave_assets();
    let mut rolls = Vec::new();
    for _y in 0..4 {
        for x in 0..6 {
            rolls.push(x < 3);
        }
    }
    let mut world = World::default();
    let mut map = MapBase::new(Vector(6, 4));
    generate_caves_from(&mut world, &mut map, &assets.floors[0].1, &assets.walls[0].1, &rolls, CAVE_PASSES);
    assert_eq!(walls_of(&map), rolls);
    let mut starts = Vec::new();
    for pick in 0..40usize {
        let game = Game::begin((6, 4), &assets, &rolls, pick, RandomNumberGenerator::seeded(11)).unwrap();
        assert_eq!(walls_of(&game.map), rolls);
        assert_eq!(game.world.len(), 25);
        let start = position_of(&game.world, game.player).unwrap();
        assert!(start.0 >= 3);
        let stack = game.map.get_objects(start).unwrap();
        assert_eq!(stack.len(), 2);
        assert!(has::<Tile>(&game.world, stack[0].entity));
        assert!(!stack[0].block_movement);
        assert_eq!(stack[1].entity, game.player);
        if !starts.contains(&start) {
            starts.push(start);
        }
    }
    assert_eq!(starts.len(), 12);
}

#[test]
fn a_new_game_draws_its_own_chance() {
    let assets = cave_assets();
    assert_eq!(cells_of((20, 12)), 240);
    assert_eq!(cells_of((0, 7)), 0);
    assert_eq!(cells_of((-1, 7)), 0);
    assert_eq!(cells_of((7, -1)), 0);
    assert_eq!(cells_of((100_000, 100_000)), 0);
    assert_eq!(cells_of((46_340, 46_340)), 2_147_395_600);
    let mut begun = 0;
    for _ in 0..10 {
        match Game::new((12, 12), &assets) {
            Ok(game) => {
                let start = position_of(&game.world, game.player).unwrap();
                let stack = game.map.get_objects(start).unwrap();
                assert!(has::<Tile>(&game.world, stack[0].entity));
                assert_eq!(game.world.len(), 145);
                begun += 1;
            },
            Err(fault) => assert_eq!(fault, Fault::MissingEntity),
        }
    }
    assert!(begun > 0);
}
