use legion::{Entity, EntityStore, World};
use protogue::commands::{apply_command, empty_state, flush, record, Command, Component, Kind, TOP};
use protogue::components::barrier::Barrier;
use protogue::components::description::Description;
use protogue::components::glyph::{Colour, Glyph};
use protogue::components::light::Light;
use protogue::components::opaque::Opaque;
use protogue::components::position::Position;
use protogue::components::tile::Tile;
use protogue::components::weight::Weight;
use protogue::entities::floor::Floor;
use protogue::entities::wall::Wall;
use protogue::map::{MapBase, Object};
use protogue::vector::Vector;

fn position_of(world: &World, entity: Entity) -> Option<Vector> {
    match world.entry_ref(entity) {
        Ok(entry) => entry.get_component::<Position>().ok().map(|position| position.vector),
        Err(_) => None,
    }
}

fn has<T: Send + Sync + 'static>(world: &World, entity: Entity) -> bool {
    world.entry_ref(entity).unwrap().get_component::<T>().is_ok()
}

fn entities_at(map: &MapBase, at: Vector) -> Vec<Entity> {
    map.get_objects(at).unwrap().iter().map(|object| object.entity).collect()
}

/// How often `entity` stands on the map, and in which cells.
fn places(map: &MapBase, entity: Entity) -> Vec<Vector> {
    let mut found = Vec::new();
    for index in 0..map.cell_count() {
        let at = map.index_to_point2d(index).unwrap();
        for object in map.get_objects(at).unwrap() {
            if object.entity == entity {
                found.push(at);
            }
        }
    }
    found
}

fn stone() -> Wall {
    Wall {
        barrier: Barrier,
        glyph: Glyph { character: '#', colour: Colour { r: 90, g: 90, b: 90, a: 255 } },
        description: Description { name: String::from("wall"), description: String::from("Rock.") },
        opaque: None,
        light: Some(Light { colour: Colour { r: 255, g: 200, b: 0, a: 255 }, intensity_bits: 7, radius: 3 }),
    }
}

fn dirt() -> Floor {
    Floor {
        tile: Tile,
        glyph: Glyph { character: '.', colour: Colour { r: 40, g: 40, b: 40, a: 255 } },
        description: Description { name: String::from("floor"), description: String::from("Dirt.") },
        spawn: None,
    }
}

#[test]
fn put_gives_place_and_position() {
    let mut world = World::default();
    let mut map = MapBase::new(Vector(3, 3));
    let thing = world.push((Weight { grams: 3 },));
    apply_command(&mut world, &mut map, Command::Put(Vector(1, 2), TOP, Object::new(thing, false, true)));
    assert_eq!(position_of(&world, thing), Some(Vector(1, 2)));
    assert_eq!(places(&map, thing), vec![Vector(1, 2)]);
    assert!(map.get_objects(Vector(1, 2)).unwrap()[0].block_movement);
    assert!(has::<Weight>(&world, thing));
}

#[test]
fn put_at_a_height_or_on_top() {
    let mut world = World::default();
    let mut map = MapBase::new(Vector(1, 1));
    let (a, b, c, d) = (world.push(()), world.push(()), world.push(()), world.push(()));
    let at = Vector(0, 0);
    apply_command(&mut world, &mut map, Command::Put(at, 1, Object::new(a, false, false)));
    apply_command(&mut world, &mut map, Command::Put(at, TOP, Object::new(b, false, false)));
    apply_command(&mut world, &mut map, Command::Put(at, 1, Object::new(c, false, false)));
    apply_command(&mut world, &mut map, Command::Put(at, 0, Object::new(d, false, false)));
    assert_eq!(entities_at(&map, at), vec![d, a, c, b]);
}

#[test]
fn put_of_what_has_a_place_changes_nothing() {
    let mut world = World::default();
    let mut map = MapBase::new(Vector(3, 3));
    let thing = world.push(());
    apply_command(&mut world, &mut map, Command::Put(Vector(0, 0), TOP, Object::new(thing, false, false)));
    apply_command(&mut world, &mut map, Command::Put(Vector(2, 2), TOP, Object::new(thing, false, false)));
    assert_eq!(position_of(&world, thing), Some(Vector(0, 0)));
    assert_eq!(places(&map, thing), vec![Vector(0, 0)]);
}

#[test]
fn put_off_the_map_or_of_what_is_gone_changes_nothing() {
    let mut world = World::default();
    let mut map = MapBase::new(Vector(2, 2));
    let thing = world.push(());
    let gone = world.push(());
    world.remove(gone);
    apply_command(&mut world, &mut map, Command::Put(Vector(2, 0), TOP, Object::new(thing, false, false)));
    apply_command(&mut world, &mut map, Command::Put(Vector(0, 0), TOP, Object::new(gone, false, false)));
    assert_eq!(position_of(&world, thing), None);
    assert!(places(&map, thing).is_empty());
    assert!(places(&map, gone).is_empty());
    assert!(!world.contains(gone));
}

#[test]
fn take_removes_place_and_position() {
    let mut world = World::default();
    let mut map = MapBase::new(Vector(2, 2));
    let (a, b) = (world.push((Weight { grams: 1 },)), world.push(()));
    apply_command(&mut world, &mut map, Command::Put(Vector(1, 1), TOP, Object::new(a, false, false)));
    apply_command(&mut world, &mut map, Command::Put(Vector(1, 1), TOP, Object::new(b, false, false)));
    apply_command(&mut world, &mut map, Command::Take(a));
    assert_eq!(position_of(&world, a), None);
    assert!(world.contains(a));
    assert!(has::<Weight>(&world, a));
    assert_eq!(entities_at(&map, Vector(1, 1)), vec![b]);
    apply_command(&mut world, &mut map, Command::Take(a));
    assert_eq!(entities_at(&map, Vector(1, 1)), vec![b]);
    assert_eq!(position_of(&world, b), Some(Vector(1, 1)));
}

#[test]
fn destroy_removes_entity_and_object() {
    let mut world = World::default();
    let mut map = MapBase::new(Vector(2, 2));
    let (a, b, loose) = (world.push(()), world.push(()), world.push(()));
    apply_command(&mut world, &mut map, Command::Put(Vector(0, 1), TOP, Object::new(a, false, false)));
    apply_command(&mut world, &mut map, Command::Put(Vector(0, 1), TOP, Object::new(b, false, false)));
    apply_command(&mut world, &mut map, Command::Destroy(a));
    apply_command(&mut world, &mut map, Command::Destroy(loose));
    assert!(!world.contains(a));
    assert!(!world.contains(loose));
    assert!(world.contains(b));
    assert_eq!(entities_at(&map, Vector(0, 1)), vec![b]);
}

#[test]
fn lift_removes_the_top_and_its_entity() {
    let mut world = World::default();
    let mut map = MapBase::new(Vector(2, 2));
    let (a, b) = (world.push(()), world.push(()));
    apply_command(&mut world, &mut map, Command::Put(Vector(0, 0), TOP, Object::new(a, false, false)));
    apply_command(&mut world, &mut map, Command::Put(Vector(0, 0), TOP, Object::new(b, false, false)));
    apply_command(&mut world, &mut map, Command::Lift(Vector(0, 0)));
    assert!(world.contains(a));
    assert!(!world.contains(b));
    assert_eq!(entities_at(&map, Vector(0, 0)), vec![a]);
    apply_command(&mut world, &mut map, Command::Lift(Vector(1, 1)));
    apply_command(&mut world, &mut map, Command::Lift(Vector(5, 5)));
    assert_eq!(world.len(), 1);
}

#[test]
fn relocate_moves_object_and_position() {
    let mut world = World::default();
    let mut map = MapBase::new(Vector(3, 1));
    let (a, b) = (world.push(()), world.push(()));
    apply_command(&mut world, &mut map, Command::Put(Vector(0, 0), TOP, Object::new(a, false, false)));
    apply_command(&mut world, &mut map, Command::Put(Vector(0, 0), TOP, Object::new(b, true, false)));
    apply_command(&mut world, &mut map, Command::Relocate(b, Vector(2, 0)));
    assert_eq!(position_of(&world, b), Some(Vector(2, 0)));
    assert_eq!(places(&map, b), vec![Vector(2, 0)]);
    assert!(map.get_objects(Vector(2, 0)).unwrap()[0].block_fov);
    apply_command(&mut world, &mut map, Command::Relocate(b, Vector(3, 0)));
    assert_eq!(position_of(&world, b), Some(Vector(2, 0)));
    assert_eq!(places(&map, b), vec![Vector(2, 0)]);
    assert_eq!(position_of(&world, a), Some(Vector(0, 0)));
}

#[test]
fn attach_and_detach_change_one_component() {
    let mut world = World::default();
    let mut map = MapBase::new(Vector(1, 1));
    let thing = world.push((Weight { grams: 1 },));
    apply_command(&mut world, &mut map, Command::Attach(thing, Component::Weight(Weight { grams: 9 })));
    apply_command(&mut world, &mut map, Command::Attach(thing, Component::Barrier(Barrier)));
    assert_eq!(world.entry_ref(thing).unwrap().get_component::<Weight>().unwrap().grams, 9);
    assert!(has::<Barrier>(&world, thing));
    apply_command(&mut world, &mut map, Command::Detach(thing, Kind::Weight));
    apply_command(&mut world, &mut map, Command::Detach(thing, Kind::Opaque));
    assert!(!has::<Weight>(&world, thing));
    assert!(has::<Barrier>(&world, thing));
    let gone = world.push(());
    world.remove(gone);
    apply_command(&mut world, &mut map, Command::Attach(gone, Component::Barrier(Barrier)));
    assert!(!world.contains(gone));
}

#[test]
fn flush_carries_out_in_order() {
    let mut world = World::default();
    let mut map = MapBase::new(Vector(2, 1));
    let (a, b) = (world.push(()), world.push(()));
    let commands = vec![
        Command::Put(Vector(0, 0), TOP, Object::new(a, false, false)),
        Command::Put(Vector(0, 0), TOP, Object::new(b, false, false)),
        Command::Relocate(a, Vector(1, 0)),
        Command::Take(b),
        Command::Put(Vector(1, 0), 0, Object::new(b, false, false)),
    ];
    flush(&mut world, &mut map, commands);
    assert!(entities_at(&map, Vector(0, 0)).is_empty());
    assert_eq!(entities_at(&map, Vector(1, 0)), vec![b, a]);
    flush(&mut world, &mut map, Vec::new());
    assert_eq!(entities_at(&map, Vector(1, 0)), vec![b, a]);
}

#[test]
fn a_spawned_wall_has_its_components_and_blocks() {
    let mut world = World::default();
    let mut map = MapBase::new(Vector(3, 3));
    let mut commands = Vec::new();
    let wall = stone().spawn(&mut world, &mut commands, Vector(2, 1));
    assert!(world.contains(wall));
    assert_eq!(position_of(&world, wall), None);
    assert!(places(&map, wall).is_empty());
    flush(&mut world, &mut map, commands);
    assert_eq!(position_of(&world, wall), Some(Vector(2, 1)));
    assert_eq!(places(&map, wall), vec![Vector(2, 1)]);
    let object = map.get_objects(Vector(2, 1)).unwrap()[0];
    assert!(object.block_fov);
    assert!(object.block_movement);
    assert!(has::<Barrier>(&world, wall));
    assert!(has::<Glyph>(&world, wall));
    assert!(has::<Description>(&world, wall));
    assert!(has::<Light>(&world, wall));
    assert!(!has::<Opaque>(&world, wall));
    assert!(!has::<Tile>(&world, wall));
    let entry = world.entry_ref(wall).unwrap();
    assert_eq!(entry.get_component::<Glyph>().unwrap().character, '#');
    assert_eq!(entry.get_component::<Description>().unwrap().name, "wall");
    assert_eq!(entry.get_component::<Light>().unwrap().radius, 3);
}

#[test]
fn a_spawned_floor_has_its_components_and_blocks_nothing() {
    let mut world = World::default();
    let mut map = MapBase::new(Vector(3, 3));
    let mut commands = Vec::new();
    let floor = dirt().spawn(&mut world, &mut commands, Vector(0, 0));
    flush(&mut world, &mut map, commands);
    let object = map.get_objects(Vector(0, 0)).unwrap()[0];
    assert_eq!(object.entity, floor);
    assert!(!object.block_fov);
    assert!(!object.block_movement);
    assert!(has::<Tile>(&world, floor));
    assert!(!has::<Barrier>(&world, floor));
    assert_eq!(position_of(&world, floor), Some(Vector(0, 0)));
}

#[test]
fn spawning_twice_makes_two_entities_in_stack_order() {
    let mut world = World::default();
    let mut map = MapBase::new(Vector(2, 2));
    let mut commands = Vec::new();
    let below = dirt().spawn(&mut world, &mut commands, Vector(1, 1));
    let above = stone().spawn(&mut world, &mut commands, Vector(1, 1));
    assert!(below != above);
    flush(&mut world, &mut map, commands);
    assert_eq!(entities_at(&map, Vector(1, 1)), vec![below, above]);
    assert!(map.is_opaque(3));
}

#[test]
fn every_entity_stands_where_its_position_says_and_only_there() {
    let mut world = World::default();
    let mut map = MapBase::new(Vector(4, 4));
    let mut commands = Vec::new();
    let mut made = Vec::new();
    for y in 0..4 {
        for x in 0..4 {
            made.push((dirt().spawn(&mut world, &mut commands, Vector(x, y)), Vector(x, y)));
            if (x + y) % 3 == 0 {
                made.push((stone().spawn(&mut world, &mut commands, Vector(x, y)), Vector(x, y)));
            }
        }
    }
    let (mover, _) = made[3];
    commands.push(Command::Relocate(mover, Vector(3, 3)));
    let (taken, _) = made[5];
    commands.push(Command::Take(taken));
    flush(&mut world, &mut map, commands);
    for (entity, at) in made {
        if entity == taken {
            assert_eq!(position_of(&world, entity), None);
            assert!(places(&map, entity).is_empty());
        } else if entity == mover {
            assert_eq!(position_of(&world, entity), Some(Vector(3, 3)));
            assert_eq!(places(&map, entity), vec![Vector(3, 3)]);
        } else {
            assert_eq!(position_of(&world, entity), Some(at));
            assert_eq!(places(&map, entity), vec![at]);
            assert!(map.get_objects_at_entity(entity).unwrap().iter().any(|object| object.entity == entity));
            assert_eq!(
                map.get_objects_at_entity(entity).unwrap().len(),
                map.get_objects(at).unwrap().len()
            );
        }
    }
}

#[test]
fn an_empty_state_has_no_entity_and_empty_cells() {
    let (mut world, mut map) = empty_state(Vector(3, 2));
    assert_eq!(world.len(), 0);
    assert_eq!(map.dimensions(), Vector(3, 2));
    assert_eq!(map.cell_count(), 6);
    for y in 0..2 {
        for x in 0..3 {
            assert!(map.get_objects(Vector(x, y)).unwrap().is_empty());
        }
    }
    let (none, nothing) = empty_state(Vector(0, 0));
    assert_eq!(none.len(), 0);
    assert_eq!(nothing.cell_count(), 0);
    let thing = world.push((Tile,));
    apply_command(&mut world, &mut map, Command::Put(Vector(2, 1), TOP, Object::new(thing, false, false)));
    assert_eq!(places(&map, thing), vec![Vector(2, 1)]);
    assert_eq!(position_of(&world, thing), Some(Vector(2, 1)));
}

#[test]
fn a_command_is_written_down_at_the_end() {
    let (mut world, mut map) = empty_state(Vector(2, 1));
    let first = world.push((Tile,));
    let second = world.push((Tile,));
    let mut commands = Vec::new();
    record(&mut commands, Command::Put(Vector(0, 0), TOP, Object::new(first, false, false)));
    record(&mut commands, Command::Put(Vector(0, 0), TOP, Object::new(second, false, false)));
    record(&mut commands, Command::Relocate(first, Vector(1, 0)));
    assert_eq!(commands.len(), 3);
    flush(&mut world, &mut map, commands);
    assert_eq!(entities_at(&map, Vector(0, 0)), vec![second]);
    assert_eq!(entities_at(&map, Vector(1, 0)), vec![first]);
}
