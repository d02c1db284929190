use bracket_random::prelude::RandomNumberGenerator;
use legion::{Entity, EntityStore, World};
use protogue::components::barrier::Barrier;
use protogue::components::description::Description;
use protogue::components::glyph::{Colour, Glyph};
use protogue::components::position::Position;
use protogue::components::tile::Tile;
use protogue::entities::floor::Floor;
use protogue::entities::wall::Wall;
use protogue::commands::{apply_command, empty_state, Command, TOP};
use protogue::generation::{
    create_many, decide, draw_rolls, generate_caves, generate_caves_from, ground, pick_start, seed, smooth,
    top_blocks, wall_neighbours, wall_roll, Generator, Populator, WALL_CHANCE,
};
use protogue::location::{build, plan_room, Dungeon, Room};
use protogue::map::{MapBase, Object};
use protogue::vector::Vector;

fn stone() -> Wall {
    Wall {
        barrier: Barrier,
        glyph: Glyph { character: '#', colour: Colour { r: 90, g: 90, b: 90, a: 255 } },
        description: Description { name: String::from("wall"), description: String::from("Rock.") },
        opaque: None,
        light: None,
    }
}

fn dirt() -> Floor {
    Floor {
        tile: Tile,
        glyph: Glyph { character: '.', colour: Colour { r: 40, g: 40, b: 40, a: 255 } },
        description: Description { name: String::from("floor"), description: String::from("Dirt.") },
        spawn: None,
    }
}

/// The walls of the map, row by row: `#` for a wall, `.` for anything else.
fn layout(map: &MapBase) -> Vec<String> {
    let size = map.dimensions();
    let mut rows = Vec::new();
    for y in 0..size.1 {
        let mut row = String::new();
        for x in 0..size.0 {
            if top_blocks(map.get_objects(Vector(x, y)).unwrap()) {
                row.push('#');
            } else {
                row.push('.');
            }
        }
        rows.push(row);
    }
    rows
}

fn rolls_of(rows: &[&str]) -> Vec<bool> {
    let mut rolls = Vec::new();
    for row in rows {
        for cell in row.chars() {
            rolls.push(cell == '#');
        }
    }
    rolls
}

fn caves(rows: &[&str], passes: u32) -> (World, MapBase) {
    let mut world = World::default();
    let mut map = MapBase::new(Vector(rows[0].len() as i32, rows.len() as i32));
    generate_caves_from(&mut world, &mut map, &dirt(), &stone(), &rolls_of(rows), passes);
    (world, map)
}

fn position_of(world: &World, entity: Entity) -> Option<Vector> {
    world.entry_ref(entity).unwrap().get_component::<Position>().ok().map(|position| position.vector)
}

#[test]
fn open_ground_stays_open_through_five_passes() {
    let mut world = World::default();
    let mut map = MapBase::new(Vector(10, 10));
    let rolls = vec![false; 100];
    generate_caves_from(&mut world, &mut map, &dirt(), &stone(), &rolls, 5);
    for y in 0..10 {
        for x in 0..10 {
            let stack = map.get_objects(Vector(x, y)).unwrap();
            assert_eq!(stack.len(), 1);
            assert!(!stack[0].block_movement);
            assert!(!stack[0].block_fov);
            let entry = world.entry_ref(stack[0].entity).unwrap();
            assert!(entry.get_component::<Tile>().is_ok());
            assert!(entry.get_component::<Barrier>().is_err());
            assert_eq!(wall_neighbours(&map, Vector(x, y)), 0);
        }
    }
    assert_eq!(world.len(), 100);
}

#[test]
fn seeding_follows_the_rolls() {
    let (world, map) = caves(&["#..", ".#.", "..#"], 0);
    assert_eq!(layout(&map), vec!["#..", ".#.", "..#"]);
    assert_eq!(world.len(), 9);
    for y in 0..3 {
        for x in 0..3 {
            let stack = map.get_objects(Vector(x, y)).unwrap();
            assert_eq!(stack.len(), 1);
            assert_eq!(position_of(&world, stack[0].entity), Some(Vector(x, y)));
            let entry = world.entry_ref(stack[0].entity).unwrap();
            assert_eq!(entry.get_component::<Barrier>().is_ok(), x == y);
            assert_eq!(entry.get_component::<Tile>().is_ok(), x != y);
            assert_eq!(stack[0].block_fov, x == y);
            assert_eq!(stack[0].block_movement, x == y);
        }
    }
}

#[test]
fn missing_rolls_count_as_floor() {
    let mut world = World::default();
    let mut map = MapBase::new(Vector(2, 2));
    let made = seed(&mut world, &mut map, &dirt(), &stone(), &vec![true]);
    assert_eq!(made.len(), 4);
    assert_eq!(layout(&map), vec!["#.", ".."]);
    assert_eq!(map.get_objects(Vector(1, 0)).unwrap()[0].entity, made[1]);
    assert_eq!(map.get_objects(Vector(0, 1)).unwrap()[0].entity, made[2]);
}

#[test]
fn seeding_goes_on_top_of_what_is_there() {
    let mut world = World::default();
    let mut map = MapBase::new(Vector(1, 1));
    let old = world.push(());
    map.get_objects_mut(Vector(0, 0)).unwrap().push(Object::new(old, false, false));
    let made = seed(&mut world, &mut map, &dirt(), &stone(), &vec![true]);
    let stack = map.get_objects(Vector(0, 0)).unwrap();
    assert_eq!(stack.len(), 2);
    assert_eq!(stack[0].entity, old);
    assert_eq!(stack[1].entity, made[0]);
}

#[test]
fn a_lone_wall_becomes_floor() {
    let (_, map) = caves(&["...", ".#.", "..."], 1);
    assert_eq!(layout(&map), vec!["...", "...", "..."]);
}

#[test]
fn a_wall_with_two_walls_around_stays() {
    let (_, map) = caves(&["##.", "#..", "..."], 1);
    assert_eq!(layout(&map), vec!["##.", "#..", "..."]);
}

#[test]
fn a_wall_with_one_wall_around_becomes_floor() {
    let (_, map) = caves(&["##.", "...", "..."], 1);
    assert_eq!(layout(&map), vec!["...", "...", "..."]);
}

#[test]
fn a_floor_with_five_walls_around_becomes_wall() {
    let (_, map) = caves(&["###", "#.#", "..."], 1);
    assert_eq!(layout(&map), vec!["###", "###", "..."]);
}

#[test]
fn a_floor_with_four_walls_around_stays() {
    let (_, before) = caves(&["###", "#..", "..."], 0);
    assert_eq!(wall_neighbours(&before, Vector(1, 1)), 4);
    assert_eq!(wall_neighbours(&before, Vector(2, 0)), 1);
    let (_, map) = caves(&["###", "#..", "..."], 1);
    assert_eq!(layout(&map), vec!["##.", "#..", "..."]);
}

#[test]
fn a_pit_in_solid_rock_fills_up() {
    let (_, map) = caves(&["###", "#.#", "###"], 1);
    assert_eq!(layout(&map), vec!["###", "###", "###"]);
}

#[test]
fn solid_rock_stays() {
    let (_, map) = caves(&["###", "###", "###"], 3);
    assert_eq!(layout(&map), vec!["###", "###", "###"]);
}

#[test]
fn every_cell_is_judged_by_the_map_before_the_pass() {
    let (_, map) = caves(&["###"], 1);
    assert_eq!(layout(&map), vec![".#."]);
    let (_, again) = caves(&["###"], 2);
    assert_eq!(layout(&again), vec!["..."]);
    let (_, column) = caves(&["#", "#", "#", "#"], 1);
    assert_eq!(layout(&column), vec![".", "#", "#", "."]);
}

#[test]
fn a_changed_cell_holds_one_new_entity() {
    let mut world = World::default();
    let mut map = MapBase::new(Vector(3, 3));
    let seeded = seed(&mut world, &mut map, &dirt(), &stone(), &rolls_of(&["...", ".#.", "..."]));
    let made = smooth(&mut world, &mut map, &dirt(), &stone());
    assert_eq!(made.len(), 1);
    assert!(!world.contains(seeded[4]));
    assert!(world.contains(made[0]));
    let stack = map.get_objects(Vector(1, 1)).unwrap();
    assert_eq!(stack.len(), 1);
    assert_eq!(stack[0].entity, made[0]);
    assert_eq!(position_of(&world, made[0]), Some(Vector(1, 1)));
    assert!(world.entry_ref(made[0]).unwrap().get_component::<Tile>().is_ok());
    assert_eq!(world.len(), 9);
    let none = smooth(&mut world, &mut map, &dirt(), &stone());
    assert!(none.is_empty());
    assert_eq!(world.len(), 9);
}

#[test]
fn walls_around_are_counted() {
    let (_, map) = caves(&["#.#", "...", "###"], 0);
    assert_eq!(wall_neighbours(&map, Vector(1, 1)), 5);
    assert_eq!(wall_neighbours(&map, Vector(0, 0)), 0);
    assert_eq!(wall_neighbours(&map, Vector(1, 2)), 2);
    assert_eq!(wall_neighbours(&map, Vector(1, 0)), 2);
    assert_eq!(wall_neighbours(&map, Vector(-1, -1)), 1);
    assert_eq!(wall_neighbours(&map, Vector(9, 9)), 0);
    assert_eq!(decide(&map, 4), Some(true));
    assert_eq!(decide(&map, 0), Some(false));
    assert_eq!(decide(&map, 7), None);
    assert_eq!(decide(&map, 1), None);
}

#[test]
fn the_top_of_a_stack_decides_whether_it_is_a_wall() {
    let mut world = World::default();
    let (a, b) = (world.push(()), world.push(()));
    assert!(!top_blocks(&Vec::new()));
    assert!(top_blocks(&vec![Object::new(a, false, false), Object::new(b, false, true)]));
    assert!(!top_blocks(&vec![Object::new(a, true, true), Object::new(b, true, false)]));
}

#[test]
fn the_same_seed_gives_the_same_caves() {
    let mut first_world = World::default();
    let mut first_map = MapBase::new(Vector(20, 15));
    let first_rolls =
        Generator::seeded(42).generate_caves(&mut first_world, &mut first_map, &dirt(), &stone(), 4);
    let mut second_world = World::default();
    let mut second_map = MapBase::new(Vector(20, 15));
    let second_rolls =
        Generator::seeded(42).generate_caves(&mut second_world, &mut second_map, &dirt(), &stone(), 4);
    assert_eq!(first_rolls, second_rolls);
    assert_eq!(layout(&first_map), layout(&second_map));
    assert_eq!(first_rolls.len(), 300);
    assert!(first_rolls.iter().any(|wall| *wall));
    assert!(first_rolls.iter().any(|wall| !*wall));
}

#[test]
fn the_same_rolls_give_the_same_caves() {
    let mut rng = RandomNumberGenerator::seeded(7);
    let mut world = World::default();
    let mut map = MapBase::new(Vector(12, 9));
    let rolls = generate_caves(&mut world, &mut map, &mut rng, &dirt(), &stone(), 3);
    let mut other_world = World::default();
    let mut other_map = MapBase::new(Vector(12, 9));
    generate_caves_from(&mut other_world, &mut other_map, &dirt(), &stone(), &rolls, 3);
    assert_eq!(layout(&map), layout(&other_map));
    for y in 0..9 {
        for x in 0..12 {
            assert_eq!(map.get_objects(Vector(x, y)).unwrap().len(), 1);
        }
    }
}

#[test]
fn caves_of_a_large_map_hold_one_thing_in_every_cell() {
    let mut world = World::default();
    let mut map = MapBase::new(Vector(80, 60));
    let rolls = Generator::seeded(99).generate_caves(&mut world, &mut map, &dirt(), &stone(), 5);
    assert_eq!(rolls.len(), 4800);
    assert_eq!(world.len(), 4800);
    let mut walls = 0;
    for y in 0..60 {
        for x in 0..80 {
            let stack = map.get_objects(Vector(x, y)).unwrap();
            assert_eq!(stack.len(), 1);
            assert_eq!(position_of(&world, stack[0].entity), Some(Vector(x, y)));
            if stack[0].block_movement {
                walls += 1;
                assert!(world.entry_ref(stack[0].entity).unwrap().get_component::<Barrier>().is_ok());
            } else {
                assert!(world.entry_ref(stack[0].entity).unwrap().get_component::<Tile>().is_ok());
            }
        }
    }
    assert!(walls > 0 && walls < 4800);
}

#[test]
fn about_a_third_of_the_rolls_are_walls() {
    let mut rng = RandomNumberGenerator::seeded(1);
    let rolls = draw_rolls(&mut rng, 10_000);
    assert_eq!(rolls.len(), 10_000);
    let walls = rolls.iter().filter(|wall| **wall).count();
    assert!(walls > 3000 && walls < 4000);
    assert!(draw_rolls(&mut rng, 0).is_empty());
}

#[test]
fn a_dungeon_makes_caves_of_the_whole_map() {
    let floor = dirt();
    let wall = stone();
    let mut world = World::default();
    let mut map = MapBase::new(Vector(8, 6));
    let mut rng = RandomNumberGenerator::seeded(3);
    let dungeon = Dungeon::new((0, 0), (8, 6), &floor, &wall);
    assert_eq!(dungeon.position, (0, 0));
    assert_eq!(dungeon.dimensions, (8, 6));
    let rolls = dungeon.generate_caves(&mut world, &mut map, &mut rng, 2);
    assert_eq!(rolls.len(), 48);
    let mut other_world = World::default();
    let mut other_map = MapBase::new(Vector(8, 6));
    generate_caves_from(&mut other_world, &mut other_map, &floor, &wall, &rolls, 2);
    assert_eq!(layout(&map), layout(&other_map));
}

#[test]
fn many_entities_are_made_at_once() {
    let mut world = World::default();
    let old = world.push(());
    let made = create_many(&mut world, 5);
    assert_eq!(made.len(), 5);
    for (i, entity) in made.iter().enumerate() {
        assert!(world.contains(*entity));
        assert!(*entity != old);
        assert!(!made[..i].contains(entity));
    }
    assert_eq!(world.len(), 6);
    assert!(create_many(&mut world, 0).is_empty());
}

#[test]
fn the_plan_of_a_room() {
    let plan = plan_room(Vector(1, 1), Vector(4, 3));
    let wanted = vec![
        (Vector(2, 2), false),
        (Vector(3, 2), false),
        (Vector(2, 1), true),
        (Vector(2, 3), true),
        (Vector(3, 1), true),
        (Vector(3, 3), true),
        (Vector(1, 1), true),
        (Vector(4, 1), true),
        (Vector(1, 2), true),
        (Vector(4, 2), true),
    ];
    assert_eq!(plan, wanted);
    assert!(plan_room(Vector(3, 3), Vector(3, 3)).is_empty());
    assert!(plan_room(Vector(5, 5), Vector(1, 1)).is_empty());
    assert_eq!(plan_room(Vector(0, 0), Vector(0, 2)), vec![
        (Vector(0, 0), true),
        (Vector(0, 0), true),
        (Vector(0, 1), true),
        (Vector(0, 1), true),
    ]);
    assert!(plan_room(Vector(i32::MAX, i32::MAX), Vector(i32::MAX, i32::MAX)).is_empty());
}

#[test]
fn a_room_is_built_after_its_plan() {
    let mut world = World::default();
    let mut map = MapBase::new(Vector(6, 5));
    let (room, made) = Room::new(&mut world, &mut map, (1, 1), (4, 3), &dirt(), &stone()).unwrap();
    assert_eq!(room.position, (1, 1));
    assert_eq!(room.dimensions, (4, 3));
    assert_eq!(made.len(), 10);
    assert_eq!(layout(&map), vec!["......", ".####.", ".#..#.", "..##..", "......"]);
    assert_eq!(map.get_objects(Vector(2, 2)).unwrap()[0].entity, made[0]);
    assert_eq!(position_of(&world, made[9]), Some(Vector(4, 2)));
    assert_eq!(world.len(), 10);
}

#[test]
fn a_room_off_the_map_is_not_built() {
    let mut world = World::default();
    let mut map = MapBase::new(Vector(4, 4));
    assert!(Room::new(&mut world, &mut map, (1, 1), (4, 3), &dirt(), &stone()).is_none());
    assert!(Room::new(&mut world, &mut map, (-1, 0), (2, 2), &dirt(), &stone()).is_none());
    assert!(Generator::new().room(&mut world, &mut map, Vector(0, 0), Vector(3, 4), &dirt(), &stone()).is_none());
    assert_eq!(world.len(), 0);
    let made = Generator::new().room(&mut world, &mut map, Vector(0, 0), Vector(3, 3), &dirt(), &stone());
    assert_eq!(made.unwrap().len(), 14);
    Generator::new().generate();
}

#[test]
fn building_follows_the_plan_given() {
    let mut world = World::default();
    let mut map = MapBase::new(Vector(2, 2));
    let plan = vec![(Vector(0, 0), false), (Vector(0, 0), true), (Vector(1, 1), false)];
    let made = build(&mut world, &mut map, &dirt(), &stone(), &plan);
    assert_eq!(made.len(), 3);
    let stack = map.get_objects(Vector(0, 0)).unwrap();
    assert_eq!(stack.len(), 2);
    assert_eq!(stack[0].entity, made[0]);
    assert_eq!(stack[1].entity, made[1]);
    assert!(stack[1].block_movement);
    assert_eq!(layout(&map), vec!["#.", ".."]);
}

#[test]
fn the_player_starts_on_ground() {
    let (world, _) = caves(&["#.#", "###", "#.."], 0);
    let mut places = ground(&world);
    places.sort_by_key(|place| (place.1, place.0));
    assert_eq!(places, vec![Vector(1, 0), Vector(1, 2), Vector(2, 2)]);
    let mut populator = Populator::new();
    for _ in 0..20 {
        let start = populator.spawn_player(&world).unwrap();
        assert!(places.contains(&start));
    }
    let (rock, _) = caves(&["##", "##"], 0);
    assert!(ground(&rock).is_empty());
    assert_eq!(Populator::new().spawn_player(&rock), None);
    Populator::new().populate();
}

#[test]
fn a_start_is_picked_among_the_places() {
    let mut rng = RandomNumberGenerator::seeded(5);
    let places = vec![Vector(1, 1), Vector(2, 2), Vector(3, 3)];
    let mut seen = Vec::new();
    for _ in 0..100 {
        let start = pick_start(&mut rng, &places).unwrap();
        assert!(places.contains(&start));
        if !seen.contains(&start) {
            seen.push(start);
        }
    }
    assert_eq!(seen.len(), 3);
    assert_eq!(pick_start(&mut rng, &Vec::new()), None);
    for _ in 0..20 {
        assert_eq!(pick_start(&mut rng, &vec![Vector(4, 4)]), Some(Vector(4, 4)));
        assert!(pick_start(&mut rng, &vec![Vector(4, 4), Vector(5, 5)]).is_some());
    }
}

fn has<T: Send + Sync + 'static>(world: &World, entity: Entity) -> bool {
    world.entry_ref(entity).unwrap().get_component::<T>().is_ok()
}

#[test]
fn a_draw_below_the_chance_is_a_wall() {
    assert_eq!(WALL_CHANCE, 350_000);
    assert!(wall_roll(0));
    assert!(wall_roll(349_999));
    assert!(!wall_roll(350_000));
    assert!(!wall_roll(350_001));
    assert!(!wall_roll(999_999));
    assert!(wall_roll(-1));
}

#[test]
fn caves_of_an_empty_map_hold_one_wall_or_floor_in_every_cell() {
    let rows = ["##....", "##....", "......", "....##", "....##"];
    for passes in [0u32, 1, 5] {
        let (mut world, mut map) = empty_state(Vector(6, 5));
        generate_caves_from(&mut world, &mut map, &dirt(), &stone(), &rolls_of(&rows), passes);
        assert_eq!(world.len(), 30);
        let mut seen = Vec::new();
        for y in 0..5 {
            for x in 0..6 {
                let stack = map.get_objects(Vector(x, y)).unwrap();
                assert_eq!(stack.len(), 1);
                let top = stack[0];
                assert!(!seen.contains(&top.entity));
                seen.push(top.entity);
                assert_eq!(top.block_fov, top.block_movement);
                assert_eq!(position_of(&world, top.entity), Some(Vector(x, y)));
                assert_eq!(has::<Barrier>(&world, top.entity), top.block_movement);
                assert_eq!(has::<Tile>(&world, top.entity), !top.block_movement);
                let entry = world.entry_ref(top.entity).unwrap();
                let glyph = *entry.get_component::<Glyph>().unwrap();
                let description = entry.get_component::<Description>().unwrap().clone();
                if top.block_movement {
                    assert_eq!(glyph, stone().glyph);
                    assert_eq!(description.name, "wall");
                } else {
                    assert_eq!(glyph, dirt().glyph);
                    assert_eq!(description.name, "floor");
                }
            }
        }
        assert_eq!(layout(&map), rows.iter().map(|row| row.to_string()).collect::<Vec<String>>());
    }
}

#[test]
fn caves_go_on_top_of_what_a_cell_holds() {
    let (mut world, mut map) = empty_state(Vector(3, 3));
    let chest = world.push((Glyph { character: '=', colour: Colour { r: 1, g: 2, b: 3, a: 255 } },));
    apply_command(&mut world, &mut map, Command::Put(Vector(1, 1), TOP, Object::new(chest, false, false)));
    let mut rolls = vec![false; 9];
    rolls[4] = true;
    generate_caves_from(&mut world, &mut map, &dirt(), &stone(), &rolls, 3);
    assert_eq!(world.len(), 10);
    for y in 0..3 {
        for x in 0..3 {
            let stack = map.get_objects(Vector(x, y)).unwrap();
            let top = stack[stack.len() - 1];
            if Vector(x, y) == Vector(1, 1) {
                assert_eq!(stack.len(), 2);
                assert_eq!(stack[0].entity, chest);
            } else {
                assert_eq!(stack.len(), 1);
            }
            assert!(!top.block_movement);
            assert!(has::<Tile>(&world, top.entity));
            assert_eq!(position_of(&world, top.entity), Some(Vector(x, y)));
        }
    }
    assert_eq!(position_of(&world, chest), Some(Vector(1, 1)));
    assert!(has::<Glyph>(&world, chest));
    assert!(!has::<Tile>(&world, chest));
}

#[test]
fn no_wall_is_left_where_none_was_rolled() {
    let (mut world, mut map) = empty_state(Vector(10, 10));
    generate_caves_from(&mut world, &mut map, &dirt(), &stone(), &vec![false; 100], 5);
    assert_eq!(world.len(), 100);
    for y in 0..10 {
        for x in 0..10 {
            let stack = map.get_objects(Vector(x, y)).unwrap();
            assert_eq!(stack.len(), 1);
            assert!(has::<Tile>(&world, stack[0].entity));
            assert!(!has::<Barrier>(&world, stack[0].entity));
        }
    }
    assert!(ground(&world).len() == 100);
}
