use legion::{Entity, EntityStore, World};
use protogue::commands::{apply_command, Command, TOP};
use protogue::components::glyph::{Colour, Glyph};
use protogue::components::illumination::Illumination;
use protogue::components::light::Light;
use protogue::components::memory::Memory;
use protogue::components::meta::camera_focus::CameraFocus;
use protogue::components::position::Position;
use protogue::components::weight::Weight;
use protogue::game::{find_camera, render_view};
use protogue::map::{MapBase, Object};
use protogue::render::{sprite_for, to_screen, GUI_WIDTH, VIEW_RADIUS, WINDOW_CENTER_X, WINDOW_CENTER_Y};
use protogue::systems::Fault;
use protogue::vector::Vector;
use protogue::visibility::{
    check_tops, clear_illumination, find_lights, holds_point, illuminate, remember, shine, top_entity,
};

const AMBER: Colour = Colour { r: 255, g: 190, b: 0, a: 255 };

fn lamp(radius: i32) -> Light {
    Light { colour: AMBER, intensity_bits: 0x3f80_0000, radius }
}

fn place(world: &mut World, map: &mut MapBase, entity: Entity, at: Vector) {
    apply_command(world, map, Command::Put(at, TOP, Object::new(entity, false, false)));
}

/// A map of `width` by `height` with a floor in every cell.
fn ground(width: i32, height: i32) -> (World, MapBase) {
    let mut world = World::default();
    let mut map = MapBase::new(Vector(width, height));
    for y in 0..height {
        for x in 0..width {
            let floor = world.push((Glyph { character: '.', colour: AMBER },));
            place(&mut world, &mut map, floor, Vector(x, y));
        }
    }
    (world, map)
}

fn top(map: &MapBase, at: Vector) -> Entity {
    top_entity(map, at).unwrap()
}

fn sources_of(world: &World, entity: Entity) -> Option<Vec<(Light, u32)>> {
    world.entry_ref(entity).unwrap().get_component::<Illumination>().ok().map(|lit| lit.sources.clone())
}

#[test]
fn the_top_entity_of_a_cell() {
    let (mut world, mut map) = ground(2, 2);
    let floor = top(&map, Vector(1, 1));
    let thing = world.push(());
    place(&mut world, &mut map, thing, Vector(1, 1));
    assert_eq!(top_entity(&map, Vector(1, 1)), Some(thing));
    assert!(top_entity(&map, Vector(0, 0)).is_some());
    assert!(top_entity(&map, Vector(0, 0)) != Some(floor));
    assert_eq!(top_entity(&map, Vector(2, 0)), None);
    assert_eq!(top_entity(&MapBase::new(Vector(1, 1)), Vector(0, 0)), None);
}

#[test]
fn lights_are_found_on_top_of_the_cells_given() {
    let (mut world, mut map) = ground(4, 4);
    let torch = world.push((lamp(3),));
    place(&mut world, &mut map, torch, Vector(1, 2));
    let covered = world.push((lamp(9),));
    place(&mut world, &mut map, covered, Vector(3, 3));
    let lid = world.push(());
    place(&mut world, &mut map, lid, Vector(3, 3));
    let seen = vec![Vector(0, 0), Vector(3, 3), Vector(9, 9), Vector(1, 2), Vector(1, 2)];
    let found = find_lights(&world, &map, &seen).unwrap();
    assert_eq!(found, vec![(Vector(1, 2), lamp(3)), (Vector(1, 2), lamp(3))]);
    assert!(find_lights(&world, &map, &Vec::new()).unwrap().is_empty());
}

#[test]
fn faults_of_the_search_for_lights() {
    let (mut world, mut map) = ground(3, 1);
    let loose = world.push((lamp(2),));
    map.get_objects_mut(Vector(1, 0)).unwrap().push(Object::new(loose, false, false));
    assert_eq!(find_lights(&world, &map, &vec![Vector(0, 0), Vector(1, 0)]), Err(Fault::MissingComponent));
    assert_eq!(find_lights(&world, &map, &vec![Vector(0, 0), Vector(2, 0)]), Ok(Vec::new()));
    let gone = world.push(());
    map.get_objects_mut(Vector(2, 0)).unwrap().push(Object::new(gone, false, false));
    world.remove(gone);
    assert_eq!(find_lights(&world, &map, &vec![Vector(2, 0), Vector(1, 0)]), Err(Fault::MissingEntity));
    assert_eq!(find_lights(&world, &map, &vec![Vector(1, 0), Vector(2, 0)]), Err(Fault::MissingComponent));
    assert!(check_tops(&world, &map, &vec![Vector(0, 0), Vector(1, 0), Vector(7, 7)]));
    assert!(!check_tops(&world, &map, &vec![Vector(0, 0), Vector(2, 0)]));
    assert!(check_tops(&world, &map, &Vec::new()));
}

#[test]
fn light_falls_on_the_tops_with_its_distance() {
    let (mut world, map) = ground(5, 5);
    let points = vec![Vector(2, 2), Vector(3, 2), Vector(4, 4), Vector(9, 9), Vector(0, 1)];
    shine(&mut world, &map, Vector(2, 2), lamp(4), &points);
    assert_eq!(sources_of(&world, top(&map, Vector(2, 2))), Some(vec![(lamp(4), 0)]));
    assert_eq!(sources_of(&world, top(&map, Vector(3, 2))), Some(vec![(lamp(4), 1)]));
    assert_eq!(sources_of(&world, top(&map, Vector(4, 4))), Some(vec![(lamp(4), 2)]));
    assert_eq!(sources_of(&world, top(&map, Vector(0, 1))), Some(vec![(lamp(4), 2)]));
    assert_eq!(sources_of(&world, top(&map, Vector(0, 0))), None);
    assert_eq!(sources_of(&world, top(&map, Vector(1, 1))), None);
}

#[test]
fn light_is_listed_in_the_order_found_and_not_merged() {
    let (mut world, map) = ground(3, 3);
    let sources = vec![(Vector(0, 0), lamp(5)), (Vector(2, 2), lamp(7)), (Vector(1, 1), lamp(1))];
    let fields = vec![vec![Vector(1, 1), Vector(0, 0)], vec![Vector(1, 1), Vector(1, 1)]];
    illuminate(&mut world, &map, &sources, &fields);
    assert_eq!(
        sources_of(&world, top(&map, Vector(1, 1))),
        Some(vec![(lamp(5), 1), (lamp(7), 1), (lamp(7), 1)])
    );
    assert_eq!(sources_of(&world, top(&map, Vector(0, 0))), Some(vec![(lamp(5), 0)]));
    assert_eq!(sources_of(&world, top(&map, Vector(2, 2))), None);
}

#[test]
fn only_the_top_of_a_cell_is_lit() {
    let (mut world, mut map) = ground(2, 1);
    let floor = top(&map, Vector(0, 0));
    let thing = world.push((Weight { grams: 1 },));
    place(&mut world, &mut map, thing, Vector(0, 0));
    shine(&mut world, &map, Vector(1, 0), lamp(2), &vec![Vector(0, 0)]);
    assert_eq!(sources_of(&world, thing), Some(vec![(lamp(2), 1)]));
    assert_eq!(sources_of(&world, floor), None);
    assert!(world.entry_ref(thing).unwrap().get_component::<Weight>().is_ok());
    assert_eq!(
        world.entry_ref(thing).unwrap().get_component::<Position>().unwrap().vector,
        Vector(0, 0)
    );
}

#[test]
fn the_light_is_taken_off_every_entity() {
    let (mut world, map) = ground(3, 3);
    let all: Vec<Vector> = (0..9).map(|i| Vector(i % 3, i / 3)).collect();
    shine(&mut world, &map, Vector(1, 1), lamp(4), &all);
    let stray = world.push((Illumination { sources: vec![(lamp(1), 5)] }, Weight { grams: 2 }));
    clear_illumination(&mut world);
    for at in all {
        let entity = top(&map, at);
        assert_eq!(sources_of(&world, entity), None);
        assert!(world.entry_ref(entity).unwrap().get_component::<Glyph>().is_ok());
        assert!(world.entry_ref(entity).unwrap().get_component::<Position>().is_ok());
    }
    assert_eq!(sources_of(&world, stray), None);
    assert!(world.entry_ref(stray).unwrap().get_component::<Weight>().is_ok());
    clear_illumination(&mut world);
    assert_eq!(world.len(), 10);
}

#[test]
fn memory_grows_and_holds_each_cell_once() {
    let mut memory = Memory::default();
    remember(&mut memory, &vec![Vector(1, 1), Vector(2, 2), Vector(1, 1)]);
    assert_eq!(memory.spatial, vec![Vector(1, 1), Vector(2, 2)]);
    remember(&mut memory, &vec![Vector(2, 2), Vector(0, 0)]);
    assert_eq!(memory.spatial, vec![Vector(1, 1), Vector(2, 2), Vector(0, 0)]);
    remember(&mut memory, &Vec::new());
    assert_eq!(memory.spatial.len(), 3);
    let mut sizes = vec![memory.spatial.len()];
    for tick in 0..10 {
        remember(&mut memory, &vec![Vector(tick % 4, 0), Vector(0, tick % 3)]);
        sizes.push(memory.spatial.len());
    }
    for pair in sizes.windows(2) {
        assert!(pair[0] <= pair[1]);
    }
    assert!(holds_point(&memory.spatial, Vector(3, 0)));
    assert!(!holds_point(&memory.spatial, Vector(9, 9)));
    assert!(!holds_point(&Vec::new(), Vector(0, 0)));
}

#[test]
fn the_viewpoint_is_drawn_in_the_middle_of_the_free_space() {
    assert_eq!(WINDOW_CENTER_X, 49);
    assert_eq!(WINDOW_CENTER_Y, 24);
    assert_eq!(GUI_WIDTH, 25);
    assert_eq!(VIEW_RADIUS, 10);
    assert_eq!(to_screen(Vector(5, 5), Vector(5, 5)), Some((37, 24)));
    assert_eq!(to_screen(Vector(5, 5), Vector(6, 5)), Some((38, 24)));
    assert_eq!(to_screen(Vector(5, 5), Vector(5, 3)), Some((37, 22)));
    assert_eq!(to_screen(Vector(0, 0), Vector(-37, -24)), Some((0, 0)));
    assert_eq!(to_screen(Vector(i32::MIN, 0), Vector(i32::MAX, 0)), None);
    assert_eq!(to_screen(Vector(0, i32::MAX), Vector(0, i32::MIN)), None);
}

#[test]
fn a_sprite_shows_the_top_of_its_cell() {
    let (mut world, mut map) = ground(3, 3);
    let gem = world.push((Glyph { character: '*', colour: AMBER },));
    place(&mut world, &mut map, gem, Vector(2, 1));
    let mist = world.push(());
    place(&mut world, &mut map, mist, Vector(0, 2));
    shine(&mut world, &map, Vector(2, 2), lamp(3), &vec![Vector(2, 1)]);
    let sprite = sprite_for(&world, &map, Vector(1, 1), Vector(2, 1), false).unwrap().unwrap();
    assert_eq!((sprite.x, sprite.y), (38, 24));
    assert_eq!(sprite.glyph, Glyph { character: '*', colour: AMBER });
    assert_eq!(sprite.sources, vec![(lamp(3), 1)]);
    assert!(!sprite.remembered);
    let dim = sprite_for(&world, &map, Vector(1, 1), Vector(2, 1), true).unwrap().unwrap();
    assert!(dim.remembered);
    assert!(dim.sources.is_empty());
    assert_eq!(dim.glyph.character, '*');
    let blank = sprite_for(&world, &map, Vector(1, 1), Vector(0, 2), false).unwrap().unwrap();
    assert_eq!(blank.glyph, Glyph::default());
    assert_eq!((blank.x, blank.y), (36, 25));
    assert!(sprite_for(&world, &map, Vector(1, 1), Vector(3, 3), false).unwrap().is_none());
    world.remove(mist);
    assert_eq!(sprite_for(&world, &map, Vector(1, 1), Vector(0, 2), true).err(), Some(Fault::MissingEntity));
}

#[test]
fn the_camera_is_what_has_the_focus_and_a_position() {
    let (mut world, mut map) = ground(2, 2);
    assert_eq!(find_camera(&world), None);
    let blind = world.push((CameraFocus,));
    assert_eq!(find_camera(&world), None);
    let eye = world.push((CameraFocus, Glyph { character: '@', colour: AMBER }));
    place(&mut world, &mut map, eye, Vector(1, 0));
    assert_eq!(find_camera(&world), Some(eye));
    assert!(world.contains(blind));
}

#[test]
fn the_view_shows_what_is_seen_and_then_what_is_remembered() {
    let (mut world, mut map) = ground(4, 1);
    let eye = world.push((
        CameraFocus,
        Glyph { character: '@', colour: AMBER },
        Memory { spatial: vec![Vector(0, 0), Vector(1, 0), Vector(9, 9)] },
    ));
    place(&mut world, &mut map, eye, Vector(2, 0));
    shine(&mut world, &map, Vector(3, 0), lamp(2), &vec![Vector(2, 0)]);
    let seen = vec![Vector(2, 0), Vector(1, 0), Vector(3, 0), Vector(5, 0)];
    let sprites = render_view(&mut world, &map, Some(eye), &seen).unwrap();
    let drawn: Vec<(i32, i32, char, bool)> =
        sprites.iter().map(|sprite| (sprite.x, sprite.y, sprite.glyph.character, sprite.remembered)).collect();
    assert_eq!(
        drawn,
        vec![(37, 24, '@', false), (36, 24, '.', false), (38, 24, '.', false), (35, 24, '.', true)]
    );
    assert_eq!(sprites[0].sources, vec![(lamp(2), 1)]);
    assert!(sprites[1].sources.is_empty());
    let memory = world.entry_ref(eye).unwrap().get_component::<Memory>().unwrap().spatial.clone();
    assert_eq!(
        memory,
        vec![Vector(0, 0), Vector(1, 0), Vector(9, 9), Vector(2, 0), Vector(3, 0), Vector(5, 0)]
    );
    assert_eq!(sources_of(&world, eye), None);
    let again = render_view(&mut world, &map, Some(eye), &Vec::new()).unwrap();
    assert_eq!(again.len(), 4);
    assert!(again.iter().all(|sprite| sprite.remembered));
    let still = world.entry_ref(eye).unwrap().get_component::<Memory>().unwrap().spatial.len();
    assert_eq!(still, 6);
}

#[test]
fn a_view_without_camera_or_glyph_draws_nothing_and_still_clears_the_light() {
    let (mut world, mut map) = ground(2, 1);
    let faceless = world.push((CameraFocus, Memory::default()));
    place(&mut world, &mut map, faceless, Vector(0, 0));
    shine(&mut world, &map, Vector(0, 0), lamp(2), &vec![Vector(1, 0)]);
    let lit = top(&map, Vector(1, 0));
    assert!(sources_of(&world, lit).is_some());
    assert!(render_view(&mut world, &map, Some(faceless), &vec![Vector(1, 0)]).unwrap().is_empty());
    assert_eq!(sources_of(&world, lit), None);
    assert!(world.entry_ref(faceless).unwrap().get_component::<Memory>().unwrap().spatial.is_empty());
    shine(&mut world, &map, Vector(0, 0), lamp(2), &vec![Vector(1, 0)]);
    assert!(render_view(&mut world, &map, None, &vec![Vector(1, 0)]).unwrap().is_empty());
    assert_eq!(sources_of(&world, lit), None);
    assert!(render_view(&mut world, &map, Some(lit), &vec![Vector(1, 0)]).unwrap().is_empty());
}

#[test]
fn a_fault_in_the_view_leaves_the_world_as_it_was() {
    let (mut world, mut map) = ground(3, 1);
    let eye = world.push((CameraFocus, Glyph { character: '@', colour: AMBER }, Memory::default()));
    place(&mut world, &mut map, eye, Vector(0, 0));
    let gone = world.push(());
    map.get_objects_mut(Vector(2, 0)).unwrap().push(Object::new(gone, false, false));
    world.remove(gone);
    shine(&mut world, &map, Vector(0, 0), lamp(2), &vec![Vector(1, 0)]);
    let lit = top(&map, Vector(1, 0));
    assert_eq!(
        render_view(&mut world, &map, Some(eye), &vec![Vector(1, 0), Vector(2, 0)]).err(),
        Some(Fault::MissingEntity)
    );
    assert!(sources_of(&world, lit).is_some());
    assert!(world.entry_ref(eye).unwrap().get_component::<Memory>().unwrap().spatial.is_empty());
}
