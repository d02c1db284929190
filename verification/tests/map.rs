use legion::{Entity, World};
use protogue::components::barrier::Barrier;
use protogue::components::opaque::Opaque;
use protogue::components::position::Position;
use protogue::map::{find_slot, MapBase, MapError, Object};
use protogue::vector::Vector;

fn entity(world: &mut World) -> Entity {
    world.push(())
}

fn put(map: &mut MapBase, at: Vector, object: Object) {
    map.get_objects_mut(at).unwrap().push(object);
}

fn total(map: &MapBase) -> usize {
    let mut count = 0;
    for index in 0..map.cell_count() {
        let at = map.index_to_point2d(index).unwrap();
        count += map.get_objects(at).unwrap().len();
    }
    count
}

#[test]
fn a_new_map_has_empty_cells() {
    let map = MapBase::new(Vector(4, 3));
    assert_eq!(map.dimensions(), Vector(4, 3));
    assert_eq!(map.cell_count(), 12);
    for y in 0..3 {
        for x in 0..4 {
            assert_eq!(map.get_objects(Vector(x, y)).unwrap().len(), 0);
        }
    }
}

#[test]
fn a_map_without_cells() {
    let map = MapBase::new(Vector(0, 5));
    assert_eq!(map.cell_count(), 0);
    assert!(!map.in_bounds(Vector(0, 0)));
    assert!(map.get_objects(Vector(0, 0)).is_none());
}

#[test]
fn bounds_are_the_size() {
    let map = MapBase::new(Vector(4, 3));
    assert!(map.in_bounds(Vector(0, 0)));
    assert!(map.in_bounds(Vector(3, 2)));
    assert!(!map.in_bounds(Vector(4, 2)));
    assert!(!map.in_bounds(Vector(3, 3)));
    assert!(!map.in_bounds(Vector(-1, 0)));
    assert!(!map.in_bounds(Vector(0, -1)));
}

#[test]
fn index_is_column_plus_row_times_width() {
    let map = MapBase::new(Vector(4, 3));
    assert_eq!(map.point2d_to_index(Vector(0, 0)), Some(0));
    assert_eq!(map.point2d_to_index(Vector(3, 0)), Some(3));
    assert_eq!(map.point2d_to_index(Vector(0, 1)), Some(4));
    assert_eq!(map.point2d_to_index(Vector(2, 2)), Some(10));
    assert_eq!(map.point2d_to_index(Vector(4, 0)), None);
    assert_eq!(map.point2d_to_index(Vector(-1, 1)), None);
}

#[test]
fn point_is_the_inverse_of_index() {
    let map = MapBase::new(Vector(4, 3));
    assert_eq!(map.index_to_point2d(0), Some(Vector(0, 0)));
    assert_eq!(map.index_to_point2d(5), Some(Vector(1, 1)));
    assert_eq!(map.index_to_point2d(11), Some(Vector(3, 2)));
    assert_eq!(map.index_to_point2d(12), None);
    for index in 0..12 {
        let at = map.index_to_point2d(index).unwrap();
        assert_eq!(map.point2d_to_index(at), Some(index));
    }
}

#[test]
fn lookups_off_the_map_give_none() {
    let mut map = MapBase::new(Vector(2, 2));
    assert!(map.get_objects(Vector(2, 0)).is_none());
    assert!(map.get_objects(Vector(0, -1)).is_none());
    assert!(map.get_objects_mut(Vector(5, 5)).is_none());
    assert!(map.get_objects(Vector(i32::MAX, i32::MAX)).is_none());
}

#[test]
fn the_top_of_a_stack_decides_opacity() {
    let mut world = World::default();
    let mut map = MapBase::new(Vector(2, 2));
    let (a, b, c, d) = (entity(&mut world), entity(&mut world), entity(&mut world), entity(&mut world));
    put(&mut map, Vector(0, 0), Object::new(a, false, false));
    put(&mut map, Vector(0, 0), Object::new(b, true, false));
    put(&mut map, Vector(1, 0), Object::new(c, true, true));
    put(&mut map, Vector(1, 0), Object::new(d, false, false));
    assert!(map.is_opaque(0));
    assert!(!map.is_opaque(1));
    assert!(!map.is_opaque(2));
    assert!(!map.is_opaque(4));
    assert!(!map.is_opaque(usize::MAX));
}

#[test]
fn objects_are_made_from_their_parts_and_from_entities() {
    let mut world = World::default();
    let plain = world.push((Position::new(Vector(0, 0)),));
    let wall = world.push((Barrier, Opaque));
    let fence = world.push((Barrier,));
    let object = Object::new(plain, true, false);
    assert_eq!(object.entity, plain);
    assert!(object.block_fov);
    assert!(!object.block_movement);
    let seen = Object::from_entity(plain, &world);
    assert_eq!(seen.entity, plain);
    assert!(!seen.block_fov && !seen.block_movement);
    let stone = Object::from_entity(wall, &world);
    assert!(stone.block_fov && stone.block_movement);
    let wire = Object::from_entity(fence, &world);
    assert!(!wire.block_fov && wire.block_movement);
}

#[test]
fn the_stack_of_an_entity_is_the_first_that_holds_it() {
    let mut world = World::default();
    let mut map = MapBase::new(Vector(3, 1));
    let (a, b, lost) = (entity(&mut world), entity(&mut world), entity(&mut world));
    put(&mut map, Vector(1, 0), Object::new(a, false, false));
    put(&mut map, Vector(2, 0), Object::new(b, false, false));
    put(&mut map, Vector(2, 0), Object::new(a, false, false));
    assert_eq!(map.find_cell(a), Some(1));
    assert_eq!(map.find_cell(b), Some(2));
    assert_eq!(map.find_cell(lost), None);
    assert_eq!(map.get_objects_at_entity(a).unwrap().len(), 1);
    assert_eq!(map.get_objects_at_entity(b).unwrap().len(), 2);
    assert!(map.get_objects_at_entity(lost).is_none());
    assert!(map.get_objects_at_entity_mut(lost).is_none());
    map.get_objects_at_entity_mut(b).unwrap().clear();
    assert_eq!(map.get_objects(Vector(2, 0)).unwrap().len(), 0);
    assert_eq!(map.get_objects(Vector(1, 0)).unwrap().len(), 1);
}

#[test]
fn find_slot_gives_the_lowest_place() {
    let mut world = World::default();
    let (a, b, c) = (entity(&mut world), entity(&mut world), entity(&mut world));
    let stack = vec![Object::new(a, false, false), Object::new(b, false, false), Object::new(a, true, true)];
    assert_eq!(find_slot(&stack, a), Some(0));
    assert_eq!(find_slot(&stack, b), Some(1));
    assert_eq!(find_slot(&stack, c), None);
    assert_eq!(find_slot(&Vec::new(), a), None);
}

#[test]
fn neighbours_are_the_cells_around() {
    let mut world = World::default();
    let mut map = MapBase::new(Vector(3, 3));
    let mut entities = Vec::new();
    for y in 0..3 {
        for x in 0..3 {
            let e = entity(&mut world);
            entities.push(e);
            put(&mut map, Vector(x, y), Object::new(e, false, false));
        }
    }
    assert_eq!(map.neighbours(Vector(1, 1)).len(), 8);
    assert_eq!(map.neighbours(Vector(0, 0)).len(), 3);
    assert_eq!(map.neighbours(Vector(2, 2)).len(), 3);
    assert_eq!(map.neighbours(Vector(1, 0)).len(), 5);
    assert_eq!(map.neighbours(Vector(0, 1)).len(), 5);
    assert_eq!(map.neighbours(Vector(-1, -1)).len(), 1);
    assert_eq!(map.neighbours(Vector(5, 5)).len(), 0);
    assert_eq!(map.neighbours(Vector(i32::MAX, i32::MIN)).len(), 0);
    let around: Vec<Entity> = map.neighbours(Vector(1, 1)).iter().map(|stack| stack[0].entity).collect();
    let wanted = vec![
        entities[1], entities[5], entities[7], entities[3], entities[0], entities[2], entities[6], entities[8],
    ];
    assert_eq!(around, wanted);
    for stack in map.neighbours(Vector(1, 1)) {
        assert!(stack[0].entity != entities[4]);
    }
}

#[test]
fn a_region_is_a_copy_of_its_cells() {
    let mut world = World::default();
    let mut map = MapBase::new(Vector(4, 3));
    let a = entity(&mut world);
    let b = entity(&mut world);
    put(&mut map, Vector(1, 1), Object::new(a, false, false));
    put(&mut map, Vector(2, 2), Object::new(b, true, false));
    let region = map.region(Vector(1, 1), Vector(2, 2)).unwrap();
    assert_eq!(region.dimensions(), Vector(2, 2));
    assert_eq!(region.get_objects(Vector(0, 0)).unwrap()[0].entity, a);
    assert_eq!(region.get_objects(Vector(1, 0)).unwrap().len(), 0);
    assert_eq!(region.get_objects(Vector(0, 1)).unwrap().len(), 0);
    assert_eq!(region.get_objects(Vector(1, 1)).unwrap()[0].entity, b);
    assert!(region.get_objects(Vector(1, 1)).unwrap()[0].block_fov);
    let whole = map.region(Vector(0, 0), Vector(4, 3)).unwrap();
    assert_eq!(whole.cell_count(), 12);
    let none = map.region(Vector(0, 0), Vector(0, 0)).unwrap();
    assert_eq!(none.cell_count(), 0);
}

#[test]
fn a_region_that_leaves_the_map_is_refused() {
    let map = MapBase::new(Vector(4, 3));
    assert!(map.region(Vector(3, 0), Vector(2, 1)).is_none());
    assert!(map.region(Vector(0, 2), Vector(1, 2)).is_none());
    assert!(map.region(Vector(-1, 0), Vector(1, 1)).is_none());
    assert!(map.region(Vector(0, 0), Vector(-1, 1)).is_none());
    assert!(map.region(Vector(0, 0), Vector(5, 1)).is_none());
}

#[test]
fn a_move_keeps_the_height_where_it_can() {
    let mut world = World::default();
    let mut map = MapBase::new(Vector(3, 1));
    let (floor_a, floor_b, low, mover, top) = (
        entity(&mut world),
        entity(&mut world),
        entity(&mut world),
        entity(&mut world),
        entity(&mut world),
    );
    put(&mut map, Vector(0, 0), Object::new(floor_a, false, false));
    put(&mut map, Vector(0, 0), Object::new(mover, true, false));
    put(&mut map, Vector(1, 0), Object::new(floor_b, false, false));
    put(&mut map, Vector(1, 0), Object::new(low, false, false));
    put(&mut map, Vector(1, 0), Object::new(top, false, false));
    let mut position = Position::new(Vector(0, 0));
    assert_eq!(map.move_object_by_entity(mover, &mut position, Vector(1, 0)), Ok(()));
    assert_eq!(position.vector, Vector(1, 0));
    let from: Vec<Entity> = map.get_objects(Vector(0, 0)).unwrap().iter().map(|o| o.entity).collect();
    let to: Vec<Entity> = map.get_objects(Vector(1, 0)).unwrap().iter().map(|o| o.entity).collect();
    assert_eq!(from, vec![floor_a]);
    assert_eq!(to, vec![floor_b, mover, low, top]);
    assert!(map.get_objects(Vector(1, 0)).unwrap()[1].block_fov);
}

#[test]
fn a_move_onto_a_lower_stack_ends_on_top() {
    let mut world = World::default();
    let mut map = MapBase::new(Vector(3, 1));
    let (a, b, mover, c) = (entity(&mut world), entity(&mut world), entity(&mut world), entity(&mut world));
    put(&mut map, Vector(0, 0), Object::new(a, false, false));
    put(&mut map, Vector(0, 0), Object::new(b, false, false));
    put(&mut map, Vector(0, 0), Object::new(mover, false, false));
    put(&mut map, Vector(2, 0), Object::new(c, false, false));
    let mut position = Position::new(Vector(0, 0));
    assert_eq!(map.move_object_by_entity(mover, &mut position, Vector(2, 0)), Ok(()));
    let to: Vec<Entity> = map.get_objects(Vector(2, 0)).unwrap().iter().map(|o| o.entity).collect();
    assert_eq!(to, vec![c, mover]);
    assert_eq!(map.move_object_by_entity(mover, &mut position, Vector(1, 0)), Ok(()));
    let empty: Vec<Entity> = map.get_objects(Vector(1, 0)).unwrap().iter().map(|o| o.entity).collect();
    assert_eq!(empty, vec![mover]);
}

#[test]
fn a_move_within_one_cell() {
    let mut world = World::default();
    let mut map = MapBase::new(Vector(1, 1));
    let (a, mover) = (entity(&mut world), entity(&mut world));
    put(&mut map, Vector(0, 0), Object::new(a, false, false));
    put(&mut map, Vector(0, 0), Object::new(mover, false, false));
    let mut position = Position::new(Vector(0, 0));
    assert_eq!(map.move_object_by_entity(mover, &mut position, Vector(0, 0)), Ok(()));
    let stack: Vec<Entity> = map.get_objects(Vector(0, 0)).unwrap().iter().map(|o| o.entity).collect();
    assert_eq!(stack, vec![a, mover]);
}

#[test]
fn a_move_keeps_the_number_of_objects() {
    let mut world = World::default();
    let mut map = MapBase::new(Vector(3, 3));
    let mut movers = Vec::new();
    for y in 0..3 {
        for x in 0..3 {
            put(&mut map, Vector(x, y), Object::new(entity(&mut world), false, false));
            let mover = entity(&mut world);
            movers.push(mover);
            put(&mut map, Vector(x, y), Object::new(mover, false, false));
        }
    }
    assert_eq!(total(&map), 18);
    let mut position = Position::new(Vector(0, 0));
    for (i, mover) in movers.iter().enumerate() {
        let to = Vector((i as i32 * 2) % 3, (i as i32 + 1) % 3);
        assert_eq!(map.move_object_by_entity(*mover, &mut position, to), Ok(()));
        assert_eq!(position.vector, to);
        assert_eq!(total(&map), 18);
    }
}

#[test]
fn a_move_of_what_stands_nowhere_is_refused() {
    let mut world = World::default();
    let mut map = MapBase::new(Vector(2, 2));
    let a = entity(&mut world);
    let lost = entity(&mut world);
    put(&mut map, Vector(0, 0), Object::new(a, false, false));
    let mut position = Position::new(Vector(1, 1));
    assert_eq!(map.move_object_by_entity(lost, &mut position, Vector(0, 0)), Err(MapError::NotOnMap));
    assert_eq!(position.vector, Vector(1, 1));
    assert_eq!(total(&map), 1);
    assert_eq!(map.move_object_by_entity(lost, &mut position, Vector(9, 9)), Err(MapError::NotOnMap));
}

#[test]
fn a_move_off_the_map_is_refused() {
    let mut world = World::default();
    let mut map = MapBase::new(Vector(2, 2));
    let a = entity(&mut world);
    put(&mut map, Vector(0, 0), Object::new(a, false, false));
    let mut position = Position::new(Vector(0, 0));
    assert_eq!(map.move_object_by_entity(a, &mut position, Vector(2, 0)), Err(MapError::OutOfBounds));
    assert_eq!(map.move_object_by_entity(a, &mut position, Vector(0, -1)), Err(MapError::OutOfBounds));
    assert_eq!(position.vector, Vector(0, 0));
    assert_eq!(map.get_objects(Vector(0, 0)).unwrap().len(), 1);
}

#[test]
fn remove_entity_hands_back_its_object() {
    let mut world = World::default();
    let mut map = MapBase::new(Vector(2, 1));
    let (a, b) = (entity(&mut world), entity(&mut world));
    put(&mut map, Vector(1, 0), Object::new(a, false, false));
    put(&mut map, Vector(1, 0), Object::new(b, true, true));
    let removed = map.remove_entity(a).unwrap();
    assert_eq!(removed.entity, a);
    assert!(!removed.block_fov);
    assert_eq!(map.get_objects(Vector(1, 0)).unwrap().len(), 1);
    assert_eq!(map.get_objects(Vector(1, 0)).unwrap()[0].entity, b);
    assert!(map.remove_entity(a).is_none());
    assert_eq!(map.get_objects(Vector(1, 0)).unwrap().len(), 1);
}

fn standing(map: &MapBase) -> Vec<Entity> {
    let mut found = Vec::new();
    for index in 0..map.cell_count() {
        let at = map.index_to_point2d(index).unwrap();
        for object in map.get_objects(at).unwrap() {
            found.push(object.entity);
        }
    }
    found
}

fn times(found: &[Entity], entity: Entity) -> usize {
    found.iter().filter(|other| **other == entity).count()
}

#[test]
fn a_move_keeps_every_entity_as_often_as_it_stood() {
    let mut world = World::default();
    let mut map = MapBase::new(Vector(3, 2));
    let first = entity(&mut world);
    let second = entity(&mut world);
    let third = entity(&mut world);
    put(&mut map, Vector(0, 0), Object::new(first, false, false));
    put(&mut map, Vector(0, 0), Object::new(second, false, false));
    put(&mut map, Vector(2, 1), Object::new(third, true, true));
    put(&mut map, Vector(1, 1), Object::new(second, false, false));
    let before = standing(&map);
    let moves = [
        (second, Vector(2, 1)),
        (first, Vector(0, 0)),
        (third, Vector(1, 0)),
        (second, Vector(5, 5)),
        (second, Vector(1, 1)),
        (first, Vector(2, 1)),
    ];
    for (who, to) in moves {
        let mut position = Position { vector: Vector(0, 0) };
        let _ = map.move_object_by_entity(who, &mut position, to);
        let after = standing(&map);
        assert_eq!(after.len(), before.len());
        for each in [first, second, third] {
            assert_eq!(times(&after, each), times(&before, each));
        }
    }
    let stranger = entity(&mut world);
    let mut position = Position { vector: Vector(0, 0) };
    assert_eq!(map.move_object_by_entity(stranger, &mut position, Vector(1, 1)), Err(MapError::NotOnMap));
    assert_eq!(times(&standing(&map), stranger), 0);
}

fn names(map: &MapBase) -> Vec<Vec<Entity>> {
    let mut found = Vec::new();
    for index in 0..map.cell_count() {
        let at = map.index_to_point2d(index).unwrap();
        found.push(map.get_objects(at).unwrap().iter().map(|object| object.entity).collect());
    }
    found
}

#[test]
fn a_region_is_changed_by_writing_it_back() {
    let mut world = World::default();
    let mut map = MapBase::new(Vector(4, 3));
    let a = entity(&mut world);
    let b = entity(&mut world);
    let c = entity(&mut world);
    let d = entity(&mut world);
    put(&mut map, Vector(0, 0), Object::new(a, false, false));
    put(&mut map, Vector(1, 1), Object::new(b, false, false));
    put(&mut map, Vector(3, 2), Object::new(c, true, true));
    let mut part = map.region(Vector(1, 1), Vector(3, 2)).unwrap();
    assert_eq!(names(&part), vec![vec![b], vec![], vec![], vec![], vec![], vec![c]]);
    part.get_objects_mut(Vector(0, 0)).unwrap().clear();
    part.get_objects_mut(Vector(2, 0)).unwrap().push(Object::new(d, false, true));
    part.get_objects_mut(Vector(2, 1)).unwrap().push(Object::new(b, false, false));
    assert_eq!(names(&map)[5], vec![b]);
    assert!(map.region_mut(Vector(1, 1), &part));
    assert_eq!(
        names(&map),
        vec![
            vec![a], vec![], vec![], vec![],
            vec![], vec![], vec![], vec![d],
            vec![], vec![], vec![], vec![c, b],
        ]
    );
    assert!(map.get_objects(Vector(3, 1)).unwrap()[0].block_movement);
    assert!(!map.get_objects(Vector(3, 1)).unwrap()[0].block_fov);
    assert_eq!(names(&map.region(Vector(1, 1), Vector(3, 2)).unwrap()), names(&part));
    assert_eq!(map.dimensions(), Vector(4, 3));
}

#[test]
fn a_region_that_leaves_the_map_is_not_written() {
    let mut world = World::default();
    let mut map = MapBase::new(Vector(3, 3));
    let a = entity(&mut world);
    put(&mut map, Vector(2, 2), Object::new(a, false, false));
    let before = names(&map);
    let mut part = MapBase::new(Vector(2, 2));
    let b = entity(&mut world);
    put(&mut part, Vector(0, 0), Object::new(b, false, false));
    assert!(!map.region_mut(Vector(2, 2), &part));
    assert!(!map.region_mut(Vector(-1, 0), &part));
    assert!(!map.region_mut(Vector(0, 2), &part));
    assert!(!map.region_mut(Vector(2, 0), &part));
    assert_eq!(names(&map), before);
    assert!(map.region_mut(Vector(1, 1), &part));
    assert_eq!(names(&map)[4], vec![b]);
    assert!(names(&map)[8].is_empty());
    let nothing = MapBase::new(Vector(0, 0));
    let filled = names(&map);
    assert!(map.region_mut(Vector(3, 3), &nothing));
    assert!(map.region_mut(Vector(0, 0), &nothing));
    assert_eq!(names(&map), filled);
    let whole = MapBase::new(Vector(3, 3));
    assert!(map.region_mut(Vector(0, 0), &whole));
    assert!(names(&map).iter().all(|stack| stack.is_empty()));
}
