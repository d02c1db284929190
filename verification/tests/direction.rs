use protogue::components::direction::Direction;
use protogue::components::displacement::Displacement;
use protogue::vector::Vector;

#[test]
fn opposite_of_each_direction() {
    assert_eq!(Direction::North.opposite(), Direction::South);
    assert_eq!(Direction::East.opposite(), Direction::West);
    assert_eq!(Direction::South.opposite(), Direction::North);
    assert_eq!(Direction::West.opposite(), Direction::East);
    assert_eq!(Direction::NorthWest.opposite(), Direction::SouthEast);
    assert_eq!(Direction::NorthEast.opposite(), Direction::SouthWest);
    assert_eq!(Direction::SouthWest.opposite(), Direction::NorthEast);
    assert_eq!(Direction::SouthEast.opposite(), Direction::NorthWest);
}

#[test]
fn opposite_twice_is_the_direction_itself() {
    for direction in Direction::all().iter() {
        assert_eq!(direction.opposite().opposite(), *direction);
    }
}

#[test]
fn all_lists_the_eight_directions_in_order() {
    assert_eq!(
        Direction::all(),
        [
            Direction::North,
            Direction::East,
            Direction::South,
            Direction::West,
            Direction::NorthWest,
            Direction::NorthEast,
            Direction::SouthEast,
            Direction::SouthWest,
        ]
    );
}

#[test]
fn unit_vectors_of_the_four_main_directions() {
    assert_eq!(Direction::North.as_unit_vector(), Vector(0, -1));
    assert_eq!(Direction::East.as_unit_vector(), Vector(1, 0));
    assert_eq!(Direction::South.as_unit_vector(), Vector(0, 1));
    assert_eq!(Direction::West.as_unit_vector(), Vector(-1, 0));
}

#[test]
fn a_direction_turns_into_its_unit_vector() {
    for direction in Direction::all().iter() {
        assert_eq!(Vector::from(*direction), direction.as_unit_vector());
    }
}

#[test]
fn unit_vectors_of_the_diagonals() {
    assert_eq!(Direction::NorthWest.as_unit_vector(), Vector(-1, -1));
    assert_eq!(Direction::NorthEast.as_unit_vector(), Vector(1, -1));
    assert_eq!(Direction::SouthWest.as_unit_vector(), Vector(1, 1));
    assert_eq!(Direction::SouthEast.as_unit_vector(), Vector(-1, 1));
}

#[test]
fn the_eight_unit_vectors_are_the_eight_cells_around() {
    let mut seen: Vec<Vector> = Vec::new();
    for direction in Direction::all().iter() {
        let step = direction.as_unit_vector();
        assert!(step != Vector(0, 0));
        assert!(step.0.abs() <= 1 && step.1.abs() <= 1);
        assert!(!seen.contains(&step));
        seen.push(step);
    }
    assert_eq!(seen.len(), 8);
}

#[test]
fn from_roll_follows_the_order_of_all() {
    for roll in 0..8 {
        assert_eq!(Direction::from_roll(roll), Some(Direction::all()[roll as usize]));
    }
    assert_eq!(Direction::from_roll(8), None);
    assert_eq!(Direction::from_roll(-1), None);
}

#[test]
fn random_keeps_a_given_direction() {
    for _ in 0..20 {
        assert_eq!(Direction::random(Some(Direction::West), None), Direction::West);
        assert_eq!(Direction::random(Some(Direction::NorthEast), Some(3)), Direction::NorthEast);
    }
}

#[test]
fn random_without_a_direction_gives_one_of_the_eight() {
    for _ in 0..50 {
        let chosen = Direction::random(None, None);
        assert!(Direction::all().contains(&chosen));
    }
}

#[test]
fn displacement_from_a_direction_is_one_step() {
    let displacement = Displacement::from_direction(Direction::South);
    assert_eq!(displacement.path, vec![Vector(0, 1)]);
    let given = Displacement::from(vec![Vector(1, 0), Vector(0, 1)]);
    assert_eq!(given.path, vec![Vector(1, 0), Vector(0, 1)]);
}
