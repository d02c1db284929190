use vstd::prelude::*;
use bracket_random::prelude::RandomNumberGenerator;
use legion::{Entity, World};
use crate::commands::{
    apply_all, flush, state_of, views, Command, CommandView, State,
};
use crate::entities::floor::Floor;
use crate::entities::wall::Wall;
use crate::entities::{record_spawn, spawn_commands};
use crate::consistency::{consistent, lemma_created_keep};
use crate::generation::{all_new, create_many, generate_caves, grid_of, populated, seeded, with_created};
use crate::caves::caved;
use crate::map::MapBase;
use crate::vector::Vector;
use crate::world::world_entities;

verus! {

/// The floor of the first `columns` cells of row `y` of a room whose left wall is in
/// column `left`.
pub open spec fn floor_row(left: int, y: int, columns: nat) -> Seq<(Vector, bool)>
    decreases columns,
{
    if columns == 0 {
        Seq::empty()
    } else {
        floor_row(left, y, (columns - 1) as nat).push((Vector((left + columns) as i32, y as i32), false))
    }
}

/// The floor of the first `rows` rows of a room, each of `columns` cells.
pub open spec fn floor_rows(left: int, top: int, columns: nat, rows: nat) -> Seq<(Vector, bool)>
    decreases rows,
{
    if rows == 0 {
        Seq::empty()
    } else {
        floor_rows(left, top, columns, (rows - 1) as nat) + floor_row(left, top + rows, columns)
    }
}

/// The first `columns` cells of the upper and the lower wall of a room, by turns.
pub open spec fn level_walls(left: int, top: int, bottom: int, columns: nat) -> Seq<(Vector, bool)>
    decreases columns,
{
    if columns == 0 {
        Seq::empty()
    } else {
        level_walls(left, top, bottom, (columns - 1) as nat).push(
            (Vector((left + columns) as i32, top as i32), true),
        ).push((Vector((left + columns) as i32, bottom as i32), true))
    }
}

/// The first `rows` cells of the left and the right wall of a room, by turns, from the
/// upper row down.
pub open spec fn side_walls(left: int, right: int, top: int, rows: nat) -> Seq<(Vector, bool)>
    decreases rows,
{
    if rows == 0 {
        Seq::empty()
    } else {
        side_walls(left, right, top, (rows - 1) as nat).push(
            (Vector(left as i32, (top + rows - 1) as i32), true),
        ).push((Vector(right as i32, (top + rows - 1) as i32), true))
    }
}

/// The number of whole steps from `from` up to `to`; none where `to` is not above `from`.
pub open spec fn steps(from: int, to: int) -> nat {
    if from < to {
        (to - from) as nat
    } else {
        0
    }
}

/// What a room is made of, cell by cell, in the order in which it is built: `true` for a
/// wall. `position` is the upper left corner and `dimensions` the lower right one. The
/// floor fills what lies between the walls; then come the upper and the lower wall without
/// their corners, and then the two sides from the upper corners down to the row above the
/// lower ones.
pub open spec fn room_plan(position: Vector, dimensions: Vector) -> Seq<(Vector, bool)> {
    floor_rows(
        position.0 as int,
        position.1 as int,
        steps(position.0 + 1, dimensions.0 as int),
        steps(position.1 + 1, dimensions.1 as int),
    ) + level_walls(
        position.0 as int,
        position.1 as int,
        dimensions.1 as int,
        steps(position.0 + 1, dimensions.0 as int),
    ) + side_walls(
        position.0 as int,
        dimensions.0 as int,
        position.1 as int,
        steps(position.1 as int, dimensions.1 as int),
    )
}

/// What a room is made of, cell by cell.
pub fn plan_room(position: Vector, dimensions: Vector) -> (plan: Vec<(Vector, bool)>)
    ensures
        plan@ == room_plan(position, dimensions),
{
    let mut plan: Vec<(Vector, bool)> = Vec::new();
    let ghost left = position.0 as int;
    let ghost top = position.1 as int;
    let ghost columns = steps(position.0 + 1, dimensions.0 as int);
    let ghost rows = steps(position.1 + 1, dimensions.1 as int);
    if position.1 < dimensions.1 && position.0 < dimensions.0 {
        let mut y: i32 = position.1 + 1;
        assert(plan@ =~= floor_rows(left, top, columns, 0));
        while y < dimensions.1
            invariant
                position.1 < y <= dimensions.1 || (y == position.1 + 1 && rows == 0),
                position.0 < dimensions.0,
                left == position.0,
                top == position.1,
                columns == steps(position.0 + 1, dimensions.0 as int),
                rows == steps(position.1 + 1, dimensions.1 as int),
                plan@ == floor_rows(left, top, columns, (y - position.1 - 1) as nat),
            decreases dimensions.1 - y,
        {
            let mut x: i32 = position.0 + 1;
            let ghost before = plan@;
            assert(plan@ =~= before + floor_row(left, y as int, 0));
            while x < dimensions.0
                invariant
                    position.0 < x <= dimensions.0 || (x == position.0 + 1 && columns == 0),
                    position.1 < y < dimensions.1,
                    left == position.0,
                    columns == steps(position.0 + 1, dimensions.0 as int),
                    plan@ == before + floor_row(left, y as int, (x - position.0 - 1) as nat),
                decreases dimensions.0 - x,
            {
                plan.push((Vector(x, y), false));
                assert(plan@ =~= before + floor_row(left, y as int, (x - position.0) as nat));
                x += 1;
            }
            assert(plan@ == floor_rows(left, top, columns, (y - position.1) as nat));
            y += 1;
        }
    } else {
        proof {
            lemma_no_floor(left, top, columns, rows);
        }
        assert(plan@ =~= floor_rows(left, top, columns, rows));
    }
    let ghost floors = plan@;
    assert(floors == floor_rows(left, top, columns, rows));
    if position.0 < dimensions.0 {
        let mut x: i32 = position.0 + 1;
        assert(plan@ =~= floors + level_walls(left, top, dimensions.1 as int, 0));
        while x < dimensions.0
            invariant
                position.0 < x <= dimensions.0 || (x == position.0 + 1 && columns == 0),
                left == position.0,
                top == position.1,
                columns == steps(position.0 + 1, dimensions.0 as int),
                plan@ == floors + level_walls(left, top, dimensions.1 as int, (x - position.0 - 1) as nat),
            decreases dimensions.0 - x,
        {
            plan.push((Vector(x, position.1), true));
            plan.push((Vector(x, dimensions.1), true));
            assert(plan@ =~= floors + level_walls(left, top, dimensions.1 as int, (x - position.0) as nat));
            x += 1;
        }
    } else {
        assert(plan@ =~= floors + level_walls(left, top, dimensions.1 as int, columns));
    }
    let ghost levelled = plan@;
    assert(levelled == floors + level_walls(left, top, dimensions.1 as int, columns));
    let mut y: i32 = position.1;
    assert(plan@ =~= levelled + side_walls(left, dimensions.0 as int, top, 0));
    while y < dimensions.1
        invariant
            position.1 <= y <= dimensions.1 || y == position.1,
            left == position.0,
            top == position.1,
            plan@ == levelled + side_walls(left, dimensions.0 as int, top, (y - position.1) as nat),
        decreases dimensions.1 - y,
    {
        plan.push((Vector(position.0, y), true));
        plan.push((Vector(dimensions.0, y), true));
        assert(plan@ =~= levelled + side_walls(left, dimensions.0 as int, top, (y - position.1 + 1) as nat));
        y += 1;
    }
    plan
}

proof fn lemma_no_floor(left: int, top: int, columns: nat, rows: nat)
    requires
        columns == 0 || rows == 0,
    ensures
        floor_rows(left, top, columns, rows) == Seq::<(Vector, bool)>::empty(),
    decreases rows,
{
    if rows > 0 {
        lemma_no_floor(left, top, columns, (rows - 1) as nat);
        assert(floor_rows(left, top, columns, rows) =~= Seq::<(Vector, bool)>::empty());
    }
}

/// The commands that build the first `count` cells of `plan`; `made[i]` becomes what is in
/// the cell number `i` of the plan.
pub open spec fn building_commands(
    made: Seq<Entity>,
    plan: Seq<(Vector, bool)>,
    floor: Floor,
    wall: Wall,
    count: nat,
) -> Seq<CommandView>
    decreases count,
{
    if count == 0 {
        Seq::empty()
    } else {
        building_commands(made, plan, floor, wall, (count - 1) as nat) + spawn_commands(
            made[count - 1],
            plan[count - 1].0,
            if plan[count - 1].1 {
                wall.components()
            } else {
                floor.components()
            },
            plan[count - 1].1,
            plan[count - 1].1,
        )
    }
}

/// Builds what `plan` says: a wall or a floor on top of each of its cells, in its order. The
/// entities made are handed back in that order. A cell off the map gets its entity but no
/// place on the map.
pub fn build(world: &mut World, map: &mut MapBase, floor: &Floor, wall: &Wall, plan: &Vec<(Vector, bool)>) -> (made:
    Vec<Entity>)
    ensures
        made@.len() == plan@.len(),
        all_new(world_entities(*old(world)), made@),
        final(map)@.size == old(map)@.size,
        consistent(state_of(*old(world), *old(map))) ==> consistent(state_of(*final(world), *final(map))),
        state_of(*final(world), *final(map)) == apply_all(
            State { entities: with_created(world_entities(*old(world)), made@), map: old(map)@ },
            building_commands(made@, plan@, *floor, *wall, plan@.len()),
        ),
{
    let ghost before = state_of(*world, *map);
    let made = create_many(world, plan.len());
    proof {
        if consistent(before) {
            lemma_created_keep(before, made@);
        }
    }
    let mut commands: Vec<Command> = Vec::new();
    let mut next: usize = 0;
    assert(views(commands@) =~= Seq::<CommandView>::empty());
    while next < plan.len()
        invariant
            next <= plan@.len(),
            made@.len() == plan@.len(),
            views(commands@) == building_commands(made@, plan@, *floor, *wall, next as nat),
        decreases plan@.len() - next,
    {
        let cell = plan[next];
        let bundle = if cell.1 {
            wall.bundle()
        } else {
            floor.bundle()
        };
        record_spawn(&mut commands, made[next], cell.0, bundle, cell.1, cell.1);
        next += 1;
    }
    flush(world, map, commands);
    made
}

/// A room that has been built.
#[derive(Debug, Copy, Clone)]
pub struct Room {
    pub position: (i32, i32),
    pub dimensions: (i32, i32),
}

impl Room {
    /// Builds a room between the corners `position` and `dimensions`, both of which have to
    /// be cells of the map: else nothing is built and `None` comes back.
    pub fn new(
        world: &mut World,
        map: &mut MapBase,
        position: (i32, i32),
        dimensions: (i32, i32),
        floor: &Floor,
        wall: &Wall,
    ) -> (room: Option<(Room, Vec<Entity>)>)
        ensures
            final(map)@.size == old(map)@.size,
            consistent(state_of(*old(world), *old(map))) ==> consistent(state_of(*final(world), *final(map))),
            room is Some == (old(map)@.in_bounds(Vector(position.0, position.1)) && old(map)@.in_bounds(
                Vector(dimensions.0, dimensions.1),
            )),
            room is None ==> *final(world) == *old(world) && *final(map) == *old(map),
            room matches Some(built) ==> {
                &&& built.0 == (Room { position, dimensions })
                &&& all_new(world_entities(*old(world)), built.1@)
                &&& state_of(*final(world), *final(map)) == apply_all(
                    State { entities: with_created(world_entities(*old(world)), built.1@), map: old(map)@ },
                    building_commands(
                        built.1@,
                        room_plan(Vector(position.0, position.1), Vector(dimensions.0, dimensions.1)),
                        *floor,
                        *wall,
                        built.1@.len(),
                    ),
                )
                &&& built.1@.len() == room_plan(
                    Vector(position.0, position.1),
                    Vector(dimensions.0, dimensions.1),
                ).len()
            },
    {
        let from = Vector(position.0, position.1);
        let to = Vector(dimensions.0, dimensions.1);
        if !map.in_bounds(from) || !map.in_bounds(to) {
            return None;
        }
        let plan = plan_room(from, to);
        let made = build(world, map, floor, wall, &plan);
        Some((Room { position, dimensions }, made))
    }
}

/// A place to make caves in, with the floor and the wall to make them of.
pub struct Dungeon<'a> {
    pub position: (i32, i32),
    pub dimensions: (i32, i32),
    pub floor: &'a Floor,
    pub wall: &'a Wall,
}

impl<'a> Dungeon<'a> {
    /// A dungeon at `position` of `dimensions`, to be made of `floor` and `wall`.
    pub fn new(position: (i32, i32), dimensions: (i32, i32), floor: &'a Floor, wall: &'a Wall) -> (dungeon:
        Dungeon<'a>)
        ensures
            dungeon.position == position,
            dungeon.dimensions == dimensions,
            *dungeon.floor == *floor,
            *dungeon.wall == *wall,
    {
        Self { position, dimensions, floor, wall }
    }

    /// Makes caves of the whole map: every cell becomes a wall with the chance
    /// `WALL_CHANCE`, else a floor, and then `enhancement_passes` passes smooth the walls.
    /// The rolls that were drawn are handed back.
    pub fn generate_caves(
        self,
        world: &mut World,
        map: &mut MapBase,
        rng: &mut RandomNumberGenerator,
        enhancement_passes: u32,
    ) -> (rolls: Vec<bool>)
        requires
            consistent(state_of(*old(world), *old(map))),
        ensures
            consistent(state_of(*final(world), *final(map))),
            rolls@.len() == old(map)@.cells.len(),
            final(map)@.wf(),
            final(map)@.size == old(map)@.size,
            grid_of(final(map)@) == seeded(old(map)@.size, rolls@).smooth_times(enhancement_passes as nat),
            populated(final(map)@),
            caved(
                state_of(*old(world), *old(map)),
                state_of(*final(world), *final(map)),
                *self.floor,
                *self.wall,
            ),
    {
        generate_caves(world, map, rng, self.floor, self.wall, enhancement_passes)
    }
}

} // verus!
