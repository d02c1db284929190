use vstd::prelude::*;
use bracket_random::prelude::RandomNumberGenerator;
use legion::{Entity, World};
use crate::caves::{caved, lemma_seed_caves, lemma_smooth_keeps_caved};
use crate::commands::{
    apply_all, flush, lemma_apply_concat, lemma_views_push, state_of, views, Command, CommandView, State,
};
use crate::consistency::{
    consistent, lemma_command_keeps, lemma_commands_keep, lemma_created_keep, lemma_run_one,
    lemma_spawn_effect, lemma_unplaced_stands_nowhere,
};
use crate::components::direction::all_directions;
use crate::components::spawn::CHANCE_SCALE;
use crate::entities::floor::Floor;
use crate::entities::wall::Wall;
use crate::entities::{record_spawn, spawn_commands};
use crate::map::{is_wall, lemma_index_in_range, lemma_point_in_bounds, MapBase, MapView, Object};
use crate::components::position::Position;
use crate::components::tile::Tile;
use crate::location::{build, building_commands, plan_room, room_plan};
use crate::random::{fresh_generator, pick_index, roll_range, seeded_generator};
use crate::vector::Vector;
use crate::world::{create, entities_with, fetch, is_alive, parts_of, world_entities, Parts};

verus! {

/// The chance, in millionths, that a cell starts out as a wall.
pub const WALL_CHANCE: u32 = 350_000;

/// Which cells are walls: all that the making of caves looks at.
#[verifier::ext_equal]
pub struct Grid {
    pub size: Vector,
    pub walls: Seq<bool>,
}

impl Grid {
    /// 1 where column `x`, row `y` is a cell and a wall, else 0.
    pub open spec fn wall_at(self, x: int, y: int) -> int {
        if 0 <= x < self.size.0 && 0 <= y < self.size.1 && self.walls[x + y * self.size.0] {
            1
        } else {
            0
        }
    }

    /// How many of the up to eight cells around column `x`, row `y` are walls.
    pub open spec fn wall_neighbours(self, x: int, y: int) -> int {
        self.wall_at(x, y - 1) + self.wall_at(x + 1, y) + self.wall_at(x, y + 1) + self.wall_at(
            x - 1,
            y,
        ) + self.wall_at(x - 1, y - 1) + self.wall_at(x + 1, y - 1) + self.wall_at(x - 1, y + 1)
            + self.wall_at(x + 1, y + 1)
    }

    /// What a pass makes of the cell at `index`: a wall (`Some(true)`) where it is none and
    /// more than 4 cells around it are walls, a floor (`Some(false)`) where it is a wall and
    /// fewer than 2 are, and else no change.
    pub open spec fn conversion(self, index: int) -> Option<bool> {
        let around = self.wall_neighbours(index % (self.size.0 as int), index / (self.size.0 as int));
        if !self.walls[index] && around > 4 {
            Some(true)
        } else if self.walls[index] && around < 2 {
            Some(false)
        } else {
            None
        }
    }

    /// Whether the cell at `index` is a wall after a pass.
    pub open spec fn smoothed_wall(self, index: int) -> bool {
        match self.conversion(index) {
            Some(wall) => wall,
            None => self.walls[index],
        }
    }

    /// The grid after one pass. Every cell is judged by the grid as it was before the pass.
    pub open spec fn smooth(self) -> Grid {
        Grid { size: self.size, walls: Seq::new(self.walls.len(), |index: int| self.smoothed_wall(index)) }
    }

    /// The grid after `passes` passes.
    pub open spec fn smooth_times(self, passes: nat) -> Grid
        decreases passes,
    {
        if passes == 0 {
            self
        } else {
            self.smooth_times((passes - 1) as nat).smooth()
        }
    }

    /// How many of the first `count` cells a pass changes.
    pub open spec fn conversions(self, count: nat) -> nat
        decreases count,
    {
        if count == 0 {
            0
        } else {
            self.conversions((count - 1) as nat) + if self.conversion(count - 1) is Some {
                1nat
            } else {
                0nat
            }
        }
    }
}

/// Which cells of `map` are walls.
pub open spec fn grid_of(map: MapView) -> Grid {
    Grid { size: map.size, walls: Seq::new(map.cells.len(), |index: int| is_wall(map.cells[index])) }
}

/// Whether the roll for the cell at `index` made it a wall. A cell without a roll is none.
pub open spec fn roll_at(rolls: Seq<bool>, index: int) -> bool {
    0 <= index < rolls.len() && rolls[index]
}

/// The grid of `size` whose walls are where the rolls say.
pub open spec fn seeded(size: Vector, rolls: Seq<bool>) -> Grid {
    Grid { size, walls: Seq::new((size.0 * size.1) as nat, |index: int| roll_at(rolls, index)) }
}

/// How many of `stacks` are walls.
pub open spec fn walls_in(stacks: Seq<Seq<Object>>) -> int
    decreases stacks.len(),
{
    if stacks.len() == 0 {
        0
    } else {
        walls_in(stacks.drop_last()) + if is_wall(stacks.last()) {
            1int
        } else {
            0int
        }
    }
}

proof fn lemma_neighbour_step(map: MapView, position: Vector, count: nat)
    requires
        map.wf(),
        1 <= count <= 8,
    ensures
        walls_in(map.neighbours_upto(position, count)) == walls_in(
            map.neighbours_upto(position, (count - 1) as nat),
        ) + grid_of(map).wall_at(
            position.0 + all_directions()[count - 1].unit_vector().0,
            position.1 + all_directions()[count - 1].unit_vector().1,
        ),
{
    let before = map.neighbours_upto(position, (count - 1) as nat);
    let step = all_directions()[count - 1].unit_vector();
    let x = position.0 + step.0;
    let y = position.1 + step.1;
    if map.contains(x, y) {
        lemma_index_in_range(map, x, y);
        assert(before.push(map.cell_at(x, y)).drop_last() =~= before);
    }
}

/// The walls among the neighbours of a cell are the walls counted around it.
pub proof fn lemma_neighbour_walls(map: MapView, position: Vector)
    requires
        map.wf(),
    ensures
        walls_in(map.neighbours(position)) == grid_of(map).wall_neighbours(
            position.0 as int,
            position.1 as int,
        ),
{
    lemma_neighbour_step(map, position, 1);
    lemma_neighbour_step(map, position, 2);
    lemma_neighbour_step(map, position, 3);
    lemma_neighbour_step(map, position, 4);
    lemma_neighbour_step(map, position, 5);
    lemma_neighbour_step(map, position, 6);
    lemma_neighbour_step(map, position, 7);
    lemma_neighbour_step(map, position, 8);
    assert(walls_in(map.neighbours_upto(position, 0)) == 0);
}

/// Whether the top of `stack` stops movement.
pub fn top_blocks(stack: &Vec<Object>) -> (blocked: bool)
    ensures
        blocked == is_wall(stack@),
{
    stack.len() > 0 && stack[stack.len() - 1].block_movement
}

/// How many of the up to eight cells around `position` are walls.
pub fn wall_neighbours(map: &MapBase, position: Vector) -> (count: usize)
    ensures
        count == grid_of(map@).wall_neighbours(position.0 as int, position.1 as int),
        count <= 8,
{
    let stacks = map.neighbours(position);
    let ghost around = map@.neighbours(position);
    let size = map.dimensions();
    proof {
        lemma_neighbour_walls(map@, position);
        reveal_with_fuel(MapView::neighbours_upto, 9);
        assert(around.len() <= 8);
    }
    let mut count: usize = 0;
    let mut next: usize = 0;
    assert(around.take(0) =~= Seq::<Seq<Object>>::empty());
    while next < stacks.len()
        invariant
            next <= stacks@.len(),
            stacks@.len() == around.len(),
            around.len() <= 8,
            forall|k: int| 0 <= k < stacks@.len() ==> (#[trigger] stacks@[k])@ == around[k],
            count == walls_in(around.take(next as int)),
            count <= next,
        decreases stacks@.len() - next,
    {
        proof {
            assert(around.take(next + 1).drop_last() =~= around.take(next as int));
        }
        if top_blocks(stacks[next]) {
            count += 1;
        }
        next += 1;
    }
    assert(around.take(next as int) =~= around);
    count
}

/// What a pass makes of the cell at `index`, judged by the map as it is.
pub fn decide(map: &MapBase, index: usize) -> (decision: Option<bool>)
    requires
        index < map@.cells.len(),
    ensures
        decision == grid_of(map@).conversion(index as int),
{
    let position = match map.index_to_point2d(index) {
        Some(position) => position,
        None => return None,
    };
    let stack = match map.get_objects(position) {
        Some(stack) => stack,
        None => return None,
    };
    let wall = top_blocks(stack);
    let around = wall_neighbours(map, position);
    proof {
        lemma_point_in_bounds(map@, index as int);
        assert(position.0 == index as int % (map@.size.0 as int));
        assert(position.1 == index as int / (map@.size.0 as int));
        assert(map@.cell(position) == map@.cells[index as int]);
    }
    if !wall && around > 4 {
        Some(true)
    } else if wall && around < 2 {
        Some(false)
    } else {
        None
    }
}

/// `entities` with each of `made` added, made of nothing.
pub open spec fn with_created(entities: Map<Entity, Parts>, made: Seq<Entity>) -> Map<Entity, Parts>
    decreases made.len(),
{
    if made.len() == 0 {
        entities
    } else {
        with_created(entities, made.drop_last()).insert(made.last(), Parts::empty())
    }
}

/// Whether `made` are entities that `entities` lacks, no two of them the same.
pub open spec fn all_new(entities: Map<Entity, Parts>, made: Seq<Entity>) -> bool {
    &&& made.no_duplicates()
    &&& forall|i: int| 0 <= i < made.len() ==> !entities.dom().contains(#[trigger] made[i])
}

/// Makes `count` new entities, each with nothing.
pub fn create_many(world: &mut World, count: usize) -> (made: Vec<Entity>)
    ensures
        made@.len() == count,
        all_new(world_entities(*old(world)), made@),
        world_entities(*final(world)) == with_created(world_entities(*old(world)), made@),
{
    let ghost before = world_entities(*world);
    let mut made: Vec<Entity> = Vec::new();
    while made.len() < count
        invariant
            made@.len() <= count,
            all_new(before, made@),
            world_entities(*world) == with_created(before, made@),
            forall|i: int| 0 <= i < made@.len() ==> is_alive(*world, #[trigger] made@[i]),
            forall|entity: Entity|
                before.dom().contains(entity) ==> #[trigger] world_entities(*world).dom().contains(entity),
        decreases count - made@.len(),
    {
        let entity = create(world);
        proof {
            assert(made@.push(entity).drop_last() =~= made@);
            assert(!before.dom().contains(entity));
        }
        made.push(entity);
    }
    made
}

/// The commands that bring `entity` into being in the cell at `index`, as a wall or as a
/// floor.
pub open spec fn cell_spawn(
    map: MapView,
    entity: Entity,
    index: int,
    as_wall: bool,
    floor: Floor,
    wall: Wall,
) -> Seq<CommandView> {
    spawn_commands(
        entity,
        map.point_at(index),
        if as_wall {
            wall.components()
        } else {
            floor.components()
        },
        as_wall,
        as_wall,
    )
}

/// The commands that fill the first `count` cells, each with a wall or a floor as its roll
/// says; `made[i]` becomes what is in cell `i`.
pub open spec fn seeding_commands(
    map: MapView,
    made: Seq<Entity>,
    rolls: Seq<bool>,
    floor: Floor,
    wall: Wall,
    count: nat,
) -> Seq<CommandView>
    decreases count,
{
    if count == 0 {
        Seq::empty()
    } else {
        seeding_commands(map, made, rolls, floor, wall, (count - 1) as nat) + cell_spawn(
            map,
            made[count - 1],
            count - 1,
            roll_at(rolls, count - 1),
            floor,
            wall,
        )
    }
}

/// The command that empties the top of the cell at `index`: its top object leaves the map
/// and its entity the world. Nothing where the cell is empty.
pub open spec fn lift_commands(map: MapView, index: int) -> Seq<CommandView> {
    if map.cells[index].len() > 0 {
        seq![CommandView::Lift(map.point_at(index))]
    } else {
        Seq::empty()
    }
}

/// The commands of one pass over the first `count` cells: where a cell changes, what was on
/// top of it goes and a new wall or floor comes, made of the next unused of `made`.
pub open spec fn smoothing_commands(
    map: MapView,
    made: Seq<Entity>,
    floor: Floor,
    wall: Wall,
    count: nat,
) -> Seq<CommandView>
    decreases count,
{
    if count == 0 {
        Seq::empty()
    } else {
        let before = smoothing_commands(map, made, floor, wall, (count - 1) as nat);
        match grid_of(map).conversion(count - 1) {
            Some(as_wall) => before + lift_commands(map, count - 1) + cell_spawn(
                map,
                made[grid_of(map).conversions((count - 1) as nat) as int],
                count - 1,
                as_wall,
                floor,
                wall,
            ),
            None => before,
        }
    }
}

/// Whether each of `made` is in the world and has no `Position`.
pub open spec fn all_bare(entities: Map<Entity, Parts>, made: Seq<Entity>) -> bool {
    forall|i: int|
        0 <= i < made.len() ==> entities.dom().contains(#[trigger] made[i]) && entities[made[i]].position is None
}

/// Entities that were made of nothing are in the world without a `Position`.
pub proof fn lemma_created_are_bare(entities: Map<Entity, Parts>, made: Seq<Entity>)
    requires
        all_new(entities, made),
    ensures
        all_bare(with_created(entities, made), made),
    decreases made.len(),
{
    if made.len() > 0 {
        let shorter = made.drop_last();
        assert forall|i: int| 0 <= i < shorter.len() implies !entities.dom().contains(#[trigger] shorter[i]) by {
            assert(shorter[i] == made[i]);
        }
        lemma_created_are_bare(entities, shorter);
        assert forall|i: int| 0 <= i < made.len() implies with_created(entities, made).dom().contains(
            #[trigger] made[i],
        ) && with_created(entities, made)[made[i]].position is None by {
            if i < shorter.len() {
                assert(shorter[i] == made[i]);
            }
        }
    }
}

/// What seeding does: after the first `count` cells are filled, each of them has the object
/// of its entity on top, a wall where its roll says so; the later cells are as they were,
/// and the entities for them still have no `Position`.
pub proof fn lemma_seeding_effect(
    state: State,
    made: Seq<Entity>,
    rolls: Seq<bool>,
    floor: Floor,
    wall: Wall,
    count: nat,
)
    requires
        state.map.wf(),
        count <= made.len(),
        made.len() == state.map.cells.len(),
        made.no_duplicates(),
        all_bare(state.entities, made),
    ensures
        ({
            let after = apply_all(state, seeding_commands(state.map, made, rolls, floor, wall, count));
            &&& after.map.size == state.map.size
            &&& after.map.cells.len() == state.map.cells.len()
            &&& after.entities.dom() == state.entities.dom()
            &&& forall|i: int|
                count <= i < made.len() ==> after.entities[#[trigger] made[i]] == state.entities[made[i]]
            &&& forall|j: int|
                0 <= j < made.len() ==> #[trigger] after.map.cells[j] == (if j < count {
                    state.map.cells[j].push(
                        Object {
                            entity: made[j],
                            block_fov: roll_at(rolls, j),
                            block_movement: roll_at(rolls, j),
                        },
                    )
                } else {
                    state.map.cells[j]
                })
        }),
    decreases count,
{
    if count > 0 {
        let fewer = (count - 1) as nat;
        lemma_seeding_effect(state, made, rolls, floor, wall, fewer);
        let before = apply_all(state, seeding_commands(state.map, made, rolls, floor, wall, fewer));
        let as_wall = roll_at(rolls, count - 1);
        let extra = cell_spawn(state.map, made[count - 1], count - 1, as_wall, floor, wall);
        lemma_apply_concat(state, seeding_commands(state.map, made, rolls, floor, wall, fewer), extra);
        lemma_point_in_bounds(state.map, count - 1);
        let position = state.map.point_at(count - 1);
        assert(before.entities[made[count - 1]] == state.entities[made[count - 1]]);
        lemma_spawn_effect(
            before,
            made[count - 1],
            position,
            if as_wall {
                wall.components()
            } else {
                floor.components()
            },
            as_wall,
            as_wall,
        );
        let after = apply_all(state, seeding_commands(state.map, made, rolls, floor, wall, count));
        assert(before.map.index_of(position) == count - 1);
        assert forall|i: int| count <= i < made.len() implies after.entities[#[trigger] made[i]]
            == state.entities[made[i]] by {
            assert(made[i] != made[count - 1]);
        }
    }
}

/// Fills every cell: a wall where the roll for the cell says so, else a floor, each on top
/// of what the cell holds. The entities made are handed back, the one of cell `i` at `i`.
pub fn seed(world: &mut World, map: &mut MapBase, floor: &Floor, wall: &Wall, rolls: &Vec<bool>) -> (made:
    Vec<Entity>)
    ensures
        made@.len() == old(map)@.cells.len(),
        all_new(world_entities(*old(world)), made@),
        state_of(*final(world), *final(map)) == apply_all(
            State { entities: with_created(world_entities(*old(world)), made@), map: old(map)@ },
            seeding_commands(old(map)@, made@, rolls@, *floor, *wall, made@.len()),
        ),
        final(map)@.wf(),
        final(map)@.size == old(map)@.size,
        final(map)@.cells.len() == old(map)@.cells.len(),
        forall|index: int|
            0 <= index < made@.len() ==> #[trigger] final(map)@.cells[index] == old(map)@.cells[index].push(
                Object {
                    entity: made@[index],
                    block_fov: roll_at(rolls@, index),
                    block_movement: roll_at(rolls@, index),
                },
            ),
        grid_of(final(map)@) == seeded(old(map)@.size, rolls@),
        consistent(state_of(*old(world), *old(map))) ==> consistent(state_of(*final(world), *final(map))),
{
    let ghost before = map@;
    let ghost entities = world_entities(*world);
    let count: usize = map.cell_count();
    let made = create_many(world, count);
    let ghost start = State { entities: world_entities(*world), map: before };
    let mut commands: Vec<Command> = Vec::new();
    let mut index: usize = 0;
    assert(views(commands@) =~= Seq::<CommandView>::empty());
    while index < count
        invariant
            index <= count,
            count == before.cells.len(),
            made@.len() == count,
            map@ == before,
            before.wf(),
            views(commands@) == seeding_commands(before, made@, rolls@, *floor, *wall, index as nat),
        decreases count - index,
    {
        let position = match map.index_to_point2d(index) {
            Some(position) => position,
            None => Vector(0, 0),
        };
        let as_wall: bool = index < rolls.len() && rolls[index];
        let bundle = if as_wall {
            wall.bundle()
        } else {
            floor.bundle()
        };
        record_spawn(&mut commands, made[index], position, bundle, as_wall, as_wall);
        index += 1;
    }
    proof {
        lemma_created_are_bare(entities, made@);
        lemma_seeding_effect(start, made@, rolls@, *floor, *wall, count as nat);
        if consistent(State { entities, map: before }) {
            lemma_created_keep(State { entities, map: before }, made@);
            lemma_commands_keep(start, views(commands@));
        }
    }
    flush(world, map, commands);
    proof {
        assert(grid_of(map@).walls =~= seeded(before.size, rolls@).walls);
    }
    made
}

/// The cell at `index` after a pass: where the pass changes it, what was on top of it has
/// made way for the object of the next of `made`, a wall or a floor; else it is as it was.
pub open spec fn smoothed_cell(map: MapView, made: Seq<Entity>, index: int) -> Seq<Object> {
    match grid_of(map).conversion(index) {
        Some(as_wall) => (if map.cells[index].len() > 0 {
            map.cells[index].drop_last()
        } else {
            map.cells[index]
        }).push(
            Object {
                entity: made[grid_of(map).conversions(index as nat) as int],
                block_fov: as_wall,
                block_movement: as_wall,
            },
        ),
        None => map.cells[index],
    }
}

/// What a pass does to a world that agrees with its map: after the first `count` cells are
/// judged and changed, each of them is a wall exactly where the grid of before the pass
/// says it becomes one; the later cells are as they were, and the entities that are not
/// used yet still have no `Position`. The world and the map still agree.
#[verifier::rlimit(60)]
pub proof fn lemma_smoothing_effect(state: State, made: Seq<Entity>, floor: Floor, wall: Wall, count: nat)
    requires
        consistent(state),
        count <= state.map.cells.len(),
        made.len() == grid_of(state.map).conversions(state.map.cells.len()),
        made.no_duplicates(),
        all_bare(state.entities, made),
    ensures
        ({
            let after = apply_all(state, smoothing_commands(state.map, made, floor, wall, count));
            &&& consistent(after)
            &&& after.map.size == state.map.size
            &&& after.map.cells.len() == state.map.cells.len()
            &&& forall|k: int|
                grid_of(state.map).conversions(count) <= k < made.len() ==> after.entities.dom().contains(
                    #[trigger] made[k],
                ) && after.entities[made[k]].position is None
            &&& forall|j: int|
                count <= j < state.map.cells.len() ==> #[trigger] after.map.cells[j] == state.map.cells[j]
            &&& forall|j: int|
                0 <= j < count ==> is_wall(#[trigger] after.map.cells[j]) == grid_of(state.map).smoothed_wall(j)
            &&& forall|j: int|
                0 <= j < count ==> #[trigger] after.map.cells[j] == smoothed_cell(state.map, made, j)
        }),
    decreases count,
{
    let grid = grid_of(state.map);
    if count > 0 {
        let index = count - 1;
        let fewer = (count - 1) as nat;
        lemma_smoothing_effect(state, made, floor, wall, fewer);
        lemma_conversions_grow(grid, count, state.map.cells.len());
        let earlier = smoothing_commands(state.map, made, floor, wall, fewer);
        let before = apply_all(state, earlier);
        let after = apply_all(state, smoothing_commands(state.map, made, floor, wall, count));
        lemma_point_in_bounds(state.map, index);
        let position = state.map.point_at(index);
        match grid.conversion(index) {
            Some(as_wall) => {
                let used = grid.conversions(fewer) as int;
                let lifting = lift_commands(state.map, index);
                let extra = cell_spawn(state.map, made[used], index, as_wall, floor, wall);
                assert(smoothing_commands(state.map, made, floor, wall, count) == earlier + lifting + extra);
                lemma_apply_concat(state, earlier + lifting, extra);
                lemma_apply_concat(state, earlier, lifting);
                let lifted = apply_all(before, lifting);
                assert(before.map.cells[index] == state.map.cells[index]);
                assert(before.map.index_of(position) == index);
                if state.map.cells[index].len() > 0 {
                    lemma_run_one(before, CommandView::Lift(position));
                    let top = state.map.cells[index].last().entity;
                    assert(before.map.cells[index][state.map.cells[index].len() - 1].entity == top);
                    assert forall|k: int| used <= k < made.len() implies made[k] != top by {
                        if made[k] == top {
                            lemma_unplaced_stands_nowhere(before, made[k]);
                        }
                    }
                    lemma_command_keeps(before, CommandView::Lift(position));
                } else {
                    assert(lifted == before);
                }
                assert(lifted.map.size == before.map.size);
                lemma_spawn_effect(
                    lifted,
                    made[used],
                    position,
                    if as_wall {
                        wall.components()
                    } else {
                        floor.components()
                    },
                    as_wall,
                    as_wall,
                );
                lemma_commands_keep(lifted, extra);
                assert forall|k: int| grid.conversions(count) <= k < made.len() implies after.entities.dom().contains(
                    #[trigger] made[k],
                ) && after.entities[made[k]].position is None by {
                    assert(made[k] != made[used]);
                    assert(lifted.entities.dom().contains(made[k]) && lifted.entities[made[k]].position is None);
                }
                assert forall|j: int| 0 <= j < count implies is_wall(#[trigger] after.map.cells[j])
                    == grid.smoothed_wall(j) by {
                    if j < index {
                        assert(after.map.cells[j] == lifted.map.cells[j]);
                        assert(lifted.map.cells[j] == before.map.cells[j]);
                    }
                }
                assert forall|j: int| 0 <= j < count implies #[trigger] after.map.cells[j] == smoothed_cell(
                    state.map,
                    made,
                    j,
                ) by {
                    if j < index {
                        assert(after.map.cells[j] == lifted.map.cells[j]);
                        assert(lifted.map.cells[j] == before.map.cells[j]);
                    }
                }
                assert forall|j: int| count <= j < state.map.cells.len() implies #[trigger] after.map.cells[j]
                    == state.map.cells[j] by {
                    assert(after.map.cells[j] == lifted.map.cells[j]);
                    assert(lifted.map.cells[j] == before.map.cells[j]);
                }
            },
            None => {
                assert(grid.walls[index] == is_wall(state.map.cells[index]));
            },
        }
    }
}

/// One pass: every cell is judged by the map as it is when the pass begins, and only then
/// are the cells changed. Where a cell changes, what was on top of it leaves the map and the
/// world, and a new wall or floor takes its place. The entities made are handed back in the
/// order of their cells.
pub fn smooth(world: &mut World, map: &mut MapBase, floor: &Floor, wall: &Wall) -> (made: Vec<Entity>)
    requires
        consistent(state_of(*old(world), *old(map))),
    ensures
        made@.len() == grid_of(old(map)@).conversions(old(map)@.cells.len()),
        all_new(world_entities(*old(world)), made@),
        state_of(*final(world), *final(map)) == apply_all(
            State { entities: with_created(world_entities(*old(world)), made@), map: old(map)@ },
            smoothing_commands(old(map)@, made@, *floor, *wall, old(map)@.cells.len()),
        ),
        consistent(state_of(*final(world), *final(map))),
        final(map)@.wf(),
        final(map)@.size == old(map)@.size,
        grid_of(final(map)@) == grid_of(old(map)@).smooth(),
        forall|index: int|
            0 <= index < old(map)@.cells.len() ==> #[trigger] final(map)@.cells[index] == smoothed_cell(
                old(map)@,
                made@,
                index,
            ),
{
    let ghost before = map@;
    let ghost entities = world_entities(*world);
    let ghost grid = grid_of(before);
    let count: usize = map.cell_count();
    let mut decisions: Vec<Option<bool>> = Vec::new();
    let mut changes: usize = 0;
    while decisions.len() < count
        invariant
            decisions@.len() <= count,
            count == before.cells.len(),
            map@ == before,
            grid == grid_of(before),
            changes == grid.conversions(decisions@.len()),
            changes <= decisions@.len(),
            forall|j: int| 0 <= j < decisions@.len() ==> #[trigger] decisions@[j] == grid.conversion(j),
        decreases count - decisions@.len(),
    {
        let decision = decide(map, decisions.len());
        if decision.is_some() {
            changes += 1;
        }
        decisions.push(decision);
    }
    let made = create_many(world, changes);
    let ghost start = State { entities: world_entities(*world), map: before };
    let mut commands: Vec<Command> = Vec::new();
    let mut index: usize = 0;
    let mut used: usize = 0;
    assert(views(commands@) =~= Seq::<CommandView>::empty());
    while index < count
        invariant
            index <= count,
            count == before.cells.len(),
            decisions@.len() == count,
            made@.len() == changes,
            changes == grid.conversions(count as nat),
            used == grid.conversions(index as nat),
            used <= changes,
            map@ == before,
            before.wf(),
            grid == grid_of(before),
            forall|j: int| 0 <= j < count ==> #[trigger] decisions@[j] == grid.conversion(j),
            views(commands@) == smoothing_commands(before, made@, *floor, *wall, index as nat),
        decreases count - index,
    {
        proof {
            lemma_conversions_grow(grid, (index + 1) as nat, count as nat);
        }
        if let Some(as_wall) = decisions[index] {
            let position = match map.index_to_point2d(index) {
                Some(position) => position,
                None => Vector(0, 0),
            };
            let ghost earlier = views(commands@);
            let ghost lifted = lift_commands(before, index as int);
            proof {
                lemma_point_in_bounds(before, index as int);
            }
            if let Some(stack) = map.get_objects(position) {
                if stack.len() > 0 {
                    proof {
                        lemma_views_push(commands@, Command::Lift(position));
                    }
                    commands.push(Command::Lift(position));
                }
            }
            assert(views(commands@) =~= earlier + lifted);
            let bundle = if as_wall {
                wall.bundle()
            } else {
                floor.bundle()
            };
            record_spawn(&mut commands, made[used], position, bundle, as_wall, as_wall);
            used += 1;
        }
        index += 1;
    }
    proof {
        lemma_created_are_bare(entities, made@);
        lemma_created_keep(State { entities, map: before }, made@);
        lemma_smoothing_effect(start, made@, *floor, *wall, count as nat);
    }
    flush(world, map, commands);
    proof {
        assert(grid_of(map@).walls =~= grid.smooth().walls);
    }
    made
}

/// The cells that a pass changes among the first few are no more than those it changes
/// among more.
pub proof fn lemma_conversions_grow(grid: Grid, fewer: nat, more: nat)
    requires
        fewer <= more,
    ensures
        grid.conversions(fewer) <= grid.conversions(more),
    decreases more,
{
    if fewer < more {
        lemma_conversions_grow(grid, fewer, (more - 1) as nat);
    }
}

/// Whether every cell holds something.
pub open spec fn populated(map: MapView) -> bool {
    forall|index: int| 0 <= index < map.cells.len() ==> (#[trigger] map.cells[index]).len() > 0
}

/// Makes caves of the whole map from the rolls given: every cell is filled as its roll says,
/// and then `passes` passes smooth the walls. Which cells end up as walls depends on the
/// size of the map, the rolls and the number of passes, and on nothing else. Every cell is
/// then what it was with one wall or floor on top, and the world has gained the entities of
/// these tops, each made of the components of its kind with its `Position`, and no others.
pub fn generate_caves_from(
    world: &mut World,
    map: &mut MapBase,
    floor: &Floor,
    wall: &Wall,
    rolls: &Vec<bool>,
    passes: u32,
)
    requires
        consistent(state_of(*old(world), *old(map))),
    ensures
        consistent(state_of(*final(world), *final(map))),
        final(map)@.wf(),
        final(map)@.size == old(map)@.size,
        grid_of(final(map)@) == seeded(old(map)@.size, rolls@).smooth_times(passes as nat),
        populated(final(map)@),
        caved(state_of(*old(world), *old(map)), state_of(*final(world), *final(map)), *floor, *wall),
{
    let ghost base = state_of(*world, *map);
    let ghost start = seeded(map@.size, rolls@);
    let first = seed(world, map, floor, wall, rolls);
    proof {
        lemma_seed_caves(base, first@, rolls@, *floor, *wall);
    }
    let mut done: u32 = 0;
    while done < passes
        invariant
            done <= passes,
            consistent(state_of(*world, *map)),
            base.map.wf(),
            map@.wf(),
            map@.size == old(map)@.size,
            grid_of(map@) == start.smooth_times(done as nat),
            populated(map@),
            caved(base, state_of(*world, *map), *floor, *wall),
        decreases passes - done,
    {
        let ghost before = state_of(*world, *map);
        let made = smooth(world, map, floor, wall);
        proof {
            lemma_smooth_keeps_caved(base, before, made@, *floor, *wall);
        }
        done += 1;
    }
}

/// Whether a number drawn for a cell makes the cell a wall: it does where the number is
/// below `WALL_CHANCE`, and `WALL_CHANCE` itself makes none.
pub fn wall_roll(draw: i32) -> (wall: bool)
    ensures
        wall == (draw < WALL_CHANCE),
{
    draw < WALL_CHANCE as i32
}

/// One roll for each of `count` cells: a number from 0 up to, and not including,
/// `CHANCE_SCALE` is drawn for each, and `wall_roll` says what it makes of the cell.
pub fn draw_rolls(rng: &mut RandomNumberGenerator, count: usize) -> (rolls: Vec<bool>)
    ensures
        rolls@.len() == count,
{
    let mut rolls: Vec<bool> = Vec::new();
    while rolls.len() < count
        invariant
            rolls@.len() <= count,
        decreases count - rolls@.len(),
    {
        let draw: i32 = roll_range(rng, 0, CHANCE_SCALE as i32);
        rolls.push(wall_roll(draw));
    }
    rolls
}

/// Makes caves of the whole map: every cell becomes a wall with the chance `WALL_CHANCE`,
/// else a floor, and then `passes` passes smooth the walls. The rolls that were drawn are
/// handed back.
pub fn generate_caves(
    world: &mut World,
    map: &mut MapBase,
    rng: &mut RandomNumberGenerator,
    floor: &Floor,
    wall: &Wall,
    passes: u32,
) -> (rolls: Vec<bool>)
    requires
        consistent(state_of(*old(world), *old(map))),
    ensures
        consistent(state_of(*final(world), *final(map))),
        rolls@.len() == old(map)@.cells.len(),
        final(map)@.wf(),
        final(map)@.size == old(map)@.size,
        grid_of(final(map)@) == seeded(old(map)@.size, rolls@).smooth_times(passes as nat),
        populated(final(map)@),
        caved(state_of(*old(world), *old(map)), state_of(*final(world), *final(map)), *floor, *wall),
{
    let size = map.dimensions();
    let count: usize = map.cell_count();
    let rolls = draw_rolls(rng, count);
    generate_caves_from(world, map, floor, wall, &rolls, passes);
    rolls
}

/// A pass judges every cell by the grid as it was before the pass: a wall that a pass turns
/// into floor had fewer than 2 walls around it then, and a floor that it turns into a wall
/// had more than 4.
pub proof fn lemma_pass_judges_by_the_grid_before(grid: Grid, index: int)
    requires
        0 <= index < grid.walls.len(),
    ensures
        grid.walls[index] && !grid.smooth().walls[index] ==> grid.wall_neighbours(
            index % (grid.size.0 as int),
            index / (grid.size.0 as int),
        ) < 2,
        !grid.walls[index] && grid.smooth().walls[index] ==> grid.wall_neighbours(
            index % (grid.size.0 as int),
            index / (grid.size.0 as int),
        ) > 4,
        grid.smooth().walls[index] == grid.smoothed_wall(index),
{
}

/// Where no cell is a wall, a pass changes nothing.
pub proof fn lemma_open_ground_stays(grid: Grid)
    requires
        forall|index: int| 0 <= index < grid.walls.len() ==> !(#[trigger] grid.walls[index]),
        0 <= grid.size.0,
        0 <= grid.size.1,
        grid.walls.len() == grid.size.0 * grid.size.1,
    ensures
        grid.smooth() == grid,
{
    assert forall|index: int| 0 <= index < grid.walls.len() implies grid.smoothed_wall(index)
        == grid.walls[index] by {
        let w = grid.size.0 as int;
        let x = index % w;
        let y = index / w;
        assert forall|i: int, j: int| grid.wall_at(i, j) == 0 by {
            if 0 <= i < grid.size.0 && 0 <= j < grid.size.1 {
                assert(0 <= i + j * w < w * grid.size.1) by (nonlinear_arith)
                    requires
                        0 <= i < w,
                        0 <= j < grid.size.1,
                ;
            }
        }
    }
    assert(grid.smooth().walls =~= grid.walls);
}

/// Where no cell is a wall, no number of passes changes anything.
pub proof fn lemma_open_ground_stays_for_good(grid: Grid, passes: nat)
    requires
        forall|index: int| 0 <= index < grid.walls.len() ==> !(#[trigger] grid.walls[index]),
        0 <= grid.size.0,
        0 <= grid.size.1,
        grid.walls.len() == grid.size.0 * grid.size.1,
    ensures
        grid.smooth_times(passes) == grid,
    decreases passes,
{
    if passes > 0 {
        lemma_open_ground_stays_for_good(grid, (passes - 1) as nat);
        lemma_open_ground_stays(grid);
    }
}

/// No pass changes how many cells there are.
pub proof fn lemma_passes_keep_length(grid: Grid, passes: nat)
    ensures
        grid.smooth_times(passes).walls.len() == grid.walls.len(),
        grid.smooth_times(passes).size == grid.size,
    decreases passes,
{
    if passes > 0 {
        lemma_passes_keep_length(grid, (passes - 1) as nat);
    }
}

/// The same rolls on maps of the same size give the same caves.
pub proof fn lemma_same_rolls_same_caves(
    first: MapView,
    second: MapView,
    size: Vector,
    rolls: Seq<bool>,
    passes: nat,
)
    requires
        grid_of(first) == seeded(size, rolls).smooth_times(passes),
        grid_of(second) == seeded(size, rolls).smooth_times(passes),
    ensures
        first.size == second.size,
        first.cells.len() == second.cells.len(),
        forall|index: int|
            0 <= index < first.cells.len() ==> is_wall(#[trigger] first.cells[index]) == is_wall(
                second.cells[index],
            ),
{
    assert(grid_of(first).walls.len() == first.cells.len());
    assert(grid_of(second).walls.len() == second.cells.len());
    assert forall|index: int| 0 <= index < first.cells.len() implies is_wall(
        #[trigger] first.cells[index],
    ) == is_wall(second.cells[index]) by {
        assert(grid_of(first).walls[index] == is_wall(first.cells[index]));
        assert(grid_of(second).walls[index] == is_wall(second.cells[index]));
    }
}

/// Makes the ground of a world, with a source of chance of its own.
pub struct Generator {
    rng: RandomNumberGenerator,
}

impl Generator {
    /// A generator whose chance comes from the machine.
    pub fn new() -> (generator: Generator) {
        Self { rng: fresh_generator() }
    }

    /// A generator whose chance starts from `seed`.
    pub fn seeded(seed: u64) -> (generator: Generator) {
        Self { rng: seeded_generator(seed) }
    }

    /// Builds a room between the corners `position` and `dimensions`, both of which have to
    /// be cells of the map: else nothing is built and `None` comes back. The entities made
    /// are handed back in the order of the plan of the room.
    pub fn room(
        &mut self,
        world: &mut World,
        map: &mut MapBase,
        position: Vector,
        dimensions: Vector,
        floor: &Floor,
        wall: &Wall,
    ) -> (made: Option<Vec<Entity>>)
        ensures
            final(map)@.size == old(map)@.size,
            consistent(state_of(*old(world), *old(map))) ==> consistent(state_of(*final(world), *final(map))),
            made is Some == (old(map)@.in_bounds(position) && old(map)@.in_bounds(dimensions)),
            made is None ==> *final(world) == *old(world) && *final(map) == *old(map),
            made matches Some(built) ==> {
                &&& built@.len() == room_plan(position, dimensions).len()
                &&& all_new(world_entities(*old(world)), built@)
                &&& state_of(*final(world), *final(map)) == apply_all(
                    State { entities: with_created(world_entities(*old(world)), built@), map: old(map)@ },
                    building_commands(built@, room_plan(position, dimensions), *floor, *wall, built@.len()),
                )
            },
    {
        if !map.in_bounds(position) || !map.in_bounds(dimensions) {
            return None;
        }
        let plan = plan_room(position, dimensions);
        Some(build(world, map, floor, wall, &plan))
    }

    /// Makes caves of the whole map: every cell becomes a wall with the chance
    /// `WALL_CHANCE`, else a floor, and then `enhancement_passes` passes smooth the walls.
    /// The rolls that were drawn are handed back.
    pub fn generate_caves(
        &mut self,
        world: &mut World,
        map: &mut MapBase,
        floor: &Floor,
        wall: &Wall,
        enhancement_passes: u32,
    ) -> (rolls: Vec<bool>)
        requires
            consistent(state_of(*old(world), *old(map))),
        ensures
            consistent(state_of(*final(world), *final(map))),
            rolls@.len() == old(map)@.cells.len(),
            final(map)@.wf(),
            final(map)@.size == old(map)@.size,
            grid_of(final(map)@) == seeded(old(map)@.size, rolls@).smooth_times(enhancement_passes as nat),
            populated(final(map)@),
            caved(state_of(*old(world), *old(map)), state_of(*final(world), *final(map)), *floor, *wall),
    {
        generate_caves(world, map, &mut self.rng, floor, wall, enhancement_passes)
    }

    /// Ends the making of the ground.
    pub fn generate(self) {
    }
}

/// Whether some entity that is ground has its `Position` at `place`.
pub open spec fn is_ground(entities: Map<Entity, Parts>, place: Vector) -> bool {
    exists|entity: Entity|
        entities.dom().contains(entity) && (#[trigger] entities[entity]).tile is Some
            && entities[entity].position == Some(Position { vector: place })
}

/// The places of the entities that are ground, in the order in which the world hands them
/// out. Ground without a `Position` is left out.
pub fn ground(world: &World) -> (places: Vec<Vector>)
    ensures
        forall|place: Vector| #[trigger] places@.contains(place) == is_ground(world_entities(*world), place),
{
    let tiles = entities_with::<Tile>(world);
    let mut places: Vec<Vector> = Vec::new();
    let mut next: usize = 0;
    while next < tiles.len()
        invariant
            next <= tiles@.len(),
            forall|entity: Entity|
                #[trigger] tiles@.contains(entity) == (is_alive(*world, entity) && parts_of(
                    *world,
                    entity,
                ).tile is Some),
            forall|i: int| 0 <= i < places@.len() ==> is_ground(world_entities(*world), #[trigger] places@[i]),
            forall|i: int|
                0 <= i < next ==> (parts_of(*world, #[trigger] tiles@[i]).position matches Some(position)
                    ==> places@.contains(position.vector)),
        decreases tiles@.len() - next,
    {
        assert(tiles@.contains(tiles@[next as int]));
        if let Some(position) = fetch::<Position>(world, tiles[next]) {
            assert(world_entities(*world)[tiles@[next as int]].tile is Some);
            assert(is_ground(world_entities(*world), position.vector));
            let ghost earlier = places@;
            places.push(position.vector);
            proof {
                assert(places@[earlier.len() as int] == position.vector);
                assert forall|i: int| 0 <= i < next + 1 implies (parts_of(
                    *world,
                    #[trigger] tiles@[i],
                ).position matches Some(position) ==> places@.contains(position.vector)) by {
                    if i < next {
                        if let Some(at) = parts_of(*world, tiles@[i]).position {
                            let found = choose|k: int| 0 <= k < earlier.len() && earlier[k] == at.vector;
                            assert(places@[found] == at.vector);
                        }
                    }
                }
            }
        }
        next += 1;
    }
    proof {
        assert forall|place: Vector| #[trigger] places@.contains(place) == is_ground(
            world_entities(*world),
            place,
        ) by {
            if places@.contains(place) {
                let at = choose|i: int| 0 <= i < places@.len() && places@[i] == place;
                assert(is_ground(world_entities(*world), places@[at]));
            }
            if is_ground(world_entities(*world), place) {
                let entity = choose|entity: Entity|
                    world_entities(*world).dom().contains(entity) && (#[trigger] world_entities(
                        *world,
                    )[entity]).tile is Some && world_entities(*world)[entity].position == Some(
                        Position { vector: place },
                    );
                assert(tiles@.contains(entity));
                let at = choose|i: int| 0 <= i < tiles@.len() && tiles@[i] == entity;
                assert(parts_of(*world, tiles@[at]).position == Some(Position { vector: place }));
            }
        }
    }
    places
}

/// Picks a place for the player among `places`: one of them wherever there is any, and
/// `None` where there is none. Up to what `i32` can count, each is as likely as the other.
pub fn pick_start(rng: &mut RandomNumberGenerator, places: &Vec<Vector>) -> (start: Option<Vector>)
    ensures
        start is Some == (places@.len() > 0),
        start matches Some(place) ==> places@.contains(place),
{
    match pick_index(rng, places.as_slice()) {
        Some(index) => Some(places[index]),
        None => None,
    }
}

/// Whether there is any ground to stand on: an entity that is ground and has a `Position`.
pub open spec fn has_ground(entities: Map<Entity, Parts>) -> bool {
    exists|place: Vector| is_ground(entities, place)
}

/// Puts what lives in a world into it, with a source of chance of its own.
pub struct Populator {
    rng: RandomNumberGenerator,
}

impl Populator {
    /// A populator whose chance comes from the machine.
    pub fn new() -> (populator: Populator) {
        Self { rng: fresh_generator() }
    }

    /// Picks where the player begins: the place of a piece of ground, each as likely as the
    /// other. A world with ground always gives a place; a world without gives `None`.
    pub fn spawn_player(&mut self, world: &World) -> (start: Option<Vector>)
        ensures
            start is Some == has_ground(world_entities(*world)),
            start matches Some(place) ==> is_ground(world_entities(*world), place),
    {
        let places = ground(world);
        let start = pick_start(&mut self.rng, &places);
        proof {
            if places@.len() > 0 {
                assert(places@.contains(places@[0]));
                assert(is_ground(world_entities(*world), places@[0]));
            }
            if has_ground(world_entities(*world)) {
                let place = choose|place: Vector| is_ground(world_entities(*world), place);
                assert(places@.contains(place));
            }
        }
        start
    }

    /// Ends the populating.
    pub fn populate(self) {
    }
}

} // verus!
