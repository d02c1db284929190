use vstd::prelude::*;
use legion::Entity;
use crate::commands::{
    apply_all, dressed, has_barrier, has_tile, lemma_apply_concat, lemma_dressed_barrier,
    lemma_dressed_keeps_position, lemma_dressed_tile, CommandView, State,
};
use crate::components::position::Position;
use crate::consistency::{lemma_run_one, lemma_spawn_effect, lemma_spawn_parts};
use crate::entities::floor::Floor;
use crate::entities::wall::Wall;
use crate::generation::{
    all_new, cell_spawn, grid_of, is_ground, lemma_conversions_grow, lemma_open_ground_stays_for_good,
    lift_commands, roll_at, seeded, seeding_commands, smoothing_commands, with_created,
};
use crate::map::{is_wall, lemma_index_in_range, lemma_point_in_bounds, MapView, Object};
use crate::systems::spawn::{lemma_created_dom, lemma_created_frame};
use crate::vector::Vector;
use crate::world::Parts;

verus! {

/// What a wall or a floor at `place` is made of: its `Position` there and the components of
/// its kind, and nothing else.
pub open spec fn ground_parts(place: Vector, as_wall: bool, floor: Floor, wall: Wall) -> Parts {
    dressed(
        Parts { position: Some(Position { vector: place }), ..Parts::empty() },
        if as_wall {
            wall.components()
        } else {
            floor.components()
        },
    )
}

/// A wall or a floor has its `Position` where it was made. It is ground, with a `Tile`,
/// exactly where it is no wall, and it has a `Barrier` exactly where it is one.
pub proof fn lemma_ground_parts(place: Vector, as_wall: bool, floor: Floor, wall: Wall)
    ensures
        ground_parts(place, as_wall, floor, wall).position == Some(Position { vector: place }),
        ground_parts(place, as_wall, floor, wall).tile is Some == !as_wall,
        ground_parts(place, as_wall, floor, wall).barrier is Some == as_wall,
{
    let bare = Parts { position: Some(Position { vector: place }), ..Parts::empty() };
    let bundle = if as_wall {
        wall.components()
    } else {
        floor.components()
    };
    lemma_dressed_keeps_position(bare, bundle);
    lemma_dressed_tile(bare, bundle);
    lemma_dressed_barrier(bare, bundle);
    if as_wall {
        if has_tile(bundle) {
            let at = choose|at: int| 0 <= at < bundle.len() && #[trigger] bundle[at] is Tile;
            assert(at >= 3 ==> (bundle[at] is Opaque || bundle[at] is Light));
            assert(false);
        }
        assert(bundle[0] is Barrier);
    } else {
        assert(bundle[0] is Tile);
        if has_barrier(bundle) {
            let at = choose|at: int| 0 <= at < bundle.len() && #[trigger] bundle[at] is Barrier;
            assert(at >= 3 ==> bundle[at] is Spawn);
            assert(false);
        }
    }
}

/// Whether the cell at `index` is what it was in `base` with one wall or floor on top: below
/// the top the stack is as it was, and the top stands for an entity that `base` lacks and
/// that is made as a wall or a floor at this cell is, a wall exactly where the top stops
/// movement.
pub open spec fn cave_top(base: State, now: State, floor: Floor, wall: Wall, index: int) -> bool {
    let stack = now.map.cells[index];
    &&& stack.len() > 0
    &&& stack.drop_last() == base.map.cells[index]
    &&& stack.last().block_fov == stack.last().block_movement
    &&& !base.entities.dom().contains(stack.last().entity)
    &&& now.entities.dom().contains(stack.last().entity)
    &&& now.entities[stack.last().entity] == ground_parts(
        now.map.point_at(index),
        stack.last().block_movement,
        floor,
        wall,
    )
}

/// Whether `entity` is what the top of the cell at `index` stands for, the cell being one of
/// the first `from`.
pub open spec fn tops(map: MapView, from: int, index: int, entity: Entity) -> bool {
    0 <= index < from && index < map.cells.len() && map.cells[index].len() > 0
        && map.cells[index].last().entity == entity
}

/// Whether `entity` is what the top of one of the first `from` cells stands for.
pub open spec fn is_top(map: MapView, from: int, entity: Entity) -> bool {
    exists|index: int| #[trigger] tops(map, from, index, entity)
}

/// Whether caves were made of `base`: every cell is what it was with one wall or floor on
/// top, the entities of `base` are as they were, and the world has gained the entities of
/// the tops and no others.
pub open spec fn caved(base: State, now: State, floor: Floor, wall: Wall) -> bool {
    &&& now.map.size == base.map.size
    &&& now.map.cells.len() == base.map.cells.len()
    &&& forall|index: int|
        0 <= index < now.map.cells.len() ==> #[trigger] cave_top(base, now, floor, wall, index)
    &&& forall|entity: Entity| #[trigger]
        base.entities.dom().contains(entity) ==> now.entities.dom().contains(entity)
            && now.entities[entity] == base.entities[entity]
    &&& forall|entity: Entity| #[trigger]
        now.entities.dom().contains(entity) ==> base.entities.dom().contains(entity) || is_top(
            now.map,
            now.map.cells.len() as int,
            entity,
        )
}

/// In caves made of an empty world, the places of the ground are the cells that are no
/// walls.
pub proof fn lemma_ground_is_open(base: State, now: State, floor: Floor, wall: Wall, place: Vector)
    requires
        caved(base, now, floor, wall),
        now.map.wf(),
        forall|entity: Entity| !base.entities.dom().contains(entity),
    ensures
        is_ground(now.entities, place) == (now.map.in_bounds(place) && !is_wall(now.map.cell(place))),
{
    if is_ground(now.entities, place) {
        let entity = choose|entity: Entity|
            now.entities.dom().contains(entity) && (#[trigger] now.entities[entity]).tile is Some
                && now.entities[entity].position == Some(Position { vector: place });
        assert(now.entities.dom().contains(entity));
        let index = choose|index: int| #[trigger] tops(now.map, now.map.cells.len() as int, index, entity);
        assert(cave_top(base, now, floor, wall, index));
        lemma_ground_parts(now.map.point_at(index), now.map.cells[index].last().block_movement, floor, wall);
        lemma_point_in_bounds(now.map, index);
    }
    if now.map.in_bounds(place) && !is_wall(now.map.cell(place)) {
        lemma_index_in_range(now.map, place.0 as int, place.1 as int);
        let index = now.map.index_of(place);
        assert(cave_top(base, now, floor, wall, index));
        lemma_ground_parts(now.map.point_at(index), false, floor, wall);
        assert(now.map.point_at(index) == place);
        let entity = now.map.cells[index].last().entity;
        assert(now.entities[entity].tile is Some);
    }
}

/// Caves made of a map with an empty cell hold exactly one thing in that cell: a wall or a
/// floor whose `Position` is the cell, with a `Barrier` where the cell is a wall and a `Tile`
/// where it is none.
pub proof fn lemma_one_occupant(base: State, now: State, floor: Floor, wall: Wall, index: int)
    requires
        caved(base, now, floor, wall),
        0 <= index < now.map.cells.len(),
        base.map.cells[index].len() == 0,
    ensures
        now.map.cells[index].len() == 1,
        now.entities.dom().contains(now.map.cells[index][0].entity),
        now.entities[now.map.cells[index][0].entity].position == Some(
            Position { vector: now.map.point_at(index) },
        ),
        now.entities[now.map.cells[index][0].entity].barrier is Some == is_wall(now.map.cells[index]),
        now.entities[now.map.cells[index][0].entity].tile is Some == !is_wall(now.map.cells[index]),
{
    assert(cave_top(base, now, floor, wall, index));
    let stack = now.map.cells[index];
    assert(stack.drop_last().len() == stack.len() - 1);
    lemma_ground_parts(now.map.point_at(index), stack.last().block_movement, floor, wall);
}

/// Where no roll makes a wall, the caves hold no wall after any number of passes: every
/// entity that the world has gained is a floor, with a `Tile` and without a `Barrier`.
pub proof fn lemma_no_wall_without_rolls(
    base: State,
    now: State,
    floor: Floor,
    wall: Wall,
    rolls: Seq<bool>,
    passes: nat,
    entity: Entity,
)
    requires
        caved(base, now, floor, wall),
        now.map.wf(),
        grid_of(now.map) == seeded(now.map.size, rolls).smooth_times(passes),
        forall|index: int| !roll_at(rolls, index),
        now.entities.dom().contains(entity),
        !base.entities.dom().contains(entity),
    ensures
        now.entities[entity].tile is Some,
        now.entities[entity].barrier is None,
{
    lemma_open_ground_stays_for_good(seeded(now.map.size, rolls), passes);
    let index = choose|index: int| #[trigger] tops(now.map, now.map.cells.len() as int, index, entity);
    assert(cave_top(base, now, floor, wall, index));
    assert(grid_of(now.map).walls[index] == is_wall(now.map.cells[index]));
    assert(seeded(now.map.size, rolls).walls[index] == roll_at(rolls, index));
    lemma_ground_parts(now.map.point_at(index), false, floor, wall);
}

/// Whether `entity` is the one at `k` of `made`, and not among the first `used`.
pub open spec fn is_spare(made: Seq<Entity>, used: int, k: int, entity: Entity) -> bool {
    used <= k < made.len() && made[k] == entity
}

/// Whether caves are being made of `base`: the first `from` cells have a wall or floor on
/// top and the others are as they were; the first `used` of `made` are among the tops, and
/// the others wait in the world, made of nothing.
pub open spec fn growing(
    base: State,
    now: State,
    floor: Floor,
    wall: Wall,
    from: int,
    made: Seq<Entity>,
    used: int,
) -> bool {
    &&& base.map.wf()
    &&& now.map.wf()
    &&& now.map.size == base.map.size
    &&& 0 <= from <= now.map.cells.len()
    &&& 0 <= used <= made.len()
    &&& made.no_duplicates()
    &&& forall|index: int| 0 <= index < from ==> #[trigger] cave_top(base, now, floor, wall, index)
    &&& forall|index: int|
        from <= index < now.map.cells.len() ==> #[trigger] now.map.cells[index] == base.map.cells[index]
    &&& forall|entity: Entity| #[trigger]
        base.entities.dom().contains(entity) ==> now.entities.dom().contains(entity)
            && now.entities[entity] == base.entities[entity]
    &&& forall|k: int|
        used <= k < made.len() ==> !base.entities.dom().contains(#[trigger] made[k])
            && now.entities.dom().contains(made[k]) && now.entities[made[k]] == Parts::empty()
    &&& forall|entity: Entity| #[trigger]
        now.entities.dom().contains(entity) ==> base.entities.dom().contains(entity) || is_top(
            now.map,
            from,
            entity,
        ) || exists|k: int| #[trigger] is_spare(made, used, k, entity)
}

/// The commands that cover the cell at `index` with `entity`, after lifting what is on top
/// of it where `lift` says so.
pub open spec fn cover_commands(
    map: MapView,
    entity: Entity,
    index: int,
    as_wall: bool,
    floor: Floor,
    wall: Wall,
    lift: bool,
) -> Seq<CommandView> {
    (if lift {
        seq![CommandView::Lift(map.point_at(index))]
    } else {
        Seq::<CommandView>::empty()
    }) + cell_spawn(map, entity, index, as_wall, floor, wall)
}

/// One step of the making of caves: the next spare entity becomes the top of a cell, either
/// of the first cell that has none yet or, in the place of its top, of one that has.
pub proof fn lemma_cover_step(
    base: State,
    now: State,
    floor: Floor,
    wall: Wall,
    from: int,
    made: Seq<Entity>,
    used: int,
    index: int,
    as_wall: bool,
    lift: bool,
)
    requires
        growing(base, now, floor, wall, from, made, used),
        used < made.len(),
        0 <= index < now.map.cells.len(),
        lift ==> index < from,
        !lift ==> index == from,
    ensures
        growing(
            base,
            apply_all(now, cover_commands(now.map, made[used], index, as_wall, floor, wall, lift)),
            floor,
            wall,
            if lift {
                from
            } else {
                from + 1
            },
            made,
            used + 1,
        ),
{
    let point = now.map.point_at(index);
    let entity = made[used];
    let lifting = if lift {
        seq![CommandView::Lift(point)]
    } else {
        Seq::<CommandView>::empty()
    };
    let extra = cell_spawn(now.map, entity, index, as_wall, floor, wall);
    let bundle = if as_wall {
        wall.components()
    } else {
        floor.components()
    };
    let after = apply_all(now, cover_commands(now.map, entity, index, as_wall, floor, wall, lift));
    let lifted = apply_all(now, lifting);
    let next = if lift {
        from
    } else {
        from + 1
    };
    lemma_point_in_bounds(now.map, index);
    lemma_apply_concat(now, lifting, extra);
    assert(after == apply_all(lifted, extra));
    let top = now.map.cells[index].last().entity;
    if lift {
        lemma_run_one(now, CommandView::Lift(point));
        assert(cave_top(base, now, floor, wall, index));
        lemma_dressed_keeps_position(
            Parts { position: Some(Position { vector: point }), ..Parts::empty() },
            if now.map.cells[index].last().block_movement {
                wall.components()
            } else {
                floor.components()
            },
        );
        assert(now.entities[top].position is Some);
        assert(top != entity);
        assert(lifted.entities == now.entities.remove(top));
        assert(lifted.map == now.map.with_cell(index, now.map.cells[index].drop_last()));
    } else {
        assert(lifted == now);
    }
    assert(lifted.map.cells[index] == base.map.cells[index]);
    assert(lifted.map.size == now.map.size);
    assert(lifted.entities.dom().contains(entity));
    assert(lifted.entities[entity] == Parts::empty());
    assert(lifted.can_put(point, entity));
    lemma_spawn_effect(lifted, entity, point, bundle, as_wall, as_wall);
    lemma_spawn_parts(lifted, entity, point, bundle, as_wall, as_wall);
    assert(lifted.map.index_of(point) == index);
    assert(after.map.cells[index] == base.map.cells[index].push(
        Object { entity, block_fov: as_wall, block_movement: as_wall },
    ));
    assert(after.map.cells[index].drop_last() =~= base.map.cells[index]);
    assert(after.entities[entity] == ground_parts(point, as_wall, floor, wall));
    assert(cave_top(base, after, floor, wall, index));
    assert forall|j: int| 0 <= j < next implies #[trigger] cave_top(base, after, floor, wall, j) by {
        if j != index {
            assert(cave_top(base, now, floor, wall, j));
            assert(after.map.cells[j] == now.map.cells[j]);
            let other = now.map.cells[j].last();
            lemma_point_in_bounds(now.map, j);
            lemma_dressed_keeps_position(
                Parts { position: Some(Position { vector: now.map.point_at(j) }), ..Parts::empty() },
                if other.block_movement {
                    wall.components()
                } else {
                    floor.components()
                },
            );
            assert(now.entities[other.entity].position == Some(Position { vector: now.map.point_at(j) }));
            assert(other.entity != entity);
            if lift {
                assert(now.entities[top].position == Some(Position { vector: point }));
                assert(other.entity != top);
            }
            assert(after.entities[other.entity] == lifted.entities[other.entity]);
        }
    }
    assert forall|j: int| next <= j < after.map.cells.len() implies #[trigger] after.map.cells[j]
        == base.map.cells[j] by {
        assert(after.map.cells[j] == now.map.cells[j]);
    }
    assert forall|other: Entity| #[trigger] base.entities.dom().contains(other) implies after.entities.dom().contains(
        other,
    ) && after.entities[other] == base.entities[other] by {
        assert(other != entity);
        assert(after.entities[other] == lifted.entities[other]);
    }
    assert forall|k: int| used + 1 <= k < made.len() implies !base.entities.dom().contains(#[trigger] made[k])
        && after.entities.dom().contains(made[k]) && after.entities[made[k]] == Parts::empty() by {
        assert(made[k] != entity);
        assert(after.entities[made[k]] == lifted.entities[made[k]]);
    }
    assert forall|other: Entity| #[trigger] after.entities.dom().contains(other) implies base.entities.dom().contains(
        other,
    ) || is_top(after.map, next, other) || exists|k: int| #[trigger] is_spare(made, used + 1, k, other) by {
        assert(lifted.entities.dom().contains(other));
        assert(now.entities.dom().contains(other));
        if other == entity {
            assert(tops(after.map, next, index, other));
        } else if base.entities.dom().contains(other) {
        } else if is_top(now.map, from, other) {
            let j = choose|j: int| #[trigger] tops(now.map, from, j, other);
            assert(j != index);
            assert(after.map.cells[j] == now.map.cells[j]);
            assert(tops(after.map, next, j, other));
        } else {
            let k = choose|k: int| #[trigger] is_spare(made, used, k, other);
            assert(is_spare(made, used + 1, k, other));
        }
    }
}

/// Entities that were made of nothing are in the world, made of nothing.
pub proof fn lemma_created_are_empty(entities: Map<Entity, Parts>, made: Seq<Entity>)
    requires
        made.no_duplicates(),
    ensures
        forall|k: int| 0 <= k < made.len() ==> with_created(entities, made).dom().contains(#[trigger] made[k])
            && with_created(entities, made)[made[k]] == Parts::empty(),
    decreases made.len(),
{
    if made.len() > 0 {
        let shorter = made.drop_last();
        lemma_created_are_empty(entities, shorter);
        assert forall|k: int| 0 <= k < made.len() implies with_created(entities, made).dom().contains(
            #[trigger] made[k],
        ) && with_created(entities, made)[made[k]] == Parts::empty() by {
            if k < shorter.len() {
                assert(shorter[k] == made[k]);
            }
        }
    }
}

/// New entities, made of nothing, are spares for the making of caves.
pub proof fn lemma_spares_join(base: State, now: State, floor: Floor, wall: Wall, from: int, made: Seq<Entity>)
    requires
        growing(base, now, floor, wall, from, Seq::<Entity>::empty(), 0),
        all_new(now.entities, made),
    ensures
        growing(
            base,
            State { entities: with_created(now.entities, made), map: now.map },
            floor,
            wall,
            from,
            made,
            0,
        ),
{
    let joined = State { entities: with_created(now.entities, made), map: now.map };
    lemma_created_frame(now.entities, made);
    lemma_created_are_empty(now.entities, made);
    assert forall|index: int| 0 <= index < from implies #[trigger] cave_top(base, joined, floor, wall, index) by {
        assert(cave_top(base, now, floor, wall, index));
    }
    assert forall|entity: Entity| #[trigger] joined.entities.dom().contains(entity) implies base.entities.dom().contains(
        entity,
    ) || is_top(joined.map, from, entity) || exists|k: int| #[trigger] is_spare(made, 0, k, entity) by {
        lemma_created_dom(now.entities, made, entity);
        if now.entities.dom().contains(entity) {
            if !base.entities.dom().contains(entity) && !is_top(now.map, from, entity) {
                let k = choose|k: int| #[trigger] is_spare(Seq::<Entity>::empty(), 0, k, entity);
                assert(false);
            }
        } else {
            let k = choose|k: int| 0 <= k < made.len() && made[k] == entity;
            assert(is_spare(made, 0, k, entity));
        }
    }
}

/// Where all cells are covered and no spare is left, caves were made.
pub proof fn lemma_grown_is_caved(base: State, now: State, floor: Floor, wall: Wall, made: Seq<Entity>)
    requires
        growing(base, now, floor, wall, now.map.cells.len() as int, made, made.len() as int),
    ensures
        caved(base, now, floor, wall),
{
    assert forall|entity: Entity| #[trigger] now.entities.dom().contains(entity) implies base.entities.dom().contains(
        entity,
    ) || is_top(now.map, now.map.cells.len() as int, entity) by {
        if !base.entities.dom().contains(entity) && !is_top(now.map, now.map.cells.len() as int, entity) {
            let k = choose|k: int| #[trigger] is_spare(made, made.len() as int, k, entity);
            assert(false);
        }
    }
}

/// Where caves were made, they are still being made, with all cells covered and no spares.
pub proof fn lemma_caved_is_grown(base: State, now: State, floor: Floor, wall: Wall)
    requires
        caved(base, now, floor, wall),
        base.map.wf(),
        now.map.wf(),
    ensures
        growing(base, now, floor, wall, now.map.cells.len() as int, Seq::<Entity>::empty(), 0),
{
}

/// To fill the first `count` cells covers them, and uses as many of the entities made.
pub proof fn lemma_seeding_grows(
    base: State,
    made: Seq<Entity>,
    rolls: Seq<bool>,
    floor: Floor,
    wall: Wall,
    count: nat,
)
    requires
        base.map.wf(),
        made.len() == base.map.cells.len(),
        all_new(base.entities, made),
        count <= made.len(),
    ensures
        growing(
            base,
            apply_all(
                State { entities: with_created(base.entities, made), map: base.map },
                seeding_commands(base.map, made, rolls, floor, wall, count),
            ),
            floor,
            wall,
            count as int,
            made,
            count as int,
        ),
    decreases count,
{
    let start = State { entities: with_created(base.entities, made), map: base.map };
    if count == 0 {
        assert(growing(base, base, floor, wall, 0, Seq::<Entity>::empty(), 0)) by {
            assert forall|entity: Entity| #[trigger] base.entities.dom().contains(entity) implies base.entities.dom().contains(
                entity,
            ) || is_top(base.map, 0, entity) || exists|k: int| #[trigger]
                is_spare(Seq::<Entity>::empty(), 0, k, entity) by {}
        }
        lemma_spares_join(base, base, floor, wall, 0, made);
    } else {
        let fewer = (count - 1) as nat;
        lemma_seeding_grows(base, made, rolls, floor, wall, fewer);
        let earlier = seeding_commands(base.map, made, rolls, floor, wall, fewer);
        let now = apply_all(start, earlier);
        let as_wall = roll_at(rolls, count - 1);
        lemma_cover_step(base, now, floor, wall, count - 1, made, count - 1, count - 1, as_wall, false);
        let extra = cell_spawn(base.map, made[count - 1], count - 1, as_wall, floor, wall);
        assert(cover_commands(now.map, made[count - 1], count - 1, as_wall, floor, wall, false) =~= extra);
        lemma_apply_concat(start, earlier, extra);
    }
}

/// A pass over the first `count` cells leaves every cell covered, and uses as many of the
/// entities made as it changes cells.
pub proof fn lemma_smoothing_grows(
    base: State,
    state: State,
    made: Seq<Entity>,
    floor: Floor,
    wall: Wall,
    count: nat,
)
    requires
        growing(
            base,
            State { entities: with_created(state.entities, made), map: state.map },
            floor,
            wall,
            state.map.cells.len() as int,
            made,
            0,
        ),
        count <= state.map.cells.len(),
        made.len() == grid_of(state.map).conversions(state.map.cells.len()),
    ensures
        growing(
            base,
            apply_all(
                State { entities: with_created(state.entities, made), map: state.map },
                smoothing_commands(state.map, made, floor, wall, count),
            ),
            floor,
            wall,
            state.map.cells.len() as int,
            made,
            grid_of(state.map).conversions(count) as int,
        ),
    decreases count,
{
    let start = State { entities: with_created(state.entities, made), map: state.map };
    let grid = grid_of(state.map);
    if count > 0 {
        let index = count - 1;
        let fewer = (count - 1) as nat;
        lemma_smoothing_grows(base, state, made, floor, wall, fewer);
        lemma_conversions_grow(grid, count, state.map.cells.len());
        let earlier = smoothing_commands(state.map, made, floor, wall, fewer);
        let now = apply_all(start, earlier);
        match grid.conversion(index) {
            Some(as_wall) => {
                let used = grid.conversions(fewer) as int;
                assert(cave_top(base, start, floor, wall, index));
                let extra = cell_spawn(state.map, made[used], index, as_wall, floor, wall);
                let covering = cover_commands(now.map, made[used], index, as_wall, floor, wall, true);
                assert(covering =~= lift_commands(state.map, index) + extra);
                assert(smoothing_commands(state.map, made, floor, wall, count) =~= earlier + covering);
                lemma_cover_step(
                    base,
                    now,
                    floor,
                    wall,
                    state.map.cells.len() as int,
                    made,
                    used,
                    index,
                    as_wall,
                    true,
                );
                lemma_apply_concat(start, earlier, covering);
            },
            None => {},
        }
    }
}

/// To fill every cell of a map makes caves of it.
pub proof fn lemma_seed_caves(base: State, made: Seq<Entity>, rolls: Seq<bool>, floor: Floor, wall: Wall)
    requires
        base.map.wf(),
        made.len() == base.map.cells.len(),
        all_new(base.entities, made),
    ensures
        caved(
            base,
            apply_all(
                State { entities: with_created(base.entities, made), map: base.map },
                seeding_commands(base.map, made, rolls, floor, wall, made.len()),
            ),
            floor,
            wall,
        ),
{
    lemma_seeding_grows(base, made, rolls, floor, wall, made.len());
    lemma_grown_is_caved(
        base,
        apply_all(
            State { entities: with_created(base.entities, made), map: base.map },
            seeding_commands(base.map, made, rolls, floor, wall, made.len()),
        ),
        floor,
        wall,
        made,
    );
}

/// A pass over caves leaves caves: every cell still is what it was before the caves were
/// made with one wall or floor on top, and the world holds the entities of the tops and no
/// others beside those it had.
pub proof fn lemma_smooth_keeps_caved(base: State, state: State, made: Seq<Entity>, floor: Floor, wall: Wall)
    requires
        caved(base, state, floor, wall),
        base.map.wf(),
        state.map.wf(),
        all_new(state.entities, made),
        made.len() == grid_of(state.map).conversions(state.map.cells.len()),
    ensures
        caved(
            base,
            apply_all(
                State { entities: with_created(state.entities, made), map: state.map },
                smoothing_commands(state.map, made, floor, wall, state.map.cells.len()),
            ),
            floor,
            wall,
        ),
{
    lemma_caved_is_grown(base, state, floor, wall);
    lemma_spares_join(base, state, floor, wall, state.map.cells.len() as int, made);
    lemma_smoothing_grows(base, state, made, floor, wall, state.map.cells.len());
    lemma_grown_is_caved(
        base,
        apply_all(
            State { entities: with_created(state.entities, made), map: state.map },
            smoothing_commands(state.map, made, floor, wall, state.map.cells.len()),
        ),
        floor,
        wall,
        made,
    );
}

} // verus!
