use vstd::prelude::*;
use vstd::multiset::Multiset;
use legion::{Entity, World};
use crate::components::barrier::Barrier;
use crate::components::direction::{all_directions, Direction};
use crate::components::opaque::Opaque;
use crate::components::position::Position;
use crate::util::copy_of;
use crate::vector::Vector;
use crate::world::{fetch, is_alive, parts_of, same_entity};

verus! {

/// One thing in a cell: who it is, and whether it stops sight and movement.
#[derive(Debug, Clone, Copy)]
pub struct Object {
    pub entity: Entity,
    pub block_fov: bool,
    pub block_movement: bool,
}

impl Object {
    /// The object that stands for `entity`, blocking what is said.
    pub fn new(entity: Entity, block_fov: bool, block_movement: bool) -> (object: Object)
        ensures
            object == (Object { entity, block_fov, block_movement }),
    {
        Self { entity, block_fov, block_movement }
    }

    /// The object that stands for `entity` as it is now: it stops sight where the entity is
    /// `Opaque`, and movement where it is a `Barrier`.
    pub fn from_entity(entity: Entity, world: &World) -> (object: Object)
        requires
            is_alive(*world, entity),
        ensures
            object == (Object {
                entity,
                block_fov: parts_of(*world, entity).opaque is Some,
                block_movement: parts_of(*world, entity).barrier is Some,
            }),
    {
        let opaque: Option<Opaque> = fetch::<Opaque>(world, entity);
        let barrier: Option<Barrier> = fetch::<Barrier>(world, entity);
        Self { entity, block_fov: opaque.is_some(), block_movement: barrier.is_some() }
    }
}

/// Why a change to the map was refused.
#[derive(Debug, Copy, Clone, PartialEq, Eq, Structural)]
pub enum MapError {
    /// The entity stands in no cell.
    NotOnMap,
    /// The position is no cell of the map.
    OutOfBounds,
}

/// Whether `entity` stands in `stack`.
pub open spec fn stack_holds(stack: Seq<Object>, entity: Entity) -> bool {
    exists|slot: int| 0 <= slot < stack.len() && (#[trigger] stack[slot]).entity == entity
}

/// Whether `slot` is the lowest place in `stack` at which `entity` stands.
pub open spec fn is_slot_of(stack: Seq<Object>, entity: Entity, slot: int) -> bool {
    &&& 0 <= slot < stack.len()
    &&& stack[slot].entity == entity
    &&& forall|below: int| 0 <= below < slot ==> (#[trigger] stack[below]).entity != entity
}

/// The lowest place in `stack` at which `entity` stands.
pub open spec fn slot_of(stack: Seq<Object>, entity: Entity) -> int {
    choose|slot: int| is_slot_of(stack, entity, slot)
}

/// Whether `index` is the first cell in which `entity` stands.
pub open spec fn is_cell_of(cells: Seq<Seq<Object>>, entity: Entity, index: int) -> bool {
    &&& 0 <= index < cells.len()
    &&& stack_holds(cells[index], entity)
    &&& forall|before: int| 0 <= before < index ==> !stack_holds(#[trigger] cells[before], entity)
}

/// The first cell in which `entity` stands.
pub open spec fn cell_of(cells: Seq<Seq<Object>>, entity: Entity) -> int {
    choose|index: int| is_cell_of(cells, entity, index)
}

/// Whether `entity` stands in any cell.
pub open spec fn on_map(cells: Seq<Seq<Object>>, entity: Entity) -> bool {
    exists|index: int| 0 <= index < cells.len() && stack_holds(#[trigger] cells[index], entity)
}

/// The number of objects in all of `cells`.
pub open spec fn total_objects(cells: Seq<Seq<Object>>) -> nat
    decreases cells.len(),
{
    if cells.len() == 0 {
        0
    } else {
        total_objects(cells.drop_last()) + cells.last().len()
    }
}

/// Whether the top of `stack` stops movement: the cell is a wall.
pub open spec fn is_wall(stack: Seq<Object>) -> bool {
    stack.len() > 0 && stack.last().block_movement
}

/// A map as mathematics: its size, and its cells row by row, each from the bottom up.
#[verifier::ext_equal]
pub struct MapView {
    pub size: Vector,
    pub cells: Seq<Seq<Object>>,
}

impl MapView {
    /// The cells are as many as the size says.
    pub open spec fn wf(self) -> bool {
        &&& 0 <= self.size.0
        &&& 0 <= self.size.1
        &&& self.cells.len() == self.size.0 * self.size.1
    }

    /// Whether column `x`, row `y` is a cell.
    pub open spec fn contains(self, x: int, y: int) -> bool {
        0 <= x < self.size.0 && 0 <= y < self.size.1
    }

    /// Whether `position` is a cell.
    pub open spec fn in_bounds(self, position: Vector) -> bool {
        self.contains(position.0 as int, position.1 as int)
    }

    /// The place of column `x`, row `y` among the cells.
    pub open spec fn index_at(self, x: int, y: int) -> int {
        x + y * self.size.0
    }

    /// The place of the cell at `position` among the cells.
    pub open spec fn index_of(self, position: Vector) -> int {
        self.index_at(position.0 as int, position.1 as int)
    }

    /// The column and row of the cell at `index`.
    pub open spec fn point_at(self, index: int) -> Vector {
        Vector((index % (self.size.0 as int)) as i32, (index / (self.size.0 as int)) as i32)
    }

    /// The stack at column `x`, row `y`.
    pub open spec fn cell_at(self, x: int, y: int) -> Seq<Object> {
        self.cells[self.index_at(x, y)]
    }

    /// The stack at `position`.
    pub open spec fn cell(self, position: Vector) -> Seq<Object> {
        self.cells[self.index_of(position)]
    }

    /// The map with the stack at `index` replaced.
    pub open spec fn with_cell(self, index: int, stack: Seq<Object>) -> MapView {
        MapView { cells: self.cells.update(index, stack), ..self }
    }

    /// The stacks around `position` that the first `count` directions reach, in the order of
    /// `Direction::all`. A direction that leaves the map gives none.
    pub open spec fn neighbours_upto(self, position: Vector, count: nat) -> Seq<Seq<Object>>
        decreases count,
    {
        if count == 0 {
            Seq::empty()
        } else {
            let before = self.neighbours_upto(position, (count - 1) as nat);
            let step = all_directions()[count - 1].unit_vector();
            if self.contains(position.0 + step.0, position.1 + step.1) {
                before.push(self.cell_at(position.0 + step.0, position.1 + step.1))
            } else {
                before
            }
        }
    }

    /// The up to eight stacks around `position`.
    pub open spec fn neighbours(self, position: Vector) -> Seq<Seq<Object>> {
        self.neighbours_upto(position, 8)
    }

    /// Whether the rectangle of `size` at `position` lies on the map.
    pub open spec fn holds_region(self, position: Vector, size: Vector) -> bool {
        &&& 0 <= position.0
        &&& 0 <= position.1
        &&& 0 <= size.0
        &&& 0 <= size.1
        &&& position.0 + size.0 <= self.size.0
        &&& position.1 + size.1 <= self.size.1
    }

    /// The rectangle of `size` at `position` as a map of its own.
    pub open spec fn region(self, position: Vector, size: Vector) -> MapView {
        MapView {
            size,
            cells: Seq::new(
                (size.0 * size.1) as nat,
                |i: int|
                    self.cell_at(
                        position.0 + i % (size.0 as int),
                        position.1 + i / (size.0 as int),
                    ),
            ),
        }
    }

    /// Where the cell at `index` lies in the rectangle of `size` at `position`: its place
    /// among the cells of the rectangle, row by row. `None` for a cell outside it.
    pub open spec fn place_in_region(self, position: Vector, size: Vector, index: int) -> Option<int> {
        let x = index % (self.size.0 as int);
        let y = index / (self.size.0 as int);
        if position.0 <= x < position.0 + size.0 && position.1 <= y < position.1 + size.1 {
            Some((x - position.0) + (y - position.1) * size.0)
        } else {
            None
        }
    }

    /// The map with the rectangle at `position` that is as large as `part` replaced by
    /// `part`, cell by cell. All other cells are as they were.
    pub open spec fn with_region(self, position: Vector, part: MapView) -> MapView {
        MapView {
            size: self.size,
            cells: Seq::new(
                self.cells.len(),
                |index: int|
                    match self.place_in_region(position, part.size, index) {
                        Some(place) => part.cells[place],
                        None => self.cells[index],
                    },
            ),
        }
    }

    /// The map after `entity` has left the first cell it stood in.
    pub open spec fn without(self, entity: Entity) -> MapView {
        let from = cell_of(self.cells, entity);
        let slot = slot_of(self.cells[from], entity);
        self.with_cell(from, self.cells[from].remove(slot))
    }

    /// The map after `entity` has left the first cell it stood in and entered the cell at
    /// `to`, at the height it had, or on top where the stack there is lower.
    pub open spec fn moved(self, entity: Entity, to: Vector) -> MapView {
        let from = cell_of(self.cells, entity);
        let slot = slot_of(self.cells[from], entity);
        let object = self.cells[from][slot];
        let left = self.with_cell(from, self.cells[from].remove(slot));
        let stack = left.cell(to);
        let height = if slot < stack.len() {
            slot
        } else {
            stack.len() as int
        };
        left.with_cell(left.index_of(to), stack.insert(height, object))
    }
}

/// A cell inside the map has its place among the cells.
pub proof fn lemma_index_in_range(map: MapView, x: int, y: int)
    requires
        map.wf(),
        map.contains(x, y),
    ensures
        0 <= map.index_at(x, y) < map.cells.len(),
        map.index_at(x, y) % (map.size.0 as int) == x,
        map.index_at(x, y) / (map.size.0 as int) == y,
{
    let w = map.size.0 as int;
    let h = map.size.1 as int;
    assert(0 <= x + y * w < w * h) by (nonlinear_arith)
        requires
            0 <= x < w,
            0 <= y < h,
    ;
    assert((x + y * w) % w == x && (x + y * w) / w == y) by (nonlinear_arith)
        requires
            0 <= x < w,
            0 <= y,
    ;
}

/// A place among the cells is that of one column and row.
pub proof fn lemma_point_in_bounds(map: MapView, index: int)
    requires
        map.wf(),
        0 <= index < map.cells.len(),
    ensures
        map.in_bounds(map.point_at(index)),
        map.index_of(map.point_at(index)) == index,
        0 <= index % (map.size.0 as int) < map.size.0,
        0 <= index / (map.size.0 as int) < map.size.1,
{
    let w = map.size.0 as int;
    let h = map.size.1 as int;
    assert(w > 0) by (nonlinear_arith)
        requires
            0 <= index < w * h,
            0 <= w,
            0 <= h,
    ;
    assert(0 <= index % w < w && 0 <= index / w < h && index % w + (index / w) * w == index)
        by (nonlinear_arith)
        requires
            0 <= index < w * h,
            0 < w,
            0 <= h,
    ;
}

/// The lowest place of an entity in a stack is one place only.
pub proof fn lemma_slot_unique(stack: Seq<Object>, entity: Entity, slot: int)
    requires
        is_slot_of(stack, entity, slot),
    ensures
        slot_of(stack, entity) == slot,
{
    let chosen = slot_of(stack, entity);
    assert(is_slot_of(stack, entity, chosen));
    if chosen < slot {
        assert(stack[chosen].entity != entity);
    } else if slot < chosen {
        assert(stack[slot].entity != entity);
    }
}

/// The first cell of an entity is one cell only.
pub proof fn lemma_cell_unique(cells: Seq<Seq<Object>>, entity: Entity, index: int)
    requires
        is_cell_of(cells, entity, index),
    ensures
        cell_of(cells, entity) == index,
        on_map(cells, entity),
{
    let chosen = cell_of(cells, entity);
    assert(is_cell_of(cells, entity, chosen));
    if chosen < index {
        assert(!stack_holds(cells[chosen], entity));
    } else if index < chosen {
        assert(!stack_holds(cells[index], entity));
    }
}

/// Replacing one stack changes the number of objects by the difference of the two heights.
pub proof fn lemma_total_update(cells: Seq<Seq<Object>>, index: int, stack: Seq<Object>)
    requires
        0 <= index < cells.len(),
    ensures
        total_objects(cells.update(index, stack)) == total_objects(cells) - cells[index].len()
            + stack.len(),
    decreases cells.len(),
{
    let updated = cells.update(index, stack);
    if index == cells.len() - 1 {
        assert(updated.drop_last() =~= cells.drop_last());
    } else {
        lemma_total_update(cells.drop_last(), index, stack);
        assert(updated.drop_last() =~= cells.drop_last().update(index, stack));
    }
}

/// A move takes no object off the map and brings none onto it: there are as many after as
/// before.
pub proof fn lemma_move_keeps_count(map: MapView, entity: Entity, to: Vector)
    requires
        map.wf(),
        on_map(map.cells, entity),
        map.in_bounds(to),
    ensures
        total_objects(map.moved(entity, to).cells) == total_objects(map.cells),
{
    let from = cell_of(map.cells, entity);
    assert(is_cell_of(map.cells, entity, from)) by {
        lemma_first_cell_exists(map.cells, entity);
    }
    let slot = slot_of(map.cells[from], entity);
    assert(is_slot_of(map.cells[from], entity, slot)) by {
        lemma_first_slot_exists(map.cells[from], entity);
    }
    let left = map.with_cell(from, map.cells[from].remove(slot));
    lemma_index_in_range(map, to.0 as int, to.1 as int);
    let target = left.index_of(to);
    let stack = left.cells[target];
    let height = if slot < stack.len() {
        slot
    } else {
        stack.len() as int
    };
    lemma_total_update(map.cells, from, map.cells[from].remove(slot));
    lemma_total_update(left.cells, target, stack.insert(height, map.cells[from][slot]));
}

/// The cell of a rectangle at column `column` and row `row` within it has its place among
/// the cells of the map and among those of the rectangle.
pub proof fn lemma_place_in_region(map: MapView, position: Vector, size: Vector, column: int, row: int)
    requires
        map.wf(),
        map.holds_region(position, size),
        0 <= column < size.0,
        0 <= row < size.1,
    ensures
        map.contains(position.0 + column, position.1 + row),
        0 <= map.index_at(position.0 + column, position.1 + row) < map.cells.len(),
        map.place_in_region(position, size, map.index_at(position.0 + column, position.1 + row)) == Some(
            column + row * size.0,
        ),
        0 <= column + row * size.0 < size.0 * size.1,
        (column + row * size.0) % (size.0 as int) == column,
        (column + row * size.0) / (size.0 as int) == row,
        map.index_at(position.0 + column, position.1 + row) % (map.size.0 as int) == position.0 + column,
        map.index_at(position.0 + column, position.1 + row) / (map.size.0 as int) == position.1 + row,
{
    lemma_index_in_range(map, position.0 + column, position.1 + row);
    let w = size.0 as int;
    let h = size.1 as int;
    assert(0 <= column + row * w < w * h) by (nonlinear_arith)
        requires
            0 <= column < w,
            0 <= row < h,
    ;
    assert((column + row * w) % w == column && (column + row * w) / w == row) by (nonlinear_arith)
        requires
            0 <= column < w,
            0 <= row,
    ;
}

/// A rectangle that was replaced is what it was replaced by: to read the rectangle after
/// the change gives what was written.
pub proof fn lemma_region_of_with_region(map: MapView, position: Vector, part: MapView)
    requires
        map.wf(),
        part.wf(),
        map.holds_region(position, part.size),
    ensures
        map.with_region(position, part).region(position, part.size) == part,
        map.with_region(position, part).wf(),
{
    let changed = map.with_region(position, part);
    let read = changed.region(position, part.size);
    let w = part.size.0 as int;
    let h = part.size.1 as int;
    assert(read.cells.len() == part.cells.len());
    assert forall|i: int| 0 <= i < read.cells.len() implies read.cells[i] == part.cells[i] by {
        assert(w > 0) by (nonlinear_arith)
            requires
                0 <= i < w * h,
                0 <= w,
                0 <= h,
        ;
        assert(0 <= i % w < w && 0 <= i / w < h && i % w + (i / w) * w == i) by (nonlinear_arith)
            requires
                0 <= i < w * h,
                0 < w,
        ;
        lemma_place_in_region(map, position, part.size, i % w, i / w);
    }
    assert(read =~= part);
}

/// To replace a rectangle leaves every cell outside it as it was.
pub proof fn lemma_with_region_keeps_the_rest(map: MapView, position: Vector, part: MapView, index: int)
    requires
        0 <= index < map.cells.len(),
        map.place_in_region(position, part.size, index) is None,
    ensures
        map.with_region(position, part).cells[index] == map.cells[index],
{
}

/// The entities that the objects of `stack` stand for, each as often as it stands there.
pub open spec fn stack_entities(stack: Seq<Object>) -> Multiset<Entity> {
    stack.map_values(|object: Object| object.entity).to_multiset()
}

/// The entities that stand on the map, each as often as it stands there.
pub open spec fn map_entities(cells: Seq<Seq<Object>>) -> Multiset<Entity>
    decreases cells.len(),
{
    if cells.len() == 0 {
        Multiset::empty()
    } else {
        map_entities(cells.drop_last()).add(stack_entities(cells.last()))
    }
}

/// A stack without one of its objects holds the entities it held, but for that of the
/// object.
pub proof fn lemma_stack_without(stack: Seq<Object>, slot: int)
    requires
        0 <= slot < stack.len(),
    ensures
        stack_entities(stack.remove(slot)).insert(stack[slot].entity) == stack_entities(stack),
{
    let names = stack.map_values(|object: Object| object.entity);
    assert(stack.remove(slot).map_values(|object: Object| object.entity) =~= names.remove(slot));
    vstd::seq_lib::to_multiset_remove(names, slot);
    names.to_multiset_ensures();
    assert(names.contains(names[slot]));
    assert(stack_entities(stack.remove(slot)).insert(stack[slot].entity) =~= stack_entities(stack));
}

/// A stack with one more object holds the entities it held and that of the object.
pub proof fn lemma_stack_with(stack: Seq<Object>, height: int, object: Object)
    requires
        0 <= height <= stack.len(),
    ensures
        stack_entities(stack.insert(height, object)) == stack_entities(stack).insert(object.entity),
{
    let longer = stack.insert(height, object);
    assert(longer.remove(height) =~= stack);
    lemma_stack_without(longer, height);
}

/// Replacing one stack takes the entities of the old stack off the map and brings those of
/// the new one.
pub proof fn lemma_entities_update(cells: Seq<Seq<Object>>, index: int, stack: Seq<Object>)
    requires
        0 <= index < cells.len(),
    ensures
        map_entities(cells.update(index, stack)).add(stack_entities(cells[index])) == map_entities(cells).add(
            stack_entities(stack),
        ),
    decreases cells.len(),
{
    let updated = cells.update(index, stack);
    let rest = map_entities(cells.drop_last());
    assert(map_entities(cells) == rest.add(stack_entities(cells.last())));
    assert(map_entities(updated) == map_entities(updated.drop_last()).add(stack_entities(updated.last())));
    if index == cells.len() - 1 {
        assert(updated.drop_last() =~= cells.drop_last());
        assert(updated.last() == stack);
        assert(rest.add(stack_entities(stack)).add(stack_entities(cells[index])) =~= rest.add(
            stack_entities(cells[index]),
        ).add(stack_entities(stack)));
    } else {
        lemma_entities_update(cells.drop_last(), index, stack);
        assert(updated.drop_last() =~= cells.drop_last().update(index, stack));
        assert(updated.last() == cells.last());
        assert(cells.drop_last()[index] == cells[index]);
        let changed = map_entities(updated.drop_last());
        assert(changed.add(stack_entities(cells[index])) == rest.add(stack_entities(stack)));
        assert(changed.add(stack_entities(cells.last())).add(stack_entities(cells[index])) =~= changed.add(
            stack_entities(cells[index]),
        ).add(stack_entities(cells.last())));
        assert(rest.add(stack_entities(stack)).add(stack_entities(cells.last())) =~= rest.add(
            stack_entities(cells.last()),
        ).add(stack_entities(stack)));
    }
}

/// A move takes no entity off the map and brings none onto it: every entity stands on the
/// map as often after the move as before.
pub proof fn lemma_move_keeps_entities(map: MapView, entity: Entity, to: Vector)
    requires
        map.wf(),
        on_map(map.cells, entity),
        map.in_bounds(to),
    ensures
        map_entities(map.moved(entity, to).cells) == map_entities(map.cells),
{
    let from = cell_of(map.cells, entity);
    assert(is_cell_of(map.cells, entity, from)) by {
        lemma_first_cell_exists(map.cells, entity);
    }
    let slot = slot_of(map.cells[from], entity);
    assert(is_slot_of(map.cells[from], entity, slot)) by {
        lemma_first_slot_exists(map.cells[from], entity);
    }
    let object = map.cells[from][slot];
    let left = map.with_cell(from, map.cells[from].remove(slot));
    lemma_index_in_range(map, to.0 as int, to.1 as int);
    let target = left.index_of(to);
    let stack = left.cells[target];
    let height = if slot < stack.len() {
        slot
    } else {
        stack.len() as int
    };
    let shorter = map.cells[from].remove(slot);
    let longer = stack.insert(height, object);
    lemma_entities_update(map.cells, from, shorter);
    lemma_entities_update(left.cells, target, longer);
    lemma_stack_without(map.cells[from], slot);
    lemma_stack_with(stack, height, object);
    let before = map_entities(map.cells);
    let between = map_entities(left.cells);
    let after = map_entities(map.moved(entity, to).cells);
    assert(left.cells == map.cells.update(from, shorter));
    assert(map.moved(entity, to).cells == left.cells.update(target, longer));
    assert(between.add(stack_entities(map.cells[from])) == before.add(stack_entities(shorter)));
    assert(after.add(stack_entities(stack)) == between.add(stack_entities(longer)));
    assert forall|other: Entity| after.count(other) == before.count(other) by {
        assert(between.add(stack_entities(map.cells[from])).count(other) == before.add(
            stack_entities(shorter),
        ).count(other));
        assert(after.add(stack_entities(stack)).count(other) == between.add(stack_entities(longer)).count(
            other,
        ));
        assert(stack_entities(shorter).insert(object.entity).count(other) == stack_entities(
            map.cells[from],
        ).count(other));
        assert(stack_entities(longer).count(other) == stack_entities(stack).insert(object.entity).count(
            other,
        ));
    }
    assert(after =~= before);
}

/// A move that cannot be made changes nothing, so no move changes which entities stand on
/// the map, nor how often.
pub proof fn lemma_entities_after_any_move(map: MapView, entity: Entity, to: Vector)
    requires
        map.wf(),
    ensures
        map_entities(
            (if on_map(map.cells, entity) && map.in_bounds(to) {
                map.moved(entity, to)
            } else {
                map
            }).cells,
        ) == map_entities(map.cells),
{
    if on_map(map.cells, entity) && map.in_bounds(to) {
        lemma_move_keeps_entities(map, entity, to);
    }
}

/// A move that cannot be made changes nothing, so no move changes the number of objects.
pub proof fn lemma_count_after_any_move(map: MapView, entity: Entity, to: Vector)
    requires
        map.wf(),
    ensures
        total_objects(
            (if on_map(map.cells, entity) && map.in_bounds(to) {
                map.moved(entity, to)
            } else {
                map
            }).cells,
        ) == total_objects(map.cells),
{
    if on_map(map.cells, entity) && map.in_bounds(to) {
        lemma_move_keeps_count(map, entity, to);
    }
}

/// An entity that stands in a stack has a lowest place in it.
pub proof fn lemma_first_slot_exists(stack: Seq<Object>, entity: Entity)
    requires
        stack_holds(stack, entity),
    ensures
        is_slot_of(stack, entity, slot_of(stack, entity)),
{
    let some = choose|slot: int| 0 <= slot < stack.len() && (#[trigger] stack[slot]).entity == entity;
    lemma_lowest_slot(stack, entity, some);
}

proof fn lemma_lowest_slot(stack: Seq<Object>, entity: Entity, upto: int)
    requires
        0 <= upto < stack.len(),
        stack[upto].entity == entity,
    ensures
        exists|slot: int| is_slot_of(stack, entity, slot),
    decreases upto,
{
    if exists|below: int| 0 <= below < upto && (#[trigger] stack[below]).entity == entity {
        let below = choose|below: int| 0 <= below < upto && (#[trigger] stack[below]).entity == entity;
        lemma_lowest_slot(stack, entity, below);
    } else {
        assert(is_slot_of(stack, entity, upto));
    }
}

/// An entity that stands on the map has a first cell.
pub proof fn lemma_first_cell_exists(cells: Seq<Seq<Object>>, entity: Entity)
    requires
        on_map(cells, entity),
    ensures
        is_cell_of(cells, entity, cell_of(cells, entity)),
{
    let some = choose|index: int| 0 <= index < cells.len() && stack_holds(#[trigger] cells[index], entity);
    lemma_lowest_cell(cells, entity, some);
}

proof fn lemma_lowest_cell(cells: Seq<Seq<Object>>, entity: Entity, upto: int)
    requires
        0 <= upto < cells.len(),
        stack_holds(cells[upto], entity),
    ensures
        exists|index: int| is_cell_of(cells, entity, index),
    decreases upto,
{
    if exists|before: int| 0 <= before < upto && stack_holds(#[trigger] cells[before], entity) {
        let before = choose|before: int| 0 <= before < upto && stack_holds(#[trigger] cells[before], entity);
        lemma_lowest_cell(cells, entity, before);
    } else {
        assert(is_cell_of(cells, entity, upto));
    }
}

/// A grid of cells, each a stack of objects from the bottom up. Its size never changes.
#[derive(Debug)]
pub struct MapBase {
    stacks: Vec<Vec<Object>>,
    size: Vector,
}

impl View for MapBase {
    type V = MapView;

    closed spec fn view(&self) -> MapView {
        MapView { size: self.size, cells: Seq::new(self.stacks@.len(), |i: int| self.stacks@[i]@) }
    }
}

/// The lowest place in `stack` at which `entity` stands, if it stands there at all.
pub fn find_slot(stack: &Vec<Object>, entity: Entity) -> (slot: Option<usize>)
    ensures
        match slot {
            Some(found) => is_slot_of(stack@, entity, found as int),
            None => !stack_holds(stack@, entity),
        },
{
    let mut slot: usize = 0;
    while slot < stack.len()
        invariant
            slot <= stack@.len(),
            forall|below: int| 0 <= below < slot ==> (#[trigger] stack@[below]).entity != entity,
        decreases stack@.len() - slot,
    {
        if same_entity(stack[slot].entity, entity) {
            return Some(slot);
        }
        slot += 1;
    }
    None
}

impl MapBase {
    /// What holds of every map: its cells are as many as its size says.
    #[verifier::type_invariant]
    pub open spec fn inv(self) -> bool {
        self@.wf()
    }

    /// A map of `size.0` columns and `size.1` rows with nothing in it.
    pub fn new(size: Vector) -> (map: MapBase)
        requires
            0 <= size.0,
            0 <= size.1,
            size.0 * size.1 <= i32::MAX,
        ensures
            map@.wf(),
            map@.size == size,
            forall|index: int| 0 <= index < map@.cells.len() ==> #[trigger] map@.cells[index] == Seq::<Object>::empty(),
    {
        let count: usize = (size.0 * size.1) as usize;
        let mut stacks: Vec<Vec<Object>> = Vec::new();
        while stacks.len() < count
            invariant
                stacks@.len() <= count,
                forall|index: int| 0 <= index < stacks@.len() ==> (#[trigger] stacks@[index])@ == Seq::<Object>::empty(),
            decreases count - stacks@.len(),
        {
            stacks.push(Vec::new());
        }
        Self { stacks, size }
    }

    /// The number of columns and of rows.
    pub fn dimensions(&self) -> (size: Vector)
        ensures
            size == self@.size,
            self@.wf(),
    {
        proof {
            use_type_invariant(self);
        }
        self.size
    }

    /// The number of cells.
    pub fn cell_count(&self) -> (count: usize)
        ensures
            count == self@.cells.len(),
            self@.wf(),
    {
        proof {
            use_type_invariant(self);
        }
        self.stacks.len()
    }

    /// Whether `position` is a cell of the map.
    pub fn in_bounds(&self, position: Vector) -> (inside: bool)
        ensures
            inside == self@.in_bounds(position),
    {
        0 <= position.0 && position.0 < self.size.0 && 0 <= position.1 && position.1 < self.size.1
    }

    /// The place of the cell at `point` among the cells: its column plus its row times the
    /// width. `None` for a point off the map.
    pub fn point2d_to_index(&self, point: Vector) -> (index: Option<usize>)
        ensures
            self@.wf(),
            index == (if self@.in_bounds(point) {
                Some(self@.index_of(point) as usize)
            } else {
                None
            }),
            index matches Some(place) ==> place < self@.cells.len() && place == self@.index_of(point),
    {
        proof {
            use_type_invariant(self);
        }
        if !self.in_bounds(point) {
            return None;
        }
        let column: usize = point.0 as usize;
        let row: usize = point.1 as usize;
        let width: usize = self.size.0 as usize;
        let total: usize = self.stacks.len();
        proof {
            lemma_index_in_range(self@, point.0 as int, point.1 as int);
            assert(self@.cells.len() == total);
            assert(0 <= row * width <= column + row * width) by (nonlinear_arith);
            assert(column + row * width == self@.index_at(point.0 as int, point.1 as int));
        }
        Some(column + row * width)
    }

    /// The column and row of the cell at `index`: the remainder and the quotient by the
    /// width. `None` for an index past the last cell.
    pub fn index_to_point2d(&self, index: usize) -> (point: Option<Vector>)
        ensures
            self@.wf(),
            point == (if index < self@.cells.len() {
                Some(self@.point_at(index as int))
            } else {
                None
            }),
            point matches Some(at) ==> self@.in_bounds(at) && self@.index_of(at) == index,
    {
        proof {
            use_type_invariant(self);
        }
        if index >= self.stacks.len() {
            return None;
        }
        proof {
            lemma_point_in_bounds(self@, index as int);
        }
        let width: usize = self.size.0 as usize;
        Some(Vector((index % width) as i32, (index / width) as i32))
    }

    /// Whether the cell at `index` stops sight: whether the object on top of it does. A
    /// cell with nothing in it, or no cell, does not.
    pub fn is_opaque(&self, index: usize) -> (opaque: bool)
        ensures
            opaque == (index < self@.cells.len() && self@.cells[index as int].len() > 0
                && self@.cells[index as int].last().block_fov),
    {
        if index < self.stacks.len() {
            let stack = &self.stacks[index];
            if stack.len() > 0 {
                stack[stack.len() - 1].block_fov
            } else {
                false
            }
        } else {
            false
        }
    }

    /// The stack at `position`, or `None` off the map.
    pub fn get_objects(&self, position: Vector) -> (stack: Option<&Vec<Object>>)
        ensures
            self@.wf(),
            stack is Some == self@.in_bounds(position),
            stack matches Some(found) ==> found@ == self@.cell(position),
    {
        match self.point2d_to_index(position) {
            Some(index) => Some(&self.stacks[index]),
            None => None,
        }
    }

    /// The first cell in which `entity` stands, if it stands in any.
    pub fn find_cell(&self, entity: Entity) -> (index: Option<usize>)
        ensures
            self@.wf(),
            index is Some == on_map(self@.cells, entity),
            index matches Some(found) ==> is_cell_of(self@.cells, entity, found as int)
                && found == cell_of(self@.cells, entity),
    {
        proof {
            use_type_invariant(self);
        }
        let mut index: usize = 0;
        while index < self.stacks.len()
            invariant
                index <= self.stacks@.len(),
                self@.wf(),
                self@.cells.len() == self.stacks@.len(),
                forall|before: int| 0 <= before < index ==> !stack_holds(#[trigger] self@.cells[before], entity),
            decreases self.stacks@.len() - index,
        {
            if find_slot(&self.stacks[index], entity).is_some() {
                proof {
                    lemma_cell_unique(self@.cells, entity, index as int);
                }
                return Some(index);
            }
            index += 1;
        }
        None
    }

    /// The stack of the first cell in which `entity` stands, or `None` where it stands in
    /// none.
    pub fn get_objects_at_entity(&self, entity: Entity) -> (stack: Option<&Vec<Object>>)
        ensures
            stack is Some == on_map(self@.cells, entity),
            stack matches Some(found) ==> found@ == self@.cells[cell_of(self@.cells, entity)],
    {
        match self.find_cell(entity) {
            Some(index) => Some(&self.stacks[index]),
            None => None,
        }
    }

    /// A copy of the rectangle of `size` at `position`, or `None` where it does not lie on
    /// the map. To change the rectangle, change the copy and write it back with
    /// `region_mut`; one cell is changed in place through `get_objects_mut`.
    pub fn region(&self, position: Vector, size: Vector) -> (region: Option<MapBase>)
        ensures
            region is Some == self@.holds_region(position, size),
            region matches Some(part) ==> part@ == self@.region(position, size),
    {
        proof {
            use_type_invariant(self);
        }
        if position.0 < 0 || position.1 < 0 || size.0 < 0 || size.1 < 0 {
            return None;
        }
        if size.0 > self.size.0 - position.0 || size.1 > self.size.1 - position.1 {
            return None;
        }
        let ghost whole = self@;
        let ghost wanted = whole.region(position, size);
        let mut stacks: Vec<Vec<Object>> = Vec::new();
        let mut row: i32 = 0;
        assert(size.0 * size.1 >= 0) by (nonlinear_arith)
            requires
                size.0 >= 0,
                size.1 >= 0,
        ;
        while row < size.1
            invariant
                self@ == whole,
                whole.wf(),
                whole.holds_region(position, size),
                wanted == whole.region(position, size),
                0 <= row <= size.1,
                stacks@.len() == row * size.0,
                wanted.cells.len() == size.0 * size.1,
                stacks@.len() <= wanted.cells.len(),
                forall|i: int| 0 <= i < stacks@.len() ==> (#[trigger] stacks@[i])@ == wanted.cells[i],
            decreases size.1 - row,
        {
            let mut column: i32 = 0;
            while column < size.0
                invariant
                    self@ == whole,
                    whole.wf(),
                    whole.holds_region(position, size),
                    wanted == whole.region(position, size),
                    0 <= row < size.1,
                    0 <= column <= size.0,
                    stacks@.len() == row * size.0 + column,
                    wanted.cells.len() == size.0 * size.1,
                    stacks@.len() <= wanted.cells.len(),
                    forall|i: int| 0 <= i < stacks@.len() ==> (#[trigger] stacks@[i])@ == wanted.cells[i],
                decreases size.0 - column,
            {
                let ghost place = row * size.0 + column;
                proof {
                    assert(0 <= place < size.0 * size.1 && place % (size.0 as int) == column
                        && place / (size.0 as int) == row) by (nonlinear_arith)
                        requires
                            place == row * size.0 + column,
                            0 <= row < size.1,
                            0 <= column < size.0,
                    ;
                }
                let at = Vector(position.0 + column, position.1 + row);
                let index = self.point2d_to_index(at);
                assert(index is Some);
                let copy = copy_of(&self.stacks[index.unwrap()]);
                stacks.push(copy);
                column += 1;
            }
            assert((row + 1) * size.0 == row * size.0 + size.0 && (row + 1) * size.0 <= size.1
                * size.0 && size.1 * size.0 == size.0 * size.1) by (nonlinear_arith)
                requires
                    0 <= row < size.1,
                    0 <= size.0,
            ;
            row += 1;
        }
        assert(stacks@.len() == size.0 * size.1) by (nonlinear_arith)
            requires
                stacks@.len() == row * size.0,
                row == size.1,
        ;
        let part = Self { stacks, size };
        assert(part@.cells =~= wanted.cells);
        assert(part@ =~= wanted);
        Some(part)
    }

    /// Changes the rectangle at `position` that is as large as `part`: each of its cells
    /// becomes a copy of the cell of `part` at the same place within the rectangle, and all
    /// other cells stay as they are. What `region` gives there afterwards is `part`. A
    /// rectangle that does not lie on the map is refused, and nothing changes.
    pub fn region_mut(&mut self, position: Vector, part: &MapBase) -> (changed: bool)
        ensures
            changed == old(self)@.holds_region(position, part@.size),
            changed ==> final(self)@ == old(self)@.with_region(position, part@),
            changed ==> final(self)@.region(position, part@.size) == part@,
            !changed ==> final(self)@ == old(self)@,
    {
        proof {
            use_type_invariant(&*self);
            use_type_invariant(part);
        }
        let size = part.size;
        if position.0 < 0 || position.1 < 0 || size.0 < 0 || size.1 < 0 {
            return false;
        }
        if size.0 > self.size.0 - position.0 || size.1 > self.size.1 - position.1 {
            return false;
        }
        let ghost whole = self@;
        let ghost wanted = whole.with_region(position, part@);
        let mut row: i32 = 0;
        while row < size.1
            invariant
                whole.wf(),
                part@.wf(),
                part@.size == size,
                self@.size == whole.size,
                self@.cells.len() == whole.cells.len(),
                whole.holds_region(position, size),
                wanted == whole.with_region(position, part@),
                0 <= row <= size.1,
                forall|index: int|
                    0 <= index < whole.cells.len() ==> #[trigger] self@.cells[index] == (if index / (
                    whole.size.0 as int) < position.1 + row {
                        wanted.cells[index]
                    } else {
                        whole.cells[index]
                    }),
            decreases size.1 - row,
        {
            let mut column: i32 = 0;
            while column < size.0
                invariant
                    whole.wf(),
                    part@.wf(),
                    part@.size == size,
                    self@.size == whole.size,
                    self@.cells.len() == whole.cells.len(),
                    whole.holds_region(position, size),
                    wanted == whole.with_region(position, part@),
                    0 <= row < size.1,
                    0 <= column <= size.0,
                    forall|index: int|
                        0 <= index < whole.cells.len() ==> #[trigger] self@.cells[index] == (if index / (
                        whole.size.0 as int) < position.1 + row || (index / (whole.size.0 as int)
                            == position.1 + row && index % (whole.size.0 as int) < position.0 + column) {
                            wanted.cells[index]
                        } else {
                            whole.cells[index]
                        }),
                decreases size.0 - column,
            {
                proof {
                    lemma_place_in_region(whole, position, size, column as int, row as int);
                }
                let copy = match part.get_objects(Vector(column, row)) {
                    Some(stack) => copy_of(stack),
                    None => Vec::new(),
                };
                assert(copy@ == part@.cells[column + row * size.0]);
                let at = Vector(position.0 + column, position.1 + row);
                let ghost before = self@;
                let ghost target = whole.index_of(at);
                match self.get_objects_mut(at) {
                    Some(stack) => {
                        *stack = copy;
                    },
                    None => {},
                }
                proof {
                    assert(self@.cells[target] == wanted.cells[target]);
                    assert forall|index: int| 0 <= index < whole.cells.len() implies #[trigger] self@.cells[index]
                        == (if index / (whole.size.0 as int) < position.1 + row || (index / (
                    whole.size.0 as int) == position.1 + row && index % (whole.size.0 as int) < position.0
                        + column + 1) {
                        wanted.cells[index]
                    } else {
                        whole.cells[index]
                    }) by {
                        lemma_point_in_bounds(whole, index);
                        if index != target {
                            assert(self@.cells[index] == before.cells[index]);
                            assert(whole.index_of(whole.point_at(index)) == index);
                            assert(!(index / (whole.size.0 as int) == position.1 + row && index % (
                            whole.size.0 as int) == position.0 + column));
                        }
                        if index / (whole.size.0 as int) == position.1 + row && index % (whole.size.0 as int)
                            < position.0 {
                            assert(whole.place_in_region(position, size, index) is None);
                        }
                    }
                }
                column += 1;
            }
            proof {
                assert forall|index: int| 0 <= index < whole.cells.len() implies #[trigger] self@.cells[index]
                    == (if index / (whole.size.0 as int) < position.1 + row + 1 {
                    wanted.cells[index]
                } else {
                    whole.cells[index]
                }) by {
                    if index / (whole.size.0 as int) == position.1 + row && index % (whole.size.0 as int)
                        >= position.0 + size.0 {
                        assert(whole.place_in_region(position, size, index) is None);
                    }
                }
            }
            row += 1;
        }
        proof {
            assert forall|index: int| 0 <= index < whole.cells.len() implies #[trigger] self@.cells[index]
                == wanted.cells[index] by {
                if index / (whole.size.0 as int) >= position.1 + size.1 {
                    assert(whole.place_in_region(position, size, index) is None);
                }
            }
            assert(self@.cells =~= wanted.cells);
            assert(self@ =~= wanted);
            lemma_region_of_with_region(whole, position, part@);
        }
        true
    }

    /// The stacks of the up to eight cells around `position`, in the order of
    /// `Direction::all`.
    pub fn neighbours(&self, position: Vector) -> (stacks: Vec<&Vec<Object>>)
        ensures
            stacks@.len() == self@.neighbours(position).len(),
            forall|k: int| 0 <= k < stacks@.len() ==> (#[trigger] stacks@[k])@ == self@.neighbours(position)[k],
    {
        let directions = Direction::all();
        let mut stacks: Vec<&Vec<Object>> = Vec::new();
        let mut count: usize = 0;
        while count < 8
            invariant
                count <= 8,
                directions@ == all_directions(),
                stacks@.len() == self@.neighbours_upto(position, count as nat).len(),
                forall|k: int| 0 <= k < stacks@.len() ==> (#[trigger] stacks@[k])@ == self@.neighbours_upto(position, count as nat)[k],
            decreases 8 - count,
        {
            let step = directions[count].as_unit_vector();
            if let Some(target) = position.checked_add(step) {
                if let Some(stack) = self.get_objects(target) {
                    stacks.push(stack);
                }
            } else {
                proof {
                    use_type_invariant(self);
                }
            }
            count += 1;
        }
        stacks
    }

    fn cell_mut(&mut self, index: usize) -> (stack: &mut Vec<Object>)
        requires
            index < old(self)@.cells.len(),
        ensures
            stack@ == old(self)@.cells[index as int],
            final(self)@.size == old(self)@.size,
            final(self)@.cells == old(self)@.cells.update(index as int, final(stack)@),
    {
        proof {
            use_type_invariant(&*self);
        }
        &mut self.stacks[index]
    }

    /// The stack at `position` to change in place, or `None` off the map.
    pub fn get_objects_mut(&mut self, position: Vector) -> (stack: Option<&mut Vec<Object>>)
        ensures
            stack is Some == old(self)@.in_bounds(position),
            match stack {
                Some(found) => found@ == old(self)@.cell(position) && final(self)@ =~= old(self)@.with_cell(
                    old(self)@.index_of(position),
                    final(found)@,
                ),
                None => final(self)@ =~= old(self)@,
            },
    {
        match self.point2d_to_index(position) {
            Some(index) => Some(self.cell_mut(index)),
            None => None,
        }
    }

    /// The stack of the first cell in which `entity` stands, to change in place, or `None`
    /// where it stands in none.
    pub fn get_objects_at_entity_mut(&mut self, entity: Entity) -> (stack: Option<&mut Vec<Object>>)
        ensures
            stack is Some == on_map(old(self)@.cells, entity),
            match stack {
                Some(found) => found@ == old(self)@.cells[cell_of(old(self)@.cells, entity)]
                    && final(self)@ =~= old(self)@.with_cell(
                    cell_of(old(self)@.cells, entity),
                    final(found)@,
                ),
                None => final(self)@ =~= old(self)@,
            },
    {
        match self.find_cell(entity) {
            Some(index) => Some(self.cell_mut(index)),
            None => None,
        }
    }

    /// Takes `entity` out of the first cell it stands in, and hands back the object that
    /// stood for it there; `None`, and no change, where it stands in no cell.
    pub fn remove_entity(&mut self, entity: Entity) -> (removed: Option<Object>)
        ensures
            removed is Some == on_map(old(self)@.cells, entity),
            removed matches Some(object) ==> object.entity == entity && final(self)@ =~= old(
                self,
            )@.without(entity) && object == old(self)@.cells[cell_of(old(self)@.cells, entity)][slot_of(
                old(self)@.cells[cell_of(old(self)@.cells, entity)],
                entity,
            )],
            removed is None ==> final(self)@ =~= old(self)@,
    {
        let ghost before = self@;
        let from: usize = match self.find_cell(entity) {
            Some(index) => index,
            None => return None,
        };
        let slot: usize = match find_slot(&self.stacks[from], entity) {
            Some(found) => found,
            None => return None,
        };
        proof {
            lemma_slot_unique(before.cells[from as int], entity, slot as int);
        }
        let object = self.stacks[from].remove(slot);
        assert(self@.cells =~= before.without(entity).cells);
        Some(object)
    }

    /// Moves `entity` from the first cell it stands in to the cell at `new_position`, and
    /// writes the new position into `current_position`. It enters the stack there at the
    /// height it had, or on top where that stack is lower. An entity that stands nowhere, or
    /// a position off the map, is refused and nothing changes.
    pub fn move_object_by_entity(
        &mut self,
        entity: Entity,
        current_position: &mut Position,
        new_position: Vector,
    ) -> (moved: Result<(), MapError>)
        ensures
            moved == (if !on_map(old(self)@.cells, entity) {
                Err::<(), MapError>(MapError::NotOnMap)
            } else if !old(self)@.in_bounds(new_position) {
                Err::<(), MapError>(MapError::OutOfBounds)
            } else {
                Ok::<(), MapError>(())
            }),
            moved is Ok ==> final(self)@ =~= old(self)@.moved(entity, new_position)
                && final(current_position).vector == new_position,
            moved is Err ==> final(self)@ =~= old(self)@
                && *final(current_position) == *old(current_position),
            total_objects(final(self)@.cells) == total_objects(old(self)@.cells),
            map_entities(final(self)@.cells) == map_entities(old(self)@.cells),
    {
        let ghost before = self@;
        let from: usize = match self.find_cell(entity) {
            Some(index) => index,
            None => return Err(MapError::NotOnMap),
        };
        let target: usize = match self.point2d_to_index(new_position) {
            Some(index) => index,
            None => return Err(MapError::OutOfBounds),
        };
        let slot: usize = match find_slot(&self.stacks[from], entity) {
            Some(found) => found,
            None => {
                return Err(MapError::NotOnMap);
            },
        };
        proof {
            lemma_slot_unique(before.cells[from as int], entity, slot as int);
        }
        let object = self.stacks[from].remove(slot);
        current_position.vector = new_position;
        let ghost left = before.with_cell(from as int, before.cells[from as int].remove(slot as int));
        assert(self@.cells =~= left.cells);
        let height: usize = if slot < self.stacks[target].len() {
            slot
        } else {
            self.stacks[target].len()
        };
        self.stacks[target].insert(height, object);
        proof {
            assert(self@.cells =~= left.cells.update(
                target as int,
                left.cells[target as int].insert(height as int, object),
            ));
            lemma_total_update(before.cells, from as int, before.cells[from as int].remove(slot as int));
            lemma_total_update(left.cells, target as int, left.cells[target as int].insert(height as int, object));
            lemma_entities_after_any_move(before, entity, new_position);
            assert(self@ =~= before.moved(entity, new_position));
        }
        Ok(())
    }
}

} // verus!
