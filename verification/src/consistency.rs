use vstd::prelude::*;
use legion::Entity;
use crate::commands::{
    apply_all, dressed, lemma_apply_concat, lemma_apply_push, CommandView, ComponentView, State, TOP,
};
use crate::entities::spawn_commands;
use crate::generation::{all_new, with_created};
use crate::components::position::Position;
use crate::map::{
    cell_of, is_slot_of, lemma_cell_unique, lemma_first_slot_exists, lemma_index_in_range,
    lemma_point_in_bounds, on_map, slot_of, stack_holds, MapView, Object,
};
use crate::vector::Vector;
use crate::world::Parts;

verus! {

/// Every object on the map stands for an entity of the world whose `Position` is the cell
/// that the object stands in.
pub open spec fn objects_have_place(state: State) -> bool {
    forall|index: int, slot: int|
        0 <= index < state.map.cells.len() && 0 <= slot < state.map.cells[index].len() ==> {
            let entity = (#[trigger] state.map.cells[index][slot]).entity;
            state.entities.dom().contains(entity) && state.entities[entity].position == Some(
                Position { vector: state.map.point_at(index) },
            )
        }
}

/// Every entity with a `Position` stands in the cell that its `Position` names.
pub open spec fn positions_have_object(state: State) -> bool {
    forall|entity: Entity|
        state.entities.dom().contains(entity) && (#[trigger] state.entities[entity]).position is Some
            ==> state.map.in_bounds(state.entities[entity].position->0.vector) && stack_holds(
            state.map.cell(state.entities[entity].position->0.vector),
            entity,
        )
}

/// No entity stands on the map twice.
pub open spec fn no_entity_twice(cells: Seq<Seq<Object>>) -> bool {
    forall|index: int, slot: int, other: int, place: int|
        0 <= index < cells.len() && 0 <= slot < cells[index].len() && 0 <= other < cells.len() && 0
            <= place < cells[other].len() && (#[trigger] cells[index][slot]).entity == (
        #[trigger] cells[other][place]).entity ==> index == other && slot == place
}

/// The world and the map agree: an entity stands on the map exactly where its `Position`
/// says, once, and an entity without a `Position` stands nowhere.
pub open spec fn consistent(state: State) -> bool {
    &&& state.map.wf()
    &&& objects_have_place(state)
    &&& positions_have_object(state)
    &&& no_entity_twice(state.map.cells)
}

/// Whether the same entities have the same `Position`s in `first` and in `second`.
pub open spec fn same_places(first: Map<Entity, Parts>, second: Map<Entity, Parts>) -> bool {
    &&& first.dom() == second.dom()
    &&& forall|entity: Entity|
        first.dom().contains(entity) ==> (#[trigger] first[entity]).position == second[entity].position
}

/// In a world that agrees with its map, an entity with a `Position` stands in the cell of
/// its `Position`, at one place in it, and nowhere else on the map; and the first cell that
/// holds it is that cell.
pub proof fn lemma_entity_stands_once(state: State, entity: Entity)
    requires
        consistent(state),
        state.entities.dom().contains(entity),
        state.entities[entity].position is Some,
    ensures
        state.map.in_bounds(state.entities[entity].position->0.vector),
        is_slot_of(
            state.map.cell(state.entities[entity].position->0.vector),
            entity,
            slot_of(state.map.cell(state.entities[entity].position->0.vector), entity),
        ),
        forall|index: int, slot: int|
            0 <= index < state.map.cells.len() && 0 <= slot < state.map.cells[index].len() && (
            #[trigger] state.map.cells[index][slot]).entity == entity ==> index == state.map.index_of(
                state.entities[entity].position->0.vector,
            ) && slot == slot_of(state.map.cell(state.entities[entity].position->0.vector), entity),
        on_map(state.map.cells, entity),
        cell_of(state.map.cells, entity) == state.map.index_of(state.entities[entity].position->0.vector),
{
    let at = state.entities[entity].position->0.vector;
    let home = state.map.index_of(at);
    let stack = state.map.cell(at);
    lemma_index_in_range(state.map, at.0 as int, at.1 as int);
    lemma_first_slot_exists(stack, entity);
    let found = slot_of(stack, entity);
    assert(state.map.cells[home][found].entity == entity);
    assert forall|before: int| 0 <= before < home implies !stack_holds(
        #[trigger] state.map.cells[before],
        entity,
    ) by {
        if stack_holds(state.map.cells[before], entity) {
            let slot = choose|slot: int|
                0 <= slot < state.map.cells[before].len() && (#[trigger] state.map.cells[before][slot]).entity
                    == entity;
            assert(state.map.cells[before][slot].entity == state.map.cells[home][found].entity);
        }
    }
    lemma_cell_unique(state.map.cells, entity, home);
}

/// In a world that agrees with its map, an entity without a `Position`, and one that is not
/// in the world, stands nowhere on the map.
pub proof fn lemma_unplaced_stands_nowhere(state: State, entity: Entity)
    requires
        consistent(state),
        !state.entities.dom().contains(entity) || state.entities[entity].position is None,
    ensures
        !on_map(state.map.cells, entity),
        forall|index: int, slot: int|
            0 <= index < state.map.cells.len() && 0 <= slot < state.map.cells[index].len() ==> (
            #[trigger] state.map.cells[index][slot]).entity != entity,
{
    if on_map(state.map.cells, entity) {
        let index = choose|index: int|
            0 <= index < state.map.cells.len() && stack_holds(#[trigger] state.map.cells[index], entity);
        let slot = choose|slot: int|
            0 <= slot < state.map.cells[index].len() && (#[trigger] state.map.cells[index][slot]).entity
                == entity;
        assert(state.map.cells[index][slot].entity == entity);
    }
}

/// A change to the entities that leaves every `Position` as it was leaves the world and the
/// map in agreement.
pub proof fn lemma_same_places_keep(state: State, entities: Map<Entity, Parts>)
    requires
        consistent(state),
        same_places(state.entities, entities),
    ensures
        consistent(State { entities, map: state.map }),
{
    let after = State { entities, map: state.map };
    assert forall|index: int, slot: int|
        0 <= index < after.map.cells.len() && 0 <= slot < after.map.cells[index].len() implies {
        let entity = (#[trigger] after.map.cells[index][slot]).entity;
        after.entities.dom().contains(entity) && after.entities[entity].position == Some(
            Position { vector: after.map.point_at(index) },
        )
    } by {
        let entity = state.map.cells[index][slot].entity;
        assert(state.entities[entity].position == entities[entity].position);
    }
    assert forall|entity: Entity|
        after.entities.dom().contains(entity) && (#[trigger] after.entities[entity]).position is Some
        implies after.map.in_bounds(after.entities[entity].position->0.vector) && stack_holds(
        after.map.cell(after.entities[entity].position->0.vector),
        entity,
    ) by {
        assert(state.entities[entity].position == entities[entity].position);
    }
}

/// Whether `after` is `before` but for `entity`, which has come to stand at `position`:
/// its object was put into the stack there at `height`, and its `Position` says so. All
/// other entities have the `Position`s that they had.
pub open spec fn placed(before: State, after: State, entity: Entity, position: Vector, height: int) -> bool {
    &&& before.entities.dom().contains(entity)
    &&& before.entities[entity].position is None
    &&& before.map.in_bounds(position)
    &&& 0 <= height <= before.map.cell(position).len()
    &&& after.entities.dom() == before.entities.dom()
    &&& after.entities[entity].position == Some(Position { vector: position })
    &&& forall|other: Entity|
        other != entity && before.entities.dom().contains(other) ==> (#[trigger] after.entities[other]).position
            == before.entities[other].position
    &&& after.map.size == before.map.size
    &&& after.map.cells.len() == before.map.cells.len()
    &&& after.map.cell(position).len() == before.map.cell(position).len() + 1
    &&& after.map.cell(position)[height].entity == entity
    &&& forall|slot: int|
        0 <= slot < before.map.cell(position).len() ==> #[trigger] before.map.cell(position)[slot] == (if slot
            < height {
            after.map.cell(position)[slot]
        } else {
            after.map.cell(position)[slot + 1]
        })
    &&& forall|index: int|
        0 <= index < before.map.cells.len() && index != before.map.index_of(position)
            ==> #[trigger] after.map.cells[index] == before.map.cells[index]
}

/// Putting an entity without a `Position` onto the map, and giving it the `Position` of
/// the cell, leaves the world and the map in agreement.
pub proof fn lemma_placing_keeps(before: State, after: State, entity: Entity, position: Vector, height: int)
    requires
        consistent(before),
        placed(before, after, entity, position, height),
    ensures
        consistent(after),
{
    let home = before.map.index_of(position);
    lemma_index_in_range(before.map, position.0 as int, position.1 as int);
    lemma_point_in_bounds(before.map, home);
    lemma_unplaced_stands_nowhere(before, entity);
    let old_stack = before.map.cells[home];
    let new_stack = after.map.cells[home];
    assert forall|index: int, slot: int|
        0 <= index < after.map.cells.len() && 0 <= slot < after.map.cells[index].len() implies {
        let who = (#[trigger] after.map.cells[index][slot]).entity;
        after.entities.dom().contains(who) && after.entities[who].position == Some(
            Position { vector: after.map.point_at(index) },
        )
    } by {
        if index != home {
            assert(after.map.cells[index] == before.map.cells[index]);
            let who = before.map.cells[index][slot].entity;
            assert(who != entity);
        } else if slot < height {
            assert(old_stack[slot] == new_stack[slot]);
            assert(before.map.cells[home][slot].entity != entity);
        } else if slot > height {
            assert(old_stack[slot - 1] == new_stack[slot]);
            assert(before.map.cells[home][slot - 1].entity != entity);
        }
    }
    assert forall|who: Entity|
        after.entities.dom().contains(who) && (#[trigger] after.entities[who]).position is Some implies after.map.in_bounds(
        after.entities[who].position->0.vector,
    ) && stack_holds(after.map.cell(after.entities[who].position->0.vector), who) by {
        if who == entity {
            assert(new_stack[height].entity == entity);
        } else {
            assert(before.entities[who].position == after.entities[who].position);
            let at = before.entities[who].position->0.vector;
            let stack = before.map.cell(at);
            let slot = choose|slot: int| 0 <= slot < stack.len() && (#[trigger] stack[slot]).entity == who;
            lemma_index_in_range(before.map, at.0 as int, at.1 as int);
            if before.map.index_of(at) == home {
                if slot < height {
                    assert(old_stack[slot] == new_stack[slot]);
                } else {
                    assert(old_stack[slot] == new_stack[slot + 1]);
                }
            } else {
                assert(after.map.cells[before.map.index_of(at)] == before.map.cells[before.map.index_of(at)]);
            }
        }
    }
    assert forall|index: int, slot: int, other: int, place: int|
        0 <= index < after.map.cells.len() && 0 <= slot < after.map.cells[index].len() && 0 <= other
            < after.map.cells.len() && 0 <= place < after.map.cells[other].len() && (
        #[trigger] after.map.cells[index][slot]).entity == (#[trigger] after.map.cells[other][place]).entity
        implies index == other && slot == place by {
        let first = lemma_origin(before, after, position, height, index, slot);
        let second = lemma_origin(before, after, position, height, other, place);
        if first is Some && second is Some {
            assert(before.map.cells[index][first->0].entity == before.map.cells[other][second->0].entity);
        } else if first is Some {
            assert(before.map.cells[index][first->0].entity != entity);
        } else if second is Some {
            assert(before.map.cells[other][second->0].entity != entity);
        }
    }
}

/// Where an object of the map after a placing stood before it: `None` for the object that
/// was placed.
proof fn lemma_origin(before: State, after: State, position: Vector, height: int, index: int, slot: int) -> (origin:
    Option<int>)
    requires
        before.map.wf(),
        before.map.in_bounds(position),
        0 <= height <= before.map.cell(position).len(),
        after.map.cells.len() == before.map.cells.len(),
        after.map.cell(position).len() == before.map.cell(position).len() + 1,
        after.map.size == before.map.size,
        forall|slot: int|
            0 <= slot < before.map.cell(position).len() ==> #[trigger] before.map.cell(position)[slot] == (if slot
                < height {
                after.map.cell(position)[slot]
            } else {
                after.map.cell(position)[slot + 1]
            }),
        forall|index: int|
            0 <= index < before.map.cells.len() && index != before.map.index_of(position)
                ==> #[trigger] after.map.cells[index] == before.map.cells[index],
        0 <= index < after.map.cells.len(),
        0 <= slot < after.map.cells[index].len(),
    ensures
        origin is None ==> index == before.map.index_of(position) && slot == height,
        origin matches Some(was) ==> 0 <= was < before.map.cells[index].len() && before.map.cells[index][was]
            == after.map.cells[index][slot] && (index == before.map.index_of(position) ==> was == (if slot
            < height {
            slot
        } else {
            slot - 1
        })) && (index != before.map.index_of(position) ==> was == slot),
        origin is None == (index == before.map.index_of(position) && slot == height),
{
    let home = before.map.index_of(position);
    lemma_index_in_range(before.map, position.0 as int, position.1 as int);
    if index != home {
        assert(after.map.cells[index] == before.map.cells[index]);
        Some(slot)
    } else if slot < height {
        assert(before.map.cell(position)[slot] == after.map.cell(position)[slot]);
        Some(slot)
    } else if slot > height {
        assert(before.map.cell(position)[slot - 1] == after.map.cell(position)[slot]);
        Some(slot - 1)
    } else {
        None
    }
}

/// `map` with `object` put into the stack at `position`, at `height`.
pub open spec fn placed_map(map: MapView, position: Vector, height: int, object: Object) -> MapView {
    map.with_cell(map.index_of(position), map.cell(position).insert(height, object))
}

/// `map` without the lowest object of `entity` in the stack at `position`.
pub open spec fn taken_map(map: MapView, position: Vector, entity: Entity) -> MapView {
    map.with_cell(
        map.index_of(position),
        map.cell(position).remove(slot_of(map.cell(position), entity)),
    )
}

/// Whether `after` are the entities of `before` with their `Position`s, but for `entity`,
/// which is gone or has none.
pub open spec fn unplaced(before: Map<Entity, Parts>, after: Map<Entity, Parts>, entity: Entity) -> bool {
    &&& forall|other: Entity| after.dom().contains(other) ==> before.dom().contains(other)
    &&& forall|other: Entity|
        other != entity && before.dom().contains(other) ==> after.dom().contains(other) && (
        #[trigger] after[other]).position == before[other].position
    &&& after.dom().contains(entity) ==> after[entity].position is None
}

/// Whether `after` are the entities of `before` with their `Position`s, but for `entity`,
/// whose `Position` is now `position`.
pub open spec fn replaced(
    before: Map<Entity, Parts>,
    after: Map<Entity, Parts>,
    entity: Entity,
    position: Vector,
) -> bool {
    &&& after.dom() == before.dom()
    &&& after[entity].position == Some(Position { vector: position })
    &&& forall|other: Entity|
        other != entity && before.dom().contains(other) ==> (#[trigger] after[other]).position
            == before[other].position
}

/// Putting the object of an entity without a `Position` into a stack, and giving the entity
/// the `Position` of the cell, leaves the world and the map in agreement.
pub proof fn lemma_put_keeps(
    before: State,
    entities: Map<Entity, Parts>,
    position: Vector,
    height: int,
    object: Object,
)
    requires
        consistent(before),
        before.entities.dom().contains(object.entity),
        before.entities[object.entity].position is None,
        before.map.in_bounds(position),
        0 <= height <= before.map.cell(position).len(),
        replaced(before.entities, entities, object.entity, position),
    ensures
        consistent(State { entities, map: placed_map(before.map, position, height, object) }),
{
    let after = State { entities, map: placed_map(before.map, position, height, object) };
    lemma_index_in_range(before.map, position.0 as int, position.1 as int);
    lemma_placing_keeps(before, after, object.entity, position, height);
}

/// Taking the object of an entity off the map, and its `Position` off the entity, or the
/// entity out of the world, leaves the world and the map in agreement.
pub proof fn lemma_take_keeps(before: State, entities: Map<Entity, Parts>, entity: Entity)
    requires
        consistent(before),
        before.entities.dom().contains(entity),
        before.entities[entity].position is Some,
        unplaced(before.entities, entities, entity),
    ensures
        consistent(
            State {
                entities,
                map: taken_map(before.map, before.entities[entity].position->0.vector, entity),
            },
        ),
{
    let position = before.entities[entity].position->0.vector;
    let after = State { entities, map: taken_map(before.map, position, entity) };
    let home = before.map.index_of(position);
    lemma_entity_stands_once(before, entity);
    lemma_index_in_range(before.map, position.0 as int, position.1 as int);
    let old_stack = before.map.cells[home];
    let gone = slot_of(old_stack, entity);
    let new_stack = after.map.cells[home];
    assert(new_stack == old_stack.remove(gone));
    assert forall|index: int, slot: int|
        0 <= index < after.map.cells.len() && 0 <= slot < after.map.cells[index].len() implies {
        let who = (#[trigger] after.map.cells[index][slot]).entity;
        after.entities.dom().contains(who) && after.entities[who].position == Some(
            Position { vector: after.map.point_at(index) },
        ) && who != entity
    } by {
        if index != home {
            assert(after.map.cells[index][slot] == before.map.cells[index][slot]);
        } else if slot < gone {
            assert(new_stack[slot] == before.map.cells[home][slot]);
        } else {
            assert(new_stack[slot] == before.map.cells[home][slot + 1]);
        }
    }
    assert forall|who: Entity|
        after.entities.dom().contains(who) && (#[trigger] after.entities[who]).position is Some implies after.map.in_bounds(
        after.entities[who].position->0.vector,
    ) && stack_holds(after.map.cell(after.entities[who].position->0.vector), who) by {
        assert(who != entity);
        assert(before.entities[who].position == after.entities[who].position);
        let at = before.entities[who].position->0.vector;
        let stack = before.map.cell(at);
        let slot = choose|slot: int| 0 <= slot < stack.len() && (#[trigger] stack[slot]).entity == who;
        lemma_index_in_range(before.map, at.0 as int, at.1 as int);
        if before.map.index_of(at) == home {
            assert(before.map.cells[home][slot].entity == who);
            if slot < gone {
                assert(new_stack[slot] == old_stack[slot]);
            } else {
                assert(slot != gone);
                assert(new_stack[slot - 1] == old_stack[slot]);
            }
        } else {
            assert(after.map.cells[before.map.index_of(at)] == stack);
        }
    }
    assert forall|index: int, slot: int, other: int, place: int|
        0 <= index < after.map.cells.len() && 0 <= slot < after.map.cells[index].len() && 0 <= other
            < after.map.cells.len() && 0 <= place < after.map.cells[other].len() && (
        #[trigger] after.map.cells[index][slot]).entity == (#[trigger] after.map.cells[other][place]).entity
        implies index == other && slot == place by {
        let first = if index == home && slot >= gone {
            slot + 1
        } else {
            slot
        };
        let second = if other == home && place >= gone {
            place + 1
        } else {
            place
        };
        assert(after.map.cells[index][slot] == before.map.cells[index][first]);
        assert(after.map.cells[other][place] == before.map.cells[other][second]);
    }
}

/// Moving an entity that stands on the map to another cell, and giving it the `Position` of
/// that cell, leaves the world and the map in agreement.
pub proof fn lemma_move_keeps(before: State, entities: Map<Entity, Parts>, entity: Entity, to: Vector)
    requires
        consistent(before),
        before.entities.dom().contains(entity),
        before.entities[entity].position is Some,
        before.map.in_bounds(to),
        replaced(before.entities, entities, entity, to),
    ensures
        consistent(State { entities, map: before.map.moved(entity, to) }),
        on_map(before.map.cells, entity),
{
    let from = before.entities[entity].position->0.vector;
    lemma_entity_stands_once(before, entity);
    lemma_index_in_range(before.map, from.0 as int, from.1 as int);
    lemma_index_in_range(before.map, to.0 as int, to.1 as int);
    let home = before.map.index_of(from);
    let slot = slot_of(before.map.cells[home], entity);
    let object = before.map.cells[home][slot];
    let lifted = before.entities.insert(entity, Parts { position: None, ..before.entities[entity] });
    lemma_take_keeps(before, lifted, entity);
    let between = State { entities: lifted, map: taken_map(before.map, from, entity) };
    let stack = between.map.cell(to);
    let height = if slot < stack.len() {
        slot
    } else {
        stack.len() as int
    };
    assert(lifted.dom() =~= before.entities.dom());
    lemma_put_keeps(between, entities, to, height, object);
    assert(placed_map(between.map, to, height, object) == before.map.moved(entity, to));
}

/// A world without objects on its map and without `Position`s agrees with its map.
pub proof fn lemma_empty_is_consistent(state: State)
    requires
        state.map.wf(),
        forall|index: int| 0 <= index < state.map.cells.len() ==> (#[trigger] state.map.cells[index]).len() == 0,
        forall|entity: Entity|
            state.entities.dom().contains(entity) ==> (#[trigger] state.entities[entity]).position is None,
    ensures
        consistent(state),
{
}

/// One command, carried out.
pub proof fn lemma_run_one(state: State, first: CommandView)
    ensures
        apply_all(state, seq![first]) == first.apply(state),
{
    lemma_apply_push(state, Seq::empty(), first);
    assert(Seq::<CommandView>::empty().push(first) =~= seq![first]);
}

/// To move an entity that stands where its `Position` says to another cell of the map
/// leaves the world and the map in agreement.
pub proof fn lemma_relocate_keeps(state: State, entity: Entity, to: Vector)
    requires
        consistent(state),
    ensures
        consistent(CommandView::Relocate(entity, to).apply(state)),
{
    let after = CommandView::Relocate(entity, to).apply(state);
    if on_map(state.map.cells, entity) && state.map.in_bounds(to) {
        let index = choose|index: int|
            0 <= index < state.map.cells.len() && stack_holds(#[trigger] state.map.cells[index], entity);
        let slot = choose|slot: int|
            0 <= slot < state.map.cells[index].len() && (#[trigger] state.map.cells[index][slot]).entity
                == entity;
        assert(state.map.cells[index][slot].entity == entity);
        assert(after.entities.dom() =~= state.entities.dom());
        lemma_move_keeps(state, after.entities, entity, to);
    }
}

/// Entities that are new to a world and made of nothing leave it in agreement with its map,
/// and leave all other entities as they were.
pub proof fn lemma_created_keep(state: State, made: Seq<Entity>)
    requires
        consistent(state),
        all_new(state.entities, made),
    ensures
        consistent(State { entities: with_created(state.entities, made), map: state.map }),
        forall|entity: Entity|
            state.entities.dom().contains(entity) ==> #[trigger] with_created(
                state.entities,
                made,
            ).dom().contains(entity),
        forall|entity: Entity|
            state.entities.dom().contains(entity) ==> #[trigger] with_created(state.entities, made)[entity]
                == state.entities[entity],
        forall|i: int|
            0 <= i < made.len() ==> with_created(state.entities, made).dom().contains(#[trigger] made[i])
                && with_created(state.entities, made)[made[i]].position is None,
        forall|entity: Entity|
            with_created(state.entities, made).dom().contains(entity) ==> state.entities.dom().contains(
                entity,
            ) || made.contains(entity),
    decreases made.len(),
{
    if made.len() > 0 {
        let shorter = made.drop_last();
        assert forall|i: int| 0 <= i < shorter.len() implies !state.entities.dom().contains(
            #[trigger] shorter[i],
        ) by {
            assert(shorter[i] == made[i]);
        }
        lemma_created_keep(state, shorter);
        let before = State { entities: with_created(state.entities, shorter), map: state.map };
        let after = State { entities: with_created(state.entities, made), map: state.map };
        assert(!state.entities.dom().contains(made[made.len() - 1]));
        assert forall|entity: Entity| state.entities.dom().contains(entity) implies #[trigger] after.entities.dom().contains(
            entity,
        ) by {
            assert(before.entities.dom().contains(entity));
        }
        assert forall|entity: Entity| state.entities.dom().contains(entity) implies #[trigger] after.entities[entity]
            == state.entities[entity] by {
            assert(before.entities.dom().contains(entity));
            assert(before.entities[entity] == state.entities[entity]);
        }
        assert(!before.entities.dom().contains(made.last())) by {
            if before.entities.dom().contains(made.last()) {
                assert(shorter.contains(made.last()));
                let at = choose|i: int| 0 <= i < shorter.len() && shorter[i] == made.last();
                assert(made[at] == made[made.len() - 1]);
            }
        }
        assert forall|i: int| 0 <= i < made.len() implies after.entities.dom().contains(#[trigger] made[i])
            && after.entities[made[i]].position is None by {
            if i < shorter.len() {
                assert(shorter[i] == made[i]);
            }
        }
        assert forall|entity: Entity| after.entities.dom().contains(entity) implies state.entities.dom().contains(
            entity,
        ) || made.contains(entity) by {
            if entity == made.last() {
                assert(made[made.len() - 1] == entity);
            } else if shorter.contains(entity) {
                let at = choose|i: int| 0 <= i < shorter.len() && shorter[i] == entity;
                assert(made[at] == entity);
            }
        }
        lemma_unplaced_stands_nowhere(before, made.last());
        assert forall|index: int, slot: int|
            0 <= index < after.map.cells.len() && 0 <= slot < after.map.cells[index].len() implies {
            let entity = (#[trigger] after.map.cells[index][slot]).entity;
            after.entities.dom().contains(entity) && after.entities[entity].position == Some(
                Position { vector: after.map.point_at(index) },
            )
        } by {
            assert(before.map.cells[index][slot].entity != made.last());
        }
        assert forall|entity: Entity|
            after.entities.dom().contains(entity) && (#[trigger] after.entities[entity]).position is Some
            implies after.map.in_bounds(after.entities[entity].position->0.vector) && stack_holds(
            after.map.cell(after.entities[entity].position->0.vector),
            entity,
        ) by {
            assert(entity != made.last());
            assert(before.entities[entity].position is Some);
        }
    }
}

/// A world without an entity that had no place on the map agrees with its map as before.
pub proof fn lemma_unplaced_removal_keeps(state: State, entity: Entity)
    requires
        consistent(state),
        !state.entities.dom().contains(entity) || state.entities[entity].position is None,
    ensures
        consistent(State { entities: state.entities.remove(entity), map: state.map }),
{
    let after = State { entities: state.entities.remove(entity), map: state.map };
    lemma_unplaced_stands_nowhere(state, entity);
    assert forall|index: int, slot: int|
        0 <= index < after.map.cells.len() && 0 <= slot < after.map.cells[index].len() implies {
        let who = (#[trigger] after.map.cells[index][slot]).entity;
        after.entities.dom().contains(who) && after.entities[who].position == Some(
            Position { vector: after.map.point_at(index) },
        )
    } by {
        assert(state.map.cells[index][slot].entity != entity);
    }
    assert forall|who: Entity|
        after.entities.dom().contains(who) && (#[trigger] after.entities[who]).position is Some implies after.map.in_bounds(
        after.entities[who].position->0.vector,
    ) && stack_holds(after.map.cell(after.entities[who].position->0.vector), who) by {
        assert(state.entities[who].position is Some);
    }
}

/// Every command leaves the world and the map in agreement.
pub proof fn lemma_command_keeps(state: State, command: CommandView)
    requires
        consistent(state),
    ensures
        consistent(command.apply(state)),
{
    let after = command.apply(state);
    match command {
        CommandView::Attach(entity, component) => {
            assert(after.entities.dom() =~= state.entities.dom());
            lemma_same_places_keep(state, after.entities);
        },
        CommandView::Detach(entity, kind) => {
            assert(after.entities.dom() =~= state.entities.dom());
            lemma_same_places_keep(state, after.entities);
        },
        CommandView::Destroy(entity) => {
            if state.can_take(entity) {
                lemma_take_keeps(state, after.entities, entity);
            } else {
                lemma_unplaced_removal_keeps(state, entity);
            }
        },
        CommandView::Lift(position) => {
            if state.map.in_bounds(position) && state.map.cell(position).len() > 0 {
                lemma_lifting_keeps(state, position);
            }
        },
        CommandView::Put(position, height, object) => {
            if state.can_put(position, object.entity) {
                let stack = state.map.cell(position);
                let at = if height != TOP && height < stack.len() {
                    height as int
                } else {
                    stack.len() as int
                };
                assert(after.entities.dom() =~= state.entities.dom());
                lemma_put_keeps(state, after.entities, position, at, object);
            }
        },
        CommandView::Take(entity) => {
            if state.can_take(entity) {
                lemma_take_keeps(state, after.entities, entity);
            }
        },
        CommandView::Relocate(entity, position) => {
            lemma_relocate_keeps(state, entity, position);
        },
    }
}

/// To take the top object off a stack, and its entity out of the world, leaves the world
/// and the map in agreement.
pub proof fn lemma_lifting_keeps(state: State, position: Vector)
    requires
        consistent(state),
        state.map.in_bounds(position),
        state.map.cell(position).len() > 0,
    ensures
        consistent(CommandView::Lift(position).apply(state)),
{
    let stack = state.map.cell(position);
    let top = stack.last().entity;
    let home = state.map.index_of(position);
    lemma_index_in_range(state.map, position.0 as int, position.1 as int);
    lemma_point_in_bounds(state.map, home);
    assert(state.map.cells[home][stack.len() - 1].entity == top);
    lemma_entity_stands_once(state, top);
    assert(slot_of(stack, top) == stack.len() - 1);
    assert(stack.remove(stack.len() - 1) =~= stack.drop_last());
    lemma_take_keeps(state, state.entities.remove(top), top);
}

/// Commands leave the world and the map in agreement, however many and whichever they are.
pub proof fn lemma_commands_keep(state: State, commands: Seq<CommandView>)
    requires
        consistent(state),
    ensures
        consistent(apply_all(state, commands)),
    decreases commands.len(),
{
    if commands.len() > 0 {
        lemma_commands_keep(state, commands.drop_last());
        lemma_command_keeps(apply_all(state, commands.drop_last()), commands.last());
    }
}

/// The commands that give `entity` each component of `bundle`.
pub open spec fn attaches(entity: Entity, bundle: Seq<ComponentView>) -> Seq<CommandView> {
    bundle.map_values(|component: ComponentView| CommandView::Attach(entity, component))
}

/// To give an entity components changes that entity only, and no `Position` and nothing on
/// the map.
pub proof fn lemma_attaches_keep_places(state: State, entity: Entity, bundle: Seq<ComponentView>)
    ensures
        apply_all(state, attaches(entity, bundle)).map == state.map,
        same_places(state.entities, apply_all(state, attaches(entity, bundle)).entities),
        forall|other: Entity|
            other != entity ==> #[trigger] apply_all(state, attaches(entity, bundle)).entities[other]
                == state.entities[other],
    decreases bundle.len(),
{
    if bundle.len() > 0 {
        let shorter = bundle.drop_last();
        lemma_attaches_keep_places(state, entity, shorter);
        assert(attaches(entity, bundle).drop_last() =~= attaches(entity, shorter));
        let between = apply_all(state, attaches(entity, shorter));
        let after = apply_all(state, attaches(entity, bundle));
        assert(attaches(entity, bundle).last() == CommandView::Attach(entity, bundle.last()));
        assert(after.entities.dom() =~= between.entities.dom());
    } else {
        assert(apply_all(state, attaches(entity, bundle)).entities.dom() =~= state.entities.dom());
    }
}

/// To give an entity of the world components makes it what it was with the components
/// written into it.
pub proof fn lemma_attaches_dress(state: State, entity: Entity, bundle: Seq<ComponentView>)
    requires
        state.entities.dom().contains(entity),
    ensures
        apply_all(state, attaches(entity, bundle)).entities.dom().contains(entity),
        apply_all(state, attaches(entity, bundle)).entities[entity] == dressed(state.entities[entity], bundle),
    decreases bundle.len(),
{
    if bundle.len() > 0 {
        let shorter = bundle.drop_last();
        lemma_attaches_dress(state, entity, shorter);
        assert(attaches(entity, bundle).drop_last() =~= attaches(entity, shorter));
        assert(attaches(entity, bundle).last() == CommandView::Attach(entity, bundle.last()));
    }
}

/// What an entity is made of once it is brought into being: what it was, with its
/// `Position` at the cell and the components of its bundle written into it.
pub proof fn lemma_spawn_parts(
    state: State,
    entity: Entity,
    position: Vector,
    bundle: Seq<ComponentView>,
    block_fov: bool,
    block_movement: bool,
)
    requires
        state.map.wf(),
        state.can_put(position, entity),
    ensures
        apply_all(
            state,
            spawn_commands(entity, position, bundle, block_fov, block_movement),
        ).entities[entity] == dressed(
            Parts { position: Some(Position { vector: position }), ..state.entities[entity] },
            bundle,
        ),
{
    let object = Object { entity, block_fov, block_movement };
    let put = CommandView::Put(position, TOP, object);
    let given = attaches(entity, bundle);
    let all = spawn_commands(entity, position, bundle, block_fov, block_movement);
    assert(all =~= seq![put] + given);
    lemma_apply_concat(state, seq![put], given);
    lemma_run_one(state, put);
    lemma_attaches_dress(put.apply(state), entity, bundle);
}

/// What bringing an entity into being does, where the entity is in the world without a
/// `Position` and the cell is on the map: its object is then on top of the cell, its
/// `Position` is the cell, and all other entities and cells are as they were.
pub proof fn lemma_spawn_effect(
    state: State,
    entity: Entity,
    position: Vector,
    bundle: Seq<ComponentView>,
    block_fov: bool,
    block_movement: bool,
)
    requires
        state.map.wf(),
        state.can_put(position, entity),
    ensures
        apply_all(
            state,
            spawn_commands(entity, position, bundle, block_fov, block_movement),
        ).entities.dom() == state.entities.dom(),
        apply_all(
            state,
            spawn_commands(entity, position, bundle, block_fov, block_movement),
        ).entities[entity].position == Some(Position { vector: position }),
        forall|other: Entity|
            other != entity ==> #[trigger] apply_all(
                state,
                spawn_commands(entity, position, bundle, block_fov, block_movement),
            ).entities[other] == state.entities[other],
        apply_all(state, spawn_commands(entity, position, bundle, block_fov, block_movement)).map
            == state.map.with_cell(
            state.map.index_of(position),
            state.map.cell(position).push(Object { entity, block_fov, block_movement }),
        ),
{
    let object = Object { entity, block_fov, block_movement };
    let put = CommandView::Put(position, TOP, object);
    let given = attaches(entity, bundle);
    let all = spawn_commands(entity, position, bundle, block_fov, block_movement);
    assert(all =~= seq![put] + given);
    lemma_apply_concat(state, seq![put], given);
    lemma_run_one(state, put);
    let placed = put.apply(state);
    lemma_attaches_keep_places(placed, entity, bundle);
    let after = apply_all(placed, given);
    let stack = state.map.cell(position);
    assert(stack.insert(stack.len() as int, object) =~= stack.push(object));
    assert(placed.entities.dom() =~= state.entities.dom());
    assert(after.entities[entity].position == placed.entities[entity].position);
    assert(after.entities.dom() =~= state.entities.dom());
    assert forall|other: Entity| other != entity implies #[trigger] after.entities[other]
        == state.entities[other] by {
        assert(after.entities[other] == placed.entities[other]);
    }
}

} // verus!
