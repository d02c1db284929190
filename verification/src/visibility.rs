use vstd::prelude::*;
use legion::{Entity, World};
use crate::components::illumination::Illumination;
use crate::components::light::Light;
use crate::components::memory::Memory;
use crate::components::position::Position;
use crate::consistency::same_places;
use crate::map::{MapBase, MapView};
use crate::systems::{same_memories, Fault};
use crate::vector::{distance_between, Vector};
use crate::world::{alive, attach, detach, entities_with, fetch, is_alive, parts_of, world_entities, Parts};

verus! {

/// The entity on top of the cell at `point`; `None` off the map and where the cell is empty.
pub open spec fn top_at(map: MapView, point: Vector) -> Option<Entity> {
    if map.in_bounds(point) && map.cell(point).len() > 0 {
        Some(map.cell(point).last().entity)
    } else {
        None
    }
}

/// The entity on top of the cell at `point`; `None` off the map and where the cell is empty.
pub fn top_entity(map: &MapBase, point: Vector) -> (top: Option<Entity>)
    ensures
        top == top_at(map@, point),
{
    match map.get_objects(point) {
        Some(stack) => {
            if stack.len() > 0 {
                Some(stack[stack.len() - 1].entity)
            } else {
                None
            }
        },
        None => None,
    }
}

/// Whether what is on top of each of `points` is in the world.
pub open spec fn tops_alive(entities: Map<Entity, Parts>, map: MapView, points: Seq<Vector>) -> bool {
    forall|i: int|
        0 <= i < points.len() ==> (#[trigger] top_at(map, points[i]) matches Some(top)
            ==> entities.dom().contains(top))
}

/// Whether what is on top of each of `points` is in the world.
pub fn check_tops(world: &World, map: &MapBase, points: &Vec<Vector>) -> (sound: bool)
    ensures
        sound == tops_alive(world_entities(*world), map@, points@),
{
    let mut next: usize = 0;
    while next < points.len()
        invariant
            next <= points@.len(),
            tops_alive(world_entities(*world), map@, points@.take(next as int)),
        decreases points@.len() - next,
    {
        if let Some(top) = top_entity(map, points[next]) {
            if !alive(world, top) {
                assert(top_at(map@, points@[next as int]) == Some(top));
                return false;
            }
        }
        assert forall|i: int| 0 <= i < next + 1 implies (#[trigger] top_at(
            map@,
            points@.take(next + 1)[i],
        ) matches Some(top) ==> world_entities(*world).dom().contains(top)) by {
            if i < next {
                assert(points@.take(next as int)[i] == points@[i]);
            }
        }
        next += 1;
    }
    assert(points@.take(next as int) =~= points@);
    true
}

/// The lights that stand on top of `positions`, each with the place where it stands, in the
/// order of `positions`. What is on top of a cell is in the world, and a light has a
/// `Position`; else the world is at fault, and the first such place decides how.
pub open spec fn lights_at(entities: Map<Entity, Parts>, map: MapView, positions: Seq<Vector>) -> Result<
    Seq<(Vector, Light)>,
    Fault,
>
    decreases positions.len(),
{
    if positions.len() == 0 {
        Ok(Seq::empty())
    } else {
        match lights_at(entities, map, positions.drop_last()) {
            Err(fault) => Err(fault),
            Ok(before) => match top_at(map, positions.last()) {
                None => Ok(before),
                Some(top) => if !entities.dom().contains(top) {
                    Err(Fault::MissingEntity)
                } else if entities[top].light is None {
                    Ok(before)
                } else if entities[top].position is None {
                    Err(Fault::MissingComponent)
                } else {
                    Ok(before.push((entities[top].position->0.vector, entities[top].light->0)))
                },
            },
        }
    }
}

proof fn lemma_lights_fault(entities: Map<Entity, Parts>, map: MapView, positions: Seq<Vector>, count: int)
    requires
        0 <= count <= positions.len(),
        lights_at(entities, map, positions.take(count)) is Err,
    ensures
        lights_at(entities, map, positions) == lights_at(entities, map, positions.take(count)),
    decreases positions.len() - count,
{
    if count == positions.len() {
        assert(positions.take(count) =~= positions);
    } else {
        assert(positions.take(count + 1).drop_last() =~= positions.take(count));
        lemma_lights_fault(entities, map, positions, count + 1);
    }
}

/// Finds the lights that stand on top of `positions`.
pub fn find_lights(world: &World, map: &MapBase, positions: &Vec<Vector>) -> (sources: Result<
    Vec<(Vector, Light)>,
    Fault,
>)
    ensures
        match lights_at(world_entities(*world), map@, positions@) {
            Ok(lights) => sources matches Ok(found) && found@ == lights,
            Err(fault) => sources == Err::<Vec<(Vector, Light)>, Fault>(fault),
        },
{
    let mut found: Vec<(Vector, Light)> = Vec::new();
    let mut next: usize = 0;
    let ghost entities = world_entities(*world);
    while next < positions.len()
        invariant
            next <= positions@.len(),
            entities == world_entities(*world),
            lights_at(entities, map@, positions@.take(next as int)) == Ok::<Seq<(Vector, Light)>, Fault>(
                found@,
            ),
        decreases positions@.len() - next,
    {
        proof {
            assert(positions@.take(next + 1).drop_last() =~= positions@.take(next as int));
        }
        if let Some(top) = top_entity(map, positions[next]) {
            if !alive(world, top) {
                proof {
                    lemma_lights_fault(entities, map@, positions@, next + 1);
                }
                return Err(Fault::MissingEntity);
            }
            if let Some(light) = fetch::<Light>(world, top) {
                match fetch::<Position>(world, top) {
                    Some(position) => {
                        found.push((position.vector, light));
                    },
                    None => {
                        proof {
                            lemma_lights_fault(entities, map@, positions@, next + 1);
                        }
                        return Err(Fault::MissingComponent);
                    },
                }
            }
        }
        next += 1;
    }
    assert(positions@.take(next as int) =~= positions@);
    Ok(found)
}

/// `entities` after one more source of light has fallen on `entity`.
pub open spec fn lit(entities: Map<Entity, Parts>, entity: Entity, source: (Light, u32)) -> Map<
    Entity,
    Parts,
> {
    entities.insert(
        entity,
        Parts {
            illumination: Some(
                match entities[entity].illumination {
                    Some(sources) => sources.push(source),
                    None => seq![source],
                },
            ),
            ..entities[entity]
        },
    )
}

/// `entities` after `light`, standing at `origin`, has fallen on what is on top of each of
/// `points`, in their order. A point that is off the map or whose cell is empty gets none,
/// and neither does a top that is not in the world.
pub open spec fn shone(
    entities: Map<Entity, Parts>,
    map: MapView,
    origin: Vector,
    light: Light,
    points: Seq<Vector>,
) -> Map<Entity, Parts>
    decreases points.len(),
{
    if points.len() == 0 {
        entities
    } else {
        let before = shone(entities, map, origin, light, points.drop_last());
        match top_at(map, points.last()) {
            Some(top) if before.dom().contains(top) => lit(
                before,
                top,
                (light, distance_between(origin, points.last())),
            ),
            _ => before,
        }
    }
}

/// Light does not bring entities into the world or take them out of it.
pub proof fn lemma_shone_keeps_entities(
    entities: Map<Entity, Parts>,
    map: MapView,
    origin: Vector,
    light: Light,
    points: Seq<Vector>,
)
    ensures
        shone(entities, map, origin, light, points).dom() == entities.dom(),
    decreases points.len(),
{
    if points.len() > 0 {
        lemma_shone_keeps_entities(entities, map, origin, light, points.drop_last());
        let before = shone(entities, map, origin, light, points.drop_last());
        assert(shone(entities, map, origin, light, points).dom() =~= before.dom());
    }
}

/// Light falls on the tops of the cells it reaches, and on nothing else: an entity whose
/// list of light has changed is what is on top of one of `points`. And a list only grows.
pub proof fn lemma_light_falls_on_tops(
    entities: Map<Entity, Parts>,
    map: MapView,
    origin: Vector,
    light: Light,
    points: Seq<Vector>,
    entity: Entity,
)
    requires
        entities.dom().contains(entity),
    ensures
        shone(entities, map, origin, light, points)[entity].illumination != entities[entity].illumination
            ==> exists|i: int| 0 <= i < points.len() && #[trigger] top_at(map, points[i]) == Some(entity),
        entities[entity].illumination is Some ==> shone(
            entities,
            map,
            origin,
            light,
            points,
        )[entity].illumination is Some,
        shone(entities, map, origin, light, points)[entity] == (Parts {
            illumination: shone(entities, map, origin, light, points)[entity].illumination,
            ..entities[entity]
        }),
    decreases points.len(),
{
    if points.len() > 0 {
        let shorter = points.drop_last();
        lemma_light_falls_on_tops(entities, map, origin, light, shorter, entity);
        lemma_shone_keeps_entities(entities, map, origin, light, shorter);
        let before = shone(entities, map, origin, light, shorter);
        if before[entity].illumination != entities[entity].illumination {
            let at = choose|i: int| 0 <= i < shorter.len() && #[trigger] top_at(map, shorter[i]) == Some(entity);
            assert(top_at(map, points[at]) == Some(entity));
        } else if shone(entities, map, origin, light, points)[entity].illumination
            != entities[entity].illumination {
            assert(top_at(map, points[points.len() - 1]) == Some(entity));
        }
    }
}

/// In a world that was dark, light is only where some light has fallen: on what is on top
/// of a cell that one of the lights reaches.
pub proof fn lemma_lit_only_where_reached(
    entities: Map<Entity, Parts>,
    map: MapView,
    sources: Seq<(Vector, Light)>,
    fields: Seq<Vec<Vector>>,
    count: nat,
    entity: Entity,
)
    requires
        entities.dom().contains(entity),
        entities[entity].illumination is None,
        count <= sources.len(),
    ensures
        illuminated(entities, map, sources, fields, count).dom() == entities.dom(),
        illuminated(entities, map, sources, fields, count)[entity].illumination is Some ==> exists|
            which: int,
            i: int,
        |
            0 <= which < count && 0 <= i < field_of(fields, which).len() && #[trigger] top_at(
                map,
                field_of(fields, which)[i],
            ) == Some(entity),
    decreases count,
{
    if count > 0 {
        let before = illuminated(entities, map, sources, fields, (count - 1) as nat);
        lemma_lit_only_where_reached(entities, map, sources, fields, (count - 1) as nat, entity);
        let field = field_of(fields, count - 1);
        lemma_shone_keeps_entities(before, map, sources[count - 1].0, sources[count - 1].1, field);
        lemma_light_falls_on_tops(before, map, sources[count - 1].0, sources[count - 1].1, field, entity);
        let after = illuminated(entities, map, sources, fields, count);
        if after[entity].illumination is Some {
            if before[entity].illumination is Some {
                let (which, i) = choose|which: int, i: int|
                    0 <= which < count - 1 && 0 <= i < field_of(fields, which).len() && #[trigger] top_at(
                        map,
                        field_of(fields, which)[i],
                    ) == Some(entity);
                assert(top_at(map, field_of(fields, which)[i]) == Some(entity));
            } else {
                let i = choose|i: int| 0 <= i < field.len() && #[trigger] top_at(map, field[i]) == Some(entity);
                assert(top_at(map, field_of(fields, count - 1)[i]) == Some(entity));
            }
        }
    }
}

/// After the light has been taken off, no entity has any, and nothing else has changed.
pub proof fn lemma_darkened_is_dark(entities: Map<Entity, Parts>, entity: Entity)
    requires
        entities.dom().contains(entity),
    ensures
        darkened(entities).dom() == entities.dom(),
        darkened(entities)[entity].illumination is None,
        darkened(entities)[entity] == (Parts { illumination: None, ..entities[entity] }),
{
    assert(darkened(entities).dom() =~= entities.dom());
}

/// Light changes no `Position`.
pub proof fn lemma_shone_keeps_places(
    entities: Map<Entity, Parts>,
    map: MapView,
    origin: Vector,
    light: Light,
    points: Seq<Vector>,
)
    ensures
        same_places(entities, shone(entities, map, origin, light, points)),
{
    lemma_shone_keeps_entities(entities, map, origin, light, points);
    assert forall|entity: Entity| entities.dom().contains(entity) implies (#[trigger] entities[entity]).position
        == shone(entities, map, origin, light, points)[entity].position by {
        lemma_light_falls_on_tops(entities, map, origin, light, points, entity);
    }
}

/// The light of many sources changes no `Position`.
pub proof fn lemma_illuminated_keeps_places(
    entities: Map<Entity, Parts>,
    map: MapView,
    sources: Seq<(Vector, Light)>,
    fields: Seq<Vec<Vector>>,
    count: nat,
)
    ensures
        same_places(entities, illuminated(entities, map, sources, fields, count)),
    decreases count,
{
    if count > 0 {
        lemma_illuminated_keeps_places(entities, map, sources, fields, (count - 1) as nat);
        let before = illuminated(entities, map, sources, fields, (count - 1) as nat);
        lemma_shone_keeps_places(
            before,
            map,
            sources[count - 1].0,
            sources[count - 1].1,
            field_of(fields, count - 1),
        );
        let after = illuminated(entities, map, sources, fields, count);
        assert forall|entity: Entity| entities.dom().contains(entity) implies (#[trigger] entities[entity]).position
            == after[entity].position by {
            assert(before[entity].position == after[entity].position);
        }
    }
}

/// Light makes no observer forget, and takes no entity out of the world.
pub proof fn lemma_illuminated_keeps_memories(
    entities: Map<Entity, Parts>,
    map: MapView,
    sources: Seq<(Vector, Light)>,
    fields: Seq<Vec<Vector>>,
    count: nat,
)
    ensures
        same_memories(entities, illuminated(entities, map, sources, fields, count)),
    decreases count,
{
    if count > 0 {
        lemma_illuminated_keeps_memories(entities, map, sources, fields, (count - 1) as nat);
        let before = illuminated(entities, map, sources, fields, (count - 1) as nat);
        let after = illuminated(entities, map, sources, fields, count);
        lemma_shone_keeps_entities(
            before,
            map,
            sources[count - 1].0,
            sources[count - 1].1,
            field_of(fields, count - 1),
        );
        assert forall|entity: Entity| #[trigger] entities.dom().contains(entity) implies after.dom().contains(
            entity,
        ) && after[entity].memory == entities[entity].memory by {
            assert(before.dom().contains(entity));
            lemma_light_falls_on_tops(
                before,
                map,
                sources[count - 1].0,
                sources[count - 1].1,
                field_of(fields, count - 1),
                entity,
            );
        }
    }
}

/// Taking the light off changes no `Position`.
pub proof fn lemma_darkened_keeps_places(entities: Map<Entity, Parts>)
    ensures
        same_places(entities, darkened(entities)),
{
    assert(darkened(entities).dom() =~= entities.dom());
}

/// Lets `light`, standing at `origin`, fall on what is on top of each of `points`: each
/// gets the light and its distance from `origin`, rounded down, at the end of its list.
pub fn shine(world: &mut World, map: &MapBase, origin: Vector, light: Light, points: &Vec<Vector>)
    ensures
        world_entities(*final(world)) == shone(world_entities(*old(world)), map@, origin, light, points@),
{
    let ghost before = world_entities(*world);
    let mut next: usize = 0;
    while next < points.len()
        invariant
            next <= points@.len(),
            world_entities(*world) == shone(before, map@, origin, light, points@.take(next as int)),
        decreases points@.len() - next,
    {
        proof {
            assert(points@.take(next + 1).drop_last() =~= points@.take(next as int));
        }
        let point = points[next];
        if let Some(top) = top_entity(map, point) {
            if alive(world, top) {
                let source = (light, origin.distance(point));
                let mut sources = match fetch::<Illumination>(world, top) {
                    Some(illumination) => illumination.sources,
                    None => Vec::new(),
                };
                sources.push(source);
                attach::<Illumination>(world, top, Illumination { sources });
                assert(world_entities(*world) =~= shone(before, map@, origin, light, points@.take(next + 1)));
            }
        }
        next += 1;
    }
    assert(points@.take(next as int) =~= points@);
}

/// The points that the light at `index` falls on; none where `fields` has no such entry.
pub open spec fn field_of(fields: Seq<Vec<Vector>>, index: int) -> Seq<Vector> {
    if 0 <= index < fields.len() {
        fields[index]@
    } else {
        Seq::empty()
    }
}

/// `entities` after each of the first `count` of `sources` has fallen on its field.
pub open spec fn illuminated(
    entities: Map<Entity, Parts>,
    map: MapView,
    sources: Seq<(Vector, Light)>,
    fields: Seq<Vec<Vector>>,
    count: nat,
) -> Map<Entity, Parts>
    decreases count,
{
    if count == 0 {
        entities
    } else {
        shone(
            illuminated(entities, map, sources, fields, (count - 1) as nat),
            map,
            sources[count - 1].0,
            sources[count - 1].1,
            field_of(fields, count - 1),
        )
    }
}

/// Lets each of `sources` fall on its field: `fields[i]` are the points that the light
/// `sources[i]` reaches.
pub fn illuminate(
    world: &mut World,
    map: &MapBase,
    sources: &Vec<(Vector, Light)>,
    fields: &Vec<Vec<Vector>>,
)
    ensures
        world_entities(*final(world)) == illuminated(
            world_entities(*old(world)),
            map@,
            sources@,
            fields@,
            sources@.len(),
        ),
{
    let ghost before = world_entities(*world);
    let mut next: usize = 0;
    let nothing: Vec<Vector> = Vec::new();
    while next < sources.len()
        invariant
            next <= sources@.len(),
            nothing@.len() == 0,
            world_entities(*world) == illuminated(before, map@, sources@, fields@, next as nat),
        decreases sources@.len() - next,
    {
        let field = if next < fields.len() {
            &fields[next]
        } else {
            &nothing
        };
        assert(field@ =~= field_of(fields@, next as int));
        shine(world, map, sources[next].0, sources[next].1, field);
        next += 1;
    }
}

/// `entities` with no light on any of them.
pub open spec fn darkened(entities: Map<Entity, Parts>) -> Map<Entity, Parts> {
    Map::new(
        |entity: Entity| entities.dom().contains(entity),
        |entity: Entity| Parts { illumination: None, ..entities[entity] },
    )
}

/// Takes the light off every entity. Nothing else changes.
pub fn clear_illumination(world: &mut World)
    ensures
        world_entities(*final(world)) == darkened(world_entities(*old(world))),
        forall|entity: Entity|
            is_alive(*final(world), entity) ==> (#[trigger] parts_of(*final(world), entity)).illumination is None,
{
    let ghost before = world_entities(*world);
    let lit = entities_with::<Illumination>(world);
    let mut next: usize = 0;
    while next < lit.len()
        invariant
            next <= lit@.len(),
            forall|entity: Entity|
                #[trigger] lit@.contains(entity) == (before.dom().contains(entity)
                    && before[entity].illumination is Some),
            world_entities(*world).dom() == before.dom(),
            forall|entity: Entity|
                before.dom().contains(entity) ==> #[trigger] world_entities(*world)[entity] == (if lit@.take(
                    next as int,
                ).contains(entity) {
                    Parts { illumination: None, ..before[entity] }
                } else {
                    before[entity]
                }),
        decreases lit@.len() - next,
    {
        let ghost current = world_entities(*world);
        assert(lit@.contains(lit@[next as int]));
        detach::<Illumination>(world, lit[next]);
        proof {
            assert(world_entities(*world).dom() =~= before.dom());
            assert forall|entity: Entity| before.dom().contains(entity) implies #[trigger] world_entities(
                *world,
            )[entity] == (if lit@.take(next + 1).contains(entity) {
                Parts { illumination: None, ..before[entity] }
            } else {
                before[entity]
            }) by {
                let earlier = lit@.take(next as int);
                let later = lit@.take(next + 1);
                if entity == lit@[next as int] {
                    assert(later[next as int] == entity);
                } else {
                    if earlier.contains(entity) {
                        let at = choose|i: int| 0 <= i < earlier.len() && earlier[i] == entity;
                        assert(later[at] == entity);
                    }
                    if later.contains(entity) {
                        let at = choose|i: int| 0 <= i < later.len() && later[i] == entity;
                        assert(earlier[at] == entity);
                    }
                }
            }
        }
        next += 1;
    }
    proof {
        assert(lit@.take(next as int) =~= lit@);
        assert(world_entities(*world) =~= darkened(before));
    }
}

/// What an observer remembers after having seen `seen`: what it remembered before, and then
/// each of `seen` that it did not remember yet, in their order.
pub open spec fn remembered(memory: Seq<Vector>, seen: Seq<Vector>) -> Seq<Vector>
    decreases seen.len(),
{
    if seen.len() == 0 {
        memory
    } else {
        let before = remembered(memory, seen.drop_last());
        if before.contains(seen.last()) {
            before
        } else {
            before.push(seen.last())
        }
    }
}

/// Whether `point` is among `points`.
pub fn holds_point(points: &Vec<Vector>, point: Vector) -> (held: bool)
    ensures
        held == points@.contains(point),
{
    let mut next: usize = 0;
    while next < points.len()
        invariant
            next <= points@.len(),
            forall|i: int| 0 <= i < next ==> points@[i] != point,
        decreases points@.len() - next,
    {
        if points[next] == point {
            return true;
        }
        next += 1;
    }
    false
}

/// Adds to `memory` each of `seen` that is not in it yet.
pub fn remember(memory: &mut Memory, seen: &Vec<Vector>)
    ensures
        final(memory)@ == remembered(old(memory)@, seen@),
{
    let mut next: usize = 0;
    while next < seen.len()
        invariant
            next <= seen@.len(),
            memory@ == remembered(old(memory)@, seen@.take(next as int)),
        decreases seen@.len() - next,
    {
        proof {
            assert(seen@.take(next + 1).drop_last() =~= seen@.take(next as int));
        }
        if !holds_point(&memory.spatial, seen[next]) {
            memory.spatial.push(seen[next]);
        }
        next += 1;
    }
    assert(seen@.take(next as int) =~= seen@);
}

/// Memory only grows: what was remembered stays, at its place, and all that was seen is
/// remembered after. Where nothing was remembered twice before, nothing is after.
pub proof fn lemma_memory_grows(memory: Seq<Vector>, seen: Seq<Vector>)
    ensures
        memory.len() <= remembered(memory, seen).len(),
        remembered(memory, seen).take(memory.len() as int) == memory,
        forall|i: int| 0 <= i < seen.len() ==> remembered(memory, seen).contains(#[trigger] seen[i]),
        forall|point: Vector|
            #[trigger] remembered(memory, seen).contains(point) ==> memory.contains(point) || seen.contains(
                point,
            ),
        memory.no_duplicates() ==> remembered(memory, seen).no_duplicates(),
    decreases seen.len(),
{
    let after = remembered(memory, seen);
    if seen.len() == 0 {
        assert(after.take(memory.len() as int) =~= memory);
    } else {
        let before = remembered(memory, seen.drop_last());
        lemma_memory_grows(memory, seen.drop_last());
        assert(after.take(memory.len() as int) =~= before.take(memory.len() as int));
        assert forall|i: int| 0 <= i < seen.len() implies after.contains(#[trigger] seen[i]) by {
            if i < seen.len() - 1 {
                assert(seen.drop_last()[i] == seen[i]);
                let at = choose|k: int| 0 <= k < before.len() && before[k] == seen[i];
                assert(0 <= at < after.len());
                assert(after[at] == seen[i]);
            } else if before.contains(seen.last()) {
            } else {
                assert(after[before.len() as int] == seen.last());
            }
        }
        assert forall|point: Vector| #[trigger] after.contains(point) implies memory.contains(point)
            || seen.contains(point) by {
            let at = choose|k: int| 0 <= k < after.len() && after[k] == point;
            if at < before.len() {
                assert(before[at] == point);
                assert(before.contains(point));
                if seen.drop_last().contains(point) {
                    let shorter = seen.drop_last();
                    let from = choose|k: int| 0 <= k < shorter.len() && shorter[k] == point;
                    assert(seen[from] == point);
                }
            } else {
                assert(seen[seen.len() - 1] == point);
            }
        }
    }
}

} // verus!
