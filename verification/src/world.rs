use vstd::prelude::*;
use legion::{component, Entity, EntityStore, IntoQuery, World};
use crate::components::actions::grab::Grab;
use crate::components::actions::throw::Throw;
use crate::components::barrier::Barrier;
use crate::components::collision::Collision;
use crate::components::description::{Description, DescriptionView};
use crate::components::displacement::Displacement;
use crate::components::effects::{Effects, EffectsView};
use crate::components::equipment::{Equipment, EquipmentView};
use crate::components::glyph::Glyph;
use crate::components::illumination::Illumination;
use crate::components::light::Light;
use crate::components::memory::Memory;
use crate::components::meta::camera_focus::CameraFocus;
use crate::components::meta::intention::Intention;
use crate::components::opaque::Opaque;
use crate::components::position::Position;
use crate::components::spawn::{Spawn, SpawnDescriptionView};
use crate::components::storage::Storage;
use crate::components::tile::Tile;
use crate::components::velocity::Velocity;
use crate::components::weight::Weight;
use crate::vector::Vector;

verus! {

/// `legion`'s identifier of an entity, of which nothing is seen but whether two are the same.
#[verifier::external_type_specification]
#[verifier::external_body]
pub struct ExEntity(Entity);

/// `legion`'s world, seen through `world_entities` only.
#[verifier::external_type_specification]
#[verifier::external_body]
pub struct ExWorld(World);

/// All that one entity is made of: each kind of component it has, as its view.
pub struct Parts {
    pub position: Option<Position>,
    pub glyph: Option<Glyph>,
    pub description: Option<DescriptionView>,
    pub weight: Option<Weight>,
    pub barrier: Option<Barrier>,
    pub opaque: Option<Opaque>,
    pub tile: Option<Tile>,
    pub collision: Option<Collision>,
    pub camera_focus: Option<CameraFocus>,
    pub light: Option<Light>,
    pub illumination: Option<Seq<(Light, u32)>>,
    pub equipment: Option<EquipmentView>,
    pub storage: Option<Seq<Entity>>,
    pub effects: Option<EffectsView>,
    pub memory: Option<Seq<Vector>>,
    pub velocity: Option<Velocity>,
    pub displacement: Option<Seq<Vector>>,
    pub intention: Option<Intention>,
    pub grab: Option<Grab>,
    pub throw: Option<Throw>,
    pub spawn: Option<Seq<SpawnDescriptionView>>,
}

impl Parts {
    /// An entity that has been made and given nothing yet.
    pub open spec fn empty() -> Parts {
        Parts {
            position: None,
            glyph: None,
            description: None,
            weight: None,
            barrier: None,
            opaque: None,
            tile: None,
            collision: None,
            camera_focus: None,
            light: None,
            illumination: None,
            equipment: None,
            storage: None,
            effects: None,
            memory: None,
            velocity: None,
            displacement: None,
            intention: None,
            grab: None,
            throw: None,
            spawn: None,
        }
    }
}

/// A kind of component: where `Parts` keeps it.
pub trait Part: View + Sized {
    /// The component of this kind among `parts`.
    spec fn read(parts: Parts) -> Option<Self::V>;

    /// `parts` with the component of this kind set to `value`, and all others as they were.
    spec fn write(parts: Parts, value: Option<Self::V>) -> Parts;
}

impl Part for Position {
    open spec fn read(parts: Parts) -> Option<Position> {
        parts.position
    }

    open spec fn write(parts: Parts, value: Option<Position>) -> Parts {
        Parts { position: value, ..parts }
    }
}

impl Part for Glyph {
    open spec fn read(parts: Parts) -> Option<Glyph> {
        parts.glyph
    }

    open spec fn write(parts: Parts, value: Option<Glyph>) -> Parts {
        Parts { glyph: value, ..parts }
    }
}

impl Part for Description {
    open spec fn read(parts: Parts) -> Option<DescriptionView> {
        parts.description
    }

    open spec fn write(parts: Parts, value: Option<DescriptionView>) -> Parts {
        Parts { description: value, ..parts }
    }
}

impl Part for Weight {
    open spec fn read(parts: Parts) -> Option<Weight> {
        parts.weight
    }

    open spec fn write(parts: Parts, value: Option<Weight>) -> Parts {
        Parts { weight: value, ..parts }
    }
}

impl Part for Barrier {
    open spec fn read(parts: Parts) -> Option<Barrier> {
        parts.barrier
    }

    open spec fn write(parts: Parts, value: Option<Barrier>) -> Parts {
        Parts { barrier: value, ..parts }
    }
}

impl Part for Opaque {
    open spec fn read(parts: Parts) -> Option<Opaque> {
        parts.opaque
    }

    open spec fn write(parts: Parts, value: Option<Opaque>) -> Parts {
        Parts { opaque: value, ..parts }
    }
}

impl Part for Tile {
    open spec fn read(parts: Parts) -> Option<Tile> {
        parts.tile
    }

    open spec fn write(parts: Parts, value: Option<Tile>) -> Parts {
        Parts { tile: value, ..parts }
    }
}

impl Part for Collision {
    open spec fn read(parts: Parts) -> Option<Collision> {
        parts.collision
    }

    open spec fn write(parts: Parts, value: Option<Collision>) -> Parts {
        Parts { collision: value, ..parts }
    }
}

impl Part for CameraFocus {
    open spec fn read(parts: Parts) -> Option<CameraFocus> {
        parts.camera_focus
    }

    open spec fn write(parts: Parts, value: Option<CameraFocus>) -> Parts {
        Parts { camera_focus: value, ..parts }
    }
}

impl Part for Light {
    open spec fn read(parts: Parts) -> Option<Light> {
        parts.light
    }

    open spec fn write(parts: Parts, value: Option<Light>) -> Parts {
        Parts { light: value, ..parts }
    }
}

impl Part for Illumination {
    open spec fn read(parts: Parts) -> Option<Seq<(Light, u32)>> {
        parts.illumination
    }

    open spec fn write(parts: Parts, value: Option<Seq<(Light, u32)>>) -> Parts {
        Parts { illumination: value, ..parts }
    }
}

impl Part for Equipment {
    open spec fn read(parts: Parts) -> Option<EquipmentView> {
        parts.equipment
    }

    open spec fn write(parts: Parts, value: Option<EquipmentView>) -> Parts {
        Parts { equipment: value, ..parts }
    }
}

impl Part for Storage {
    open spec fn read(parts: Parts) -> Option<Seq<Entity>> {
        parts.storage
    }

    open spec fn write(parts: Parts, value: Option<Seq<Entity>>) -> Parts {
        Parts { storage: value, ..parts }
    }
}

impl Part for Effects {
    open spec fn read(parts: Parts) -> Option<EffectsView> {
        parts.effects
    }

    open spec fn write(parts: Parts, value: Option<EffectsView>) -> Parts {
        Parts { effects: value, ..parts }
    }
}

impl Part for Memory {
    open spec fn read(parts: Parts) -> Option<Seq<Vector>> {
        parts.memory
    }

    open spec fn write(parts: Parts, value: Option<Seq<Vector>>) -> Parts {
        Parts { memory: value, ..parts }
    }
}

impl Part for Velocity {
    open spec fn read(parts: Parts) -> Option<Velocity> {
        parts.velocity
    }

    open spec fn write(parts: Parts, value: Option<Velocity>) -> Parts {
        Parts { velocity: value, ..parts }
    }
}

impl Part for Displacement {
    open spec fn read(parts: Parts) -> Option<Seq<Vector>> {
        parts.displacement
    }

    open spec fn write(parts: Parts, value: Option<Seq<Vector>>) -> Parts {
        Parts { displacement: value, ..parts }
    }
}

impl Part for Intention {
    open spec fn read(parts: Parts) -> Option<Intention> {
        parts.intention
    }

    open spec fn write(parts: Parts, value: Option<Intention>) -> Parts {
        Parts { intention: value, ..parts }
    }
}

impl Part for Grab {
    open spec fn read(parts: Parts) -> Option<Grab> {
        parts.grab
    }

    open spec fn write(parts: Parts, value: Option<Grab>) -> Parts {
        Parts { grab: value, ..parts }
    }
}

impl Part for Throw {
    open spec fn read(parts: Parts) -> Option<Throw> {
        parts.throw
    }

    open spec fn write(parts: Parts, value: Option<Throw>) -> Parts {
        Parts { throw: value, ..parts }
    }
}

impl Part for Spawn {
    open spec fn read(parts: Parts) -> Option<Seq<SpawnDescriptionView>> {
        parts.spawn
    }

    open spec fn write(parts: Parts, value: Option<Seq<SpawnDescriptionView>>) -> Parts {
        Parts { spawn: value, ..parts }
    }
}

/// The entities of a world, each with what it is made of. Components of kinds that `Parts`
/// does not list are left out.
pub uninterp spec fn world_entities(world: World) -> Map<Entity, Parts>;

/// Whether `entity` is in `world`.
pub open spec fn is_alive(world: World, entity: Entity) -> bool {
    world_entities(world).dom().contains(entity)
}

/// What `entity` is made of in `world`.
pub open spec fn parts_of(world: World, entity: Entity) -> Parts {
    world_entities(world)[entity]
}

/// `Entity`'s `==`: two identifiers are equal exactly when they are the same identifier.
#[verifier::external_body]
pub(crate) fn same_entity(a: Entity, b: Entity) -> (same: bool)
    ensures
        same == (a == b),
{
    a == b
}

/// No entities at all.
pub open spec fn no_entities() -> Map<Entity, Parts> {
    Map::empty()
}

/// `World::default`: a world without entities.
#[verifier::external_body]
pub(crate) fn empty_world() -> (world: World)
    ensures
        world_entities(world) == no_entities(),
{
    World::default()
}

/// `World::contains`: whether the world holds the entity.
#[verifier::external_body]
pub(crate) fn alive(world: &World, entity: Entity) -> (held: bool)
    ensures
        held == is_alive(*world, entity),
{
    world.contains(entity)
}

/// `World::push` with no components: a new entity that was not in the world before, and has
/// nothing. All other entities stay as they are.
#[verifier::external_body]
pub(crate) fn create(world: &mut World) -> (entity: Entity)
    ensures
        !is_alive(*old(world), entity),
        world_entities(*final(world)) == world_entities(*old(world)).insert(entity, Parts::empty()),
{
    world.push(())
}

/// `World::remove`: takes the entity and all its components out, and says whether it was
/// there. All other entities stay as they are.
#[verifier::external_body]
pub(crate) fn destroy(world: &mut World, entity: Entity) -> (removed: bool)
    ensures
        removed == is_alive(*old(world), entity),
        world_entities(*final(world)) == world_entities(*old(world)).remove(entity),
{
    world.remove(entity)
}

/// `EntityStore::entry_ref` and `EntryRef::get_component`, then `clone`: a copy of the
/// entity's component of kind `T`; `None` where the entity is not in the world or has none.
#[verifier::external_body]
pub(crate) fn fetch<T: Part + Clone + Send + Sync + 'static>(world: &World, entity: Entity) -> (found: Option<T>)
    ensures
        (found is Some) == (is_alive(*world, entity) && T::read(parts_of(*world, entity)) is Some),
        found matches Some(value) ==> T::read(parts_of(*world, entity)) == Some(value@),
{
    match world.entry_ref(entity) {
        Ok(entry) => match entry.get_component::<T>() {
            Ok(value) => Some(value.clone()),
            Err(_) => None,
        },
        Err(_) => None,
    }
}

/// `World::entry` and `Entry::add_component`: gives the entity the component, in place of
/// one of the same kind that it had. Nothing else changes; a world without the entity stays
/// as it is.
#[verifier::external_body]
pub(crate) fn attach<T: Part + Send + Sync + 'static>(world: &mut World, entity: Entity, value: T)
    ensures
        world_entities(*final(world)) == (if is_alive(*old(world), entity) {
            world_entities(*old(world)).insert(
                entity,
                T::write(parts_of(*old(world), entity), Some(value@)),
            )
        } else {
            world_entities(*old(world))
        }),
{
    if let Some(mut entry) = world.entry(entity) {
        entry.add_component(value);
    }
}

/// `World::entry` and `Entry::remove_component`: takes the entity's component of kind `T`
/// away, if it has one. Nothing else changes; a world without the entity stays as it is.
#[verifier::external_body]
pub(crate) fn detach<T: Part + Send + Sync + 'static>(world: &mut World, entity: Entity)
    ensures
        world_entities(*final(world)) == (if is_alive(*old(world), entity) {
            world_entities(*old(world)).insert(entity, T::write(parts_of(*old(world), entity), None))
        } else {
            world_entities(*old(world))
        }),
{
    if let Some(mut entry) = world.entry(entity) {
        entry.remove_component::<T>();
    }
}

/// A query for `Entity` filtered by `component::<T>()`, walked once: the entities that have
/// a component of kind `T`, each once. Their order is the world's own and is not claimed.
#[verifier::external_body]
pub(crate) fn entities_with<T: Part + Send + Sync + 'static>(world: &World) -> (found: Vec<Entity>)
    ensures
        found@.no_duplicates(),
        forall|entity: Entity|
            #[trigger] found@.contains(entity) == (is_alive(*world, entity) && T::read(parts_of(*world, entity)) is Some),
{
    <Entity>::query().filter(component::<T>()).iter(world).copied().collect()
}

} // verus!
