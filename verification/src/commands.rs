use vstd::prelude::*;
use legion::{Entity, World};
use crate::components::actions::grab::Grab;
use crate::components::actions::throw::Throw;
use crate::components::barrier::Barrier;
use crate::components::collision::Collision;
use crate::components::description::{Description, DescriptionView};
use crate::components::displacement::Displacement;
use crate::components::effects::{Effects, EffectsView};
use crate::components::equipment::{Equipment, EquipmentView};
use crate::components::glyph::Glyph;
use crate::components::illumination::Illumination;
use crate::components::light::Light;
use crate::components::memory::Memory;
use crate::components::meta::camera_focus::CameraFocus;
use crate::components::meta::intention::Intention;
use crate::components::opaque::Opaque;
use crate::components::position::Position;
use crate::components::spawn::{Spawn, SpawnDescriptionView};
use crate::components::storage::Storage;
use crate::components::tile::Tile;
use crate::components::velocity::Velocity;
use crate::components::weight::Weight;
use crate::consistency::{consistent, lemma_commands_keep, lemma_empty_is_consistent};
use crate::map::{
    find_slot, lemma_index_in_range, lemma_slot_unique, on_map, slot_of, stack_holds, MapBase, MapView,
    Object,
};
use crate::vector::Vector;
use crate::world::{
    alive, attach, destroy, detach, empty_world, fetch, no_entities, world_entities, Parts,
};

verus! {

/// A component of any kind.
#[derive(Debug)]
pub enum Component {
    Glyph(Glyph),
    Description(Description),
    Weight(Weight),
    Barrier(Barrier),
    Opaque(Opaque),
    Tile(Tile),
    Collision(Collision),
    CameraFocus(CameraFocus),
    Light(Light),
    Illumination(Illumination),
    Equipment(Equipment),
    Storage(Storage),
    Effects(Effects),
    Memory(Memory),
    Velocity(Velocity),
    Displacement(Displacement),
    Intention(Intention),
    Grab(Grab),
    Throw(Throw),
    Spawn(Spawn),
}

/// A component of any kind, as its view.
pub enum ComponentView {
    Glyph(Glyph),
    Description(DescriptionView),
    Weight(Weight),
    Barrier(Barrier),
    Opaque(Opaque),
    Tile(Tile),
    Collision(Collision),
    CameraFocus(CameraFocus),
    Light(Light),
    Illumination(Seq<(Light, u32)>),
    Equipment(EquipmentView),
    Storage(Seq<Entity>),
    Effects(EffectsView),
    Memory(Seq<Vector>),
    Velocity(Velocity),
    Displacement(Seq<Vector>),
    Intention(Intention),
    Grab(Grab),
    Throw(Throw),
    Spawn(Seq<SpawnDescriptionView>),
}

/// The kinds of component.
#[derive(Debug, Copy, Clone, PartialEq, Eq, Structural)]
pub enum Kind {
    Glyph,
    Description,
    Weight,
    Barrier,
    Opaque,
    Tile,
    Collision,
    CameraFocus,
    Light,
    Illumination,
    Equipment,
    Storage,
    Effects,
    Memory,
    Velocity,
    Displacement,
    Intention,
    Grab,
    Throw,
    Spawn,
}

impl View for Component {
    type V = ComponentView;

    open spec fn view(&self) -> ComponentView {
        match *self {
            Component::Glyph(value) => ComponentView::Glyph(value@),
            Component::Description(value) => ComponentView::Description(value@),
            Component::Weight(value) => ComponentView::Weight(value@),
            Component::Barrier(value) => ComponentView::Barrier(value@),
            Component::Opaque(value) => ComponentView::Opaque(value@),
            Component::Tile(value) => ComponentView::Tile(value@),
            Component::Collision(value) => ComponentView::Collision(value@),
            Component::CameraFocus(value) => ComponentView::CameraFocus(value@),
            Component::Light(value) => ComponentView::Light(value@),
            Component::Illumination(value) => ComponentView::Illumination(value@),
            Component::Equipment(value) => ComponentView::Equipment(value@),
            Component::Storage(value) => ComponentView::Storage(value@),
            Component::Effects(value) => ComponentView::Effects(value@),
            Component::Memory(value) => ComponentView::Memory(value@),
            Component::Velocity(value) => ComponentView::Velocity(value@),
            Component::Displacement(value) => ComponentView::Displacement(value@),
            Component::Intention(value) => ComponentView::Intention(value@),
            Component::Grab(value) => ComponentView::Grab(value@),
            Component::Throw(value) => ComponentView::Throw(value@),
            Component::Spawn(value) => ComponentView::Spawn(value@),
        }
    }
}

impl ComponentView {
    /// The kind of the component.
    pub open spec fn kind(self) -> Kind {
        match self {
            ComponentView::Glyph(_) => Kind::Glyph,
            ComponentView::Description(_) => Kind::Description,
            ComponentView::Weight(_) => Kind::Weight,
            ComponentView::Barrier(_) => Kind::Barrier,
            ComponentView::Opaque(_) => Kind::Opaque,
            ComponentView::Tile(_) => Kind::Tile,
            ComponentView::Collision(_) => Kind::Collision,
            ComponentView::CameraFocus(_) => Kind::CameraFocus,
            ComponentView::Light(_) => Kind::Light,
            ComponentView::Illumination(_) => Kind::Illumination,
            ComponentView::Equipment(_) => Kind::Equipment,
            ComponentView::Storage(_) => Kind::Storage,
            ComponentView::Effects(_) => Kind::Effects,
            ComponentView::Memory(_) => Kind::Memory,
            ComponentView::Velocity(_) => Kind::Velocity,
            ComponentView::Displacement(_) => Kind::Displacement,
            ComponentView::Intention(_) => Kind::Intention,
            ComponentView::Grab(_) => Kind::Grab,
            ComponentView::Throw(_) => Kind::Throw,
            ComponentView::Spawn(_) => Kind::Spawn,
        }
    }

    /// `parts` with this component in the place of its kind.
    pub open spec fn write(self, parts: Parts) -> Parts {
        match self {
            ComponentView::Glyph(value) => Parts { glyph: Some(value), ..parts },
            ComponentView::Description(value) => Parts { description: Some(value), ..parts },
            ComponentView::Weight(value) => Parts { weight: Some(value), ..parts },
            ComponentView::Barrier(value) => Parts { barrier: Some(value), ..parts },
            ComponentView::Opaque(value) => Parts { opaque: Some(value), ..parts },
            ComponentView::Tile(value) => Parts { tile: Some(value), ..parts },
            ComponentView::Collision(value) => Parts { collision: Some(value), ..parts },
            ComponentView::CameraFocus(value) => Parts { camera_focus: Some(value), ..parts },
            ComponentView::Light(value) => Parts { light: Some(value), ..parts },
            ComponentView::Illumination(value) => Parts { illumination: Some(value), ..parts },
            ComponentView::Equipment(value) => Parts { equipment: Some(value), ..parts },
            ComponentView::Storage(value) => Parts { storage: Some(value), ..parts },
            ComponentView::Effects(value) => Parts { effects: Some(value), ..parts },
            ComponentView::Memory(value) => Parts { memory: Some(value), ..parts },
            ComponentView::Velocity(value) => Parts { velocity: Some(value), ..parts },
            ComponentView::Displacement(value) => Parts { displacement: Some(value), ..parts },
            ComponentView::Intention(value) => Parts { intention: Some(value), ..parts },
            ComponentView::Grab(value) => Parts { grab: Some(value), ..parts },
            ComponentView::Throw(value) => Parts { throw: Some(value), ..parts },
            ComponentView::Spawn(value) => Parts { spawn: Some(value), ..parts },
        }
    }
}

/// `parts` after each component of `bundle` is written into it, in their order.
pub open spec fn dressed(parts: Parts, bundle: Seq<ComponentView>) -> Parts
    decreases bundle.len(),
{
    if bundle.len() == 0 {
        parts
    } else {
        bundle.last().write(dressed(parts, bundle.drop_last()))
    }
}

/// No component of a bundle is a `Position`: to write a bundle leaves the `Position` as it
/// is.
pub proof fn lemma_dressed_keeps_position(parts: Parts, bundle: Seq<ComponentView>)
    ensures
        dressed(parts, bundle).position == parts.position,
    decreases bundle.len(),
{
    if bundle.len() > 0 {
        lemma_dressed_keeps_position(parts, bundle.drop_last());
    }
}

/// Whether a `Tile` is among `bundle`.
pub open spec fn has_tile(bundle: Seq<ComponentView>) -> bool {
    exists|at: int| 0 <= at < bundle.len() && #[trigger] bundle[at] is Tile
}

/// After a bundle is written there is a `Tile` exactly where there was one before or the
/// bundle holds one.
pub proof fn lemma_dressed_tile(parts: Parts, bundle: Seq<ComponentView>)
    ensures
        dressed(parts, bundle).tile is Some == (parts.tile is Some || has_tile(bundle)),
    decreases bundle.len(),
{
    if bundle.len() > 0 {
        let shorter = bundle.drop_last();
        lemma_dressed_tile(parts, shorter);
        if has_tile(shorter) {
            let at = choose|at: int| 0 <= at < shorter.len() && #[trigger] shorter[at] is Tile;
            assert(bundle[at] is Tile);
        }
        if has_tile(bundle) {
            let at = choose|at: int| 0 <= at < bundle.len() && #[trigger] bundle[at] is Tile;
            if at < shorter.len() {
                assert(shorter[at] is Tile);
            }
        }
        if bundle.last() is Tile {
            assert(bundle[bundle.len() - 1] is Tile);
        }
    }
}

/// Whether a `Barrier` is among `bundle`.
pub open spec fn has_barrier(bundle: Seq<ComponentView>) -> bool {
    exists|at: int| 0 <= at < bundle.len() && #[trigger] bundle[at] is Barrier
}

/// After a bundle is written there is a `Barrier` exactly where there was one before or the
/// bundle holds one.
pub proof fn lemma_dressed_barrier(parts: Parts, bundle: Seq<ComponentView>)
    ensures
        dressed(parts, bundle).barrier is Some == (parts.barrier is Some || has_barrier(bundle)),
    decreases bundle.len(),
{
    if bundle.len() > 0 {
        let shorter = bundle.drop_last();
        lemma_dressed_barrier(parts, shorter);
        if has_barrier(shorter) {
            let at = choose|at: int| 0 <= at < shorter.len() && #[trigger] shorter[at] is Barrier;
            assert(bundle[at] is Barrier);
        }
        if has_barrier(bundle) {
            let at = choose|at: int| 0 <= at < bundle.len() && #[trigger] bundle[at] is Barrier;
            if at < shorter.len() {
                assert(shorter[at] is Barrier);
            }
        }
        if bundle.last() is Barrier {
            assert(bundle[bundle.len() - 1] is Barrier);
        }
    }
}

impl Kind {
    /// `parts` without the component of this kind.
    pub open spec fn clear(self, parts: Parts) -> Parts {
        match self {
            Kind::Glyph => Parts { glyph: None, ..parts },
            Kind::Description => Parts { description: None, ..parts },
            Kind::Weight => Parts { weight: None, ..parts },
            Kind::Barrier => Parts { barrier: None, ..parts },
            Kind::Opaque => Parts { opaque: None, ..parts },
            Kind::Tile => Parts { tile: None, ..parts },
            Kind::Collision => Parts { collision: None, ..parts },
            Kind::CameraFocus => Parts { camera_focus: None, ..parts },
            Kind::Light => Parts { light: None, ..parts },
            Kind::Illumination => Parts { illumination: None, ..parts },
            Kind::Equipment => Parts { equipment: None, ..parts },
            Kind::Storage => Parts { storage: None, ..parts },
            Kind::Effects => Parts { effects: None, ..parts },
            Kind::Memory => Parts { memory: None, ..parts },
            Kind::Velocity => Parts { velocity: None, ..parts },
            Kind::Displacement => Parts { displacement: None, ..parts },
            Kind::Intention => Parts { intention: None, ..parts },
            Kind::Grab => Parts { grab: None, ..parts },
            Kind::Throw => Parts { throw: None, ..parts },
            Kind::Spawn => Parts { spawn: None, ..parts },
        }
    }
}

/// The height that stands for the top of any stack.
pub const TOP: usize = usize::MAX;

/// A change to the world and the map that is written down now and carried out later. No
/// command gives or takes a `Position` without putting the object of the entity onto the map
/// or taking it off, so that the two never come apart.
#[derive(Debug)]
pub enum Command {
    /// Give the entity the component, in place of one of the same kind.
    Attach(Entity, Component),
    /// Take the entity's component of the kind away.
    Detach(Entity, Kind),
    /// Take the entity out of the world, and its object off the map.
    Destroy(Entity),
    /// Take the top object off the stack at the position, and its entity out of the world.
    Lift(Vector),
    /// Put the object into the stack at the position, at the height given or on top where
    /// the stack is lower, and give its entity the `Position`.
    Put(Vector, usize, Object),
    /// Take the object of the entity off the map, and the `Position` off the entity.
    Take(Entity),
    /// Move the entity to the position, on the map and in its `Position`.
    Relocate(Entity, Vector),
}

/// A `Command` with its component as a view.
pub enum CommandView {
    Attach(Entity, ComponentView),
    Detach(Entity, Kind),
    Destroy(Entity),
    Lift(Vector),
    Put(Vector, usize, Object),
    Take(Entity),
    Relocate(Entity, Vector),
}

impl View for Command {
    type V = CommandView;

    open spec fn view(&self) -> CommandView {
        match *self {
            Command::Attach(entity, component) => CommandView::Attach(entity, component@),
            Command::Detach(entity, kind) => CommandView::Detach(entity, kind),
            Command::Destroy(entity) => CommandView::Destroy(entity),
            Command::Lift(position) => CommandView::Lift(position),
            Command::Put(position, height, object) => CommandView::Put(position, height, object),
            Command::Take(entity) => CommandView::Take(entity),
            Command::Relocate(entity, position) => CommandView::Relocate(entity, position),
        }
    }
}

/// The views of `commands`, in their order.
pub open spec fn views(commands: Seq<Command>) -> Seq<CommandView> {
    commands.map_values(|command: Command| command@)
}

/// The entities and the map together: all that a command can change.
#[verifier::ext_equal]
pub struct State {
    pub entities: Map<Entity, Parts>,
    pub map: MapView,
}

/// What `world` and `map` hold.
pub open spec fn state_of(world: World, map: MapBase) -> State {
    State { entities: world_entities(world), map: map@ }
}

/// `entities` with `entity` made of `parts`, if it is among them at all.
pub open spec fn remade(entities: Map<Entity, Parts>, entity: Entity, parts: Parts) -> Map<
    Entity,
    Parts,
> {
    if entities.dom().contains(entity) {
        entities.insert(entity, parts)
    } else {
        entities
    }
}

impl State {
    /// The state with `entity` made of `parts`, if it is in the world at all.
    pub open spec fn with_parts(self, entity: Entity, parts: Parts) -> State {
        State { entities: remade(self.entities, entity, parts), ..self }
    }

    /// Whether `entity` can be put onto the map at `position`: the position is a cell, and
    /// the entity is in the world and has no `Position` yet.
    pub open spec fn can_put(self, position: Vector, entity: Entity) -> bool {
        &&& self.map.in_bounds(position)
        &&& self.entities.dom().contains(entity)
        &&& self.entities[entity].position is None
    }

    /// Whether `entity` can be taken off the map: it is in the world, and it stands in the
    /// cell that its `Position` names.
    pub open spec fn can_take(self, entity: Entity) -> bool {
        &&& self.entities.dom().contains(entity)
        &&& self.entities[entity].position is Some
        &&& self.map.in_bounds(self.entities[entity].position->0.vector)
        &&& stack_holds(self.map.cell(self.entities[entity].position->0.vector), entity)
    }

    /// The state after `object` has been put into the stack at `position`, at `height` or on
    /// top where the stack is lower.
    pub open spec fn put(self, position: Vector, height: usize, object: Object) -> State {
        let stack = self.map.cell(position);
        let at = if height != TOP && height < stack.len() {
            height as int
        } else {
            stack.len() as int
        };
        State {
            entities: self.entities.insert(
                object.entity,
                Parts {
                    position: Some(Position { vector: position }),
                    ..self.entities[object.entity]
                },
            ),
            map: self.map.with_cell(self.map.index_of(position), stack.insert(at, object)),
        }
    }

    /// The map after the lowest object of `entity` has left the cell that its `Position`
    /// names.
    pub open spec fn map_without(self, entity: Entity) -> MapView {
        let position = self.entities[entity].position->0.vector;
        self.map.with_cell(
            self.map.index_of(position),
            self.map.cell(position).remove(slot_of(self.map.cell(position), entity)),
        )
    }
}

impl CommandView {
    /// The state after the command. A command that cannot be carried out changes nothing:
    /// one about an entity that is not in the world, one that puts what already has a
    /// `Position` or puts it off the map, one that takes what does not stand where its
    /// `Position` says, one that moves what stands nowhere or moves it off the map. To
    /// destroy an entity that does not stand where its `Position` says leaves the map as it
    /// is.
    pub open spec fn apply(self, state: State) -> State {
        match self {
            CommandView::Attach(entity, component) => state.with_parts(
                entity,
                component.write(state.entities[entity]),
            ),
            CommandView::Detach(entity, kind) => state.with_parts(
                entity,
                kind.clear(state.entities[entity]),
            ),
            CommandView::Destroy(entity) => State {
                entities: state.entities.remove(entity),
                map: if state.can_take(entity) {
                    state.map_without(entity)
                } else {
                    state.map
                },
            },
            CommandView::Lift(position) => if state.map.in_bounds(position) && state.map.cell(
                position,
            ).len() > 0 {
                State {
                    entities: state.entities.remove(state.map.cell(position).last().entity),
                    map: state.map.with_cell(
                        state.map.index_of(position),
                        state.map.cell(position).drop_last(),
                    ),
                }
            } else {
                state
            },
            CommandView::Put(position, height, object) => if state.can_put(position, object.entity) {
                state.put(position, height, object)
            } else {
                state
            },
            CommandView::Take(entity) => if state.can_take(entity) {
                State {
                    entities: state.entities.insert(
                        entity,
                        Parts { position: None, ..state.entities[entity] },
                    ),
                    map: state.map_without(entity),
                }
            } else {
                state
            },
            CommandView::Relocate(entity, position) => if on_map(state.map.cells, entity)
                && state.map.in_bounds(position) {
                State { map: state.map.moved(entity, position), ..state }.with_parts(
                    entity,
                    Parts { position: Some(Position { vector: position }), ..state.entities[entity] },
                )
            } else {
                state
            },
        }
    }
}

/// No command changes the size of the map.
pub proof fn lemma_commands_keep_size(state: State, commands: Seq<CommandView>)
    ensures
        apply_all(state, commands).map.size == state.map.size,
    decreases commands.len(),
{
    if commands.len() > 0 {
        lemma_commands_keep_size(state, commands.drop_last());
    }
}

/// The state after all of `commands`, carried out in their order.
pub open spec fn apply_all(state: State, commands: Seq<CommandView>) -> State
    decreases commands.len(),
{
    if commands.len() == 0 {
        state
    } else {
        commands.last().apply(apply_all(state, commands.drop_last()))
    }
}

/// One more command at the end is carried out last.
pub proof fn lemma_apply_push(state: State, commands: Seq<CommandView>, command: CommandView)
    ensures
        apply_all(state, commands.push(command)) == command.apply(apply_all(state, commands)),
{
    assert(commands.push(command).drop_last() =~= commands);
}

/// Two runs of commands, one after the other, do what the one run of both does.
pub proof fn lemma_apply_concat(state: State, first: Seq<CommandView>, second: Seq<CommandView>)
    ensures
        apply_all(state, first + second) == apply_all(apply_all(state, first), second),
    decreases second.len(),
{
    if second.len() == 0 {
        assert(first + second =~= first);
    } else {
        lemma_apply_concat(state, first, second.drop_last());
        assert((first + second).drop_last() =~= first + second.drop_last());
    }
}

/// The views of a run with one more command.
pub proof fn lemma_views_push(commands: Seq<Command>, command: Command)
    ensures
        views(commands.push(command)) == views(commands).push(command@),
{
    assert(views(commands.push(command)) =~= views(commands).push(command@));
}

fn attach_component(world: &mut World, entity: Entity, component: Component)
    ensures
        world_entities(*final(world)) == remade(
            world_entities(*old(world)),
            entity,
            component@.write(world_entities(*old(world))[entity]),
        ),
{
    match component {
        Component::Glyph(value) => attach::<Glyph>(world, entity, value),
        Component::Description(value) => attach::<Description>(world, entity, value),
        Component::Weight(value) => attach::<Weight>(world, entity, value),
        Component::Barrier(value) => attach::<Barrier>(world, entity, value),
        Component::Opaque(value) => attach::<Opaque>(world, entity, value),
        Component::Tile(value) => attach::<Tile>(world, entity, value),
        Component::Collision(value) => attach::<Collision>(world, entity, value),
        Component::CameraFocus(value) => attach::<CameraFocus>(world, entity, value),
        Component::Light(value) => attach::<Light>(world, entity, value),
        Component::Illumination(value) => attach::<Illumination>(world, entity, value),
        Component::Equipment(value) => attach::<Equipment>(world, entity, value),
        Component::Storage(value) => attach::<Storage>(world, entity, value),
        Component::Effects(value) => attach::<Effects>(world, entity, value),
        Component::Memory(value) => attach::<Memory>(world, entity, value),
        Component::Velocity(value) => attach::<Velocity>(world, entity, value),
        Component::Displacement(value) => attach::<Displacement>(world, entity, value),
        Component::Intention(value) => attach::<Intention>(world, entity, value),
        Component::Grab(value) => attach::<Grab>(world, entity, value),
        Component::Throw(value) => attach::<Throw>(world, entity, value),
        Component::Spawn(value) => attach::<Spawn>(world, entity, value),
    }
}

fn detach_component(world: &mut World, entity: Entity, kind: Kind)
    ensures
        world_entities(*final(world)) == remade(
            world_entities(*old(world)),
            entity,
            kind.clear(world_entities(*old(world))[entity]),
        ),
{
    match kind {
        Kind::Glyph => detach::<Glyph>(world, entity),
        Kind::Description => detach::<Description>(world, entity),
        Kind::Weight => detach::<Weight>(world, entity),
        Kind::Barrier => detach::<Barrier>(world, entity),
        Kind::Opaque => detach::<Opaque>(world, entity),
        Kind::Tile => detach::<Tile>(world, entity),
        Kind::Collision => detach::<Collision>(world, entity),
        Kind::CameraFocus => detach::<CameraFocus>(world, entity),
        Kind::Light => detach::<Light>(world, entity),
        Kind::Illumination => detach::<Illumination>(world, entity),
        Kind::Equipment => detach::<Equipment>(world, entity),
        Kind::Storage => detach::<Storage>(world, entity),
        Kind::Effects => detach::<Effects>(world, entity),
        Kind::Memory => detach::<Memory>(world, entity),
        Kind::Velocity => detach::<Velocity>(world, entity),
        Kind::Displacement => detach::<Displacement>(world, entity),
        Kind::Intention => detach::<Intention>(world, entity),
        Kind::Grab => detach::<Grab>(world, entity),
        Kind::Throw => detach::<Throw>(world, entity),
        Kind::Spawn => detach::<Spawn>(world, entity),
    }
}

fn take_off(world: &World, map: &mut MapBase, entity: Entity) -> (taken: bool)
    ensures
        taken == state_of(*world, *old(map)).can_take(entity),
        final(map)@ =~= (if taken {
            state_of(*world, *old(map)).map_without(entity)
        } else {
            old(map)@
        }),
{
    let ghost before = state_of(*world, *map);
    let position = match fetch::<Position>(world, entity) {
        Some(position) => position,
        None => return false,
    };
    proof {
        use_type_invariant(&*map);
        if before.map.in_bounds(position.vector) {
            lemma_index_in_range(before.map, position.vector.0 as int, position.vector.1 as int);
        }
    }
    let mut taken = false;
    if let Some(stack) = map.get_objects_mut(position.vector) {
        if let Some(slot) = find_slot(stack, entity) {
            proof {
                lemma_slot_unique(stack@, entity, slot as int);
            }
            stack.remove(slot);
            taken = true;
        }
    }
    assert(map@.cells =~= (if taken {
        before.map_without(entity)
    } else {
        before.map
    }).cells);
    taken
}

/// Carries out one command.
pub fn apply_command(world: &mut World, map: &mut MapBase, command: Command)
    ensures
        state_of(*final(world), *final(map)) == command@.apply(state_of(*old(world), *old(map))),
{
    let ghost before = state_of(*world, *map);
    match command {
        Command::Attach(entity, component) => {
            attach_component(world, entity, component);
            assert(state_of(*world, *map) =~= command@.apply(before));
        },
        Command::Detach(entity, kind) => {
            detach_component(world, entity, kind);
            assert(state_of(*world, *map) =~= command@.apply(before));
        },
        Command::Destroy(entity) => {
            take_off(world, map, entity);
            destroy(world, entity);
            assert(state_of(*world, *map) =~= command@.apply(before));
        },
        Command::Lift(position) => {
            proof {
                use_type_invariant(&*map);
                if before.map.in_bounds(position) {
                    lemma_index_in_range(before.map, position.0 as int, position.1 as int);
                }
            }
            let mut top: Option<Object> = None;
            if let Some(stack) = map.get_objects_mut(position) {
                top = stack.pop();
            }
            if let Some(object) = top {
                destroy(world, object.entity);
            }
            assert(map@.cells =~= command@.apply(before).map.cells);
            assert(state_of(*world, *map) =~= command@.apply(before));
        },
        Command::Put(position, height, object) => {
            if alive(world, object.entity) && fetch::<Position>(world, object.entity).is_none() {
                if let Some(stack) = map.get_objects_mut(position) {
                    let at: usize = if height < stack.len() {
                        height
                    } else {
                        stack.len()
                    };
                    stack.insert(at, object);
                    attach::<Position>(world, object.entity, Position { vector: position });
                }
            }
            assert(state_of(*world, *map) =~= command@.apply(before));
        },
        Command::Take(entity) => {
            if take_off(world, map, entity) {
                detach::<Position>(world, entity);
            }
            assert(state_of(*world, *map) =~= command@.apply(before));
        },
        Command::Relocate(entity, position) => {
            let mut moved = Position { vector: position };
            if map.move_object_by_entity(entity, &mut moved, position).is_ok() {
                attach::<Position>(world, entity, moved);
            }
            assert(state_of(*world, *map) =~= command@.apply(before));
        },
    }
}

/// Writes `command` down at the end of `commands`.
pub fn record(commands: &mut Vec<Command>, command: Command)
    ensures
        views(final(commands)@) == views(old(commands)@).push(command@),
{
    proof {
        lemma_views_push(commands@, command);
    }
    commands.push(command);
}

/// An empty world and a map of `size` with nothing in it. The two agree.
pub fn empty_state(size: Vector) -> (pair: (World, MapBase))
    requires
        0 <= size.0,
        0 <= size.1,
        size.0 * size.1 <= i32::MAX,
    ensures
        world_entities(pair.0) == no_entities(),
        pair.1@.wf(),
        pair.1@.size == size,
        forall|index: int|
            0 <= index < pair.1@.cells.len() ==> #[trigger] pair.1@.cells[index] == Seq::<Object>::empty(),
        consistent(state_of(pair.0, pair.1)),
{
    let world = empty_world();
    let map = MapBase::new(size);
    proof {
        lemma_empty_is_consistent(state_of(world, map));
    }
    (world, map)
}

/// Carries out `commands` in their order.
pub fn flush(world: &mut World, map: &mut MapBase, commands: Vec<Command>)
    ensures
        state_of(*final(world), *final(map)) == apply_all(
            state_of(*old(world), *old(map)),
            views(commands@),
        ),
        final(map)@.size == old(map)@.size,
        consistent(state_of(*old(world), *old(map))) ==> consistent(state_of(*final(world), *final(map))),
{
    proof {
        lemma_commands_keep_size(state_of(*world, *map), views(commands@));
        if consistent(state_of(*world, *map)) {
            lemma_commands_keep(state_of(*world, *map), views(commands@));
        }
    }
    let ghost before = state_of(*world, *map);
    let ghost all = commands@;
    let ghost total = commands@.len() as int;
    let mut waiting = commands;
    let mut turned: Vec<Command> = Vec::new();
    while waiting.len() > 0
        invariant
            waiting@.len() + turned@.len() == total,
            total == all.len(),
            waiting@ == all.take(waiting@.len() as int),
            forall|i: int| 0 <= i < turned@.len() ==> #[trigger] turned@[i] == all[total - 1 - i],
        decreases waiting@.len(),
    {
        let ghost left = waiting@.len() as int;
        if let Some(command) = waiting.pop() {
            assert(command == all[left - 1]);
            assert(waiting@ =~= all.take(left - 1));
            turned.push(command);
        }
    }
    let ghost mut count: int = 0;
    proof {
        assert(views(all).take(0) =~= Seq::<CommandView>::empty());
    }
    while turned.len() > 0
        invariant
            0 <= count <= total,
            total == all.len(),
            turned@.len() == total - count,
            forall|i: int| 0 <= i < turned@.len() ==> #[trigger] turned@[i] == all[total - 1 - i],
            state_of(*world, *map) == apply_all(before, views(all).take(count)),
        decreases turned@.len(),
    {
        let ghost earlier = turned@;
        if let Some(command) = turned.pop() {
            proof {
                assert(command == earlier[earlier.len() - 1]);
                assert(command == all[count]);
                assert(views(all)[count] == all[count]@);
                assert(views(all).take(count + 1) =~= views(all).take(count).push(views(all)[count]));
                lemma_apply_push(before, views(all).take(count), views(all)[count]);
                count = count + 1;
            }
            apply_command(world, map, command);
        }
    }
    proof {
        assert(views(all).take(count) =~= views(all));
    }
}

} // verus!
