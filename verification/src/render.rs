use vstd::prelude::*;
use legion::{Entity, World};
use crate::components::glyph::{Colour, Glyph};
use crate::components::illumination::Illumination;
use crate::components::light::Light;
use crate::map::{MapBase, MapView};
use crate::systems::Fault;
use crate::vector::{fits_i32, Vector};
use crate::visibility::{holds_point, top_at, top_entity};
use crate::world::{alive, fetch, world_entities, Parts};

verus! {

/// The width of the window, in cells.
pub const WINDOW_WIDTH: i32 = 100;

/// The height of the window, in cells.
pub const WINDOW_HEIGHT: i32 = 50;

/// The column of the cell in the middle of the window.
pub const WINDOW_CENTER_X: i32 = 49;

/// The row of the cell in the middle of the window.
pub const WINDOW_CENTER_Y: i32 = 24;

/// The width of the pane beside the map, in cells.
pub const GUI_WIDTH: i32 = 25;

/// How far the viewpoint sees, in cells.
pub const VIEW_RADIUS: i32 = 10;

/// What is drawn in one cell of the screen: a glyph at column `x`, row `y`. A cell that is
/// seen comes with the light that falls on what it shows; one that is only remembered comes
/// without, and is drawn dim.
#[derive(Debug)]
pub struct Sprite {
    pub x: i32,
    pub y: i32,
    pub glyph: Glyph,
    pub sources: Vec<(Light, u32)>,
    pub remembered: bool,
}

/// A `Sprite` with its light as a sequence.
pub struct SpriteView {
    pub x: i32,
    pub y: i32,
    pub glyph: Glyph,
    pub sources: Seq<(Light, u32)>,
    pub remembered: bool,
}

impl View for Sprite {
    type V = SpriteView;

    open spec fn view(&self) -> SpriteView {
        SpriteView {
            x: self.x,
            y: self.y,
            glyph: self.glyph,
            sources: self.sources@,
            remembered: self.remembered,
        }
    }
}

/// The views of `sprites`, in their order.
pub open spec fn sprite_views(sprites: Seq<Sprite>) -> Seq<SpriteView> {
    sprites.map_values(|sprite: Sprite| sprite@)
}

/// Where on the screen the cell at `point` is drawn when the view is centred on `camera`:
/// the viewpoint is in the middle of what the pane beside the map leaves free. `None` where
/// a coordinate of it is no `i32`.
pub open spec fn screen_point(camera: Vector, point: Vector) -> Option<(i32, i32)> {
    let x = WINDOW_CENTER_X - (camera.0 - point.0) - GUI_WIDTH / 2;
    let y = WINDOW_CENTER_Y - (camera.1 - point.1);
    if fits_i32(x) && fits_i32(y) {
        Some((x as i32, y as i32))
    } else {
        None
    }
}

/// Where on the screen the cell at `point` is drawn when the view is centred on `camera`.
pub fn to_screen(camera: Vector, point: Vector) -> (at: Option<(i32, i32)>)
    ensures
        at == screen_point(camera, point),
{
    let x: i64 = WINDOW_CENTER_X as i64 - (camera.0 as i64 - point.0 as i64) - (GUI_WIDTH / 2) as i64;
    let y: i64 = WINDOW_CENTER_Y as i64 - (camera.1 as i64 - point.1 as i64);
    if i32::MIN as i64 <= x && x <= i32::MAX as i64 && i32::MIN as i64 <= y && y <= i32::MAX as i64 {
        Some((x as i32, y as i32))
    } else {
        None
    }
}

/// The glyph that stands for a thing without one.
pub open spec fn blank_glyph() -> Glyph {
    Glyph { character: '\0', colour: Colour { r: 0, g: 0, b: 0, a: 0 } }
}

/// What is drawn for the cell at `point`: the glyph of what is on top of it, or the blank
/// glyph where that has none. Nothing is drawn for a point off the map, for an empty cell,
/// or where the place on the screen cannot be written. What is on top is in the world; else
/// the world is at fault.
pub open spec fn sprite_at(
    entities: Map<Entity, Parts>,
    map: MapView,
    camera: Vector,
    point: Vector,
    remembered: bool,
) -> Result<Option<SpriteView>, Fault> {
    match top_at(map, point) {
        None => Ok(None),
        Some(top) => if !entities.dom().contains(top) {
            Err(Fault::MissingEntity)
        } else {
            match screen_point(camera, point) {
                None => Ok(None),
                Some(at) => Ok(
                    Some(
                        SpriteView {
                            x: at.0,
                            y: at.1,
                            glyph: match entities[top].glyph {
                                Some(glyph) => glyph,
                                None => blank_glyph(),
                            },
                            sources: match entities[top].illumination {
                                Some(sources) if !remembered => sources,
                                _ => Seq::empty(),
                            },
                            remembered,
                        },
                    ),
                ),
            }
        },
    }
}

/// What is drawn for the cell at `point`.
pub fn sprite_for(world: &World, map: &MapBase, camera: Vector, point: Vector, remembered: bool) -> (sprite:
    Result<Option<Sprite>, Fault>)
    ensures
        match sprite_at(world_entities(*world), map@, camera, point, remembered) {
            Ok(Some(wanted)) => sprite matches Ok(Some(drawn)) && drawn@ == wanted,
            Ok(None) => sprite matches Ok(None),
            Err(fault) => sprite matches Err(found) && found == fault,
        },
{
    let top = match top_entity(map, point) {
        Some(top) => top,
        None => return Ok(None),
    };
    if !alive(world, top) {
        return Err(Fault::MissingEntity);
    }
    let at = match to_screen(camera, point) {
        Some(at) => at,
        None => return Ok(None),
    };
    let glyph = match fetch::<Glyph>(world, top) {
        Some(glyph) => glyph,
        None => Glyph::default(),
    };
    let sources: Vec<(Light, u32)> = if remembered {
        Vec::new()
    } else {
        match fetch::<Illumination>(world, top) {
            Some(illumination) => illumination.sources,
            None => Vec::new(),
        }
    };
    Ok(Some(Sprite { x: at.0, y: at.1, glyph, sources, remembered }))
}

/// What is drawn for the cells that are seen, in the order of `points`; or the first fault.
pub open spec fn seen_sprites(
    entities: Map<Entity, Parts>,
    map: MapView,
    camera: Vector,
    points: Seq<Vector>,
) -> Result<Seq<SpriteView>, Fault>
    decreases points.len(),
{
    if points.len() == 0 {
        Ok(Seq::empty())
    } else {
        match seen_sprites(entities, map, camera, points.drop_last()) {
            Err(fault) => Err(fault),
            Ok(before) => match sprite_at(entities, map, camera, points.last(), false) {
                Err(fault) => Err(fault),
                Ok(Some(sprite)) => Ok(before.push(sprite)),
                Ok(None) => Ok(before),
            },
        }
    }
}

/// What is drawn for the cells that are remembered and not seen, in the order of `memory`;
/// or the first fault. A remembered cell that is seen is still looked at, and can be at
/// fault.
pub open spec fn remembered_sprites(
    entities: Map<Entity, Parts>,
    map: MapView,
    camera: Vector,
    memory: Seq<Vector>,
    seen: Seq<Vector>,
) -> Result<Seq<SpriteView>, Fault>
    decreases memory.len(),
{
    if memory.len() == 0 {
        Ok(Seq::empty())
    } else {
        match remembered_sprites(entities, map, camera, memory.drop_last(), seen) {
            Err(fault) => Err(fault),
            Ok(before) => match sprite_at(entities, map, camera, memory.last(), true) {
                Err(fault) => Err(fault),
                Ok(Some(sprite)) if !seen.contains(memory.last()) => Ok(before.push(sprite)),
                _ => Ok(before),
            },
        }
    }
}

proof fn lemma_seen_fault(
    entities: Map<Entity, Parts>,
    map: MapView,
    camera: Vector,
    points: Seq<Vector>,
    count: int,
)
    requires
        0 <= count <= points.len(),
        seen_sprites(entities, map, camera, points.take(count)) is Err,
    ensures
        seen_sprites(entities, map, camera, points) == seen_sprites(
            entities,
            map,
            camera,
            points.take(count),
        ),
    decreases points.len() - count,
{
    if count == points.len() {
        assert(points.take(count) =~= points);
    } else {
        assert(points.take(count + 1).drop_last() =~= points.take(count));
        lemma_seen_fault(entities, map, camera, points, count + 1);
    }
}

proof fn lemma_remembered_fault(
    entities: Map<Entity, Parts>,
    map: MapView,
    camera: Vector,
    memory: Seq<Vector>,
    seen: Seq<Vector>,
    count: int,
)
    requires
        0 <= count <= memory.len(),
        remembered_sprites(entities, map, camera, memory.take(count), seen) is Err,
    ensures
        remembered_sprites(entities, map, camera, memory, seen) == remembered_sprites(
            entities,
            map,
            camera,
            memory.take(count),
            seen,
        ),
    decreases memory.len() - count,
{
    if count == memory.len() {
        assert(memory.take(count) =~= memory);
    } else {
        assert(memory.take(count + 1).drop_last() =~= memory.take(count));
        lemma_remembered_fault(entities, map, camera, memory, seen, count + 1);
    }
}

/// What is drawn for the cells that are seen.
pub fn draw_seen(world: &World, map: &MapBase, camera: Vector, points: &Vec<Vector>) -> (result: Result<
    Vec<Sprite>,
    Fault,
>)
    ensures
        match seen_sprites(world_entities(*world), map@, camera, points@) {
            Ok(drawn) => result matches Ok(sprites) && sprite_views(sprites@) == drawn,
            Err(fault) => result matches Err(found) && found == fault,
        },
{
    let ghost entities = world_entities(*world);
    let mut sprites: Vec<Sprite> = Vec::new();
    let mut next: usize = 0;
    assert(sprite_views(sprites@) =~= Seq::<SpriteView>::empty());
    while next < points.len()
        invariant
            next <= points@.len(),
            entities == world_entities(*world),
            seen_sprites(entities, map@, camera, points@.take(next as int)) == Ok::<Seq<SpriteView>, Fault>(
                sprite_views(sprites@),
            ),
        decreases points@.len() - next,
    {
        proof {
            assert(points@.take(next + 1).drop_last() =~= points@.take(next as int));
        }
        match sprite_for(world, map, camera, points[next], false) {
            Ok(Some(sprite)) => {
                let ghost current = sprites@;
                sprites.push(sprite);
                assert(sprite_views(sprites@) =~= sprite_views(current).push(sprite@));
            },
            Ok(None) => {},
            Err(fault) => {
                proof {
                    lemma_seen_fault(entities, map@, camera, points@, next + 1);
                }
                return Err(fault);
            },
        }
        next += 1;
    }
    assert(points@.take(next as int) =~= points@);
    Ok(sprites)
}

/// What is drawn for the cells that are remembered and not seen.
pub fn draw_remembered(
    world: &World,
    map: &MapBase,
    camera: Vector,
    memory: &Vec<Vector>,
    seen: &Vec<Vector>,
) -> (result: Result<Vec<Sprite>, Fault>)
    ensures
        match remembered_sprites(world_entities(*world), map@, camera, memory@, seen@) {
            Ok(drawn) => result matches Ok(sprites) && sprite_views(sprites@) == drawn,
            Err(fault) => result matches Err(found) && found == fault,
        },
{
    let ghost entities = world_entities(*world);
    let mut sprites: Vec<Sprite> = Vec::new();
    let mut next: usize = 0;
    assert(sprite_views(sprites@) =~= Seq::<SpriteView>::empty());
    while next < memory.len()
        invariant
            next <= memory@.len(),
            entities == world_entities(*world),
            remembered_sprites(entities, map@, camera, memory@.take(next as int), seen@) == Ok::<
                Seq<SpriteView>,
                Fault,
            >(sprite_views(sprites@)),
        decreases memory@.len() - next,
    {
        proof {
            assert(memory@.take(next + 1).drop_last() =~= memory@.take(next as int));
        }
        match sprite_for(world, map, camera, memory[next], true) {
            Ok(Some(sprite)) => {
                if !holds_point(seen, memory[next]) {
                    let ghost current = sprites@;
                    sprites.push(sprite);
                    assert(sprite_views(sprites@) =~= sprite_views(current).push(sprite@));
                }
            },
            Ok(None) => {},
            Err(fault) => {
                proof {
                    lemma_remembered_fault(entities, map@, camera, memory@, seen@, next + 1);
                }
                return Err(fault);
            },
        }
        next += 1;
    }
    assert(memory@.take(next as int) =~= memory@);
    Ok(sprites)
}

} // verus!
