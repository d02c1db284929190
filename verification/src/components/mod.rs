pub mod actions;
pub mod barrier;
pub mod collision;
pub mod description;
pub mod direction;
pub mod displacement;
pub mod effects;
pub mod equipment;
pub mod glyph;
pub mod illumination;
pub mod light;
pub mod memory;
pub mod meta;
pub mod opaque;
pub mod position;
pub mod spawn;
pub mod storage;
pub mod tile;
pub mod velocity;
pub mod weight;
