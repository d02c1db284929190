//! The world of a turn-based game on a grid: entities made of components, a map that holds
//! what stands in each cell, caves made by chance and smoothing, the systems that resolve what
//! the entities mean to do, and the light and the memory of what is seen.
//!
//! The entities live in a `legion::World`. The library reads and changes it through a few
//! functions whose contracts are taken on trust (see `world`); chance comes from
//! `bracket_random` in the same way (see `random`), and so does the text of one character
//! (see `interface`). All else is proved.

pub mod assets;
pub mod caves;
pub mod commands;
pub mod components;
pub mod consistency;
pub mod entities;
pub mod game;
pub mod generation;
pub mod interface;
pub mod location;
pub mod map;
pub mod random;
pub mod render;
pub mod systems;
pub mod util;
pub mod vector;
pub mod visibility;
pub mod world;
