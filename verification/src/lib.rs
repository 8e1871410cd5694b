//! A classic rogue-like's game logic: grid maths, dungeon generation,
//! field of view, path finding and the rules of play.
pub mod math;
pub mod grid;
pub mod components;
pub mod actions;
pub mod pathfinder;
pub mod map_gen;
pub mod rng;
pub mod fov;
pub mod systems;
pub mod combat;
pub mod ai;
pub mod archetypes;
pub mod save;
