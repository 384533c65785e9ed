//! Procedural dungeon generation: tile maps, room and cave builders, a
//! reachability engine, and a wave-function-collapse pattern solver.
pub mod components;
pub mod map;
pub mod random;
pub mod rect;
pub mod map_builder;
