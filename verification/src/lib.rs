//! The spatial core of a turn-based, tile-grid dungeon: a generated map of
//! rooms and corridors, a store of entities and their components, a rule for
//! moving an entity by one tile, and a visibility pass that recomputes what a
//! viewer sees only when its viewshed is marked dirty.

pub mod components;
pub mod grid;
pub mod map;
pub mod player;
pub mod random;
pub mod rect;
pub mod render;
pub mod state;
pub mod store;
pub mod visibility;
