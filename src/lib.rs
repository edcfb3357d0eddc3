//! Random tile maps: a maze of walls over a grid, merged into tiles by flood
//! fill, with an adjacency graph between the tiles.

pub mod grid;
pub mod regions;
pub mod map;

pub use map::{Tile, TileMap};
