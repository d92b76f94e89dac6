//! Spatial reasoning on a hexagonal grid in axial coordinates: the coordinate
//! algebra, scanline flood fill, shadow-casting field of view and jump point
//! search, together with the level and creature rules built on them.

pub mod astar;
pub mod floodfill;
pub mod fov;
pub mod grid;
pub mod level;
pub mod line;
pub mod minheap;
pub mod player;
pub mod posmap;
pub mod posset;
pub mod predicate;
pub mod sprite;
pub mod util;
pub mod world;
