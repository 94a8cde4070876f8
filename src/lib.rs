//! The grid side of a first-person raycaster: a map of tile IDs with
//! transparent tiles, and the walk of each ray across that grid, which
//! decides what the ray records and where it stops.
pub mod tile_map;
pub mod trace;
pub mod trace_lemmas;

pub use tile_map::{ShapeMismatch, TileMap};
pub use trace::{GridRay, TraceHit, trace_ray, trace_rays};
