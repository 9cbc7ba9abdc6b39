//! Terrain, a grid index and a path search over tiles, with an agent that
//! walks the paths found.

pub mod coord;
pub mod follower;
pub mod grid_index;
pub mod open_set;
pub mod path_finding;
pub mod square_field;
pub mod tables;
pub mod terrain;
