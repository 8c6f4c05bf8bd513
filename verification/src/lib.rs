//! Grid generators for robot-arena maps: cave smoothing, region labelling,
//! pocket selection, wave-function-collapse tiling and binary space partitioning.
mod rng;
pub mod counting;
pub mod connectivity;
pub mod grid;
pub mod regions;
pub mod adjacency;
pub mod open_space;
pub mod pockets;
pub mod cave;
pub mod wfc;
pub mod tiles;
pub mod bsp;
