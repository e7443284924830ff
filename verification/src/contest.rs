pub mod delivery;
pub mod forest;
pub mod maze;
pub mod online_mst;
pub mod packing;
pub mod servers;
pub mod sliding;
pub mod sliding_search;
pub mod tile_search;
pub mod tiles;
pub mod torus;
pub mod typing;
pub mod zero_sum;
