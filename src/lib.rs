//! Navigation over a tile grid split into horizontal platforms joined by
//! stairs: platform lookup, a weighted stair graph with all-pairs shortest
//! distances and next hops, and the per-tick movement intent derived from them.

pub mod tile;
pub mod platform;
pub mod intent;
pub mod walk;
pub mod graph;
pub mod sort;
pub mod routes;
pub mod construct;
pub mod links;
pub mod path_finder;
pub mod path_find;
pub mod laws;
