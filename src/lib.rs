//! Road-network pathfinding: a packed adjacency container, a graph of map
//! nodes reduced to its largest connected component, a binary persistence
//! format, and single- and bidirectional A* search.

pub mod compact_array;
pub mod graph;
pub mod component;
pub mod frontier;
pub mod params;
pub mod search;
pub mod a_star;
pub mod bidirectional;
pub mod codec;
pub mod builder;
pub mod bounds;
