//! Route planning on tiles and on the abstract cluster graph.

pub mod cluster;
pub mod dijkstra;
pub mod graph;
pub mod high_level;
pub mod hops;
pub mod hpa;
pub mod links;
pub mod micro_astar;
pub mod open_list;
pub mod path_blob;
pub mod rows;
pub mod tiles;
