//! The tile graph: which steps lead from a tile, and by what means.

pub mod chain_index;
pub mod movement;
pub mod navmesh_provider;
pub mod nodes;
pub mod plane_cache;
pub mod provider;
pub mod tables;
pub mod touch_cache;
pub mod ways;
