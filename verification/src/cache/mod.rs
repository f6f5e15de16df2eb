//! Bounded caches.

pub mod lru_index;
pub mod route_cache;
pub mod subpath;
