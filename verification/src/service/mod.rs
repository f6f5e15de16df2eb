//! What a running service keeps: its counters, its search contexts and its permits.

pub mod lifecycle;
pub mod metrics;
pub mod pool;
pub mod serialization;
pub mod settings;
