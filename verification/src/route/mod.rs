//! Answers to route requests: which search runs, what is served, and how a path is told as
//! actions.

pub mod abilities;
pub mod cooldowns;
pub mod decide;
pub mod payload;
pub mod race;
pub mod reachable;
pub mod request;
pub mod respond;
pub mod telling;
