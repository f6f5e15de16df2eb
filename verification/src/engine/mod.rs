//! The rules around the route search: who may use which edge, what can be reached at all,
//! and how often a search is tried.

pub mod allowed;
pub mod attempt;
pub mod binary;
pub mod budget;
pub mod edges;
pub mod eligibility;
pub mod fx_map;
pub mod macros;
pub mod millis;
pub mod outcome;
pub mod profile;
pub mod reach;
pub mod run;
pub mod weight;
