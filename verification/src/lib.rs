pub mod bytes;
pub mod cache;
pub mod cost;
pub mod db;
pub mod engine;
pub mod graph;
pub mod jps;
pub mod json;
pub mod models;
pub mod options;
pub mod planner;
pub mod requirements;
pub mod route;
pub mod service;
pub mod snapshot;
pub mod sort;
pub mod text;
