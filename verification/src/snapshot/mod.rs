//! The binary snapshot: header, sections, distance tables, writer and reader.

pub mod alt_pack;
pub mod manifest;
pub mod reader;
pub mod residency;
pub mod writer;
