//! Board model for a hexagonal resource-trading game: tile layouts,
//! production likelihood ("pips"), exact corner geometry on an integer
//! lattice, intersection aggregation and ranking, and a strict parser
//! for a compact textual board description.

pub mod app_state;
pub mod board;
pub mod geometry;
pub mod intersections;
pub mod format;
pub mod parser;
pub mod rank;
