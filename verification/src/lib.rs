//! Minimum-cost link-disjoint paths between two nodes of a weighted directed
//! graph, by successive shortest paths with link reversal and uncrossing.

pub mod compose;
pub mod graph;
pub mod links;
pub mod names;
pub mod potential;
pub mod rebuild;
pub mod route;
pub mod search;
pub mod text;
pub mod working;
