//! An in-memory bill of materials: parts linked into an acyclic
//! parent/child graph, with traversal, filtering and checked updates.

pub mod cli;
pub mod errors;
pub mod graph;
pub mod laws;
pub mod part;
pub mod parts_list;
pub mod query;
pub mod response;
pub mod routes;
pub mod shared;
