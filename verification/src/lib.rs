//! Road graph, shortest-path dispatch of tow trucks and the per-area caches
//! that serve them.

pub mod cache;
pub mod domains;
pub mod edge_table;
pub mod models;
