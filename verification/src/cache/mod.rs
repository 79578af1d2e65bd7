pub mod edge_cache;
pub mod graph_cache;
pub mod img_cache;
pub mod node_cache;
pub mod laws;
