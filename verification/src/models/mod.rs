pub mod graph;
pub mod laws;
pub mod paths;
pub mod reach;
pub mod search;
pub mod tow_truck;
