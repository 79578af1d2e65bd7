use vstd::prelude::*;

verus! {

/// A tow truck as the dispatcher sees it: where it stands in the road graph.
#[derive(Clone, Debug, PartialEq, Eq)]
pub struct TowTruck {
    pub id: i32,
    pub driver_id: i32,
    pub status: String,
    pub area_id: i32,
    pub node_id: i32,
}

} // verus!
