use vstd::prelude::*;

verus! {

/// The tow-truck service: the repositories it reads trucks, orders and the
/// map from. What it does with them is I/O that the application drives; the
/// decisions it takes on the way are the functions below.
pub struct TowTruckService<T, U, V> {
    tow_truck_repository: T,
    order_repository: U,
    map_repository: V,
}

impl<T, U, V> TowTruckService<T, U, V> {
    pub closed spec fn tow_truck_repository_spec(&self) -> T {
        self.tow_truck_repository
    }

    pub closed spec fn order_repository_spec(&self) -> U {
        self.order_repository
    }

    pub closed spec fn map_repository_spec(&self) -> V {
        self.map_repository
    }

    pub fn new(tow_truck_repository: T, order_repository: U, map_repository: V) -> (service: Self)
        ensures
            service.tow_truck_repository_spec() == tow_truck_repository,
            service.order_repository_spec() == order_repository,
            service.map_repository_spec() == map_repository,
    {
        TowTruckService { tow_truck_repository, order_repository, map_repository }
    }

    pub fn tow_truck_repository(&self) -> (r: &T)
        ensures
            *r == self.tow_truck_repository_spec(),
    {
        &self.tow_truck_repository
    }

    pub fn order_repository(&self) -> (r: &U)
        ensures
            *r == self.order_repository_spec(),
    {
        &self.order_repository
    }

    pub fn map_repository(&self) -> (r: &V)
        ensures
            *r == self.map_repository_spec(),
    {
        &self.map_repository
    }
}

/// Areas up to 3 take their roads from the edge cache; the others load them
/// from the map repository.
pub fn uses_edge_cache(area_id: i32) -> (r: bool)
    ensures
        r == (area_id <= 3),
{
    area_id <= 3
}

/// The cache slot number of `area_id`: the area itself where it names one of
/// the seven cached areas, `None` otherwise.
pub fn cache_area(area_id: i32) -> (r: Option<usize>)
    ensures
        r is Some <==> 1 <= area_id <= 7,
        r matches Some(a) ==> a == area_id,
{
    if 1 <= area_id && area_id <= 7 {
        Some(area_id as usize)
    } else {
        None
    }
}

} // verus!
