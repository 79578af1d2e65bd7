pub mod tow_truck_service;
