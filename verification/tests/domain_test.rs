use cvrp::domain::route::Route;
use cvrp::domain::stop::Stop;
use cvrp::domain::vehicle::Vehicle;
use cvrp::errors::VehicleOverloadError;
use cvrp::services::distance_service::{DistanceMatrix, DistanceService};

#[test]
fn new_vehicle_is_empty() {
    let vehicle = Vehicle::new(7, 30);

    assert_eq!(vehicle.get_id(), 7);
    assert_eq!(vehicle.get_capacity(), 30);
    assert_eq!(vehicle.get_usage(), 0);
}

#[test]
fn vehicle_takes_load_up_to_its_capacity() {
    let mut vehicle = Vehicle::new(0, 30);

    assert!(vehicle.can_support_load(30));
    assert_eq!(vehicle.load(10), Ok(()));
    assert_eq!(vehicle.load(20), Ok(()));
    assert_eq!(vehicle.get_usage(), 30);
    assert!(vehicle.can_support_load(0));
    assert!(!vehicle.can_support_load(1));
}

#[test]
fn vehicle_refuses_overload_and_keeps_its_load() {
    let mut vehicle = Vehicle::new(3, 30);
    vehicle.load(25).unwrap();

    let refused = vehicle.load(6);

    assert_eq!(refused, Err(VehicleOverloadError { vehicle_id: 3, load: 6 }));
    assert_eq!(vehicle.get_usage(), 25);
    assert!(vehicle.get_usage() <= vehicle.get_capacity());
}

#[test]
fn vehicle_refuses_load_that_would_wrap() {
    let mut vehicle = Vehicle::new(0, u32::MAX);
    vehicle.load(u32::MAX - 1).unwrap();

    assert!(vehicle.load(2).is_err());
    assert_eq!(vehicle.load(1), Ok(()));
    assert_eq!(vehicle.get_usage(), u32::MAX);
}

#[test]
fn new_route_is_empty() {
    let route = Route::new(Vehicle::new(0, 100));

    assert!(route.stops.is_empty());
    assert!(route.get_current_stop().is_none());
    assert_eq!(route.total_distance(), 0);
    assert_eq!(route.vehicle.get_usage(), 0);
}

#[test]
fn route_adds_stops_and_distance() {
    let mut route = Route::new(Vehicle::new(0, 100));

    route.add_stop(Stop::new(4, 10), 0).unwrap();
    route.add_stop(Stop::new(9, 15), 7).unwrap();
    route.add_stop(Stop::new(2, 5), 11).unwrap();

    let ids: Vec<u32> = route.stops.iter().map(|stop| stop.id).collect();
    assert_eq!(ids, vec![4, 9, 2]);
    assert_eq!(route.total_distance(), 18);
    assert_eq!(route.vehicle.get_usage(), 30);
    assert_eq!(route.get_current_stop().unwrap().id, 2);
}

#[test]
fn route_refuses_stop_that_does_not_fit() {
    let mut route = Route::new(Vehicle::new(5, 20));
    route.add_stop(Stop::new(1, 15), 0).unwrap();

    assert!(route.can_add_stop(&Stop::new(2, 5)));
    assert!(!route.can_add_stop(&Stop::new(2, 6)));

    let refused = route.add_stop(Stop::new(2, 6), 9);

    assert_eq!(refused, Err(VehicleOverloadError { vehicle_id: 5, load: 6 }));
    assert_eq!(route.stops.len(), 1);
    assert_eq!(route.total_distance(), 0);
    assert_eq!(route.vehicle.get_usage(), 15);
}

#[test]
fn route_holds_the_largest_distances() {
    let mut route = Route::new(Vehicle::new(0, 100));

    route.add_stop(Stop::new(0, 1), u64::MAX).unwrap();
    route.add_stop(Stop::new(1, 1), u64::MAX).unwrap();

    assert_eq!(route.total_distance(), 2 * (u64::MAX as u128));
}

#[test]
fn swap_stops_exchanges_two_positions() {
    let mut route = Route::new(Vehicle::new(0, 100));
    for id in 0..4 {
        route.add_stop(Stop::new(id, 1), 3).unwrap();
    }

    route.swap_stops(1, 3);

    let ids: Vec<u32> = route.stops.iter().map(|stop| stop.id).collect();
    assert_eq!(ids, vec![0, 3, 2, 1]);
    assert_eq!(route.total_distance(), 12);
    assert_eq!(route.vehicle.get_usage(), 4);
}

#[test]
fn distance_matrix_keeps_ordered_pairs_apart() {
    let mut matrix = DistanceMatrix::new();

    assert_eq!(matrix.insert(1, 2, 30), None);
    assert_eq!(matrix.insert(2, 1, 40), None);
    assert_eq!(matrix.insert(1, 2, 35), Some(30));

    assert_eq!(matrix.get(1, 2), Some(35));
    assert_eq!(matrix.get(2, 1), Some(40));
    assert_eq!(matrix.get(1, 1), None);
    assert_eq!(matrix.get(0, 0x1_0000_0002 as u64 as u32), None);
}

#[test]
fn distance_matrix_tells_large_identities_apart() {
    let mut matrix = DistanceMatrix::new();
    matrix.insert(u32::MAX, 0, 1);
    matrix.insert(0, u32::MAX, 2);
    matrix.insert(u32::MAX, u32::MAX, 3);

    assert_eq!(matrix.get(u32::MAX, 0), Some(1));
    assert_eq!(matrix.get(0, u32::MAX), Some(2));
    assert_eq!(matrix.get(u32::MAX, u32::MAX), Some(3));
    assert_eq!(matrix.get(u32::MAX - 1, u32::MAX), None);
}

#[test]
fn distance_service_reports_absent_pairs() {
    let mut matrix = DistanceMatrix::new();
    matrix.insert(0, 1, 12);
    let service = DistanceService::new(matrix);

    assert_eq!(service.get_distance(&Stop::new(0, 1), &Stop::new(1, 1)), Some(12));
    assert_eq!(service.get_distance(&Stop::new(1, 1), &Stop::new(0, 1)), None);
}

#[test]
fn path_length_is_the_sum_of_consecutive_distances() {
    let mut matrix = DistanceMatrix::new();
    matrix.insert(0, 1, 12);
    matrix.insert(1, 2, 30);
    matrix.insert(2, 0, 7);
    let service = DistanceService::new(matrix);
    let stops = vec![Stop::new(0, 1), Stop::new(1, 1), Stop::new(2, 1), Stop::new(0, 1)];

    assert_eq!(service.get_path_length(&stops), Some(49));
    assert_eq!(service.get_path_length(&stops[..1]), Some(0));
    assert_eq!(service.get_path_length(&stops[..0]), Some(0));
    assert_eq!(service.get_path_length(&[stops[1], stops[0]]), None);
}

#[test]
fn route_is_measured_when_its_distance_is_the_path_length() {
    let mut matrix = DistanceMatrix::new();
    matrix.insert(0, 1, 12);
    matrix.insert(1, 2, 30);
    let service = DistanceService::new(matrix);

    let mut route = Route::new(Vehicle::new(0, 100));
    route.add_stop(Stop::new(0, 1), 0).unwrap();
    route.add_stop(Stop::new(1, 1), 12).unwrap();
    assert!(route.is_measured_by(&service));

    route.add_stop(Stop::new(2, 1), 31).unwrap();
    assert!(!route.is_measured_by(&service));
}
